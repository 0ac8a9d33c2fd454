//! The address of the ingestion endpoint and its life cycle.

use crate::text::{
    byte_failure, parse_u16, parse_u8, pieces, same_text, split_on, texts, unsigned_value,
};
use vstd::prelude::*;

verus! {

/// The address that the ingestion endpoint listens on.
#[derive(Clone, Copy, Debug)]
pub struct Endpoint {
    /// The four numbers of the host's address.
    pub host: (u8, u8, u8, u8),
    pub port: u16,
}

/// Whether the text stands for a number that fits in 8 bits.
pub open spec fn is_byte(text: Seq<char>) -> bool {
    unsigned_value(text) matches Some(n) && n <= u8::MAX
}

/// The number that the text stands for.
pub open spec fn byte_of(text: Seq<char>) -> u8 {
    unsigned_value(text)->Some_0 as u8
}

/// The position of the first text that does not stand for a number that
/// fits in 8 bits.
pub open spec fn first_bad(parts: Seq<Seq<char>>) -> Option<int>
    decreases parts.len(),
{
    if parts.len() == 0 {
        None
    } else {
        match first_bad(parts.drop_last()) {
            Some(i) => Some(i),
            None => if is_byte(parts.last()) {
                None
            } else {
                Some(parts.len() - 1)
            },
        }
    }
}

/// The host that is meant: `localhost` stands for `127.0.0.1`.
pub open spec fn host_address(host: Seq<char>) -> Seq<char> {
    if host == "localhost"@ {
        "127.0.0.1"@
    } else {
        host
    }
}

/// The address that a host and a port stand for, or why they stand for none.
///
/// The port must be a number that fits in 16 bits. The host must be four
/// numbers that fit in 8 bits each, separated by full stops; the first part
/// that is no such number decides the error.
pub open spec fn parsed_endpoint(host: Seq<char>, port: Seq<char>) -> Result<Endpoint, Seq<char>> {
    let parts = pieces(host_address(host), '.');
    if !(unsigned_value(port) matches Some(n) && n <= u16::MAX) {
        Err("port must be a valid u16"@)
    } else if first_bad(parts) is Some {
        Err(byte_failure(parts[first_bad(parts)->Some_0]))
    } else if parts.len() != 4 {
        Err("host must match IP format 'XXX.XXX.XXX.XXX'"@)
    } else {
        Ok(
            Endpoint {
                host: (byte_of(parts[0]), byte_of(parts[1]), byte_of(parts[2]), byte_of(parts[3])),
                port: unsigned_value(port)->Some_0 as u16,
            },
        )
    }
}

/// The characters of a parsing result.
pub open spec fn endpoint_view(r: Result<Endpoint, String>) -> Result<Endpoint, Seq<char>> {
    match r {
        Ok(endpoint) => Ok(endpoint),
        Err(message) => Err(message@),
    }
}

/// A bad part among the first `n` is the first bad part of them all.
proof fn lemma_first_bad_stays(parts: Seq<Seq<char>>, n: int)
    requires
        0 <= n <= parts.len(),
        first_bad(parts.take(n)) is Some,
    ensures
        first_bad(parts) == first_bad(parts.take(n)),
    decreases parts.len() - n,
{
    if n < parts.len() {
        assert(parts.take(n + 1).drop_last() == parts.take(n));
        lemma_first_bad_stays(parts, n + 1);
    } else {
        assert(parts.take(n) == parts);
    }
}

/// Reads the address that a host and a port stand for.
pub fn parse_endpoint(host: &str, port: &str) -> (r: Result<Endpoint, String>)
    ensures
        endpoint_view(r) == parsed_endpoint(host@, port@),
{
    let port_number = match parse_u16(port) {
        Some(number) => number,
        None => {
            return Err("port must be a valid u16".to_owned());
        },
    };
    let found = if same_text(host, "localhost") {
        split_on("127.0.0.1", '.')
    } else {
        split_on(host, '.')
    };
    let ghost parts = pieces(host_address(host@), '.');
    let mut numbers: Vec<u8> = Vec::new();
    let mut i: usize = 0;
    while i < found.len()
        invariant
            i <= found.len(),
            texts(found@) == parts,
            parts == pieces(host_address(host@), '.'),
            unsigned_value(port@) == Some(port_number as nat),
            first_bad(parts.take(i as int)) is None,
            numbers@.len() == i,
            forall|j: int| 0 <= j < i ==> #[trigger] numbers@[j] == byte_of(parts[j]),
        decreases found.len() - i,
    {
        proof {
            assert(parts.take(i + 1).drop_last() == parts.take(i as int));
            assert(texts(found@)[i as int] == found@[i as int]@);
        }
        match parse_u8(found[i].as_str()) {
            Ok(number) => {
                numbers.push(number);
            },
            Err(message) => {
                proof {
                    assert(first_bad(parts.take(i + 1)) == Some(i as int));
                    lemma_first_bad_stays(parts, i + 1);
                }
                return Err(message);
            },
        }
        i += 1;
    }
    proof {
        assert(parts.take(i as int) == parts);
    }
    if numbers.len() != 4 {
        return Err("host must match IP format 'XXX.XXX.XXX.XXX'".to_owned());
    }
    Ok(Endpoint { host: (numbers[0], numbers[1], numbers[2], numbers[3]), port: port_number })
}

/// The life cycle of the ingestion endpoint: idle, or active on an address.
#[derive(Debug)]
pub struct Collector {
    active: Option<Endpoint>,
}

impl View for Collector {
    type V = Option<Endpoint>;

    closed spec fn view(&self) -> Option<Endpoint> {
        self.active
    }
}

impl Collector {
    /// An idle endpoint.
    pub fn new() -> (collector: Self)
        ensures
            collector@ is None,
    {
        Collector { active: None }
    }

    /// The address that the endpoint is active on, if it is active.
    pub fn active(&self) -> (active: Option<Endpoint>)
        ensures
            active == self@,
    {
        self.active
    }

    /// Starts the endpoint on the address that `host` and `port` stand for,
    /// and returns the address to listen on.
    ///
    /// An endpoint that is active already is not started again, and one
    /// whose address cannot be read stays idle.
    pub fn start_collector(&mut self, host: &str, port: &str) -> (r: Result<Endpoint, String>)
        ensures
            old(self)@ is Some ==> (r matches Err(message) && message@
                == "collector already active"@),
            old(self)@ is Some ==> final(self)@ == old(self)@,
            old(self)@ is None ==> endpoint_view(r) == parsed_endpoint(host@, port@),
            old(self)@ is None ==> final(self)@ == match r {
                Ok(endpoint) => Some(endpoint),
                Err(_) => None,
            },
    {
        if self.active.is_some() {
            return Err("collector already active".to_owned());
        }
        let endpoint = parse_endpoint(host, port)?;
        self.active = Some(endpoint);
        Ok(endpoint)
    }

    /// Stops the endpoint; an idle endpoint cannot be stopped.
    pub fn stop_collector(&mut self) -> (r: Result<(), String>)
        ensures
            final(self)@ is None,
            old(self)@ is Some ==> r is Ok,
            old(self)@ is None ==> (r matches Err(message) && message@ == "no active collector"@),
    {
        if self.active.is_some() {
            self.active = None;
            Ok(())
        } else {
            Err("no active collector".to_owned())
        }
    }
}

impl Default for Collector {
    fn default() -> (collector: Self)
        ensures
            collector@ is None,
    {
        Collector::new()
    }
}

} // verus!
