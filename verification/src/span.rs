//! The canonical span record and its decoding from a submitted span.

use crate::attributes::AttributeMap;
use crate::text::{big_endian, lower_hex, push_decimal, push_lower_hex, read_big_endian};
use crate::time::Timestamp;
use crate::wire::RawSpan;
use vstd::prelude::*;

verus! {

/// A single observed operation.
#[derive(Debug)]
pub struct Span {
    pub id: String,
    pub name: String,
    pub start: Timestamp,
    /// Microseconds from the start of the trace's root span.
    pub offset_micros: i64,
    /// Microseconds that the span lasted.
    pub duration_micros: i64,
    /// Depth within the trace; 0 for the root.
    pub level: usize,
    pub trace_id: String,
    /// The identifier of the parent span; `None` for a root.
    pub parent_id: Option<String>,
    pub attributes: AttributeMap,
    pub metadata: AttributeMap,
}

/// A span as a mathematical value.
pub struct SpanView {
    pub id: Seq<char>,
    pub name: Seq<char>,
    pub start: Timestamp,
    pub offset_micros: i64,
    pub duration_micros: i64,
    pub level: nat,
    pub trace_id: Seq<char>,
    pub parent_id: Option<Seq<char>>,
    pub attributes: Map<Seq<char>, Seq<char>>,
    pub metadata: Map<Seq<char>, Seq<char>>,
}

impl SpanView {
    /// The span at another depth.
    pub open spec fn at_level(self, level: nat) -> SpanView {
        SpanView { level, ..self }
    }

    /// The span at another offset.
    pub open spec fn at_offset(self, offset_micros: i64) -> SpanView {
        SpanView { offset_micros, ..self }
    }

    /// Whether the span names `id` as its parent.
    pub open spec fn is_child_of(self, id: Seq<char>) -> bool {
        self.parent_id == Some(id)
    }
}

/// The characters of an optional string.
pub open spec fn optional_text(text: Option<String>) -> Option<Seq<char>> {
    match text {
        Some(t) => Some(t@),
        None => None,
    }
}

impl View for Span {
    type V = SpanView;

    open spec fn view(&self) -> SpanView {
        SpanView {
            id: self.id@,
            name: self.name@,
            start: self.start,
            offset_micros: self.offset_micros,
            duration_micros: self.duration_micros,
            level: self.level as nat,
            trace_id: self.trace_id@,
            parent_id: optional_text(self.parent_id),
            attributes: self.attributes@,
            metadata: self.metadata@,
        }
    }
}

/// The spans of a sequence as mathematical values.
pub open spec fn span_views(spans: Seq<Span>) -> Seq<SpanView> {
    spans.map_values(|s: Span| s@)
}

impl Clone for Span {
    fn clone(&self) -> (r: Self)
        ensures
            r@ == self@,
    {
        Span {
            id: self.id.clone(),
            name: self.name.clone(),
            start: self.start,
            offset_micros: self.offset_micros,
            duration_micros: self.duration_micros,
            level: self.level,
            trace_id: self.trace_id.clone(),
            parent_id: match &self.parent_id {
                Some(p) => Some(p.clone()),
                None => None,
            },
            attributes: self.attributes.clone(),
            metadata: self.metadata.clone(),
        }
    }
}

impl Default for Span {
    /// A span without a name, identifiers or attributes that starts at the
    /// epoch.
    fn default() -> (r: Self)
        ensures
            r@ == (SpanView {
                id: Seq::empty(),
                name: Seq::empty(),
                start: Timestamp::at(0, 0),
                offset_micros: 0,
                duration_micros: 0,
                level: 0,
                trace_id: Seq::empty(),
                parent_id: None,
                attributes: Map::empty(),
                metadata: Map::empty(),
            }),
    {
        Span {
            id: String::new(),
            name: String::new(),
            start: Timestamp::default(),
            offset_micros: 0,
            duration_micros: 0,
            level: 0,
            trace_id: String::new(),
            parent_id: None,
            attributes: AttributeMap::new(),
            metadata: AttributeMap::new(),
        }
    }
}

/// The identifier that a byte string stands for: its big-endian value in
/// lower-case hexadecimal.
pub open spec fn identifier(bytes: Seq<u8>) -> Seq<char> {
    lower_hex(big_endian(bytes))
}

/// The time `nanos` nanoseconds after the epoch.
pub open spec fn time_of(nanos: u64) -> Timestamp {
    Timestamp::at(nanos as int / 1_000_000_000, nanos as int % 1_000_000_000)
}

/// What decoding a submitted span gives: the span, or why it is rejected.
///
/// The span identifier must have 8 bytes, the trace identifier 16, and the
/// parent's identifier 8 or none; the lengths are tested in this order.
pub open spec fn decoded(
    raw: RawSpan,
    attributes: Map<Seq<char>, Seq<char>>,
    resource: Map<Seq<char>, Seq<char>>,
    scope: Map<Seq<char>, Seq<char>>,
) -> Result<SpanView, Seq<char>> {
    if raw.span_id@.len() != 8 {
        Err("span_id of 8 bytes"@)
    } else if raw.trace_id@.len() != 16 {
        Err("trace_id of 16 bytes"@)
    } else if raw.parent_span_id@.len() != 0 && raw.parent_span_id@.len() != 8 {
        Err("parent_span_id of 8 bytes"@)
    } else {
        Ok(
            SpanView {
                id: identifier(raw.span_id@),
                name: raw.name@,
                start: time_of(raw.start_time_unix_nano),
                offset_micros: 0,
                duration_micros: (raw.end_time_unix_nano / 1000 - raw.start_time_unix_nano
                    / 1000) as i64,
                level: 0,
                trace_id: identifier(raw.trace_id@),
                parent_id: if raw.parent_span_id@.len() == 0 {
                    None
                } else {
                    Some(identifier(raw.parent_span_id@))
                },
                attributes,
                metadata: resource.union_prefer_right(scope),
            },
        )
    }
}

/// The characters of a decoding result.
pub open spec fn result_view(r: Result<Span, String>) -> Result<SpanView, Seq<char>> {
    match r {
        Ok(span) => Ok(span@),
        Err(message) => Err(message@),
    }
}

/// Renders the identifier that a byte string stands for.
fn identifier_of(bytes: &Vec<u8>) -> (id: String)
    requires
        bytes.len() <= 16,
    ensures
        id@ == identifier(bytes@),
{
    let mut id = String::new();
    push_lower_hex(&mut id, read_big_endian(bytes));
    id
}

impl Span {
    /// Decodes a submitted span.
    ///
    /// The span's own attributes are taken as they are; its metadata are
    /// the resource's attributes with the instrumentation scope's stored on
    /// top of them.
    pub fn new(
        raw: RawSpan,
        attributes: AttributeMap,
        resource_attributes: AttributeMap,
        instrument_attributes: AttributeMap,
    ) -> (r: Result<Self, String>)
        ensures
            result_view(r) == decoded(
                raw,
                attributes@,
                resource_attributes@,
                instrument_attributes@,
            ),
    {
        Self::decode(&raw, attributes, resource_attributes, instrument_attributes)
    }

    /// Decodes a submitted span that stays with its owner.
    pub fn decode(
        raw: &RawSpan,
        attributes: AttributeMap,
        resource_attributes: AttributeMap,
        instrument_attributes: AttributeMap,
    ) -> (r: Result<Self, String>)
        ensures
            result_view(r) == decoded(
                *raw,
                attributes@,
                resource_attributes@,
                instrument_attributes@,
            ),
    {
        let start = match Timestamp::from_unix_nanos(raw.start_time_unix_nano) {
            Some(t) => t,
            None => {
                let mut text = "invalid start time ".to_owned();
                push_decimal(&mut text, raw.start_time_unix_nano);
                return Err(text);
            },
        };
        let end = match Timestamp::from_unix_nanos(raw.end_time_unix_nano) {
            Some(t) => t,
            None => {
                let mut text = "invalid end time ".to_owned();
                push_decimal(&mut text, raw.end_time_unix_nano);
                return Err(text);
            },
        };
        if raw.span_id.len() != 8 {
            return Err("span_id of 8 bytes".to_owned());
        }
        let id = identifier_of(&raw.span_id);
        if raw.trace_id.len() != 16 {
            return Err("trace_id of 16 bytes".to_owned());
        }
        let trace_id = identifier_of(&raw.trace_id);
        let parent_id = if raw.parent_span_id.len() == 0 {
            None
        } else {
            if raw.parent_span_id.len() != 8 {
                return Err("parent_span_id of 8 bytes".to_owned());
            }
            Some(identifier_of(&raw.parent_span_id))
        };
        let mut metadata = resource_attributes;
        metadata.extend(instrument_attributes);
        proof {
            let s = raw.start_time_unix_nano as int;
            let e = raw.end_time_unix_nano as int;
            Timestamp::lemma_at(s / 1_000_000_000, s % 1_000_000_000);
            Timestamp::lemma_at(e / 1_000_000_000, e % 1_000_000_000);
            assert((s / 1_000_000_000) * 1_000_000 + (s % 1_000_000_000) / 1000 == s / 1000);
            assert((e / 1_000_000_000) * 1_000_000 + (e % 1_000_000_000) / 1000 == e / 1000);
        }
        let duration_micros = end.unix_micros() - start.unix_micros();
        Ok(
            Span {
                id,
                name: raw.name.clone(),
                start,
                offset_micros: 0,
                duration_micros,
                level: 0,
                trace_id,
                parent_id,
                attributes,
                metadata,
            },
        )
    }
}

} // verus!
