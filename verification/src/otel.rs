//! Spans as the line-delimited file format records them.

use crate::attributes::AttributeMap;
use crate::span::{span_views, SpanView};
use crate::text::{decimal, push_decimal, push_signed_decimal, same_text, signed_decimal};
use crate::time::{elapsed_micros, Timestamp};
use vstd::prelude::*;
use vstd::std_specs::convert::FromSpecImpl;

verus! {

/// The identifiers that place a span: its trace and itself.
#[derive(Debug)]
pub struct SpanContext {
    pub trace_id: String,
    pub span_id: String,
}

/// How the operation ended.
#[derive(Debug)]
pub struct Status {
    pub code: String,
    pub description: String,
}

/// The value of a resource entry; only strings are recorded.
#[derive(Debug)]
pub enum ResourceValue {
    String { value: String },
}

/// One entry of the resource that produced the span.
#[derive(Debug)]
pub struct Resource {
    pub key: String,
    pub value: ResourceValue,
}

/// The instrumentation library that recorded the span.
#[derive(Debug)]
pub struct Library {
    pub name: String,
    pub version: String,
    pub schema_url: String,
}

/// The value of a span attribute; only 64-bit integers are recorded.
#[derive(Debug)]
pub enum SpanAttributeValue {
    Int64 { value: i64 },
}

/// One attribute of a span.
#[derive(Debug)]
pub struct SpanAttribute {
    pub key: String,
    pub value: SpanAttributeValue,
}

/// One record of the file format.
#[derive(Debug)]
pub struct Span {
    pub name: String,
    pub context: SpanContext,
    pub parent: SpanContext,
    pub start: Timestamp,
    pub end: Timestamp,
    pub attributes: Option<Vec<SpanAttribute>>,
    pub status: Status,
    pub resource: Vec<Resource>,
    pub library: Library,
}

/// Whether every character is the digit zero.
pub open spec fn all_zeros(text: Seq<char>) -> bool {
    forall|i: int| 0 <= i < text.len() ==> #[trigger] text[i] == '0'
}

/// The text of an attribute's value.
pub open spec fn attribute_text(value: SpanAttributeValue) -> Seq<char> {
    match value {
        SpanAttributeValue::Int64 { value } => signed_decimal(value as int),
    }
}

/// The mapping of a record's attributes: a later attribute in place of an
/// earlier one with the same key.
pub open spec fn attribute_entries(attributes: Seq<SpanAttribute>) -> Map<Seq<char>, Seq<char>>
    decreases attributes.len(),
{
    if attributes.len() == 0 {
        Map::empty()
    } else {
        attribute_entries(attributes.drop_last()).insert(
            attributes.last().key@,
            attribute_text(attributes.last().value),
        )
    }
}

/// The text of a resource entry's value.
pub open spec fn resource_text(value: ResourceValue) -> Seq<char> {
    match value {
        ResourceValue::String { value } => value@,
    }
}

/// The mapping of a record's resource entries: a later entry in place of an
/// earlier one with the same key.
pub open spec fn resource_entries(resource: Seq<Resource>) -> Map<Seq<char>, Seq<char>>
    decreases resource.len(),
{
    if resource.len() == 0 {
        Map::empty()
    } else {
        resource_entries(resource.drop_last()).insert(
            resource.last().key@,
            resource_text(resource.last().value),
        )
    }
}

/// The status code as the metadata show it: a dash for `Unset`.
pub open spec fn shown_code(code: Seq<char>) -> Seq<char> {
    if code == "Unset"@ {
        "-"@
    } else {
        code
    }
}

/// The metadata of a record: its resource entries, and on top of them its
/// status and its instrumentation library under their fixed keys.
pub open spec fn record_metadata(record: Span) -> Map<Seq<char>, Seq<char>> {
    resource_entries(record.resource@).insert(
        "status.code"@,
        shown_code(record.status.code@),
    ).insert("status.description"@, record.status.description@).insert(
        "library.name"@,
        record.library.name@,
    ).insert("library.version"@, record.library.version@).insert(
        "library.schema_url"@,
        record.library.schema_url@,
    )
}

/// The span that a record stands for.
pub open spec fn converted(record: Span) -> SpanView {
    SpanView {
        id: record.context.span_id@,
        name: record.name@,
        start: record.start,
        offset_micros: 0,
        duration_micros: elapsed_micros(record.end, record.start),
        level: 0,
        trace_id: record.context.trace_id@,
        parent_id: if all_zeros(record.parent.trace_id@) {
            None
        } else {
            Some(record.parent.span_id@)
        },
        attributes: match record.attributes {
            Some(attributes) => attribute_entries(attributes@),
            None => Map::empty(),
        },
        metadata: record_metadata(record),
    }
}

impl Span {
    /// Whether the record is the root of a trace: its parent's trace
    /// identifier holds nothing but zeros.
    pub fn is_root(&self) -> (r: bool)
        ensures
            r == all_zeros(self.parent.trace_id@),
    {
        let text = self.parent.trace_id.as_str();
        let n = text.unicode_len();
        let mut i: usize = 0;
        while i < n
            invariant
                i <= n,
                n == text@.len(),
                text@ == self.parent.trace_id@,
                forall|j: int| 0 <= j < i ==> #[trigger] text@[j] == '0',
            decreases n - i,
        {
            if text.get_char(i) != '0' {
                assert(text@[i as int] != '0');
                return false;
            }
            i += 1;
        }
        true
    }
}

impl FromSpecImpl<Span> for crate::span::Span {
    open spec fn obeys_from_spec() -> bool {
        false
    }

    open spec fn from_spec(v: Span) -> Self {
        arbitrary()
    }
}

impl From<Span> for crate::span::Span {
    /// The span that a record stands for.
    fn from(value: Span) -> (r: Self)
        ensures
            r@ == converted(value),
    {
        let parent_id = if value.is_root() {
            None
        } else {
            Some(value.parent.span_id)
        };
        let mut attributes = AttributeMap::new();
        match &value.attributes {
            Some(list) => {
                let mut i: usize = 0;
                while i < list.len()
                    invariant
                        i <= list.len(),
                        attributes@ == attribute_entries(list@.take(i as int)),
                    decreases list.len() - i,
                {
                    let mut text = String::new();
                    match &list[i].value {
                        SpanAttributeValue::Int64 { value } => {
                            push_signed_decimal(&mut text, *value);
                        },
                    }
                    attributes.insert(list[i].key.clone(), text);
                    proof {
                        assert(list@.take(i + 1).drop_last() == list@.take(i as int));
                    }
                    i += 1;
                }
                proof {
                    assert(list@.take(i as int) == list@);
                }
            },
            None => {},
        }
        let mut metadata = AttributeMap::new();
        let mut i: usize = 0;
        while i < value.resource.len()
            invariant
                i <= value.resource.len(),
                metadata@ == resource_entries(value.resource@.take(i as int)),
            decreases value.resource.len() - i,
        {
            let text = match &value.resource[i].value {
                ResourceValue::String { value } => value.clone(),
            };
            metadata.insert(value.resource[i].key.clone(), text);
            proof {
                assert(value.resource@.take(i + 1).drop_last() == value.resource@.take(i as int));
            }
            i += 1;
        }
        proof {
            assert(value.resource@.take(i as int) == value.resource@);
        }
        let duration_micros = value.end.elapsed_since(&value.start);
        let code = if same_text(value.status.code.as_str(), "Unset") {
            "-".to_owned()
        } else {
            value.status.code
        };
        metadata.insert("status.code".to_owned(), code);
        metadata.insert("status.description".to_owned(), value.status.description);
        metadata.insert("library.name".to_owned(), value.library.name);
        metadata.insert("library.version".to_owned(), value.library.version);
        metadata.insert("library.schema_url".to_owned(), value.library.schema_url);
        crate::span::Span {
            id: value.context.span_id,
            name: value.name,
            start: value.start,
            offset_micros: 0,
            duration_micros,
            level: 0,
            trace_id: value.context.trace_id,
            parent_id,
            attributes,
            metadata,
        }
    }
}

/// The position of the first line that could not be decoded.
pub open spec fn first_failure(lines: Seq<Result<Span, String>>) -> Option<int>
    decreases lines.len(),
{
    if lines.len() == 0 {
        None
    } else {
        match first_failure(lines.drop_last()) {
            Some(i) => Some(i),
            None => if lines.last() is Err {
                Some(lines.len() - 1)
            } else {
                None
            },
        }
    }
}

/// The message for a line that could not be decoded: its number, counted
/// from 1, and the cause.
pub open spec fn line_error(position: int, cause: Seq<char>) -> Seq<char> {
    "unable to parse line "@ + decimal((position + 1) as nat) + ": "@ + cause
}

/// The spans that the records of a file stand for.
pub open spec fn records_converted(lines: Seq<Result<Span, String>>) -> Seq<SpanView> {
    lines.map_values(|line: Result<Span, String>| converted(line->Ok_0))
}

/// Turns the decoded lines of a file into spans, all or none.
///
/// Where a line could not be decoded, the load fails with the number of the
/// first such line and its cause.
pub fn collect_records(lines: Vec<Result<Span, String>>) -> (r: Result<
    Vec<crate::span::Span>,
    String,
>)
    ensures
        match first_failure(lines@) {
            Some(i) => r matches Err(message) && message@ == line_error(i, lines@[i]->Err_0@),
            None => r matches Ok(spans) && span_views(spans@) == records_converted(lines@),
        },
{
    let mut i: usize = 0;
    while i < lines.len()
        invariant
            i <= lines.len(),
            first_failure(lines@.take(i as int)) is None,
        decreases lines.len() - i,
    {
        proof {
            assert(lines@.take(i + 1).drop_last() == lines@.take(i as int));
        }
        match &lines[i] {
            Ok(_) => {},
            Err(cause) => {
                let mut message = "unable to parse line ".to_owned();
                push_decimal(&mut message, (i + 1) as u64);
                message.push_str(": ");
                message.push_str(cause.as_str());
                proof {
                    assert(message@ =~= line_error(i as int, cause@));
                    assert(first_failure(lines@.take(i + 1)) == Some(i as int));
                    lemma_first_failure_stays(lines@, i + 1);
                }
                return Err(message);
            },
        }
        i += 1;
    }
    proof {
        assert(lines@.take(i as int) == lines@);
    }
    let mut spans: Vec<crate::span::Span> = Vec::new();
    for line in it: lines
        invariant
            it.seq() == lines@,
            first_failure(lines@) is None,
            span_views(spans@) == records_converted(lines@.take(it.index() as int)),
    {
        let ghost at = it.index() as int;
        proof {
            lemma_no_failure(lines@, at);
            assert(line == lines@[at]);
        }
        match line {
            Ok(record) => {
                let span = crate::span::Span::from(record);
                proof {
                    assert(lines@.take(at + 1)[at] == lines@[at]);
                    assert(records_converted(lines@.take(at + 1)) =~= records_converted(
                        lines@.take(at),
                    ).push(converted(record)));
                    assert(span_views(spans@.push(span)) =~= span_views(spans@).push(span@));
                }
                spans.push(span);
            },
            Err(_) => {},
        }
    }
    proof {
        assert(lines@.take(lines@.len() as int) == lines@);
    }
    Ok(spans)
}

/// A failure among the first `n` lines is the first failure of them all.
proof fn lemma_first_failure_stays(lines: Seq<Result<Span, String>>, n: int)
    requires
        0 <= n <= lines.len(),
        first_failure(lines.take(n)) is Some,
    ensures
        first_failure(lines) == first_failure(lines.take(n)),
    decreases lines.len() - n,
{
    if n < lines.len() {
        assert(lines.take(n + 1).drop_last() == lines.take(n));
        lemma_first_failure_stays(lines, n + 1);
    } else {
        assert(lines.take(n) == lines);
    }
}

/// Where no line fails, every line was decoded.
proof fn lemma_no_failure(lines: Seq<Result<Span, String>>, i: int)
    requires
        0 <= i < lines.len(),
        first_failure(lines) is None,
    ensures
        lines[i] is Ok,
    decreases lines.len(),
{
    if i < lines.len() - 1 {
        lemma_no_failure(lines.drop_last(), i);
    }
}

} // verus!
