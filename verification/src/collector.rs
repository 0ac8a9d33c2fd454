//! Decoding of collector export requests.

use crate::attributes::AttributeMap;
use crate::span::{decoded, span_views, Span, SpanView};
use crate::text::{bool_text, decimal, push_bool, push_decimal, push_signed_decimal, signed_decimal};
use crate::wire::{
    AnyValue, ExportTracePartialSuccess, ExportTraceServiceRequest, ExportTraceServiceResponse,
    InstrumentationScope, KeyValue, RawSpan, Resource, ResourceSpans, ScopeSpans, Value,
};
use vstd::prelude::*;

verus! {

/// The separator between the items of a rendered list.
pub open spec fn separator() -> Seq<char> {
    seq![',', ' ']
}

/// The canonical text of an attribute value.
///
/// Strings stand for themselves, booleans and numbers for their decimal
/// text, arrays and byte strings for their items between square brackets,
/// key/value lists for `key: value` items between braces, and an empty
/// value for the empty string.
pub open spec fn value_text(av: AnyValue) -> Seq<char>
    decreases av, 0nat,
{
    match av.value {
        Some(Value::StringValue(s)) => s@,
        Some(Value::BoolValue(b)) => bool_text(b),
        Some(Value::IntValue(i)) => signed_decimal(i as int),
        Some(Value::DoubleValue(text)) => text@,
        Some(Value::ArrayValue(list)) => seq!['['] + array_items_text(
            list.values@,
            list.values@.len(),
        ) + seq![']'],
        Some(Value::KvlistValue(list)) => seq!['{'] + pair_items_text(
            list.values@,
            list.values@.len(),
        ) + seq!['}'],
        Some(Value::BytesValue(bytes)) => seq!['['] + byte_items_text(bytes@) + seq![']'],
        None => Seq::empty(),
    }
}

/// The texts of the first `n` values, separated by a comma and a space.
pub open spec fn array_items_text(values: Seq<AnyValue>, n: nat) -> Seq<char>
    decreases values, n,
{
    if n == 0 || n > values.len() {
        Seq::empty()
    } else if n == 1 {
        value_text(values[0])
    } else {
        array_items_text(values, (n - 1) as nat) + separator() + value_text(values[n - 1])
    }
}

/// The text of one pair: its key, a colon and a space, and the text of its
/// value, or `null` where the value is absent.
pub open spec fn pair_text(pair: KeyValue) -> Seq<char>
    decreases pair, 0nat,
{
    pair.key@ + seq![':', ' '] + match pair.value {
        Some(av) => value_text(av),
        None => seq!['n', 'u', 'l', 'l'],
    }
}

/// The texts of the first `n` pairs, separated by a comma and a space.
pub open spec fn pair_items_text(pairs: Seq<KeyValue>, n: nat) -> Seq<char>
    decreases pairs, n,
{
    if n == 0 || n > pairs.len() {
        Seq::empty()
    } else if n == 1 {
        pair_text(pairs[0])
    } else {
        pair_items_text(pairs, (n - 1) as nat) + separator() + pair_text(pairs[n - 1])
    }
}

/// The decimal values of the bytes, separated by a comma and a space.
pub open spec fn byte_items_text(bytes: Seq<u8>) -> Seq<char>
    decreases bytes.len(),
{
    if bytes.len() == 0 {
        Seq::empty()
    } else if bytes.len() == 1 {
        decimal(bytes[0] as nat)
    } else {
        byte_items_text(bytes.drop_last()) + separator() + decimal(bytes.last() as nat)
    }
}

/// Renders an attribute value as its canonical text.
pub fn any_value_to_string(av: &AnyValue) -> (text: String)
    ensures
        text@ == value_text(*av),
    decreases av,
{
    let mut out = String::new();
    match &av.value {
        Some(Value::StringValue(val)) => {
            out = val.clone();
        },
        Some(Value::BoolValue(val)) => {
            push_bool(&mut out, *val);
        },
        Some(Value::IntValue(val)) => {
            push_signed_decimal(&mut out, *val);
        },
        Some(Value::DoubleValue(val)) => {
            out = val.clone();
        },
        Some(Value::ArrayValue(val)) => {
            out.push('[');
            let mut i: usize = 0;
            while i < val.values.len()
                invariant
                    i <= val.values.len(),
                    av.value == Some(Value::ArrayValue(*val)),
                    out@ == seq!['['] + array_items_text(val.values@, i as nat),
                decreases val.values.len() - i,
            {
                let ghost before = out@;
                if i > 0 {
                    out.push(',');
                    out.push(' ');
                }
                proof {
                    assert(decreases_to!(*av => av.value));
                    assert(decreases_to!(av.value => av.value->Some_0));
                    assert(decreases_to!(av.value->Some_0 => av.value->Some_0->ArrayValue_0));
                    assert(decreases_to!(*val => val.values));
                }
                let item = any_value_to_string(&val.values[i]);
                out.push_str(item.as_str());
                proof {
                    if i > 0 {
                        assert(out@ =~= before + separator() + value_text(val.values@[i as int]));
                    }
                    assert(out@ =~= seq!['['] + array_items_text(val.values@, (i + 1) as nat));
                }
                i += 1;
            }
            out.push(']');
        },
        Some(Value::KvlistValue(val)) => {
            out.push('{');
            let mut i: usize = 0;
            while i < val.values.len()
                invariant
                    i <= val.values.len(),
                    av.value == Some(Value::KvlistValue(*val)),
                    out@ == seq!['{'] + pair_items_text(val.values@, i as nat),
                decreases val.values.len() - i,
            {
                let ghost before = out@;
                if i > 0 {
                    out.push(',');
                    out.push(' ');
                }
                let pair = &val.values[i];
                proof {
                    assert(decreases_to!(*av => av.value));
                    assert(decreases_to!(av.value => av.value->Some_0));
                    assert(decreases_to!(av.value->Some_0 => av.value->Some_0->KvlistValue_0));
                    assert(decreases_to!(*val => val.values));
                    assert(decreases_to!(val.values => *pair));
                }
                let mut item = pair.key.clone();
                item.push(':');
                item.push(' ');
                match &pair.value {
                    Some(inner) => {
                        let inner_text = any_value_to_string(inner);
                        item.push_str(inner_text.as_str());
                    },
                    None => {
                        item.push('n');
                        item.push('u');
                        item.push('l');
                        item.push('l');
                    },
                }
                proof {
                    assert(item@ =~= pair_text(*pair));
                }
                out.push_str(item.as_str());
                proof {
                    if i > 0 {
                        assert(out@ =~= before + separator() + pair_text(val.values@[i as int]));
                    }
                    assert(out@ =~= seq!['{'] + pair_items_text(val.values@, (i + 1) as nat));
                }
                i += 1;
            }
            out.push('}');
        },
        Some(Value::BytesValue(val)) => {
            out.push('[');
            let mut i: usize = 0;
            while i < val.len()
                invariant
                    i <= val.len(),
                    out@ == seq!['['] + byte_items_text(val@.take(i as int)),
                decreases val.len() - i,
            {
                let ghost before = out@;
                if i > 0 {
                    out.push(',');
                    out.push(' ');
                }
                push_decimal(&mut out, val[i] as u64);
                proof {
                    assert(val@.take(i + 1).drop_last() == val@.take(i as int));
                    if i > 0 {
                        assert(out@ =~= before + separator() + decimal(val@[i as int] as nat));
                    }
                    assert(out@ =~= seq!['['] + byte_items_text(val@.take(i + 1)));
                }
                i += 1;
            }
            proof {
                assert(val@.take(i as int) == val@);
            }
            out.push(']');
        },
        None => {},
    }
    out
}

/// The text of an attribute's value; empty where the value is absent.
pub open spec fn optional_value_text(value: Option<AnyValue>) -> Seq<char> {
    match value {
        Some(av) => value_text(av),
        None => Seq::empty(),
    }
}

/// The mapping that a sequence of attributes stands for: each key with the
/// text of its value, a later attribute in place of an earlier one with the
/// same key.
pub open spec fn attribute_map(attributes: Seq<KeyValue>) -> Map<Seq<char>, Seq<char>>
    decreases attributes.len(),
{
    if attributes.len() == 0 {
        Map::empty()
    } else {
        attribute_map(attributes.drop_last()).insert(
            attributes.last().key@,
            optional_value_text(attributes.last().value),
        )
    }
}

/// Folds a sequence of attributes into a key-ordered mapping.
pub fn map_attributes(attributes: &[KeyValue]) -> (m: AttributeMap)
    ensures
        m@ == attribute_map(attributes@),
{
    let mut m = AttributeMap::new();
    let mut i: usize = 0;
    while i < attributes.len()
        invariant
            i <= attributes.len(),
            m@ == attribute_map(attributes@.take(i as int)),
        decreases attributes.len() - i,
    {
        let value = match &attributes[i].value {
            Some(av) => any_value_to_string(av),
            None => String::new(),
        };
        m.insert(attributes[i].key.clone(), value);
        proof {
            assert(attributes@.take(i + 1).drop_last() == attributes@.take(i as int));
        }
        i += 1;
    }
    proof {
        assert(attributes@.take(i as int) == attributes@);
    }
    m
}

/// A submitted span with the attributes of the resource and of the
/// instrumentation scope that it was submitted under.
pub struct Submitted {
    pub raw: RawSpan,
    pub resource: Map<Seq<char>, Seq<char>>,
    pub scope: Map<Seq<char>, Seq<char>>,
}

/// The attributes of a resource; none where the resource is absent.
pub open spec fn resource_attributes(resource: Option<Resource>) -> Map<Seq<char>, Seq<char>> {
    match resource {
        Some(r) => attribute_map(r.attributes@),
        None => Map::empty(),
    }
}

/// The attributes of an instrumentation scope; none where the scope is
/// absent.
pub open spec fn scope_attributes(scope: Option<InstrumentationScope>) -> Map<
    Seq<char>,
    Seq<char>,
> {
    match scope {
        Some(s) => attribute_map(s.attributes@),
        None => Map::empty(),
    }
}

/// The spans of one instrumentation scope, in the order of submission.
pub open spec fn scope_submitted(
    resource: Map<Seq<char>, Seq<char>>,
    scope: ScopeSpans,
) -> Seq<Submitted> {
    scope.spans@.map_values(
        |raw: RawSpan| Submitted { raw, resource, scope: scope_attributes(scope.scope) },
    )
}

/// The spans of a sequence of instrumentation scopes under one resource.
pub open spec fn scopes_submitted(
    resource: Map<Seq<char>, Seq<char>>,
    scopes: Seq<ScopeSpans>,
) -> Seq<Submitted>
    decreases scopes.len(),
{
    if scopes.len() == 0 {
        Seq::empty()
    } else {
        scopes_submitted(resource, scopes.drop_last()) + scope_submitted(resource, scopes.last())
    }
}

/// The spans of a sequence of resources.
pub open spec fn resources_submitted(resources: Seq<ResourceSpans>) -> Seq<Submitted>
    decreases resources.len(),
{
    if resources.len() == 0 {
        Seq::empty()
    } else {
        resources_submitted(resources.drop_last()) + scopes_submitted(
            resource_attributes(resources.last().resource),
            resources.last().scope_spans@,
        )
    }
}

/// Every span that a request submits, in the order of submission.
pub open spec fn submitted(payload: ExportTraceServiceRequest) -> Seq<Submitted> {
    resources_submitted(payload.resource_spans@)
}

/// What decoding a sequence of submitted spans gives.
pub struct Outcome {
    /// The spans that were decoded, in the order of submission.
    pub accepted: Seq<SpanView>,
    /// The number of spans that were rejected.
    pub rejected: nat,
    /// The reason of each rejection, each followed by a line feed.
    pub errors: Seq<char>,
}

/// Decodes each submitted span on its own: a span that cannot be decoded is
/// counted and its reason recorded, and the others are not affected.
pub open spec fn outcome(spans: Seq<Submitted>) -> Outcome
    decreases spans.len(),
{
    if spans.len() == 0 {
        Outcome { accepted: Seq::empty(), rejected: 0, errors: Seq::empty() }
    } else {
        let front = outcome(spans.drop_last());
        let last = spans.last();
        match decoded(last.raw, attribute_map(last.raw.attributes@), last.resource, last.scope) {
            Ok(span) => Outcome { accepted: front.accepted.push(span), ..front },
            Err(reason) => Outcome {
                rejected: front.rejected + 1,
                errors: front.errors + reason + seq!['\n'],
                ..front
            },
        }
    }
}

/// Every submitted span is either accepted or rejected.
pub proof fn lemma_outcome_accounts_for_all(spans: Seq<Submitted>)
    ensures
        outcome(spans).rejected + outcome(spans).accepted.len() == spans.len(),
    decreases spans.len(),
{
    if spans.len() > 0 {
        lemma_outcome_accounts_for_all(spans.drop_last());
    }
}

/// The rejection count as the acknowledgment carries it.
pub open spec fn carried(rejected: nat) -> i64 {
    if rejected <= i64::MAX {
        rejected as i64
    } else {
        i64::MAX
    }
}

/// Decodes one export request.
///
/// Returns the spans that could be decoded, in the order of submission, and
/// the acknowledgment: the number of rejected spans, which stops counting at
/// the largest number it can hold, and the reasons, one per line.
pub fn export_trace(payload: ExportTraceServiceRequest) -> (r: (
    Vec<Span>,
    ExportTraceServiceResponse,
))
    ensures
        span_views(r.0@) == outcome(submitted(payload)).accepted,
        r.1.partial_success matches Some(partial) && partial.rejected_spans == carried(
            outcome(submitted(payload)).rejected,
        ) && partial.error_message@ == outcome(submitted(payload)).errors,
        outcome(submitted(payload)).rejected + r.0@.len() == submitted(payload).len(),
        submitted(payload).len() <= i64::MAX ==> r.1.partial_success->Some_0.rejected_spans
            + r.0@.len() == submitted(payload).len(),
{
    let mut spans: Vec<Span> = Vec::new();
    let mut error_message = String::new();
    let mut rejected_spans: i64 = 0;
    let ghost mut done: Seq<Submitted> = Seq::empty();
    let resources = &payload.resource_spans;
    let mut i: usize = 0;
    while i < resources.len()
        invariant
            i <= resources.len(),
            done == resources_submitted(resources@.take(i as int)),
            span_views(spans@) == outcome(done).accepted,
            rejected_spans == carried(outcome(done).rejected),
            error_message@ == outcome(done).errors,
        decreases resources.len() - i,
    {
        let metadata = match &resources[i].resource {
            Some(resource) => map_attributes(resource.attributes.as_slice()),
            None => AttributeMap::new(),
        };
        let scopes = &resources[i].scope_spans;
        let ghost before_resource = done;
        let mut j: usize = 0;
        while j < scopes.len()
            invariant
                i < resources.len(),
                j <= scopes.len(),
                metadata@ == resource_attributes(resources@[i as int].resource),
                done == before_resource + scopes_submitted(metadata@, scopes@.take(j as int)),
                span_views(spans@) == outcome(done).accepted,
                rejected_spans == carried(outcome(done).rejected),
                error_message@ == outcome(done).errors,
            decreases scopes.len() - j,
        {
            let scope_metadata = match &scopes[j].scope {
                Some(scope) => map_attributes(scope.attributes.as_slice()),
                None => AttributeMap::new(),
            };
            let raw_spans = &scopes[j].spans;
            let ghost before_scope = done;
            let ghost all = scope_submitted(metadata@, scopes@[j as int]);
            let mut k: usize = 0;
            while k < raw_spans.len()
                invariant
                    j < scopes.len(),
                    k <= raw_spans.len(),
                    raw_spans@ == scopes@[j as int].spans@,
                    scope_metadata@ == scope_attributes(scopes@[j as int].scope),
                    all == scope_submitted(metadata@, scopes@[j as int]),
                    done == before_scope + all.take(k as int),
                    span_views(spans@) == outcome(done).accepted,
                    rejected_spans == carried(outcome(done).rejected),
                    error_message@ == outcome(done).errors,
                decreases raw_spans.len() - k,
            {
                let raw_span = &raw_spans[k];
                let attributes = map_attributes(raw_span.attributes.as_slice());
                let span = Span::decode(
                    raw_span,
                    attributes,
                    metadata.clone(),
                    scope_metadata.clone(),
                );
                proof {
                    let next = before_scope + all.take(k + 1);
                    assert(next.drop_last() == done);
                    assert(next.last() == all[k as int]);
                }
                match span {
                    Ok(span) => {
                        proof {
                            assert(span_views(spans@.push(span)) =~= span_views(spans@).push(
                                span@,
                            ));
                        }
                        spans.push(span);
                    },
                    Err(msg) => {
                        error_message.push_str(msg.as_str());
                        error_message.push('\n');
                        if rejected_spans < i64::MAX {
                            rejected_spans += 1;
                        }
                        proof {
                            assert(error_message@ =~= outcome(done).errors + msg@ + seq!['\n']);
                        }
                    },
                }
                proof {
                    done = before_scope + all.take(k + 1);
                }
                k += 1;
            }
            proof {
                assert(all.take(k as int) == all);
                assert(scopes@.take(j + 1).drop_last() == scopes@.take(j as int));
                assert(done == before_resource + scopes_submitted(metadata@, scopes@.take(j + 1)));
            }
            j += 1;
        }
        proof {
            assert(scopes@.take(j as int) == scopes@);
            assert(resources@.take(i + 1).drop_last() == resources@.take(i as int));
        }
        i += 1;
    }
    proof {
        assert(resources@.take(i as int) == resources@);
        lemma_outcome_accounts_for_all(done);
    }
    let response = ExportTraceServiceResponse {
        partial_success: Some(ExportTracePartialSuccess { rejected_spans, error_message }),
    };
    (spans, response)
}

} // verus!
