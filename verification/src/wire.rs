//! The messages of the collector export protocol, as plain values.

use vstd::prelude::*;

verus! {

/// An attribute value of any of the protocol's kinds; empty when `value` is
/// absent.
#[derive(Debug)]
pub struct AnyValue {
    pub value: Option<Value>,
}

/// The kinds of attribute value.
#[derive(Debug)]
pub enum Value {
    StringValue(String),
    BoolValue(bool),
    IntValue(i64),
    /// A floating-point number, held as its default decimal text.
    DoubleValue(String),
    ArrayValue(ArrayValue),
    KvlistValue(KeyValueList),
    BytesValue(Vec<u8>),
}

/// A sequence of attribute values.
#[derive(Debug)]
pub struct ArrayValue {
    pub values: Vec<AnyValue>,
}

/// An ordered list of key/value pairs.
#[derive(Debug)]
pub struct KeyValueList {
    pub values: Vec<KeyValue>,
}

/// A key with its value, which may be absent.
#[derive(Debug)]
pub struct KeyValue {
    pub key: String,
    pub value: Option<AnyValue>,
}

/// One span as it is submitted.
#[derive(Debug)]
pub struct RawSpan {
    pub trace_id: Vec<u8>,
    pub span_id: Vec<u8>,
    pub parent_span_id: Vec<u8>,
    pub name: String,
    pub start_time_unix_nano: u64,
    pub end_time_unix_nano: u64,
    pub attributes: Vec<KeyValue>,
}

/// The entity that produced a batch of spans.
#[derive(Debug)]
pub struct Resource {
    pub attributes: Vec<KeyValue>,
}

/// The instrumentation library that recorded a batch of spans.
#[derive(Debug)]
pub struct InstrumentationScope {
    pub name: String,
    pub version: String,
    pub attributes: Vec<KeyValue>,
}

/// The spans recorded by one instrumentation scope.
#[derive(Debug)]
pub struct ScopeSpans {
    pub scope: Option<InstrumentationScope>,
    pub spans: Vec<RawSpan>,
}

/// The spans of one resource, grouped by instrumentation scope.
#[derive(Debug)]
pub struct ResourceSpans {
    pub resource: Option<Resource>,
    pub scope_spans: Vec<ScopeSpans>,
}

/// One export request.
#[derive(Debug)]
pub struct ExportTraceServiceRequest {
    pub resource_spans: Vec<ResourceSpans>,
}

/// What a request reports of the spans that could not be decoded.
#[derive(Debug)]
pub struct ExportTracePartialSuccess {
    pub rejected_spans: i64,
    pub error_message: String,
}

/// The acknowledgment of one export request.
#[derive(Debug)]
pub struct ExportTraceServiceResponse {
    pub partial_success: Option<ExportTracePartialSuccess>,
}

impl Default for AnyValue {
    fn default() -> (r: Self)
        ensures
            r.value is None,
    {
        AnyValue { value: None }
    }
}

impl Default for KeyValue {
    fn default() -> (r: Self)
        ensures
            r.key@.len() == 0,
            r.value is None,
    {
        KeyValue { key: String::new(), value: None }
    }
}

impl Default for RawSpan {
    fn default() -> (r: Self)
        ensures
            r.trace_id@.len() == 0,
            r.span_id@.len() == 0,
            r.parent_span_id@.len() == 0,
            r.name@.len() == 0,
            r.start_time_unix_nano == 0,
            r.end_time_unix_nano == 0,
            r.attributes@.len() == 0,
    {
        RawSpan {
            trace_id: Vec::new(),
            span_id: Vec::new(),
            parent_span_id: Vec::new(),
            name: String::new(),
            start_time_unix_nano: 0,
            end_time_unix_nano: 0,
            attributes: Vec::new(),
        }
    }
}

impl Default for Resource {
    fn default() -> (r: Self)
        ensures
            r.attributes@.len() == 0,
    {
        Resource { attributes: Vec::new() }
    }
}

impl Default for InstrumentationScope {
    fn default() -> (r: Self)
        ensures
            r.name@.len() == 0,
            r.version@.len() == 0,
            r.attributes@.len() == 0,
    {
        InstrumentationScope { name: String::new(), version: String::new(), attributes: Vec::new() }
    }
}

impl Default for ScopeSpans {
    fn default() -> (r: Self)
        ensures
            r.scope is None,
            r.spans@.len() == 0,
    {
        ScopeSpans { scope: None, spans: Vec::new() }
    }
}

impl Default for ResourceSpans {
    fn default() -> (r: Self)
        ensures
            r.resource is None,
            r.scope_spans@.len() == 0,
    {
        ResourceSpans { resource: None, scope_spans: Vec::new() }
    }
}

impl Default for ExportTraceServiceRequest {
    fn default() -> (r: Self)
        ensures
            r.resource_spans@.len() == 0,
    {
        ExportTraceServiceRequest { resource_spans: Vec::new() }
    }
}

impl Default for ExportTracePartialSuccess {
    fn default() -> (r: Self)
        ensures
            r.rejected_spans == 0,
            r.error_message@.len() == 0,
    {
        ExportTracePartialSuccess { rejected_spans: 0, error_message: String::new() }
    }
}

impl Default for ExportTraceServiceResponse {
    fn default() -> (r: Self)
        ensures
            r.partial_success is None,
    {
        ExportTraceServiceResponse { partial_success: None }
    }
}

} // verus!
