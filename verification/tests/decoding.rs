use trace_engine::collector::{any_value_to_string, export_trace, map_attributes};
use trace_engine::span::Span;
use trace_engine::wire::{
    AnyValue, ArrayValue, ExportTraceServiceRequest, InstrumentationScope, KeyValue, KeyValueList,
    RawSpan, Resource, ResourceSpans, ScopeSpans, Value,
};
use trace_engine::AttributeMap;

fn string_value(text: &str) -> AnyValue {
    AnyValue {
        value: Some(Value::StringValue(text.to_string())),
    }
}

fn int_value(i: i64) -> AnyValue {
    AnyValue {
        value: Some(Value::IntValue(i)),
    }
}

fn pair(key: &str, value: Option<AnyValue>) -> KeyValue {
    KeyValue {
        key: key.to_string(),
        value,
    }
}

fn raw(span_id: Vec<u8>, trace_id: Vec<u8>, parent: Vec<u8>) -> RawSpan {
    RawSpan {
        trace_id,
        span_id,
        parent_span_id: parent,
        name: "Test".to_string(),
        start_time_unix_nano: 0,
        end_time_unix_nano: 1_000_000,
        ..RawSpan::default()
    }
}

fn request_of(spans: Vec<RawSpan>) -> ExportTraceServiceRequest {
    ExportTraceServiceRequest {
        resource_spans: vec![ResourceSpans {
            scope_spans: vec![ScopeSpans {
                spans,
                ..ScopeSpans::default()
            }],
            ..ResourceSpans::default()
        }],
    }
}

#[test]
fn empty_request() {
    let payload = ExportTraceServiceRequest {
        resource_spans: vec![],
    };
    let (spans, res) = export_trace(payload);
    let success = res.partial_success.unwrap_or_default();
    assert_eq!(success.rejected_spans, 0);
    assert!(spans.is_empty());
    assert_eq!(success.error_message, "");
}

#[test]
fn single_span_no_metadata() -> Result<(), String> {
    let payload = ExportTraceServiceRequest {
        resource_spans: vec![ResourceSpans {
            scope_spans: vec![ScopeSpans {
                spans: vec![RawSpan {
                    trace_id: [0; 16].to_vec(),
                    span_id: [0; 8].to_vec(),
                    name: "Test".to_string(),
                    start_time_unix_nano: 0,
                    end_time_unix_nano: 1_000_000,
                    ..RawSpan::default()
                }],
                ..ScopeSpans::default()
            }],
            ..ResourceSpans::default()
        }],
    };
    let (spans, res) = export_trace(payload);
    let success = res.partial_success.unwrap_or_default();
    assert_eq!(success.rejected_spans, 0);

    assert_eq!(spans.len(), 1);
    assert_eq!(&spans[0].name, "Test");

    Ok(())
}

#[test]
fn single_span_with_metadata() -> Result<(), String> {
    let payload = ExportTraceServiceRequest {
        resource_spans: vec![ResourceSpans {
            resource: Some(Resource {
                attributes: vec![KeyValue {
                    key: "library".to_string(),
                    value: Some(AnyValue {
                        value: Some(Value::StringValue("egui-trace".to_string())),
                    }),
                }],
            }),
            scope_spans: vec![ScopeSpans {
                scope: Some(InstrumentationScope {
                    name: "collector".to_string(),
                    version: "v0.0.1".to_string(),
                    attributes: vec![KeyValue {
                        key: "method".to_string(),
                        value: Some(AnyValue {
                            value: Some(Value::StringValue("generated".to_string())),
                        }),
                    }],
                }),
                spans: vec![RawSpan {
                    trace_id: [0; 16].to_vec(),
                    span_id: [0; 8].to_vec(),
                    name: "Test".to_string(),
                    start_time_unix_nano: 0,
                    end_time_unix_nano: 1_000_000,
                    attributes: vec![KeyValue {
                        key: "cache.hit".to_string(),
                        value: Some(AnyValue {
                            value: Some(Value::BoolValue(true)),
                        }),
                    }],
                    ..RawSpan::default()
                }],
            }],
        }],
    };
    let (spans, res) = export_trace(payload);
    let success = res.partial_success.unwrap_or_default();
    assert_eq!(success.rejected_spans, 0);

    assert_eq!(spans.len(), 1);

    let span = &spans[0];
    assert_eq!(&span.name, "Test");
    assert_eq!(span.metadata.len(), 2);
    assert_eq!(
        span.metadata
            .get("library")
            .ok_or("resource attribute not in metadata")?,
        &"egui-trace".to_string()
    );
    assert_eq!(
        span.metadata
            .get("method")
            .ok_or("instrumentation scope attribute not in metadata")?,
        &"generated".to_string()
    );
    assert_eq!(span.attributes.len(), 1);
    assert_eq!(
        span.attributes
            .get("cache.hit")
            .ok_or("missing span attribute")?,
        &"true".to_string()
    );

    Ok(())
}

#[test]
fn identifiers_render_as_hexadecimal_without_leading_zeros() {
    let span = Span::new(
        raw(vec![0, 0, 0, 0, 0, 0, 0, 1], vec![0; 16], vec![]),
        AttributeMap::new(),
        AttributeMap::new(),
        AttributeMap::new(),
    )
    .unwrap();
    assert_eq!(span.id, "1");
    assert_eq!(span.trace_id, "0");
    assert_eq!(span.parent_id, None);
}

#[test]
fn identifiers_are_read_big_endian() {
    let span = Span::new(
        raw(
            vec![0x01, 0x23, 0x45, 0x67, 0x89, 0xab, 0xcd, 0xef],
            vec![
                0xff, 0xff, 0xff, 0xff, 0xff, 0xff, 0xff, 0xff, 0xff, 0xff, 0xff, 0xff, 0xff, 0xff,
                0xff, 0xff,
            ],
            vec![0, 0, 0, 0, 0, 0, 0x0a, 0xbc],
        ),
        AttributeMap::new(),
        AttributeMap::new(),
        AttributeMap::new(),
    )
    .unwrap();
    assert_eq!(span.id, "123456789abcdef");
    assert_eq!(span.trace_id, "ffffffffffffffffffffffffffffffff");
    assert_eq!(span.parent_id, Some("abc".to_string()));
    assert_eq!(span.id, format!("{:x}", 0x0123456789abcdefu64));
}

#[test]
fn a_span_with_a_short_identifier_is_rejected_alone() {
    let payload = request_of(vec![
        raw(vec![0, 0, 0, 0, 0, 0, 0, 1], vec![0; 16], vec![]),
        raw(vec![0, 0, 0, 0, 0, 0, 2], vec![0; 16], vec![]),
        raw(vec![0, 0, 0, 0, 0, 0, 0, 3], vec![0; 16], vec![]),
    ]);
    let (spans, res) = export_trace(payload);
    let success = res.partial_success.unwrap();
    assert_eq!(success.rejected_spans, 1);
    assert_eq!(spans.len(), 2);
    assert_eq!(spans[0].id, "1");
    assert_eq!(spans[1].id, "3");
    assert_eq!(success.error_message, "span_id of 8 bytes\n");
}

#[test]
fn every_submitted_span_is_accepted_or_rejected() {
    let payload = ExportTraceServiceRequest {
        resource_spans: vec![
            ResourceSpans {
                resource: None,
                scope_spans: vec![
                    ScopeSpans {
                        scope: None,
                        spans: vec![
                            raw(vec![1; 8], vec![1; 16], vec![]),
                            raw(vec![1; 9], vec![1; 16], vec![]),
                        ],
                    },
                    ScopeSpans {
                        scope: None,
                        spans: vec![],
                    },
                    ScopeSpans {
                        scope: None,
                        spans: vec![raw(vec![2; 8], vec![1; 15], vec![])],
                    },
                ],
            },
            ResourceSpans {
                resource: None,
                scope_spans: vec![ScopeSpans {
                    scope: None,
                    spans: vec![
                        raw(vec![3; 8], vec![1; 16], vec![1; 3]),
                        raw(vec![4; 8], vec![1; 16], vec![1; 8]),
                    ],
                }],
            },
        ],
    };
    let (spans, res) = export_trace(payload);
    let success = res.partial_success.unwrap();
    assert_eq!(success.rejected_spans, 3);
    assert_eq!(spans.len(), 2);
    assert_eq!(success.rejected_spans as usize + spans.len(), 5);
    assert_eq!(
        success.error_message,
        "span_id of 8 bytes\ntrace_id of 16 bytes\nparent_span_id of 8 bytes\n"
    );
    assert_eq!(spans[0].id, "101010101010101");
    assert_eq!(spans[1].id, "404040404040404");
    assert_eq!(spans[1].parent_id, Some("101010101010101".to_string()));
}

#[test]
fn the_span_identifier_is_tested_before_the_trace_identifier() {
    let r = Span::new(
        raw(vec![], vec![], vec![1]),
        AttributeMap::new(),
        AttributeMap::new(),
        AttributeMap::new(),
    );
    assert_eq!(r.err(), Some("span_id of 8 bytes".to_string()));
    let r = Span::new(
        raw(vec![0; 8], vec![], vec![1]),
        AttributeMap::new(),
        AttributeMap::new(),
        AttributeMap::new(),
    );
    assert_eq!(r.err(), Some("trace_id of 16 bytes".to_string()));
    let r = Span::new(
        raw(vec![0; 8], vec![0; 16], vec![1]),
        AttributeMap::new(),
        AttributeMap::new(),
        AttributeMap::new(),
    );
    assert_eq!(r.err(), Some("parent_span_id of 8 bytes".to_string()));
}

#[test]
fn the_duration_is_the_difference_of_the_whole_microseconds() {
    let mut span = raw(vec![0; 8], vec![0; 16], vec![]);
    span.start_time_unix_nano = 1_999;
    span.end_time_unix_nano = 1_000_002_000;
    let span = Span::new(
        span,
        AttributeMap::new(),
        AttributeMap::new(),
        AttributeMap::new(),
    )
    .unwrap();
    assert_eq!(span.duration_micros, 1_000_001);
    assert_eq!(span.start.seconds(), 0);
    assert_eq!(span.start.subsec_nanos(), 1_999);
    assert_eq!(span.offset_micros, 0);
    assert_eq!(span.level, 0);
}

#[test]
fn a_span_that_ends_before_it_starts_has_a_negative_duration() {
    let mut span = raw(vec![0; 8], vec![0; 16], vec![]);
    span.start_time_unix_nano = 5_000_000;
    span.end_time_unix_nano = 2_000_000;
    let span = Span::new(
        span,
        AttributeMap::new(),
        AttributeMap::new(),
        AttributeMap::new(),
    )
    .unwrap();
    assert_eq!(span.duration_micros, -3_000);
}

#[test]
fn the_latest_time_of_the_wire_is_decoded() {
    let mut span = raw(vec![0; 8], vec![0; 16], vec![]);
    span.start_time_unix_nano = u64::MAX;
    span.end_time_unix_nano = u64::MAX;
    let span = Span::new(
        span,
        AttributeMap::new(),
        AttributeMap::new(),
        AttributeMap::new(),
    )
    .unwrap();
    assert_eq!(span.start.seconds(), 18_446_744_073);
    assert_eq!(span.start.subsec_nanos(), 709_551_615);
    assert_eq!(span.duration_micros, 0);
}

#[test]
fn scope_attributes_win_over_resource_attributes() {
    let payload = ExportTraceServiceRequest {
        resource_spans: vec![ResourceSpans {
            resource: Some(Resource {
                attributes: vec![
                    pair("shared", Some(string_value("resource"))),
                    pair("only.resource", Some(int_value(7))),
                ],
            }),
            scope_spans: vec![ScopeSpans {
                scope: Some(InstrumentationScope {
                    name: String::new(),
                    version: String::new(),
                    attributes: vec![pair("shared", Some(string_value("scope")))],
                }),
                spans: vec![raw(vec![0; 8], vec![0; 16], vec![])],
            }],
        }],
    };
    let (spans, _) = export_trace(payload);
    let metadata = &spans[0].metadata;
    assert_eq!(metadata.len(), 2);
    assert_eq!(metadata.get("shared"), Some(&"scope".to_string()));
    assert_eq!(metadata.get("only.resource"), Some(&"7".to_string()));
    assert_eq!(spans[0].attributes.len(), 0);
}

#[test]
fn values_render_as_their_canonical_text() {
    assert_eq!(any_value_to_string(&string_value("plain")), "plain");
    assert_eq!(
        any_value_to_string(&AnyValue {
            value: Some(Value::BoolValue(false))
        }),
        "false"
    );
    assert_eq!(any_value_to_string(&int_value(0)), "0");
    assert_eq!(any_value_to_string(&int_value(-42)), "-42");
    assert_eq!(
        any_value_to_string(&int_value(i64::MIN)),
        "-9223372036854775808"
    );
    assert_eq!(
        any_value_to_string(&int_value(i64::MAX)),
        "9223372036854775807"
    );
    assert_eq!(
        any_value_to_string(&AnyValue {
            value: Some(Value::DoubleValue("1.5".to_string()))
        }),
        "1.5"
    );
    assert_eq!(any_value_to_string(&AnyValue { value: None }), "");
    assert_eq!(any_value_to_string(&AnyValue::default()), "");
}

#[test]
fn arrays_and_lists_render_their_items() {
    let array = AnyValue {
        value: Some(Value::ArrayValue(ArrayValue {
            values: vec![int_value(1), string_value("two"), AnyValue { value: None }],
        })),
    };
    assert_eq!(any_value_to_string(&array), "[1, two, ]");
    let empty = AnyValue {
        value: Some(Value::ArrayValue(ArrayValue { values: vec![] })),
    };
    assert_eq!(any_value_to_string(&empty), "[]");
    let list = AnyValue {
        value: Some(Value::KvlistValue(KeyValueList {
            values: vec![
                pair("a", Some(int_value(1))),
                pair("b", None),
                pair("c", Some(array)),
            ],
        })),
    };
    assert_eq!(any_value_to_string(&list), "{a: 1, b: null, c: [1, two, ]}");
    let none = AnyValue {
        value: Some(Value::KvlistValue(KeyValueList { values: vec![] })),
    };
    assert_eq!(any_value_to_string(&none), "{}");
    let bytes = AnyValue {
        value: Some(Value::BytesValue(vec![0, 7, 255])),
    };
    assert_eq!(any_value_to_string(&bytes), "[0, 7, 255]");
    let no_bytes = AnyValue {
        value: Some(Value::BytesValue(vec![])),
    };
    assert_eq!(any_value_to_string(&no_bytes), "[]");
}

#[test]
fn a_later_attribute_replaces_an_earlier_one_with_the_same_key() {
    let attributes = vec![
        pair("k", Some(int_value(1))),
        pair("absent", None),
        pair("k", Some(int_value(2))),
    ];
    let map = map_attributes(&attributes);
    assert_eq!(map.len(), 2);
    assert_eq!(map.get("k"), Some(&"2".to_string()));
    assert_eq!(map.get("absent"), Some(&String::new()));
    assert_eq!(map.get("other"), None);
}
