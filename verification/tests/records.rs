use trace_engine::otel::{
    collect_records, Library, Resource, ResourceValue, Span as Record, SpanAttribute,
    SpanAttributeValue, SpanContext, Status,
};
use trace_engine::text::split_lines;
use trace_engine::{Span, Timestamp};

fn record(trace_id: &str, span_id: &str, parent_trace: &str, parent_span: &str) -> Record {
    Record {
        name: "operation".to_string(),
        context: SpanContext {
            trace_id: trace_id.to_string(),
            span_id: span_id.to_string(),
        },
        parent: SpanContext {
            trace_id: parent_trace.to_string(),
            span_id: parent_span.to_string(),
        },
        start: Timestamp::from_unix(100, 0).unwrap(),
        end: Timestamp::from_unix(100, 2_500_999).unwrap(),
        attributes: Some(vec![
            SpanAttribute {
                key: "count".to_string(),
                value: SpanAttributeValue::Int64 { value: -12 },
            },
            SpanAttribute {
                key: "size".to_string(),
                value: SpanAttributeValue::Int64 { value: 4096 },
            },
        ]),
        status: Status {
            code: "Unset".to_string(),
            description: String::new(),
        },
        resource: vec![Resource {
            key: "service.name".to_string(),
            value: ResourceValue::String {
                value: "demo".to_string(),
            },
        }],
        library: Library {
            name: "tracer".to_string(),
            version: "1.2.3".to_string(),
            schema_url: "https://example.test/schema".to_string(),
        },
    }
}

fn decode(line: &str) -> Result<Record, String> {
    match serde_json::from_str::<serde_json::Value>(line) {
        Ok(value) => Ok(record(
            value["SpanContext"]["TraceID"].as_str().unwrap_or(""),
            value["SpanContext"]["SpanID"].as_str().unwrap_or(""),
            value["Parent"]["TraceID"].as_str().unwrap_or(""),
            value["Parent"]["SpanID"].as_str().unwrap_or(""),
        )),
        Err(e) => Err(e.to_string()),
    }
}

#[test]
fn a_record_becomes_a_span() {
    let span = Span::from(record("abc", "def", "abc", "123"));
    assert_eq!(span.id, "def");
    assert_eq!(span.trace_id, "abc");
    assert_eq!(span.parent_id, Some("123".to_string()));
    assert_eq!(span.name, "operation");
    assert_eq!(span.start, Timestamp::from_unix(100, 0).unwrap());
    assert_eq!(span.duration_micros, 2_500);
    assert_eq!(span.offset_micros, 0);
    assert_eq!(span.level, 0);
    assert_eq!(span.attributes.len(), 2);
    assert_eq!(span.attributes.get("count"), Some(&"-12".to_string()));
    assert_eq!(span.attributes.get("size"), Some(&"4096".to_string()));
}

#[test]
fn status_and_library_are_folded_into_the_metadata() {
    let span = Span::from(record("abc", "def", "abc", "123"));
    let metadata = &span.metadata;
    assert_eq!(metadata.len(), 6);
    assert_eq!(metadata.get("service.name"), Some(&"demo".to_string()));
    assert_eq!(metadata.get("status.code"), Some(&"-".to_string()));
    assert_eq!(metadata.get("status.description"), Some(&String::new()));
    assert_eq!(metadata.get("library.name"), Some(&"tracer".to_string()));
    assert_eq!(metadata.get("library.version"), Some(&"1.2.3".to_string()));
    assert_eq!(
        metadata.get("library.schema_url"),
        Some(&"https://example.test/schema".to_string())
    );
}

#[test]
fn a_status_code_that_is_set_is_kept() {
    let mut rec = record("abc", "def", "abc", "123");
    rec.status.code = "Error".to_string();
    rec.status.description = "it broke".to_string();
    rec.resource.push(Resource {
        key: "status.code".to_string(),
        value: ResourceValue::String {
            value: "from the resource".to_string(),
        },
    });
    rec.attributes = None;
    let span = Span::from(rec);
    assert_eq!(span.metadata.get("status.code"), Some(&"Error".to_string()));
    assert_eq!(
        span.metadata.get("status.description"),
        Some(&"it broke".to_string())
    );
    assert_eq!(span.attributes.len(), 0);
}

#[test]
fn a_parent_trace_of_zeros_marks_a_root() {
    let root = record("abc", "def", "00000000000000000000000000000000", "0000000000000000");
    assert!(root.is_root());
    assert_eq!(Span::from(root).parent_id, None);
    let empty = record("abc", "def", "", "ignored");
    assert!(empty.is_root());
    assert_eq!(Span::from(empty).parent_id, None);
    let child = record("abc", "def", "0000000000000000000000000000000a", "77");
    assert!(!child.is_root());
    assert_eq!(Span::from(child).parent_id, Some("77".to_string()));
}

#[test]
fn a_record_that_ends_before_it_starts() {
    let mut rec = record("abc", "def", "0", "0");
    rec.end = Timestamp::from_unix(99, 999_999_000).unwrap();
    assert_eq!(Span::from(rec).duration_micros, -1);
}

#[test]
fn a_malformed_line_fails_the_whole_load() {
    let contents = "{\"SpanContext\":{\"TraceID\":\"a\",\"SpanID\":\"1\"},\"Parent\":{\"TraceID\":\"0\",\"SpanID\":\"0\"}}\n\
                    {\"SpanContext\": oops\n\
                    {\"SpanContext\":{\"TraceID\":\"a\",\"SpanID\":\"2\"},\"Parent\":{\"TraceID\":\"a\",\"SpanID\":\"1\"}}\n";
    let lines = split_lines(contents);
    assert_eq!(lines.len(), 3);
    let decoded: Vec<Result<Record, String>> = lines.iter().map(|l| decode(l)).collect();
    let cause = decoded[1].as_ref().err().unwrap().clone();
    let loaded = collect_records(decoded);
    assert_eq!(
        loaded.err(),
        Some(format!("unable to parse line 2: {cause}"))
    );
}

#[test]
fn the_first_malformed_line_is_reported() {
    let decoded = vec![
        Ok(record("a", "1", "0", "0")),
        Ok(record("a", "2", "a", "1")),
        Err("first".to_string()),
        Err("second".to_string()),
    ];
    assert_eq!(
        collect_records(decoded).err(),
        Some("unable to parse line 3: first".to_string())
    );
    let decoded = vec![Err("at once".to_string())];
    assert_eq!(
        collect_records(decoded).err(),
        Some("unable to parse line 1: at once".to_string())
    );
}

#[test]
fn a_file_of_well_formed_lines_loads_every_span() {
    let decoded = vec![
        Ok(record("a", "1", "0", "0")),
        Ok(record("a", "2", "a", "1")),
        Ok(record("b", "3", "000", "9")),
    ];
    let spans = collect_records(decoded).unwrap();
    let ids: Vec<&str> = spans.iter().map(|s| s.id.as_str()).collect();
    assert_eq!(ids, vec!["1", "2", "3"]);
    assert_eq!(spans[1].parent_id, Some("1".to_string()));
    assert_eq!(spans[2].parent_id, None);
    assert!(collect_records(Vec::new()).unwrap().is_empty());
    let traces = trace_engine::build_traces(spans).unwrap();
    assert_eq!(traces.len(), 2);
    assert_eq!(traces[0].spans.len(), 2);
}

#[test]
fn lines_end_at_line_feeds() {
    assert_eq!(split_lines(""), Vec::<String>::new());
    assert_eq!(split_lines("one"), vec!["one"]);
    assert_eq!(split_lines("one\n"), vec!["one"]);
    assert_eq!(split_lines("one\ntwo"), vec!["one", "two"]);
    assert_eq!(split_lines("\n"), vec![""]);
    assert_eq!(split_lines("\n\n"), vec!["", ""]);
    assert_eq!(split_lines("a\n\nb\n"), vec!["a", "", "b"]);
    assert_eq!(split_lines("a\r\nb\r\n"), vec!["a", "b"]);
    assert_eq!(split_lines("a\r\n\rb\r"), vec!["a", "\rb\r"]);
    assert_eq!(split_lines("a\r\r\nb"), vec!["a\r", "b"]);
    assert_eq!(split_lines("\r\n"), vec![""]);
    assert_eq!(split_lines("\u{e9}t\u{e9}\nfin"), vec!["\u{e9}t\u{e9}", "fin"]);
}

#[test]
fn lines_are_split_as_the_standard_library_splits_them() {
    for text in [
        "",
        "\r",
        "x\r",
        "\n\r",
        "\r\n\r\n",
        "a\nb\r\nc\rd\n\re\n",
        "tail without end\r\n\n\nlast",
    ] {
        let expected: Vec<String> = text.lines().map(str::to_string).collect();
        assert_eq!(split_lines(text), expected);
    }
}
