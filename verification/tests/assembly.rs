use trace_engine::span::Span;
use trace_engine::trace;

#[test]
fn build_traces() -> Result<(), String> {
    let spans = vec![
        Span {
            trace_id: "one".to_string(),
            id: "one_root".to_string(),
            ..Span::default()
        },
        Span {
            trace_id: "one".to_string(),
            parent_id: Some("one_root".to_string()),
            id: "one_child".to_string(),
            ..Span::default()
        },
        Span {
            trace_id: "two".to_string(),
            ..Span::default()
        },
    ];
    let traces = trace::build_traces(spans)?;
    assert_eq!(traces.len(), 2);
    assert_eq!(traces[0].id, "one".to_string());
    assert_eq!(
        traces[0]
            .spans
            .iter()
            .map(|s| s.id.clone())
            .collect::<Vec<_>>(),
        vec!["one_root".to_string(), "one_child".to_string()]
    );

    assert_eq!(traces[1].id, "two".to_string());
    Ok(())
}

use trace_engine::store::TraceStore;
use trace_engine::trace::Trace;
use trace_engine::Timestamp;

fn at(millis: i64) -> Timestamp {
    Timestamp::from_unix(
        1_700_000_000 + millis.div_euclid(1000),
        (millis.rem_euclid(1000) * 1_000_000) as u32,
    )
    .unwrap()
}

fn span(trace: &str, id: &str, parent: Option<&str>, millis: i64) -> Span {
    Span {
        trace_id: trace.to_string(),
        id: id.to_string(),
        parent_id: parent.map(str::to_string),
        start: at(millis),
        ..Span::default()
    }
}

fn ids(trace: &Trace) -> Vec<&str> {
    trace.spans.iter().map(|s| s.id.as_str()).collect()
}

fn levels(trace: &Trace) -> Vec<usize> {
    trace.spans.iter().map(|s| s.level).collect()
}

fn tree() -> Vec<Span> {
    vec![
        span("t", "c2", Some("root"), 30),
        span("t", "g1", Some("c1"), 25),
        span("t", "root", None, 0),
        span("t", "c1", Some("root"), 10),
        span("t", "g3", Some("c2"), 31),
        span("t", "g2", Some("c1"), 12),
        span("t", "gg", Some("g2"), 13),
        span("t", "c3", Some("root"), 500),
    ]
}

#[test]
fn a_trace_lists_its_spans_in_pre_order() {
    let traces = trace::build_traces(tree()).unwrap();
    assert_eq!(traces.len(), 1);
    assert_eq!(traces[0].id, "t");
    assert_eq!(
        ids(&traces[0]),
        vec!["root", "c1", "g2", "gg", "g1", "c2", "g3", "c3"]
    );
    assert_eq!(levels(&traces[0]), vec![0, 1, 2, 3, 2, 1, 2, 1]);
}

#[test]
fn every_span_stands_one_level_below_its_parent() {
    let traces = trace::build_traces(tree()).unwrap();
    let spans = &traces[0].spans;
    assert_eq!(spans[0].level, 0);
    assert_eq!(spans[0].offset_micros, 0);
    assert_eq!(spans[0].parent_id, None);
    for (i, span) in spans.iter().enumerate().skip(1) {
        let parent = span.parent_id.as_ref().unwrap();
        let found = spans[..i].iter().find(|s| &s.id == parent).unwrap();
        assert_eq!(span.level, found.level + 1);
    }
}

#[test]
fn the_root_stands_at_depth_and_offset_zero() {
    let mut root = span("t", "root", None, 0);
    root.level = 7;
    root.offset_micros = 99;
    let trace = Trace::new(root, vec![span("t", "c", Some("root"), 1)]);
    assert_eq!(trace.spans[0].level, 0);
    assert_eq!(trace.spans[0].offset_micros, 0);
    assert_eq!(trace.spans[1].level, 1);
    assert_eq!(trace.spans[1].offset_micros, 1_000);
}

#[test]
fn siblings_stand_in_ascending_order_of_their_start() {
    let root = span("t", "root", None, 0);
    let descendants = vec![
        span("t", "late", Some("root"), 300),
        span("t", "early", Some("root"), 100),
        span("t", "before", Some("root"), -50),
        span("t", "middle", Some("root"), 200),
    ];
    let trace = Trace::new(root, descendants);
    assert_eq!(
        ids(&trace),
        vec!["root", "before", "early", "middle", "late"]
    );
    let starts: Vec<i64> = trace.spans.iter().skip(1).map(|s| s.offset_micros).collect();
    assert_eq!(starts, vec![-50_000, 100_000, 200_000, 300_000]);
}

#[test]
fn siblings_with_the_same_start_keep_their_order() {
    let root = span("t", "root", None, 0);
    let descendants = vec![
        span("t", "b", Some("root"), 5),
        span("t", "a", Some("root"), 5),
        span("t", "first", Some("root"), 1),
        span("t", "c", Some("root"), 5),
    ];
    let trace = Trace::new(root, descendants);
    assert_eq!(ids(&trace), vec!["root", "first", "b", "a", "c"]);
}

#[test]
fn a_child_half_a_second_after_its_root() {
    let root = span("t", "root", None, 0);
    let trace = Trace::new(root, vec![span("t", "child", Some("root"), 500)]);
    assert_eq!(trace.spans[1].offset_micros, 500_000);
    assert_eq!(trace.spans[1].level, 1);
}

#[test]
fn offsets_count_from_the_root_also_for_grandchildren() {
    let mut root = span("t", "root", None, 0);
    root.start = Timestamp::from_unix(10, 999_999_999).unwrap();
    let mut child = span("t", "child", Some("root"), 0);
    child.start = Timestamp::from_unix(11, 0).unwrap();
    let mut grandchild = span("t", "grandchild", Some("child"), 0);
    grandchild.start = Timestamp::from_unix(12, 1_500).unwrap();
    let trace = Trace::new(root, vec![grandchild, child]);
    assert_eq!(ids(&trace), vec!["root", "child", "grandchild"]);
    assert_eq!(trace.spans[1].offset_micros, 0);
    assert_eq!(trace.spans[2].offset_micros, 1_000_001);
}

#[test]
fn the_order_of_submission_does_not_matter() {
    let forward = trace::build_traces(tree()).unwrap();
    let mut reversed = tree();
    reversed.reverse();
    let backward = trace::build_traces(reversed).unwrap();
    let mut rotated = tree();
    rotated.rotate_left(3);
    let around = trace::build_traces(rotated).unwrap();
    assert_eq!(ids(&forward[0]), ids(&backward[0]));
    assert_eq!(ids(&forward[0]), ids(&around[0]));
    assert_eq!(levels(&forward[0]), levels(&backward[0]));
    assert_eq!(levels(&forward[0]), levels(&around[0]));
}

#[test]
fn two_batches_in_either_order_give_the_same_traces() {
    let first = vec![
        span("one", "r1", None, 0),
        span("one", "a", Some("r1"), 2),
        span("one", "b", Some("a"), 3),
    ];
    let second = vec![
        span("two", "r2", None, 0),
        span("two", "x", Some("r2"), 9),
        span("two", "y", Some("r2"), 4),
    ];
    let mut store = TraceStore::new();
    store.ingest(first.clone());
    store.ingest(second.clone());
    let mut other = TraceStore::new();
    other.ingest(second);
    other.ingest(first);
    let mut listed: Vec<(String, Vec<String>)> = store
        .traces()
        .iter()
        .map(|t| (t.id.clone(), t.spans.iter().map(|s| s.id.clone()).collect()))
        .collect();
    let mut other_listed: Vec<(String, Vec<String>)> = other
        .traces()
        .iter()
        .map(|t| (t.id.clone(), t.spans.iter().map(|s| s.id.clone()).collect()))
        .collect();
    assert_eq!(store.traces()[0].id, "one");
    assert_eq!(other.traces()[0].id, "two");
    listed.sort();
    other_listed.sort();
    assert_eq!(listed, other_listed);
    assert_eq!(
        listed,
        vec![
            (
                "one".to_string(),
                vec!["r1".to_string(), "a".to_string(), "b".to_string()]
            ),
            (
                "two".to_string(),
                vec!["r2".to_string(), "y".to_string(), "x".to_string()]
            ),
        ]
    );
}

#[test]
fn a_span_without_its_parent_is_left_out() {
    let spans = vec![
        span("t", "root", None, 0),
        span("t", "orphan", Some("missing"), 1),
        span("t", "below", Some("orphan"), 2),
        span("t", "child", Some("root"), 3),
        span("u", "lonely", Some("root"), 4),
        span("v", "stray", Some("nowhere"), 5),
    ];
    let traces = trace::build_traces(spans).unwrap();
    assert_eq!(traces.len(), 1);
    assert_eq!(ids(&traces[0]), vec!["root", "child"]);
}

#[test]
fn a_root_without_descendants_is_a_trace_of_one_span() {
    let traces = trace::build_traces(vec![span("solo", "root", None, 0)]).unwrap();
    assert_eq!(traces.len(), 1);
    assert_eq!(traces[0].id, "solo");
    assert_eq!(ids(&traces[0]), vec!["root"]);
    let none = trace::build_traces(Vec::new()).unwrap();
    assert!(none.is_empty());
}

#[test]
fn spans_of_other_traces_do_not_descend_from_a_root() {
    let spans = vec![
        span("one", "root", None, 0),
        span("two", "root", None, 0),
        span("two", "child", Some("root"), 1),
        span("one", "kid", Some("root"), 1),
    ];
    let traces = trace::build_traces(spans).unwrap();
    assert_eq!(traces.len(), 2);
    assert_eq!(ids(&traces[0]), vec!["root", "kid"]);
    assert_eq!(ids(&traces[1]), vec!["root", "child"]);
}

#[test]
fn of_two_descendants_with_one_identifier_the_last_counts() {
    let root = span("t", "root", None, 0);
    let mut first = span("t", "twin", Some("root"), 1);
    first.name = "first".to_string();
    let mut second = span("t", "twin", Some("root"), 2);
    second.name = "second".to_string();
    let trace = Trace::new(root, vec![first, span("t", "kid", Some("twin"), 3), second]);
    assert_eq!(ids(&trace), vec!["root", "twin", "kid"]);
    assert_eq!(trace.spans[1].name, "second");
}

#[test]
fn a_descendant_with_the_identifier_of_the_root_ends_the_walk() {
    let root = span("t", "root", None, 0);
    let descendants = vec![
        span("t", "child", Some("root"), 1),
        span("t", "root", Some("child"), 2),
    ];
    let trace = Trace::new(root, descendants);
    assert_eq!(ids(&trace), vec!["root", "child", "root"]);
    assert_eq!(levels(&trace), vec![0, 1, 2]);
}

#[test]
fn spans_that_name_each_other_are_left_out() {
    let root = span("t", "root", None, 0);
    let descendants = vec![
        span("t", "a", Some("b"), 1),
        span("t", "b", Some("a"), 2),
        span("t", "self", Some("self"), 3),
    ];
    let trace = Trace::new(root, descendants);
    assert_eq!(ids(&trace), vec!["root"]);
}

#[test]
fn the_positions_of_an_identifier() {
    let root = span("t", "root", None, 0);
    let descendants = vec![
        span("t", "child", Some("root"), 1),
        span("t", "root", Some("child"), 2),
    ];
    let trace = Trace::new(root, descendants);
    assert_eq!(trace.connections("root"), vec![0, 2]);
    assert_eq!(trace.connections("child"), vec![1]);
    assert_eq!(trace.connections("other"), Vec::<usize>::new());
}

#[test]
fn a_batch_rebuilds_every_trace_of_the_store() {
    let mut store = TraceStore::new();
    assert!(store.traces().is_empty());
    store.ingest(vec![span("t", "root", None, 0), span("t", "b", Some("root"), 20)]);
    assert_eq!(ids(&store.traces()[0]), vec!["root", "b"]);
    store.ingest(vec![span("t", "a", Some("root"), 10), span("t", "c", Some("a"), 11)]);
    assert_eq!(store.traces().len(), 1);
    assert_eq!(ids(&store.traces()[0]), vec!["root", "a", "c", "b"]);
    assert_eq!(levels(&store.traces()[0]), vec![0, 1, 2, 1]);
    let held: Vec<String> = store.spans().iter().map(|s| s.id.clone()).collect();
    assert_eq!(held, vec!["root", "a", "c", "b"]);
}

#[test]
fn a_span_that_arrives_before_its_root_is_lost() {
    let mut store = TraceStore::new();
    store.ingest(vec![span("t", "child", Some("root"), 1)]);
    assert!(store.traces().is_empty());
    store.ingest(vec![span("t", "root", None, 0)]);
    assert_eq!(ids(&store.traces()[0]), vec!["root"]);
}

#[test]
fn a_bulk_load_adds_its_traces_behind_the_others() {
    let mut store = TraceStore::default();
    store.ingest(vec![span("held", "root", None, 0)]);
    store.load(vec![
        span("loaded", "child", Some("root"), 1),
        span("loaded", "root", None, 0),
    ]);
    assert_eq!(store.traces().len(), 2);
    assert_eq!(store.traces()[0].id, "held");
    assert_eq!(store.traces()[1].id, "loaded");
    assert_eq!(ids(&store.traces()[1]), vec!["root", "child"]);
}
