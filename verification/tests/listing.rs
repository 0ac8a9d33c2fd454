use trace_engine::listing::{visible_traces, Column, Direction};
use trace_engine::{Span, Timestamp, Trace};

fn trace(id: &str, name: &str, duration: i64, start: i64) -> Trace {
    let root = Span {
        trace_id: id.to_string(),
        id: format!("root of {id}"),
        name: name.to_string(),
        duration_micros: duration,
        start: Timestamp::from_unix(start, 0).unwrap(),
        ..Span::default()
    };
    Trace::new(root, Vec::new())
}

fn traces() -> Vec<Trace> {
    vec![
        trace("c3", "get /users", 30, 100),
        trace("a1", "post /orders", 10, 400),
        trace("b2", "get /orders", 20, 300),
        trace("get", "delete /users", 20, 200),
    ]
}

#[test]
fn an_empty_search_shows_every_trace() {
    let traces = traces();
    assert_eq!(
        visible_traces(&traces, "", Column::Id, Direction::Ascending),
        vec![1, 2, 0, 3]
    );
    assert_eq!(
        visible_traces(&traces, "", Column::Name, Direction::Ascending),
        vec![3, 2, 0, 1]
    );
    assert_eq!(
        visible_traces(&traces, "", Column::Start, Direction::Ascending),
        vec![0, 3, 2, 1]
    );
    assert_eq!(
        visible_traces(&traces, "", Column::default(), Direction::default()),
        vec![0, 3, 2, 1]
    );
}

#[test]
fn traces_that_are_equal_in_the_column_keep_their_order() {
    let traces = traces();
    assert_eq!(
        visible_traces(&traces, "", Column::Duration, Direction::Ascending),
        vec![1, 2, 3, 0]
    );
    assert_eq!(
        visible_traces(&traces, "", Column::Duration, Direction::Descending),
        vec![0, 3, 2, 1]
    );
}

#[test]
fn the_descending_order_is_the_ascending_order_backwards() {
    let traces = traces();
    for column in [Column::Id, Column::Name, Column::Duration, Column::Start] {
        let mut forwards = visible_traces(&traces, "", column, Direction::Ascending);
        forwards.reverse();
        assert_eq!(
            visible_traces(&traces, "", column, Direction::Descending),
            forwards
        );
    }
}

#[test]
fn a_search_shows_the_traces_that_begin_with_it() {
    let traces = traces();
    assert_eq!(
        visible_traces(&traces, "get", Column::Id, Direction::Ascending),
        vec![2, 0, 3]
    );
    assert_eq!(
        visible_traces(&traces, "get /o", Column::Id, Direction::Ascending),
        vec![2]
    );
    assert_eq!(
        visible_traces(&traces, "a1", Column::Id, Direction::Ascending),
        vec![1]
    );
    assert_eq!(
        visible_traces(&traces, "users", Column::Id, Direction::Ascending),
        Vec::<usize>::new()
    );
    assert_eq!(
        visible_traces(&traces, "get /users and more", Column::Id, Direction::Ascending),
        Vec::<usize>::new()
    );
    assert_eq!(
        visible_traces(&Vec::new(), "", Column::Id, Direction::Ascending),
        Vec::<usize>::new()
    );
}

#[test]
fn the_selection_is_what_the_standard_library_would_select() {
    let traces = traces();
    for search in ["", "g", "get", "po", "c3", "x", "delete /users"] {
        let mut expected: Vec<usize> = (0..traces.len())
            .filter(|i| {
                traces[*i].spans[0].name.starts_with(search) || traces[*i].id.starts_with(search)
            })
            .collect();
        expected.sort_by_key(|i| &traces[*i].spans[0].name);
        assert_eq!(
            visible_traces(&traces, search, Column::Name, Direction::Ascending),
            expected
        );
    }
}
