//! The selection and order of the traces that a list shows.

use crate::text::{lex_less, text_before};
use crate::trace::{trace_views, Trace, TraceView};
use vstd::prelude::*;

verus! {

/// What a list of traces is ordered by; each but the trace's identifier is
/// taken from the root span.
#[derive(Clone, Copy, Debug, Default, PartialEq, Eq, Structural)]
pub enum Column {
    Id,
    Name,
    Duration,
    #[default]
    Start,
}

/// The direction of the order.
#[derive(Clone, Copy, Debug, Default, PartialEq, Eq, Structural)]
pub enum Direction {
    #[default]
    Ascending,
    Descending,
}

/// Whether `text` begins with `prefix`.
pub open spec fn starts_with(text: Seq<char>, prefix: Seq<char>) -> bool {
    prefix.len() <= text.len() && text.take(prefix.len() as int) == prefix
}

/// Whether every trace has a span.
pub open spec fn all_rooted(traces: Seq<TraceView>) -> bool {
    forall|k: int| 0 <= k < traces.len() ==> (#[trigger] traces[k]).spans.len() >= 1
}

/// Whether a search shows the trace: the name of its root or its identifier
/// begins with the text that is searched for.
pub open spec fn is_shown(trace: TraceView, search: Seq<char>) -> bool {
    starts_with(trace.spans[0].name, search) || starts_with(trace.id, search)
}

/// Whether `a` comes after `b` in ascending order of the column.
pub open spec fn sorts_after(a: TraceView, b: TraceView, column: Column) -> bool {
    match column {
        Column::Id => lex_less(b.id, a.id),
        Column::Name => lex_less(b.spans[0].name, a.spans[0].name),
        Column::Duration => a.spans[0].duration_micros > b.spans[0].duration_micros,
        Column::Start => a.spans[0].start.instant() > b.spans[0].start.instant(),
    }
}

/// `sorted` with `position` placed behind every position whose trace does
/// not come after the trace at `position`.
pub open spec fn placed(
    traces: Seq<TraceView>,
    sorted: Seq<usize>,
    position: usize,
    column: Column,
) -> Seq<usize>
    decreases sorted.len(),
{
    if sorted.len() == 0 || !sorts_after(
        traces[sorted.last() as int],
        traces[position as int],
        column,
    ) {
        sorted.push(position)
    } else {
        placed(traces, sorted.drop_last(), position, column).push(sorted.last())
    }
}

/// The positions of the traces among the first `n` that the search shows,
/// in ascending order of the column; traces that are equal in the column
/// keep their order.
pub open spec fn ordered(
    traces: Seq<TraceView>,
    search: Seq<char>,
    column: Column,
    n: nat,
) -> Seq<usize>
    decreases n,
{
    if n == 0 || n > traces.len() {
        Seq::empty()
    } else if is_shown(traces[n - 1], search) {
        placed(traces, ordered(traces, search, column, (n - 1) as nat), (n - 1) as usize, column)
    } else {
        ordered(traces, search, column, (n - 1) as nat)
    }
}

/// The positions of the traces that a list shows, in the order in which it
/// shows them: the descending order is the ascending order read backwards.
pub open spec fn listed(
    traces: Seq<TraceView>,
    search: Seq<char>,
    column: Column,
    direction: Direction,
) -> Seq<usize> {
    match direction {
        Direction::Ascending => ordered(traces, search, column, traces.len()),
        Direction::Descending => ordered(traces, search, column, traces.len()).reverse(),
    }
}

/// Placing a position adds it and nothing else.
proof fn lemma_placed(traces: Seq<TraceView>, sorted: Seq<usize>, position: usize, column: Column)
    ensures
        placed(traces, sorted, position, column).len() == sorted.len() + 1,
        placed(traces, sorted, position, column).contains(position),
        forall|k: int|
            0 <= k < sorted.len() ==> placed(traces, sorted, position, column).contains(
                #[trigger] sorted[k],
            ),
        forall|k: int|
            0 <= k < placed(traces, sorted, position, column).len() ==> (#[trigger] placed(
                traces,
                sorted,
                position,
                column,
            )[k]) == position || sorted.contains(placed(traces, sorted, position, column)[k]),
    decreases sorted.len(),
{
    let all = placed(traces, sorted, position, column);
    if sorted.len() == 0 || !sorts_after(
        traces[sorted.last() as int],
        traces[position as int],
        column,
    ) {
        assert(all[sorted.len() as int] == position);
        assert forall|k: int| 0 <= k < sorted.len() implies all.contains(#[trigger] sorted[k]) by {
            assert(all[k] == sorted[k]);
        }
        assert forall|k: int| 0 <= k < all.len() implies (#[trigger] all[k]) == position
            || sorted.contains(all[k]) by {
            if k < sorted.len() {
                assert(sorted[k] == all[k]);
            }
        }
    } else {
        let front = sorted.drop_last();
        let inner = placed(traces, front, position, column);
        lemma_placed(traces, front, position, column);
        let at = choose|k: int| 0 <= k < inner.len() && inner[k] == position;
        assert(all[at] == position);
        assert forall|k: int| 0 <= k < sorted.len() implies all.contains(#[trigger] sorted[k]) by {
            if k < front.len() {
                assert(front[k] == sorted[k]);
                let m = choose|m: int| 0 <= m < inner.len() && inner[m] == front[k];
                assert(all[m] == sorted[k]);
            } else {
                assert(all[inner.len() as int] == sorted[k]);
            }
        }
        assert forall|k: int| 0 <= k < all.len() implies (#[trigger] all[k]) == position
            || sorted.contains(all[k]) by {
            if k < inner.len() {
                assert(all[k] == inner[k]);
                if inner[k] != position {
                    let m = choose|m: int| 0 <= m < front.len() && front[m] == inner[k];
                    assert(sorted[m] == all[k]);
                }
            } else {
                assert(sorted[sorted.len() - 1] == all[k]);
            }
        }
    }
}

/// The list shows the positions of the traces that the search shows, each
/// once.
pub proof fn lemma_ordered(traces: Seq<TraceView>, search: Seq<char>, column: Column, n: nat)
    requires
        n <= traces.len(),
        n <= usize::MAX,
    ensures
        forall|k: int|
            0 <= k < ordered(traces, search, column, n).len() ==> (#[trigger] ordered(
                traces,
                search,
                column,
                n,
            )[k]) < n && is_shown(traces[ordered(traces, search, column, n)[k] as int], search),
        forall|i: int|
            0 <= i < n && is_shown(#[trigger] traces[i], search) ==> ordered(
                traces,
                search,
                column,
                n,
            ).contains(i as usize),
        ordered(traces, search, column, n).len() <= n,
    decreases n,
{
    if n > 0 {
        let front = ordered(traces, search, column, (n - 1) as nat);
        let all = ordered(traces, search, column, n);
        lemma_ordered(traces, search, column, (n - 1) as nat);
        if is_shown(traces[n - 1], search) {
            lemma_placed(traces, front, (n - 1) as usize, column);
            assert forall|k: int| 0 <= k < all.len() implies (#[trigger] all[k]) < n && is_shown(
                traces[all[k] as int],
                search,
            ) by {
                if all[k] != (n - 1) as usize {
                    let m = choose|m: int| 0 <= m < front.len() && front[m] == all[k];
                    assert(front[m] < n - 1);
                }
            }
            assert forall|i: int|
                0 <= i < n && is_shown(#[trigger] traces[i], search) implies all.contains(
                i as usize,
            ) by {
                if i < n - 1 {
                    let m = choose|m: int| 0 <= m < front.len() && front[m] == i as usize;
                    assert(all.contains(front[m]));
                }
            }
        } else {
            assert forall|i: int|
                0 <= i < n && is_shown(#[trigger] traces[i], search) implies all.contains(
                i as usize,
            ) by {
                let m = choose|m: int| 0 <= m < front.len() && front[m] == i as usize;
                assert(all[m] == i as usize);
            }
        }
    }
}

/// A position that belongs behind the first `at` of a list and before the
/// others is placed there.
proof fn lemma_placed_at(
    traces: Seq<TraceView>,
    sorted: Seq<usize>,
    position: usize,
    column: Column,
    at: int,
)
    requires
        0 <= at <= sorted.len(),
        forall|t: int|
            at <= t < sorted.len() ==> sorts_after(
                traces[(#[trigger] sorted[t]) as int],
                traces[position as int],
                column,
            ),
        at > 0 ==> !sorts_after(traces[sorted[at - 1] as int], traces[position as int], column),
    ensures
        placed(traces, sorted, position, column) == sorted.insert(at, position),
    decreases sorted.len(),
{
    if at == sorted.len() {
        assert(sorted.push(position) =~= sorted.insert(at, position));
    } else {
        assert(sorts_after(
            traces[sorted[sorted.len() - 1] as int],
            traces[position as int],
            column,
        ));
        let front = sorted.drop_last();
        assert forall|t: int| at <= t < front.len() implies sorts_after(
            traces[(#[trigger] front[t]) as int],
            traces[position as int],
            column,
        ) by {
            assert(front[t] == sorted[t]);
        }
        lemma_placed_at(traces, front, position, column, at);
        assert(front.insert(at, position).push(sorted.last()) =~= sorted.insert(at, position));
    }
}

/// Whether `text` begins with `prefix`.
fn begins_with(text: &str, prefix: &str) -> (r: bool)
    ensures
        r == starts_with(text@, prefix@),
{
    let n = prefix.unicode_len();
    if n > text.unicode_len() {
        return false;
    }
    let mut i: usize = 0;
    while i < n
        invariant
            i <= n,
            n == prefix@.len(),
            n <= text@.len(),
            forall|j: int| 0 <= j < i ==> #[trigger] text@[j] == prefix@[j],
        decreases n - i,
    {
        if text.get_char(i) != prefix.get_char(i) {
            proof {
                assert(text@.take(n as int)[i as int] != prefix@[i as int]);
            }
            return false;
        }
        i += 1;
    }
    proof {
        assert(text@.take(n as int) =~= prefix@);
    }
    true
}

/// Whether the trace at `a` comes after the trace at `b` in ascending order
/// of the column.
fn comes_after(traces: &Vec<Trace>, a: usize, b: usize, column: Column) -> (r: bool)
    requires
        a < traces.len(),
        b < traces.len(),
        all_rooted(trace_views(traces@)),
    ensures
        r == sorts_after(trace_views(traces@)[a as int], trace_views(traces@)[b as int], column),
{
    proof {
        assert(trace_views(traces@)[a as int].spans.len() >= 1);
        assert(trace_views(traces@)[b as int].spans.len() >= 1);
    }
    match column {
        Column::Id => text_before(traces[b].id.as_str(), traces[a].id.as_str()),
        Column::Name => text_before(
            traces[b].spans[0].name.as_str(),
            traces[a].spans[0].name.as_str(),
        ),
        Column::Duration => traces[a].spans[0].duration_micros > traces[b].spans[0].duration_micros,
        Column::Start => traces[a].spans[0].start.is_after(&traces[b].spans[0].start),
    }
}

/// Selects the traces whose root's name or whose identifier begins with
/// `search`, and orders them by a column.
///
/// Returns the positions of the selected traces in the order in which a
/// list shows them.
pub fn visible_traces(
    traces: &Vec<Trace>,
    search: &str,
    column: Column,
    direction: Direction,
) -> (positions: Vec<usize>)
    requires
        forall|k: int| 0 <= k < traces@.len() ==> (#[trigger] traces@[k]).spans@.len() >= 1,
    ensures
        positions@ == listed(trace_views(traces@), search@, column, direction),
        forall|k: int| 0 <= k < positions@.len() ==> (#[trigger] positions@[k]) < traces@.len(),
{
    let ghost views = trace_views(traces@);
    proof {
        assert forall|k: int| 0 <= k < views.len() implies (#[trigger] views[k]).spans.len()
            >= 1 by {
            assert(traces@[k].spans@.len() >= 1);
        }
    }
    let mut sorted: Vec<usize> = Vec::new();
    let mut i: usize = 0;
    while i < traces.len()
        invariant
            i <= traces.len(),
            views == trace_views(traces@),
            all_rooted(views),
            sorted@ == ordered(views, search@, column, i as nat),
            forall|k: int| 0 <= k < sorted@.len() ==> (#[trigger] sorted@[k]) < i,
        decreases traces.len() - i,
    {
        proof {
            assert(views[i as int].spans.len() >= 1);
            lemma_ordered(views, search@, column, (i + 1) as nat);
        }
        let shown = begins_with(traces[i].spans[0].name.as_str(), search) || begins_with(
            traces[i].id.as_str(),
            search,
        );
        if shown {
            let mut at: usize = sorted.len();
            while at > 0 && comes_after(traces, sorted[at - 1], i, column)
                invariant
                    at <= sorted.len(),
                    i < traces.len(),
                    views == trace_views(traces@),
                    all_rooted(views),
                    forall|k: int| 0 <= k < sorted@.len() ==> (#[trigger] sorted@[k]) < i,
                    forall|t: int|
                        at <= t < sorted.len() ==> sorts_after(
                            views[(#[trigger] sorted@[t]) as int],
                            views[i as int],
                            column,
                        ),
                decreases at,
            {
                at -= 1;
            }
            proof {
                lemma_placed_at(views, sorted@, i, column, at as int);
            }
            sorted.insert(at, i);
        }
        i += 1;
    }
    match direction {
        Direction::Ascending => sorted,
        Direction::Descending => {
            let mut backwards: Vec<usize> = Vec::new();
            let mut k: usize = sorted.len();
            while k > 0
                invariant
                    k <= sorted.len(),
                    backwards@.len() == sorted.len() - k,
                    forall|a: int|
                        0 <= a < backwards@.len() ==> #[trigger] backwards@[a] == sorted@[
                            sorted.len() - 1 - a
                        ],
                decreases k,
            {
                k -= 1;
                backwards.push(sorted[k]);
            }
            proof {
                assert(backwards@ =~= sorted@.reverse());
            }
            backwards
        },
    }
}

} // verus!
