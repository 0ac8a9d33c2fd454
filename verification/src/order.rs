//! The assembled traces do not depend on the order of submission.

use crate::span::SpanView;
use crate::time::Timestamp;
use crate::store::{flattened, ingested};
use crate::trace::{
    ascending, assembled, candidates, children, is_latest, latest, lemma_children, lemma_others,
    lemma_place, lemma_split_len, leveled, others, place, relative_to, rooted, stacked_children,
    starts_no_later, trace_of, traces_among, traces_of, walk, TraceView,
};
use crate::tree::{
    lemma_assembled_tree, lemma_candidates, lemma_traces_among, places, same_but_level,
};
use vstd::prelude::*;

verus! {

/// Whether two sequences hold the same spans, in whatever order.
pub open spec fn same_spans(a: Seq<SpanView>, b: Seq<SpanView>) -> bool {
    forall|x: SpanView|
        #![trigger a.contains(x)]
        #![trigger b.contains(x)]
        a.contains(x) <==> b.contains(x)
}

/// Whether no two spans of the sequence have the same identifier.
pub open spec fn distinct_ids(spans: Seq<SpanView>) -> bool {
    forall|m: int, n: int|
        0 <= m < n < spans.len() ==> (#[trigger] spans[m]).id != (#[trigger] spans[n]).id
}

/// Whether no two spans of the sequence with the same parent start at the
/// same time.
pub open spec fn distinct_sibling_starts(spans: Seq<SpanView>) -> bool {
    forall|m: int, n: int|
        0 <= m < n < spans.len() && (#[trigger] spans[m]).parent_id == (
        #[trigger] spans[n]).parent_id ==> spans[m].start.instant() != spans[n].start.instant()
}

/// Whether each span starts before the next.
pub open spec fn strictly_ascending(spans: Seq<SpanView>) -> bool {
    forall|a: int, b: int|
        0 <= a < b < spans.len() ==> (#[trigger] spans[a]).start.instant() < (
        #[trigger] spans[b]).start.instant()
}

/// Two sequences of the same spans, each span starting before the next, are
/// one sequence.
pub proof fn lemma_strict_order_unique(a: Seq<SpanView>, b: Seq<SpanView>)
    requires
        strictly_ascending(a),
        strictly_ascending(b),
        same_spans(a, b),
    ensures
        a == b,
    decreases a.len(),
{
    if a.len() == 0 {
        if b.len() > 0 {
            assert(b.contains(b[0]));
            assert(a.contains(b[0]));
        }
        assert(a =~= b);
    } else {
        let x = a.last();
        assert(a.contains(a[a.len() - 1]));
        assert(b.contains(x));
        let k = choose|k: int| 0 <= k < b.len() && b[k] == x;
        let y = b.last();
        assert(b.contains(b[b.len() - 1]));
        assert(a.contains(y));
        let m = choose|m: int| 0 <= m < a.len() && a[m] == y;
        if m < a.len() - 1 {
            assert(a[m].start.instant() < a[a.len() - 1].start.instant());
            if k < b.len() - 1 {
                assert(b[k].start.instant() < b[b.len() - 1].start.instant());
            }
        }
        assert(x == y);
        let front_a = a.drop_last();
        let front_b = b.drop_last();
        assert forall|z: SpanView| front_a.contains(z) implies front_b.contains(z) by {
            let i = choose|i: int| 0 <= i < front_a.len() && front_a[i] == z;
            assert(a[i] == z);
            assert(a.contains(z));
            assert(b.contains(z));
            let j = choose|j: int| 0 <= j < b.len() && b[j] == z;
            assert(a[i].start.instant() < a[a.len() - 1].start.instant());
            assert(front_b[j] == z);
        }
        assert forall|z: SpanView| front_b.contains(z) implies front_a.contains(z) by {
            let i = choose|i: int| 0 <= i < front_b.len() && front_b[i] == z;
            assert(b[i] == z);
            assert(b.contains(z));
            assert(a.contains(z));
            let j = choose|j: int| 0 <= j < a.len() && a[j] == z;
            assert(b[i].start.instant() < b[b.len() - 1].start.instant());
            assert(front_a[j] == z);
        }
        lemma_strict_order_unique(front_a, front_b);
        assert(a =~= front_a.push(x));
        assert(b =~= front_b.push(y));
    }
}

/// Placing a span that starts at another time than every span of a strictly
/// ascending sequence keeps the sequence strictly ascending.
proof fn lemma_place_strict(sorted: Seq<SpanView>, span: SpanView)
    requires
        strictly_ascending(sorted),
        forall|k: int|
            0 <= k < sorted.len() ==> (#[trigger] sorted[k]).start.instant()
                != span.start.instant(),
    ensures
        strictly_ascending(place(sorted, span)),
    decreases sorted.len(),
{
    let placed = place(sorted, span);
    lemma_place(sorted, span);
    assert(ascending(sorted));
    assert(ascending(placed));
    assert forall|a: int, b: int| 0 <= a < b < placed.len() implies (
    #[trigger] placed[a]).start.instant() < (#[trigger] placed[b]).start.instant() by {
        lemma_placed_apart(sorted, span, a, b);
    }
}

/// Two spans at different positions of such a placement start at different
/// times.
proof fn lemma_placed_apart(sorted: Seq<SpanView>, span: SpanView, a: int, b: int)
    requires
        strictly_ascending(sorted),
        forall|k: int|
            0 <= k < sorted.len() ==> (#[trigger] sorted[k]).start.instant()
                != span.start.instant(),
        0 <= a < b < place(sorted, span).len(),
    ensures
        place(sorted, span)[a].start.instant() != place(sorted, span)[b].start.instant(),
    decreases sorted.len(),
{
    let placed = place(sorted, span);
    lemma_place(sorted, span);
    if sorted.len() == 0 || starts_no_later(sorted.last(), span) {
        if b < sorted.len() {
            assert(placed[a] == sorted[a] && placed[b] == sorted[b]);
        } else {
            assert(placed[a] == sorted[a]);
        }
    } else {
        let front = sorted.drop_last();
        let inner = place(front, span);
        lemma_place(front, span);
        assert(strictly_ascending(front)) by {
            assert forall|p: int, q: int| 0 <= p < q < front.len() implies (
            #[trigger] front[p]).start.instant() < (#[trigger] front[q]).start.instant() by {
                assert(front[p] == sorted[p] && front[q] == sorted[q]);
            }
        }
        assert forall|k: int| 0 <= k < front.len() implies (#[trigger] front[k]).start.instant()
            != span.start.instant() by {
            assert(front[k] == sorted[k]);
        }
        if b < inner.len() {
            lemma_placed_apart(front, span, a, b);
            assert(placed[a] == inner[a] && placed[b] == inner[b]);
        } else {
            assert(placed[b] == sorted[sorted.len() - 1]);
            assert(placed[a] == inner[a]);
            if inner[a] != span {
                let m = choose|m: int| 0 <= m < front.len() && front[m] == inner[a];
                assert(sorted[m].start.instant() < sorted[sorted.len() - 1].start.instant());
            }
        }
    }
}

/// Where siblings start at different times, the children of a parent stand
/// in strictly ascending order.
proof fn lemma_children_strict(pool: Seq<SpanView>, parent: Seq<char>)
    requires
        distinct_sibling_starts(pool),
    ensures
        strictly_ascending(children(pool, parent)),
    decreases pool.len(),
{
    if pool.len() > 0 {
        let front = pool.drop_last();
        let inner = children(front, parent);
        lemma_front_distinct(pool);
        lemma_children_strict(front, parent);
        if pool.last().is_child_of(parent) {
            lemma_children(front, parent);
            assert forall|k: int| 0 <= k < inner.len() implies (
            #[trigger] inner[k]).start.instant() != pool.last().start.instant() by {
                assert(front.contains(inner[k]));
                let m = choose|m: int| 0 <= m < front.len() && front[m] == inner[k];
                assert(pool[m] == inner[k]);
                assert(pool[m].parent_id == pool[pool.len() - 1].parent_id);
            }
            lemma_place_strict(inner, pool.last());
        }
    }
}

/// What holds of a sequence holds of it without its last span.
proof fn lemma_front_distinct(spans: Seq<SpanView>)
    requires
        spans.len() > 0,
    ensures
        distinct_sibling_starts(spans) ==> distinct_sibling_starts(spans.drop_last()),
        distinct_ids(spans) ==> distinct_ids(spans.drop_last()),
{
    let front = spans.drop_last();
    if distinct_sibling_starts(spans) {
        assert forall|m: int, n: int|
            0 <= m < n < front.len() && (#[trigger] front[m]).parent_id == (
            #[trigger] front[n]).parent_id implies front[m].start.instant()
            != front[n].start.instant() by {
            assert(front[m] == spans[m] && front[n] == spans[n]);
        }
    }
    if distinct_ids(spans) {
        assert forall|m: int, n: int| 0 <= m < n < front.len() implies (#[trigger] front[m]).id != (
        #[trigger] front[n]).id by {
            assert(front[m] == spans[m] && front[n] == spans[n]);
        }
    }
}

/// The others keep what holds of the pool.
proof fn lemma_others_distinct(pool: Seq<SpanView>, parent: Seq<char>)
    requires
        distinct_sibling_starts(pool),
    ensures
        distinct_sibling_starts(others(pool, parent)),
    decreases pool.len(),
{
    if pool.len() > 0 {
        let front = pool.drop_last();
        let inner = others(front, parent);
        let rest = others(pool, parent);
        lemma_front_distinct(pool);
        lemma_others_distinct(front, parent);
        if !pool.last().is_child_of(parent) {
            lemma_others(front, parent);
            assert forall|m: int, n: int|
                0 <= m < n < rest.len() && (#[trigger] rest[m]).parent_id == (
                #[trigger] rest[n]).parent_id implies rest[m].start.instant()
                != rest[n].start.instant() by {
                if n < inner.len() {
                    assert(rest[m] == inner[m] && rest[n] == inner[n]);
                } else {
                    assert(rest[m] == inner[m]);
                    assert(front.contains(inner[m]));
                    let k = choose|k: int| 0 <= k < front.len() && front[k] == inner[m];
                    assert(pool[k] == rest[m]);
                    assert(pool[pool.len() - 1] == rest[n]);
                }
            }
        }
    }
}

/// The walk from a stack over a pool does not depend on the order of the
/// pool, where siblings start at different times.
pub proof fn lemma_walk_any_order(stack: Seq<SpanView>, pool: Seq<SpanView>, other: Seq<SpanView>)
    requires
        same_spans(pool, other),
        distinct_sibling_starts(pool),
        distinct_sibling_starts(other),
    ensures
        walk(stack, pool) == walk(stack, other),
    decreases stack.len() + pool.len(),
{
    if stack.len() > 0 {
        let top = stack.last();
        lemma_split_len(pool, top.id);
        lemma_children(pool, top.id);
        lemma_children(other, top.id);
        lemma_others(pool, top.id);
        lemma_others(other, top.id);
        lemma_children_strict(pool, top.id);
        lemma_children_strict(other, top.id);
        lemma_others_distinct(pool, top.id);
        lemma_others_distinct(other, top.id);
        let kids = children(pool, top.id);
        let other_kids = children(other, top.id);
        assert(same_spans(kids, other_kids)) by {
            assert forall|x: SpanView| kids.contains(x) implies other_kids.contains(x) by {
                let k = choose|k: int| 0 <= k < kids.len() && kids[k] == x;
                assert(pool.contains(kids[k]));
                assert(other.contains(x));
                let m = choose|m: int| 0 <= m < other.len() && other[m] == x;
                assert(other[m].is_child_of(top.id));
            }
            assert forall|x: SpanView| other_kids.contains(x) implies kids.contains(x) by {
                let k = choose|k: int| 0 <= k < other_kids.len() && other_kids[k] == x;
                assert(other.contains(other_kids[k]));
                assert(pool.contains(x));
                let m = choose|m: int| 0 <= m < pool.len() && pool[m] == x;
                assert(pool[m].is_child_of(top.id));
            }
        }
        lemma_strict_order_unique(kids, other_kids);
        let rest = others(pool, top.id);
        let other_rest = others(other, top.id);
        assert(same_spans(rest, other_rest)) by {
            assert forall|x: SpanView| rest.contains(x) implies other_rest.contains(x) by {
                let k = choose|k: int| 0 <= k < rest.len() && rest[k] == x;
                assert(pool.contains(rest[k]));
                assert(other.contains(x));
                let m = choose|m: int| 0 <= m < other.len() && other[m] == x;
                assert(!other[m].is_child_of(top.id));
            }
            assert forall|x: SpanView| other_rest.contains(x) implies rest.contains(x) by {
                let k = choose|k: int| 0 <= k < other_rest.len() && other_rest[k] == x;
                assert(other.contains(other_rest[k]));
                assert(pool.contains(x));
                let m = choose|m: int| 0 <= m < pool.len() && pool[m] == x;
                assert(!pool[m].is_child_of(top.id));
            }
        }
        lemma_walk_any_order(stack.drop_last() + stacked_children(pool, top), rest, other_rest);
    }
}

/// Whether two different spans of the sequence never have the same
/// identifier.
pub open spec fn unique_ids(spans: Seq<SpanView>) -> bool {
    forall|m: int, n: int|
        0 <= m < spans.len() && 0 <= n < spans.len() && (#[trigger] spans[m]) != (
        #[trigger] spans[n]) ==> spans[m].id != spans[n].id
}

/// Whether two different spans of the sequence with the same parent never
/// start at the same time.
pub open spec fn unique_sibling_starts(spans: Seq<SpanView>) -> bool {
    forall|m: int, n: int|
        0 <= m < spans.len() && 0 <= n < spans.len() && (#[trigger] spans[m]) != (
        #[trigger] spans[n]) && spans[m].parent_id == spans[n].parent_id
            ==> spans[m].start.instant() != spans[n].start.instant()
}

/// Whether two different spans of the sequence that name the same parent
/// never start at the same time.
pub open spec fn unique_child_starts(spans: Seq<SpanView>) -> bool {
    forall|m: int, n: int|
        0 <= m < spans.len() && 0 <= n < spans.len() && (#[trigger] spans[m]) != (
        #[trigger] spans[n]) && spans[m].parent_id is Some && spans[m].parent_id
            == spans[n].parent_id ==> spans[m].start.instant() != spans[n].start.instant()
}

/// What holds of two different spans of a sequence holds of every sequence
/// of spans of it.
proof fn lemma_unique_within(spans: Seq<SpanView>, part: Seq<SpanView>)
    requires
        forall|k: int| 0 <= k < part.len() ==> spans.contains(#[trigger] part[k]),
    ensures
        unique_ids(spans) ==> unique_ids(part),
        unique_sibling_starts(spans) ==> unique_sibling_starts(part),
        unique_child_starts(spans) ==> unique_child_starts(part),
{
    if unique_ids(spans) {
        assert forall|m: int, n: int|
            0 <= m < part.len() && 0 <= n < part.len() && (#[trigger] part[m]) != (
            #[trigger] part[n]) implies part[m].id != part[n].id by {
            let a = choose|a: int| 0 <= a < spans.len() && spans[a] == part[m];
            let b = choose|b: int| 0 <= b < spans.len() && spans[b] == part[n];
            assert(spans[a] != spans[b]);
        }
    }
    if unique_sibling_starts(spans) {
        assert forall|m: int, n: int|
            0 <= m < part.len() && 0 <= n < part.len() && (#[trigger] part[m]) != (
            #[trigger] part[n]) && part[m].parent_id
                == part[n].parent_id implies part[m].start.instant()
            != part[n].start.instant() by {
            let a = choose|a: int| 0 <= a < spans.len() && spans[a] == part[m];
            let b = choose|b: int| 0 <= b < spans.len() && spans[b] == part[n];
            assert(spans[a] != spans[b]);
        }
    }
    if unique_child_starts(spans) {
        assert forall|m: int, n: int|
            0 <= m < part.len() && 0 <= n < part.len() && (#[trigger] part[m]) != (
            #[trigger] part[n]) && part[m].parent_id is Some && part[m].parent_id
                == part[n].parent_id implies part[m].start.instant()
            != part[n].start.instant() by {
            let a = choose|a: int| 0 <= a < spans.len() && spans[a] == part[m];
            let b = choose|b: int| 0 <= b < spans.len() && spans[b] == part[n];
            assert(spans[a] != spans[b]);
        }
    }
}

/// After every span comes a last span with its identifier.
proof fn lemma_last_with_id(spans: Seq<SpanView>, m: int) -> (last: int)
    requires
        0 <= m < spans.len(),
    ensures
        m <= last < spans.len(),
        spans[last].id == spans[m].id,
        is_latest(spans, last),
    decreases spans.len() - m,
{
    if is_latest(spans, m) {
        m
    } else {
        let j = choose|j: int| m < j < spans.len() && (#[trigger] spans[j]).id == spans[m].id;
        lemma_last_with_id(spans, j)
    }
}

/// Whether `span` is, among the first `n` spans, the last with its
/// identifier.
spec fn kept_from(spans: Seq<SpanView>, n: nat, span: SpanView) -> bool {
    exists|i: int| 0 <= i < n && is_latest(spans, i) && (#[trigger] spans[i]) == span
}

/// The spans that count stand at the positions of the last span of each
/// identifier.
proof fn lemma_latest_positions(spans: Seq<SpanView>, n: nat)
    requires
        n <= spans.len(),
    ensures
        forall|k: int|
            0 <= k < latest(spans, n).len() ==> kept_from(spans, n, #[trigger] latest(spans, n)[k]),
        forall|i: int|
            0 <= i < n && is_latest(spans, i) ==> latest(spans, n).contains(
                #[trigger] spans[i],
            ),
        distinct_ids(latest(spans, n)),
    decreases n,
{
    if n > 0 {
        let front = latest(spans, (n - 1) as nat);
        let all = latest(spans, n);
        lemma_latest_positions(spans, (n - 1) as nat);
        assert forall|k: int| 0 <= k < all.len() implies kept_from(spans, n, #[trigger] all[k]) by {
            if k < front.len() {
                assert(all[k] == front[k]);
                assert(kept_from(spans, (n - 1) as nat, front[k]));
                let i = choose|i: int|
                    0 <= i < n - 1 && is_latest(spans, i) && (#[trigger] spans[i])
                        == front[k];
                assert(0 <= i < n && is_latest(spans, i) && spans[i] == all[k]);
            } else {
                assert(is_latest(spans, n - 1) && spans[n - 1] == all[k]);
            }
        }
        assert forall|i: int|
            0 <= i < n && is_latest(spans, i) implies all.contains(
            #[trigger] spans[i],
        ) by {
            if i < n - 1 {
                let k = choose|k: int| 0 <= k < front.len() && front[k] == spans[i];
                assert(all[k] == spans[i]);
            } else {
                assert(all[all.len() - 1] == spans[i]);
            }
        }
        assert forall|a: int, b: int| 0 <= a < b < all.len() implies (#[trigger] all[a]).id != (
        #[trigger] all[b]).id by {
            if b < front.len() {
                assert(all[a] == front[a] && all[b] == front[b]);
            } else {
                assert(all[a] == front[a]);
                assert(kept_from(spans, (n - 1) as nat, front[a]));
                let i = choose|i: int|
                    0 <= i < n - 1 && is_latest(spans, i) && (#[trigger] spans[i])
                        == front[a];
                assert(spans[n - 1].id != spans[i].id);
            }
        }
    }
}

/// Where two different spans never have the same identifier, the spans that
/// count are all the spans, each once.
proof fn lemma_latest_same(spans: Seq<SpanView>)
    requires
        unique_ids(spans),
    ensures
        same_spans(latest(spans, spans.len()), spans),
        distinct_ids(latest(spans, spans.len())),
        unique_sibling_starts(spans) ==> distinct_sibling_starts(latest(spans, spans.len())),
{
    let kept = latest(spans, spans.len());
    lemma_latest_positions(spans, spans.len());
    assert forall|x: SpanView| spans.contains(x) implies kept.contains(x) by {
        let m = choose|m: int| 0 <= m < spans.len() && spans[m] == x;
        let last = lemma_last_with_id(spans, m);
        assert(spans[last] == spans[m]);
        assert(kept.contains(spans[last]));
    }
    assert forall|x: SpanView| kept.contains(x) implies spans.contains(x) by {
        let k = choose|k: int| 0 <= k < kept.len() && kept[k] == x;
        assert(kept_from(spans, spans.len(), kept[k]));
        let i = choose|i: int|
            0 <= i < spans.len() && is_latest(spans, i) && (#[trigger] spans[i])
                == kept[k];
        assert(spans[i] == x);
    }
    if unique_sibling_starts(spans) {
        assert forall|k: int| 0 <= k < kept.len() implies spans.contains(#[trigger] kept[k]) by {
            assert(kept.contains(kept[k]));
        }
        lemma_unique_within(spans, kept);
        assert forall|m: int, n: int|
            0 <= m < n < kept.len() && (#[trigger] kept[m]).parent_id == (
            #[trigger] kept[n]).parent_id implies kept[m].start.instant()
            != kept[n].start.instant() by {
            assert(kept[m].id != kept[n].id);
        }
    }
}

/// Giving every span its offset keeps what holds of the sequence.
proof fn lemma_relative_keeps(a: Seq<SpanView>, b: Seq<SpanView>, root_start: Timestamp)
    ensures
        same_spans(a, b) ==> same_spans(relative_to(a, root_start), relative_to(b, root_start)),
        unique_ids(a) ==> unique_ids(relative_to(a, root_start)),
        unique_sibling_starts(a) ==> unique_sibling_starts(relative_to(a, root_start)),
{
    let ra = relative_to(a, root_start);
    let rb = relative_to(b, root_start);
    if same_spans(a, b) {
        assert forall|x: SpanView| ra.contains(x) implies rb.contains(x) by {
            let k = choose|k: int| 0 <= k < ra.len() && ra[k] == x;
            assert(a.contains(a[k]));
            assert(b.contains(a[k]));
            let m = choose|m: int| 0 <= m < b.len() && b[m] == a[k];
            assert(rb[m] == x);
        }
        assert forall|x: SpanView| rb.contains(x) implies ra.contains(x) by {
            let k = choose|k: int| 0 <= k < rb.len() && rb[k] == x;
            assert(b.contains(b[k]));
            assert(a.contains(b[k]));
            let m = choose|m: int| 0 <= m < a.len() && a[m] == b[k];
            assert(ra[m] == x);
        }
    }
    if unique_ids(a) {
        assert forall|m: int, n: int|
            0 <= m < ra.len() && 0 <= n < ra.len() && (#[trigger] ra[m]) != (
            #[trigger] ra[n]) implies ra[m].id != ra[n].id by {
            assert(a[m] != a[n]);
        }
    }
    if unique_sibling_starts(a) {
        assert forall|m: int, n: int|
            0 <= m < ra.len() && 0 <= n < ra.len() && (#[trigger] ra[m]) != (
            #[trigger] ra[n]) && ra[m].parent_id == ra[n].parent_id implies ra[m].start.instant()
            != ra[n].start.instant() by {
            assert(a[m] != a[n]);
            assert(a[m].parent_id == a[n].parent_id);
        }
    }
}

/// The trace of a root does not depend on the order of its descendants,
/// where two different descendants never have the same identifier, nor the
/// same parent and the same start.
pub proof fn lemma_assembled_any_order(
    root: SpanView,
    descendants: Seq<SpanView>,
    reordered: Seq<SpanView>,
)
    requires
        same_spans(descendants, reordered),
        unique_ids(descendants),
        unique_sibling_starts(descendants),
    ensures
        assembled(root, descendants) == assembled(root, reordered),
{
    assert forall|k: int| 0 <= k < reordered.len() implies descendants.contains(
        #[trigger] reordered[k],
    ) by {
        assert(reordered.contains(reordered[k]));
    }
    lemma_unique_within(descendants, reordered);
    let all = relative_to(descendants, root.start);
    let other_all = relative_to(reordered, root.start);
    lemma_relative_keeps(descendants, reordered, root.start);
    lemma_relative_keeps(reordered, descendants, root.start);
    lemma_latest_same(all);
    lemma_latest_same(other_all);
    let pool = latest(all, descendants.len());
    let other = latest(other_all, reordered.len());
    assert(same_spans(pool, other)) by {
        assert forall|x: SpanView| pool.contains(x) implies other.contains(x) by {
            assert(all.contains(x));
            assert(other_all.contains(x));
        }
        assert forall|x: SpanView| other.contains(x) implies pool.contains(x) by {
            assert(other_all.contains(x));
            assert(all.contains(x));
        }
    }
    lemma_walk_any_order(seq![rooted(root)], pool, other);
}

/// The identifiers of the traces.
pub open spec fn trace_ids(traces: Seq<TraceView>) -> Set<Seq<char>> {
    Set::new(
        |id: Seq<char>| exists|k: int| 0 <= k < traces.len() && (#[trigger] traces[k]).id == id,
    )
}

/// Whether two sequences hold the same traces, in whatever order.
pub open spec fn same_traces(a: Seq<TraceView>, b: Seq<TraceView>) -> bool {
    &&& forall|k: int| 0 <= k < a.len() ==> b.contains(#[trigger] a[k])
    &&& forall|k: int| 0 <= k < b.len() ==> a.contains(#[trigger] b[k])
}

/// Among the candidates of a trace, siblings start at different times where
/// the spans that name the same parent do.
proof fn lemma_candidates_unique(spans: Seq<SpanView>, trace_id: Seq<char>)
    ensures
        unique_ids(spans) ==> unique_ids(candidates(spans, trace_id)),
        unique_child_starts(spans) ==> unique_sibling_starts(candidates(spans, trace_id)),
{
    let found = candidates(spans, trace_id);
    lemma_candidates(spans, trace_id);
    lemma_unique_within(spans, found);
    if unique_child_starts(spans) {
        assert forall|m: int, n: int|
            0 <= m < found.len() && 0 <= n < found.len() && (#[trigger] found[m]) != (
            #[trigger] found[n]) && found[m].parent_id
                == found[n].parent_id implies found[m].start.instant()
            != found[n].start.instant() by {
            assert(found[m].parent_id is Some);
        }
    }
}

/// Every trace of a collection of spans is a trace of the same spans in
/// another order.
proof fn lemma_traces_carry_over(spans: Seq<SpanView>, reordered: Seq<SpanView>)
    requires
        same_spans(spans, reordered),
        unique_ids(spans),
        unique_child_starts(spans),
    ensures
        forall|k: int|
            0 <= k < traces_of(spans).len() ==> traces_of(reordered).contains(
                #[trigger] traces_of(spans)[k],
            ),
{
    let traces = traces_of(spans);
    lemma_traces_among(spans, spans.len());
    lemma_traces_among(reordered, reordered.len());
    assert forall|k: int| 0 <= k < traces.len() implies traces_of(reordered).contains(
        #[trigger] traces[k],
    ) by {
        let m = choose|m: int|
            0 <= m < spans.len() && (#[trigger] spans[m]).parent_id is None && traces[k]
                == trace_of(spans[m], spans);
        let root = spans[m];
        assert(spans.contains(spans[m]));
        assert(reordered.contains(root));
        let n = choose|n: int| 0 <= n < reordered.len() && reordered[n] == root;
        let found = candidates(spans, root.trace_id);
        let other = candidates(reordered, root.trace_id);
        lemma_candidates(spans, root.trace_id);
        lemma_candidates(reordered, root.trace_id);
        lemma_candidates_unique(spans, root.trace_id);
        assert(same_spans(found, other)) by {
            assert forall|x: SpanView| found.contains(x) implies other.contains(x) by {
                let i = choose|i: int| 0 <= i < found.len() && found[i] == x;
                assert(spans.contains(found[i]));
                assert(reordered.contains(x));
                let j = choose|j: int| 0 <= j < reordered.len() && reordered[j] == x;
                assert(other.contains(reordered[j]));
            }
            assert forall|x: SpanView| other.contains(x) implies found.contains(x) by {
                let i = choose|i: int| 0 <= i < other.len() && other[i] == x;
                assert(reordered.contains(other[i]));
                assert(spans.contains(x));
                let j = choose|j: int| 0 <= j < spans.len() && spans[j] == x;
                assert(found.contains(spans[j]));
            }
        }
        lemma_assembled_any_order(root, found, other);
        assert(trace_of(root, spans) == trace_of(reordered[n], reordered));
    }
}

/// Two sequences of the same traces have traces with the same identifiers.
pub proof fn lemma_same_traces_same_ids(a: Seq<TraceView>, b: Seq<TraceView>)
    requires
        same_traces(a, b),
    ensures
        trace_ids(a) == trace_ids(b),
{
    assert forall|id: Seq<char>| trace_ids(a).contains(id) implies trace_ids(b).contains(id) by {
        let k = choose|k: int| 0 <= k < a.len() && (#[trigger] a[k]).id == id;
        assert(b.contains(a[k]));
        let j = choose|j: int| 0 <= j < b.len() && b[j] == a[k];
        assert(b[j].id == id);
    }
    assert forall|id: Seq<char>| trace_ids(b).contains(id) implies trace_ids(a).contains(id) by {
        let k = choose|k: int| 0 <= k < b.len() && (#[trigger] b[k]).id == id;
        assert(a.contains(b[k]));
        let j = choose|j: int| 0 <= j < a.len() && a[j] == b[k];
        assert(a[j].id == id);
    }
    assert(trace_ids(a) =~= trace_ids(b));
}

/// The traces of a collection of spans do not depend on the order of the
/// spans, but for the order of the traces themselves.
///
/// Where two collections hold the same spans, two different spans never
/// have the same identifier, and two different spans that name the same
/// parent never start at the same time, both have traces with the same
/// identifiers, and every trace of one is a trace of the other, with the
/// same spans in the same order.
pub proof fn lemma_traces_any_order(spans: Seq<SpanView>, reordered: Seq<SpanView>)
    requires
        same_spans(spans, reordered),
        unique_ids(spans),
        unique_child_starts(spans),
    ensures
        same_traces(traces_of(spans), traces_of(reordered)),
        trace_ids(traces_of(spans)) == trace_ids(traces_of(reordered)),
{
    assert forall|k: int| 0 <= k < reordered.len() implies spans.contains(
        #[trigger] reordered[k],
    ) by {
        assert(reordered.contains(reordered[k]));
    }
    lemma_unique_within(spans, reordered);
    lemma_traces_carry_over(spans, reordered);
    lemma_traces_carry_over(reordered, spans);
    lemma_same_traces_same_ids(traces_of(spans), traces_of(reordered));
}

/// The span without its place in a trace.
pub open spec fn unplaced(span: SpanView) -> SpanView {
    span.at_level(0).at_offset(0)
}

/// Whether two spans differ in nothing but their place in a trace: their
/// depth and their offset.
pub open spec fn same_span(a: SpanView, b: SpanView) -> bool {
    unplaced(a) == unplaced(b)
}

/// The spans, each without its place in a trace.
pub open spec fn all_unplaced(spans: Seq<SpanView>) -> Seq<SpanView> {
    spans.map_values(|s: SpanView| unplaced(s))
}

/// Whether two sequences hold, position by position, spans that differ in
/// nothing but their place in a trace.
pub open spec fn alike(a: Seq<SpanView>, b: Seq<SpanView>) -> bool {
    &&& a.len() == b.len()
    &&& forall|i: int| 0 <= i < a.len() ==> same_span(#[trigger] a[i], b[i])
}

/// Whether two sequences hold, position by position, spans that differ in
/// nothing but their depth.
spec fn level_alike(a: Seq<SpanView>, b: Seq<SpanView>) -> bool {
    &&& a.len() == b.len()
    &&& forall|i: int| 0 <= i < a.len() ==> same_but_level(#[trigger] a[i], b[i])
}

/// Placing spans that differ in their depth alone gives sequences that
/// differ in depths alone.
proof fn lemma_place_alike(
    sorted: Seq<SpanView>,
    other: Seq<SpanView>,
    span: SpanView,
    other_span: SpanView,
)
    requires
        level_alike(sorted, other),
        same_but_level(span, other_span),
    ensures
        level_alike(place(sorted, span), place(other, other_span)),
    decreases sorted.len(),
{
    let a = place(sorted, span);
    let b = place(other, other_span);
    if sorted.len() > 0 {
        assert(same_but_level(sorted[sorted.len() - 1], other[other.len() - 1]));
    }
    if sorted.len() == 0 || starts_no_later(sorted.last(), span) {
        assert forall|i: int| 0 <= i < a.len() implies same_but_level(#[trigger] a[i], b[i]) by {
            if i < sorted.len() {
                assert(same_but_level(sorted[i], other[i]));
            }
        }
    } else {
        let front = sorted.drop_last();
        let other_front = other.drop_last();
        assert(level_alike(front, other_front)) by {
            assert forall|i: int| 0 <= i < front.len() implies same_but_level(
                #[trigger] front[i],
                other_front[i],
            ) by {
                assert(same_but_level(sorted[i], other[i]));
            }
        }
        lemma_place_alike(front, other_front, span, other_span);
        let inner = place(front, span);
        let other_inner = place(other_front, other_span);
        assert forall|i: int| 0 <= i < a.len() implies same_but_level(#[trigger] a[i], b[i]) by {
            if i < inner.len() {
                assert(same_but_level(inner[i], other_inner[i]));
            }
        }
    }
}

/// Pools that differ in depths alone have children and others that differ
/// in depths alone.
proof fn lemma_split_alike(pool: Seq<SpanView>, other: Seq<SpanView>, parent: Seq<char>)
    requires
        level_alike(pool, other),
    ensures
        level_alike(children(pool, parent), children(other, parent)),
        level_alike(others(pool, parent), others(other, parent)),
    decreases pool.len(),
{
    if pool.len() > 0 {
        let front = pool.drop_last();
        let other_front = other.drop_last();
        assert(same_but_level(pool[pool.len() - 1], other[other.len() - 1]));
        assert(level_alike(front, other_front)) by {
            assert forall|i: int| 0 <= i < front.len() implies same_but_level(
                #[trigger] front[i],
                other_front[i],
            ) by {
                assert(same_but_level(pool[i], other[i]));
            }
        }
        lemma_split_alike(front, other_front, parent);
        if pool.last().is_child_of(parent) {
            lemma_place_alike(
                children(front, parent),
                children(other_front, parent),
                pool.last(),
                other.last(),
            );
        } else {
            let rest = others(pool, parent);
            let other_rest = others(other, parent);
            let inner = others(front, parent);
            let other_inner = others(other_front, parent);
            assert forall|i: int| 0 <= i < rest.len() implies same_but_level(
                #[trigger] rest[i],
                other_rest[i],
            ) by {
                if i < inner.len() {
                    assert(same_but_level(inner[i], other_inner[i]));
                }
            }
        }
    }
}

/// The walk over a pool does not depend on the depths of the spans in the
/// pool.
proof fn lemma_walk_alike(stack: Seq<SpanView>, pool: Seq<SpanView>, other: Seq<SpanView>)
    requires
        level_alike(pool, other),
    ensures
        walk(stack, pool) == walk(stack, other),
    decreases stack.len() + pool.len(),
{
    if stack.len() > 0 {
        let top = stack.last();
        lemma_split_len(pool, top.id);
        lemma_split_alike(pool, other, top.id);
        let kids = children(pool, top.id);
        let other_kids = children(other, top.id);
        let placed = leveled(kids, top.level + 1);
        let other_placed = leveled(other_kids, top.level + 1);
        assert(placed =~= other_placed) by {
            assert forall|i: int| 0 <= i < placed.len() implies placed[i] == other_placed[i] by {
                assert(same_but_level(kids[i], other_kids[i]));
            }
        }
        lemma_walk_alike(
            stack.drop_last() + stacked_children(pool, top),
            others(pool, top.id),
            others(other, top.id),
        );
    }
}

/// Sequences that differ in depths alone have the same spans that count,
/// but for their depths.
proof fn lemma_latest_alike(spans: Seq<SpanView>, other: Seq<SpanView>, n: nat)
    requires
        level_alike(spans, other),
    ensures
        level_alike(latest(spans, n), latest(other, n)),
    decreases n,
{
    if n > 0 && n <= spans.len() {
        lemma_latest_alike(spans, other, (n - 1) as nat);
        assert(same_but_level(spans[n - 1], other[n - 1]));
        assert(is_latest(spans, n - 1) == is_latest(other, n - 1)) by {
            if is_latest(spans, n - 1) {
                assert forall|j: int| n - 1 < j < other.len() implies (#[trigger] other[j]).id
                    != other[n - 1].id by {
                    assert(same_but_level(spans[j], other[j]));
                }
            }
            if is_latest(other, n - 1) {
                assert forall|j: int| n - 1 < j < spans.len() implies (#[trigger] spans[j]).id
                    != spans[n - 1].id by {
                    assert(same_but_level(spans[j], other[j]));
                }
            }
        }
        let a = latest(spans, n);
        let b = latest(other, n);
        let front = latest(spans, (n - 1) as nat);
        let other_front = latest(other, (n - 1) as nat);
        assert forall|i: int| 0 <= i < a.len() implies same_but_level(#[trigger] a[i], b[i]) by {
            if i < front.len() {
                assert(same_but_level(front[i], other_front[i]));
            }
        }
    }
}

/// The trace of a root does not depend on the place that the root and its
/// descendants had in another trace.
proof fn lemma_assembled_alike(
    root: SpanView,
    other_root: SpanView,
    descendants: Seq<SpanView>,
    others: Seq<SpanView>,
)
    requires
        same_span(root, other_root),
        alike(descendants, others),
    ensures
        assembled(root, descendants) == assembled(other_root, others),
{
    let all = relative_to(descendants, root.start);
    let other_all = relative_to(others, other_root.start);
    assert(level_alike(all, other_all)) by {
        assert forall|i: int| 0 <= i < all.len() implies same_but_level(
            #[trigger] all[i],
            other_all[i],
        ) by {
            assert(same_span(descendants[i], others[i]));
        }
    }
    lemma_latest_alike(all, other_all, descendants.len());
    lemma_walk_alike(
        seq![rooted(root)],
        latest(all, descendants.len()),
        latest(other_all, others.len()),
    );
}

/// The candidates of a trace do not depend on the places of the spans, but
/// for their own places.
proof fn lemma_candidates_alike(spans: Seq<SpanView>, other: Seq<SpanView>, trace_id: Seq<char>)
    requires
        alike(spans, other),
    ensures
        alike(candidates(spans, trace_id), candidates(other, trace_id)),
    decreases spans.len(),
{
    if spans.len() > 0 {
        let front = spans.drop_last();
        let other_front = other.drop_last();
        assert(same_span(spans[spans.len() - 1], other[other.len() - 1]));
        assert(alike(front, other_front)) by {
            assert forall|i: int| 0 <= i < front.len() implies same_span(
                #[trigger] front[i],
                other_front[i],
            ) by {
                assert(same_span(spans[i], other[i]));
            }
        }
        lemma_candidates_alike(front, other_front, trace_id);
        let a = candidates(spans, trace_id);
        let b = candidates(other, trace_id);
        let inner = candidates(front, trace_id);
        let other_inner = candidates(other_front, trace_id);
        assert forall|i: int| 0 <= i < a.len() implies same_span(#[trigger] a[i], b[i]) by {
            if i < inner.len() {
                assert(same_span(inner[i], other_inner[i]));
            }
        }
    }
}

/// The traces of a collection of spans do not depend on the place that the
/// spans had in other traces.
pub proof fn lemma_traces_alike(spans: Seq<SpanView>, other: Seq<SpanView>, n: nat)
    requires
        alike(spans, other),
    ensures
        traces_among(spans, n) == traces_among(other, n),
    decreases n,
{
    if n > 0 && n <= spans.len() {
        lemma_traces_alike(spans, other, (n - 1) as nat);
        let root = spans[n - 1];
        let other_root = other[n - 1];
        assert(same_span(root, other_root));
        if root.parent_id is None {
            lemma_candidates_alike(spans, other, root.trace_id);
            lemma_assembled_alike(
                root,
                other_root,
                candidates(spans, root.trace_id),
                candidates(other, other_root.trace_id),
            );
        }
    }
}

/// Whether `span` stands in one of the traces.
pub open spec fn listed_in(traces: Seq<TraceView>, span: SpanView) -> bool {
    exists|k: int|
        0 <= k < traces.len() && (#[trigger] traces[k]).spans.contains(span)
}

/// The spans of the traces, one after another, are the spans that stand in
/// one of the traces.
proof fn lemma_flattened(traces: Seq<TraceView>)
    ensures
        forall|j: int|
            0 <= j < flattened(traces).len() ==> listed_in(traces, #[trigger] flattened(traces)[j]),
        forall|k: int, i: int|
            0 <= k < traces.len() && 0 <= i < traces[k].spans.len() ==> flattened(
                traces,
            ).contains(#[trigger] traces[k].spans[i]),
    decreases traces.len(),
{
    let all = flattened(traces);
    if traces.len() > 0 {
        let front = traces.drop_last();
        let inner = flattened(front);
        let last = traces.last();
        lemma_flattened(front);
        assert forall|j: int| 0 <= j < all.len() implies listed_in(traces, #[trigger] all[j]) by {
            if j < inner.len() {
                assert(all[j] == inner[j]);
                assert(listed_in(front, inner[j]));
                let k = choose|k: int|
                    0 <= k < front.len() && (#[trigger] front[k]).spans.contains(inner[j]);
                assert(traces[k].spans.contains(all[j]));
            } else {
                assert(last.spans[j - inner.len()] == all[j]);
                assert(traces[traces.len() - 1].spans.contains(all[j]));
            }
        }
        assert forall|k: int, i: int|
            0 <= k < traces.len() && 0 <= i < traces[k].spans.len() implies all.contains(
            #[trigger] traces[k].spans[i],
        ) by {
            if k < front.len() {
                assert(front[k] == traces[k]);
                assert(inner.contains(front[k].spans[i]));
                let j = choose|j: int| 0 <= j < inner.len() && inner[j] == traces[k].spans[i];
                assert(all[j] == traces[k].spans[i]);
            } else {
                assert(all[inner.len() + i] == traces[k].spans[i]);
            }
        }
    }
}

/// Whether a span of `held` is `span`, but for its place in a trace.
pub open spec fn held_in(held: Seq<SpanView>, span: SpanView) -> bool {
    exists|j: int| 0 <= j < held.len() && same_span(#[trigger] held[j], span)
}

/// Every span in the traces of a collection is a span of the collection at
/// its place in the trace.
proof fn lemma_traces_hold_spans(spans: Seq<SpanView>)
    ensures
        forall|j: int|
            0 <= j < flattened(traces_of(spans)).len() ==> held_in(
                spans,
                #[trigger] flattened(traces_of(spans))[j],
            ),
{
    let traces = traces_of(spans);
    let all = flattened(traces);
    lemma_flattened(traces);
    lemma_traces_among(spans, spans.len());
    assert forall|j: int| 0 <= j < all.len() implies held_in(spans, #[trigger] all[j]) by {
        assert(listed_in(traces, all[j]));
        let k = choose|k: int|
            0 <= k < traces.len() && (#[trigger] traces[k]).spans.contains(all[j]);
        let m = choose|m: int|
            0 <= m < spans.len() && (#[trigger] spans[m]).parent_id is None && traces[k]
                == trace_of(spans[m], spans);
        let root = spans[m];
        let found = candidates(spans, root.trace_id);
        let out = assembled(root, found);
        let i = choose|i: int| 0 <= i < out.len() && out[i] == all[j];
        lemma_assembled_tree(root, found);
        lemma_candidates(spans, root.trace_id);
        if i == 0 {
            assert(same_span(spans[m], all[j]));
        } else {
            let c = choose|c: int|
                0 <= c < found.len() && places(out[i], #[trigger] found[c], root.start);
            assert(spans.contains(found[c]));
            let n = choose|n: int| 0 <= n < spans.len() && spans[n] == found[c];
            assert(same_span(spans[n], all[j]));
        }
    }
}

/// Whether every span of the batch stands in a trace of the batch itself.
pub open spec fn all_placed(batch: Seq<SpanView>) -> bool {
    forall|m: int|
        0 <= m < batch.len() ==> held_in(flattened(traces_of(batch)), #[trigger] batch[m])
}

/// Sequences with the same traces as a third have the same traces.
proof fn lemma_same_traces_chain(a: Seq<TraceView>, b: Seq<TraceView>, c: Seq<TraceView>)
    requires
        same_traces(a, b),
        same_traces(b, c),
    ensures
        same_traces(a, c),
        same_traces(c, a),
{
    assert forall|k: int| 0 <= k < a.len() implies c.contains(#[trigger] a[k]) by {
        assert(b.contains(a[k]));
        let j = choose|j: int| 0 <= j < b.len() && b[j] == a[k];
        assert(c.contains(b[j]));
    }
    assert forall|k: int| 0 <= k < c.len() implies a.contains(#[trigger] c[k]) by {
        assert(b.contains(c[k]));
        let j = choose|j: int| 0 <= j < b.len() && b[j] == c[k];
        assert(a.contains(b[j]));
    }
}

/// A store that took in a batch and then another holds the traces of the
/// spans of both, wherever every span of the first batch stands in a trace
/// of the first batch itself.
proof fn lemma_after_two_batches(first: Seq<SpanView>, second: Seq<SpanView>)
    requires
        unique_ids(first + second),
        unique_child_starts(first + second),
        all_placed(first),
    ensures
        same_traces(
            ingested(ingested(Seq::empty(), first), second),
            traces_of(all_unplaced(first + second)),
        ),
        unique_ids(all_unplaced(first + second)),
        unique_child_starts(all_unplaced(first + second)),
{
    let both = first + second;
    let plain = all_unplaced(both);
    assert(flattened(Seq::<TraceView>::empty()) + first =~= first);
    let held = flattened(traces_of(first));
    let fed = held + second;
    let fed_plain = all_unplaced(fed);
    assert(ingested(ingested(Seq::empty(), first), second) == traces_of(fed));
    assert(alike(fed, fed_plain));
    lemma_traces_alike(fed, fed_plain, fed.len());
    lemma_traces_hold_spans(first);
    assert(same_spans(plain, fed_plain)) by {
        assert forall|x: SpanView| plain.contains(x) implies fed_plain.contains(x) by {
            let i = choose|i: int| 0 <= i < plain.len() && plain[i] == x;
            if i < first.len() {
                assert(both[i] == first[i]);
                assert(held_in(held, first[i]));
                let j = choose|j: int|
                    0 <= j < held.len() && same_span(#[trigger] held[j], first[i]);
                assert(fed[j] == held[j]);
                assert(fed_plain[j] == x);
            } else {
                assert(both[i] == second[i - first.len()]);
                assert(fed[held.len() + (i - first.len())] == both[i]);
                assert(fed_plain[held.len() + (i - first.len())] == x);
            }
        }
        assert forall|x: SpanView| fed_plain.contains(x) implies plain.contains(x) by {
            let j = choose|j: int| 0 <= j < fed_plain.len() && fed_plain[j] == x;
            if j < held.len() {
                assert(fed[j] == held[j]);
                assert(held_in(first, held[j]));
                let m = choose|m: int|
                    0 <= m < first.len() && same_span(#[trigger] first[m], held[j]);
                assert(both[m] == first[m]);
                assert(plain[m] == x);
            } else {
                assert(fed[j] == second[j - held.len()]);
                assert(both[first.len() + (j - held.len())] == fed[j]);
                assert(plain[first.len() + (j - held.len())] == x);
            }
        }
    }
    assert(unique_ids(plain)) by {
        assert forall|m: int, n: int|
            0 <= m < plain.len() && 0 <= n < plain.len() && (#[trigger] plain[m]) != (
            #[trigger] plain[n]) implies plain[m].id != plain[n].id by {
            assert(both[m] != both[n]);
        }
    }
    assert(unique_child_starts(plain)) by {
        assert forall|m: int, n: int|
            0 <= m < plain.len() && 0 <= n < plain.len() && (#[trigger] plain[m]) != (
            #[trigger] plain[n]) && plain[m].parent_id is Some && plain[m].parent_id
                == plain[n].parent_id implies plain[m].start.instant()
            != plain[n].start.instant() by {
            assert(both[m] != both[n]);
            assert(both[m].parent_id == both[n].parent_id);
        }
    }
    lemma_traces_any_order(plain, fed_plain);
}

/// Two batches give the same traces in whichever order a store takes them
/// in.
///
/// Let two stores start empty, and let one take in a first batch and then a
/// second, the other the second and then the first. Where two different
/// spans of the batches never have the same identifier, two different spans
/// that name the same parent never start at the same time, and every span
/// of a batch stands in a trace of that batch itself, both stores then hold
/// traces with the same identifiers, and every trace of one is a trace of
/// the other, with the same spans in the same order.
pub proof fn lemma_batches_any_order(first: Seq<SpanView>, second: Seq<SpanView>)
    requires
        unique_ids(first + second),
        unique_child_starts(first + second),
        all_placed(first),
        all_placed(second),
    ensures
        same_traces(
            ingested(ingested(Seq::empty(), first), second),
            ingested(ingested(Seq::empty(), second), first),
        ),
        trace_ids(ingested(ingested(Seq::empty(), first), second)) == trace_ids(
            ingested(ingested(Seq::empty(), second), first),
        ),
{
    let both = first + second;
    let swapped = second + first;
    assert(same_spans(both, swapped)) by {
        assert forall|x: SpanView| both.contains(x) implies swapped.contains(x) by {
            let i = choose|i: int| 0 <= i < both.len() && both[i] == x;
            if i < first.len() {
                assert(swapped[second.len() + i] == x);
            } else {
                assert(swapped[i - first.len()] == x);
            }
        }
        assert forall|x: SpanView| swapped.contains(x) implies both.contains(x) by {
            let i = choose|i: int| 0 <= i < swapped.len() && swapped[i] == x;
            if i < second.len() {
                assert(both[first.len() + i] == x);
            } else {
                assert(both[i - second.len()] == x);
            }
        }
    }
    assert forall|k: int| 0 <= k < swapped.len() implies both.contains(#[trigger] swapped[k]) by {
        assert(swapped.contains(swapped[k]));
    }
    lemma_unique_within(both, swapped);
    lemma_after_two_batches(first, second);
    lemma_after_two_batches(second, first);
    let plain = all_unplaced(both);
    let other_plain = all_unplaced(swapped);
    assert(same_spans(plain, other_plain)) by {
        assert forall|x: SpanView| plain.contains(x) implies other_plain.contains(x) by {
            let i = choose|i: int| 0 <= i < plain.len() && plain[i] == x;
            assert(both.contains(both[i]));
            let j = choose|j: int| 0 <= j < swapped.len() && swapped[j] == both[i];
            assert(other_plain[j] == x);
        }
        assert forall|x: SpanView| other_plain.contains(x) implies plain.contains(x) by {
            let i = choose|i: int| 0 <= i < other_plain.len() && other_plain[i] == x;
            assert(swapped.contains(swapped[i]));
            let j = choose|j: int| 0 <= j < both.len() && both[j] == swapped[i];
            assert(plain[j] == x);
        }
    }
    lemma_traces_any_order(plain, other_plain);
    let one = ingested(ingested(Seq::empty(), first), second);
    let two = ingested(ingested(Seq::empty(), second), first);
    lemma_same_traces_chain(one, traces_of(plain), traces_of(other_plain));
    lemma_same_traces_chain(two, traces_of(other_plain), traces_of(plain));
    lemma_same_traces_chain(one, traces_of(other_plain), two);
    lemma_same_traces_same_ids(one, two);
}

} // verus!
