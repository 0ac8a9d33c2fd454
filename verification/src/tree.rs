//! The shape of an assembled trace.

use crate::span::SpanView;
use crate::time::{elapsed_micros, Timestamp};
use crate::trace::{
    assembled, candidates, children, is_latest, latest, lemma_children, lemma_others,
    lemma_split_len, others, relative_to, rooted, stacked_children, starts_no_later, trace_of,
    traces_among, traces_of, walk,
};
use vstd::prelude::*;

verus! {

/// Whether two spans differ in nothing but their depth.
pub open spec fn same_but_level(a: SpanView, b: SpanView) -> bool {
    a.at_level(0) == b.at_level(0)
}

/// Whether no span of the pool names the same parent as a span of the stack.
pub open spec fn apart(stack: Seq<SpanView>, pool: Seq<SpanView>) -> bool {
    forall|a: int, m: int|
        0 <= a < stack.len() && 0 <= m < pool.len() ==> (#[trigger] pool[m]).parent_id != (
        #[trigger] stack[a]).parent_id
}

/// Whether, of two stacked spans with the same parent, the one that is
/// visited first starts no later.
pub open spec fn stacked_in_order(stack: Seq<SpanView>) -> bool {
    forall|a: int, b: int|
        0 <= a < b < stack.len() && (#[trigger] stack[a]).parent_id == (
        #[trigger] stack[b]).parent_id ==> starts_no_later(stack[b], stack[a])
}

/// Whether, of two spans with the same parent, the earlier in the sequence
/// starts no later.
pub open spec fn siblings_ascend(spans: Seq<SpanView>) -> bool {
    forall|i: int, j: int|
        0 <= i < j < spans.len() && (#[trigger] spans[i]).parent_id == (
        #[trigger] spans[j]).parent_id ==> starts_no_later(spans[i], spans[j])
}

/// Whether `span` is a span of the pool at some depth.
pub open spec fn taken_from(pool: Seq<SpanView>, span: SpanView) -> bool {
    exists|m: int| 0 <= m < pool.len() && same_but_level(#[trigger] pool[m], span)
}

/// Whether every span of `out` is one of the stack or one of the pool at
/// some depth.
pub open spec fn drawn_from(out: Seq<SpanView>, stack: Seq<SpanView>, pool: Seq<SpanView>) -> bool {
    forall|i: int|
        0 <= i < out.len() ==> stack.contains(#[trigger] out[i]) || taken_from(pool, out[i])
}

/// Whether `child` names `parent` as its parent and stands one level below it.
pub open spec fn links(parent: SpanView, child: SpanView) -> bool {
    child.parent_id == Some(parent.id) && child.level == parent.level + 1
}

/// Whether the parent of `span` is among `before`, one level above it.
pub open spec fn hangs_below(before: Seq<SpanView>, span: SpanView) -> bool {
    exists|j: int| 0 <= j < before.len() && links(#[trigger] before[j], span)
}

/// The stacked children of `top` are its children in the pool, one level
/// below it, from the latest to the earliest.
pub proof fn lemma_stacked_children(pool: Seq<SpanView>, top: SpanView)
    ensures
        stacked_children(pool, top).len() == children(pool, top.id).len(),
        forall|a: int|
            0 <= a < stacked_children(pool, top).len() ==> (#[trigger] stacked_children(
                pool,
                top,
            )[a]) == children(pool, top.id)[children(pool, top.id).len() - 1 - a].at_level(
                top.level + 1,
            ),
        forall|a: int|
            0 <= a < stacked_children(pool, top).len() ==> links(
                top,
                #[trigger] stacked_children(pool, top)[a],
            ) && taken_from(pool, stacked_children(pool, top)[a]),
        stacked_in_order(stacked_children(pool, top)),
{
    let kids = children(pool, top.id);
    let pushed = stacked_children(pool, top);
    lemma_children(pool, top.id);
    assert forall|a: int| 0 <= a < pushed.len() implies links(top, #[trigger] pushed[a])
        && taken_from(pool, pushed[a]) by {
        let kid = kids[kids.len() - 1 - a];
        assert(pool.contains(kid));
        let m = choose|m: int| 0 <= m < pool.len() && pool[m] == kid;
        assert(same_but_level(pool[m], pushed[a]));
    }
    assert forall|a: int, b: int|
        0 <= a < b < pushed.len() && (#[trigger] pushed[a]).parent_id == (
        #[trigger] pushed[b]).parent_id implies starts_no_later(pushed[b], pushed[a]) by {
        assert(starts_no_later(kids[kids.len() - 1 - b], kids[kids.len() - 1 - a]));
    }
}

/// In a walk, siblings stand in ascending order of their start, and every
/// span comes from the stack or the pool.
pub proof fn lemma_walk_siblings(stack: Seq<SpanView>, pool: Seq<SpanView>)
    requires
        stacked_in_order(stack),
        apart(stack, pool),
    ensures
        siblings_ascend(walk(stack, pool)),
        drawn_from(walk(stack, pool), stack, pool),
    decreases stack.len() + pool.len(),
{
    if stack.len() > 0 {
        let top = stack.last();
        let below = stack.drop_last();
        let pushed = stacked_children(pool, top);
        let rest = others(pool, top.id);
        let next = below + pushed;
        let tail = walk(next, rest);
        let out = walk(stack, pool);
        lemma_split_len(pool, top.id);
        lemma_others(pool, top.id);
        lemma_stacked_children(pool, top);
        assert(stacked_in_order(next)) by {
            assert forall|a: int, b: int|
                0 <= a < b < next.len() && (#[trigger] next[a]).parent_id == (
                #[trigger] next[b]).parent_id implies starts_no_later(next[b], next[a]) by {
                if b < below.len() {
                    assert(next[a] == stack[a] && next[b] == stack[b]);
                } else if a >= below.len() {
                    assert(next[a] == pushed[a - below.len()]);
                    assert(next[b] == pushed[b - below.len()]);
                } else {
                    assert(next[a] == stack[a]);
                    assert(next[b] == pushed[b - below.len()]);
                    assert(taken_from(pool, pushed[b - below.len()]));
                    let m = choose|m: int|
                        0 <= m < pool.len() && same_but_level(
                            #[trigger] pool[m],
                            pushed[b - below.len()],
                        );
                    assert(pool[m].parent_id != stack[a].parent_id);
                }
            }
        }
        assert(apart(next, rest)) by {
            assert forall|a: int, m: int| 0 <= a < next.len() && 0 <= m < rest.len() implies (
            #[trigger] rest[m]).parent_id != (#[trigger] next[a]).parent_id by {
                assert(pool.contains(rest[m]));
                let n = choose|n: int| 0 <= n < pool.len() && pool[n] == rest[m];
                if a < below.len() {
                    assert(next[a] == stack[a]);
                    assert(pool[n].parent_id != stack[a].parent_id);
                } else {
                    assert(next[a] == pushed[a - below.len()]);
                    assert(links(top, pushed[a - below.len()]));
                }
            }
        }
        lemma_walk_siblings(next, rest);
        assert(out == seq![top] + tail);
        assert forall|i: int| 0 <= i < out.len() implies stack.contains(#[trigger] out[i])
            || taken_from(pool, out[i]) by {
            if i == 0 {
                assert(stack[stack.len() - 1] == out[0]);
            } else {
                assert(out[i] == tail[i - 1]);
                if next.contains(tail[i - 1]) {
                    let a = choose|a: int| 0 <= a < next.len() && next[a] == tail[i - 1];
                    if a < below.len() {
                        assert(stack[a] == out[i]);
                    } else {
                        assert(next[a] == pushed[a - below.len()]);
                    }
                } else {
                    let m = choose|m: int|
                        0 <= m < rest.len() && same_but_level(#[trigger] rest[m], tail[i - 1]);
                    assert(pool.contains(rest[m]));
                    let n = choose|n: int| 0 <= n < pool.len() && pool[n] == rest[m];
                    assert(same_but_level(pool[n], out[i]));
                }
            }
        }
        assert forall|i: int, j: int|
            0 <= i < j < out.len() && (#[trigger] out[i]).parent_id == (
            #[trigger] out[j]).parent_id implies starts_no_later(out[i], out[j]) by {
            assert(out[j] == tail[j - 1]);
            if i > 0 {
                assert(out[i] == tail[i - 1]);
            } else {
                assert(out[0] == top);
                if next.contains(tail[j - 1]) {
                    let a = choose|a: int| 0 <= a < next.len() && next[a] == tail[j - 1];
                    if a < below.len() {
                        assert(next[a] == stack[a]);
                        assert(stack[stack.len() - 1] == top);
                    } else {
                        assert(next[a] == pushed[a - below.len()]);
                        assert(taken_from(pool, pushed[a - below.len()]));
                        let m = choose|m: int|
                            0 <= m < pool.len() && same_but_level(
                                #[trigger] pool[m],
                                pushed[a - below.len()],
                            );
                        assert(pool[m].parent_id != stack[stack.len() - 1].parent_id);
                    }
                } else {
                    let m = choose|m: int|
                        0 <= m < rest.len() && same_but_level(#[trigger] rest[m], tail[j - 1]);
                    assert(pool.contains(rest[m]));
                    let n = choose|n: int| 0 <= n < pool.len() && pool[n] == rest[m];
                    assert(pool[n].parent_id != stack[stack.len() - 1].parent_id);
                }
            }
        }
    }
}

/// In a walk, every span's parent stands before it, one level above it.
pub proof fn lemma_walk_parents(done: Seq<SpanView>, stack: Seq<SpanView>, pool: Seq<SpanView>)
    requires
        forall|a: int| 0 <= a < stack.len() ==> hangs_below(done, #[trigger] stack[a]),
    ensures
        forall|i: int|
            0 <= i < walk(stack, pool).len() ==> hangs_below(
                done + walk(stack, pool).take(i),
                #[trigger] walk(stack, pool)[i],
            ),
    decreases stack.len() + pool.len(),
{
    if stack.len() > 0 {
        let top = stack.last();
        let below = stack.drop_last();
        let pushed = stacked_children(pool, top);
        let rest = others(pool, top.id);
        let next = below + pushed;
        let tail = walk(next, rest);
        let out = walk(stack, pool);
        let seen = done.push(top);
        lemma_split_len(pool, top.id);
        lemma_stacked_children(pool, top);
        assert forall|a: int| 0 <= a < next.len() implies hangs_below(seen, #[trigger] next[a]) by {
            if a < below.len() {
                assert(next[a] == stack[a]);
                let j = choose|j: int| 0 <= j < done.len() && links(#[trigger] done[j], stack[a]);
                assert(links(seen[j], next[a]));
            } else {
                assert(next[a] == pushed[a - below.len()]);
                assert(links(seen[done.len() as int], next[a]));
            }
        }
        lemma_walk_parents(seen, next, rest);
        assert(out == seq![top] + tail);
        assert forall|i: int| 0 <= i < out.len() implies hangs_below(
            done + out.take(i),
            #[trigger] out[i],
        ) by {
            let before = done + out.take(i);
            if i == 0 {
                assert(out[0] == stack[stack.len() - 1]);
                let j = choose|j: int| 0 <= j < done.len() && links(#[trigger] done[j], out[0]);
                assert(links(before[j], out[0]));
            } else {
                assert(out[i] == tail[i - 1]);
                assert(before =~= seen + tail.take(i - 1));
            }
        }
    }
}

/// The spans that count are spans of the sequence, and every span that is
/// the last with its identifier counts.
pub proof fn lemma_latest(spans: Seq<SpanView>, n: nat)
    requires
        n <= spans.len(),
    ensures
        forall|k: int|
            0 <= k < latest(spans, n).len() ==> spans.contains(#[trigger] latest(spans, n)[k]),
        forall|i: int|
            0 <= i < n && is_latest(spans, i) ==> latest(spans, n).contains(#[trigger] spans[i]),
    decreases n,
{
    if n > 0 {
        lemma_latest(spans, (n - 1) as nat);
        let front = latest(spans, (n - 1) as nat);
        let all = latest(spans, n);
        assert forall|k: int| 0 <= k < all.len() implies spans.contains(#[trigger] all[k]) by {
            if k < front.len() {
                assert(all[k] == front[k]);
            } else {
                assert(spans[n - 1] == all[k]);
            }
        }
        assert forall|i: int| 0 <= i < n && is_latest(spans, i) implies all.contains(
            #[trigger] spans[i],
        ) by {
            if i < n - 1 {
                let k = choose|k: int| 0 <= k < front.len() && front[k] == spans[i];
                assert(all[k] == spans[i]);
            } else {
                assert(all[all.len() - 1] == spans[i]);
            }
        }
    }
}

/// Whether `span` is `descendant` with its offset from the root's start, at
/// some depth.
pub open spec fn places(span: SpanView, descendant: SpanView, root_start: Timestamp) -> bool {
    same_but_level(span, descendant.at_offset(elapsed_micros(descendant.start, root_start)))
}

/// The shape of an assembled trace.
///
/// The root comes first, at depth 0 and offset 0. Every other span is one
/// of the descendants with its offset from the root's start; its parent
/// stands before it, one level above it; and of two such spans with the
/// same parent the earlier starts no later.
pub proof fn lemma_assembled_tree(root: SpanView, descendants: Seq<SpanView>)
    ensures
        assembled(root, descendants).len() >= 1,
        assembled(root, descendants)[0] == rooted(root),
        forall|i: int|
            1 <= i < assembled(root, descendants).len() ==> hangs_below(
                assembled(root, descendants).take(i),
                #[trigger] assembled(root, descendants)[i],
            ),
        forall|i: int, j: int|
            1 <= i < j < assembled(root, descendants).len() && (#[trigger] assembled(
                root,
                descendants,
            )[i]).parent_id == (#[trigger] assembled(root, descendants)[j]).parent_id
                ==> starts_no_later(
                assembled(root, descendants)[i],
                assembled(root, descendants)[j],
            ),
        forall|i: int|
            1 <= i < assembled(root, descendants).len() ==> exists|m: int|
                0 <= m < descendants.len() && places(
                    #[trigger] assembled(root, descendants)[i],
                    #[trigger] descendants[m],
                    root.start,
                ),
{
    let top = rooted(root);
    let all = relative_to(descendants, root.start);
    let pool = latest(all, descendants.len());
    let out = assembled(root, descendants);
    let pushed = stacked_children(pool, top);
    let rest = others(pool, top.id);
    let first = seq![top];
    let next = first.drop_last() + pushed;
    let tail = walk(next, rest);
    lemma_split_len(pool, top.id);
    lemma_others(pool, top.id);
    lemma_stacked_children(pool, top);
    lemma_latest(all, descendants.len());
    assert(first.last() == top);
    assert(out == seq![top] + tail);
    assert(next =~= pushed);
    assert(apart(next, rest)) by {
        assert forall|a: int, m: int| 0 <= a < next.len() && 0 <= m < rest.len() implies (
        #[trigger] rest[m]).parent_id != (#[trigger] next[a]).parent_id by {
            assert(links(top, pushed[a]));
        }
    }
    lemma_walk_siblings(next, rest);
    assert forall|a: int| 0 <= a < next.len() implies hangs_below(first, #[trigger] next[a]) by {
        assert(links(first[0], pushed[a]));
    }
    lemma_walk_parents(first, next, rest);
    assert forall|i: int| 1 <= i < out.len() implies hangs_below(
        out.take(i),
        #[trigger] out[i],
    ) by {
        assert(out[i] == tail[i - 1]);
        assert(out.take(i) =~= first + tail.take(i - 1));
    }
    assert forall|i: int, j: int|
        1 <= i < j < out.len() && (#[trigger] out[i]).parent_id == (
        #[trigger] out[j]).parent_id implies starts_no_later(out[i], out[j]) by {
        assert(out[i] == tail[i - 1] && out[j] == tail[j - 1]);
    }
    assert forall|i: int| 1 <= i < out.len() implies exists|m: int|
        0 <= m < descendants.len() && places(
            #[trigger] out[i],
            #[trigger] descendants[m],
            root.start,
        ) by {
        assert(out[i] == tail[i - 1]);
        let from_pool = if next.contains(tail[i - 1]) {
            let a = choose|a: int| 0 <= a < next.len() && next[a] == tail[i - 1];
            assert(taken_from(pool, pushed[a]));
            choose|n: int| 0 <= n < pool.len() && same_but_level(#[trigger] pool[n], out[i])
        } else {
            let m = choose|m: int|
                0 <= m < rest.len() && same_but_level(#[trigger] rest[m], tail[i - 1]);
            assert(pool.contains(rest[m]));
            choose|n: int| 0 <= n < pool.len() && pool[n] == rest[m]
        };
        assert(same_but_level(pool[from_pool], out[i]));
        assert(all.contains(pool[from_pool]));
        let m = choose|m: int| 0 <= m < all.len() && all[m] == pool[from_pool];
        assert(places(out[i], descendants[m], root.start));
    }
}

/// A span whose parent is neither the root nor any of the descendants has
/// no place in the trace.
pub proof fn lemma_orphans_absent(root: SpanView, descendants: Seq<SpanView>, parent: Seq<char>)
    requires
        parent != root.id,
        forall|m: int| 0 <= m < descendants.len() ==> (#[trigger] descendants[m]).id != parent,
    ensures
        forall|i: int|
            1 <= i < assembled(root, descendants).len() ==> !(#[trigger] assembled(
                root,
                descendants,
            )[i]).is_child_of(parent),
{
    let out = assembled(root, descendants);
    lemma_assembled_tree(root, descendants);
    assert forall|i: int| 1 <= i < out.len() implies !(#[trigger] out[i]).is_child_of(parent) by {
        let before = out.take(i);
        assert(hangs_below(before, out[i]));
        let j = choose|j: int| 0 <= j < before.len() && links(#[trigger] before[j], out[i]);
        assert(before[j] == out[j]);
        if j >= 1 {
            let m = choose|m: int|
                0 <= m < descendants.len() && places(out[j], #[trigger] descendants[m], root.start);
            assert(out[j].id == descendants[m].id);
        }
    }
}

/// Whether a span of `out` is `span` at some depth.
pub open spec fn placed_in(out: Seq<SpanView>, span: SpanView) -> bool {
    exists|i: int| 0 <= i < out.len() && same_but_level(span, #[trigger] out[i])
}

/// Whether `span` names a span of `out` as its parent.
pub open spec fn parent_in(out: Seq<SpanView>, span: SpanView) -> bool {
    exists|j: int| 0 <= j < out.len() && span.parent_id == Some((#[trigger] out[j]).id)
}

/// A walk visits every span of its stack.
pub proof fn lemma_walk_visits_stack(stack: Seq<SpanView>, pool: Seq<SpanView>)
    ensures
        forall|a: int| 0 <= a < stack.len() ==> walk(stack, pool).contains(#[trigger] stack[a]),
    decreases stack.len() + pool.len(),
{
    if stack.len() > 0 {
        let top = stack.last();
        let below = stack.drop_last();
        let pushed = stacked_children(pool, top);
        let next = below + pushed;
        let rest = others(pool, top.id);
        let tail = walk(next, rest);
        let out = walk(stack, pool);
        lemma_split_len(pool, top.id);
        lemma_stacked_children(pool, top);
        lemma_walk_visits_stack(next, rest);
        assert(out == seq![top] + tail);
        assert forall|a: int| 0 <= a < stack.len() implies out.contains(#[trigger] stack[a]) by {
            if a == stack.len() - 1 {
                assert(out[0] == stack[a]);
            } else {
                assert(next[a] == stack[a]);
                assert(tail.contains(next[a]));
                let i = choose|i: int| 0 <= i < tail.len() && tail[i] == next[a];
                assert(out[i + 1] == stack[a]);
            }
        }
    }
}

/// A walk visits every span of its pool whose parent it visits.
pub proof fn lemma_walk_complete(stack: Seq<SpanView>, pool: Seq<SpanView>)
    ensures
        forall|m: int|
            0 <= m < pool.len() && parent_in(walk(stack, pool), #[trigger] pool[m]) ==> placed_in(
                walk(stack, pool),
                pool[m],
            ),
    decreases stack.len() + pool.len(),
{
    let out = walk(stack, pool);
    if stack.len() > 0 {
        let top = stack.last();
        let below = stack.drop_last();
        let kids = children(pool, top.id);
        let pushed = stacked_children(pool, top);
        let next = below + pushed;
        let rest = others(pool, top.id);
        let tail = walk(next, rest);
        lemma_split_len(pool, top.id);
        lemma_children(pool, top.id);
        lemma_others(pool, top.id);
        lemma_stacked_children(pool, top);
        lemma_walk_visits_stack(next, rest);
        lemma_walk_complete(next, rest);
        assert(out == seq![top] + tail);
        assert forall|m: int|
            0 <= m < pool.len() && parent_in(out, #[trigger] pool[m]) implies placed_in(
            out,
            pool[m],
        ) by {
            if pool[m].is_child_of(top.id) {
                assert(kids.contains(pool[m]));
                let k = choose|k: int| 0 <= k < kids.len() && kids[k] == pool[m];
                let a = kids.len() - 1 - k;
                assert(pushed[a] == kids[k].at_level(top.level + 1));
                assert(next[below.len() + a] == pushed[a]);
                assert(tail.contains(next[below.len() + a]));
                let i = choose|i: int| 0 <= i < tail.len() && tail[i] == pushed[a];
                assert(same_but_level(pool[m], out[i + 1]));
            } else {
                assert(rest.contains(pool[m]));
                let n = choose|n: int| 0 <= n < rest.len() && rest[n] == pool[m];
                let j = choose|j: int|
                    0 <= j < out.len() && pool[m].parent_id == Some((#[trigger] out[j]).id);
                assert(j > 0);
                assert(out[j] == tail[j - 1]);
                assert(parent_in(tail, rest[n]));
                assert(placed_in(tail, rest[n]));
                let i = choose|i: int|
                    0 <= i < tail.len() && same_but_level(rest[n], #[trigger] tail[i]);
                assert(same_but_level(pool[m], out[i + 1]));
            }
        }
    }
}

/// Whether a span of `out` is `descendant` with its offset from the root's
/// start, at some depth.
pub open spec fn has_place(
    out: Seq<SpanView>,
    descendant: SpanView,
    root_start: Timestamp,
) -> bool {
    exists|i: int| 0 <= i < out.len() && places(#[trigger] out[i], descendant, root_start)
}

/// A trace holds every descendant whose parent it holds.
///
/// Where a span of the trace has the identifier that a descendant names as
/// its parent, and no later descendant has the identifier of this one, the
/// descendant stands in the trace.
pub proof fn lemma_assembled_complete(root: SpanView, descendants: Seq<SpanView>)
    ensures
        forall|m: int|
            0 <= m < descendants.len() && is_latest(descendants, m) && parent_in(
                assembled(root, descendants),
                #[trigger] descendants[m],
            ) ==> has_place(assembled(root, descendants), descendants[m], root.start),
{
    let all = relative_to(descendants, root.start);
    let pool = latest(all, descendants.len());
    let out = assembled(root, descendants);
    lemma_latest(all, descendants.len());
    lemma_walk_complete(seq![rooted(root)], pool);
    assert forall|m: int|
        0 <= m < descendants.len() && is_latest(descendants, m) && parent_in(
            out,
            #[trigger] descendants[m],
        ) implies has_place(out, descendants[m], root.start) by {
        assert(is_latest(all, m)) by {
            assert forall|j: int| m < j < all.len() implies (#[trigger] all[j]).id != all[m].id by {
                assert(descendants[j].id != descendants[m].id);
            }
        }
        assert(pool.contains(all[m]));
        let k = choose|k: int| 0 <= k < pool.len() && pool[k] == all[m];
        let j = choose|j: int|
            0 <= j < out.len() && descendants[m].parent_id == Some((#[trigger] out[j]).id);
        assert(pool[k].parent_id == Some(out[j].id));
        assert(parent_in(out, pool[k]));
        assert(placed_in(out, pool[k]));
        let i = choose|i: int| 0 <= i < out.len() && same_but_level(pool[k], #[trigger] out[i]);
        assert(places(out[i], descendants[m], root.start));
    }
}

/// The candidates of a trace are the spans of that trace that have a parent.
pub proof fn lemma_candidates(spans: Seq<SpanView>, trace_id: Seq<char>)
    ensures
        forall|k: int|
            0 <= k < candidates(spans, trace_id).len() ==> spans.contains(
                #[trigger] candidates(spans, trace_id)[k],
            ) && candidates(spans, trace_id)[k].parent_id is Some && candidates(
                spans,
                trace_id,
            )[k].trace_id == trace_id,
        forall|m: int|
            0 <= m < spans.len() && (#[trigger] spans[m]).parent_id is Some && spans[m].trace_id
                == trace_id ==> candidates(spans, trace_id).contains(spans[m]),
    decreases spans.len(),
{
    let found = candidates(spans, trace_id);
    if spans.len() > 0 {
        let front = spans.drop_last();
        let inner = candidates(front, trace_id);
        lemma_candidates(front, trace_id);
        assert forall|k: int| 0 <= k < found.len() implies spans.contains(#[trigger] found[k])
            && found[k].parent_id is Some && found[k].trace_id == trace_id by {
            if k < inner.len() {
                assert(found[k] == inner[k]);
                let m = choose|m: int| 0 <= m < front.len() && front[m] == inner[k];
                assert(spans[m] == found[k]);
            } else {
                assert(spans[spans.len() - 1] == found[k]);
            }
        }
        assert forall|m: int|
            0 <= m < spans.len() && (#[trigger] spans[m]).parent_id is Some && spans[m].trace_id
                == trace_id implies found.contains(spans[m]) by {
            if m < front.len() {
                assert(front[m] == spans[m]);
                let k = choose|k: int| 0 <= k < inner.len() && inner[k] == front[m];
                assert(found[k] == spans[m]);
            } else {
                assert(found[found.len() - 1] == spans[m]);
            }
        }
    }
}

/// The traces of a collection are the traces of its roots.
pub proof fn lemma_traces_among(spans: Seq<SpanView>, n: nat)
    requires
        n <= spans.len(),
    ensures
        forall|k: int|
            0 <= k < traces_among(spans, n).len() ==> exists|m: int|
                0 <= m < n && (#[trigger] spans[m]).parent_id is None && (#[trigger] traces_among(
                    spans,
                    n,
                )[k]) == trace_of(spans[m], spans),
        forall|m: int|
            0 <= m < n && (#[trigger] spans[m]).parent_id is None ==> traces_among(
                spans,
                n,
            ).contains(trace_of(spans[m], spans)),
    decreases n,
{
    if n > 0 {
        let front = traces_among(spans, (n - 1) as nat);
        let all = traces_among(spans, n);
        lemma_traces_among(spans, (n - 1) as nat);
        assert forall|k: int| 0 <= k < all.len() implies exists|m: int|
            0 <= m < n && (#[trigger] spans[m]).parent_id is None && (#[trigger] all[k])
                == trace_of(spans[m], spans) by {
            if k < front.len() {
                assert(all[k] == front[k]);
                let m = choose|m: int|
                    0 <= m < n - 1 && (#[trigger] spans[m]).parent_id is None && front[k]
                        == trace_of(spans[m], spans);
                assert(0 <= m < n && spans[m].parent_id is None && all[k] == trace_of(
                    spans[m],
                    spans,
                ));
            } else {
                assert(spans[n - 1].parent_id is None && all[k] == trace_of(spans[n - 1], spans));
            }
        }
        assert forall|m: int|
            0 <= m < n && (#[trigger] spans[m]).parent_id is None implies all.contains(
            trace_of(spans[m], spans),
        ) by {
            if m < n - 1 {
                let k = choose|k: int|
                    0 <= k < front.len() && front[k] == trace_of(spans[m], spans);
                assert(all[k] == trace_of(spans[m], spans));
            } else {
                assert(all[all.len() - 1] == trace_of(spans[m], spans));
            }
        }
    }
}

/// Every trace of a collection begins with its root.
///
/// The first span of a trace is a span of the collection that has no
/// parent, at depth 0 and offset 0, and the trace has the trace identifier
/// of this root.
pub proof fn lemma_traces_rooted(spans: Seq<SpanView>)
    ensures
        forall|k: int|
            0 <= k < traces_of(spans).len() ==> {
                let trace = #[trigger] traces_of(spans)[k];
                &&& trace.spans.len() >= 1
                &&& trace.spans[0].parent_id is None
                &&& trace.spans[0].level == 0
                &&& trace.spans[0].offset_micros == 0
                &&& trace.spans[0].trace_id == trace.id
                &&& exists|m: int|
                    0 <= m < spans.len() && trace.spans[0] == rooted(#[trigger] spans[m])
            },
{
    let traces = traces_of(spans);
    lemma_traces_among(spans, spans.len());
    assert forall|k: int| 0 <= k < traces.len() implies {
        let trace = #[trigger] traces[k];
        &&& trace.spans.len() >= 1
        &&& trace.spans[0].parent_id is None
        &&& trace.spans[0].level == 0
        &&& trace.spans[0].offset_micros == 0
        &&& trace.spans[0].trace_id == trace.id
        &&& exists|m: int| 0 <= m < spans.len() && trace.spans[0] == rooted(#[trigger] spans[m])
    } by {
        let m = choose|m: int|
            0 <= m < spans.len() && (#[trigger] spans[m]).parent_id is None && traces[k]
                == trace_of(spans[m], spans);
        lemma_assembled_tree(spans[m], candidates(spans, spans[m].trace_id));
        assert(traces[k].spans[0] == rooted(spans[m]));
    }
}

} // verus!
