//! Assembly of spans into traces.

use crate::span::{span_views, Span, SpanView};
use crate::text::same_text;
use crate::time::{elapsed_micros, Timestamp};
use crate::tree::{lemma_assembled_tree, lemma_stacked_children};
use vstd::prelude::*;

verus! {

/// The reconstructed tree of one trace: its spans in pre-order.
#[derive(Debug)]
pub struct Trace {
    /// The trace identifier of the root span.
    pub id: String,
    /// The root, then each child with its own descendants before its next
    /// sibling; siblings in ascending order of their start.
    pub spans: Vec<Span>,
}

/// A trace as a mathematical value.
pub struct TraceView {
    pub id: Seq<char>,
    pub spans: Seq<SpanView>,
}

impl View for Trace {
    type V = TraceView;

    open spec fn view(&self) -> TraceView {
        TraceView { id: self.id@, spans: span_views(self.spans@) }
    }
}

impl Clone for Trace {
    fn clone(&self) -> (r: Self)
        ensures
            r@ == self@,
    {
        let mut spans: Vec<Span> = Vec::new();
        let mut i: usize = 0;
        while i < self.spans.len()
            invariant
                i <= self.spans.len(),
                span_views(spans@) == span_views(self.spans@).take(i as int),
            decreases self.spans.len() - i,
        {
            let span = self.spans[i].clone();
            proof {
                let listed = span_views(self.spans@);
                assert(listed[i as int] == span@);
                assert(listed.take(i + 1) =~= listed.take(i as int).push(span@));
                assert(span_views(spans@.push(span)) =~= span_views(spans@).push(span@));
            }
            spans.push(span);
            i += 1;
        }
        proof {
            assert(span_views(self.spans@).take(i as int) == span_views(self.spans@));
        }
        Trace { id: self.id.clone(), spans }
    }
}

/// The traces of a sequence as mathematical values.
pub open spec fn trace_views(traces: Seq<Trace>) -> Seq<TraceView> {
    traces.map_values(|t: Trace| t@)
}

/// The spans, each with its offset from the root's start.
pub open spec fn relative_to(spans: Seq<SpanView>, root_start: Timestamp) -> Seq<SpanView> {
    spans.map_values(|s: SpanView| s.at_offset(elapsed_micros(s.start, root_start)))
}

/// Whether no span after position `i` has the identifier of the span at `i`.
pub open spec fn is_latest(spans: Seq<SpanView>, i: int) -> bool {
    forall|j: int| i < j < spans.len() ==> (#[trigger] spans[j]).id != spans[i].id
}

/// Of the first `n` spans those that are the last with their identifier, in
/// their order.
pub open spec fn latest(spans: Seq<SpanView>, n: nat) -> Seq<SpanView>
    decreases n,
{
    if n == 0 || n > spans.len() {
        Seq::empty()
    } else if is_latest(spans, n - 1) {
        latest(spans, (n - 1) as nat).push(spans[n - 1])
    } else {
        latest(spans, (n - 1) as nat)
    }
}

/// Whether `a` starts no later than `b`.
pub open spec fn starts_no_later(a: SpanView, b: SpanView) -> bool {
    a.start.instant() <= b.start.instant()
}

/// Whether the spans are in ascending order of their start.
pub open spec fn ascending(spans: Seq<SpanView>) -> bool {
    forall|a: int, b: int|
        0 <= a < b < spans.len() ==> starts_no_later(#[trigger] spans[a], #[trigger] spans[b])
}

/// `sorted` with `span` placed behind every span that starts no later.
pub open spec fn place(sorted: Seq<SpanView>, span: SpanView) -> Seq<SpanView>
    decreases sorted.len(),
{
    if sorted.len() == 0 || starts_no_later(sorted.last(), span) {
        sorted.push(span)
    } else {
        place(sorted.drop_last(), span).push(sorted.last())
    }
}

/// The spans of `pool` that name `parent` as their parent, in ascending
/// order of their start; spans with the same start in their order in `pool`.
pub open spec fn children(pool: Seq<SpanView>, parent: Seq<char>) -> Seq<SpanView>
    decreases pool.len(),
{
    if pool.len() == 0 {
        Seq::empty()
    } else if pool.last().is_child_of(parent) {
        place(children(pool.drop_last(), parent), pool.last())
    } else {
        children(pool.drop_last(), parent)
    }
}

/// The spans of `pool` that do not name `parent` as their parent, in their
/// order.
pub open spec fn others(pool: Seq<SpanView>, parent: Seq<char>) -> Seq<SpanView>
    decreases pool.len(),
{
    if pool.len() == 0 {
        Seq::empty()
    } else if pool.last().is_child_of(parent) {
        others(pool.drop_last(), parent)
    } else {
        others(pool.drop_last(), parent).push(pool.last())
    }
}

/// The spans, each at depth `level`.
pub open spec fn leveled(spans: Seq<SpanView>, level: nat) -> Seq<SpanView> {
    spans.map_values(|s: SpanView| s.at_level(level))
}

/// The pre-order walk from a stack of spans that are still to be visited,
/// the next one last, over a pool of spans that are not placed yet.
///
/// The next span is visited; its children leave the pool and are stacked
/// one level below it, the earliest on top, so that each is visited with
/// its own descendants before its next sibling.
pub open spec fn walk(stack: Seq<SpanView>, pool: Seq<SpanView>) -> Seq<SpanView>
    decreases stack.len() + pool.len(),
{
    if stack.len() == 0 {
        Seq::empty()
    } else {
        let top = stack.last();
        proof {
            lemma_split_len(pool, top.id);
        }
        seq![top] + walk(stack.drop_last() + stacked_children(pool, top), others(pool, top.id))
    }
}

/// The root as it stands in its trace: at depth 0 and offset 0.
pub open spec fn rooted(root: SpanView) -> SpanView {
    root.at_level(0).at_offset(0)
}

/// The spans of the trace of `root` among `descendants`.
///
/// Every descendant gets its offset from the root's start. Of several
/// descendants with one identifier the last counts. The trace is the
/// pre-order walk from the root: a descendant that the walk does not reach
/// is not part of it.
pub open spec fn assembled(root: SpanView, descendants: Seq<SpanView>) -> Seq<SpanView> {
    walk(seq![rooted(root)], latest(relative_to(descendants, root.start), descendants.len()))
}

/// Placing a span adds it and nothing else.
pub proof fn lemma_place(sorted: Seq<SpanView>, span: SpanView)
    ensures
        place(sorted, span).len() == sorted.len() + 1,
        place(sorted, span).contains(span),
        forall|k: int| 0 <= k < sorted.len() ==> place(sorted, span).contains(#[trigger] sorted[k]),
        forall|k: int|
            0 <= k < place(sorted, span).len() ==> (#[trigger] place(sorted, span)[k]) == span
                || sorted.contains(place(sorted, span)[k]),
        ascending(sorted) ==> ascending(place(sorted, span)),
    decreases sorted.len(),
{
    let placed = place(sorted, span);
    if sorted.len() == 0 || starts_no_later(sorted.last(), span) {
        assert(placed[sorted.len() as int] == span);
        assert forall|k: int| 0 <= k < sorted.len() implies placed.contains(
            #[trigger] sorted[k],
        ) by {
            assert(placed[k] == sorted[k]);
        }
        assert forall|k: int| 0 <= k < placed.len() implies (#[trigger] placed[k]) == span
            || sorted.contains(placed[k]) by {
            if k < sorted.len() {
                assert(sorted[k] == placed[k]);
            }
        }
        if ascending(sorted) {
            assert forall|a: int, b: int| 0 <= a < b < placed.len() implies starts_no_later(
                #[trigger] placed[a],
                #[trigger] placed[b],
            ) by {
                if b < sorted.len() {
                    assert(starts_no_later(sorted[a], sorted[b]));
                } else if a < sorted.len() - 1 {
                    assert(starts_no_later(sorted[a], sorted[sorted.len() - 1]));
                }
            }
        }
    } else {
        let front = sorted.drop_last();
        let inner = place(front, span);
        lemma_place(front, span);
        let at = choose|k: int| 0 <= k < inner.len() && inner[k] == span;
        assert(placed[at] == span);
        assert forall|k: int| 0 <= k < sorted.len() implies placed.contains(
            #[trigger] sorted[k],
        ) by {
            if k < front.len() {
                assert(front[k] == sorted[k]);
                let m = choose|m: int| 0 <= m < inner.len() && inner[m] == front[k];
                assert(placed[m] == sorted[k]);
            } else {
                assert(placed[inner.len() as int] == sorted[k]);
            }
        }
        assert forall|k: int| 0 <= k < placed.len() implies (#[trigger] placed[k]) == span
            || sorted.contains(placed[k]) by {
            if k < inner.len() {
                assert(placed[k] == inner[k]);
                if inner[k] != span {
                    let m = choose|m: int| 0 <= m < front.len() && front[m] == inner[k];
                    assert(sorted[m] == placed[k]);
                }
            } else {
                assert(sorted[sorted.len() - 1] == placed[k]);
            }
        }
        if ascending(sorted) {
            assert(ascending(front)) by {
                assert forall|a: int, b: int| 0 <= a < b < front.len() implies starts_no_later(
                    #[trigger] front[a],
                    #[trigger] front[b],
                ) by {
                    assert(starts_no_later(sorted[a], sorted[b]));
                }
            }
            assert forall|a: int, b: int| 0 <= a < b < placed.len() implies starts_no_later(
                #[trigger] placed[a],
                #[trigger] placed[b],
            ) by {
                if b < inner.len() {
                    assert(starts_no_later(inner[a], inner[b]));
                } else {
                    assert(placed[a] == inner[a]);
                    if inner[a] != span {
                        let m = choose|m: int| 0 <= m < front.len() && front[m] == inner[a];
                        assert(starts_no_later(sorted[m], sorted[sorted.len() - 1]));
                    }
                }
            }
        }
    }
}

/// The children of `parent` are spans of the pool that name it, in
/// ascending order of their start, and every such span is among them.
pub proof fn lemma_children(pool: Seq<SpanView>, parent: Seq<char>)
    ensures
        ascending(children(pool, parent)),
        forall|k: int|
            0 <= k < children(pool, parent).len() ==> pool.contains(
                #[trigger] children(pool, parent)[k],
            ) && children(pool, parent)[k].is_child_of(parent),
        forall|m: int|
            0 <= m < pool.len() && (#[trigger] pool[m]).is_child_of(parent) ==> children(
                pool,
                parent,
            ).contains(pool[m]),
    decreases pool.len(),
{
    let kids = children(pool, parent);
    if pool.len() > 0 {
        let front = pool.drop_last();
        let inner = children(front, parent);
        lemma_children(front, parent);
        lemma_place(inner, pool.last());
        assert forall|k: int| 0 <= k < kids.len() implies pool.contains(#[trigger] kids[k])
            && kids[k].is_child_of(parent) by {
            if pool.last().is_child_of(parent) && kids[k] == pool.last() {
                assert(pool[pool.len() - 1] == kids[k]);
            } else {
                let m = choose|m: int| 0 <= m < inner.len() && inner[m] == kids[k];
                let n = choose|n: int| 0 <= n < front.len() && front[n] == inner[m];
                assert(pool[n] == kids[k]);
            }
        }
        assert forall|m: int| 0 <= m < pool.len() && (#[trigger] pool[m]).is_child_of(
            parent,
        ) implies kids.contains(pool[m]) by {
            if m < front.len() {
                assert(front[m] == pool[m]);
                let k = choose|k: int| 0 <= k < inner.len() && inner[k] == front[m];
                if pool.last().is_child_of(parent) {
                    assert(kids.contains(inner[k]));
                }
            }
        }
    }
}

/// The others are the spans of the pool that do not name `parent`.
pub proof fn lemma_others(pool: Seq<SpanView>, parent: Seq<char>)
    ensures
        forall|k: int|
            0 <= k < others(pool, parent).len() ==> pool.contains(
                #[trigger] others(pool, parent)[k],
            ) && !others(pool, parent)[k].is_child_of(parent),
        forall|m: int|
            0 <= m < pool.len() && !(#[trigger] pool[m]).is_child_of(parent) ==> others(
                pool,
                parent,
            ).contains(pool[m]),
    decreases pool.len(),
{
    let rest = others(pool, parent);
    if pool.len() > 0 {
        let front = pool.drop_last();
        let inner = others(front, parent);
        lemma_others(front, parent);
        assert forall|k: int| 0 <= k < rest.len() implies pool.contains(#[trigger] rest[k])
            && !rest[k].is_child_of(parent) by {
            if k < inner.len() {
                assert(rest[k] == inner[k]);
                let n = choose|n: int| 0 <= n < front.len() && front[n] == inner[k];
                assert(pool[n] == rest[k]);
            } else {
                assert(pool[pool.len() - 1] == rest[k]);
            }
        }
        assert forall|m: int| 0 <= m < pool.len() && !(#[trigger] pool[m]).is_child_of(
            parent,
        ) implies rest.contains(pool[m]) by {
            if m < front.len() {
                assert(front[m] == pool[m]);
                let k = choose|k: int| 0 <= k < inner.len() && inner[k] == front[m];
                assert(rest[k] == pool[m]);
            } else {
                assert(rest[rest.len() - 1] == pool[m]);
            }
        }
    }
}

/// Every span of the pool is either a child of `parent` or one of the
/// others.
pub proof fn lemma_split_len(pool: Seq<SpanView>, parent: Seq<char>)
    ensures
        children(pool, parent).len() + others(pool, parent).len() == pool.len(),
    decreases pool.len(),
{
    if pool.len() > 0 {
        lemma_split_len(pool.drop_last(), parent);
        lemma_place(children(pool.drop_last(), parent), pool.last());
    }
}

/// What is stacked when `top` is visited: its children one level below it,
/// the earliest last.
pub open spec fn stacked_children(pool: Seq<SpanView>, top: SpanView) -> Seq<SpanView> {
    leveled(children(pool, top.id), top.level + 1).reverse()
}

/// The spans at the given positions.
pub open spec fn picked(views: Seq<SpanView>, positions: Seq<usize>) -> Seq<SpanView> {
    positions.map_values(|i: usize| views[i as int])
}

/// The spans at the given positions, each at the depth that goes with it.
pub open spec fn stacked(views: Seq<SpanView>, entries: Seq<(usize, usize)>) -> Seq<SpanView> {
    entries.map_values(|e: (usize, usize)| views[e.0 as int].at_level(e.1 as nat))
}

/// Whether every position lies below `n`.
pub open spec fn all_below(positions: Seq<usize>, n: nat) -> bool {
    forall|k: int| 0 <= k < positions.len() ==> (#[trigger] positions[k]) < n
}

/// A span that belongs behind the first `at` spans of a sorted sequence and
/// before the others is placed there.
proof fn lemma_place_at(sorted: Seq<SpanView>, span: SpanView, at: int)
    requires
        0 <= at <= sorted.len(),
        forall|t: int| at <= t < sorted.len() ==> !starts_no_later(#[trigger] sorted[t], span),
        at > 0 ==> starts_no_later(sorted[at - 1], span),
    ensures
        place(sorted, span) == sorted.insert(at, span),
    decreases sorted.len(),
{
    if at == sorted.len() {
        assert(sorted.push(span) =~= sorted.insert(at, span));
    } else {
        assert(!starts_no_later(sorted[sorted.len() - 1], span));
        let front = sorted.drop_last();
        assert forall|t: int| at <= t < front.len() implies !starts_no_later(
            #[trigger] front[t],
            span,
        ) by {
            assert(front[t] == sorted[t]);
        }
        lemma_place_at(front, span, at);
        assert(front.insert(at, span).push(sorted.last()) =~= sorted.insert(at, span));
    }
}

/// At most `n` spans count among the first `n`.
proof fn lemma_latest_len(spans: Seq<SpanView>, n: nat)
    ensures
        latest(spans, n).len() <= n,
    decreases n,
{
    if n > 0 && n <= spans.len() {
        lemma_latest_len(spans, (n - 1) as nat);
    }
}

/// Whether no descendant after position `i` has the identifier of the one at
/// `i`.
fn is_last_with_id(descendants: &Vec<Span>, i: usize, Ghost(root_start): Ghost<Timestamp>) -> (r:
    bool)
    requires
        i < descendants.len(),
    ensures
        r == is_latest(relative_to(span_views(descendants@), root_start), i as int),
{
    let ghost views = relative_to(span_views(descendants@), root_start);
    let mut j: usize = i + 1;
    while j < descendants.len()
        invariant
            i < j <= descendants.len(),
            views == relative_to(span_views(descendants@), root_start),
            forall|k: int| i < k < j ==> (#[trigger] views[k]).id != views[i as int].id,
        decreases descendants.len() - j,
    {
        if same_text(descendants[j].id.as_str(), descendants[i].id.as_str()) {
            assert(views[j as int].id == views[i as int].id);
            return false;
        }
        j += 1;
    }
    true
}

/// The positions of the descendants that are the last with their
/// identifier.
fn latest_positions(descendants: &Vec<Span>, Ghost(root_start): Ghost<Timestamp>) -> (positions:
    Vec<usize>)
    ensures
        all_below(positions@, descendants@.len()),
        positions@.len() <= descendants@.len(),
        picked(relative_to(span_views(descendants@), root_start), positions@) == latest(
            relative_to(span_views(descendants@), root_start),
            descendants@.len(),
        ),
{
    let ghost views = relative_to(span_views(descendants@), root_start);
    let mut positions: Vec<usize> = Vec::new();
    let mut i: usize = 0;
    while i < descendants.len()
        invariant
            i <= descendants.len(),
            views == relative_to(span_views(descendants@), root_start),
            all_below(positions@, descendants@.len()),
            picked(views, positions@) == latest(views, i as nat),
        decreases descendants.len() - i,
    {
        if is_last_with_id(descendants, i, Ghost(root_start)) {
            proof {
                assert(picked(views, positions@.push(i)) =~= picked(views, positions@).push(
                    views[i as int],
                ));
            }
            positions.push(i);
        }
        i += 1;
    }
    proof {
        lemma_latest_len(views, descendants@.len());
    }
    positions
}

/// Splits the pool into the children of `parent`, in ascending order of
/// their start, and the others.
fn split(
    descendants: &Vec<Span>,
    pool: &Vec<usize>,
    parent: &str,
    Ghost(root_start): Ghost<Timestamp>,
) -> (r: (Vec<usize>, Vec<usize>))
    requires
        all_below(pool@, descendants@.len()),
    ensures
        all_below(r.0@, descendants@.len()),
        all_below(r.1@, descendants@.len()),
        r.0@.len() + r.1@.len() == pool@.len(),
        picked(relative_to(span_views(descendants@), root_start), r.0@) == children(
            picked(relative_to(span_views(descendants@), root_start), pool@),
            parent@,
        ),
        picked(relative_to(span_views(descendants@), root_start), r.1@) == others(
            picked(relative_to(span_views(descendants@), root_start), pool@),
            parent@,
        ),
{
    let ghost views = relative_to(span_views(descendants@), root_start);
    let ghost all = picked(views, pool@);
    let mut kids: Vec<usize> = Vec::new();
    let mut rest: Vec<usize> = Vec::new();
    let mut j: usize = 0;
    while j < pool.len()
        invariant
            j <= pool.len(),
            views == relative_to(span_views(descendants@), root_start),
            all == picked(views, pool@),
            all_below(pool@, descendants@.len()),
            all_below(kids@, descendants@.len()),
            all_below(rest@, descendants@.len()),
            kids@.len() + rest@.len() == j,
            picked(views, kids@) == children(all.take(j as int), parent@),
            picked(views, rest@) == others(all.take(j as int), parent@),
        decreases pool.len() - j,
    {
        let position = pool[j];
        let span = &descendants[position];
        proof {
            assert(all.take(j + 1).drop_last() == all.take(j as int));
            assert(all.take(j + 1).last() == views[position as int]);
        }
        let is_child = match &span.parent_id {
            Some(p) => same_text(p.as_str(), parent),
            None => false,
        };
        if is_child {
            let mut at: usize = kids.len();
            while at > 0 && descendants[kids[at - 1]].start.is_after(&span.start)
                invariant
                    at <= kids.len(),
                    position < descendants.len(),
                    span == &descendants[position as int],
                    views == relative_to(span_views(descendants@), root_start),
                    all_below(kids@, descendants@.len()),
                    forall|t: int|
                        at <= t < kids.len() ==> !starts_no_later(
                            #[trigger] picked(views, kids@)[t],
                            views[position as int],
                        ),
                decreases at,
            {
                at -= 1;
            }
            proof {
                lemma_place_at(picked(views, kids@), views[position as int], at as int);
                assert(picked(views, kids@.insert(at as int, position)) =~= picked(
                    views,
                    kids@,
                ).insert(at as int, views[position as int]));
            }
            kids.insert(at, position);
        } else {
            proof {
                assert(picked(views, rest@.push(position)) =~= picked(views, rest@).push(
                    views[position as int],
                ));
            }
            rest.push(position);
        }
        j += 1;
    }
    proof {
        assert(all.take(j as int) == all);
    }
    (kids, rest)
}

/// The descendant at position `i` as it stands in the trace at depth
/// `level`.
fn emit(descendants: &Vec<Span>, i: usize, level: usize, root_start: &Timestamp) -> (span: Span)
    requires
        i < descendants.len(),
    ensures
        span@ == relative_to(span_views(descendants@), *root_start)[i as int].at_level(
            level as nat,
        ),
{
    let mut span = descendants[i].clone();
    span.offset_micros = span.start.elapsed_since(root_start);
    span.level = level;
    span
}

/// Stacks the children one level below their parent, the earliest on top.
fn stack_children(stack: &mut Vec<(usize, usize)>, kids: &Vec<usize>, level: usize)
    ensures
        final(stack)@.len() == old(stack)@.len() + kids@.len(),
        forall|a: int| 0 <= a < old(stack)@.len() ==> final(stack)@[a] == old(stack)@[a],
        forall|b: int|
            old(stack)@.len() <= b < final(stack)@.len() ==> (#[trigger] final(stack)@[b]) == (
                kids@[kids@.len() - 1 - (b - old(stack)@.len())],
                level,
            ),
{
    let mut k: usize = kids.len();
    while k > 0
        invariant
            k <= kids.len(),
            stack@.len() == old(stack)@.len() + (kids@.len() - k),
            forall|a: int| 0 <= a < old(stack)@.len() ==> stack@[a] == old(stack)@[a],
            forall|b: int|
                old(stack)@.len() <= b < stack@.len() ==> (#[trigger] stack@[b]) == (
                    kids@[kids@.len() - 1 - (b - old(stack)@.len())],
                    level,
                ),
        decreases k,
    {
        k -= 1;
        stack.push((kids[k], level));
    }
}

impl Trace {
    /// Assembles the trace of `root` from the spans that may descend from it.
    #[must_use]
    pub fn new(root: Span, descendants: Vec<Span>) -> (trace: Self)
        ensures
            trace@.id == root@.trace_id,
            trace@.spans == assembled(root@, span_views(descendants@)),
            trace.spans@.len() >= 1,
            trace.spans@[0]@ == rooted(root@),
    {
        let n = descendants.len();
        let root_start = root.start;
        let ghost views = relative_to(span_views(descendants@), root_start);
        let ghost target = assembled(root@, span_views(descendants@));
        let positions = latest_positions(&descendants, Ghost(root_start));
        let (kids, rest) = split(&descendants, &positions, root.id.as_str(), Ghost(root_start));
        let mut pool = rest;
        let mut stack: Vec<(usize, usize)> = Vec::new();
        stack_children(&mut stack, &kids, 1);
        let id = root.trace_id.clone();
        let mut first = root;
        first.level = 0;
        first.offset_micros = 0;
        let mut spans: Vec<Span> = Vec::new();
        spans.push(first);
        proof {
            let top = rooted(root@);
            let all = picked(views, positions@);
            lemma_stacked_children(all, top);
            assert(first@ == top);
            assert(seq![top].last() == top);
            assert(stacked(views, stack@) =~= seq![top].drop_last() + stacked_children(all, top));
            assert(span_views(spans@) =~= seq![top]);
        }
        while stack.len() > 0
            invariant
                n == descendants@.len(),
                views == relative_to(span_views(descendants@), root_start),
                all_below(pool@, n as nat),
                forall|a: int|
                    0 <= a < stack@.len() ==> (#[trigger] stack@[a]).0 < n && stack@[a].1
                        + pool@.len() <= n,
                span_views(spans@) + walk(stacked(views, stack@), picked(views, pool@)) == target,
            decreases stack@.len() + pool@.len(),
        {
            let ghost before_stack = stacked(views, stack@);
            let ghost before_pool = picked(views, pool@);
            let ghost before_spans = span_views(spans@);
            let ghost below = stack@.drop_last();
            let (i, level) = stack.pop().unwrap();
            let span = emit(&descendants, i, level, &root_start);
            let (kids, rest) = split(
                &descendants,
                &pool,
                descendants[i].id.as_str(),
                Ghost(root_start),
            );
            if kids.len() > 0 {
                stack_children(&mut stack, &kids, level + 1);
            }
            pool = rest;
            proof {
                let top = before_stack.last();
                assert(top == span@);
                lemma_stacked_children(before_pool, top);
                assert(before_stack.drop_last() =~= stacked(views, below));
                assert(stacked(views, stack@) =~= before_stack.drop_last() + stacked_children(
                    before_pool,
                    top,
                ));
                assert(span_views(spans@.push(span)) =~= before_spans.push(span@));
                assert(before_spans.push(top) + walk(
                    stacked(views, stack@),
                    picked(views, pool@),
                ) =~= before_spans + walk(before_stack, before_pool));
            }
            spans.push(span);
        }
        proof {
            lemma_assembled_tree(root@, span_views(descendants@));
        }
        Trace { id, spans }
    }

    /// The positions at which spans with the identifier `id` stand, in
    /// ascending order.
    pub fn connections(&self, id: &str) -> (positions: Vec<usize>)
        ensures
            forall|k: int|
                0 <= k < positions@.len() ==> (#[trigger] positions@[k]) < self.spans@.len()
                    && self.spans@[positions@[k] as int].id@ == id@,
            forall|i: int|
                0 <= i < self.spans@.len() && (#[trigger] self.spans@[i]).id@ == id@
                    ==> positions@.contains(i as usize),
            forall|a: int, b: int|
                0 <= a < b < positions@.len() ==> (#[trigger] positions@[a]) < (
                #[trigger] positions@[b]),
    {
        let mut positions: Vec<usize> = Vec::new();
        let mut i: usize = 0;
        while i < self.spans.len()
            invariant
                i <= self.spans.len(),
                forall|k: int|
                    0 <= k < positions@.len() ==> (#[trigger] positions@[k]) < i
                        && self.spans@[positions@[k] as int].id@ == id@,
                forall|j: int|
                    0 <= j < i && (#[trigger] self.spans@[j]).id@ == id@ ==> positions@.contains(
                        j as usize,
                    ),
                forall|a: int, b: int|
                    0 <= a < b < positions@.len() ==> (#[trigger] positions@[a]) < (
                    #[trigger] positions@[b]),
            decreases self.spans.len() - i,
        {
            if same_text(self.spans[i].id.as_str(), id) {
                let ghost before = positions@;
                positions.push(i);
                proof {
                    assert forall|j: int|
                        0 <= j < i + 1 && (#[trigger] self.spans@[j]).id@
                            == id@ implies positions@.contains(j as usize) by {
                        if j < i {
                            let k = choose|k: int| 0 <= k < before.len() && before[k] == j as usize;
                            assert(positions@[k] == j as usize);
                        } else {
                            assert(positions@[before.len() as int] == i);
                        }
                    }
                }
            }
            i += 1;
        }
        positions
    }
}

/// The spans that may descend from a root of the trace `trace_id`: those of
/// that trace that have a parent, in their order.
pub open spec fn candidates(spans: Seq<SpanView>, trace_id: Seq<char>) -> Seq<SpanView>
    decreases spans.len(),
{
    if spans.len() == 0 {
        Seq::empty()
    } else if spans.last().parent_id is Some && spans.last().trace_id == trace_id {
        candidates(spans.drop_last(), trace_id).push(spans.last())
    } else {
        candidates(spans.drop_last(), trace_id)
    }
}

/// The trace of `root` among `spans`.
pub open spec fn trace_of(root: SpanView, spans: Seq<SpanView>) -> TraceView {
    TraceView { id: root.trace_id, spans: assembled(root, candidates(spans, root.trace_id)) }
}

/// The traces of the roots among the first `n` spans, in the order of the
/// roots.
pub open spec fn traces_among(spans: Seq<SpanView>, n: nat) -> Seq<TraceView>
    decreases n,
{
    if n == 0 || n > spans.len() {
        Seq::empty()
    } else if spans[n - 1].parent_id is None {
        traces_among(spans, (n - 1) as nat).push(trace_of(spans[n - 1], spans))
    } else {
        traces_among(spans, (n - 1) as nat)
    }
}

/// The traces of a collection of spans: one for each span without a parent,
/// in the order of these roots, assembled from the spans of its trace that
/// have a parent.
pub open spec fn traces_of(spans: Seq<SpanView>) -> Seq<TraceView> {
    traces_among(spans, spans.len())
}

/// The spans of the trace `trace_id` that have a parent.
fn collect_candidates(spans: &Vec<Span>, trace_id: &str) -> (found: Vec<Span>)
    ensures
        span_views(found@) == candidates(span_views(spans@), trace_id@),
{
    let ghost views = span_views(spans@);
    let mut found: Vec<Span> = Vec::new();
    let mut i: usize = 0;
    while i < spans.len()
        invariant
            i <= spans.len(),
            views == span_views(spans@),
            span_views(found@) == candidates(views.take(i as int), trace_id@),
        decreases spans.len() - i,
    {
        proof {
            assert(views.take(i + 1).drop_last() == views.take(i as int));
        }
        if spans[i].parent_id.is_some() && same_text(spans[i].trace_id.as_str(), trace_id) {
            let span = spans[i].clone();
            proof {
                assert(span_views(found@.push(span)) =~= span_views(found@).push(span@));
            }
            found.push(span);
        }
        i += 1;
    }
    proof {
        assert(views.take(i as int) == views);
    }
    found
}

/// Assembles a collection of spans into traces.
///
/// Every span without a parent is the root of a trace of its own, also one
/// without descendants. No input makes the assembly fail: a span that
/// cannot be placed is left out.
pub fn build_traces(spans: Vec<Span>) -> (r: Result<Vec<Trace>, String>)
    ensures
        r matches Ok(traces) && trace_views(traces@) == traces_of(span_views(spans@)),
        r matches Ok(traces) ==> forall|k: int|
            0 <= k < traces@.len() ==> (#[trigger] traces@[k]).spans@.len() >= 1,
{
    let ghost views = span_views(spans@);
    let mut traces: Vec<Trace> = Vec::new();
    let mut i: usize = 0;
    while i < spans.len()
        invariant
            i <= spans.len(),
            views == span_views(spans@),
            trace_views(traces@) == traces_among(views, i as nat),
            forall|k: int| 0 <= k < traces@.len() ==> (#[trigger] traces@[k]).spans@.len() >= 1,
        decreases spans.len() - i,
    {
        if spans[i].parent_id.is_none() {
            let root = spans[i].clone();
            let descendants = collect_candidates(&spans, root.trace_id.as_str());
            let trace = Trace::new(root, descendants);
            proof {
                assert(trace@ == trace_of(views[i as int], views));
                assert(trace_views(traces@.push(trace)) =~= trace_views(traces@).push(trace@));
            }
            traces.push(trace);
        }
        i += 1;
    }
    Ok(traces)
}

} // verus!
