//! The store of the traces that are currently known.

use crate::span::{span_views, Span, SpanView};
use crate::trace::{build_traces, trace_views, traces_of, Trace, TraceView};
use vstd::prelude::*;

verus! {

/// The traces that are currently known.
///
/// The store starts empty. A batch of ingested spans replaces its whole
/// content by the traces of every span it holds together with the batch; a
/// bulk load adds the traces of the loaded spans behind those it holds.
/// Nothing else changes it.
#[derive(Debug)]
pub struct TraceStore {
    traces: Vec<Trace>,
}

/// Every span of the traces, trace after trace.
pub open spec fn flattened(traces: Seq<TraceView>) -> Seq<SpanView>
    decreases traces.len(),
{
    if traces.len() == 0 {
        Seq::empty()
    } else {
        flattened(traces.drop_last()) + traces.last().spans
    }
}

/// What a store that holds `held` holds once it has taken in `batch`: the
/// traces of every span it held together with the batch.
pub open spec fn ingested(held: Seq<TraceView>, batch: Seq<SpanView>) -> Seq<TraceView> {
    traces_of(flattened(held) + batch)
}

impl View for TraceStore {
    type V = Seq<TraceView>;

    closed spec fn view(&self) -> Seq<TraceView> {
        trace_views(self.traces@)
    }
}

impl TraceStore {
    /// Every trace of the store has a span, which is its root.
    #[verifier::type_invariant]
    spec fn rooted(self) -> bool {
        forall|k: int|
            0 <= k < self.traces@.len() ==> (#[trigger] self.traces@[k]).spans@.len() >= 1
    }

    /// The empty store.
    pub fn new() -> (store: Self)
        ensures
            store@ == Seq::<TraceView>::empty(),
    {
        let store = TraceStore { traces: Vec::new() };
        assert(store@ =~= Seq::<TraceView>::empty());
        store
    }

    /// The traces that the store holds, in their order.
    pub fn traces(&self) -> (traces: &Vec<Trace>)
        ensures
            trace_views(traces@) == self@,
            forall|k: int| 0 <= k < traces@.len() ==> (#[trigger] traces@[k]).spans@.len() >= 1,
    {
        proof {
            use_type_invariant(self);
        }
        &self.traces
    }

    /// Every span that the store holds, trace after trace.
    pub fn spans(&self) -> (spans: Vec<Span>)
        ensures
            span_views(spans@) == flattened(self@),
    {
        let ghost views = trace_views(self.traces@);
        let mut spans: Vec<Span> = Vec::new();
        let mut i: usize = 0;
        while i < self.traces.len()
            invariant
                i <= self.traces.len(),
                views == trace_views(self.traces@),
                span_views(spans@) == flattened(views.take(i as int)),
            decreases self.traces.len() - i,
        {
            let trace = &self.traces[i];
            let ghost before = span_views(spans@);
            let mut j: usize = 0;
            while j < trace.spans.len()
                invariant
                    j <= trace.spans.len(),
                    span_views(spans@) == before + span_views(trace.spans@).take(j as int),
                decreases trace.spans.len() - j,
            {
                let span = trace.spans[j].clone();
                proof {
                    let listed = span_views(trace.spans@);
                    assert(listed[j as int] == span@);
                    assert(listed.take(j + 1) =~= listed.take(j as int).push(span@));
                    assert(span_views(spans@.push(span)) =~= span_views(spans@).push(span@));
                }
                spans.push(span);
                j += 1;
            }
            proof {
                assert(span_views(trace.spans@).take(j as int) == span_views(trace.spans@));
                assert(views.take(i + 1).drop_last() == views.take(i as int));
            }
            i += 1;
        }
        proof {
            assert(views.take(i as int) == views);
        }
        spans
    }

    /// Takes in a batch of spans: the store then holds the traces of every
    /// span it held together with the batch.
    pub fn ingest(&mut self, batch: Vec<Span>)
        ensures
            final(self)@ == ingested(old(self)@, span_views(batch@)),
    {
        let mut all_spans = self.spans();
        let mut batch = batch;
        let ghost held = span_views(all_spans@);
        let ghost added = span_views(batch@);
        all_spans.append(&mut batch);
        proof {
            assert(span_views(all_spans@) =~= held + added);
        }
        match build_traces(all_spans) {
            Ok(traces) => {
                self.traces = traces;
            },
            Err(_) => {},
        }
    }

    /// Adds the traces of a bulk of loaded spans behind those that the store
    /// holds.
    pub fn load(&mut self, spans: Vec<Span>)
        ensures
            final(self)@ == old(self)@ + traces_of(span_views(spans@)),
    {
        proof {
            use_type_invariant(&*self);
        }
        match build_traces(spans) {
            Ok(traces) => {
                let mut traces = traces;
                let mut held: Vec<Trace> = Vec::new();
                std::mem::swap(&mut held, &mut self.traces);
                let ghost before = trace_views(held@);
                let ghost added = trace_views(traces@);
                held.append(&mut traces);
                proof {
                    assert(trace_views(held@) =~= before + added);
                }
                self.traces = held;
            },
            Err(_) => {},
        }
    }
}

impl Default for TraceStore {
    fn default() -> (store: Self)
        ensures
            store@ == Seq::<TraceView>::empty(),
    {
        TraceStore::new()
    }
}

} // verus!
