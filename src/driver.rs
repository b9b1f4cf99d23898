//! What a driver of the graph does next: fetch texts, type check, or stop.

use vstd::prelude::*;

use crate::graph::{is_ready, job_view, pending_uris, ready_ids, Analysis, Graph, Uri};

verus! {

/// The next thing to do to bring a graph to its fixpoint.
pub enum Step<S> {
    /// Fetch the text of these modules and supply it with `set_text`.
    Fetch(Vec<Uri>),
    /// Type check these jobs, in any order, and supply each result.
    Check(Vec<Analysis<S>>),
    /// Both worklists are empty: the graph is at its fixpoint.
    Done,
}

/// Decides the next step: fetching comes first, since new texts may name new
/// modules; type checking comes once no text is missing.
pub fn next_step<S, E>(graph: &Graph<S, E>) -> (r: Step<S>)
    requires
        graph.inv(),
    ensures
        pending_uris(graph@.nodes).len() > 0 ==> (r matches Step::Fetch(uris) && uris@.map_values(
            |u: Uri| u@,
        ) == pending_uris(graph@.nodes)),
        pending_uris(graph@.nodes).len() == 0 && ready_ids(graph@, graph@.nodes.len() as int).len()
            > 0 ==> (r matches Step::Check(jobs) && jobs@.len() == ready_ids(
            graph@,
            graph@.nodes.len() as int,
        ).len() && forall|k: int|
            0 <= k < jobs@.len() ==> graph.job_for(
                ready_ids(graph@, graph@.nodes.len() as int)[k],
                #[trigger] jobs@[k],
            ) && job_view(graph@, ready_ids(graph@, graph@.nodes.len() as int)[k], jobs@[k])
                && is_ready(graph@, ready_ids(graph@, graph@.nodes.len() as int)[k])),
        r is Done <==> pending_uris(graph@.nodes).len() == 0 && ready_ids(
            graph@,
            graph@.nodes.len() as int,
        ).len() == 0,
{
    let pending = graph.pending();
    if pending.len() > 0 {
        return Step::Fetch(pending);
    }
    let jobs = graph.analysis();
    if jobs.len() > 0 {
        Step::Check(jobs)
    } else {
        Step::Done
    }
}

} // verus!
