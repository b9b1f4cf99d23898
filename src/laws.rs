//! What holds of the module graph across calls: progress is never undone,
//! identities share one node, modules are analyzed after their imports,
//! import cycles are never analyzed, and the jobs of a round are independent.

use vstd::prelude::*;

use crate::graph::{
    advances, imports_edge, is_path, on_cycle, reaches, is_ready, knows, lemma_ready_ids, pending_uris, ready_ids, supplied,
    with_node, wf,
    GraphView, NodeView, Stage, Uri,
};

verus! {

/// Whether `u` is listed as pending is whether a pending node has identity `u`.
pub proof fn lemma_pending_contains(nodes: Seq<NodeView>, u: Seq<char>)
    ensures
        pending_uris(nodes).contains(u) <==> exists|x: int|
            0 <= x < nodes.len() && #[trigger] nodes[x].uri == u && nodes[x].stage == Stage::Pending,
    decreases nodes.len(),
{
    if nodes.len() > 0 {
        let init = nodes.drop_last();
        lemma_pending_contains(init, u);
        let last = nodes.len() - 1;
        if pending_uris(nodes).contains(u) {
            if nodes.last().stage == Stage::Pending && nodes.last().uri == u {
                assert(nodes[last].uri == u);
            } else {
                let w = choose|w: int| 0 <= w < pending_uris(nodes).len() && pending_uris(nodes)[w] == u;
                if nodes.last().stage == Stage::Pending {
                    assert(pending_uris(init)[w] == u);
                }
                assert(pending_uris(init).contains(u));
                let x = choose|x: int|
                    0 <= x < init.len() && #[trigger] init[x].uri == u && init[x].stage == Stage::Pending;
                assert(nodes[x] == init[x]);
            }
        }
        if exists|x: int| 0 <= x < nodes.len() && #[trigger] nodes[x].uri == u && nodes[x].stage == Stage::Pending {
            let x = choose|x: int|
                0 <= x < nodes.len() && #[trigger] nodes[x].uri == u && nodes[x].stage == Stage::Pending;
            if x == last {
                assert(pending_uris(nodes).last() == u);
            } else {
                assert(init[x] == nodes[x]);
                let w = choose|w: int| 0 <= w < pending_uris(init).len() && pending_uris(init)[w] == u;
                if nodes.last().stage == Stage::Pending {
                    assert(pending_uris(nodes)[w] == u);
                }
            }
        }
    }
}

/// Progress composes: a run of pushes advances the graph as each push does.
pub proof fn law_advances_compose(a: GraphView, b: GraphView, c: GraphView)
    requires
        advances(a, b),
        advances(b, c),
    ensures
        advances(a, c),
{
    assert forall|x: int| 0 <= x < a.nodes.len() implies #[trigger] c.nodes[x].uri == a.nodes[x].uri by {
        assert(b.nodes[x].uri == a.nodes[x].uri);
        assert(c.nodes[x].uri == b.nodes[x].uri);
    }
    assert forall|x: int|
        0 <= x < a.nodes.len() && a.nodes[x].stage != Stage::Pending implies #[trigger] c.nodes[x].stage
        != Stage::Pending by {
        assert(b.nodes[x].stage != Stage::Pending);
    }
}

/// Once an identity has left the pending list it does not come back, however
/// the graph advances afterwards.
pub proof fn law_pending_monotone(before: GraphView, after: GraphView, uri: Seq<char>)
    requires
        wf(before),
        wf(after),
        advances(before, after),
        knows(before, uri),
        !pending_uris(before.nodes).contains(uri),
    ensures
        !pending_uris(after.nodes).contains(uri),
{
    lemma_pending_contains(before.nodes, uri);
    lemma_pending_contains(after.nodes, uri);
    let x0 = choose|x: int| 0 <= x < before.nodes.len() && before.nodes[x].uri == uri;
    assert(before.nodes[x0].stage != Stage::Pending);
    assert(after.nodes[x0].uri == uri);
    if pending_uris(after.nodes).contains(uri) {
        let x = choose|x: int|
            0 <= x < after.nodes.len() && #[trigger] after.nodes[x].uri == uri && after.nodes[x].stage
                == Stage::Pending;
        assert(x == x0);
    }
}

/// Asking for the pending identities twice with no push in between gives the
/// same list.
pub proof fn law_pending_repeatable(v: GraphView, r1: Seq<Uri>, r2: Seq<Uri>)
    requires
        r1.map_values(|u: Uri| u@) == pending_uris(v.nodes),
        r2.map_values(|u: Uri| u@) == pending_uris(v.nodes),
    ensures
        r1.map_values(|u: Uri| u@) == r2.map_values(|u: Uri| u@),
{
}

/// There is one node per identity: modules that import the same module share
/// its node.
pub proof fn law_one_node_per_identity(v: GraphView, x: int, y: int)
    requires
        wf(v),
        0 <= x < v.nodes.len(),
        0 <= y < v.nodes.len(),
        v.nodes[x].uri == v.nodes[y].uri,
    ensures
        x == y,
{
}

/// A module that is already known gets no second node.
pub proof fn law_known_module_not_added(v: GraphView, uri: Seq<char>)
    requires
        knows(v, uri),
    ensures
        with_node(v, uri) == v,
{
}

/// An identity is listed at most once as pending, so its text is fetched once.
pub proof fn law_pending_no_repeats(v: GraphView)
    requires
        wf(v),
    ensures
        pending_uris(v.nodes).no_duplicates(),
    decreases v.nodes.len(),
{
    lemma_pending_unique(v.nodes);
}

proof fn lemma_pending_unique(nodes: Seq<NodeView>)
    requires
        forall|i: int, j: int|
            0 <= i < nodes.len() && 0 <= j < nodes.len() && i != j ==> #[trigger] nodes[i].uri
                != #[trigger] nodes[j].uri,
    ensures
        pending_uris(nodes).no_duplicates(),
    decreases nodes.len(),
{
    if nodes.len() > 0 {
        let init = nodes.drop_last();
        assert forall|i: int, j: int|
            0 <= i < init.len() && 0 <= j < init.len() && i != j implies #[trigger] init[i].uri
                != #[trigger] init[j].uri by {
            assert(init[i] == nodes[i] && init[j] == nodes[j]);
        }
        lemma_pending_unique(init);
        if nodes.last().stage == Stage::Pending {
            lemma_pending_contains(init, nodes.last().uri);
            if pending_uris(init).contains(nodes.last().uri) {
                let x = choose|x: int|
                    0 <= x < init.len() && #[trigger] init[x].uri == nodes.last().uri && init[x].stage
                        == Stage::Pending;
                assert(nodes[x] == init[x]);
                assert(nodes[x].uri != nodes[nodes.len() - 1].uri);
            }
            let p = pending_uris(nodes);
            assert forall|i: int, j: int| 0 <= i < p.len() && 0 <= j < p.len() && i != j implies p[i]
                != p[j] by {
                if j == p.len() - 1 {
                    assert(pending_uris(init)[i] == p[i]);
                } else if i == p.len() - 1 {
                    assert(pending_uris(init)[j] == p[j]);
                } else {
                    assert(pending_uris(init)[i] == p[i]);
                    assert(pending_uris(init)[j] == p[j]);
                }
            }
        }
    }
}

/// An analyzed module is not handed out for checking again: it leaves the
/// jobs only when its text, or that of a module it imports, is supplied anew.
pub proof fn law_analyzed_not_offered(v: GraphView, x: int)
    requires
        0 <= x < v.nodes.len(),
        v.nodes[x].stage == Stage::Analyzed,
    ensures
        !ready_ids(v, v.nodes.len() as int).contains(x),
{
    lemma_ready_ids(v, v.nodes.len() as int, x);
}

/// A module is analyzed only after every module it imports: their analysis
/// step comes first.
pub proof fn law_imports_analyzed_first(v: GraphView, a: int, b: int)
    requires
        wf(v),
        imports_edge(v, a, b),
        v.nodes[a].stage == Stage::Analyzed,
    ensures
        v.nodes[b].stage == Stage::Analyzed,
        v.nodes[b].rank < v.nodes[a].rank,
{
    let k = choose|k: int| 0 <= k < v.nodes[a].imports.len() && #[trigger] v.nodes[a].imports[k] == b;
    assert(v.nodes[v.nodes[a].imports[k]].stage == Stage::Analyzed);
}

/// Two jobs handed out together never import one another.
pub proof fn law_jobs_independent(v: GraphView, a: int, b: int)
    requires
        wf(v),
        is_ready(v, a),
        is_ready(v, b),
    ensures
        !imports_edge(v, a, b),
{
    if imports_edge(v, a, b) {
        let k = choose|k: int| 0 <= k < v.nodes[a].imports.len() && #[trigger] v.nodes[a].imports[k] == b;
        assert(v.nodes[v.nodes[a].imports[k]].stage == Stage::Analyzed);
    }
}

/// Two modules that import each other are never analyzed, nor handed out for
/// checking: draining the worklists leaves them parsed.
pub proof fn law_cycle_never_analyzed(v: GraphView, a: int, b: int)
    requires
        wf(v),
        imports_edge(v, a, b),
        imports_edge(v, b, a),
    ensures
        v.nodes[a].stage != Stage::Analyzed,
        v.nodes[b].stage != Stage::Analyzed,
        !is_ready(v, a),
        !is_ready(v, b),
{
    let ka = choose|k: int| 0 <= k < v.nodes[a].imports.len() && #[trigger] v.nodes[a].imports[k] == b;
    let kb = choose|k: int| 0 <= k < v.nodes[b].imports.len() && #[trigger] v.nodes[b].imports[k] == a;
    assert(v.nodes[a].stage == Stage::Analyzed ==> v.nodes[v.nodes[a].imports[ka]].stage
        == Stage::Analyzed);
    assert(v.nodes[b].stage == Stage::Analyzed ==> v.nodes[v.nodes[b].imports[kb]].stage
        == Stage::Analyzed);
    if is_ready(v, a) {
        assert(v.nodes[v.nodes[a].imports[ka]].stage == Stage::Analyzed);
    }
    if is_ready(v, b) {
        assert(v.nodes[v.nodes[b].imports[kb]].stage == Stage::Analyzed);
    }
}

/// The jobs of one round can be supplied in any order: supplying one leaves
/// every other job of the round ready, with the same imports, and either
/// order leaves the same stages and imports.
pub proof fn law_round_order_free(v: GraphView, a: int, b: int)
    requires
        wf(v),
        0 <= a < v.nodes.len(),
        0 <= b < v.nodes.len(),
        a != b,
        is_ready(v, a),
        is_ready(v, b),
    ensures
        is_ready(supplied(v, a), b),
        supplied(v, a).nodes[b].imports == v.nodes[b].imports,
        forall|x: int|
            0 <= x < v.nodes.len() ==> #[trigger] supplied(supplied(v, a), b).nodes[x].stage == supplied(
                supplied(v, b),
                a,
            ).nodes[x].stage && supplied(supplied(v, a), b).nodes[x].imports == supplied(
                supplied(v, b),
                a,
            ).nodes[x].imports,
{
    let w = supplied(v, a);
    assert forall|k: int| 0 <= k < w.nodes[b].imports.len() implies w.nodes[#[trigger] w.nodes[b].imports[k]].stage
        == Stage::Analyzed by {
        let d = v.nodes[b].imports[k];
        assert(v.nodes[d].stage == Stage::Analyzed);
        assert(d != a);
    }
}

/// Along imports from an analyzed module every module is analyzed, and
/// analyzed no later.
proof fn lemma_path_analyzed(v: GraphView, p: Seq<int>)
    requires
        wf(v),
        is_path(v, p),
        0 <= p[0] < v.nodes.len(),
        v.nodes[p[0]].stage == Stage::Analyzed,
    ensures
        0 <= p.last() < v.nodes.len(),
        v.nodes[p.last()].stage == Stage::Analyzed,
        v.nodes[p.last()].rank <= v.nodes[p[0]].rank,
    decreases p.len(),
{
    if p.len() > 1 {
        assert(imports_edge(v, p[0], p[1]));
        law_imports_analyzed_first(v, p[0], p[1]);
        let q = p.drop_first();
        assert forall|m: int| 0 <= m < q.len() - 1 implies imports_edge(v, #[trigger] q[m], q[m + 1]) by {
            assert(q[m] == p[m + 1] && q[m + 1] == p[m + 2]);
            assert(imports_edge(v, p[m + 1], p[m + 2]));
        }
        let k = choose|k: int| 0 <= k < v.nodes[p[0]].imports.len() && #[trigger] v.nodes[p[0]].imports[k] == p[1];
        lemma_path_analyzed(v, q);
    }
}

/// A module that imports itself, directly or through other modules, is
/// never analyzed: draining the worklists leaves it parsed.
pub proof fn law_on_cycle_never_analyzed(v: GraphView, i: int)
    requires
        wf(v),
        0 <= i < v.nodes.len(),
        on_cycle(v, i),
    ensures
        v.nodes[i].stage != Stage::Analyzed,
{
    if v.nodes[i].stage == Stage::Analyzed {
        let d = choose|d: int| imports_edge(v, i, d) && reaches(v, d, i);
        law_imports_analyzed_first(v, i, d);
        let p = choose|p: Seq<int>| #[trigger] is_path(v, p) && p[0] == d && p.last() == i;
        let k = choose|k: int| 0 <= k < v.nodes[i].imports.len() && #[trigger] v.nodes[i].imports[k] == d;
        lemma_path_analyzed(v, p);
    }
}

} // verus!
