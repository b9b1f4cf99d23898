//! The module graph: one node per module identity, each moving through the
//! stages fetch, lex, parse and type check, with worklists of the fetching and
//! type checking still to do.

use std::sync::Arc;

use vstd::prelude::*;

use vstd::string::StringSliceAdditionalSpecFns;
use vstd::utf8::{decode_utf8, encode_utf8};

use crate::lex::{lemma_ident_ascii, lex, lex_result, tokenizes, LexError, Token, TokenKind, Tokens, SOURCE_LIMIT};
use crate::parse::{error_within, grammar, parse, tree_ok, uses_are_names, ParseError, Tree, Use, SR};
use crate::resolve::{ascii_slice, resolve_import, resolved};

verus! {

/// A module identity: the normalized location of a module's source.
pub type Uri = String;

/// How far a node has come in its pipeline.
#[derive(Clone, Copy, Debug, PartialEq, Eq, Structural)]
pub enum Stage {
    Pending,
    Read,
    Lexed,
    Parsed,
    Analyzed,
    Missing,
}

/// The text, tokens and tree of one version of a module.
#[derive(Debug)]
pub struct Syntax {
    pub src: String,
    pub toks: Tokens,
    pub tree: Tree,
}

/// What a node holds at each stage. `S` is a checked module and `E` a type error.
#[allow(inconsistent_fields)]
#[derive(Debug)]
pub enum Data<S, E> {
    Pending,
    Read { src: String, err: LexError },
    Lexed { src: String, toks: Tokens, err: ParseError },
    Parsed { syn: Arc<Syntax> },
    Analyzed { syn: Arc<Syntax>, sem: Arc<S>, errs: Vec<E> },
    Missing { err: String },
}

impl<S, E> Node<S, E> {
    pub open spec fn spec_data(&self) -> Data<S, E> {
        self.data
    }

    /// How far the node has come.
    pub fn stage(&self) -> (r: Stage)
        ensures
            r == self.spec_data().spec_stage(),
    {
        self.data.stage()
    }
}

impl<S, E> Data<S, E> {
    pub open spec fn spec_stage(&self) -> Stage {
        match self {
            Data::Pending => Stage::Pending,
            Data::Read { .. } => Stage::Read,
            Data::Lexed { .. } => Stage::Lexed,
            Data::Parsed { .. } => Stage::Parsed,
            Data::Analyzed { .. } => Stage::Analyzed,
            Data::Missing { .. } => Stage::Missing,
        }
    }

    #[verifier::when_used_as_spec(spec_stage)]
    pub fn stage(&self) -> (r: Stage)
        ensures
            r == self.spec_stage(),
    {
        match self {
            Data::Pending => Stage::Pending,
            Data::Read { .. } => Stage::Read,
            Data::Lexed { .. } => Stage::Lexed,
            Data::Parsed { .. } => Stage::Parsed,
            Data::Analyzed { .. } => Stage::Analyzed,
            Data::Missing { .. } => Stage::Missing,
        }
    }
}

/// One module of the graph.
pub struct Node<S, E> {
    pub data: Data<S, E>,
    pub imports: Vec<usize>,
    pub rank: Ghost<nat>,
}

/// A node as the contracts see it: identity, stage, the nodes it imports
/// (by position), and for an analyzed node the step at which it was analyzed.
pub struct NodeView {
    pub uri: Seq<char>,
    pub stage: Stage,
    pub imports: Seq<int>,
    pub rank: nat,
}

/// The graph as the contracts see it.
pub struct GraphView {
    pub stdlib: Seq<char>,
    pub nodes: Seq<NodeView>,
    pub clock: nat,
}

pub open spec fn has_syntax(s: Stage) -> bool {
    s == Stage::Parsed || s == Stage::Analyzed
}

/// The invariants of the graph: one node per identity; imports point at
/// nodes; an analyzed node imports only analyzed nodes, analyzed before it.
pub open spec fn wf(v: GraphView) -> bool {
    &&& forall|i: int, j: int|
        0 <= i < v.nodes.len() && 0 <= j < v.nodes.len() && i != j ==> #[trigger] v.nodes[i].uri
            != #[trigger] v.nodes[j].uri
    &&& forall|i: int, k: int|
        0 <= i < v.nodes.len() && 0 <= k < v.nodes[i].imports.len() ==> 0
            <= #[trigger] v.nodes[i].imports[k] < v.nodes.len()
    &&& forall|i: int|
        0 <= i < v.nodes.len() && !has_syntax(#[trigger] v.nodes[i].stage) ==> v.nodes[i].imports.len()
            == 0
    &&& forall|i: int, k: int|
        0 <= i < v.nodes.len() && 0 <= k < v.nodes[i].imports.len() && v.nodes[i].stage
            == Stage::Analyzed ==> v.nodes[#[trigger] v.nodes[i].imports[k]].stage == Stage::Analyzed
            && v.nodes[v.nodes[i].imports[k]].rank < v.nodes[i].rank
    &&& forall|i: int|
        0 <= i < v.nodes.len() && #[trigger] v.nodes[i].stage == Stage::Analyzed ==> v.nodes[i].rank
            < v.clock
}

pub open spec fn knows(v: GraphView, uri: Seq<char>) -> bool {
    exists|i: int| 0 <= i < v.nodes.len() && v.nodes[i].uri == uri
}

/// The identities of the pending nodes, in the order the nodes were created.
pub open spec fn pending_uris(nodes: Seq<NodeView>) -> Seq<Seq<char>>
    decreases nodes.len(),
{
    if nodes.len() == 0 {
        Seq::empty()
    } else if nodes.last().stage == Stage::Pending {
        pending_uris(nodes.drop_last()).push(nodes.last().uri)
    } else {
        pending_uris(nodes.drop_last())
    }
}

/// A node waiting for type checking: parsed, and every import analyzed.
pub open spec fn is_ready(v: GraphView, i: int) -> bool {
    &&& v.nodes[i].stage == Stage::Parsed
    &&& forall|k: int|
        0 <= k < v.nodes[i].imports.len() ==> v.nodes[#[trigger] v.nodes[i].imports[k]].stage
            == Stage::Analyzed
}

/// The positions of the ready nodes among the first `n`, in order.
pub open spec fn ready_ids(v: GraphView, n: int) -> Seq<int>
    decreases n,
{
    if n <= 0 {
        Seq::empty()
    } else if is_ready(v, n - 1) {
        ready_ids(v, n - 1).push(n - 1)
    } else {
        ready_ids(v, n - 1)
    }
}

/// The graph with a pending node for `uri` added, unless it has one.
pub open spec fn with_node(v: GraphView, uri: Seq<char>) -> GraphView {
    if knows(v, uri) {
        v
    } else {
        GraphView {
            nodes: v.nodes.push(NodeView { uri, stage: Stage::Pending, imports: Seq::empty(), rank: 0 }),
            ..v
        }
    }
}

/// `a` imports `b`.
pub open spec fn imports_edge(v: GraphView, a: int, b: int) -> bool {
    0 <= a < v.nodes.len() && exists|k: int|
        0 <= k < v.nodes[a].imports.len() && #[trigger] v.nodes[a].imports[k] == b
}

/// `p` follows imports from node to node.
pub open spec fn is_path(v: GraphView, p: Seq<int>) -> bool {
    &&& p.len() >= 1
    &&& forall|m: int| 0 <= m < p.len() - 1 ==> imports_edge(v, #[trigger] p[m], p[m + 1])
}

/// `a` imports `b`, directly or through other modules (or is `b`).
pub open spec fn reaches(v: GraphView, a: int, b: int) -> bool {
    exists|p: Seq<int>| #[trigger] is_path(v, p) && p[0] == a && p.last() == b
}

/// The positions of the analyzed nodes.
pub open spec fn analyzed_set(v: GraphView) -> Set<int> {
    Set::new(|x: int| 0 <= x < v.nodes.len() && v.nodes[x].stage == Stage::Analyzed)
}

/// `wf` without the demand on what analyzed nodes import.
pub open spec fn wf_shape(v: GraphView) -> bool {
    &&& forall|i: int, j: int|
        0 <= i < v.nodes.len() && 0 <= j < v.nodes.len() && i != j ==> #[trigger] v.nodes[i].uri
            != #[trigger] v.nodes[j].uri
    &&& forall|i: int, k: int|
        0 <= i < v.nodes.len() && 0 <= k < v.nodes[i].imports.len() ==> 0
            <= #[trigger] v.nodes[i].imports[k] < v.nodes.len()
    &&& forall|i: int|
        0 <= i < v.nodes.len() && !has_syntax(#[trigger] v.nodes[i].stage) ==> v.nodes[i].imports.len()
            == 0
    &&& forall|i: int|
        0 <= i < v.nodes.len() && #[trigger] v.nodes[i].stage == Stage::Analyzed ==> v.nodes[i].rank
            < v.clock
}

/// A path into `b` can be extended by a module that imports its start.
proof fn lemma_reaches_prepend(v: GraphView, a: int, d: int, b: int)
    requires
        imports_edge(v, a, d),
        reaches(v, d, b),
    ensures
        reaches(v, a, b),
{
    let p = choose|p: Seq<int>| #[trigger] is_path(v, p) && p[0] == d && p.last() == b;
    let q = seq![a] + p;
    assert forall|m: int| 0 <= m < q.len() - 1 implies imports_edge(v, #[trigger] q[m], q[m + 1]) by {
        if m > 0 {
            assert(q[m] == p[m - 1] && q[m + 1] == p[m]);
            assert(imports_edge(v, p[m - 1], p[m - 1 + 1]));
        } else {
            assert(q[1] == d);
        }
    }
    assert(is_path(v, q));
}

proof fn lemma_reaches_self(v: GraphView, a: int)
    ensures
        reaches(v, a, a),
{
    assert(is_path(v, seq![a]));
}

proof fn lemma_analyzed_finite(v: GraphView)
    ensures
        analyzed_set(v).finite(),
        analyzed_set(v).len() <= v.nodes.len(),
{
    vstd::set_lib::lemma_int_range(0, v.nodes.len() as int);
    vstd::set_lib::lemma_len_subset(analyzed_set(v), vstd::set_lib::set_int_range(0, v.nodes.len() as int));
}

/// Following the imports of `before` from an analyzed node of `after` never
/// leads to `b`, a node that `after` does not hold analyzed, when the two graphs
/// agree on the imports of every node but `b` and `after` is well formed.
proof fn lemma_analyzed_avoids(before: GraphView, after: GraphView, p: Seq<int>, b: int)
    requires
        is_path(before, p),
        p.last() == b,
        0 <= p[0] < after.nodes.len(),
        0 <= b < after.nodes.len(),
        after.nodes[b].stage != Stage::Analyzed,
        wf(after),
        before.nodes.len() <= after.nodes.len(),
        forall|x: int|
            0 <= x < before.nodes.len() && x != b ==> #[trigger] after.nodes[x].imports
                == before.nodes[x].imports,
    ensures
        after.nodes[p[0]].stage != Stage::Analyzed,
    decreases p.len(),
{
    if p.len() == 1 || p[0] == b || after.nodes[p[0]].stage != Stage::Analyzed {
    } else {
        assert(imports_edge(before, p[0], p[1]));
        let k = choose|k: int|
            0 <= k < before.nodes[p[0]].imports.len() && #[trigger] before.nodes[p[0]].imports[k]
                == p[1];
        assert(after.nodes[p[0]].imports == before.nodes[p[0]].imports);
        assert(after.nodes[after.nodes[p[0]].imports[k]].stage == Stage::Analyzed);
        let q = p.drop_first();
        assert forall|m: int| 0 <= m < q.len() - 1 implies imports_edge(before, #[trigger] q[m], q[m + 1]) by {
            assert(q[m] == p[m + 1] && q[m + 1] == p[m + 2]);
            assert(imports_edge(before, p[m + 1], p[m + 2]));
        }
        lemma_analyzed_avoids(before, after, q, b);
    }
}

/// A path into `b` in one graph is one in another that agrees on the imports
/// of every node but `b`.
proof fn lemma_path_transfer(from: GraphView, to: GraphView, p: Seq<int>, b: int)
    requires
        is_path(from, p),
        p.last() == b,
        forall|x: int|
            0 <= x < from.nodes.len() && x != b ==> #[trigger] from.nodes[x].imports.len() == 0 || (x
                < to.nodes.len() && to.nodes[x].imports == from.nodes[x].imports),
    ensures
        reaches(to, p[0], b),
    decreases p.len(),
{
    if p.len() == 1 || p[0] == b {
        lemma_reaches_self(to, b);
    } else {
        let q = p.drop_first();
        assert forall|m: int| 0 <= m < q.len() - 1 implies imports_edge(from, #[trigger] q[m], q[m + 1]) by {
            assert(q[m] == p[m + 1] && q[m + 1] == p[m + 2]);
            assert(imports_edge(from, p[m + 1], p[m + 2]));
        }
        lemma_path_transfer(from, to, q, b);
        assert(imports_edge(from, p[0], p[1]));
        let k = choose|k: int|
            0 <= k < from.nodes[p[0]].imports.len() && #[trigger] from.nodes[p[0]].imports[k]
                == p[1];
        assert(from.nodes[p[0]].imports.len() != 0);
        assert(to.nodes[p[0]].imports[k] == p[1]);
        assert(imports_edge(to, p[0], p[1]));
        lemma_reaches_prepend(to, p[0], p[1], b);
    }
}

/// The position of the node for `uri` (meaningful where the graph knows `uri`).
pub open spec fn node_of(v: GraphView, uri: Seq<char>) -> int {
    choose|i: int| 0 <= i < v.nodes.len() && v.nodes[i].uri == uri
}

/// The identity that the module import `u` of the module `from` denotes.
pub open spec fn use_target(
    stdlib: Seq<char>,
    from: Seq<char>,
    src: Seq<u8>,
    toks: Seq<Token>,
    u: Use,
) -> Seq<char> {
    let t = toks[u.name as int];
    resolved(stdlib, from, u.relative, decode_utf8(src.subrange(t.start as int, t.start + t.len)))
}

/// What supplying `text` leaves in a node: the lexer's error, the parser's
/// error, or the syntax.
pub open spec fn text_outcome<S, E>(d: Data<S, E>, text: Seq<char>) -> bool {
    match d {
        Data::Read { src, err } => src@ == text && lex_result(encode_utf8(text), Err(err)),
        Data::Lexed { src, toks, err } => src@ == text && lex_result(encode_utf8(text), Ok(toks))
            && error_within::<Tree>(Err(err), toks@) && (err matches ParseError::Expected {
            id,
            kinds,
        } && grammar(toks@).0 == SR::<()>::Err((id as int, kinds@))),
        Data::Parsed { syn } => syn.src@ == text && lex_result(encode_utf8(text), Ok(syn.toks))
            && tree_ok(syn.tree, syn.toks@) && grammar(syn.toks@).0 is Ok && syn.tree.tv()
            =~~= grammar(syn.toks@).1.t,
        _ => false,
    }
}

/// The node at `i` imports, in order, the identities its syntax names.
pub open spec fn imports_resolved(v: GraphView, i: int, syn: Arc<Syntax>) -> bool {
    &&& v.nodes[i].imports.len() == syn.tree.uses@.len()
    &&& forall|k: int|
        0 <= k < syn.tree.uses@.len() ==> #[trigger] v.nodes[v.nodes[i].imports[k]].uri == use_target(
            v.stdlib,
            v.nodes[i].uri,
            encode_utf8(syn.src@),
            syn.toks@,
            syn.tree.uses@[k],
        )
}

/// After new text for the node at `i`: the analyzed nodes of `fin` are those of
/// `before` that do not import `i`, directly or not.
proof fn lemma_reset_exactly(before: GraphView, mid: GraphView, fin: GraphView, i: int)
    requires
        wf(before),
        wf(fin),
        before.nodes.len() <= mid.nodes.len(),
        mid.nodes.len() == fin.nodes.len(),
        0 <= i < mid.nodes.len(),
        forall|y: int| 0 <= y < before.nodes.len() && y != i ==> #[trigger] mid.nodes[y] == before.nodes[y],
        forall|y: int|
            before.nodes.len() <= y < mid.nodes.len() && y != i ==> #[trigger] mid.nodes[y].imports.len()
                == 0,
        mid.nodes[i].stage != Stage::Analyzed,
        fin.nodes[i].stage == mid.nodes[i].stage,
        forall|y: int| 0 <= y < fin.nodes.len() ==> #[trigger] fin.nodes[y].imports == mid.nodes[y].imports,
        forall|y: int|
            0 <= y < fin.nodes.len() ==> #[trigger] fin.nodes[y].stage == mid.nodes[y].stage || (
            mid.nodes[y].stage == Stage::Analyzed && fin.nodes[y].stage == Stage::Parsed && reaches(
                mid,
                y,
                i,
            )),
    ensures
        forall|x: int|
            0 <= x < before.nodes.len() && x != i ==> (#[trigger] fin.nodes[x].stage == Stage::Analyzed
                <==> before.nodes[x].stage == Stage::Analyzed && !reaches(before, x, i)),
{
    assert forall|x: int|
        0 <= x < before.nodes.len() && x != i implies (#[trigger] fin.nodes[x].stage == Stage::Analyzed
        <==> before.nodes[x].stage == Stage::Analyzed && !reaches(before, x, i)) by {
        assert(mid.nodes[x] == before.nodes[x]);
        if fin.nodes[x].stage == Stage::Analyzed && reaches(before, x, i) {
            let p = choose|p: Seq<int>| #[trigger] is_path(before, p) && p[0] == x && p.last() == i;
            assert forall|y: int| 0 <= y < before.nodes.len() && y != i implies #[trigger] fin.nodes[y].imports
                == before.nodes[y].imports by {
                assert(mid.nodes[y] == before.nodes[y]);
            }
            lemma_analyzed_avoids(before, fin, p, i);
        }
        if before.nodes[x].stage == Stage::Analyzed && fin.nodes[x].stage != Stage::Analyzed {
            let p = choose|p: Seq<int>| #[trigger] is_path(mid, p) && p[0] == x && p.last() == i;
            assert forall|y: int| 0 <= y < mid.nodes.len() && y != i implies #[trigger] mid.nodes[y].imports.len()
                == 0 || (y < before.nodes.len() && before.nodes[y].imports == mid.nodes[y].imports) by {
                if y < before.nodes.len() {
                    assert(mid.nodes[y] == before.nodes[y]);
                }
            }
            lemma_path_transfer(mid, before, p, i);
        }
    }
}

/// The graph after the node at `i` received its checked module.
pub open spec fn supplied(v: GraphView, i: int) -> GraphView {
    GraphView {
        nodes: v.nodes.update(i, NodeView { stage: Stage::Analyzed, rank: v.clock, ..v.nodes[i] }),
        clock: v.clock + 1,
        ..v
    }
}

/// One push operation made progress from `before` to `after`: every node is
/// kept under its identity and no node went back to pending.
pub open spec fn advances(before: GraphView, after: GraphView) -> bool {
    &&& before.nodes.len() <= after.nodes.len()
    &&& after.stdlib == before.stdlib
    &&& forall|x: int| 0 <= x < before.nodes.len() ==> #[trigger] after.nodes[x].uri == before.nodes[x].uri
    &&& forall|x: int|
        0 <= x < before.nodes.len() && before.nodes[x].stage != Stage::Pending
            ==> #[trigger] after.nodes[x].stage != Stage::Pending
}

/// The imports of a module are not known: it is unknown, pending, or its text
/// did not lex or parse.
#[derive(Clone, Copy, Debug, PartialEq, Eq, Structural)]
pub struct Unresolved;

/// Two jobs for the same module, with the same syntax and the same imports.
pub open spec fn same_job<S>(j1: Analysis<S>, j2: Analysis<S>) -> bool {
    &&& j1.uri@ == j2.uri@
    &&& j1.syn == j2.syn
    &&& j1.deps@.len() == j2.deps@.len()
    &&& forall|m: int|
        0 <= m < j1.deps@.len() ==> #[trigger] j1.deps@[m].0@ == j2.deps@[m].0@ && j1.deps@[m].1
            == j2.deps@[m].1
}

/// What the view shows of the job for the node at `i`: its module, and the
/// modules it imports, in the order of the imports.
pub open spec fn job_view<S>(v: GraphView, i: int, job: Analysis<S>) -> bool {
    &&& job.uri@ == v.nodes[i].uri
    &&& job.deps@.len() == v.nodes[i].imports.len()
    &&& forall|m: int|
        0 <= m < job.deps@.len() ==> #[trigger] job.deps@[m].0@ == v.nodes[v.nodes[i].imports[m]].uri
}

/// A unit of type checking: a module whose imports are all analyzed, with
/// the checked module of each import, in the order of the imports.
pub struct Analysis<S> {
    pub uri: Uri,
    pub syn: Arc<Syntax>,
    pub deps: Vec<(Uri, Arc<S>)>,
}

/// A parsed node's data with its checked module and type errors added.
pub open spec fn analyzed_from<S, E>(d: Data<S, E>, sem: Arc<S>, errs: Vec<E>) -> Data<S, E> {
    match d {
        Data::Parsed { syn } => Data::Analyzed { syn, sem, errs },
        _ => d,
    }
}

/// The token that names the module import `u` spans ASCII bytes of `bytes`.
pub open spec fn name_is_ascii(bytes: Seq<u8>, toks: Seq<Token>, u: Use) -> bool {
    let t = toks[u.name as int];
    &&& u.name < toks.len()
    &&& 0 < t.len
    &&& t.start + t.len <= bytes.len()
    &&& forall|x: int| t.start <= x < t.start + t.len ==> #[trigger] bytes[x] < 0x80
}

pub open spec fn names_are_ascii(bytes: Seq<u8>, toks: Seq<Token>, uses: Seq<Use>) -> bool {
    &&& bytes.len() <= SOURCE_LIMIT
    &&& forall|k: int| 0 <= k < uses.len() ==> #[trigger] name_is_ascii(bytes, toks, uses[k])
}

/// Identifier tokens of a lexed source consist of ASCII bytes.
proof fn lemma_names_are_ascii(bytes: Seq<u8>, toks: Tokens, uses: Seq<Use>)
    requires
        lex_result(bytes, Ok(toks)),
        uses_are_names(uses, toks@),
    ensures
        names_are_ascii(bytes, toks@, uses),
{
    let ts = toks@.drop_last();
    assert(tokenizes(bytes, ts, bytes.len() as int));
    assert forall|k: int| 0 <= k < uses.len() implies #[trigger] name_is_ascii(bytes, toks@, uses[k]) by {
        let j = uses[k].name as int;
        assert(toks@[j].kind == TokenKind::Ident);
        assert(j < toks@.len() - 1);
        assert(ts[j] == toks@[j]);
        lemma_ident_ascii(bytes, ts, bytes.len() as int, j);
    }
}

/// An analyzed node's data taken back to parsed, with the same syntax.
pub open spec fn demoted<S, E>(d: Data<S, E>) -> Data<S, E> {
    match d {
        Data::Analyzed { syn, .. } => Data::Parsed { syn },
        _ => d,
    }
}

/// The module at `i` imports itself, directly or through other modules.
pub open spec fn on_cycle(v: GraphView, i: int) -> bool {
    exists|d: int| imports_edge(v, i, d) && reaches(v, d, i)
}

/// `y` can be reached by following imports from a module that `i` imports.
pub open spec fn from_imports(v: GraphView, i: int, y: int) -> bool {
    exists|d: int| imports_edge(v, i, d) && #[trigger] reaches(v, d, y)
}

proof fn lemma_reaches_append(v: GraphView, a: int, b: int, c: int)
    requires
        reaches(v, a, b),
        imports_edge(v, b, c),
    ensures
        reaches(v, a, c),
{
    let p = choose|p: Seq<int>| #[trigger] is_path(v, p) && p[0] == a && p.last() == b;
    let q = p.push(c);
    assert forall|m: int| 0 <= m < q.len() - 1 implies imports_edge(v, #[trigger] q[m], q[m + 1]) by {
        if m < p.len() - 1 {
            assert(q[m] == p[m] && q[m + 1] == p[m + 1]);
            assert(imports_edge(v, p[m], p[m + 1]));
        } else {
            assert(q[m] == b && q[m + 1] == c);
        }
    }
    assert(is_path(v, q));
}

/// The positions marked in `marks`.
pub open spec fn marked_set(marks: Seq<bool>) -> Set<int> {
    Set::new(|x: int| 0 <= x < marks.len() && marks[x])
}

proof fn lemma_marked_finite(marks: Seq<bool>)
    ensures
        marked_set(marks).finite(),
        marked_set(marks).len() <= marks.len(),
{
    vstd::set_lib::lemma_int_range(0, marks.len() as int);
    vstd::set_lib::lemma_len_subset(marked_set(marks), vstd::set_lib::set_int_range(0, marks.len() as int));
}

/// A path out of a set of nodes closed under imports stays in it.
proof fn lemma_closed_path(v: GraphView, marks: Seq<bool>, p: Seq<int>)
    requires
        is_path(v, p),
        0 <= p[0] < marks.len(),
        marks[p[0]],
        marks.len() == v.nodes.len(),
        wf(v),
        forall|x: int, k: int|
            0 <= x < marks.len() && marks[x] && 0 <= k < v.nodes[x].imports.len() ==> marks[#[trigger] v.nodes[x].imports[k]],
    ensures
        0 <= p.last() < marks.len(),
        marks[p.last()],
    decreases p.len(),
{
    if p.len() > 1 {
        assert(imports_edge(v, p[0], p[1]));
        let k = choose|k: int| 0 <= k < v.nodes[p[0]].imports.len() && #[trigger] v.nodes[p[0]].imports[k] == p[1];
        assert(marks[v.nodes[p[0]].imports[k]]);
        let q = p.drop_first();
        assert forall|m: int| 0 <= m < q.len() - 1 implies imports_edge(v, #[trigger] q[m], q[m + 1]) by {
            assert(q[m] == p[m + 1] && q[m + 1] == p[m + 2]);
            assert(imports_edge(v, p[m + 1], p[m + 2]));
        }
        lemma_closed_path(v, marks, q);
    }
}

/// The graph of modules of one session.
pub struct Graph<S, E> {
    stdlib: Uri,
    uris: Vec<Uri>,
    nodes: Vec<Node<S, E>>,
    clock: Ghost<nat>,
}

/// `x` is one of the positions in `r`.
pub open spec fn lists(r: Seq<usize>, x: int) -> bool {
    exists|m: int| 0 <= m < r.len() && r[m] as int == x
}

/// `after` holds every node of `before`, unchanged, at the same position.
spec fn kept<S, E>(before: &Graph<S, E>, after: &Graph<S, E>) -> bool {
    &&& before.nodes@.len() <= after.nodes@.len()
    &&& after.stdlib == before.stdlib
    &&& after.clock == before.clock
    &&& forall|x: int|
        0 <= x < before.nodes@.len() ==> #[trigger] after.nodes@[x] == before.nodes@[x]
            && after.uris@[x] == before.uris@[x]
}

proof fn lemma_kept_trans<S, E>(a: &Graph<S, E>, b: &Graph<S, E>, c: &Graph<S, E>)
    requires
        kept(a, b),
        kept(b, c),
    ensures
        kept(a, c),
{
    assert forall|x: int| 0 <= x < a.nodes@.len() implies #[trigger] c.nodes@[x] == a.nodes@[x]
        && c.uris@[x] == a.uris@[x] by {
        assert(b.nodes@[x] == a.nodes@[x]);
        assert(c.nodes@[x] == b.nodes@[x]);
    }
}

impl<S, E> View for Graph<S, E> {
    type V = GraphView;

    closed spec fn view(&self) -> GraphView {
        GraphView {
            stdlib: self.stdlib@,
            nodes: Seq::new(
                self.nodes@.len(),
                |i: int|
                    NodeView {
                        uri: self.uris@[i]@,
                        stage: self.nodes@[i].data.spec_stage(),
                        imports: self.nodes@[i].imports@.map_values(|d: usize| d as int),
                        rank: self.nodes@[i].rank@,
                    },
            ),
            clock: self.clock@,
        }
    }
}

impl<S, E> Graph<S, E> {
    /// The graph's own invariant: its view is well formed.
    pub closed spec fn inv(&self) -> bool {
        &&& self.uris@.len() == self.nodes@.len()
        &&& wf(self@)
    }

    /// The data of the node at `i`.
    pub closed spec fn data_at(&self, i: int) -> &Data<S, E> {
        &self.nodes@[i].data
    }

    /// An empty graph whose unqualified imports resolve under `stdlib`.
    pub fn new(stdlib: Uri) -> (r: Self)
        ensures
            r.inv(),
            r@ == (GraphView { stdlib: stdlib@, nodes: Seq::empty(), clock: 0 }),
    {
        let r = Graph { stdlib, uris: Vec::new(), nodes: Vec::new(), clock: Ghost(0) };
        assert(r@.nodes =~= Seq::<NodeView>::empty());
        r
    }

    /// The identity under which unqualified imports resolve.
    pub fn stdlib(&self) -> (r: &Uri)
        ensures
            r@ == self@.stdlib,
    {
        &self.stdlib
    }

    /// The number of nodes.
    pub fn len(&self) -> (r: usize)
        requires
            self.inv(),
        ensures
            r == self@.nodes.len(),
    {
        self.nodes.len()
    }

    /// The position of the node for `uri`.
    pub fn find(&self, uri: &Uri) -> (r: Option<usize>)
        requires
            self.inv(),
        ensures
            r is Some <==> knows(self@, uri@),
            r matches Some(i) ==> i < self@.nodes.len() && self@.nodes[i as int].uri == uri@,
    {
        let mut i: usize = 0;
        while i < self.uris.len()
            invariant
                self.inv(),
                i <= self@.nodes.len(),
                forall|j: int| 0 <= j < i ==> self@.nodes[j].uri != uri@,
            decreases self@.nodes.len() - i,
        {
            if self.uris[i] == *uri {
                assert(self@.nodes[i as int].uri == uri@);
                return Some(i);
            }
            i = i + 1;
        }
        None
    }

    /// The position of the node for `uri`, added as a pending node if new.
    fn ensure_node(&mut self, uri: Uri) -> (r: usize)
        requires
            old(self).inv(),
        ensures
            final(self).inv(),
            final(self)@ == with_node(old(self)@, uri@),
            r < final(self)@.nodes.len(),
            final(self)@.nodes[r as int].uri == uri@,
            forall|i: int| 0 <= i < old(self)@.nodes.len() ==> final(self).data_at(i) == old(self).data_at(i),
            kept(&*old(self), &*final(self)),
    {
        match self.find(&uri) {
            Some(i) => i,
            None => {
                let ghost before = self@;
                let i = self.nodes.len();
                self.uris.push(uri);
                self.nodes.push(Node { data: Data::Pending, imports: Vec::new(), rank: Ghost(0) });
                proof {
                    let after = with_node(before, uri@);
                    assert(self.nodes@[i as int].imports@.map_values(|d: usize| d as int) =~= Seq::<int>::empty());
                    assert(self@.nodes =~= after.nodes) by {
                        assert forall|j: int| 0 <= j < i implies self@.nodes[j] == after.nodes[j] by {
                            assert(self.nodes@[j] == old(self).nodes@[j]);
                            assert(self.uris@[j] == old(self).uris@[j]);
                        }
                    }
                    assert(self@ == after);
                    assert(kept(&*old(self), &*self));
                }
                i
            },
        }
    }

    /// Makes sure a node exists for the root module `uri`, pending if new.
    pub fn make_root(&mut self, uri: Uri)
        requires
            old(self).inv(),
        ensures
            final(self).inv(),
            final(self)@ == with_node(old(self)@, uri@),
            advances(old(self)@, final(self)@),
    {
        self.ensure_node(uri);
    }

    /// The identities of the nodes whose text has not been supplied yet.
    pub fn pending(&self) -> (r: Vec<Uri>)
        requires
            self.inv(),
        ensures
            r@.map_values(|u: Uri| u@) == pending_uris(self@.nodes),
    {
        let mut out: Vec<Uri> = Vec::new();
        let mut i: usize = 0;
        while i < self.nodes.len()
            invariant
                self.inv(),
                i <= self@.nodes.len(),
                out@.map_values(|u: Uri| u@) == pending_uris(self@.nodes.take(i as int)),
            decreases self@.nodes.len() - i,
        {
            let ghost before = out@;
            if let Data::Pending = self.nodes[i].data {
                out.push(self.uris[i].clone());
            }
            proof {
                let t = self@.nodes.take(i + 1);
                assert(t.drop_last() =~= self@.nodes.take(i as int));
                assert(out@.map_values(|u: Uri| u@) =~= pending_uris(t)) by {
                    if self@.nodes[i as int].stage == Stage::Pending {
                        assert(out@ == before.push(self.uris@[i as int]));
                        assert(out@.map_values(|u: Uri| u@) =~= before.map_values(|u: Uri| u@).push(
                            self.uris@[i as int]@,
                        ));
                    }
                }
            }
            i = i + 1;
        }
        assert(self@.nodes.take(i as int) =~= self@.nodes);
        out
    }

    /// Whether the node at `j` imports the node at `d`.
    fn imports_contains(&self, j: usize, d: usize) -> (r: bool)
        requires
            self.uris@.len() == self.nodes@.len(),
            j < self@.nodes.len(),
        ensures
            r == imports_edge(self@, j as int, d as int),
    {
        let imports = &self.nodes[j].imports;
        let mut k: usize = 0;
        while k < imports.len()
            invariant
                k <= imports@.len(),
                imports@ == self.nodes@[j as int].imports@,
                j < self@.nodes.len(),
                forall|m: int| 0 <= m < k ==> imports@[m] != d,
            decreases imports@.len() - k,
        {
            if imports[k] == d {
                assert(self@.nodes[j as int].imports[k as int] == d as int);
                return true;
            }
            k = k + 1;
        }
        proof {
            if imports_edge(self@, j as int, d as int) {
                let m = choose|m: int|
                    0 <= m < self@.nodes[j as int].imports.len() && #[trigger] self@.nodes[j as int].imports[m]
                        == d as int;
                assert(imports@[m] == d);
            }
        }
        false
    }

    /// Takes the analyzed node at `j` back to parsed, keeping its syntax.
    fn reset(&mut self, j: usize)
        requires
            old(self).uris@.len() == old(self).nodes@.len(),
            j < old(self)@.nodes.len(),
            old(self)@.nodes[j as int].stage == Stage::Analyzed,
        ensures
            final(self).uris == old(self).uris,
            final(self).nodes@.len() == old(self).nodes@.len(),
            final(self)@ == (GraphView {
                nodes: old(self)@.nodes.update(
                    j as int,
                    (NodeView { stage: Stage::Parsed, ..old(self)@.nodes[j as int] }),
                ),
                ..old(self)@
            }),
            forall|x: int|
                0 <= x < old(self)@.nodes.len() && x != j ==> final(self).data_at(x) == old(self).data_at(x),
            *final(self).data_at(j as int) == demoted(*old(self).data_at(j as int)),
    {
        let ghost before = self@;
        if let Data::Analyzed { syn, .. } = &self.nodes[j].data {
            let syn = syn.clone();
            self.nodes[j].data = Data::Parsed { syn };
        }
        assert(self@.nodes =~= before.nodes.update(
            j as int,
            NodeView { stage: Stage::Parsed, ..before.nodes[j as int] },
        ));
    }

    /// Takes back to parsed every analyzed node that imports the node at `i`,
    /// directly or not, so that analyzed nodes again import only analyzed nodes.
    fn invalidate(&mut self, i: usize)
        requires
            old(self).uris@.len() == old(self).nodes@.len(),
            wf_shape(old(self)@),
            i < old(self)@.nodes.len(),
            old(self)@.nodes[i as int].stage != Stage::Analyzed,
            forall|a: int, k: int|
                0 <= a < old(self)@.nodes.len() && 0 <= k < old(self)@.nodes[a].imports.len()
                    && old(self)@.nodes[a].stage == Stage::Analyzed ==> #[trigger] old(self)@.nodes[a].imports[k] == i || (old(self)@.nodes[old(self)@.nodes[a].imports[k]].stage
                    == Stage::Analyzed && old(self)@.nodes[old(self)@.nodes[a].imports[k]].rank
                    < old(self)@.nodes[a].rank),
        ensures
            final(self).inv(),
            final(self).uris == old(self).uris,
            final(self)@.stdlib == old(self)@.stdlib,
            final(self)@.clock == old(self)@.clock,
            final(self)@.nodes.len() == old(self)@.nodes.len(),
            forall|x: int|
                0 <= x < old(self)@.nodes.len() ==> #[trigger] final(self)@.nodes[x].imports == old(self)@.nodes[x].imports && final(self)@.nodes[x].uri == old(self)@.nodes[x].uri
                    && final(self)@.nodes[x].rank == old(self)@.nodes[x].rank,
            forall|x: int|
                0 <= x < old(self)@.nodes.len() ==> (#[trigger] final(self).data_at(x) == old(self).data_at(x)) || (old(self)@.nodes[x].stage == Stage::Analyzed && *final(self).data_at(x) == demoted(*old(self).data_at(x)) && reaches(
                    old(self)@,
                    x,
                    i as int,
                )),
    {
        let ghost start = self@;
        let mut work: Vec<usize> = Vec::new();
        work.push(i);
        proof {
            lemma_reaches_self(start, i as int);
            assert(work@[0] == i);
            assert forall|a: int, k: int|
                0 <= a < self@.nodes.len() && 0 <= k < self@.nodes[a].imports.len()
                    && self@.nodes[a].stage == Stage::Analyzed implies (self@.nodes[#[trigger] self@.nodes[a].imports[k]].stage
                    == Stage::Analyzed && self@.nodes[self@.nodes[a].imports[k]].rank
                    < self@.nodes[a].rank) || work@.contains(self@.nodes[a].imports[k] as usize) by {
                if self@.nodes[a].imports[k] == i {
                    assert(work@[0] == i);
                }
            }
        }
        while work.len() > 0
            invariant
                self.uris == old(self).uris,
                self.uris@.len() == self.nodes@.len(),
                self.nodes@.len() == start.nodes.len(),
                start == old(self)@,
                self@.stdlib == start.stdlib,
                self@.clock == start.clock,
                wf_shape(self@),
                forall|x: int|
                    0 <= x < start.nodes.len() ==> #[trigger] self@.nodes[x].imports
                        == start.nodes[x].imports && self@.nodes[x].uri == start.nodes[x].uri
                        && self@.nodes[x].rank == start.nodes[x].rank,
                forall|x: int|
                    0 <= x < start.nodes.len() ==> (#[trigger] self.data_at(x) == old(self).data_at(x))
                        || (start.nodes[x].stage == Stage::Analyzed && *self.data_at(x) == demoted(
                        *old(self).data_at(x),
                    ) && reaches(start, x, i as int)),
                forall|w: int|
                    0 <= w < work@.len() ==> #[trigger] work@[w] < start.nodes.len() && self@.nodes[work@[w] as int].stage
                        != Stage::Analyzed && reaches(start, work@[w] as int, i as int),
                forall|a: int, k: int|
                    0 <= a < self@.nodes.len() && 0 <= k < self@.nodes[a].imports.len()
                        && self@.nodes[a].stage == Stage::Analyzed ==> (self@.nodes[#[trigger] self@.nodes[a].imports[k]].stage
                        == Stage::Analyzed && self@.nodes[self@.nodes[a].imports[k]].rank
                        < self@.nodes[a].rank) || work@.contains(self@.nodes[a].imports[k] as usize),
            decreases analyzed_set(self@).len(), work@.len(),
        {
            let ghost a0 = analyzed_set(self@).len();
            let ghost w0 = work@.len();
            proof {
                lemma_analyzed_finite(self@);
            }
            let ghost work_before = work@;
            let d = work.pop().unwrap();
            proof {
                assert(work_before.last() == d);
                assert(reaches(start, d as int, i as int));
                assert forall|w: int| 0 <= w < work@.len() implies #[trigger] work@[w] < start.nodes.len()
                    && self@.nodes[work@[w] as int].stage != Stage::Analyzed && reaches(
                    start,
                    work@[w] as int,
                    i as int,
                ) by {
                    assert(work@[w] == work_before[w]);
                }
                assert forall|a: int, k: int|
                    0 <= a < self@.nodes.len() && 0 <= k < self@.nodes[a].imports.len()
                        && self@.nodes[a].stage == Stage::Analyzed implies (self@.nodes[#[trigger] self@.nodes[a].imports[k]].stage
                    == Stage::Analyzed && self@.nodes[self@.nodes[a].imports[k]].rank
                    < self@.nodes[a].rank) || work@.contains(self@.nodes[a].imports[k] as usize)
                    || (self@.nodes[a].imports[k] == d && a >= 0) by {
                    let b = self@.nodes[a].imports[k];
                    if work_before.contains(b as usize) && b != d {
                        let w = choose|w: int| 0 <= w < work_before.len() && work_before[w] == b as usize;
                        assert(w != work_before.len() - 1);
                        assert(work@[w] == b as usize);
                    }
                }
            }
            let mut j: usize = 0;
            while j < self.nodes.len()
                invariant
                    self.uris == old(self).uris,
                    self.uris@.len() == self.nodes@.len(),
                    self.nodes@.len() == start.nodes.len(),
                    start == old(self)@,
                    self@.stdlib == start.stdlib,
                    self@.clock == start.clock,
                    wf_shape(self@),
                    j <= self.nodes@.len(),
                    d < start.nodes.len(),
                    self@.nodes[d as int].stage != Stage::Analyzed,
                    reaches(start, d as int, i as int),
                    forall|x: int|
                        0 <= x < start.nodes.len() ==> #[trigger] self@.nodes[x].imports
                            == start.nodes[x].imports && self@.nodes[x].uri == start.nodes[x].uri
                            && self@.nodes[x].rank == start.nodes[x].rank,
                    forall|x: int|
                        0 <= x < start.nodes.len() ==> (#[trigger] self.data_at(x) == old(self).data_at(
                            x,
                        )) || (start.nodes[x].stage == Stage::Analyzed && *self.data_at(x) == demoted(
                            *old(self).data_at(x),
                        ) && reaches(start, x, i as int)),
                    forall|w: int|
                        0 <= w < work@.len() ==> #[trigger] work@[w] < start.nodes.len() && self@.nodes[work@[w] as int].stage
                            != Stage::Analyzed && reaches(start, work@[w] as int, i as int),
                    forall|a: int, k: int|
                        0 <= a < self@.nodes.len() && 0 <= k < self@.nodes[a].imports.len()
                            && self@.nodes[a].stage == Stage::Analyzed ==> (self@.nodes[#[trigger] self@.nodes[a].imports[k]].stage
                            == Stage::Analyzed && self@.nodes[self@.nodes[a].imports[k]].rank
                            < self@.nodes[a].rank) || work@.contains(self@.nodes[a].imports[k] as usize)
                            || (self@.nodes[a].imports[k] == d && a >= j),
                    analyzed_set(self@).finite(),
                    analyzed_set(self@).len() + (work@.len() - (w0 - 1)) <= a0,
                    work@.len() >= w0 - 1,
                decreases self@.nodes.len() - j,
            {
                if self.nodes[j].data.stage() == Stage::Analyzed && self.imports_contains(j, d) {
                    let ghost before = self@;
                    let ghost before_work = work@;
                    proof {
                        lemma_reaches_prepend(start, j as int, d as int, i as int);
                    }
                    self.reset(j);
                    work.push(j);
                    proof {
                        assert(analyzed_set(self@) =~= analyzed_set(before).remove(j as int));
                        assert forall|w: int| 0 <= w < work@.len() implies #[trigger] work@[w] < start.nodes.len()
                            && self@.nodes[work@[w] as int].stage != Stage::Analyzed && reaches(
                            start,
                            work@[w] as int,
                            i as int,
                        ) by {
                            if w < before_work.len() {
                                assert(work@[w] == before_work[w]);
                            }
                        }
                        assert forall|a: int, k: int|
                            0 <= a < self@.nodes.len() && 0 <= k < self@.nodes[a].imports.len()
                                && self@.nodes[a].stage == Stage::Analyzed implies (self@.nodes[#[trigger] self@.nodes[a].imports[k]].stage
                            == Stage::Analyzed && self@.nodes[self@.nodes[a].imports[k]].rank
                            < self@.nodes[a].rank) || work@.contains(self@.nodes[a].imports[k] as usize)
                            || (self@.nodes[a].imports[k] == d && a >= j + 1) by {
                            let b = self@.nodes[a].imports[k];
                            assert(before.nodes[a].imports[k] == b);
                            if b == j {
                                assert(work@[work@.len() - 1] == j);
                            } else if before_work.contains(b as usize) {
                                let w = choose|w: int| 0 <= w < before_work.len() && before_work[w] == b as usize;
                                assert(work@[w] == b as usize);
                            }
                        }
                    }
                } else {
                    proof {
                        assert forall|a: int, k: int|
                            0 <= a < self@.nodes.len() && 0 <= k < self@.nodes[a].imports.len()
                                && self@.nodes[a].stage == Stage::Analyzed implies (self@.nodes[#[trigger] self@.nodes[a].imports[k]].stage
                            == Stage::Analyzed && self@.nodes[self@.nodes[a].imports[k]].rank
                            < self@.nodes[a].rank) || work@.contains(self@.nodes[a].imports[k] as usize)
                            || (self@.nodes[a].imports[k] == d && a >= j + 1) by {
                            if a == j && self@.nodes[a].imports[k] == d {
                                assert(imports_edge(self@, j as int, d as int));
                            }
                        }
                    }
                }
                j = j + 1;
            }
        }
    }

    /// Puts `data` and `imports` into the node at `i`.
    fn set_node(&mut self, i: usize, data: Data<S, E>, imports: Vec<usize>)
        requires
            old(self).uris@.len() == old(self).nodes@.len(),
            i < old(self)@.nodes.len(),
        ensures
            final(self).uris == old(self).uris,
            final(self).nodes@.len() == old(self).nodes@.len(),
            final(self)@ == (GraphView {
                nodes: old(self)@.nodes.update(
                    i as int,
                    (NodeView {
                        uri: old(self)@.nodes[i as int].uri,
                        stage: data.spec_stage(),
                        imports: imports@.map_values(|d: usize| d as int),
                        rank: 0,
                    }),
                ),
                ..old(self)@
            }),
            *final(self).data_at(i as int) == data,
            forall|x: int|
                0 <= x < old(self)@.nodes.len() && x != i ==> final(self).data_at(x) == old(self).data_at(x),
    {
        let ghost before = self@;
        let ghost node_view = NodeView {
            uri: before.nodes[i as int].uri,
            stage: data.spec_stage(),
            imports: imports@.map_values(|d: usize| d as int),
            rank: 0,
        };
        self.nodes.set(i, Node { data, imports, rank: Ghost(0) });
        assert(self@.nodes =~= before.nodes.update(i as int, node_view));
    }

    /// The job for the node at `i` is `job`.
    pub closed spec fn job_for(&self, i: int, job: Analysis<S>) -> bool {
        &&& job.uri@ == self@.nodes[i].uri
        &&& self.data_at(i) matches Data::Parsed { syn } && job.syn == syn
        &&& job.deps@.len() == self@.nodes[i].imports.len()
        &&& forall|m: int|
            0 <= m < job.deps@.len() ==> {
                let d = #[trigger] self@.nodes[i].imports[m];
                &&& job.deps@[m].0@ == self@.nodes[d].uri
                &&& self.data_at(d) matches Data::Analyzed { sem, .. } && job.deps@[m].1 == sem
            }
    }

    /// The type checking that can be done now: one job for each parsed module
    /// whose imports are all analyzed, in the order the modules became known.
    pub fn analysis(&self) -> (r: Vec<Analysis<S>>)
        requires
            self.inv(),
        ensures
            r@.len() == ready_ids(self@, self@.nodes.len() as int).len(),
            forall|k: int|
                0 <= k < r@.len() ==> self.job_for(
                    ready_ids(self@, self@.nodes.len() as int)[k],
                    #[trigger] r@[k],
                ),
            forall|k: int|
                0 <= k < r@.len() ==> job_view(
                    self@,
                    ready_ids(self@, self@.nodes.len() as int)[k],
                    #[trigger] r@[k],
                ),
            forall|k: int|
                0 <= k < ready_ids(self@, self@.nodes.len() as int).len() ==> is_ready(
                    self@,
                    #[trigger] ready_ids(self@, self@.nodes.len() as int)[k],
                ),
    {
        let mut jobs: Vec<Analysis<S>> = Vec::new();
        let mut i: usize = 0;
        while i < self.nodes.len()
            invariant
                self.inv(),
                i <= self@.nodes.len(),
                jobs@.len() == ready_ids(self@, i as int).len(),
                forall|k: int|
                    0 <= k < jobs@.len() ==> self.job_for(ready_ids(self@, i as int)[k], #[trigger] jobs@[k]),
            decreases self@.nodes.len() - i,
        {
            let ghost before = jobs@;
            if let Data::Parsed { syn } = &self.nodes[i].data {
                let imports = &self.nodes[i].imports;
                let mut deps: Vec<(Uri, Arc<S>)> = Vec::new();
                let mut ready = true;
                let mut m: usize = 0;
                while m < imports.len()
                    invariant
                        self.inv(),
                        i < self@.nodes.len(),
                        imports@ == self.nodes@[i as int].imports@,
                        m <= imports@.len(),
                        ready ==> deps@.len() == m,
                        ready ==> forall|x: int|
                            0 <= x < m ==> self@.nodes[#[trigger] self@.nodes[i as int].imports[x]].stage
                                == Stage::Analyzed,
                        ready ==> forall|x: int|
                            0 <= x < m ==> {
                                let d = #[trigger] self@.nodes[i as int].imports[x];
                                &&& deps@[x].0@ == self@.nodes[d].uri
                                &&& self.data_at(d) matches Data::Analyzed { sem, .. } && deps@[x].1 == sem
                            },
                        !ready ==> !is_ready(self@, i as int),
                    decreases imports@.len() - m,
                {
                    let d = imports[m];
                    assert(self@.nodes[i as int].imports[m as int] == d as int);
                    if let Data::Analyzed { sem, .. } = &self.nodes[d].data {
                        if ready {
                            deps.push((self.uris[d].clone(), sem.clone()));
                        }
                    } else {
                        ready = false;
                    }
                    m = m + 1;
                }
                if ready {
                    jobs.push(Analysis { uri: self.uris[i].clone(), syn: syn.clone(), deps });
                    proof {
                        assert(is_ready(self@, i as int));
                        assert(self.job_for(i as int, jobs@[jobs@.len() - 1]));
                    }
                }
            }
            proof {
                assert forall|k: int|
                    0 <= k < jobs@.len() implies self.job_for(
                    ready_ids(self@, i + 1)[k],
                    #[trigger] jobs@[k],
                ) by {
                    if k < before.len() {
                        assert(jobs@[k] == before[k]);
                    }
                }
            }
            i = i + 1;
        }
        proof {
            assert forall|k: int| 0 <= k < ready_ids(self@, self@.nodes.len() as int).len() implies is_ready(
                self@,
                #[trigger] ready_ids(self@, self@.nodes.len() as int)[k],
            ) by {
                let i = ready_ids(self@, self@.nodes.len() as int)[k];
                assert(ready_ids(self@, self@.nodes.len() as int).contains(i));
                lemma_ready_ids(self@, self@.nodes.len() as int, i);
            }
            assert forall|k: int| 0 <= k < jobs@.len() implies job_view(
                self@,
                ready_ids(self@, self@.nodes.len() as int)[k],
                #[trigger] jobs@[k],
            ) by {
                let i = ready_ids(self@, self@.nodes.len() as int)[k];
                assert(ready_ids(self@, self@.nodes.len() as int).contains(i));
                lemma_ready_ids(self@, self@.nodes.len() as int, i);
                assert(self.job_for(i, jobs@[k]));
                assert forall|m: int| 0 <= m < jobs@[k].deps@.len() implies #[trigger] jobs@[k].deps@[m].0@
                    == self@.nodes[self@.nodes[i].imports[m]].uri by {
                    let d = self@.nodes[i].imports[m];
                }
            }
        }
        jobs
    }

    /// Records the checked module and type errors of a job that `analysis`
    /// handed out; the module becomes analyzed.
    pub fn supply_semantic(&mut self, job: Analysis<S>, sem: Arc<S>, errs: Vec<E>)
        requires
            old(self).inv(),
            knows(old(self)@, job.uri@),
            is_ready(old(self)@, node_of(old(self)@, job.uri@)),
            old(self).job_for(node_of(old(self)@, job.uri@), job),
        ensures
            final(self).inv(),
            final(self)@ == supplied(old(self)@, node_of(old(self)@, job.uri@)),
            advances(old(self)@, final(self)@),
            *final(self).data_at(node_of(old(self)@, job.uri@)) == analyzed_from(
                *old(self).data_at(node_of(old(self)@, job.uri@)),
                sem,
                errs,
            ),
            final(self).data_at(node_of(old(self)@, job.uri@)) matches Data::Analyzed {
                syn,
                sem: s2,
                errs: e2,
            } && s2 == sem && e2 == errs && syn == job.syn,
            forall|x: int|
                0 <= x < old(self)@.nodes.len() && x != node_of(old(self)@, job.uri@) ==> #[trigger] final(self).data_at(x)
                    == old(self).data_at(x),
    {
        let i = match self.find(&job.uri) {
            Some(i) => i,
            None => return ,
        };
        proof {
            assert(node_of(old(self)@, job.uri@) == i as int);
        }
        let ghost before = self@;
        if let Data::Parsed { syn } = &self.nodes[i].data {
            let syn = syn.clone();
            let imports = self.nodes[i].imports.clone();
            let rank = Ghost(self.clock@);
            self.nodes.set(i, Node { data: Data::Analyzed { syn, sem, errs }, imports, rank });
            self.clock = Ghost(self.clock@ + 1);
        }
        proof {
            assert(self@.nodes =~= supplied(before, i as int).nodes);
        }
    }

    /// Nodes for the modules that `tree`, the syntax of the module at `i`,
    /// imports: their positions, in order.
    fn resolve_uses(&mut self, i: usize, from: &Uri, src: &str, toks: &Tokens, tree: &Tree) -> (r: Vec<
        usize,
    >)
        requires
            old(self).inv(),
            i < old(self)@.nodes.len(),
            old(self)@.nodes[i as int].uri == from@,
            lex_result(src.spec_bytes(), Ok(*toks)),
            uses_are_names(tree.uses@, toks@),
        ensures
            final(self).inv(),
            kept(&*old(self), &*final(self)),
            forall|x: int|
                old(self)@.nodes.len() <= x < final(self)@.nodes.len() ==> #[trigger] final(self)@.nodes[x].stage
                    == Stage::Pending,
            r@.len() == tree.uses@.len(),
            forall|m: int|
                0 <= m < r@.len() ==> #[trigger] r@[m] < final(self)@.nodes.len() && final(self)@.nodes[r@[m] as int].uri
                    == use_target(old(self)@.stdlib, from@, src.spec_bytes(), toks@, tree.uses@[m]),
            forall|x: int|
                old(self)@.nodes.len() <= x < final(self)@.nodes.len() ==> lists(r@, x) && #[trigger] final(self)@.nodes[x].stage == Stage::Pending,
    {
        let ghost bytes = src.spec_bytes();
        proof {
            lemma_names_are_ascii(bytes, *toks, tree.uses@);
        }
        let mut imports: Vec<usize> = Vec::new();
        let mut k: usize = 0;
        while k < tree.uses.len()
            invariant
                self.inv(),
                kept(&*old(self), &*self),
                forall|x: int|
                    old(self)@.nodes.len() <= x < self@.nodes.len() ==> #[trigger] self@.nodes[x].stage
                        == Stage::Pending,
                k <= tree.uses@.len(),
                imports@.len() == k,
                bytes == src.spec_bytes(),
                uses_are_names(tree.uses@, toks@),
                names_are_ascii(bytes, toks@, tree.uses@),
                forall|m: int|
                    0 <= m < k ==> #[trigger] imports@[m] < self@.nodes.len() && self@.nodes[imports@[m] as int].uri
                        == use_target(old(self)@.stdlib, from@, bytes, toks@, tree.uses@[m]),
                forall|x: int|
                    old(self)@.nodes.len() <= x < self@.nodes.len() ==> lists(imports@, x)
                        && #[trigger] self@.nodes[x].stage == Stage::Pending,
            decreases tree.uses@.len() - k,
        {
            let u = tree.uses[k];
            let t = toks[u.name];
            let n = src.len();
            assert(name_is_ascii(bytes, toks@, tree.uses@[k as int]));
            let name = ascii_slice(src, t.start as usize, t.start as usize + t.len as usize);
            let target = resolve_import(self.stdlib.as_str(), from.as_str(), u.relative, name);
            let ghost before = *self;
            let ghost imports_before = imports@;
            let idx = self.ensure_node(target);
            imports.push(idx);
            proof {
                assert forall|x: int| old(self)@.nodes.len() <= x < self@.nodes.len() implies lists(imports@, x) && #[trigger] self@.nodes[x].stage == Stage::Pending by {
                    if x < before@.nodes.len() {
                        let w = choose|w: int| 0 <= w < imports_before.len() && imports_before[w] as int == x;
                        assert(imports@[w] == imports_before[w]);
                    } else {
                        assert(imports@[imports@.len() - 1] as int == x);
                    }
                }
                assert forall|m: int| 0 <= m < k + 1 implies #[trigger] imports@[m] < self@.nodes.len()
                    && self@.nodes[imports@[m] as int].uri == use_target(
                    old(self)@.stdlib,
                    from@,
                    bytes,
                    toks@,
                    tree.uses@[m],
                ) by {
                    if m < k {
                        assert(imports@[m] == imports_before[m]);
                        assert(self.nodes@[imports@[m] as int] == before.nodes@[imports@[m] as int]);
                    }
                }
            }
            k = k + 1;
        }
        imports
    }

    /// Supplies, or supplies again, the source text of the module `uri`.
    ///
    /// The text is lexed and parsed at once; the node keeps the first error,
    /// or else the syntax, and every module it imports gets a node. Each
    /// analyzed module that imports this one, directly or not, goes back to
    /// parsed, to be checked again.
    #[verifier::rlimit(90)]
    pub fn set_text(&mut self, uri: &Uri, text: String)
        requires
            old(self).inv(),
        ensures
            final(self).inv(),
            advances(old(self)@, final(self)@),
            knows(final(self)@, uri@),
            old(self)@.nodes.len() <= final(self)@.nodes.len(),
            forall|x: int|
                0 <= x < old(self)@.nodes.len() ==> #[trigger] final(self)@.nodes[x].uri == old(self)@.nodes[x].uri,
            forall|x: int|
                old(self)@.nodes.len() <= x < final(self)@.nodes.len() && x != node_of(final(self)@, uri@)
                    ==> #[trigger] final(self)@.nodes[x].stage == Stage::Pending,
            text_outcome(*final(self).data_at(node_of(final(self)@, uri@)), text@),
            final(self)@.nodes[node_of(final(self)@, uri@)].stage == final(self).data_at(
                node_of(final(self)@, uri@),
            ).spec_stage(),
            final(self)@.nodes[node_of(final(self)@, uri@)].stage != Stage::Pending,
            forall|x: int|
                old(self)@.nodes.len() <= x < final(self)@.nodes.len() && x != node_of(final(self)@, uri@)
                    ==> imports_edge(final(self)@, node_of(final(self)@, uri@), x),
            final(self)@.nodes[node_of(final(self)@, uri@)].stage != Stage::Parsed ==> final(self)@.nodes.len()
                <= old(self)@.nodes.len() + 1,
            final(self)@.nodes.len() > old(self)@.nodes.len() ==> final(self)@.nodes[old(self)@.nodes.len() as int].uri == uri@ || knows(old(self)@, uri@),
            final(self).data_at(node_of(final(self)@, uri@)) matches Data::Parsed { syn } ==> imports_resolved(
                final(self)@,
                node_of(final(self)@, uri@),
                *syn,
            ),
            forall|x: int|
                0 <= x < old(self)@.nodes.len() && x != node_of(final(self)@, uri@) ==> #[trigger] final(self)@.nodes[x].imports
                    == old(self)@.nodes[x].imports,
            forall|x: int|
                0 <= x < old(self)@.nodes.len() && x != node_of(final(self)@, uri@) ==> (#[trigger] final(self).data_at(x)
                    == old(self).data_at(x) || *final(self).data_at(x) == demoted(*old(self).data_at(x))),
            forall|x: int|
                0 <= x < old(self)@.nodes.len() && x != node_of(final(self)@, uri@) ==> (#[trigger] final(self)@.nodes[x].stage
                    == Stage::Analyzed <==> old(self)@.nodes[x].stage == Stage::Analyzed && !reaches(
                    old(self)@,
                    x,
                    node_of(final(self)@, uri@),
                )),
    {
        let i = self.ensure_node(uri.clone());
        let ghost before = old(self)@;
        let ghost start = self@;
        let (data, imports) = match lex(text.as_str()) {
            Err(err) => (Data::Read { src: text, err }, Vec::new()),
            Ok(toks) => match parse(&toks) {
                Err(err) => (Data::Lexed { src: text, toks, err }, Vec::new()),
                Ok(tree) => {
                    let ghost g_start = *self;
                    let imports = self.resolve_uses(i, uri, text.as_str(), &toks, &tree);
                    proof {
                        lemma_kept_trans(&*old(self), &g_start, &*self);
                    }
                    (Data::Parsed { syn: Arc::new(Syntax { src: text, toks, tree }) }, imports)
                },
            },
        };
        assert(text_outcome(data, text@));
        assert(forall|x: int|
            start.nodes.len() <= x < self@.nodes.len() ==> lists(imports@, x)
                && #[trigger] self@.nodes[x].stage == Stage::Pending);
        assert(data.spec_stage() != Stage::Parsed ==> self@.nodes.len() == start.nodes.len());
        assert(kept(&*old(self), &*self));
        assert(self@.nodes[i as int].uri == uri@);
        let ghost resolved_view = self@;
        let ghost resolved_uris = self.uris@;
        let ghost imports0 = imports@;
        proof {
            assert forall|y: int| 0 <= y < before.nodes.len() implies #[trigger] resolved_uris[y]
                == old(self).uris@[y] by {
                assert(self.nodes@[y] == old(self).nodes@[y]);
            }
            assert forall|y: int| 0 <= y < before.nodes.len() && y != i implies #[trigger] resolved_view.nodes[y]
                == before.nodes[y] by {
                assert(self.nodes@[y] == old(self).nodes@[y]);
                assert(self.uris@[y] == old(self).uris@[y]);
            }
        }
        self.set_node(i, data, imports);
        let ghost mid = self@;
        let ghost mid_graph = *self;
        proof {
            assert(self.uris@ == resolved_uris);
            assert forall|y: int| 0 <= y < mid.nodes.len() && y != i implies #[trigger] mid.nodes[y]
                == resolved_view.nodes[y] by {}
            assert forall|a: int, k: int|
                0 <= a < mid.nodes.len() && 0 <= k < mid.nodes[a].imports.len() && mid.nodes[a].stage
                    == Stage::Analyzed implies #[trigger] mid.nodes[a].imports[k] == i || (
                mid.nodes[mid.nodes[a].imports[k]].stage == Stage::Analyzed
                    && mid.nodes[mid.nodes[a].imports[k]].rank < mid.nodes[a].rank) by {
                assert(a != i);
                assert(mid.nodes[a] == resolved_view.nodes[a]);
            }
        }
        self.invalidate(i);
        proof {
            let fin = self@;
            assert(fin.nodes[i as int].uri == uri@);
            assert(knows(fin, uri@));
            assert(node_of(fin, uri@) == i as int);
            assert(self.uris@ == resolved_uris);
            assert forall|x: int| 0 <= x < before.nodes.len() implies #[trigger] fin.nodes[x].uri
                == before.nodes[x].uri by {
                assert(resolved_uris[x] == old(self).uris@[x]);
            }
            assert forall|y: int| 0 <= y < fin.nodes.len() implies #[trigger] fin.nodes[y].stage
                == mid.nodes[y].stage || (mid.nodes[y].stage == Stage::Analyzed && fin.nodes[y].stage
                == Stage::Parsed && reaches(mid, y, i as int)) by {
                assert(fin.nodes[y].imports == mid.nodes[y].imports);
                if self.data_at(y) != mid_graph.data_at(y) {
                    assert(mid_graph.data_at(y).spec_stage() == Stage::Analyzed);
                }
            }
            assert forall|y: int| 0 <= y < before.nodes.len() && y != i implies #[trigger] mid.nodes[y]
                == before.nodes[y] by {
                assert(mid.nodes[y] == resolved_view.nodes[y]);
            }
            assert forall|y: int|
                before.nodes.len() <= y < mid.nodes.len() && y != i implies #[trigger] mid.nodes[y].imports.len()
                    == 0 by {
                assert(mid.nodes[y] == resolved_view.nodes[y]);
                assert(resolved_view.nodes[y].stage == Stage::Pending);
            }
            lemma_reset_exactly(before, mid, fin, i as int);
            assert(fin.nodes[i as int].stage != Stage::Pending);
            assert forall|x: int| before.nodes.len() <= x < fin.nodes.len() && x != i implies imports_edge(
                fin,
                i as int,
                x,
            ) by {
                assert(x >= start.nodes.len());
                assert(resolved_view.nodes[x].stage == Stage::Pending);
                let w = choose|w: int| 0 <= w < imports0.len() && imports0[w] as int == x;
                assert(fin.nodes[i as int].imports == mid.nodes[i as int].imports);
                assert(mid.nodes[i as int].imports == imports0.map_values(|d: usize| d as int));
                assert(mid.nodes[i as int].imports[w] == imports0[w] as int);
                assert(fin.nodes[i as int].imports[w] == x);
            }
        }
    }

    /// Records that the text of the module `uri` could not be fetched. The
    /// node keeps the error, never becomes pending again unless text is
    /// supplied, and each analyzed module that imports it, directly or not,
    /// goes back to parsed.
    #[verifier::rlimit(60)]
    pub fn set_fetch_error(&mut self, uri: &Uri, err: String)
        requires
            old(self).inv(),
        ensures
            final(self).inv(),
            advances(old(self)@, final(self)@),
            knows(final(self)@, uri@),
            final(self)@.nodes[node_of(final(self)@, uri@)].stage == Stage::Missing,
            *final(self).data_at(node_of(final(self)@, uri@)) == (Data::<S, E>::Missing { err }),
            final(self)@.nodes.len() <= old(self)@.nodes.len() + 1,
            forall|x: int|
                0 <= x < old(self)@.nodes.len() && x != node_of(final(self)@, uri@) ==> #[trigger] final(self)@.nodes[x].imports
                    == old(self)@.nodes[x].imports,
            forall|x: int|
                0 <= x < old(self)@.nodes.len() && x != node_of(final(self)@, uri@) ==> (#[trigger] final(self)@.nodes[x].stage
                    == Stage::Analyzed <==> old(self)@.nodes[x].stage == Stage::Analyzed && !reaches(
                    old(self)@,
                    x,
                    node_of(final(self)@, uri@),
                )),
    {
        let i = self.ensure_node(uri.clone());
        let ghost before = old(self)@;
        let ghost resolved_view = self@;
        let ghost resolved_uris = self.uris@;
        proof {
            assert forall|y: int| 0 <= y < before.nodes.len() implies #[trigger] resolved_uris[y]
                == old(self).uris@[y] by {
                assert(self.nodes@[y] == old(self).nodes@[y]);
            }
            assert forall|y: int| 0 <= y < before.nodes.len() && y != i implies #[trigger] resolved_view.nodes[y]
                == before.nodes[y] by {
                assert(self.nodes@[y] == old(self).nodes@[y]);
                assert(self.uris@[y] == old(self).uris@[y]);
            }
        }
        let data = Data::Missing { err };
        let ghost data0 = data;
        self.set_node(i, data, Vec::new());
        let ghost mid = self@;
        let ghost mid_graph = *self;
        proof {
            assert(self.uris@ == resolved_uris);
            assert forall|y: int| 0 <= y < mid.nodes.len() && y != i implies #[trigger] mid.nodes[y]
                == resolved_view.nodes[y] by {}
            assert forall|a: int, k: int|
                0 <= a < mid.nodes.len() && 0 <= k < mid.nodes[a].imports.len() && mid.nodes[a].stage
                    == Stage::Analyzed implies #[trigger] mid.nodes[a].imports[k] == i || (
                mid.nodes[mid.nodes[a].imports[k]].stage == Stage::Analyzed
                    && mid.nodes[mid.nodes[a].imports[k]].rank < mid.nodes[a].rank) by {
                assert(a != i);
                assert(mid.nodes[a] == resolved_view.nodes[a]);
            }
        }
        self.invalidate(i);
        proof {
            let fin = self@;
            assert(fin.nodes[i as int].uri == uri@);
            assert(knows(fin, uri@));
            assert(node_of(fin, uri@) == i as int);
            assert(self.uris@ == resolved_uris);
            assert forall|x: int| 0 <= x < before.nodes.len() implies #[trigger] fin.nodes[x].uri
                == before.nodes[x].uri by {
                assert(resolved_uris[x] == old(self).uris@[x]);
            }
            assert forall|y: int| 0 <= y < fin.nodes.len() implies #[trigger] fin.nodes[y].stage
                == mid.nodes[y].stage || (mid.nodes[y].stage == Stage::Analyzed && fin.nodes[y].stage
                == Stage::Parsed && reaches(mid, y, i as int)) by {
                assert(fin.nodes[y].imports == mid.nodes[y].imports);
                if self.data_at(y) != mid_graph.data_at(y) {
                    assert(mid_graph.data_at(y).spec_stage() == Stage::Analyzed);
                }
            }
            assert forall|y: int| 0 <= y < before.nodes.len() && y != i implies #[trigger] mid.nodes[y]
                == before.nodes[y] by {
                assert(mid.nodes[y] == resolved_view.nodes[y]);
            }
            assert forall|y: int|
                before.nodes.len() <= y < mid.nodes.len() && y != i implies #[trigger] mid.nodes[y].imports.len()
                    == 0 by {
                assert(mid.nodes[y] == resolved_view.nodes[y]);
            }
            lemma_reset_exactly(before, mid, fin, i as int);
            assert(fin.nodes[i as int].stage == Stage::Missing);
        }
    }

    /// Whether the module `uri` imports itself, directly or through other
    /// modules: such a module is never analyzed.
    #[verifier::rlimit(80)]
    #[verifier::spinoff_prover]
    pub fn in_cycle(&self, uri: &Uri) -> (r: bool)
        requires
            self.inv(),
        ensures
            r <==> knows(self@, uri@) && on_cycle(self@, node_of(self@, uri@)),
    {
        let i = match self.find(uri) {
            Some(i) => i,
            None => return false,
        };
        assert(node_of(self@, uri@) == i as int);
        let ghost v = self@;
        let n = self.nodes.len();
        let mut marks: Vec<bool> = Vec::new();
        let mut x: usize = 0;
        while x < n
            invariant
                x <= n,
                n == v.nodes.len(),
                marks@.len() == x,
                forall|y: int| 0 <= y < x ==> !marks@[y],
            decreases n - x,
        {
            marks.push(false);
            x = x + 1;
        }
        // Start from the modules that `i` imports.
        let mut work: Vec<usize> = Vec::new();
        let imports_i = &self.nodes[i].imports;
        let mut k: usize = 0;
        while k < imports_i.len()
            invariant
                self.inv(),
                v == self@,
                i < n,
                n == v.nodes.len(),
                imports_i@ == self.nodes@[i as int].imports@,
                k <= imports_i@.len(),
                marks@.len() == n,
                forall|m: int| 0 <= m < k ==> marks@[#[trigger] v.nodes[i as int].imports[m]],
                forall|y: int| 0 <= y < n && marks@[y] ==> from_imports(v, i as int, y),
                forall|y: int| 0 <= y < n && marks@[y] ==> work@.contains(y as usize),
                forall|w: int| 0 <= w < work@.len() ==> #[trigger] work@[w] < n && marks@[work@[w] as int],
            decreases imports_i@.len() - k,
        {
            let d = imports_i[k];
            assert(v.nodes[i as int].imports[k as int] == d as int);
            if !marks[d] {
                let ghost mb = marks@;
                let ghost wb = work@;
                marks.set(d, true);
                work.push(d);
                proof {
                    lemma_reaches_self(v, d as int);
                    assert(imports_edge(v, i as int, d as int));
                    assert(from_imports(v, i as int, d as int));
                    assert forall|y: int| 0 <= y < n && marks@[y] implies from_imports(v, i as int, y) by {
                        if y != d {
                            assert(mb[y]);
                        }
                    }
                    assert forall|y: int| 0 <= y < n && marks@[y] implies work@.contains(y as usize) by {
                        if y == d {
                            assert(work@[work@.len() - 1] == d);
                        } else {
                            let w = choose|w: int| 0 <= w < wb.len() && wb[w] == y as usize;
                            assert(work@[w] == y as usize);
                        }
                    }
                    assert forall|w: int| 0 <= w < work@.len() implies #[trigger] work@[w] < n && marks@[work@[w] as int] by {
                        if w < wb.len() {
                            assert(work@[w] == wb[w]);
                        }
                    }
                }
            }
            k = k + 1;
        }
        // Follow imports from there until no new module turns up.
        while work.len() > 0
            invariant
                self.inv(),
                v == self@,
                i < n,
                n == v.nodes.len(),
                marks@.len() == n,
                forall|m: int| 0 <= m < v.nodes[i as int].imports.len() ==> marks@[#[trigger] v.nodes[i as int].imports[m]],
                forall|y: int| 0 <= y < n && marks@[y] ==> from_imports(v, i as int, y),
                forall|w: int| 0 <= w < work@.len() ==> #[trigger] work@[w] < n && marks@[work@[w] as int],
                forall|y: int, m: int|
                    0 <= y < n && marks@[y] && 0 <= m < v.nodes[y].imports.len() ==> marks@[#[trigger] v.nodes[y].imports[m]]
                        || work@.contains(y as usize),
            decreases n - marked_set(marks@).len(), work@.len(),
        {
            proof {
                lemma_marked_finite(marks@);
            }
            let ghost m0 = marked_set(marks@).len();
            let ghost w0 = work@.len();
            let ghost wb0 = work@;
            let x = work.pop().unwrap();
            assert(wb0[wb0.len() - 1] == x);
            proof {
                assert forall|y: int, m: int|
                    0 <= y < n && marks@[y] && 0 <= m < v.nodes[y].imports.len() implies marks@[#[trigger] v.nodes[y].imports[m]]
                        || work@.contains(y as usize) || y == x by {
                    if wb0.contains(y as usize) && y != x {
                        let w = choose|w: int| 0 <= w < wb0.len() && wb0[w] == y as usize;
                        assert(work@[w] == y as usize);
                    }
                }
                assert forall|w: int| 0 <= w < work@.len() implies #[trigger] work@[w] < n && marks@[work@[w] as int] by {
                    assert(work@[w] == wb0[w]);
                }
            }
            let imps = &self.nodes[x].imports;
            let mut k: usize = 0;
            while k < imps.len()
                invariant
                    self.inv(),
                    v == self@,
                    i < n,
                    x < n,
                    marks@[x as int],
                    n == v.nodes.len(),
                    imps@ == self.nodes@[x as int].imports@,
                    k <= imps@.len(),
                    marks@.len() == n,
                    forall|m: int| 0 <= m < v.nodes[i as int].imports.len() ==> marks@[#[trigger] v.nodes[i as int].imports[m]],
                    forall|m: int| 0 <= m < k ==> marks@[#[trigger] v.nodes[x as int].imports[m]],
                    forall|y: int| 0 <= y < n && marks@[y] ==> from_imports(v, i as int, y),
                    forall|w: int| 0 <= w < work@.len() ==> #[trigger] work@[w] < n && marks@[work@[w] as int],
                    forall|y: int, m: int|
                        0 <= y < n && marks@[y] && 0 <= m < v.nodes[y].imports.len() ==> marks@[#[trigger] v.nodes[y].imports[m]]
                            || work@.contains(y as usize) || y == x,
                    marked_set(marks@).finite(),
                    marked_set(marks@).len() == m0 + (work@.len() - (w0 - 1)),
                    work@.len() >= w0 - 1,
                decreases imps@.len() - k,
            {
                let e = imps[k];
                assert(v.nodes[x as int].imports[k as int] == e as int);
                if !marks[e] {
                    let ghost mb = marks@;
                    let ghost wb = work@;
                    marks.set(e, true);
                    work.push(e);
                    proof {
                        assert(marked_set(marks@) =~= marked_set(mb).insert(e as int));
                        assert(imports_edge(v, x as int, e as int));
                        let d = choose|d: int| imports_edge(v, i as int, d) && #[trigger] reaches(v, d, x as int);
                        lemma_reaches_append(v, d, x as int, e as int);
                        assert(from_imports(v, i as int, e as int));
                        assert forall|y: int| 0 <= y < n && marks@[y] implies from_imports(v, i as int, y) by {
                            if y != e {
                                assert(mb[y]);
                            }
                        }
                        assert forall|w: int| 0 <= w < work@.len() implies #[trigger] work@[w] < n && marks@[work@[w] as int] by {
                            if w < wb.len() {
                                assert(work@[w] == wb[w]);
                            }
                        }
                        assert forall|y: int, m: int|
                            0 <= y < n && marks@[y] && 0 <= m < v.nodes[y].imports.len() implies marks@[#[trigger] v.nodes[y].imports[m]]
                                || work@.contains(y as usize) || y == x by {
                            if y == e {
                                assert(work@[work@.len() - 1] == e);
                            } else if wb.contains(y as usize) {
                                let w = choose|w: int| 0 <= w < wb.len() && wb[w] == y as usize;
                                assert(work@[w] == y as usize);
                            }
                        }
                    }
                }
                k = k + 1;
            }
            proof {
                assert forall|y: int, m: int|
                    0 <= y < n && marks@[y] && 0 <= m < v.nodes[y].imports.len() implies marks@[#[trigger] v.nodes[y].imports[m]]
                        || work@.contains(y as usize) by {
                    if y == x as int {
                        assert(marks@[v.nodes[x as int].imports[m]]);
                    }
                }
                lemma_marked_finite(marks@);
            }
        }
        proof {
            if on_cycle(v, i as int) {
                let d = choose|d: int| imports_edge(v, i as int, d) && reaches(v, d, i as int);
                let m = choose|m: int| 0 <= m < v.nodes[i as int].imports.len() && #[trigger] v.nodes[i as int].imports[m] == d;
                assert(marks@[v.nodes[i as int].imports[m]]);
                let p = choose|p: Seq<int>| #[trigger] is_path(v, p) && p[0] == d && p.last() == i as int;
                lemma_closed_path(v, marks@, p);
            }
        }
        marks[i]
    }

    /// The node for `uri`, if the graph knows it.
    pub fn get(&self, uri: &Uri) -> (r: Option<&Node<S, E>>)
        requires
            self.inv(),
        ensures
            r is Some <==> knows(self@, uri@),
            r matches Some(n) ==> n.spec_data() == *self.data_at(node_of(self@, uri@)),
    {
        match self.find(uri) {
            Some(i) => Some(&self.nodes[i]),
            None => None,
        }
    }

    /// The identity of the node at `i`.
    pub fn uri_at(&self, i: usize) -> (r: &Uri)
        requires
            self.inv(),
            i < self@.nodes.len(),
        ensures
            r@ == self@.nodes[i as int].uri,
    {
        &self.uris[i]
    }

    /// The node at `i`.
    pub fn node_at(&self, i: usize) -> (r: &Node<S, E>)
        requires
            self.inv(),
            i < self@.nodes.len(),
        ensures
            r.spec_data() == *self.data_at(i as int),
    {
        &self.nodes[i]
    }

    /// The identities that the module `uri` imports, in order, once it is
    /// parsed. A module that is unknown, pending, or failed to lex or parse
    /// has no imports to list.
    pub fn imports(&self, uri: &Uri) -> (r: Result<Vec<Uri>, Unresolved>)
        requires
            self.inv(),
        ensures
            r is Ok <==> knows(self@, uri@) && has_syntax(self@.nodes[node_of(self@, uri@)].stage),
            r matches Ok(v) ==> v@.len() == self@.nodes[node_of(self@, uri@)].imports.len() && forall|k: int|
                0 <= k < v@.len() ==> #[trigger] v@[k]@ == self@.nodes[self@.nodes[node_of(
                    self@,
                    uri@,
                )].imports[k]].uri,
    {
        let i = match self.find(uri) {
            Some(i) => i,
            None => return Err(Unresolved),
        };
        assert(node_of(self@, uri@) == i as int);
        let stage = self.nodes[i].data.stage();
        if stage != Stage::Analyzed && stage != Stage::Parsed {
            return Err(Unresolved);
        }
        let imports = &self.nodes[i].imports;
        let mut out: Vec<Uri> = Vec::new();
        let mut k: usize = 0;
        while k < imports.len()
            invariant
                self.inv(),
                i < self@.nodes.len(),
                imports@ == self.nodes@[i as int].imports@,
                k <= imports@.len(),
                out@.len() == k,
                forall|m: int|
                    0 <= m < k ==> #[trigger] out@[m]@ == self@.nodes[self@.nodes[i as int].imports[m]].uri,
            decreases imports@.len() - k,
        {
            assert(self@.nodes[i as int].imports[k as int] == imports@[k as int] as int);
            out.push(self.uris[imports[k]].clone());
            k = k + 1;
        }
        Ok(out)
    }
}

/// The positions in `ready_ids(v, n)` are ready nodes below `n`.
pub proof fn lemma_ready_ids(v: GraphView, n: int, x: int)
    ensures
        ready_ids(v, n).contains(x) ==> 0 <= x < n && is_ready(v, x),
    decreases n,
{
    if n > 0 {
        lemma_ready_ids(v, n - 1, x);
        if ready_ids(v, n).contains(x) && is_ready(v, n - 1) && x != n - 1 {
            let w = choose|w: int| 0 <= w < ready_ids(v, n).len() && ready_ids(v, n)[w] == x;
            assert(ready_ids(v, n - 1)[w] == x);
        }
    }
}

impl<S, E> Graph<S, E> {
    /// The stage the view shows for a node is the stage of the data it holds.
    pub proof fn lemma_stage_of_data(&self, i: int)
        requires
            self.inv(),
            0 <= i < self@.nodes.len(),
        ensures
            self@.nodes[i].stage == self.data_at(i).spec_stage(),
    {
    }

    /// The graph's invariant, as the laws state it.
    pub proof fn lemma_inv_wf(&self)
        requires
            self.inv(),
        ensures
            wf(self@),
    {
    }

    /// Asking for the analysis jobs twice with no push in between gives the
    /// same jobs: same modules, same syntax, same imported modules.
    pub proof fn law_analysis_repeatable(&self, r1: Seq<Analysis<S>>, r2: Seq<Analysis<S>>)
        requires
            self.inv(),
            r1.len() == ready_ids(self@, self@.nodes.len() as int).len(),
            r2.len() == ready_ids(self@, self@.nodes.len() as int).len(),
            forall|k: int|
                0 <= k < r1.len() ==> self.job_for(ready_ids(self@, self@.nodes.len() as int)[k], #[trigger] r1[k]),
            forall|k: int|
                0 <= k < r2.len() ==> self.job_for(ready_ids(self@, self@.nodes.len() as int)[k], #[trigger] r2[k]),
        ensures
            r1.len() == r2.len(),
            forall|k: int| 0 <= k < r1.len() ==> same_job(#[trigger] r1[k], r2[k]),
    {
        assert forall|k: int| 0 <= k < r1.len() implies same_job(#[trigger] r1[k], r2[k]) by {
            let i = ready_ids(self@, self@.nodes.len() as int)[k];
            assert(ready_ids(self@, self@.nodes.len() as int).contains(i));
            lemma_ready_ids(self@, self@.nodes.len() as int, i);
            assert(self.job_for(i, r1[k]));
            assert(self.job_for(i, r2[k]));
            assert forall|m: int| 0 <= m < r1[k].deps@.len() implies #[trigger] r1[k].deps@[m].0@
                == r2[k].deps@[m].0@ && r1[k].deps@[m].1 == r2[k].deps@[m].1 by {
                let d = self@.nodes[i].imports[m];
            }
        }
    }
}

} // verus!
