//! The graph store: a value-keyed node table over a directed petgraph
//! multigraph with `SymbolSets`-labeled edges, deduplicating edges by
//! identical (source, destination, label) triples.

use vstd::prelude::*;

use crate::symbols::Item;
use crate::symbols::Lr0Item;
use crate::symbols::NonterminalString;
use crate::symbols::SymbolSets;
use crate::symbols::SymbolSetsV;
use crate::symbols::copy_symbol_sets;
use crate::symbols::symbol_sets_eq;

verus! {

/// A node of the trace graph: either an LR(0) item (a path endpoint)
/// or a nonterminal derivation step.
#[derive(Clone, Copy, PartialEq, Eq, Structural, Debug, Hash)]
pub enum TraceGraphNode {
    Nonterminal(NonterminalString),
    Item(Lr0Item),
}

/// A directed edge of the graph model, over node identifiers.
#[verifier::ext_equal]
pub ghost struct EdgeV {
    pub from: nat,
    pub to: nat,
    pub label: SymbolSetsV,
}

/// The mathematical value of a `TraceGraph`: the node table (position =
/// identifier) and the edge sequence in insertion order.
#[verifier::ext_equal]
pub ghost struct GraphV {
    pub nodes: Seq<TraceGraphNode>,
    pub edges: Seq<EdgeV>,
}

/// Declares petgraph's `Graph` so that it can stand in fields and
/// signatures; its contents are reachable only through the trusted
/// functions below.
#[verifier::external_type_specification]
#[verifier::external_body]
#[verifier::reject_recursive_types(N)]
#[verifier::reject_recursive_types(E)]
#[verifier::reject_recursive_types(Ty)]
#[verifier::reject_recursive_types(Ix)]
pub struct ExGraph<N, E, Ty, Ix>(petgraph::graph::Graph<N, E, Ty, Ix>);

/// Declares petgraph's `Directed` marker for use as a type argument.
#[verifier::external_type_specification]
#[verifier::external_body]
pub struct ExDirected(petgraph::Directed);

/// The backing store: a directed petgraph graph over trace-graph nodes
/// with `SymbolSets` edge weights.
pub type Backing = petgraph::graph::Graph<TraceGraphNode, SymbolSets, petgraph::Directed, u32>;

/// The number of nodes the backing petgraph graph holds.
pub uninterp spec fn pg_nodes(g: &Backing) -> nat;

/// The edges the backing petgraph graph holds, in insertion order, as
/// (source, target, label) over node identifiers.
pub uninterp spec fn pg_edges(g: &Backing) -> Seq<EdgeV>;

/// Relies on petgraph's `Graph::with_capacity`: a graph with no nodes
/// and no edges.
#[verifier::external_body]
fn pg_new() -> (g: Backing)
    ensures
        pg_nodes(&g) == 0,
        pg_edges(&g) == Seq::<EdgeV>::empty(),
{
    petgraph::graph::Graph::with_capacity(0, 0)
}

/// Relies on petgraph's `Graph::add_node`: appends one node and returns
/// its index, the previous node count. Panics only at the index-type
/// limit, which the precondition excludes.
#[verifier::external_body]
fn pg_add_node(g: &mut Backing, w: TraceGraphNode) -> (i: usize)
    requires
        pg_nodes(old(g)) < 0xffff_ffff,
    ensures
        pg_nodes(final(g)) == pg_nodes(old(g)) + 1,
        pg_edges(final(g)) == pg_edges(old(g)),
        i == pg_nodes(old(g)),
{
    g.add_node(w).index()
}

/// Relies on petgraph's `Graph::add_edge`: appends one edge from `a` to
/// `b` with the given weight. Panics only on an out-of-bounds endpoint
/// or at the index-type limit, which the preconditions exclude.
#[verifier::external_body]
fn pg_add_edge(g: &mut Backing, a: usize, b: usize, w: SymbolSets)
    requires
        a < pg_nodes(old(g)),
        b < pg_nodes(old(g)),
        pg_edges(old(g)).len() < 0xffff_ffff,
    ensures
        pg_nodes(final(g)) == pg_nodes(old(g)),
        pg_edges(final(g)) == pg_edges(old(g)).push((EdgeV { from: a as nat, to: b as nat, label: w@ })),
{
    g.add_edge(
        petgraph::graph::NodeIndex::new(a),
        petgraph::graph::NodeIndex::new(b),
        w,
    );
}

/// The incoming edges of node `t`, newest first, as (source, label).
#[verifier::opaque]
pub open spec fn incoming_of(edges: Seq<EdgeV>, t: nat) -> Seq<(nat, SymbolSetsV)>
    decreases edges.len(),
{
    if edges.len() == 0 {
        Seq::empty()
    } else {
        let rest = incoming_of(edges.drop_last(), t);
        let e = edges.last();
        if e.to == t {
            seq![(e.from, e.label)] + rest
        } else {
            rest
        }
    }
}

/// The outgoing edges of node `f`, newest first, as (target, label).
#[verifier::opaque]
pub open spec fn outgoing_of(edges: Seq<EdgeV>, f: nat) -> Seq<(nat, SymbolSetsV)>
    decreases edges.len(),
{
    if edges.len() == 0 {
        Seq::empty()
    } else {
        let rest = outgoing_of(edges.drop_last(), f);
        let e = edges.last();
        if e.from == f {
            seq![(e.to, e.label)] + rest
        } else {
            rest
        }
    }
}

/// The view of a vector of (index, label) pairs.
pub open spec fn pairs_view(s: Seq<(usize, SymbolSets)>) -> Seq<(nat, SymbolSetsV)> {
    s.map_values(|p: (usize, SymbolSets)| (p.0 as nat, p.1@))
}

/// An element of the incoming list is exactly a matching edge, and
/// conversely.
pub proof fn lemma_incoming_contains(edges: Seq<EdgeV>, t: nat, p: (nat, SymbolSetsV))
    ensures
        incoming_of(edges, t).contains(p) <==> edges.contains((EdgeV { from: p.0, to: t, label: p.1 })),
    decreases edges.len(),
{
    reveal_with_fuel(incoming_of, 2);
    if edges.len() > 0 {
        lemma_incoming_contains(edges.drop_last(), t, p);
        let e = edges.last();
        let rest = incoming_of(edges.drop_last(), t);
        if e.to == t {
            let whole = seq![(e.from, e.label)] + rest;
            assert(incoming_of(edges, t) == whole);
            if edges.contains((EdgeV { from: p.0, to: t, label: p.1 })) {
                let i = choose|i: int| 0 <= i < edges.len() && edges[i] == (EdgeV { from: p.0, to: t, label: p.1 });
                if i == edges.len() - 1 {
                    assert(whole[0] == p);
                    assert(whole.contains(p));
                } else {
                    assert(edges.drop_last()[i] == edges[i]);
                    assert(edges.drop_last().contains((EdgeV { from: p.0, to: t, label: p.1 })));
                    let j = choose|j: int| 0 <= j < rest.len() && rest[j] == p;
                    assert(whole[j + 1] == p);
                    assert(whole.contains(p));
                }
            }
            if whole.contains(p) {
                let j = choose|j: int| 0 <= j < whole.len() && whole[j] == p;
                if j == 0 {
                    assert(p == (e.from, e.label));
                    assert((EdgeV { from: p.0, to: t, label: p.1 }) =~= e);
                    assert(edges.contains(e));
                } else {
                    assert(rest[j - 1] == p);
                    assert(rest.contains(p));
                    let i = choose|i: int| 0 <= i < edges.drop_last().len() && edges.drop_last()[i] == (EdgeV { from: p.0, to: t, label: p.1 });
                    assert(edges[i] == (EdgeV { from: p.0, to: t, label: p.1 }));
                    assert(edges.contains((EdgeV { from: p.0, to: t, label: p.1 })));
                }
            }
        } else {
            assert(incoming_of(edges, t) == rest);
            if edges.contains((EdgeV { from: p.0, to: t, label: p.1 })) {
                let i = choose|i: int| 0 <= i < edges.len() && edges[i] == (EdgeV { from: p.0, to: t, label: p.1 });
                assert(i < edges.len() - 1) by {
                    assert(edges[edges.len() - 1].to != t);
                }
                assert(edges.drop_last()[i] == edges[i]);
                assert(edges.drop_last().contains((EdgeV { from: p.0, to: t, label: p.1 })));
            }
            if rest.contains(p) {
                let i = choose|i: int| 0 <= i < edges.drop_last().len() && edges.drop_last()[i] == (EdgeV { from: p.0, to: t, label: p.1 });
                assert(edges[i] == (EdgeV { from: p.0, to: t, label: p.1 }));
                assert(edges.contains((EdgeV { from: p.0, to: t, label: p.1 })));
            }
        }
    }
}

/// The outgoing counterpart of `lemma_incoming_contains`.
pub proof fn lemma_outgoing_contains(edges: Seq<EdgeV>, f: nat, p: (nat, SymbolSetsV))
    ensures
        outgoing_of(edges, f).contains(p) <==> edges.contains((EdgeV { from: f, to: p.0, label: p.1 })),
    decreases edges.len(),
{
    reveal_with_fuel(outgoing_of, 2);
    if edges.len() > 0 {
        lemma_outgoing_contains(edges.drop_last(), f, p);
        let e = edges.last();
        let rest = outgoing_of(edges.drop_last(), f);
        if e.from == f {
            let whole = seq![(e.to, e.label)] + rest;
            assert(outgoing_of(edges, f) == whole);
            if edges.contains((EdgeV { from: f, to: p.0, label: p.1 })) {
                let i = choose|i: int| 0 <= i < edges.len() && edges[i] == (EdgeV { from: f, to: p.0, label: p.1 });
                if i == edges.len() - 1 {
                    assert(whole[0] == p);
                    assert(whole.contains(p));
                } else {
                    assert(edges.drop_last()[i] == edges[i]);
                    assert(edges.drop_last().contains((EdgeV { from: f, to: p.0, label: p.1 })));
                    let j = choose|j: int| 0 <= j < rest.len() && rest[j] == p;
                    assert(whole[j + 1] == p);
                    assert(whole.contains(p));
                }
            }
            if whole.contains(p) {
                let j = choose|j: int| 0 <= j < whole.len() && whole[j] == p;
                if j == 0 {
                    assert(p == (e.to, e.label));
                    assert((EdgeV { from: f, to: p.0, label: p.1 }) =~= e);
                    assert(edges.contains(e));
                } else {
                    assert(rest[j - 1] == p);
                    assert(rest.contains(p));
                    let i = choose|i: int| 0 <= i < edges.drop_last().len() && edges.drop_last()[i] == (EdgeV { from: f, to: p.0, label: p.1 });
                    assert(edges[i] == (EdgeV { from: f, to: p.0, label: p.1 }));
                    assert(edges.contains((EdgeV { from: f, to: p.0, label: p.1 })));
                }
            }
        } else {
            assert(outgoing_of(edges, f) == rest);
            if edges.contains((EdgeV { from: f, to: p.0, label: p.1 })) {
                let i = choose|i: int| 0 <= i < edges.len() && edges[i] == (EdgeV { from: f, to: p.0, label: p.1 });
                assert(i < edges.len() - 1) by {
                    assert(edges[edges.len() - 1].from != f);
                }
                assert(edges.drop_last()[i] == edges[i]);
                assert(edges.drop_last().contains((EdgeV { from: f, to: p.0, label: p.1 })));
            }
            if rest.contains(p) {
                let i = choose|i: int| 0 <= i < edges.drop_last().len() && edges.drop_last()[i] == (EdgeV { from: f, to: p.0, label: p.1 });
                assert(edges[i] == (EdgeV { from: f, to: p.0, label: p.1 }));
                assert(edges.contains((EdgeV { from: f, to: p.0, label: p.1 })));
            }
        }
    }
}

/// Relies on petgraph's `Graph::edges_directed` with
/// `Direction::Incoming` on a directed graph: it yields exactly the
/// edges whose target is the given node, most recently added first,
/// and yields nothing for an unknown node. The index must fit the
/// graph's u32 node-index type, since `NodeIndex::new` truncates.
#[verifier::external_body]
fn pg_incoming(g: &Backing, i: usize) -> (r: Vec<(usize, SymbolSets)>)
    requires
        i < 0x1_0000_0000,
    ensures
        pairs_view(r@) == incoming_of(pg_edges(g), i as nat),
{
    g.edges_directed(petgraph::graph::NodeIndex::new(i), petgraph::Direction::Incoming)
        .map(|e| (petgraph::visit::EdgeRef::source(&e).index(), copy_symbol_sets(petgraph::visit::EdgeRef::weight(&e))))
        .collect()
}

/// Relies on petgraph's `Graph::edges_directed` with
/// `Direction::Outgoing` on a directed graph: it yields exactly the
/// edges whose source is the given node, most recently added first,
/// and yields nothing for an unknown node. The index must fit the
/// graph's u32 node-index type, since `NodeIndex::new` truncates.
#[verifier::external_body]
fn pg_outgoing(g: &Backing, i: usize) -> (r: Vec<(usize, SymbolSets)>)
    requires
        i < 0x1_0000_0000,
    ensures
        pairs_view(r@) == outgoing_of(pg_edges(g), i as nat),
{
    g.edges_directed(petgraph::graph::NodeIndex::new(i), petgraph::Direction::Outgoing)
        .map(|e| (petgraph::visit::EdgeRef::target(&e).index(), copy_symbol_sets(petgraph::visit::EdgeRef::weight(&e))))
        .collect()
}

/// Well-formedness of a graph model: edge endpoints are known node
/// identifiers, node values are distinct (the table is value-keyed),
/// and no (source, destination, label) triple occurs twice.
pub open spec fn graph_wf(g: GraphV) -> bool {
    &&& (forall|i: int| 0 <= i < g.edges.len() ==> (#[trigger] g.edges[i]).from < g.nodes.len()
        && g.edges[i].to < g.nodes.len())
    &&& (forall|i: int, j: int| 0 <= i < j < g.nodes.len() ==> g.nodes[i] != g.nodes[j])
    &&& (forall|i: int, j: int| 0 <= i < j < g.edges.len() ==> g.edges[i] != g.edges[j])
}

/// The identifier `add_node` resolves `n` to: its position if known,
/// else the next fresh position.
pub open spec fn spec_node_id(g: GraphV, n: TraceGraphNode) -> nat {
    if g.nodes.contains(n) {
        g.nodes.index_of(n) as nat
    } else {
        g.nodes.len()
    }
}

/// The graph after `add_node(n)`: unchanged if `n` is known, else `n`
/// appended to the node table.
pub open spec fn spec_add_node(g: GraphV, n: TraceGraphNode) -> GraphV {
    if g.nodes.contains(n) {
        g
    } else {
        GraphV { nodes: g.nodes.push(n), edges: g.edges }
    }
}

/// The graph after `add_edge(f, t, l)`: both endpoints resolved as by
/// `add_node`, then the edge appended unless the identical triple is
/// already present.
pub open spec fn spec_add_edge(g: GraphV, f: TraceGraphNode, t: TraceGraphNode, l: SymbolSetsV) -> GraphV {
    let g1 = spec_add_node(g, f);
    let g2 = spec_add_node(g1, t);
    let e = EdgeV { from: spec_node_id(g, f), to: spec_node_id(g1, t), label: l };
    if g2.edges.contains(e) {
        g2
    } else {
        GraphV { nodes: g2.nodes, edges: g2.edges.push(e) }
    }
}

/// The graph store: the dense node table (position = identifier) and
/// the backing petgraph multigraph holding the labeled edges.
pub struct TraceGraph {
    backing: Backing,
    nodes: Vec<TraceGraphNode>,
}

impl View for TraceGraph {
    type V = GraphV;

    closed spec fn view(&self) -> GraphV {
        GraphV { nodes: self.nodes@, edges: pg_edges(&self.backing) }
    }
}

impl TraceGraph {
    /// The node table mirrors the backing graph, and the model is
    /// well formed.
    pub closed spec fn wf(&self) -> bool {
        &&& pg_nodes(&self.backing) == self.nodes@.len()
        &&& self.nodes@.len() < 0x1_0000_0000
        &&& graph_wf(self@)
    }

    /// An empty trace graph.
    pub fn new() -> (r: TraceGraph)
        ensures
            r.wf(),
            r@.nodes == Seq::<TraceGraphNode>::empty(),
            r@.edges == Seq::<EdgeV>::empty(),
    {
        TraceGraph { backing: pg_new(), nodes: Vec::new() }
    }

    /// Resolve `node` to its identifier, creating it if it is not yet
    /// known. Idempotent: a known node keeps its identifier and the
    /// graph is unchanged.
    #[verifier::loop_isolation(false)]
    pub fn add_node(&mut self, node: TraceGraphNode) -> (i: usize)
        requires
            old(self).wf(),
            old(self)@.nodes.len() < 0xffff_ffff,
        ensures
            final(self).wf(),
            final(self)@ == spec_add_node(old(self)@, node),
            i as nat == spec_node_id(old(self)@, node),
            i < final(self)@.nodes.len(),
            final(self)@.nodes[i as int] == node,
            final(self)@.edges == old(self)@.edges,
    {
        let mut i: usize = 0;
        while i < self.nodes.len()
            invariant
                i <= self.nodes@.len(),
                forall|j: int| 0 <= j < i ==> self.nodes@[j] != node,
            decreases self.nodes@.len() - i,
        {
            if self.nodes[i] == node {
                proof {
                    assert(old(self)@.nodes.contains(node));
                    let k = old(self)@.nodes.index_of(node);
                    assert(0 <= k < old(self)@.nodes.len() && old(self)@.nodes[k] == node);
                    assert(k == i) by {
                        if k < i {
                            assert(old(self)@.nodes[k] != node);
                        }
                        if k > i {
                            assert(old(self)@.nodes[i as int] != old(self)@.nodes[k]);
                        }
                    }
                    assert(spec_add_node(old(self)@, node) =~= old(self)@);
                }
                return i;
            }
            i = i + 1;
        }
        proof {
            assert(!old(self)@.nodes.contains(node)) by {
                if old(self)@.nodes.contains(node) {
                    let k = choose|k: int| 0 <= k < old(self)@.nodes.len() && old(self)@.nodes[k] == node;
                    assert(old(self)@.nodes[k] != node);
                }
            }
        }
        let idx = pg_add_node(&mut self.backing, node);
        self.nodes.push(node);
        proof {
            assert(self@ =~= spec_add_node(old(self)@, node));
            assert(graph_wf(self@)) by {
                assert(forall|a: int, b: int| 0 <= a < b < self@.nodes.len() ==> self@.nodes[a] != self@.nodes[b]) by {
                    assert(forall|a: int| 0 <= a < old(self)@.nodes.len() ==> self@.nodes[a] == old(self)@.nodes[a]);
                }
            }
        }
        idx
    }

    /// The node value a known identifier denotes.
    pub fn node_at(&self, i: usize) -> (r: TraceGraphNode)
        requires
            self.wf(),
            i < self@.nodes.len(),
        ensures
            r == self@.nodes[i as int],
    {
        self.nodes[i]
    }

    /// Look up the identifier of a node already known to the graph.
    #[verifier::loop_isolation(false)]
    pub fn find_node(&self, node: TraceGraphNode) -> (r: Option<usize>)
        requires
            self.wf(),
        ensures
            r is Some <==> self@.nodes.contains(node),
            r matches Some(i) ==> i < self@.nodes.len() && self@.nodes[i as int] == node
                && i as nat == spec_node_id(self@, node),
    {
        let mut i: usize = 0;
        while i < self.nodes.len()
            invariant
                i <= self.nodes@.len(),
                forall|j: int| 0 <= j < i ==> self.nodes@[j] != node,
            decreases self.nodes@.len() - i,
        {
            if self.nodes[i] == node {
                proof {
                    assert(self@.nodes.contains(node));
                    let k = self@.nodes.index_of(node);
                    assert(0 <= k < self@.nodes.len() && self@.nodes[k] == node);
                    assert(k == i) by {
                        if k < i {
                            assert(self@.nodes[k] != node);
                        }
                        if k > i {
                            assert(self@.nodes[i as int] != self@.nodes[k]);
                        }
                    }
                }
                return Some(i);
            }
            i = i + 1;
        }
        proof {
            assert(!self@.nodes.contains(node)) by {
                if self@.nodes.contains(node) {
                    let k = choose|k: int| 0 <= k < self@.nodes.len() && self@.nodes[k] == node;
                    assert(self@.nodes[k] != node);
                }
            }
        }
        None
    }

    /// The incoming edges of the node `i` denotes, newest first, as
    /// (source identifier, label) pairs.
    pub fn incoming_edges(&self, i: usize) -> (r: Vec<(usize, SymbolSets)>)
        requires
            self.wf(),
            i < self@.nodes.len(),
        ensures
            pairs_view(r@) == incoming_of(self@.edges, i as nat),
    {
        pg_incoming(&self.backing, i)
    }

    /// A well-formed store has a well-formed model.
    pub proof fn lemma_wf(&self)
        requires
            self.wf(),
        ensures
            graph_wf(self@),
    {
    }

    /// Insert the edge `from -> to` labeled `labels`, creating the
    /// endpoints as needed. A second call with an identical triple is
    /// a no-op.
    #[verifier::loop_isolation(false)]
    pub fn add_edge(&mut self, from: TraceGraphNode, to: TraceGraphNode, labels: SymbolSets)
        requires
            old(self).wf(),
            old(self)@.nodes.len() + 2 <= 0xffff_ffff,
            old(self)@.edges.len() < 0xffff_ffff,
        ensures
            final(self).wf(),
            final(self)@ == spec_add_edge(old(self)@, from, to, labels@),
    {
        let ghost g0 = self@;
        let f = self.add_node(from);
        let ghost g1 = self@;
        let t = self.add_node(to);
        let ghost g2 = self@;
        let ghost e = (EdgeV { from: f as nat, to: t as nat, label: labels@ });
        proof {
            assert(spec_add_edge(g0, from, to, labels@) == (if g2.edges.contains(e) {
                g2
            } else {
                GraphV { nodes: g2.nodes, edges: g2.edges.push(e) }
            }));
        }
        let out = pg_outgoing(&self.backing, f);
        let mut k: usize = 0;
        while k < out.len()
            invariant
                k <= out@.len(),
                forall|j: int| 0 <= j < k ==> pairs_view(out@)[j] != ((t as nat, labels@)),
            decreases out@.len() - k,
        {
            let same_target = out[k].0 == t;
            if same_target && symbol_sets_eq(&out[k].1, &labels) {
                proof {
                    assert(pairs_view(out@)[k as int] =~= ((t as nat, labels@)));
                    assert(pairs_view(out@).contains(((t as nat, labels@))));
                    lemma_outgoing_contains(g2.edges, f as nat, ((t as nat, labels@)));
                    assert(g2.edges.contains(e));
                }
                return;
            }
            k = k + 1;
        }
        proof {
            assert(!g2.edges.contains(e)) by {
                lemma_outgoing_contains(g2.edges, f as nat, ((t as nat, labels@)));
                if outgoing_of(g2.edges, f as nat).contains(((t as nat, labels@))) {
                    let j = choose|j: int| 0 <= j < pairs_view(out@).len()
                        && pairs_view(out@)[j] == ((t as nat, labels@));
                    assert(pairs_view(out@)[j] != ((t as nat, labels@)));
                }
            }
        }
        pg_add_edge(&mut self.backing, f, t, labels);
        proof {
            assert(self@ =~= (GraphV { nodes: g2.nodes, edges: g2.edges.push(e) }));
            assert(graph_wf(self@)) by {
                assert(forall|a: int| 0 <= a < g2.edges.len() ==> self@.edges[a] == g2.edges[a]);
                assert(self@.edges[g2.edges.len() as int] == e);
                assert(forall|a: int, b: int| 0 <= a < b < self@.edges.len() ==> self@.edges[a] != self@.edges[b]) by {
                    assert(forall|a: int| 0 <= a < g2.edges.len() ==> #[trigger] g2.edges[a] != e) by {
                        if exists|a: int| 0 <= a < g2.edges.len() && #[trigger] g2.edges[a] == e {
                            let a = choose|a: int| 0 <= a < g2.edges.len() && #[trigger] g2.edges[a] == e;
                            assert(g2.edges.contains(e));
                        }
                    }
                }
            }
        }
    }
}

impl From<NonterminalString> for TraceGraphNode {
    fn from(n: NonterminalString) -> (r: TraceGraphNode) {
        TraceGraphNode::Nonterminal(n)
    }
}

impl vstd::std_specs::convert::FromSpecImpl<NonterminalString> for TraceGraphNode {
    open spec fn obeys_from_spec() -> bool {
        true
    }

    open spec fn from_spec(n: NonterminalString) -> TraceGraphNode {
        TraceGraphNode::Nonterminal(n)
    }
}

impl From<Lr0Item> for TraceGraphNode {
    fn from(i: Lr0Item) -> (r: TraceGraphNode) {
        TraceGraphNode::Item(i)
    }
}

impl vstd::std_specs::convert::FromSpecImpl<Lr0Item> for TraceGraphNode {
    open spec fn obeys_from_spec() -> bool {
        true
    }

    open spec fn from_spec(i: Lr0Item) -> TraceGraphNode {
        TraceGraphNode::Item(i)
    }
}

impl From<Item> for TraceGraphNode {
    fn from(i: Item) -> (r: TraceGraphNode) {
        TraceGraphNode::Item(i.to_lr0())
    }
}

impl vstd::std_specs::convert::FromSpecImpl<Item> for TraceGraphNode {
    open spec fn obeys_from_spec() -> bool {
        true
    }

    open spec fn from_spec(i: Item) -> TraceGraphNode {
        TraceGraphNode::Item(Lr0Item { production: i.production, index: i.index })
    }
}

/// In a duplicate-free table a value sits at one position only.
proof fn lemma_index_of_unique(b: Seq<TraceGraphNode>, n: TraceGraphNode, p: int)
    requires
        forall|i: int, j: int| 0 <= i < j < b.len() ==> b[i] != b[j],
        0 <= p < b.len(),
        b[p] == n,
    ensures
        b.contains(n),
        b.index_of(n) == p,
{
    assert(b.contains(n));
    let j = b.index_of(n);
    assert(0 <= j < b.len() && b[j] == n);
    if j < p {
        assert(b[j] != b[p]);
    }
    if p < j {
        assert(b[p] != b[j]);
    }
}

/// Adding an identical (source, destination, label) triple a second
/// time changes nothing: the edge count between the endpoints, and the
/// whole graph, stay as after the first insertion.
pub proof fn lemma_add_edge_idempotent(
    g: GraphV,
    f: TraceGraphNode,
    t: TraceGraphNode,
    l: SymbolSetsV,
)
    requires
        forall|i: int, j: int| 0 <= i < j < g.nodes.len() ==> g.nodes[i] != g.nodes[j],
    ensures
        spec_add_edge(spec_add_edge(g, f, t, l), f, t, l) == spec_add_edge(g, f, t, l),
{
    let g1 = spec_add_node(g, f);
    let g2 = spec_add_node(g1, t);
    let fi = spec_node_id(g, f);
    let ti = spec_node_id(g1, t);
    let e = (EdgeV { from: fi, to: ti, label: l });
    let ga = spec_add_edge(g, f, t, l);
    assert(ga.nodes == g2.nodes);
    assert(ga.edges.contains(e)) by {
        if !g2.edges.contains(e) {
            assert(ga.edges == g2.edges.push(e));
            assert(ga.edges[ga.edges.len() as int - 1] == e);
        }
    }
    // The extended table stays duplicate-free.
    assert(forall|i: int, j: int| 0 <= i < j < g1.nodes.len() ==> g1.nodes[i] != g1.nodes[j]) by {
        if !g.nodes.contains(f) {
            assert(forall|i: int| 0 <= i < g.nodes.len() ==> g.nodes[i] != f) by {
                if exists|i: int| 0 <= i < g.nodes.len() && g.nodes[i] == f {
                    let i = choose|i: int| 0 <= i < g.nodes.len() && g.nodes[i] == f;
                    assert(g.nodes.contains(f));
                }
            }
        }
    }
    assert(forall|i: int, j: int| 0 <= i < j < g2.nodes.len() ==> g2.nodes[i] != g2.nodes[j]) by {
        if !g1.nodes.contains(t) {
            assert(forall|i: int| 0 <= i < g1.nodes.len() ==> g1.nodes[i] != t) by {
                if exists|i: int| 0 <= i < g1.nodes.len() && g1.nodes[i] == t {
                    let i = choose|i: int| 0 <= i < g1.nodes.len() && g1.nodes[i] == t;
                    assert(g1.nodes.contains(t));
                }
            }
        }
    }
    // Both endpoints sit in the final table exactly at their resolved
    // identifiers.
    assert(g2.nodes[fi as int] == f) by {
        if g.nodes.contains(f) {
            assert(g.nodes[fi as int] == f);
        } else {
            assert(g1.nodes[fi as int] == f);
        }
    }
    assert(g2.nodes[ti as int] == t) by {
        if g1.nodes.contains(t) {
            assert(g1.nodes[ti as int] == t);
        }
    }
    lemma_index_of_unique(g2.nodes, f, fi as int);
    lemma_index_of_unique(g2.nodes, t, ti as int);
    // A second insertion resolves the same identifiers, finds the edge
    // and leaves the graph alone.
    assert(spec_add_node(ga, f) == ga);
    assert(spec_add_node(ga, t) == ga);
    assert(spec_node_id(ga, f) == fi);
    assert(spec_node_id(spec_add_node(ga, f), t) == ti);
    assert(spec_add_edge(ga, f, t, l) == ga);
}

} // verus!
