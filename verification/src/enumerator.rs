//! The path enumerator: a resumable, cycle-avoiding backward
//! depth-first search over a frozen trace graph. From a target item it
//! walks incoming edges, one explicit stack frame per node with a
//! cursor over that node's not-yet-visited incoming edges, and
//! assembles one concrete trace per simple path found.

use vstd::prelude::*;

use vstd::arithmetic::power::lemma_pow1;
use vstd::arithmetic::power::lemma_pow_adds;
use vstd::arithmetic::power::lemma_pow_positive;
use vstd::arithmetic::power::pow;
use vstd::set_lib::lemma_int_range;
use vstd::set_lib::lemma_len_subset;
use vstd::set_lib::set_int_range;

use crate::graph::EdgeV;
use crate::graph::GraphV;
use crate::graph::TraceGraph;
use crate::graph::TraceGraphNode;
use crate::graph::incoming_of;
use crate::graph::lemma_incoming_contains;
use crate::graph::pairs_view;
use crate::graph::spec_node_id;
use crate::symbols::Lr0Item;
use crate::symbols::Symbol;
use crate::symbols::SymbolSets;
use crate::symbols::SymbolSetsV;
use crate::symbols::append_symbols;
use crate::symbols::copy_symbol_sets;
use crate::symbols::copy_symbols;

verus! {

/// The one failure of this module: asking for paths from an item that
/// was never inserted into the graph.
#[derive(Clone, Copy, PartialEq, Eq, Structural, Debug)]
pub enum TraceGraphError {
    UnknownItem,
}

/// One search frame: a node identifier, the label of the edge that led
/// here from the frame below, and a cursor over the node's incoming
/// edges.
pub struct EnumeratorState {
    index: usize,
    symbol_sets: SymbolSets,
    rest: Vec<(usize, SymbolSets)>,
    pos: usize,
}

/// The mathematical value of a search frame.
#[verifier::ext_equal]
pub ghost struct FrameV {
    pub index: nat,
    pub label: SymbolSetsV,
    pub rest: Seq<(nat, SymbolSetsV)>,
    pub pos: nat,
}

impl View for EnumeratorState {
    type V = FrameV;

    closed spec fn view(&self) -> FrameV {
        FrameV {
            index: self.index as nat,
            label: self.symbol_sets@,
            rest: pairs_view(self.rest@),
            pos: self.pos as nat,
        }
    }
}

/// The empty edge label.
pub open spec fn empty_label() -> SymbolSetsV {
    SymbolSetsV { prefix: Seq::empty(), cursor: None, suffix: Seq::empty() }
}

/// The frame the search pushes for node `i` reached over label `l`:
/// its cursor starts at the node's full incoming-edge list.
pub open spec fn frame_for(g: GraphV, i: nat, l: SymbolSetsV) -> FrameV {
    FrameV { index: i, label: l, rest: incoming_of(g.edges, i), pos: 0 }
}

/// Whether identifier `i` denotes an `Item` node of `g`.
pub open spec fn node_is_item(g: GraphV, i: nat) -> bool {
    g.nodes[i as int] is Item
}

/// Whether some frame of the stack already holds identifier `i`.
pub open spec fn on_stack(s: Seq<FrameV>, i: nat) -> bool {
    exists|k: int| 0 <= k < s.len() && s[k].index == i
}

/// A state where the search pauses: exhausted (empty stack), or a
/// found trace (an `Item` frame, freshly pushed, above the target).
pub open spec fn resting(g: GraphV, s: Seq<FrameV>) -> bool {
    s.len() == 0 || (s.len() >= 2 && node_is_item(g, s.last().index) && s.last().pos == 0)
}

/// One iteration of the search-advance procedure, the identity on
/// resting states: backtrack past an exhausted cursor, or take the
/// next incoming edge — stopping on an `Item` node, skipping a
/// candidate already on the stack (a cycle), descending otherwise.
pub open spec fn step(g: GraphV, s: Seq<FrameV>) -> Seq<FrameV> {
    if resting(g, s) {
        s
    } else {
        let top = s.last();
        if top.pos >= top.rest.len() {
            s.drop_last()
        } else {
            let c = top.rest[top.pos as int];
            let s1 = s.update(
                s.len() as int - 1,
                FrameV { index: top.index, label: top.label, rest: top.rest, pos: top.pos + 1 },
            );
            if node_is_item(g, c.0) {
                s1.push(frame_for(g, c.0, c.1))
            } else if on_stack(s1, c.0) {
                s1
            } else {
                s1.push(frame_for(g, c.0, c.1))
            }
        }
    }
}

/// `n` iterations of the search-advance procedure.
pub open spec fn iterate(g: GraphV, s: Seq<FrameV>, n: nat) -> Seq<FrameV>
    decreases n,
{
    if n == 0 {
        s
    } else {
        step(g, iterate(g, s, (n - 1) as nat))
    }
}

/// The prefix block of a found stack: the `prefix` sequences of the
/// frames' labels, innermost (top, the start item) first.
pub open spec fn prefix_block(s: Seq<FrameV>) -> Seq<Symbol>
    decreases s.len(),
{
    if s.len() == 0 {
        Seq::empty()
    } else {
        s.last().label.prefix + prefix_block(s.drop_last())
    }
}

/// The suffix block: the `suffix` sequences of the frames' labels,
/// bottom (target) to top (start item).
pub open spec fn suffix_block(s: Seq<FrameV>) -> Seq<Symbol>
    decreases s.len(),
{
    if s.len() == 0 {
        Seq::empty()
    } else {
        suffix_block(s.drop_last()) + s.last().label.suffix
    }
}

/// The single cursor symbol, taken from the label of the frame next to
/// the target, if present.
pub open spec fn cursor_sym(s: Seq<FrameV>) -> Seq<Symbol> {
    if s.len() >= 2 {
        match s[1].label.cursor {
            Some(x) => seq![x],
            None => Seq::empty(),
        }
    } else {
        Seq::empty()
    }
}

/// The full trace a found stack assembles to; the cursor offset is
/// `prefix_block(s).len()`.
pub open spec fn assembled(s: Seq<FrameV>) -> Seq<Symbol> {
    prefix_block(s) + cursor_sym(s) + suffix_block(s)
}

/// The incoming-edge list of a node never outgrows the edge list.
pub proof fn lemma_incoming_len(edges: Seq<EdgeV>, t: nat)
    ensures
        incoming_of(edges, t).len() <= edges.len(),
    decreases edges.len(),
{
    reveal_with_fuel(crate::graph::incoming_of, 2);
    if edges.len() > 0 {
        lemma_incoming_len(edges.drop_last(), t);
    }
}

/// Edges the frame's cursor has not yet visited.
pub open spec fn rem(f: FrameV) -> nat {
    if f.pos <= f.rest.len() {
        (f.rest.len() - f.pos) as nat
    } else {
        0
    }
}

/// The radix of the search potential: larger than any cursor remainder.
pub open spec fn pot_base(g: GraphV) -> int {
    g.edges.len() as int + 2
}

/// One past the deepest stack the search can build.
pub open spec fn pot_depth(g: GraphV) -> int {
    g.nodes.len() as int + 3
}

/// The search potential: each frame weighs its remaining edges, with
/// outer frames infinitely heavier than anything below them. Every
/// search step strictly shrinks it, which bounds the depth-first
/// search.
#[verifier::opaque]
pub open spec fn pot(g: GraphV, s: Seq<FrameV>) -> int
    decreases s.len(),
{
    if s.len() == 0 {
        0
    } else {
        pot(g, s.drop_last()) + (rem(s.last()) + 1) * pow(
            pot_base(g),
            (pot_depth(g) - s.len()) as nat,
        )
    }
}

/// The search potential is never negative; with the strict decrease
/// that `advance` states, an enumerator is therefore exhausted after
/// finitely many pulls.
pub proof fn lemma_pot_nonneg(g: GraphV, s: Seq<FrameV>)
    ensures
        pot(g, s) >= 0,
    decreases s.len(),
{
    reveal_with_fuel(pot, 2);
    if s.len() > 0 {
        lemma_pot_nonneg(g, s.drop_last());
        let p = pow(pot_base(g), (pot_depth(g) - s.len()) as nat);
        lemma_pow_positive(pot_base(g), (pot_depth(g) - s.len()) as nat);
        assert((rem(s.last()) + 1) * p >= 0) by (nonlinear_arith)
            requires
                p >= 1,
        ;
    }
}

/// Bumping the top cursor by one lowers the potential by exactly the
/// weight of the top level.
proof fn lemma_pot_bump(g: GraphV, s: Seq<FrameV>, s1: Seq<FrameV>)
    requires
        s.len() > 0,
        s1.len() == s.len(),
        s1.drop_last() == s.drop_last(),
        rem(s.last()) >= 1,
        rem(s1.last()) == rem(s.last()) - 1,
    ensures
        pot(g, s1) == pot(g, s) - pow(pot_base(g), (pot_depth(g) - s.len()) as nat),
{
    reveal_with_fuel(pot, 2);
    let p = pow(pot_base(g), (pot_depth(g) - s.len()) as nat);
    let a = rem(s1.last()) as int;
    assert((a + 1 + 1) * p - (a + 1) * p == p) by (nonlinear_arith);
}

/// Every frame above the bottom holds a distinct nonterminal node, so
/// the stack never grows past the node count plus one.
#[verifier::rlimit(50)]
proof fn lemma_stack_len_bound(g: GraphV, s: Seq<FrameV>)
    requires
        stack_wf(g, s),
        forall|k: int| 1 <= k < s.len() ==> !node_is_item(g, (#[trigger] s[k]).index),
    ensures
        s.len() <= g.nodes.len() + 1,
{
    if s.len() >= 2 {
        let idxs = s.subrange(1, s.len() as int).map_values(|f: FrameV| f.index as int);
        assert(idxs.len() == s.len() - 1);
        assert(forall|k: int| 0 <= k < idxs.len() ==> idxs[k] == (#[trigger] s[k + 1]).index);
        assert(idxs.no_duplicates()) by {
            assert forall|i: int, j: int|
                0 <= i < idxs.len() && 0 <= j < idxs.len() && i != j implies idxs[i] != idxs[j] by {
                if i < j {
                    assert(!node_is_item(g, s[j + 1].index));
                    assert(s[j + 1].index != s[i + 1].index);
                } else {
                    assert(!node_is_item(g, s[i + 1].index));
                    assert(s[i + 1].index != s[j + 1].index);
                }
            }
        }
        idxs.unique_seq_to_set();
        assert(idxs.to_set().subset_of(set_int_range(0, g.nodes.len() as int))) by {
            assert forall|x: int| idxs.to_set().contains(x) implies set_int_range(
                0,
                g.nodes.len() as int,
            ).contains(x) by {
                assert(idxs.contains(x));
                let k = choose|k: int| 0 <= k < idxs.len() && idxs[k] == x;
                assert(frame_wf(g, s[k + 1]));
            }
        }
        lemma_int_range(0, g.nodes.len() as int);
        lemma_len_subset(idxs.to_set(), set_int_range(0, g.nodes.len() as int));
    }
}

/// Backtracking (dropping the exhausted top frame) lowers the search
/// potential.
proof fn lemma_pot_pop(g: GraphV, s: Seq<FrameV>)
    requires
        s.len() > 0,
    ensures
        pot(g, s.drop_last()) < pot(g, s),
        pot(g, s.drop_last()) >= 0,
{
    reveal_with_fuel(pot, 2);
    lemma_pot_nonneg(g, s.drop_last());
    let p = pow(pot_base(g), (pot_depth(g) - s.len()) as nat);
    lemma_pow_positive(pot_base(g), (pot_depth(g) - s.len()) as nat);
    assert((rem(s.last()) + 1) * p >= 1) by (nonlinear_arith)
        requires
            p >= 1,
    ;
}

/// Consuming an edge without descending lowers the search potential.
proof fn lemma_pot_skip(g: GraphV, s: Seq<FrameV>, s1: Seq<FrameV>)
    requires
        s.len() > 0,
        s1.len() == s.len(),
        s1.drop_last() == s.drop_last(),
        rem(s.last()) >= 1,
        rem(s1.last()) == rem(s.last()) - 1,
    ensures
        pot(g, s1) < pot(g, s),
        pot(g, s1) >= 0,
{
    lemma_pot_bump(g, s, s1);
    lemma_pow_positive(pot_base(g), (pot_depth(g) - s.len()) as nat);
    lemma_pot_nonneg(g, s1);
}

/// Consuming an edge and descending one level still lowers the search
/// potential: the new level weighs less than the edge consumed above.
proof fn lemma_pot_descend(g: GraphV, s: Seq<FrameV>, s1: Seq<FrameV>, f: FrameV)
    requires
        s.len() > 0,
        s1.len() == s.len(),
        s1.drop_last() == s.drop_last(),
        rem(s.last()) >= 1,
        rem(s1.last()) == rem(s.last()) - 1,
        s1.len() + 1 <= g.nodes.len() + 2,
        rem(f) + 1 < pot_base(g),
    ensures
        pot(g, s1.push(f)) < pot(g, s),
        pot(g, s1.push(f)) >= 0,
{
    reveal_with_fuel(pot, 2);
    let s2 = s1.push(f);
    lemma_pot_bump(g, s, s1);
    let b = pot_base(g);
    let e = (pot_depth(g) - s2.len()) as nat;
    assert(pot_depth(g) - s.len() == e + 1);
    lemma_pow_positive(b, e);
    lemma_pow1(b);
    lemma_pow_adds(b, 1, e);
    assert(pow(b, (e + 1) as nat) == b * pow(b, e));
    assert(pot(g, s2) == pot(g, s1) + (rem(f) + 1) * pow(b, e)) by {
        assert(s2.drop_last() =~= s1);
    }
    assert((rem(f) + 1) * pow(b, e) < b * pow(b, e)) by (nonlinear_arith)
        requires
            rem(f) + 1 < b,
            pow(b, e) >= 1,
    ;
    lemma_pot_nonneg(g, s2);
}

/// Bumping the top cursor by one preserves the stack invariant.
proof fn lemma_wf_bump(g: GraphV, s: Seq<FrameV>, s1: Seq<FrameV>)
    requires
        stack_wf(g, s),
        s.len() > 0,
        s.last().pos < s.last().rest.len(),
        s1 == s.update(
            s.len() as int - 1,
            FrameV { index: s.last().index, label: s.last().label, rest: s.last().rest, pos: s.last().pos + 1 },
        ),
    ensures
        stack_wf(g, s1),
        s1.len() == s.len(),
        s1.drop_last() == s.drop_last(),
        s1.last().index == s.last().index,
        s1.last().pos >= 1,
        rem(s1.last()) == rem(s.last()) - 1,
        rem(s.last()) >= 1,
{
    assert(s1.drop_last() =~= s.drop_last());
    assert(forall|k: int| 0 <= k < s.len() - 1 ==> s1[k] == (#[trigger] s[k]));
    assert(frame_wf(g, s.last()));
    assert(frame_wf(g, s1.last()));
    assert(forall|k: int| 0 <= k < s1.len()
        ==> (#[trigger] s1[k]).index == s[k].index && s1[k].label == s[k].label);
    assert forall|k: int| 1 <= k < s1.len() implies #[trigger] edge_to_parent(g, s1, k) by {
        assert(edge_to_parent(g, s, k));
    }
}

/// Pushing the frame for a fresh candidate preserves the stack
/// invariant.
proof fn lemma_wf_push(g: GraphV, s1: Seq<FrameV>, f: FrameV)
    requires
        stack_wf(g, s1),
        s1.len() > 0,
        frame_wf(g, f),
        f.pos == 0,
        g.edges.contains((EdgeV { from: f.index, to: s1.last().index, label: f.label })),
        s1.len() >= 2 ==> !node_is_item(g, s1.last().index),
        !node_is_item(g, f.index) ==> !on_stack(s1, f.index),
        s1.last().pos >= 1,
    ensures
        stack_wf(g, s1.push(f)),
        resting(g, s1.push(f)) == node_is_item(g, f.index),
{
    let s2 = s1.push(f);
    assert(forall|k: int| 0 <= k < s1.len() ==> s2[k] == (#[trigger] s1[k]));
    assert(s2.last() == f);
    assert(s2[0] == s1[0]);
    assert forall|k: int| 1 <= k < s2.len() implies #[trigger] edge_to_parent(g, s2, k) by {
        if k < s1.len() {
            assert(edge_to_parent(g, s1, k));
        } else {
            assert(s2[k] == f);
            assert(s2[k - 1] == s1.last());
        }
    }
    assert(forall|k: int| 1 <= k < s2.len() - 1 ==> !node_is_item(g, (#[trigger] s2[k]).index)) by {
        if s1.len() >= 2 {
            assert(s2[s1.len() as int - 1] == s1.last());
        }
    }
    assert(forall|i: int, j: int|
        0 <= i < j < s2.len() && !node_is_item(g, (#[trigger] s2[j]).index)
            ==> s2[j].index != (#[trigger] s2[i]).index) by {
        if !node_is_item(g, f.index) {
            assert(forall|i: int| 0 <= i < s1.len() ==> (#[trigger] s1[i]).index != f.index);
        }
    }
    assert(forall|k: int| 0 <= k < s2.len() - 1 ==> (#[trigger] s2[k]).pos >= 1);
}

/// A frame agrees with the graph: known identifier, the cursor list is
/// exactly the node's incoming edges, and the cursor is in bounds.
pub open spec fn frame_wf(g: GraphV, f: FrameV) -> bool {
    &&& f.index < g.nodes.len()
    &&& f.rest == incoming_of(g.edges, f.index)
    &&& f.pos <= f.rest.len()
}

/// Frame `k` of the stack was reached over an edge of the graph from
/// its own node into its parent's node.
pub open spec fn edge_to_parent(g: GraphV, s: Seq<FrameV>, k: int) -> bool {
    g.edges.contains((EdgeV { from: s[k].index, to: s[k - 1].index, label: s[k].label }))
}

/// The search stack invariant: well-formed frames; the bottom frame is
/// the target item; consecutive frames are joined by graph edges; all
/// frames strictly between bottom and top are nonterminal steps; no
/// nonterminal identifier occurs twice (paths are simple); and every
/// frame below the top has already consumed at least one edge.
pub open spec fn stack_wf(g: GraphV, s: Seq<FrameV>) -> bool {
    &&& (forall|k: int| 0 <= k < s.len() ==> frame_wf(g, #[trigger] s[k]))
    &&& (s.len() > 0 ==> node_is_item(g, s[0].index))
    &&& (forall|k: int| 1 <= k < s.len() ==> #[trigger] edge_to_parent(g, s, k))
    &&& (forall|k: int| 1 <= k < s.len() - 1 ==> !node_is_item(g, (#[trigger] s[k]).index))
    &&& (forall|i: int, j: int|
        0 <= i < j < s.len() && !node_is_item(g, (#[trigger] s[j]).index)
            ==> s[j].index != (#[trigger] s[i]).index)
    &&& (forall|k: int| 0 <= k < s.len() - 1 ==> (#[trigger] s[k]).pos >= 1)
}

/// The mathematical value of a path enumerator.
#[verifier::ext_equal]
pub ghost struct EnumeratorV {
    pub graph: GraphV,
    pub stack: Seq<FrameV>,
    pub symbols: Seq<Symbol>,
    pub cursor: nat,
}

/// The path enumerator: a read-only graph reference, the private
/// search stack, and the most recently assembled trace.
pub struct PathEnumerator<'a> {
    graph: &'a TraceGraph,
    stack: Vec<EnumeratorState>,
    symbols: Vec<Symbol>,
    cursor: usize,
}

impl<'a> View for PathEnumerator<'a> {
    type V = EnumeratorV;

    closed spec fn view(&self) -> EnumeratorV {
        EnumeratorV {
            graph: self.graph@,
            stack: self.stack_v(),
            symbols: self.symbols@,
            cursor: self.cursor as nat,
        }
    }
}

impl<'a> PathEnumerator<'a> {
    /// The stack as a sequence of frame values, bottom first.
    pub closed spec fn stack_v(&self) -> Seq<FrameV> {
        self.stack@.map_values(|f: EnumeratorState| f@)
    }

    /// The structural invariant that holds even between search steps.
    pub closed spec fn wf_base(&self) -> bool {
        &&& self.graph.wf()
        &&& stack_wf(self.graph@, self.stack_v())
    }

    /// The invariant between calls: the search rests, and an available
    /// trace is assembled.
    pub closed spec fn wf(&self) -> bool {
        &&& self.wf_base()
        &&& resting(self.graph@, self.stack_v())
        &&& self.stack_v().len() > 0 ==> self.symbols@ == assembled(self.stack_v())
            && self.cursor as nat == prefix_block(self.stack_v()).len()
    }

    /// Whether some frame of the stack holds `idx`.
    #[verifier::loop_isolation(false)]
    fn contains_index(&self, idx: usize) -> (r: bool)
        ensures
            r == on_stack(self.stack_v(), idx as nat),
    {
        let mut k: usize = 0;
        while k < self.stack.len()
            invariant
                k <= self.stack@.len(),
                forall|j: int| 0 <= j < k ==> self.stack_v()[j].index != idx as nat,
            decreases self.stack@.len() - k,
        {
            if self.stack[k].index == idx {
                proof {
                    assert(self.stack_v()[k as int].index == idx as nat);
                }
                return true;
            }
            k = k + 1;
        }
        proof {
            if on_stack(self.stack_v(), idx as nat) {
                let j = choose|j: int| 0 <= j < self.stack_v().len()
                    && self.stack_v()[j].index == idx as nat;
                assert(self.stack_v()[j].index != idx as nat);
            }
        }
        false
    }

    /// Run the search-advance procedure until it rests: `true` when a
    /// trace was found (the stack then ends in a fresh `Item` frame),
    /// `false` when the stack is exhausted. The final stack is some
    /// number of `step`s from the starting one.
    fn find_next_trace(&mut self) -> (r: bool)
        requires
            old(self).wf_base(),
            old(self).stack_v().len() >= 2
                ==> !node_is_item(old(self).graph@, old(self).stack_v().last().index),
        ensures
            final(self).wf_base(),
            final(self).graph == old(self).graph,
            final(self).symbols == old(self).symbols,
            final(self).cursor == old(self).cursor,
            exists|n: nat| final(self).stack_v() == iterate(old(self).graph@, old(self).stack_v(), n),
            resting(old(self).graph@, final(self).stack_v()),
            r == (final(self).stack_v().len() > 0),
            pot(old(self).graph@, final(self).stack_v()) <= pot(
                old(self).graph@,
                old(self).stack_v(),
            ),
    {
        let ghost g = self.graph@;
        let ghost s0 = self.stack_v();
        let ghost mut n: nat = 0;
        proof {
            assert(self.stack_v() == iterate(g, s0, n));
        }
        loop
            invariant
                self.wf_base(),
                self.graph == old(self).graph,
                self.symbols == old(self).symbols,
                self.cursor == old(self).cursor,
                g == old(self).graph@,
                s0 == old(self).stack_v(),
                self.stack_v() == iterate(g, s0, n),
                self.stack_v().len() >= 2 ==> !node_is_item(g, self.stack_v().last().index),
                pot(g, self.stack_v()) <= pot(g, s0),
            decreases pot(g, self.stack_v()),
        {
            let ghost s_pre = self.stack_v();
            if self.stack.len() == 0 {
                proof {
                    assert(resting(g, s_pre));
                    assert(exists|m: nat| self.stack_v() == iterate(g, s0, m)) by {
                        assert(self.stack_v() == iterate(g, s0, n));
                    }
                }
                return false;
            }
            proof {
                assert(!resting(g, s_pre));
            }
            let top_i = self.stack.len() - 1;
            let cur = self.stack[top_i].pos;
            let total = self.stack[top_i].rest.len();
            proof {
                assert(s_pre.last() == self.stack@[top_i as int]@);
                assert(cur as nat == s_pre.last().pos);
                assert(total as nat == s_pre.last().rest.len()) by {
                    assert(s_pre.last().rest == pairs_view(self.stack@[top_i as int].rest@));
                }
            }
            if cur >= total {
                self.stack.pop();
                proof {
                    assert(self.stack_v() =~= s_pre.drop_last());
                    assert(step(g, s_pre) == s_pre.drop_last());
                    n = n + 1;
                    assert(self.stack_v() == iterate(g, s0, n));
                    assert(forall|k: int| 0 <= k < self.stack_v().len()
                        ==> #[trigger] self.stack_v()[k] == s_pre[k]);
                    assert forall|k: int| 1 <= k < self.stack_v().len()
                        implies #[trigger] edge_to_parent(g, self.stack_v(), k) by {
                        assert(edge_to_parent(g, s_pre, k));
                    }
                    assert(stack_wf(g, self.stack_v()));
                    if self.stack_v().len() >= 2 {
                        assert(!node_is_item(g, self.stack_v().last().index)) by {
                            assert(self.stack_v().last() == s_pre[s_pre.len() as int - 2]);
                        }
                    }
                    lemma_pot_pop(g, s_pre);
                }
            } else {
                let mut top = self.stack.pop().unwrap();
                let src = top.rest[cur].0;
                let lab = copy_symbol_sets(&top.rest[cur].1);
                let ghost c = s_pre.last().rest[cur as int];
                proof {
                    assert(c == (src as nat, lab@)) by {
                        assert(s_pre.last().rest == pairs_view(top.rest@));
                        assert(pairs_view(top.rest@)[cur as int]
                            == (top.rest@[cur as int].0 as nat, top.rest@[cur as int].1@));
                    }
                }
                top.pos = cur + 1;
                self.stack.push(top);
                let ghost s1 = self.stack_v();
                proof {
                    assert(s1 =~= s_pre.update(
                        s_pre.len() as int - 1,
                        FrameV {
                            index: s_pre.last().index,
                            label: s_pre.last().label,
                            rest: s_pre.last().rest,
                            pos: s_pre.last().pos + 1,
                        },
                    ));
                    lemma_wf_bump(g, s_pre, s1);
                    // The candidate is an incoming edge of the old top,
                    // hence an edge of the graph with a known source.
                    assert(incoming_of(g.edges, s_pre.last().index).contains(c)) by {
                        assert(frame_wf(g, s_pre.last()));
                        assert(s_pre.last().rest[cur as int] == c);
                    }
                    lemma_incoming_contains(g.edges, s_pre.last().index, c);
                    assert(g.edges.contains((EdgeV { from: c.0, to: s_pre.last().index, label: c.1 })));
                    self.graph.lemma_wf();
                    assert(c.0 < g.nodes.len()) by {
                        let i = choose|i: int| 0 <= i < g.edges.len()
                            && g.edges[i] == (EdgeV { from: c.0, to: s_pre.last().index, label: c.1 });
                        assert(g.edges[i].from < g.nodes.len());
                    }
                }
                let node = self.graph.node_at(src);
                let is_item = match node {
                    TraceGraphNode::Item(_) => true,
                    TraceGraphNode::Nonterminal(_) => false,
                };
                proof {
                    assert(is_item == node_is_item(g, c.0));
                }
                if is_item {
                    let rest = self.graph.incoming_edges(src);
                    self.stack.push(EnumeratorState { index: src, symbol_sets: lab, rest, pos: 0 });
                    proof {
                        let f = frame_for(g, src as nat, lab@);
                        assert(self.stack_v() =~= s1.push(f));
                        assert(step(g, s_pre) == self.stack_v());
                        n = n + 1;
                        assert(self.stack_v() == iterate(g, s0, n));
                        lemma_wf_push(g, s1, f);
                        assert(resting(g, self.stack_v()));
                        assert(exists|m: nat| self.stack_v() == iterate(g, s0, m)) by {
                            assert(self.stack_v() == iterate(g, s0, n));
                        }
                        assert(forall|k: int| 1 <= k < s1.len()
                            ==> !node_is_item(g, (#[trigger] s1[k]).index)) by {
                            if s_pre.len() >= 2 {
                                assert(!node_is_item(g, s1[s1.len() as int - 1].index));
                            }
                        }
                        lemma_stack_len_bound(g, s1);
                        lemma_incoming_len(g.edges, src as nat);
                        lemma_pot_descend(g, s_pre, s1, f);
                    }
                    return true;
                } else {
                    if !self.contains_index(src) {
                        let rest = self.graph.incoming_edges(src);
                        self.stack.push(EnumeratorState { index: src, symbol_sets: lab, rest, pos: 0 });
                        proof {
                            let f = frame_for(g, src as nat, lab@);
                            assert(self.stack_v() =~= s1.push(f));
                            assert(step(g, s_pre) == self.stack_v());
                            n = n + 1;
                            assert(self.stack_v() == iterate(g, s0, n));
                            lemma_wf_push(g, s1, f);
                            assert(!node_is_item(g, self.stack_v().last().index));
                            // The top level lost one edge, which outweighs
                            // the freshly pushed level.
                            let s2 = self.stack_v();
                            assert(forall|k: int| 1 <= k < s2.len()
                                ==> !node_is_item(g, (#[trigger] s2[k]).index)) by {
                                if s_pre.len() >= 2 {
                                    assert(!node_is_item(g, s1[s1.len() as int - 1].index));
                                }
                            }
                            lemma_stack_len_bound(g, s2);
                            lemma_incoming_len(g.edges, src as nat);
                            lemma_pot_descend(g, s_pre, s1, f);
                        }
                    } else {
                        proof {
                            assert(self.stack_v() == s1);
                            assert(step(g, s_pre) == s1);
                            n = n + 1;
                            assert(self.stack_v() == iterate(g, s0, n));
                            if s1.len() >= 2 {
                                assert(!node_is_item(g, s1.last().index)) by {
                                    assert(s1.last().index == s_pre.last().index);
                                }
                            }
                            lemma_pot_skip(g, s_pre, s1);
                        }
                    }
                }
            }
        }
    }


    /// Assemble the symbols vector and cursor offset for the found
    /// stack: the prefix block top-down, the cursor symbol of the
    /// frame next to the target, then the suffixes bottom-up.
    #[verifier::loop_isolation(false)]
    fn found_trace(&mut self)
        requires
            old(self).wf_base(),
            old(self).stack_v().len() >= 2,
        ensures
            final(self).wf_base(),
            final(self).graph == old(self).graph,
            final(self).stack_v() == old(self).stack_v(),
            final(self).symbols@ == assembled(old(self).stack_v()),
            final(self).cursor as nat == prefix_block(old(self).stack_v()).len(),
    {
        let ghost s = self.stack_v();
        self.symbols = Vec::new();
        let mut k: usize = self.stack.len();
        proof {
            assert(s.take(s.len() as int) =~= s);
        }
        while k > 0
            invariant
                k <= self.stack@.len(),
                self.graph == old(self).graph,
                self.stack@ == old(self).stack@,
                self.stack_v() == s,
                prefix_block(s) == self.symbols@ + prefix_block(s.take(k as int)),
            decreases k,
        {
            k = k - 1;
            append_symbols(&mut self.symbols, &self.stack[k].symbol_sets.prefix);
            proof {
                assert(s.take(k as int + 1).drop_last() =~= s.take(k as int));
                assert(s.take(k as int + 1).last() == s[k as int]);
                assert(prefix_block(s.take(k as int + 1))
                    == s[k as int].label.prefix + prefix_block(s.take(k as int)));
                assert(s[k as int].label.prefix == self.stack@[k as int].symbol_sets@.prefix);
                assert(prefix_block(s) == self.symbols@ + prefix_block(s.take(k as int)));
            }
        }
        proof {
            assert(s.take(0) =~= Seq::<FrameV>::empty());
            assert(prefix_block(s.take(0)) == Seq::<Symbol>::empty());
            assert(self.symbols@ =~= prefix_block(s));
        }
        self.cursor = self.symbols.len();
        let c = self.stack[1].symbol_sets.cursor;
        match c {
            Some(x) => self.symbols.push(x),
            None => {}
        }
        proof {
            assert(s[1] == self.stack@[1]@);
            assert(self.symbols@ =~= prefix_block(s) + cursor_sym(s));
        }
        let mut k: usize = 0;
        proof {
            assert(s.take(0) =~= Seq::<FrameV>::empty());
            assert(self.symbols@ =~= prefix_block(s) + cursor_sym(s) + suffix_block(s.take(0)));
        }
        while k < self.stack.len()
            invariant
                k <= self.stack@.len(),
                self.graph == old(self).graph,
                self.stack@ == old(self).stack@,
                self.stack_v() == s,
                self.cursor as nat == prefix_block(s).len(),
                self.symbols@ == prefix_block(s) + cursor_sym(s) + suffix_block(s.take(k as int)),
            decreases self.stack@.len() - k,
        {
            append_symbols(&mut self.symbols, &self.stack[k].symbol_sets.suffix);
            k = k + 1;
            proof {
                assert(s.take(k as int).drop_last() =~= s.take(k as int - 1));
                assert(s.take(k as int).last() == s[k as int - 1]);
                assert(suffix_block(s.take(k as int))
                    == suffix_block(s.take(k as int - 1)) + s[k as int - 1].label.suffix);
                assert(s[k as int - 1].label.suffix
                    == self.stack@[k as int - 1].symbol_sets@.suffix);
                assert(self.symbols@ =~= prefix_block(s) + cursor_sym(s) + suffix_block(
                    s.take(k as int),
                ));
            }
        }
        proof {
            assert(s.take(s.len() as int) =~= s);
            assert(self.symbols@ == assembled(s));
        }
    }

    /// Advance to the next trace, returning `false` once none remain.
    /// Once exhausted, the enumerator stays exhausted for good.
    pub fn advance(&mut self) -> (r: bool)
        requires
            old(self).wf(),
        ensures
            final(self).wf(),
            final(self)@.graph == old(self)@.graph,
            old(self)@.stack.len() == 0 ==> final(self)@ == old(self)@ && r == false,
            old(self)@.stack.len() > 0 ==> (exists|n: nat|
                final(self)@.stack == iterate(
                    old(self)@.graph,
                    old(self)@.stack.drop_last(),
                    n,
                )) && resting(old(self)@.graph, final(self)@.stack),
            old(self)@.stack.len() > 0 ==> final(self)@.stack == search_rest(
                old(self)@.graph,
                old(self)@.stack.drop_last(),
            ),
            old(self)@.stack.len() > 0 ==> pot(old(self)@.graph, final(self)@.stack) < pot(
                old(self)@.graph,
                old(self)@.stack,
            ),
            r == (final(self)@.stack.len() > 0),
    {
        let ghost g = self.graph@;
        let ghost s_old = self.stack_v();
        let got = self.stack.pop();
        match got {
            None => {
                proof {
                    assert(self@ =~= old(self)@);
                }
                false
            }
            Some(_) => {
                proof {
                    // The popped frame is the found item; what remains is
                    // a well-formed search stack whose top is no item.
                    let s = self.stack_v();
                    assert(s =~= s_old.drop_last());
                    assert(forall|k: int| 0 <= k < s.len() ==> #[trigger] s[k] == s_old[k]);
                    assert forall|k: int| 1 <= k < s.len()
                        implies #[trigger] edge_to_parent(g, s, k) by {
                        assert(edge_to_parent(g, s_old, k));
                    }
                    assert(stack_wf(g, s));
                    if s.len() >= 2 {
                        assert(!node_is_item(g, s.last().index)) by {
                            assert(s.last() == s_old[s_old.len() as int - 2]);
                        }
                    }
                }
                let found = self.find_next_trace();
                if found {
                    self.found_trace();
                }
                proof {
                    assert(s_old.drop_last() == old(self)@.stack.drop_last());
                    lemma_pot_pop(g, s_old);
                    let t = self.stack_v();
                    let m = choose|m: nat| t == iterate(g, s_old.drop_last(), m);
                    lemma_search_rest(g, s_old.drop_last(), t, m);
                }
                found
            }
        }
    }

    /// Standard iteration: return the current trace, then advance past
    /// it; nothing once exhausted.
    pub fn next_trace(&mut self) -> (r: Option<(Vec<Symbol>, usize)>)
        requires
            old(self).wf(),
        ensures
            final(self).wf(),
            final(self)@.graph == old(self)@.graph,
            r is Some <==> old(self)@.stack.len() > 0,
            r matches Some((v, c)) ==> v@ == old(self)@.symbols && c as nat == old(self)@.cursor,
            old(self)@.stack.len() == 0 ==> final(self)@ == old(self)@,
            old(self)@.stack.len() > 0 ==> (exists|n: nat|
                final(self)@.stack == iterate(
                    old(self)@.graph,
                    old(self)@.stack.drop_last(),
                    n,
                )) && resting(old(self)@.graph, final(self)@.stack),
            old(self)@.stack.len() > 0 ==> final(self)@.stack == search_rest(
                old(self)@.graph,
                old(self)@.stack.drop_last(),
            ) && pot(old(self)@.graph, final(self)@.stack) < pot(
                old(self)@.graph,
                old(self)@.stack,
            ),
    {
        let cur = match self.symbols_and_cursor() {
            Some((v, c)) => Some((copy_symbols(v), c)),
            None => None,
        };
        self.advance();
        cur
    }

    /// Create an enumerator rooted at the known item node `start`,
    /// already advanced to its first trace, if any.
    fn new(graph: &'a TraceGraph, start: usize) -> (r: Self)
        requires
            graph.wf(),
            start < graph@.nodes.len(),
            node_is_item(graph@, start as nat),
        ensures
            r.wf(),
            r@.graph == graph@,
            exists|n: nat| r@.stack == iterate(
                graph@,
                seq![frame_for(graph@, start as nat, empty_label())],
                n,
            ),
            resting(graph@, r@.stack),
            r@.stack == search_rest(graph@, seq![frame_for(graph@, start as nat, empty_label())]),
    {
        let rest = graph.incoming_edges(start);
        let mut e = PathEnumerator { graph, stack: Vec::new(), symbols: Vec::new(), cursor: 0 };
        e.stack.push(EnumeratorState { index: start, symbol_sets: SymbolSets::new(), rest, pos: 0 });
        proof {
            assert(e.stack_v() =~= seq![frame_for(graph@, start as nat, empty_label())]);
            let s = e.stack_v();
            assert(frame_wf(graph@, s[0]));
            assert(stack_wf(graph@, s));
        }
        let found = e.find_next_trace();
        if found {
            e.found_trace();
        }
        proof {
            let s0 = seq![frame_for(graph@, start as nat, empty_label())];
            let t = e.stack_v();
            let m = choose|m: nat| t == iterate(graph@, s0, m);
            lemma_search_rest(graph@, s0, t, m);
        }
        e
    }

    /// Return the symbols and cursor of the current trace, or nothing
    /// once enumeration is exhausted.
    pub fn symbols_and_cursor(&self) -> (r: Option<(&Vec<Symbol>, usize)>)
        ensures
            r is Some <==> self@.stack.len() > 0,
            r matches Some((v, c)) ==> v@ == self@.symbols && c as nat == self@.cursor,
    {
        if self.stack.len() == 0 {
            None
        } else {
            Some((&self.symbols, self.cursor))
        }
    }
}

impl TraceGraph {
    /// Create a lazy enumerator of the simple backward paths from the
    /// node holding `lr0_item`, one assembled trace at a time. An item
    /// never inserted into the graph is a typed failure, distinct from
    /// an enumerator that is immediately exhausted.
    pub fn enumerate_paths_from<'a>(&'a self, lr0_item: Lr0Item) -> (r: Result<
        PathEnumerator<'a>,
        TraceGraphError,
    >)
        requires
            self.wf(),
        ensures
            r is Ok <==> self@.nodes.contains(TraceGraphNode::Item(lr0_item)),
            (r matches Ok(e) ==> e.wf() && e@.graph == self@ && resting(self@, e@.stack) && (
            exists|n: nat|
                e@.stack == iterate(
                    self@,
                    seq![
                        frame_for(
                            self@,
                            spec_node_id(self@, TraceGraphNode::Item(lr0_item)),
                            empty_label(),
                        ),
                    ],
                    n,
                )) && e@.stack == search_rest(
                self@,
                seq![
                    frame_for(
                        self@,
                        spec_node_id(self@, TraceGraphNode::Item(lr0_item)),
                        empty_label(),
                    ),
                ],
            )),
            r matches Err(err) ==> err == TraceGraphError::UnknownItem,
    {
        match self.find_node(TraceGraphNode::Item(lr0_item)) {
            Some(i) => {
                proof {
                    assert(node_is_item(self@, i as nat));
                }
                Ok(PathEnumerator::new(self, i))
            }
            None => Err(TraceGraphError::UnknownItem),
        }
    }
}

/// The state in which the search next rests, as a function of the
/// graph and the starting stack. Together with `lemma_search_rest`
/// and the contracts of `advance` and `enumerate_paths_from`, every
/// enumerator state — and so the whole ordered sequence of traces —
/// is a function of the frozen graph and the target item.
pub open spec fn search_rest(g: GraphV, s: Seq<FrameV>) -> Seq<FrameV> {
    choose|t: Seq<FrameV>| resting(g, t) && (exists|n: nat| t == iterate(g, s, n))
}

/// Any resting iterate of `s` is the one state `search_rest` names.
pub proof fn lemma_search_rest(g: GraphV, s: Seq<FrameV>, t: Seq<FrameV>, n: nat)
    requires
        resting(g, t),
        t == iterate(g, s, n),
    ensures
        search_rest(g, s) == t,
{
    let t0 = search_rest(g, s);
    assert(resting(g, t0) && (exists|n0: nat| t0 == iterate(g, s, n0))) by {
        assert(resting(g, t) && (exists|n0: nat| t == iterate(g, s, n0)));
    }
    let n0 = choose|n0: nat| t0 == iterate(g, s, n0);
    lemma_search_deterministic(g, s, n0, n);
}

/// Determinism of the search: from one starting state the procedure
/// can rest in only one state, however many steps it is given. With
/// the contracts of `advance` and `enumerate_paths_from`, a fixed
/// graph and a fixed target item therefore yield one fixed sequence
/// of traces, enumeration after enumeration.
pub proof fn lemma_search_deterministic(g: GraphV, s: Seq<FrameV>, n1: nat, n2: nat)
    requires
        resting(g, iterate(g, s, n1)),
        resting(g, iterate(g, s, n2)),
    ensures
        iterate(g, s, n1) == iterate(g, s, n2),
{
    if n1 <= n2 {
        lemma_resting_absorbs(g, s, n1, n2);
    } else {
        lemma_resting_absorbs(g, s, n2, n1);
    }
}

/// Once the procedure rests, further steps change nothing.
proof fn lemma_resting_absorbs(g: GraphV, s: Seq<FrameV>, n1: nat, n2: nat)
    requires
        n1 <= n2,
        resting(g, iterate(g, s, n1)),
    ensures
        iterate(g, s, n2) == iterate(g, s, n1),
    decreases n2 - n1,
{
    if n2 > n1 {
        lemma_resting_absorbs(g, s, n1, (n2 - 1) as nat);
        assert(step(g, iterate(g, s, (n2 - 1) as nat)) == iterate(g, s, (n2 - 1) as nat));
    }
}

/// An exhausted search stays exhausted: every further step leaves the
/// empty stack empty.
pub proof fn lemma_exhausted_stays(g: GraphV, n: nat)
    ensures
        iterate(g, Seq::<FrameV>::empty(), n) == Seq::<FrameV>::empty(),
    decreases n,
{
    if n > 0 {
        lemma_exhausted_stays(g, (n - 1) as nat);
    }
}

/// The bottom frame never changes node or label: every state the
/// search reaches, and so every emitted trace, still hangs from the
/// original target frame.
pub proof fn lemma_target_stays(g: GraphV, s: Seq<FrameV>, n: nat)
    requires
        s.len() > 0,
    ensures
        iterate(g, s, n).len() > 0 ==> iterate(g, s, n)[0].index == s[0].index && iterate(
            g,
            s,
            n,
        )[0].label == s[0].label,
    decreases n,
{
    if n > 0 {
        lemma_target_stays(g, s, (n - 1) as nat);
        let prev = iterate(g, s, (n - 1) as nat);
        let cur = iterate(g, s, n);
        assert(cur == step(g, prev));
        if prev.len() > 0 && cur.len() > 0 && !resting(g, prev) {
            let top = prev.last();
            if top.pos >= top.rest.len() {
                assert(cur == prev.drop_last());
                assert(cur[0] == prev[0]);
            } else {
                let s1 = prev.update(
                    prev.len() as int - 1,
                    FrameV { index: top.index, label: top.label, rest: top.rest, pos: top.pos + 1 },
                );
                assert(s1[0].index == prev[0].index && s1[0].label == prev[0].label) by {
                    if prev.len() == 1 {
                        assert(s1[0] == (FrameV {
                            index: top.index,
                            label: top.label,
                            rest: top.rest,
                            pos: top.pos + 1,
                        }));
                        assert(prev[0] == top);
                    } else {
                        assert(s1[0] == prev[0]);
                    }
                }
                assert(cur[0].index == s1[0].index && cur[0].label == s1[0].label);
            }
        }
    }
}

/// No trace's underlying frame stack holds the same nonterminal node
/// twice: every enumerated path is simple.
pub proof fn lemma_simple_path(e: &PathEnumerator)
    requires
        e.wf(),
    ensures
        forall|i: int, j: int|
            0 <= i < j < e@.stack.len() && !node_is_item(e@.graph, (#[trigger] e@.stack[j]).index)
                ==> e@.stack[j].index != (#[trigger] e@.stack[i]).index,
{
}

/// The cursor offset of a trace equals the length of its assembled
/// prefix block, and so lies between zero and the trace's length.
pub proof fn lemma_cursor_bound(e: &PathEnumerator)
    requires
        e.wf(),
        e@.stack.len() > 0,
    ensures
        e@.cursor == prefix_block(e@.stack).len(),
        e@.cursor <= e@.symbols.len(),
{
}

/// Every available trace is the assembly of one simple backward path:
/// the bottom frame is the target item, the top frame a start item,
/// the frames strictly between are nonterminal steps, consecutive
/// frames are joined by graph edges walked backward, and the symbols
/// and cursor are exactly the assembly of that stack.
pub proof fn lemma_trace_is_backward_path(e: &PathEnumerator)
    requires
        e.wf(),
        e@.stack.len() > 0,
    ensures
        e@.stack.len() >= 2,
        node_is_item(e@.graph, e@.stack[0].index),
        node_is_item(e@.graph, e@.stack.last().index),
        forall|k: int| 1 <= k < e@.stack.len() ==> #[trigger] edge_to_parent(e@.graph, e@.stack, k),
        forall|k: int|
            1 <= k < e@.stack.len() - 1 ==> !node_is_item(e@.graph, (#[trigger] e@.stack[k]).index),
        e@.symbols == assembled(e@.stack),
        e@.cursor == prefix_block(e@.stack).len(),
{
}

} // verus!
