//! Behavioral tests for the trace graph and its path enumerator.
//!
//! Edges are stored in transition direction; the enumerator walks the
//! *incoming* edges of the target, so a path target <- N <- start is
//! built by `add_edge(N, target, ..)` and `add_edge(start, N, ..)`.

use trace_graph::enumerator::PathEnumerator;
use trace_graph::enumerator::TraceGraphError;
use trace_graph::graph::TraceGraph;
use trace_graph::graph::TraceGraphNode;
use trace_graph::symbols::Item;
use trace_graph::symbols::Lr0Item;
use trace_graph::symbols::NonterminalString;
use trace_graph::symbols::Symbol;
use trace_graph::symbols::SymbolSets;
use trace_graph::symbols::TerminalString;

fn item(id: u64) -> Lr0Item {
    Lr0Item { production: id, index: 0 }
}

fn item_node(id: u64) -> TraceGraphNode {
    TraceGraphNode::Item(item(id))
}

fn nt_node(id: u64) -> TraceGraphNode {
    TraceGraphNode::Nonterminal(NonterminalString(id))
}

fn term(id: u64) -> Symbol {
    Symbol::Terminal(TerminalString(id))
}

fn nt_sym(id: u64) -> Symbol {
    Symbol::Nonterminal(NonterminalString(id))
}

fn label(prefix: Vec<Symbol>, cursor: Option<Symbol>, suffix: Vec<Symbol>) -> SymbolSets {
    SymbolSets { prefix, cursor, suffix }
}

fn collect(e: &mut PathEnumerator) -> Vec<(Vec<Symbol>, usize)> {
    let mut out = Vec::new();
    while let Some(t) = e.next_trace() {
        out.push(t);
        assert!(out.len() <= 64, "enumeration failed to terminate");
    }
    out
}

#[test]
fn scenario_one_path() {
    // Target X reached from start Y over one nonterminal step N:
    // the single trace is [a, N, b] with the cursor on N.
    let mut g = TraceGraph::new();
    g.add_edge(nt_node(1), item_node(10), label(vec![term(100)], Some(nt_sym(1)), vec![term(101)]));
    g.add_edge(item_node(11), nt_node(1), label(vec![], None, vec![]));
    let mut e = g.enumerate_paths_from(item(10)).unwrap();
    let traces = collect(&mut e);
    assert_eq!(traces.len(), 1);
    assert_eq!(traces[0].0, vec![term(100), nt_sym(1), term(101)]);
    assert_eq!(traces[0].1, 1);
}

#[test]
fn scenario_two_labels() {
    // Two distinct labels on edges into the same nonterminal give two
    // distinct traces, the most recently added edge first.
    let mut g = TraceGraph::new();
    g.add_edge(nt_node(1), item_node(10), label(vec![], Some(nt_sym(1)), vec![]));
    g.add_edge(item_node(11), nt_node(1), label(vec![term(201)], None, vec![]));
    g.add_edge(item_node(11), nt_node(1), label(vec![term(202)], None, vec![]));
    let mut e = g.enumerate_paths_from(item(10)).unwrap();
    let traces = collect(&mut e);
    assert_eq!(traces.len(), 2);
    assert_eq!(traces[0].0, vec![term(202), nt_sym(1)]);
    assert_eq!(traces[0].1, 1);
    assert_eq!(traces[1].0, vec![term(201), nt_sym(1)]);
    assert_eq!(traces[1].1, 1);
    assert_ne!(traces[0], traces[1]);
}

#[test]
fn scenario_cycle_terminates() {
    // A nonterminal cycle N1 <-> N2 beside a valid acyclic path: the
    // search terminates and emits only the simple path.
    let mut g = TraceGraph::new();
    g.add_edge(nt_node(1), item_node(10), label(vec![], Some(nt_sym(1)), vec![]));
    g.add_edge(nt_node(2), nt_node(1), label(vec![], Some(nt_sym(2)), vec![]));
    g.add_edge(nt_node(1), nt_node(2), label(vec![], Some(nt_sym(1)), vec![]));
    g.add_edge(item_node(11), nt_node(1), label(vec![term(301)], None, vec![]));
    let mut e = g.enumerate_paths_from(item(10)).unwrap();
    let traces = collect(&mut e);
    assert_eq!(traces.len(), 1);
    assert_eq!(traces[0].0, vec![term(301), nt_sym(1)]);
    assert_eq!(traces[0].1, 1);
}

#[test]
fn scenario_unknown_item_is_an_error() {
    // An item never inserted is a typed failure, not an empty
    // enumeration.
    let mut g = TraceGraph::new();
    g.add_node(item_node(10));
    match g.enumerate_paths_from(item(99)) {
        Err(TraceGraphError::UnknownItem) => {}
        Ok(_) => panic!("an absent item must be refused"),
    }
}

#[test]
fn known_item_without_paths_is_empty_not_an_error() {
    let mut g = TraceGraph::new();
    g.add_node(item_node(10));
    let mut e = g.enumerate_paths_from(item(10)).unwrap();
    assert!(e.symbols_and_cursor().is_none());
    assert!(!e.advance());
}

#[test]
fn repeated_enumeration_is_deterministic() {
    let mut g = TraceGraph::new();
    g.add_edge(nt_node(1), item_node(10), label(vec![], Some(nt_sym(1)), vec![]));
    g.add_edge(item_node(11), nt_node(1), label(vec![term(201)], None, vec![]));
    g.add_edge(item_node(11), nt_node(1), label(vec![term(202)], None, vec![]));
    g.add_edge(nt_node(2), nt_node(1), label(vec![term(203)], None, vec![term(204)]));
    g.add_edge(item_node(12), nt_node(2), label(vec![], Some(nt_sym(2)), vec![]));
    let first = collect(&mut g.enumerate_paths_from(item(10)).unwrap());
    let second = collect(&mut g.enumerate_paths_from(item(10)).unwrap());
    assert!(!first.is_empty());
    assert_eq!(first, second);
}

#[test]
fn duplicate_edge_is_dropped() {
    // Inserting the identical (from, to, label) triple twice leaves
    // one edge: the trace count does not grow.
    let mut g = TraceGraph::new();
    g.add_edge(nt_node(1), item_node(10), label(vec![], Some(nt_sym(1)), vec![]));
    g.add_edge(item_node(11), nt_node(1), label(vec![term(201)], None, vec![]));
    g.add_edge(item_node(11), nt_node(1), label(vec![term(201)], None, vec![]));
    let traces = collect(&mut g.enumerate_paths_from(item(10)).unwrap());
    assert_eq!(traces.len(), 1);
}

#[test]
fn distinct_labels_are_both_kept() {
    // Dedup is per label value: a second label between the same
    // endpoints is a new edge.
    let mut g = TraceGraph::new();
    g.add_edge(nt_node(1), item_node(10), label(vec![], Some(nt_sym(1)), vec![]));
    g.add_edge(item_node(11), nt_node(1), label(vec![term(201)], None, vec![]));
    g.add_edge(item_node(11), nt_node(1), label(vec![term(201)], None, vec![term(202)]));
    let traces = collect(&mut g.enumerate_paths_from(item(10)).unwrap());
    assert_eq!(traces.len(), 2);
}

#[test]
fn exhaustion_is_terminal() {
    let mut g = TraceGraph::new();
    g.add_edge(nt_node(1), item_node(10), label(vec![], Some(nt_sym(1)), vec![]));
    g.add_edge(item_node(11), nt_node(1), label(vec![term(201)], None, vec![]));
    let mut e = g.enumerate_paths_from(item(10)).unwrap();
    assert!(e.symbols_and_cursor().is_some());
    assert!(!e.advance());
    for _ in 0..4 {
        assert!(e.symbols_and_cursor().is_none());
        assert!(!e.advance());
    }
}

#[test]
fn cursor_lies_within_the_trace() {
    let mut g = TraceGraph::new();
    g.add_edge(
        nt_node(1),
        item_node(10),
        label(vec![term(100)], Some(nt_sym(1)), vec![term(101), term(102)]),
    );
    g.add_edge(item_node(11), nt_node(1), label(vec![term(103)], None, vec![term(104)]),);
    let traces = collect(&mut g.enumerate_paths_from(item(10)).unwrap());
    assert_eq!(traces.len(), 1);
    let (symbols, cursor) = &traces[0];
    // Prefixes from the start item inward, the cursor symbol, then the
    // suffixes outward again.
    assert_eq!(
        *symbols,
        vec![term(103), term(100), nt_sym(1), term(101), term(102), term(104)]
    );
    assert_eq!(*cursor, 2);
    assert!(*cursor <= symbols.len());
}

#[test]
fn add_node_is_idempotent() {
    let mut g = TraceGraph::new();
    let a = g.add_node(item_node(10));
    let b = g.add_node(nt_node(1));
    let c = g.add_node(item_node(10));
    assert_eq!(a, c);
    assert_ne!(a, b);
}

#[test]
fn nodes_convert_from_symbols_and_items() {
    assert_eq!(
        TraceGraphNode::from(NonterminalString(4)),
        TraceGraphNode::Nonterminal(NonterminalString(4))
    );
    assert_eq!(TraceGraphNode::from(item(5)), TraceGraphNode::Item(item(5)));
    let full = Item { production: 6, index: 1, lookahead: 9 };
    assert_eq!(
        TraceGraphNode::from(full),
        TraceGraphNode::Item(Lr0Item { production: 6, index: 1 })
    );
}

#[test]
fn lookahead_is_discarded() {
    let full = Item { production: 3, index: 2, lookahead: 7 };
    assert_eq!(full.to_lr0(), Lr0Item { production: 3, index: 2 });
}

#[test]
fn deep_nesting_assembles_in_order() {
    // Two nonterminal steps between the target and the start item.
    let mut g = TraceGraph::new();
    g.add_edge(nt_node(1), item_node(10), label(vec![term(1)], Some(nt_sym(1)), vec![term(2)]));
    g.add_edge(nt_node(2), nt_node(1), label(vec![term(3)], Some(nt_sym(2)), vec![term(4)]));
    g.add_edge(item_node(11), nt_node(2), label(vec![term(5)], None, vec![term(6)]));
    let traces = collect(&mut g.enumerate_paths_from(item(10)).unwrap());
    assert_eq!(traces.len(), 1);
    let (symbols, cursor) = &traces[0];
    // Prefixes top-down: [5, 3, 1]; cursor symbol of the frame next to
    // the target: N1; suffixes bottom-up: [2, 4, 6].
    assert_eq!(
        *symbols,
        vec![term(5), term(3), term(1), nt_sym(1), term(2), term(4), term(6)]
    );
    assert_eq!(*cursor, 3);
}
