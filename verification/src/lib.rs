//! Trace graphs summarize how an LR(1) automaton can arrive in a state
//! holding a particular item. A `TraceGraph` links items through
//! intermediate nonterminal derivation steps; a `PathEnumerator` walks
//! simple backward paths from a target item and assembles each into a
//! concrete symbol sequence with a cursor offset.



pub mod enumerator;
pub mod graph;
pub mod symbols;
