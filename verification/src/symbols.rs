//! Value types consumed by the trace graph: grammar symbols, items, and
//! the `SymbolSets` edge labels. All are compared structurally by value.

use vstd::prelude::*;

verus! {

/// A nonterminal, identified by value.
#[derive(Clone, Copy, PartialEq, Eq, Structural, Debug, Hash)]
pub struct NonterminalString(pub u64);

/// A terminal token, identified by value.
#[derive(Clone, Copy, PartialEq, Eq, Structural, Debug, Hash)]
pub struct TerminalString(pub u64);

/// A grammar symbol: either a nonterminal or a terminal.
#[derive(Clone, Copy, PartialEq, Eq, Structural, Debug, Hash)]
pub enum Symbol {
    Nonterminal(NonterminalString),
    Terminal(TerminalString),
}

/// An LR(0) item: a production with a dot position, compared by value.
#[derive(Clone, Copy, PartialEq, Eq, Structural, Debug, Hash)]
pub struct Lr0Item {
    pub production: u64,
    pub index: u64,
}

/// An LR(1) item: an LR(0) item together with a lookahead, convertible
/// to the LR(0) item by discarding the lookahead.
#[derive(Clone, Copy, PartialEq, Eq, Structural, Debug, Hash)]
pub struct Item {
    pub production: u64,
    pub index: u64,
    pub lookahead: u64,
}

impl Item {
    /// Discard the lookahead, leaving the underlying LR(0) item.
    pub fn to_lr0(self) -> (r: Lr0Item)
        ensures
            r == (Lr0Item { production: self.production, index: self.index }),
    {
        Lr0Item { production: self.production, index: self.index }
    }
}

/// The label of a trace-graph edge: the symbols pushed before the
/// transition, the single symbol the destination accounts for, and the
/// symbols pushed after.
pub struct SymbolSets {
    pub prefix: Vec<Symbol>,
    pub cursor: Option<Symbol>,
    pub suffix: Vec<Symbol>,
}

/// The mathematical value of a `SymbolSets` label.
#[verifier::ext_equal]
pub ghost struct SymbolSetsV {
    pub prefix: Seq<Symbol>,
    pub cursor: Option<Symbol>,
    pub suffix: Seq<Symbol>,
}

impl View for SymbolSets {
    type V = SymbolSetsV;

    open spec fn view(&self) -> SymbolSetsV {
        SymbolSetsV { prefix: self.prefix@, cursor: self.cursor, suffix: self.suffix@ }
    }
}

impl SymbolSets {
    /// The empty label: nothing pushed, no cursor symbol.
    pub fn new() -> (r: SymbolSets)
        ensures
            r@ == (SymbolSetsV { prefix: Seq::<Symbol>::empty(), cursor: None::<Symbol>, suffix: Seq::<Symbol>::empty() }),
    {
        let r = SymbolSets { prefix: Vec::new(), cursor: None, suffix: Vec::new() };
        proof {
            assert(r@ =~= (SymbolSetsV { prefix: Seq::<Symbol>::empty(), cursor: None::<Symbol>, suffix: Seq::<Symbol>::empty() }));
        }
        r
    }
}

/// Copy a vector of symbols element by element.
pub fn copy_symbols(v: &Vec<Symbol>) -> (r: Vec<Symbol>)
    ensures
        r@ == v@,
{
    let mut r: Vec<Symbol> = Vec::new();
    let mut i: usize = 0;
    while i < v.len()
        invariant
            i <= v.len(),
            r@ == v@.take(i as int),
        decreases v.len() - i,
    {
        r.push(v[i]);
        i = i + 1;
        proof {
            assert(r@ =~= v@.take(i as int));
        }
    }
    proof {
        assert(v@.take(v@.len() as int) =~= v@);
    }
    r
}

/// Copy a `SymbolSets` label, preserving its value.
pub fn copy_symbol_sets(s: &SymbolSets) -> (r: SymbolSets)
    ensures
        r@ == s@,
{
    SymbolSets {
        prefix: copy_symbols(&s.prefix),
        cursor: s.cursor,
        suffix: copy_symbols(&s.suffix),
    }
}

/// Append the contents of `src` to `dst`.
pub fn append_symbols(dst: &mut Vec<Symbol>, src: &Vec<Symbol>)
    ensures
        final(dst)@ == old(dst)@ + src@,
{
    let mut i: usize = 0;
    while i < src.len()
        invariant
            i <= src.len(),
            dst@ == old(dst)@ + src@.take(i as int),
        decreases src.len() - i,
    {
        dst.push(src[i]);
        i = i + 1;
        proof {
            assert(dst@ =~= old(dst)@ + src@.take(i as int));
        }
    }
    proof {
        assert(old(dst)@ + src@.take(src@.len() as int) =~= old(dst)@ + src@);
    }
}

/// Compare two symbol vectors by value.
pub fn symbols_eq(a: &Vec<Symbol>, b: &Vec<Symbol>) -> (r: bool)
    ensures
        r == (a@ == b@),
{
    if a.len() != b.len() {
        return false;
    }
    let mut i: usize = 0;
    while i < a.len()
        invariant
            i <= a.len(),
            a@.len() == b@.len(),
            forall|j: int| 0 <= j < i ==> a@[j] == b@[j],
        decreases a.len() - i,
    {
        if a[i] != b[i] {
            return false;
        }
        i = i + 1;
    }
    proof {
        assert(a@ =~= b@);
    }
    true
}

/// Compare two labels by value.
pub fn symbol_sets_eq(a: &SymbolSets, b: &SymbolSets) -> (r: bool)
    ensures
        r == (a@ == b@),
{
    let cursor_eq = match (&a.cursor, &b.cursor) {
        (Some(x), Some(y)) => *x == *y,
        (None, None) => true,
        _ => false,
    };
    let r = cursor_eq && symbols_eq(&a.prefix, &b.prefix) && symbols_eq(&a.suffix, &b.suffix);
    proof {
        if r {
            assert(a@ =~= b@);
        }
    }
    r
}

} // verus!
