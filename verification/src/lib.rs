//! Context-free grammar toolkit.
//!
//! A context-free grammar is a set of rewrite rules over two sorts of
//! symbols: terminals, which stand for literal input tokens, and
//! nonterminals, which a rule can replace by a sequence of other symbols.
//! This crate owns the grammar data model and the analyses needed for
//! deterministic top-down parsing: nullability, FIRST and FOLLOW sets, an
//! LL(1) predictive table, and a table-driven pushdown parser.
//!
//! Symbols are represented as 32-bit unsigned integers, with the most
//! significant bit distinguishing nonterminals from terminals, so a grammar
//! admits fewer than 2^31 terminals and 2^31 nonterminals. Terminal and
//! nonterminal indices are separate dense ranges starting at 0.
//!
//! A grammar starts out mutable; freezing it is a one-way transition that
//! makes the rule set permanent, which is what makes cached analyses such as
//! FOLLOW safe to keep alongside it.

use vstd::prelude::*;

pub mod bnf;
pub mod ll1;
pub mod marpa;
pub mod util;

verus! {

/// Packed representation of a terminal or nonterminal index: values below
/// `NONTERMINAL_BIT` are terminals, the rest are nonterminals.
pub const NONTERMINAL_BIT: u32 = 0x8000_0000;

/// Terminal index reserved for the end-of-input sentinel.
pub const END_OF_INPUT_INDEX: u32 = 0;

/// Terminal index reserved for the empty-string sentinel.
pub const EPSILON_INDEX: u32 = 1;

/// A Symbol is either a nonterminal or a terminal, each identified by a
/// dense index of its own kind.
#[derive(Copy, Clone, PartialEq, Eq, Structural, Debug, Hash)]
pub enum Symbol {
    Terminal(u32),
    Nonterminal(u32),
}

/// A PackedSymbol is a more compact, single-word representation of a Symbol.
#[derive(Copy, Clone, PartialEq, Eq, Structural, Debug, Hash)]
pub struct PackedSymbol(pub u32);

/// The empty-string sentinel. It appears in FIRST sets and as a placeholder
/// on the parse stack, and is never matched against real input.
pub fn epsilon() -> (r: Symbol)
    ensures
        r == Symbol::Terminal(EPSILON_INDEX),
{
    Symbol::Terminal(EPSILON_INDEX)
}

/// The end-of-input sentinel. It appears in FOLLOW sets, as the parse
/// stack's bottom marker, and as the implicit last token of every input.
pub fn end_of_input() -> (r: Symbol)
    ensures
        r == Symbol::Terminal(END_OF_INPUT_INDEX),
{
    Symbol::Terminal(END_OF_INPUT_INDEX)
}

impl Symbol {
    /// The index of the symbol within its own kind.
    pub open spec fn idx(self) -> u32 {
        match self {
            Symbol::Terminal(x) => x,
            Symbol::Nonterminal(x) => x,
        }
    }

    /// Whether the index is small enough for the packed representation.
    pub open spec fn packable(self) -> bool {
        self.idx() < NONTERMINAL_BIT
    }

    /// Pack the symbol into its single-word representation.
    pub fn pack(self) -> (r: PackedSymbol)
        requires
            self.packable(),
        ensures
            r.unpacked() == self,
    {
        match self {
            Symbol::Terminal(x) => PackedSymbol(x),
            Symbol::Nonterminal(x) => PackedSymbol(x + NONTERMINAL_BIT),
        }
    }
}

impl PackedSymbol {
    /// The Symbol this packed word stands for.
    pub open spec fn unpacked(self) -> Symbol {
        if self.0 < NONTERMINAL_BIT {
            Symbol::Terminal(self.0)
        } else {
            Symbol::Nonterminal((self.0 - NONTERMINAL_BIT) as u32)
        }
    }

    /// Whether the packed word stands for a terminal.
    pub fn is_terminal(self) -> (r: bool)
        ensures
            r == (self.unpacked() is Terminal),
    {
        self.0 < NONTERMINAL_BIT
    }

    /// Whether the packed word stands for a nonterminal.
    pub fn is_nonterminal(self) -> (r: bool)
        ensures
            r == (self.unpacked() is Nonterminal),
    {
        !self.is_terminal()
    }

    /// The index of the symbol within its own kind.
    pub fn to_index(self) -> (r: u32)
        ensures
            r == self.unpacked().idx(),
    {
        if self.0 < NONTERMINAL_BIT {
            self.0
        } else {
            self.0 - NONTERMINAL_BIT
        }
    }

    /// Unpack into the two-variant representation.
    pub fn unpack(self) -> (r: Symbol)
        ensures
            r == self.unpacked(),
    {
        if self.0 < NONTERMINAL_BIT {
            Symbol::Terminal(self.0)
        } else {
            Symbol::Nonterminal(self.0 - NONTERMINAL_BIT)
        }
    }
}

/// Whether a symbol refers to an allocated index, given the grammar's
/// nonterminal and terminal counts.
pub open spec fn valid_symbol(s: Symbol, nts: u32, terms: u32) -> bool {
    match s {
        Symbol::Terminal(t) => t < terms,
        Symbol::Nonterminal(a) => a < nts,
    }
}

/// Whether every rule maps an allocated nonterminal to a sequence of
/// allocated symbols.
pub open spec fn wf_rules(rules: Seq<(Symbol, Seq<Symbol>)>, nts: u32, terms: u32) -> bool {
    forall|i: int|
        0 <= i < rules.len() ==> {
            &&& (#[trigger] rules[i]).0 is Nonterminal
            &&& rules[i].0.idx() < nts
            &&& forall|j: int|
                0 <= j < rules[i].1.len() ==> valid_symbol(#[trigger] rules[i].1[j], nts, terms)
        }
}

/// A sequence of packed symbols, unpacked elementwise.
pub open spec fn unpack_syms(s: Seq<PackedSymbol>) -> Seq<Symbol> {
    s.map_values(|q: PackedSymbol| q.unpacked())
}

/// The rule list of a grammar, with every stored symbol unpacked.
pub open spec fn unpack_rules(rules: Seq<(PackedSymbol, Vec<PackedSymbol>)>) -> Seq<
    (Symbol, Seq<Symbol>),
> {
    rules.map_values(
        |p: (PackedSymbol, Vec<PackedSymbol>)| (p.0.unpacked(), unpack_syms(p.1@)),
    )
}

/// A Rule names a production by its position in the grammar's append-only
/// rule list; positions are stable once assigned.
#[derive(Copy, Clone, PartialEq, Eq, Structural, Debug, Hash)]
pub struct Rule(pub usize);

/// A marker type indicating that a `Cfg` can still be mutated.
pub struct Mutable;

/// A marker type indicating that a `Cfg` can no longer be mutated.
pub struct Frozen;

/// Derived analysis results attached to a grammar, each filled in by the
/// analysis that computes it. They are only populated once the grammar is
/// frozen, so they can never go stale.
pub struct Extra {
    /// Result of `util::compute_nullability`.
    pub nullability: Option<util::Nullability>,
    /// Result of `util::compute_follow`.
    pub follow: Option<util::Follow>,
    /// Symbol display names kept by the textual-notation loader.
    pub names: Option<bnf::BNFName>,
}

/// A representation of a context-free grammar: an append-only rule list over
/// densely numbered terminals and nonterminals, a start rule, and a store
/// for derived analysis results.
///
/// The marker parameter is `Mutable` while symbols and rules may still be
/// added and `Frozen` afterwards; `freeze` is the only way from one to the
/// other. Terminal indices 0 and 1 are reserved for the end-of-input and
/// epsilon sentinels and are allocated from the start.
pub struct Cfg<T> {
    phantom: core::marker::PhantomData<T>,
    rules: Vec<(PackedSymbol, Vec<PackedSymbol>)>,
    extra: Extra,
    start: usize,
    max_nonterm: u32,
    max_term: u32,
}

impl<T> Cfg<T> {
    /// The rule list as a mathematical sequence of unpacked rules.
    pub closed spec fn spec_rules(&self) -> Seq<(Symbol, Seq<Symbol>)> {
        unpack_rules(self.rules@)
    }

    /// Number of allocated nonterminals.
    pub closed spec fn nt_count(&self) -> u32 {
        self.max_nonterm
    }

    /// Number of allocated terminals, sentinels included.
    pub closed spec fn term_count(&self) -> u32 {
        self.max_term
    }

    /// Index of the start rule in the rule list.
    pub closed spec fn start_idx(&self) -> int {
        self.start as int
    }

    /// The attached analysis results.
    pub closed spec fn spec_extra(&self) -> &Extra {
        &self.extra
    }

    /// Well-formedness: the sentinels are allocated, the counts fit the
    /// packed representation, every rule refers to allocated symbols only,
    /// and the start index refers to a rule whenever there is one.
    pub open spec fn wf(&self) -> bool {
        &&& 2 <= self.term_count() <= NONTERMINAL_BIT
        &&& self.nt_count() <= NONTERMINAL_BIT
        &&& wf_rules(self.spec_rules(), self.nt_count(), self.term_count())
        &&& if self.spec_rules().len() == 0 {
            self.start_idx() == 0
        } else {
            0 <= self.start_idx() < self.spec_rules().len()
        }
    }

    /// Get a rule from the grammar, or `None` if the handle is out of range.
    pub fn get_rule(&self, r: Rule) -> (res: Option<(PackedSymbol, &Vec<PackedSymbol>)>)
        ensures
            res is Some <==> r.0 < self.spec_rules().len(),
            res matches Some((l, rh)) ==> {
                &&& l.unpacked() == self.spec_rules()[r.0 as int].0
                &&& unpack_syms(rh@) == self.spec_rules()[r.0 as int].1
            },
    {
        if r.0 < self.rules.len() {
            let p = &self.rules[r.0];
            assert(self.spec_rules()[r.0 as int] == (p.0.unpacked(),
            unpack_syms(p.1@)));
            Some((p.0, &p.1))
        } else {
            None
        }
    }

    /// Number of terminals used by the grammar, the two sentinels included.
    ///
    /// Each integer from 0 to this number (exclusive) is a valid terminal.
    pub fn num_terminals(&self) -> (r: u32)
        ensures
            r == self.term_count(),
    {
        self.max_term
    }

    /// Number of nonterminals used by the grammar.
    ///
    /// Each integer from 0 to this number (exclusive) is a valid nonterminal.
    pub fn num_nonterminals(&self) -> (r: u32)
        ensures
            r == self.nt_count(),
    {
        self.max_nonterm
    }

    /// Number of rules used by the grammar.
    ///
    /// Each `Rule(i)` from 0 to this number (exclusive) is a valid rule.
    pub fn num_rules(&self) -> (r: usize)
        ensures
            r == self.spec_rules().len(),
    {
        self.rules.len()
    }

    /// Index of the start rule.
    pub fn start_rule(&self) -> (r: usize)
        ensures
            r == self.start_idx(),
    {
        self.start
    }

    /// All the rules of the grammar, in insertion order.
    pub fn rules(&self) -> (r: &Vec<(PackedSymbol, Vec<PackedSymbol>)>)
        ensures
            unpack_rules(r@) == self.spec_rules(),
    {
        &self.rules
    }

    /// Get a reference to the attached analysis results.
    pub fn extra(&self) -> (r: &Extra)
        ensures
            r == self.spec_extra(),
    {
        &self.extra
    }

    /// Get a mutable reference to the attached analysis results.
    pub fn mut_extra(&mut self) -> (r: &mut Extra)
        ensures
            *r == *old(self).spec_extra(),
            final(self).spec_extra() == *final(r),
            final(self).spec_rules() == old(self).spec_rules(),
            final(self).nt_count() == old(self).nt_count(),
            final(self).term_count() == old(self).term_count(),
            final(self).start_idx() == old(self).start_idx(),
    {
        &mut self.extra
    }
}

/// The reasons a rule can be rejected during grammar construction.
#[derive(Copy, Clone, PartialEq, Eq, Structural, Debug)]
pub enum ConstructionError {
    /// The rule's left-hand side is not a nonterminal symbol.
    LhsNotNonterminal,
    /// The rule refers to a symbol that has not been allocated.
    UnallocatedSymbol,
}

impl Cfg<Mutable> {
    /// Construct a grammar for the empty language: no rules, no
    /// nonterminals, and only the two sentinel terminals.
    pub fn new() -> (r: Cfg<Mutable>)
        ensures
            r.wf(),
            r.spec_rules().len() == 0,
            r.nt_count() == 0,
            r.term_count() == 2,
            r.start_idx() == 0,
            r.spec_extra().nullability is None,
            r.spec_extra().follow is None,
            r.spec_extra().names is None,
    {
        Cfg {
            phantom: core::marker::PhantomData,
            rules: Vec::new(),
            extra: Extra { nullability: None, follow: None, names: None },
            start: 0,
            max_nonterm: 0,
            max_term: 2,
        }
    }

    /// Allocate a nonterminal, returning the new grammar symbol.
    pub fn add_nonterminal(&mut self) -> (r: Symbol)
        requires
            old(self).nt_count() < NONTERMINAL_BIT,
        ensures
            r == Symbol::Nonterminal(old(self).nt_count()),
            final(self).nt_count() == old(self).nt_count() + 1,
            final(self).term_count() == old(self).term_count(),
            final(self).spec_rules() == old(self).spec_rules(),
            final(self).start_idx() == old(self).start_idx(),
            final(self).spec_extra() == old(self).spec_extra(),
            old(self).wf() ==> final(self).wf(),
    {
        let val = self.max_nonterm;
        self.max_nonterm = self.max_nonterm + 1;
        Symbol::Nonterminal(val)
    }

    /// Allocate a terminal, returning the new grammar symbol.
    pub fn add_terminal(&mut self) -> (r: Symbol)
        requires
            old(self).term_count() < NONTERMINAL_BIT,
        ensures
            r == Symbol::Terminal(old(self).term_count()),
            final(self).term_count() == old(self).term_count() + 1,
            final(self).nt_count() == old(self).nt_count(),
            final(self).spec_rules() == old(self).spec_rules(),
            final(self).start_idx() == old(self).start_idx(),
            final(self).spec_extra() == old(self).spec_extra(),
            old(self).wf() ==> final(self).wf(),
    {
        let val = self.max_term;
        self.max_term = self.max_term + 1;
        Symbol::Terminal(val)
    }

    /// Add the rule `lhs -> rhs[0] rhs[1] ...` to the grammar, returning a
    /// handle for it. An empty `rhs` denotes the empty production. The rule
    /// is rejected when `lhs` is not a nonterminal or when any symbol named
    /// by the rule has not been allocated.
    pub fn add_rule(&mut self, lhs: Symbol, rhs: &[Symbol]) -> (r: Result<Rule, ConstructionError>)
        requires
            old(self).wf(),
        ensures
            final(self).wf(),
            r is Ok <==> lhs is Nonterminal && valid_symbol(lhs, old(self).nt_count(), old(self).term_count())
                && (forall|j: int|
                0 <= j < rhs@.len() ==> valid_symbol(
                    #[trigger] rhs@[j],
                    old(self).nt_count(),
                    old(self).term_count(),
                )),
            r matches Ok(rule) ==> {
                &&& rule.0 == old(self).spec_rules().len()
                &&& final(self).spec_rules() == old(self).spec_rules().push((lhs, rhs@))
                &&& final(self).nt_count() == old(self).nt_count()
                &&& final(self).term_count() == old(self).term_count()
                &&& final(self).start_idx() == old(self).start_idx()
                &&& final(self).spec_extra() == old(self).spec_extra()
            },
            r is Err ==> *final(self) == *old(self),
            r matches Err(e) ==> if lhs is Nonterminal {
                e == ConstructionError::UnallocatedSymbol
            } else {
                e == ConstructionError::LhsNotNonterminal
            },
    {
        match lhs {
            Symbol::Terminal(_) => Err(ConstructionError::LhsNotNonterminal),
            Symbol::Nonterminal(a) => {
                if a >= self.max_nonterm {
                    return Err(ConstructionError::UnallocatedSymbol);
                }
                let mut packed: Vec<PackedSymbol> = Vec::new();
                let mut j: usize = 0;
                while j < rhs.len()
                    invariant
                        j <= rhs@.len(),
                        self == old(self),
                        self.wf(),
                        lhs is Nonterminal && lhs.idx() < self.nt_count(),
                        packed@.len() == j,
                        unpack_syms(packed@) == rhs@.take(j as int),
                        forall|k: int|
                            0 <= k < j ==> valid_symbol(
                                #[trigger] rhs@[k],
                                old(self).nt_count(),
                                old(self).term_count(),
                            ),
                    decreases rhs@.len() - j,
                {
                    let s = rhs[j];
                    let ok = match s {
                        Symbol::Terminal(t) => t < self.max_term,
                        Symbol::Nonterminal(b) => b < self.max_nonterm,
                    };
                    if !ok {
                        return Err(ConstructionError::UnallocatedSymbol);
                    }
                    assert(s.packable());
                    packed.push(s.pack());
                    assert(unpack_syms(packed@) =~= rhs@.take(j as int + 1));
                    j = j + 1;
                }
                assert(rhs@.take(rhs@.len() as int) =~= rhs@);
                let ghost old_rules = self.spec_rules();
                self.rules.push((lhs.pack(), packed));
                assert(self.spec_rules() =~= old_rules.push((lhs, rhs@)));
                Ok(Rule(self.rules.len() - 1))
            },
        }
    }

    /// Set the start rule. The handle must name a rule already added.
    pub fn set_start(&mut self, r: Rule)
        requires
            r.0 < old(self).spec_rules().len(),
        ensures
            final(self).start_idx() == r.0,
            final(self).spec_rules() == old(self).spec_rules(),
            final(self).nt_count() == old(self).nt_count(),
            final(self).term_count() == old(self).term_count(),
            final(self).spec_extra() == old(self).spec_extra(),
            old(self).wf() ==> final(self).wf(),
    {
        self.start = r.0;
    }

    /// Freeze this grammar, preventing any later mutation. This is the
    /// one-way transition that makes FOLLOW computation and table
    /// construction safe: the rule set can no longer change under them.
    pub fn freeze(self) -> (r: Cfg<Frozen>)
        ensures
            r.spec_rules() == self.spec_rules(),
            r.nt_count() == self.nt_count(),
            r.term_count() == self.term_count(),
            r.start_idx() == self.start_idx(),
            r.spec_extra() == self.spec_extra(),
            self.wf() ==> r.wf(),
    {
        let Cfg { phantom: _phantom, rules, extra, start, max_nonterm, max_term } = self;
        Cfg { phantom: core::marker::PhantomData, rules, extra, start, max_nonterm, max_term }
    }
}

impl From<PackedSymbol> for Symbol {
    fn from(v: PackedSymbol) -> (r: Symbol) {
        v.unpack()
    }
}

impl vstd::std_specs::convert::FromSpecImpl<PackedSymbol> for Symbol {
    open spec fn obeys_from_spec() -> bool {
        true
    }

    open spec fn from_spec(v: PackedSymbol) -> Symbol {
        v.unpacked()
    }
}

} // verus!
