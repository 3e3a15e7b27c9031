//! Grammar analyses: nullability, FIRST and FOLLOW sets.
//!
//! Sets of terminals are represented densely: a `Vec<bool>` indexed by
//! terminal index, whose length is the grammar's terminal count. The
//! corresponding mathematical object is a `Set<u32>` of terminal indices.

use vstd::prelude::*;
use crate::{valid_symbol, unpack_rules, unpack_syms, Cfg, Frozen, PackedSymbol, Symbol, END_OF_INPUT_INDEX, EPSILON_INDEX};

verus! {

/// Number of `false` entries in a bitmap: the measure that shrinks whenever
/// the FIRST computation marks one more nonterminal as in progress.
pub open spec fn count_false(v: Seq<bool>) -> nat
    decreases v.len(),
{
    if v.len() == 0 {
        0
    } else {
        (if v[0] {
            0nat
        } else {
            1nat
        }) + count_false(v.subrange(1, v.len() as int))
    }
}

/// Marking one more entry of a bitmap lowers `count_false` by exactly one.
pub proof fn lemma_count_false_update(v: Seq<bool>, a: int)
    requires
        0 <= a < v.len(),
        !v[a],
    ensures
        count_false(v.update(a, true)) + 1 == count_false(v),
    decreases v.len(),
{
    let w = v.update(a, true);
    if a == 0 {
        assert(w.subrange(1, w.len() as int) =~= v.subrange(1, v.len() as int));
    } else {
        assert(w.subrange(1, w.len() as int) =~= v.subrange(1, v.len() as int).update(a - 1, true));
        lemma_count_false_update(v.subrange(1, v.len() as int), a - 1);
    }
}

/// A visited bitmap with one entry per nonterminal, all clear.
pub open spec fn empty_visited(nts: u32) -> Seq<bool> {
    Seq::new(nts as nat, |i: int| false)
}

/// FIRST of a single symbol, as computed with the visited guard `v`: the
/// terminal indices (possibly including the epsilon sentinel) that can begin
/// a derivation of the symbol. A terminal's FIRST set is itself; a
/// nonterminal's is the union of the FIRST sets of its alternatives, where a
/// nonterminal already being expanded contributes nothing.
pub open spec fn first_sym(rules: Seq<(Symbol, Seq<Symbol>)>, v: Seq<bool>, sym: Symbol) -> Set<
    u32,
>
    decreases count_false(v), 0int, 0int,
    via first_sym_dec
{
    match sym {
        Symbol::Terminal(t) => set![t],
        Symbol::Nonterminal(a) => {
            if a < v.len() && !v[a as int] {
                first_alts(rules, v.update(a as int, true), a, 0)
            } else {
                Set::empty()
            }
        },
    }
}

#[via_fn]
proof fn first_sym_dec(rules: Seq<(Symbol, Seq<Symbol>)>, v: Seq<bool>, sym: Symbol) {
    if let Symbol::Nonterminal(a) = sym {
        if a < v.len() && !v[a as int] {
            lemma_count_false_update(v, a as int);
        }
    }
}

/// Union of the FIRST sets of the right-hand sides of every rule at
/// position `i` or later whose left-hand side is nonterminal `a`.
pub open spec fn first_alts(
    rules: Seq<(Symbol, Seq<Symbol>)>,
    v: Seq<bool>,
    a: u32,
    i: int,
) -> Set<u32>
    decreases count_false(v), 3int, rules.len() - i,
{
    if i < 0 || i >= rules.len() {
        Set::empty()
    } else {
        let head = if rules[i].0 == Symbol::Nonterminal(a) {
            first_scan(rules, v, rules[i].1, 0)
        } else {
            Set::empty()
        };
        head.union(first_alts(rules, v, a, i + 1))
    }
}

/// FIRST of the symbol sequence `seq[j..]`, scanned left to right: each
/// symbol contributes its FIRST set without epsilon, the scan stops at the
/// first symbol that cannot derive the empty string, and the epsilon
/// sentinel is added when every scanned symbol can (in particular when the
/// scanned part is empty).
pub open spec fn first_scan(
    rules: Seq<(Symbol, Seq<Symbol>)>,
    v: Seq<bool>,
    seq: Seq<Symbol>,
    j: int,
) -> Set<u32>
    decreases count_false(v), 1int, seq.len() - j,
{
    if j < 0 || j >= seq.len() {
        set![EPSILON_INDEX]
    } else {
        let f = first_sym(rules, v, seq[j]);
        if f.contains(EPSILON_INDEX) {
            f.remove(EPSILON_INDEX).union(first_scan(rules, v, seq, j + 1))
        } else {
            f
        }
    }
}

/// FIRST of a rule's right-hand side `rhs[from..]`, with no expansion in
/// progress: what the table builder and the FOLLOW computation use.
pub open spec fn first_of_rhs(
    rules: Seq<(Symbol, Seq<Symbol>)>,
    nts: u32,
    rhs: Seq<Symbol>,
    from: int,
) -> Set<u32> {
    first_scan(rules, empty_visited(nts), rhs, from)
}

/// FIRST of an arbitrary symbol sequence given from outside: as
/// `first_of_rhs`, except that the empty sequence has an empty FIRST set
/// rather than the epsilon sentinel.
pub open spec fn first_of_seq(
    rules: Seq<(Symbol, Seq<Symbol>)>,
    nts: u32,
    seq: Seq<Symbol>,
) -> Set<u32> {
    if seq.len() == 0 {
        Set::empty()
    } else {
        first_scan(rules, empty_visited(nts), seq, 0)
    }
}

/// Monotonicity of FIRST for one symbol: a grammar extended with more rules
/// gives every symbol a FIRST set at least as large.
pub proof fn lemma_first_sym_monotone(
    rules1: Seq<(Symbol, Seq<Symbol>)>,
    rules2: Seq<(Symbol, Seq<Symbol>)>,
    v: Seq<bool>,
    sym: Symbol,
)
    requires
        rules1.len() <= rules2.len(),
        forall|i: int| 0 <= i < rules1.len() ==> rules2[i] == rules1[i],
    ensures
        first_sym(rules1, v, sym).subset_of(first_sym(rules2, v, sym)),
    decreases count_false(v), 0int, 0int,
{
    match sym {
        Symbol::Terminal(_) => {},
        Symbol::Nonterminal(a) => {
            if a < v.len() && !v[a as int] {
                lemma_count_false_update(v, a as int);
                lemma_first_alts_monotone(rules1, rules2, v.update(a as int, true), a, 0);
            }
        },
    }
}

/// Monotonicity of FIRST across a nonterminal's alternatives: the extra
/// rules of the larger grammar only add alternatives, and each shared
/// alternative contributes at least as much.
pub proof fn lemma_first_alts_monotone(
    rules1: Seq<(Symbol, Seq<Symbol>)>,
    rules2: Seq<(Symbol, Seq<Symbol>)>,
    v: Seq<bool>,
    a: u32,
    i: int,
)
    requires
        rules1.len() <= rules2.len(),
        forall|k: int| 0 <= k < rules1.len() ==> rules2[k] == rules1[k],
    ensures
        first_alts(rules1, v, a, i).subset_of(first_alts(rules2, v, a, i)),
    decreases count_false(v), 3int, rules1.len() - i,
{
    if i < 0 || i >= rules1.len() {
        assert(first_alts(rules1, v, a, i) == Set::<u32>::empty());
    } else {
        lemma_first_scan_monotone(rules1, rules2, v, rules1[i].1, 0);
        lemma_first_alts_monotone(rules1, rules2, v, a, i + 1);
        assert(rules2[i].1 == rules1[i].1);
        assert forall|x: u32| first_alts(rules1, v, a, i).contains(x) implies first_alts(
            rules2,
            v,
            a,
            i,
        ).contains(x) by {
            if first_alts(rules1, v, a, i + 1).contains(x) {
                assert(first_alts(rules2, v, a, i + 1).contains(x));
            } else {
                assert(rules1[i].0 == Symbol::Nonterminal(a));
                assert(first_scan(rules1, v, rules1[i].1, 0).contains(x));
                assert(first_scan(rules2, v, rules2[i].1, 0).contains(x));
            }
        }
    }
}

/// Monotonicity of FIRST along a symbol sequence: in the larger grammar
/// every scanned symbol contributes at least as much, and the left-to-right
/// scan can only go further, since a symbol that can derive the empty
/// string still can.
pub proof fn lemma_first_scan_monotone(
    rules1: Seq<(Symbol, Seq<Symbol>)>,
    rules2: Seq<(Symbol, Seq<Symbol>)>,
    v: Seq<bool>,
    seq: Seq<Symbol>,
    j: int,
)
    requires
        rules1.len() <= rules2.len(),
        forall|k: int| 0 <= k < rules1.len() ==> rules2[k] == rules1[k],
    ensures
        first_scan(rules1, v, seq, j).subset_of(first_scan(rules2, v, seq, j)),
    decreases count_false(v), 1int, seq.len() - j,
{
    if 0 <= j < seq.len() {
        let f1 = first_sym(rules1, v, seq[j]);
        let f2 = first_sym(rules2, v, seq[j]);
        lemma_first_sym_monotone(rules1, rules2, v, seq[j]);
        if f1.contains(EPSILON_INDEX) {
            lemma_first_scan_monotone(rules1, rules2, v, seq, j + 1);
            assert(f2.contains(EPSILON_INDEX));
            assert forall|x: u32| first_scan(rules1, v, seq, j).contains(x) implies first_scan(
                rules2,
                v,
                seq,
                j,
            ).contains(x) by {
                if f1.remove(EPSILON_INDEX).contains(x) {
                    assert(f2.remove(EPSILON_INDEX).contains(x));
                }
            }
        } else {
            assert forall|x: u32| first_scan(rules1, v, seq, j).contains(x) implies first_scan(
                rules2,
                v,
                seq,
                j,
            ).contains(x) by {
                assert(f1.contains(x) && x != EPSILON_INDEX);
                if f2.contains(EPSILON_INDEX) {
                    assert(f2.remove(EPSILON_INDEX).contains(x));
                }
            }
        }
    }
}

/// Monotonicity of FIRST: adding rules to a grammar can only grow the FIRST
/// set of any symbol sequence, never shrink it. `rules2` is `rules1` with
/// any number of further rules appended; the sequence, and so every
/// nonterminal, keeps every terminal its FIRST set had and may gain more.
pub proof fn lemma_first_of_seq_monotone(
    rules1: Seq<(Symbol, Seq<Symbol>)>,
    rules2: Seq<(Symbol, Seq<Symbol>)>,
    nts: u32,
    seq: Seq<Symbol>,
)
    requires
        rules1.len() <= rules2.len(),
        forall|k: int| 0 <= k < rules1.len() ==> rules2[k] == rules1[k],
    ensures
        first_of_seq(rules1, nts, seq).subset_of(first_of_seq(rules2, nts, seq)),
{
    if seq.len() > 0 {
        lemma_first_scan_monotone(rules1, rules2, empty_visited(nts), seq, 0);
    }
}

/// A bitmap of `n` clear entries.
pub(crate) fn bitmap_falses(n: usize) -> (r: Vec<bool>)
    ensures
        r@.len() == n,
        forall|t: int| 0 <= t < n ==> !r@[t],
{
    let mut r: Vec<bool> = Vec::new();
    let mut t: usize = 0;
    while t < n
        invariant
            t <= n,
            r@.len() == t,
            forall|k: int| 0 <= k < t ==> !r@[k],
        decreases n - t,
    {
        r.push(false);
        t = t + 1;
    }
    r
}

/// A copy of a bitmap.
fn bitmap_copy(v: &Vec<bool>) -> (r: Vec<bool>)
    ensures
        r@ == v@,
{
    let mut r: Vec<bool> = Vec::new();
    let mut t: usize = 0;
    let n = v.len();
    while t < n
        invariant
            t <= n,
            n == v@.len(),
            r@.len() == t,
            forall|k: int| 0 <= k < t ==> r@[k] == v@[k],
        decreases n - t,
    {
        r.push(v[t]);
        t = t + 1;
    }
    assert(r@ =~= v@);
    r
}

/// Pointwise disjunction of two bitmaps of the same length.
fn bitmap_or(a: &Vec<bool>, b: &Vec<bool>) -> (r: Vec<bool>)
    requires
        a@.len() == b@.len(),
    ensures
        r@.len() == a@.len(),
        forall|t: int| 0 <= t < r@.len() ==> r@[t] == (a@[t] || b@[t]),
{
    let mut r: Vec<bool> = Vec::new();
    let mut t: usize = 0;
    let n = a.len();
    while t < n
        invariant
            t <= n,
            n == a@.len(),
            a@.len() == b@.len(),
            r@.len() == t,
            forall|k: int| 0 <= k < t ==> r@[k] == (a@[k] || b@[k]),
        decreases n - t,
    {
        r.push(a[t] || b[t]);
        t = t + 1;
    }
    r
}

/// Pointwise disjunction of `a` without its epsilon entry and `b`.
fn bitmap_or_minus_epsilon(a: &Vec<bool>, b: &Vec<bool>) -> (r: Vec<bool>)
    requires
        a@.len() == b@.len(),
    ensures
        r@.len() == a@.len(),
        forall|t: int|
            0 <= t < r@.len() ==> r@[t] == ((a@[t] && t != EPSILON_INDEX as int) || b@[t]),
{
    let mut r: Vec<bool> = Vec::new();
    let mut t: usize = 0;
    let n = a.len();
    while t < n
        invariant
            t <= n,
            n == a@.len(),
            a@.len() == b@.len(),
            r@.len() == t,
            forall|k: int| 0 <= k < t ==> r@[k] == ((a@[k] && k != EPSILON_INDEX as int) || b@[k]),
        decreases n - t,
    {
        r.push((a[t] && t != EPSILON_INDEX as usize) || b[t]);
        t = t + 1;
    }
    r
}

/// FIRST of a single symbol under the visited guard `visited`, as a dense
/// terminal bitmap. Nonterminals marked in `visited` are being expanded
/// further up the call chain and are not re-entered.
pub fn compute_first_of_symbol<T>(cfg: &Cfg<T>, visited: &Vec<bool>, sym: Symbol) -> (r: Vec<bool>)
    requires
        cfg.wf(),
        visited@.len() == cfg.nt_count(),
        valid_symbol(sym, cfg.nt_count(), cfg.term_count()),
    ensures
        r@.len() == cfg.term_count(),
        forall|t: int|
            0 <= t < r@.len() ==> r@[t] == first_sym(cfg.spec_rules(), visited@, sym).contains(
                t as u32,
            ),
    decreases count_false(visited@), 0int, 0int,
{
    let m = cfg.num_terminals() as usize;
    match sym {
        Symbol::Terminal(t) => {
            let mut r = bitmap_falses(m);
            r[t as usize] = true;
            r
        },
        Symbol::Nonterminal(a) => {
            if visited[a as usize] {
                let r = bitmap_falses(m);
                r
            } else {
                let mut v2 = bitmap_copy(visited);
                v2[a as usize] = true;
                proof {
                    lemma_count_false_update(visited@, a as int);
                }
                let rs = cfg.rules();
                let n = rs.len();
                let ghost spec_r = cfg.spec_rules();
                let mut acc = bitmap_falses(m);
                let mut i: usize = 0;
                while i < n
                    invariant
                        i <= n,
                        cfg.wf(),
                        n == spec_r.len(),
                        spec_r == cfg.spec_rules(),
                        unpack_rules(rs@) == spec_r,
                        rs@.len() == n,
                        visited@.len() == cfg.nt_count(),
                        v2@ == visited@.update(a as int, true),
                        v2@.len() == cfg.nt_count(),
                        count_false(v2@) < count_false(visited@),
                        a < cfg.nt_count(),
                        m == cfg.term_count(),
                        acc@.len() == m,
                        forall|t: int| #![trigger acc@[t]]
                            0 <= t < m ==> (acc@[t] || first_alts(
                                spec_r,
                                v2@,
                                a,
                                i as int,
                            ).contains(t as u32)) == first_alts(spec_r, v2@, a, 0).contains(
                                t as u32,
                            ),
                    decreases n - i,
                {
                    let lhs = rs[i].0.unpack();
                    assert(spec_r[i as int] == (rs@[i as int].0.unpacked(), unpack_syms(
                        rs@[i as int].1@,
                    )));
                    let ghost acc_old = acc@;
                    if lhs == Symbol::Nonterminal(a) {
                        assert(unpack_syms(rs@[i as int].1@) == spec_r[i as int].1);
                        assert(forall|k: int|
                            0 <= k < rs@[i as int].1@.len() ==> valid_symbol(
                                unpack_syms(rs@[i as int].1@)[k],
                                cfg.nt_count(),
                                cfg.term_count(),
                            )) by {
                            assert(forall|k: int|
                                0 <= k < spec_r[i as int].1.len() ==> valid_symbol(
                                    #[trigger] spec_r[i as int].1[k],
                                    cfg.nt_count(),
                                    cfg.term_count(),
                                ));
                        }
                        let f = first_of_packed_seq(cfg, &v2, &rs[i].1, 0);
                        acc = bitmap_or(&acc, &f);
                        proof {
                            assert(first_alts(spec_r, v2@, a, i as int) == first_scan(
                                spec_r,
                                v2@,
                                spec_r[i as int].1,
                                0,
                            ).union(first_alts(spec_r, v2@, a, i as int + 1)));
                            assert forall|t: int| #![trigger acc@[t]]
                                0 <= t < m implies (acc@[t] || first_alts(
                                spec_r,
                                v2@,
                                a,
                                i as int + 1,
                            ).contains(t as u32)) == first_alts(spec_r, v2@, a, 0).contains(
                                t as u32,
                            ) by {
                                assert(acc@[t] == (acc_old[t] || f@[t]));
                                assert(f@[t] == first_scan(
                                    spec_r,
                                    v2@,
                                    spec_r[i as int].1,
                                    0,
                                ).contains(t as u32));
                                assert((acc_old[t] || first_alts(spec_r, v2@, a, i as int).contains(
                                    t as u32,
                                )) == first_alts(spec_r, v2@, a, 0).contains(t as u32));
                                assert(first_alts(spec_r, v2@, a, i as int).contains(t as u32) == (
                                first_scan(spec_r, v2@, spec_r[i as int].1, 0).contains(t as u32)
                                    || first_alts(spec_r, v2@, a, i as int + 1).contains(t as u32)));
                            }
                        }
                    } else {
                        proof {
                            assert(first_alts(spec_r, v2@, a, i as int) == Set::empty().union(
                                first_alts(spec_r, v2@, a, i as int + 1),
                            ));
                            assert forall|t: int| #![trigger acc@[t]]
                                0 <= t < m implies (acc@[t] || first_alts(
                                spec_r,
                                v2@,
                                a,
                                i as int + 1,
                            ).contains(t as u32)) == first_alts(spec_r, v2@, a, 0).contains(
                                t as u32,
                            ) by {
                                assert((acc_old[t] || first_alts(spec_r, v2@, a, i as int).contains(
                                    t as u32,
                                )) == first_alts(spec_r, v2@, a, 0).contains(t as u32));
                                assert(first_alts(spec_r, v2@, a, i as int).contains(t as u32)
                                    == first_alts(spec_r, v2@, a, i as int + 1).contains(t as u32));
                            }
                        }
                    }
                    let ghost i_prev = i as int;
                    i = i + 1;
                    proof {
                        assert(i as int == i_prev + 1);
                        assert forall|t: int| #![trigger acc@[t]]
                            0 <= t < m implies (acc@[t] || first_alts(
                            spec_r,
                            v2@,
                            a,
                            i as int,
                        ).contains(t as u32)) == first_alts(spec_r, v2@, a, 0).contains(
                            t as u32,
                        ) by {
                            assert((acc@[t] || first_alts(spec_r, v2@, a, i_prev + 1).contains(
                                t as u32,
                            )) == first_alts(spec_r, v2@, a, 0).contains(t as u32));
                            assert(first_alts(spec_r, v2@, a, i as int) == first_alts(
                                spec_r,
                                v2@,
                                a,
                                i_prev + 1,
                            ));
                        }
                    }
                }
                proof {
                    assert(forall|t: int|
                        0 <= t < m ==> !(#[trigger] first_alts(spec_r, v2@, a, n as int).contains(
                            t as u32,
                        )));
                    assert(first_sym(spec_r, visited@, Symbol::Nonterminal(a)) == first_alts(
                        spec_r,
                        v2@,
                        a,
                        0,
                    ));
                }
                acc
            }
        },
    }
}

/// FIRST of the stored symbol sequence `seq[from..]` under the visited
/// guard, as a dense terminal bitmap.
pub fn first_of_packed_seq<T>(
    cfg: &Cfg<T>,
    visited: &Vec<bool>,
    seq: &Vec<PackedSymbol>,
    from: usize,
) -> (r: Vec<bool>)
    requires
        cfg.wf(),
        visited@.len() == cfg.nt_count(),
        forall|k: int|
            0 <= k < seq@.len() ==> valid_symbol(
                unpack_syms(seq@)[k],
                cfg.nt_count(),
                cfg.term_count(),
            ),
    ensures
        r@.len() == cfg.term_count(),
        forall|t: int|
            0 <= t < r@.len() ==> r@[t] == first_scan(
                cfg.spec_rules(),
                visited@,
                unpack_syms(seq@),
                from as int,
            ).contains(t as u32),
    decreases count_false(visited@), 1int, seq@.len() - from,
{
    let m = cfg.num_terminals() as usize;
    if from >= seq.len() {
        let mut r = bitmap_falses(m);
        r[EPSILON_INDEX as usize] = true;
        r
    } else {
        let s = seq[from].unpack();
        assert(unpack_syms(seq@)[from as int] == seq@[from as int].unpacked());
        let f = compute_first_of_symbol(cfg, visited, s);
        if f[EPSILON_INDEX as usize] {
            let rest = first_of_packed_seq(cfg, visited, seq, from + 1);
            bitmap_or_minus_epsilon(&f, &rest)
        } else {
            f
        }
    }
}

/// FIRST of an arbitrary sequence of grammar symbols: the set of terminals
/// (possibly with the epsilon sentinel) that can begin some derivation of
/// the sequence, as a dense terminal bitmap. The empty sequence yields the
/// empty set.
pub fn compute_first_of<T>(cfg: &Cfg<T>, seq: &[Symbol]) -> (r: Vec<bool>)
    requires
        cfg.wf(),
        forall|k: int|
            0 <= k < seq@.len() ==> valid_symbol(#[trigger] seq@[k], cfg.nt_count(), cfg.term_count()),
    ensures
        r@.len() == cfg.term_count(),
        forall|t: int|
            0 <= t < r@.len() ==> r@[t] == first_of_seq(
                cfg.spec_rules(),
                cfg.nt_count(),
                seq@,
            ).contains(t as u32),
{
    let m = cfg.num_terminals() as usize;
    if seq.len() == 0 {
        let r = bitmap_falses(m);
        r
    } else {
        let mut packed: Vec<PackedSymbol> = Vec::new();
        let mut j: usize = 0;
        while j < seq.len()
            invariant
                j <= seq@.len(),
                cfg.wf(),
                forall|k: int|
                    0 <= k < seq@.len() ==> valid_symbol(
                        #[trigger] seq@[k],
                        cfg.nt_count(),
                        cfg.term_count(),
                    ),
                packed@.len() == j,
                unpack_syms(packed@) == seq@.take(j as int),
            decreases seq@.len() - j,
        {
            let s = seq[j];
            packed.push(s.pack());
            assert(unpack_syms(packed@) =~= seq@.take(j as int + 1));
            j = j + 1;
        }
        assert(seq@.take(seq@.len() as int) =~= seq@);
        let visited = bitmap_falses(cfg.num_nonterminals() as usize);
        assert(visited@ =~= empty_visited(cfg.nt_count()));
        first_of_packed_seq(cfg, &visited, &packed, 0)
    }
}

/// A bitmap grows pointwise: every set entry of `a` is set in `b`.
pub open spec fn bitmap_le(a: Seq<bool>, b: Seq<bool>) -> bool {
    forall|t: int| 0 <= t < a.len() && a[t] ==> b[t]
}

/// Growing a bitmap pointwise never increases `count_false`, and strictly
/// lowers it when some entry is newly set.
pub proof fn lemma_count_false_le(a: Seq<bool>, b: Seq<bool>)
    requires
        a.len() == b.len(),
        bitmap_le(a, b),
    ensures
        count_false(b) <= count_false(a),
        (exists|t: int| 0 <= t < b.len() && b[t] && !a[t]) ==> count_false(b) < count_false(a),
    decreases a.len(),
{
    if a.len() > 0 {
        let a1 = a.subrange(1, a.len() as int);
        let b1 = b.subrange(1, b.len() as int);
        assert(bitmap_le(a1, b1)) by {
            assert(forall|t: int| 0 <= t < a1.len() && a1[t] ==> a[t + 1] && #[trigger] b1[t]);
        }
        lemma_count_false_le(a1, b1);
        if exists|t: int| 0 <= t < b.len() && b[t] && !a[t] {
            let t = choose|t: int| 0 <= t < b.len() && b[t] && !a[t];
            if t > 0 {
                assert(b1[t - 1] && !a1[t - 1]);
            }
        }
    }
}

/// Number of `false` entries across all the rows of a bitmap matrix.
pub open spec fn count2_false(f: Seq<Seq<bool>>) -> nat
    decreases f.len(),
{
    if f.len() == 0 {
        0
    } else {
        count_false(f[0]) + count2_false(f.subrange(1, f.len() as int))
    }
}

/// Replacing one row of a bitmap matrix trades its `count_false` for the
/// new row's.
pub proof fn lemma_count2_false_update(f: Seq<Seq<bool>>, a: int, row: Seq<bool>)
    requires
        0 <= a < f.len(),
    ensures
        count2_false(f.update(a, row)) + count_false(f[a]) == count2_false(f) + count_false(row),
    decreases f.len(),
{
    let g = f.update(a, row);
    if a == 0 {
        assert(g.subrange(1, g.len() as int) =~= f.subrange(1, f.len() as int));
    } else {
        assert(g.subrange(1, g.len() as int) =~= f.subrange(1, f.len() as int).update(a - 1, row));
        lemma_count2_false_update(f.subrange(1, f.len() as int), a - 1, row);
    }
}

/// A matrix stored as a vector of row vectors, as a mathematical sequence
/// of rows.
pub open spec fn rows_view<T>(sets: Seq<Vec<T>>) -> Seq<Seq<T>> {
    sets.map_values(|r: Vec<T>| r@)
}

/// The matrix has one row per nonterminal and one column per terminal.
pub open spec fn follow_dims(f: Seq<Seq<bool>>, nts: u32, terms: u32) -> bool {
    &&& f.len() == nts
    &&& forall|a: int| 0 <= a < f.len() ==> (#[trigger] f[a]).len() == terms
}

/// Position `j` of rule `r` holds a nonterminal, and terminal `t` belongs
/// to the FIRST set of the rest of that right-hand side.
pub open spec fn rhs_position_first(
    rules: Seq<(Symbol, Seq<Symbol>)>,
    nts: u32,
    r: int,
    j: int,
    t: int,
) -> bool {
    &&& 0 <= r < rules.len()
    &&& 0 <= j < rules[r].1.len()
    &&& rules[r].1[j] is Nonterminal
    &&& 0 <= t
    &&& first_scan(rules, empty_visited(nts), rules[r].1, j + 1).contains(t as u32)
}

/// Position `j` of rule `r` holds a nonterminal whose following part of the
/// right-hand side can derive the empty string (in particular, is empty):
/// the condition under which FOLLOW of the rule's left-hand side flows into
/// FOLLOW of that nonterminal.
pub open spec fn rhs_position_nullable_tail(
    rules: Seq<(Symbol, Seq<Symbol>)>,
    nts: u32,
    r: int,
    j: int,
) -> bool {
    &&& 0 <= r < rules.len()
    &&& 0 <= j < rules[r].1.len()
    &&& rules[r].1[j] is Nonterminal
    &&& first_scan(rules, empty_visited(nts), rules[r].1, j + 1).contains(EPSILON_INDEX)
}

/// Index of the nonterminal on the left of the start rule.
pub open spec fn start_lhs(rules: Seq<(Symbol, Seq<Symbol>)>, start: int) -> int {
    rules[start].0.idx() as int
}

/// FOLLOW of every nonterminal covers the epsilon-free FIRST sets of the
/// right-hand-side parts that follow its occurrences.
pub open spec fn follow_covers_firsts(
    rules: Seq<(Symbol, Seq<Symbol>)>,
    nts: u32,
    terms: u32,
    f: Seq<Seq<bool>>,
) -> bool {
    forall|r: int, j: int, t: int|
        #[trigger] rhs_position_first(rules, nts, r, j, t) && 0 <= t < terms && t
            != EPSILON_INDEX ==> f[rules[r].1[j].idx() as int][t]
}

/// FOLLOW of a rule's left-hand side flows into FOLLOW of every
/// right-hand-side nonterminal whose tail can derive the empty string.
pub open spec fn follow_propagates(
    rules: Seq<(Symbol, Seq<Symbol>)>,
    nts: u32,
    terms: u32,
    f: Seq<Seq<bool>>,
) -> bool {
    forall|r: int, j: int, t: int|
        #![trigger rhs_position_nullable_tail(rules, nts, r, j), f[rules[r].0.idx() as int][t]]
        rhs_position_nullable_tail(rules, nts, r, j) && 0 <= t < terms && f[rules[r].0.idx() as int][t]
            ==> f[rules[r].1[j].idx() as int][t]
}

/// The three conditions a family of FOLLOW sets must satisfy: the start
/// rule's left-hand side is followed by end-of-input, the epsilon-free FIRST
/// set of what follows each nonterminal occurrence is covered, and FOLLOW
/// sets flow along nullable-tail occurrences.
pub open spec fn follow_closed(
    rules: Seq<(Symbol, Seq<Symbol>)>,
    nts: u32,
    terms: u32,
    start: int,
    f: Seq<Seq<bool>>,
) -> bool {
    &&& f[start_lhs(rules, start)][END_OF_INPUT_INDEX as int]
    &&& follow_covers_firsts(rules, nts, terms, f)
    &&& follow_propagates(rules, nts, terms, f)
}

/// A terminal is forced into a FOLLOW set when every closed family of the
/// right dimensions contains it: the defining property of the least
/// solution.
pub open spec fn follow_forced(
    rules: Seq<(Symbol, Seq<Symbol>)>,
    nts: u32,
    terms: u32,
    start: int,
    a: int,
    t: int,
) -> bool {
    forall|g: Seq<Seq<bool>>|
        follow_dims(g, nts, terms) && #[trigger] follow_closed(rules, nts, terms, start, g)
            ==> g[a][t]
}

/// The computed FOLLOW family is contained in every closed family: together
/// with `follow_closed` this pins it down as the least solution.
pub open spec fn follow_minimal(
    rules: Seq<(Symbol, Seq<Symbol>)>,
    nts: u32,
    terms: u32,
    start: int,
    f: Seq<Seq<bool>>,
) -> bool {
    forall|a: int, t: int|
        0 <= a < f.len() && 0 <= t < f[a].len() && #[trigger] f[a][t] ==> follow_forced(
            rules,
            nts,
            terms,
            start,
            a,
            t,
        )
}

/// An edge recorded for the FOLLOW relaxation: some rule has the target
/// nonterminal at a position whose tail can derive the empty string, with
/// the source nonterminal on the rule's left.
pub open spec fn edge_valid(rules: Seq<(Symbol, Seq<Symbol>)>, nts: u32, e: (u32, u32)) -> bool {
    exists|r: int, j: int|
        #[trigger] rhs_position_nullable_tail(rules, nts, r, j) && rules[r].0.idx() == e.0
            && rules[r].1[j].idx() == e.1
}

/// Whether FOLLOW flows unimpeded along one recorded edge: every terminal
/// in the source row is already in the target row.
pub open spec fn edge_stable(f: Seq<Seq<bool>>, e: (u32, u32), terms: u32) -> bool {
    forall|t: int| 0 <= t < terms && f[e.0 as int][t] ==> f[e.1 as int][t]
}

/// A matrix of `n` rows of `m` clear entries.
fn matrix_falses(n: usize, m: usize) -> (r: Vec<Vec<bool>>)
    ensures
        rows_view(r@).len() == n,
        forall|a: int| 0 <= a < n ==> (#[trigger] rows_view(r@)[a]).len() == m,
        forall|a: int, t: int| 0 <= a < n && 0 <= t < m ==> !(#[trigger] rows_view(r@)[a][t]),
{
    let mut r: Vec<Vec<bool>> = Vec::new();
    let mut a: usize = 0;
    while a < n
        invariant
            a <= n,
            r@.len() == a,
            forall|x: int| 0 <= x < a ==> (#[trigger] rows_view(r@)[x]).len() == m,
            forall|x: int, t: int| 0 <= x < a && 0 <= t < m ==> !(#[trigger] rows_view(r@)[x][t]),
        decreases n - a,
    {
        let ghost prev = r@;
        let row = bitmap_falses(m);
        let ghost rv = row@;
        r.push(row);
        assert(rows_view(r@) =~= rows_view(prev).push(rv));
        a = a + 1;
    }
    r
}

/// Replace one row of a bitmap matrix.
fn put_row(sets: &mut Vec<Vec<bool>>, a: usize, row: Vec<bool>)
    requires
        a < old(sets)@.len(),
    ensures
        final(sets)@.len() == old(sets)@.len(),
        rows_view(final(sets)@) == rows_view(old(sets)@).update(a as int, row@),
{
    let ghost rv = row@;
    sets[a] = row;
    assert(rows_view(sets@) =~= rows_view(old(sets)@).update(a as int, rv));
}

/// Set one cell of a bitmap matrix.
fn set_cell(sets: &mut Vec<Vec<bool>>, a: usize, t: usize)
    requires
        a < old(sets)@.len(),
        t < rows_view(old(sets)@)[a as int].len(),
    ensures
        final(sets)@.len() == old(sets)@.len(),
        rows_view(final(sets)@) == rows_view(old(sets)@).update(
            a as int,
            rows_view(old(sets)@)[a as int].update(t as int, true),
        ),
{
    let mut row = bitmap_copy(&sets[a]);
    assert(row@ == rows_view(sets@)[a as int]);
    row[t] = true;
    put_row(sets, a, row);
}

/// Whether `a` holds some terminal that `b` lacks.
fn bitmap_has_new(a: &Vec<bool>, b: &Vec<bool>) -> (r: bool)
    requires
        a@.len() == b@.len(),
    ensures
        r == exists|t: int| 0 <= t < a@.len() && a@[t] && !b@[t],
{
    let mut t: usize = 0;
    let n = a.len();
    while t < n
        invariant
            t <= n,
            n == a@.len(),
            a@.len() == b@.len(),
            forall|k: int| 0 <= k < t ==> !(a@[k] && !b@[k]),
        decreases n - t,
    {
        if a[t] && !b[t] {
            assert(a@[t as int] && !b@[t as int]);
            return true;
        }
        t = t + 1;
    }
    false
}

/// A right-hand-side symbol that derives the empty string under the marked
/// set `m`: either a nonterminal marked in `m`, or the epsilon sentinel
/// itself, which stands for the empty string wherever it occurs — the same
/// reading the FIRST computation gives it.
pub open spec fn rhs_sym_nullable(sym: Symbol, m: Seq<bool>) -> bool {
    (sym is Nonterminal && m[sym.idx() as int]) || sym == Symbol::Terminal(EPSILON_INDEX)
}

/// Every symbol of a right-hand side derives the empty string under `m`.
pub open spec fn all_rhs_marked(rhs: Seq<Symbol>, m: Seq<bool>) -> bool {
    forall|j: int| 0 <= j < rhs.len() ==> rhs_sym_nullable(#[trigger] rhs[j], m)
}

/// `m` is closed under the rules: whenever every symbol of a rule's
/// right-hand side derives the empty string under `m` (in particular, when
/// the right-hand side is empty or all epsilon placeholders), the rule's
/// left-hand nonterminal is marked.
pub open spec fn nullable_closed(rules: Seq<(Symbol, Seq<Symbol>)>, m: Seq<bool>) -> bool {
    forall|r: int|
        0 <= r < rules.len() && all_rhs_marked((#[trigger] rules[r]).1, m) ==> m[rules[r].0.idx() as int]
}

/// The computed nullable set is contained in every closed set of the same
/// size: together with `nullable_closed` this pins it down as the least
/// solution.
pub open spec fn nullable_minimal(rules: Seq<(Symbol, Seq<Symbol>)>, n: Seq<bool>) -> bool {
    forall|m: Seq<bool>, b: int|
        #![trigger nullable_closed(rules, m), n[b]]
        nullable_closed(rules, m) && m.len() == n.len() && 0 <= b < n.len() && n[b] ==> m[b]
}

/// Number of positions of `rhs[j..]` whose symbol derives the empty string
/// under `m`.
pub open spec fn count_marked_from(rhs: Seq<Symbol>, m: Seq<bool>, j: int) -> nat
    decreases rhs.len() - j,
{
    if j < 0 || j >= rhs.len() {
        0
    } else {
        (if rhs_sym_nullable(rhs[j], m) {
            1nat
        } else {
            0nat
        }) + count_marked_from(rhs, m, j + 1)
    }
}

/// Number of positions of `rhs[j..]` holding nonterminal `b`.
pub open spec fn count_occ_from(rhs: Seq<Symbol>, b: int, j: int) -> nat
    decreases rhs.len() - j,
{
    if j < 0 || j >= rhs.len() {
        0
    } else {
        (if rhs[j] is Nonterminal && rhs[j].idx() == b {
            1nat
        } else {
            0nat
        }) + count_occ_from(rhs, b, j + 1)
    }
}

/// The marked-position count reaches the number of remaining positions
/// exactly when every remaining position derives the empty string.
pub proof fn lemma_count_marked_from_full(rhs: Seq<Symbol>, m: Seq<bool>, j: int)
    requires
        0 <= j <= rhs.len(),
    ensures
        count_marked_from(rhs, m, j) <= rhs.len() - j,
        count_marked_from(rhs, m, j) == rhs.len() - j <==> forall|p: int|
            j <= p < rhs.len() ==> rhs_sym_nullable(#[trigger] rhs[p], m),
    decreases rhs.len() - j,
{
    if j < rhs.len() {
        lemma_count_marked_from_full(rhs, m, j + 1);
    }
}

/// Marking one more nonterminal raises each rule's marked-position count by
/// that nonterminal's number of occurrences.
pub proof fn lemma_count_marked_from_mark(rhs: Seq<Symbol>, m: Seq<bool>, b: int, j: int)
    requires
        0 <= b < m.len(),
        !m[b],
        forall|p: int|
            0 <= p < rhs.len() && (#[trigger] rhs[p]) is Nonterminal ==> rhs[p].idx() < m.len(),
    ensures
        count_marked_from(rhs, m.update(b, true), j) == count_marked_from(rhs, m, j)
            + count_occ_from(rhs, b, j),
    decreases rhs.len() - j,
{
    if 0 <= j < rhs.len() {
        lemma_count_marked_from_mark(rhs, m, b, j + 1);
    }
}

/// A sequence of distinct values below `n` has at most `n` entries.
pub proof fn lemma_distinct_bounded_len(q: Seq<u32>, n: u32)
    requires
        forall|p: int, r: int| 0 <= p < r < q.len() ==> q[p] != q[r],
        forall|p: int| 0 <= p < q.len() ==> q[p] < n,
    ensures
        q.len() <= n,
{
    let qi = q.map_values(|x: u32| x as int);
    assert(qi.no_duplicates()) by {
        assert(forall|p: int, r: int|
            0 <= p < qi.len() && 0 <= r < qi.len() && p != r ==> #[trigger] qi[p] != #[trigger] qi[r]);
    }
    qi.unique_seq_to_set();
    assert(qi.to_set().subset_of(vstd::set_lib::set_int_range(0, n as int))) by {
        assert forall|x: int| qi.to_set().contains(x) implies vstd::set_lib::set_int_range(
            0,
            n as int,
        ).contains(x) by {
            assert(qi.contains(x));
            let p = choose|p: int| 0 <= p < qi.len() && qi[p] == x;
            assert(q[p] < n);
        }
    }
    vstd::set_lib::lemma_int_range(0, n as int);
    vstd::set_lib::lemma_len_subset(qi.to_set(), vstd::set_lib::set_int_range(0, n as int));
}

/// The set of nullable nonterminals of a grammar, indexed by nonterminal
/// index: entry `a` is true when nonterminal `a` can derive the empty string
/// in one or more rewrite steps, where a right-hand side derives the empty
/// string when each of its symbols is a nullable nonterminal or the epsilon
/// placeholder (in particular, when it is empty).
pub struct Nullability {
    /// Dense membership bitmap over nonterminal indices.
    pub nullable: Vec<bool>,
}

/// Compute the FOLLOW relation of a frozen grammar and attach it to the
/// grammar's analysis store. For each nonterminal `a`, the resulting row
/// holds the terminals (possibly the end-of-input sentinel, never the
/// epsilon sentinel) that can immediately follow `a` in a derivation from
/// the start rule: the least family of sets that contains end-of-input
/// after the start rule's left-hand side, covers the epsilon-free FIRST set
/// of what follows each nonterminal occurrence, and is closed under
/// propagation across occurrences whose tail can derive the empty string.
pub fn compute_follow(cfg: &mut Cfg<Frozen>)
    requires
        old(cfg).wf(),
        old(cfg).spec_rules().len() > 0,
    ensures
        final(cfg).wf(),
        final(cfg).spec_rules() == old(cfg).spec_rules(),
        final(cfg).nt_count() == old(cfg).nt_count(),
        final(cfg).term_count() == old(cfg).term_count(),
        final(cfg).start_idx() == old(cfg).start_idx(),
        final(cfg).spec_extra().nullability == old(cfg).spec_extra().nullability,
        final(cfg).spec_extra().names == old(cfg).spec_extra().names,
        final(cfg).spec_extra().follow is Some,
        ({
            let f = rows_view(final(cfg).spec_extra().follow->Some_0.sets@);
            let rules = old(cfg).spec_rules();
            let nts = old(cfg).nt_count();
            let terms = old(cfg).term_count();
            let start = old(cfg).start_idx();
            &&& follow_dims(f, nts, terms)
            &&& follow_closed(rules, nts, terms, start, f)
            &&& follow_minimal(rules, nts, terms, start, f)
            &&& f[start_lhs(rules, start)][END_OF_INPUT_INDEX as int]
            &&& forall|a: int| 0 <= a < f.len() ==> !(#[trigger] f[a])[EPSILON_INDEX as int]
        }),
{
    let nn = cfg.num_nonterminals() as usize;
    let mm = cfg.num_terminals() as usize;
    let ghost rules = cfg.spec_rules();
    let ghost nts = cfg.nt_count();
    let ghost terms = cfg.term_count();
    let ghost start = cfg.start_idx();

    let mut sets = matrix_falses(nn, mm);
    let mut edges: Vec<(u32, u32)> = Vec::new();
    let visited0 = bitmap_falses(nn);
    assert(visited0@ =~= empty_visited(nts));

    let start_pos = cfg.start_rule();
    let rs = cfg.rules();
    let rr = rs.len();
    assert(forall|x: int|
        0 <= x < rr ==> rules[x] == ((#[trigger] rs@[x]).0.unpacked(), unpack_syms(rs@[x].1@)));

    // Seed: end-of-input follows the start rule's left-hand side.
    let sl = rs[start_pos].0.to_index() as usize;
    assert(sl == start_lhs(rules, start) && sl < nn);
    set_cell(&mut sets, sl, END_OF_INPUT_INDEX as usize);
    assert(forall|g: Seq<Seq<bool>>|
        follow_dims(g, nts, terms) && #[trigger] follow_closed(rules, nts, terms, start, g)
            ==> g[sl as int][END_OF_INPUT_INDEX as int]);

    // Seed the FIRST-based part of every FOLLOW set and record the
    // propagation edges.
    let mut r: usize = 0;
    while r < rr
        invariant
            r <= rr,
            cfg.wf(),
            rr == rules.len(),
            rules == cfg.spec_rules(),
            nts == cfg.nt_count(),
            terms == cfg.term_count(),
            start == cfg.start_idx(),
            unpack_rules(rs@) == rules,
            rs@.len() == rr,
            nn == nts && mm == terms,
            2 <= mm,
            0 <= start_lhs(rules, start) < nn,
            visited0@ == empty_visited(nts),
            rows_view(sets@).len() == nn,
            follow_dims(rows_view(sets@), nts, terms),
            rows_view(sets@)[start_lhs(rules, start)][END_OF_INPUT_INDEX as int],
            follow_minimal(rules, nts, terms, start, rows_view(sets@)),
            forall|a: int|
                0 <= a < nn ==> !(#[trigger] rows_view(sets@)[a])[EPSILON_INDEX as int],
            forall|k: int|
                0 <= k < edges@.len() ==> (#[trigger] edges@[k]).0 < nts && edges@[k].1 < nts
                    && edge_valid(rules, nts, edges@[k]),
            forall|x: int, y: int, t: int|
                #[trigger] rhs_position_first(rules, nts, x, y, t) && 0 <= t < terms && t
                    != EPSILON_INDEX && x < r ==> rows_view(sets@)[rules[x].1[y].idx() as int][t],
            forall|x: int, y: int|
                #[trigger] rhs_position_nullable_tail(rules, nts, x, y) && x < r ==> exists|k: int|
                    0 <= k < edges@.len() && edges@[k] == (
                        rules[x].0.idx() as u32,
                        rules[x].1[y].idx() as u32,
                    ),
        decreases rr - r,
    {
        let len_r = rs[r].1.len();
        assert(rules[r as int].1 == unpack_syms(rs@[r as int].1@));
        assert(rules[r as int].0 is Nonterminal && rules[r as int].0.idx() < nts);
        let lhs_idx = rs[r].0.to_index();
        let mut j: usize = 0;
        while j < len_r
            invariant
                j <= len_r,
                r < rr,
                cfg.wf(),
                rr == rules.len(),
                rules == cfg.spec_rules(),
                nts == cfg.nt_count(),
                terms == cfg.term_count(),
                start == cfg.start_idx(),
                unpack_rules(rs@) == rules,
                rs@.len() == rr,
                nn == nts && mm == terms,
                2 <= mm,
                0 <= start_lhs(rules, start) < nn,
                visited0@ == empty_visited(nts),
                len_r == rules[r as int].1.len(),
                lhs_idx == rules[r as int].0.idx(),
                lhs_idx < nts,
                rows_view(sets@).len() == nn,
                follow_dims(rows_view(sets@), nts, terms),
                rows_view(sets@)[start_lhs(rules, start)][END_OF_INPUT_INDEX as int],
                follow_minimal(rules, nts, terms, start, rows_view(sets@)),
                forall|a: int|
                    0 <= a < nn ==> !(#[trigger] rows_view(sets@)[a])[EPSILON_INDEX as int],
                forall|k: int|
                    0 <= k < edges@.len() ==> (#[trigger] edges@[k]).0 < nts && edges@[k].1 < nts
                        && edge_valid(rules, nts, edges@[k]),
                forall|x: int, y: int, t: int|
                    #[trigger] rhs_position_first(rules, nts, x, y, t) && 0 <= t < terms && t
                        != EPSILON_INDEX && (x < r || (x == r && y < j))
                        ==> rows_view(sets@)[rules[x].1[y].idx() as int][t],
                forall|x: int, y: int|
                    #[trigger] rhs_position_nullable_tail(rules, nts, x, y) && (x < r || (x == r
                        && y < j)) ==> exists|k: int|
                        0 <= k < edges@.len() && edges@[k] == (
                            rules[x].0.idx() as u32,
                            rules[x].1[y].idx() as u32,
                        ),
            decreases len_r - j,
        {
            let sym = rs[r].1[j];
            assert(sym.unpacked() == rules[r as int].1[j as int]);
            assert(valid_symbol(sym.unpacked(), nts, terms)) by {
                assert(forall|q: int|
                    0 <= q < rules[r as int].1.len() ==> valid_symbol(
                        #[trigger] rules[r as int].1[q],
                        nts,
                        terms,
                    ));
            }
            if sym.is_nonterminal() {
                let b = sym.to_index();
                assert(b == rules[r as int].1[j as int].idx() && b < nts);
                assert(forall|q: int|
                    0 <= q < rs@[r as int].1@.len() ==> valid_symbol(
                        unpack_syms(rs@[r as int].1@)[q],
                        cfg.nt_count(),
                        cfg.term_count(),
                    )) by {
                    assert(forall|q: int|
                        0 <= q < rules[r as int].1.len() ==> valid_symbol(
                            #[trigger] rules[r as int].1[q],
                            nts,
                            terms,
                        ));
                }
                let first = first_of_packed_seq(cfg, &visited0, &rs[r].1, j + 1);
                let ghost fset = first_scan(rules, empty_visited(nts), rules[r as int].1, j as int + 1);
                assert(forall|t: int| 0 <= t < mm ==> first@[t] == fset.contains(t as u32));
                let ghost old_rows = rows_view(sets@);
                assert(rows_view(sets@)[b as int] == sets@[b as int]@);
                let newrow = bitmap_or_minus_epsilon(&first, &sets[b as usize]);
                put_row(&mut sets, b as usize, newrow);
                let ghost new_rows = rows_view(sets@);
                proof {
                    assert(forall|y: int|
                        0 <= y < mm ==> new_rows[b as int][y] == ((first@[y] && y
                            != EPSILON_INDEX as int) || old_rows[b as int][y]));
                    assert(forall|x: int, y: int|
                        0 <= x < nn && 0 <= y < mm && old_rows[x][y] ==> #[trigger] new_rows[x][y]);
                    // Every newly set cell is forced by the FIRST-coverage
                    // condition of any closed family.
                    assert forall|a: int, t: int|
                        0 <= a < new_rows.len() && 0 <= t < new_rows[a].len() && #[trigger] new_rows[a][t]
                            implies follow_forced(rules, nts, terms, start, a, t) by {
                        if !(0 <= a < nn && 0 <= t < mm && old_rows[a][t]) {
                            assert(a == b as int && first@[t] && t != EPSILON_INDEX as int);
                            assert(rhs_position_first(rules, nts, r as int, j as int, t));
                            assert forall|g: Seq<Seq<bool>>|
                                follow_dims(g, nts, terms) && #[trigger] follow_closed(
                                    rules,
                                    nts,
                                    terms,
                                    start,
                                    g,
                                ) implies g[a][t] by {
                                assert(g[rules[r as int].1[j as int].idx() as int][t]);
                            }
                        }
                    }
                }
                if first[EPSILON_INDEX as usize] {
                    assert(rhs_position_nullable_tail(rules, nts, r as int, j as int));
                    let ghost old_edges = edges@;
                    edges.push((lhs_idx, b));
                    assert(edges@[edges@.len() - 1] == (lhs_idx, b));
                    assert(edge_valid(rules, nts, (lhs_idx, b))) by {
                        assert(rhs_position_nullable_tail(rules, nts, r as int, j as int)
                            && rules[r as int].0.idx() == lhs_idx && rules[r as int].1[j as int].idx()
                            == b);
                    }
                    assert forall|x: int, y: int|
                        #[trigger] rhs_position_nullable_tail(rules, nts, x, y) && (x < r || (x
                            == r && y < j + 1)) implies exists|k2: int|
                        0 <= k2 < edges@.len() && edges@[k2] == (
                            rules[x].0.idx() as u32,
                            rules[x].1[y].idx() as u32,
                        ) by {
                        if x == r as int && y == j as int {
                            assert(edges@[edges@.len() - 1] == (
                                rules[x].0.idx() as u32,
                                rules[x].1[y].idx() as u32,
                            ));
                        } else {
                            let k0 = choose|k0: int|
                                0 <= k0 < old_edges.len() && old_edges[k0] == (
                                    rules[x].0.idx() as u32,
                                    rules[x].1[y].idx() as u32,
                                );
                            assert(edges@[k0] == (
                                rules[x].0.idx() as u32,
                                rules[x].1[y].idx() as u32,
                            ));
                        }
                    }
                } else {
                    assert(!fset.contains(EPSILON_INDEX));
                    assert(!rhs_position_nullable_tail(rules, nts, r as int, j as int));
                }
            } else {
                assert(forall|t: int| !rhs_position_first(rules, nts, r as int, j as int, t));
                assert(!rhs_position_nullable_tail(rules, nts, r as int, j as int));
            }
            j = j + 1;
        }
        proof {
            assert(forall|x: int, y: int, t: int|
                #[trigger] rhs_position_first(rules, nts, x, y, t) && x == r as int ==> 0 <= y
                    < len_r);
            assert(forall|x: int, y: int|
                #[trigger] rhs_position_nullable_tail(rules, nts, x, y) && x == r as int ==> 0 <= y
                    < len_r);
        }
        r = r + 1;
    }

    // Relax the propagation edges to a fixpoint: every pass unions each
    // source row into its target row, and the loop stops at the first pass
    // that changes nothing.
    let ghost cap = count2_false(rows_view(sets@));
    let mut changed = true;
    while changed
        invariant
            cfg.wf(),
            rules == cfg.spec_rules(),
            nts == cfg.nt_count(),
            terms == cfg.term_count(),
            rr == rules.len(),
            nn == nts && mm == terms,
            2 <= mm,
            0 <= start_lhs(rules, start) < nn,
            rows_view(sets@).len() == nn,
            follow_dims(rows_view(sets@), nts, terms),
            rows_view(sets@)[start_lhs(rules, start)][END_OF_INPUT_INDEX as int],
            follow_minimal(rules, nts, terms, start, rows_view(sets@)),
            follow_covers_firsts(rules, nts, terms, rows_view(sets@)),
            forall|a: int|
                0 <= a < nn ==> !(#[trigger] rows_view(sets@)[a])[EPSILON_INDEX as int],
            forall|k: int|
                0 <= k < edges@.len() ==> (#[trigger] edges@[k]).0 < nts && edges@[k].1 < nts
                    && edge_valid(rules, nts, edges@[k]),
            forall|x: int, y: int|
                #[trigger] rhs_position_nullable_tail(rules, nts, x, y) ==> exists|k: int|
                    0 <= k < edges@.len() && edges@[k] == (
                        rules[x].0.idx() as u32,
                        rules[x].1[y].idx() as u32,
                    ),
            !changed ==> follow_propagates(rules, nts, terms, rows_view(sets@)),
        decreases 2 * count2_false(rows_view(sets@)) + (if changed { 1int } else { 0int }),
    {
        let ghost pass_start = count2_false(rows_view(sets@));
        let mut any = false;
        let ne = edges.len();
        let mut k: usize = 0;
        while k < ne
            invariant
                k <= ne,
                ne == edges@.len(),
                cfg.wf(),
                rules == cfg.spec_rules(),
                nts == cfg.nt_count(),
                terms == cfg.term_count(),
                rr == rules.len(),
                nn == nts && mm == terms,
                2 <= mm,
                0 <= start_lhs(rules, start) < nn,
                rows_view(sets@).len() == nn,
                follow_dims(rows_view(sets@), nts, terms),
                rows_view(sets@)[start_lhs(rules, start)][END_OF_INPUT_INDEX as int],
                follow_minimal(rules, nts, terms, start, rows_view(sets@)),
                follow_covers_firsts(rules, nts, terms, rows_view(sets@)),
                forall|a: int|
                    0 <= a < nn ==> !(#[trigger] rows_view(sets@)[a])[EPSILON_INDEX as int],
                forall|q: int|
                    0 <= q < edges@.len() ==> (#[trigger] edges@[q]).0 < nts && edges@[q].1 < nts
                        && edge_valid(rules, nts, edges@[q]),
                forall|x: int, y: int|
                    #[trigger] rhs_position_nullable_tail(rules, nts, x, y) ==> exists|q: int|
                        0 <= q < edges@.len() && edges@[q] == (
                            rules[x].0.idx() as u32,
                            rules[x].1[y].idx() as u32,
                        ),
                count2_false(rows_view(sets@)) <= pass_start,
                any ==> count2_false(rows_view(sets@)) < pass_start,
                !any ==> forall|q: int|
                    0 <= q < k ==> edge_stable(rows_view(sets@), #[trigger] edges@[q], terms),
            decreases ne - k,
        {
            let from = edges[k].0 as usize;
            let to = edges[k].1 as usize;
            assert(rows_view(sets@)[from as int] == sets@[from as int]@);
            assert(rows_view(sets@)[to as int] == sets@[to as int]@);
            if bitmap_has_new(&sets[from], &sets[to]) {
                let ghost old_rows = rows_view(sets@);
                let newrow = bitmap_or(&sets[from], &sets[to]);
                proof {
                    lemma_count_false_le(old_rows[to as int], newrow@);
                    lemma_count2_false_update(old_rows, to as int, newrow@);
                }
                put_row(&mut sets, to, newrow);
                any = true;
                let ghost new_rows = rows_view(sets@);
                proof {
                    assert(forall|y: int|
                        0 <= y < mm ==> new_rows[to as int][y] == (old_rows[from as int][y]
                            || old_rows[to as int][y]));
                    assert(forall|x: int, y: int|
                        0 <= x < nn && 0 <= y < mm && old_rows[x][y] ==> #[trigger] new_rows[x][y]);
                    // Every newly set cell is forced by propagation along
                    // this (valid) edge in any closed family.
                    assert forall|a: int, t: int|
                        0 <= a < new_rows.len() && 0 <= t < new_rows[a].len() && #[trigger] new_rows[a][t]
                            implies follow_forced(rules, nts, terms, start, a, t) by {
                        if !(0 <= a < nn && 0 <= t < mm && old_rows[a][t]) {
                            assert(a == to as int && old_rows[from as int][t]);
                            assert(follow_forced(rules, nts, terms, start, from as int, t));
                            let e = edges@[k as int];
                            let (x, y) = choose|x: int, y: int|
                                #[trigger] rhs_position_nullable_tail(rules, nts, x, y)
                                    && rules[x].0.idx() == e.0 && rules[x].1[y].idx() == e.1;
                            assert forall|g: Seq<Seq<bool>>|
                                follow_dims(g, nts, terms) && #[trigger] follow_closed(
                                    rules,
                                    nts,
                                    terms,
                                    start,
                                    g,
                                ) implies g[a][t] by {
                                assert(g[rules[x].0.idx() as int][t]);
                                assert(g[rules[x].1[y].idx() as int][t]);
                            }
                        }
                    }
                    // The FIRST coverage only asks for cells to stay set.
                    assert forall|x: int, y: int, t: int|
                        #[trigger] rhs_position_first(rules, nts, x, y, t) && 0 <= t < terms && t
                            != EPSILON_INDEX implies new_rows[rules[x].1[y].idx() as int][t] by {
                        assert(old_rows[rules[x].1[y].idx() as int][t]);
                        assert(rules[x].1[y] is Nonterminal);
                        assert(valid_symbol(rules[x].1[y], nts, terms)) by {
                            assert(forall|q: int|
                                0 <= q < rules[x].1.len() ==> valid_symbol(
                                    #[trigger] rules[x].1[q],
                                    nts,
                                    terms,
                                ));
                        }
                        assert(rules[x].1[y].idx() < nts);
                    }
                }
            }
            k = k + 1;
        }
        proof {
            if !any {
                assert forall|x: int, y: int, t: int|
                    #![trigger rhs_position_nullable_tail(rules, nts, x, y), rows_view(sets@)[rules[x].0.idx() as int][t]]
                    rhs_position_nullable_tail(rules, nts, x, y) && 0 <= t < terms && rows_view(
                        sets@,
                    )[rules[x].0.idx() as int][t] implies rows_view(sets@)[rules[x].1[y].idx() as int][t] by {
                    let q = choose|q: int|
                        0 <= q < edges@.len() && edges@[q] == (
                            rules[x].0.idx() as u32,
                            rules[x].1[y].idx() as u32,
                        );
                    assert(edge_stable(rows_view(sets@), edges@[q], terms));
                }
            }
        }
        changed = any;
    }

    let fl = Follow { sets };
    let e = cfg.mut_extra();
    e.follow = Some(fl);
}

/// Compute which nonterminals are nullable and attach the result to the
/// grammar's analysis store. A nonterminal is nullable when it can derive
/// the empty string in one or more rewrite steps: the least set containing
/// the left-hand side of every rule whose right-hand-side symbols all
/// derive the empty string — nullable nonterminals or the epsilon
/// placeholder, which FIRST reads the same way (in particular, the
/// left-hand side of every rule with an empty right-hand side).
///
/// Worklist fixpoint: fully nullable-by-placeholder rules seed a queue; popping
/// a newly nullable nonterminal raises, for every rule, a counter by the
/// nonterminal's number of occurrences in the right-hand side, and a rule
/// whose counter reaches its full length makes its left-hand side nullable.
/// Each nonterminal enters the queue at most once.
pub fn compute_nullability<T>(cfg: &mut Cfg<T>)
    requires
        old(cfg).wf(),
    ensures
        final(cfg).wf(),
        final(cfg).spec_rules() == old(cfg).spec_rules(),
        final(cfg).nt_count() == old(cfg).nt_count(),
        final(cfg).term_count() == old(cfg).term_count(),
        final(cfg).start_idx() == old(cfg).start_idx(),
        final(cfg).spec_extra().follow == old(cfg).spec_extra().follow,
        final(cfg).spec_extra().names == old(cfg).spec_extra().names,
        final(cfg).spec_extra().nullability is Some,
        ({
            let n = final(cfg).spec_extra().nullability->Some_0.nullable@;
            let rules = old(cfg).spec_rules();
            &&& n.len() == old(cfg).nt_count()
            &&& nullable_closed(rules, n)
            &&& nullable_minimal(rules, n)
        }),
{
    let nn = cfg.num_nonterminals() as usize;
    let ghost rules = cfg.spec_rules();
    let ghost nts = cfg.nt_count();
    let rs = cfg.rules();
    let rr = rs.len();
    assert(forall|x: int|
        0 <= x < rr ==> rules[x] == ((#[trigger] rs@[x]).0.unpacked(), unpack_syms(rs@[x].1@)));

    let mut nullable = bitmap_falses(nn);
    let mut processed = bitmap_falses(nn);
    let mut queue: Vec<u32> = Vec::new();
    let mut count: Vec<usize> = Vec::new();

    // Seed: each rule starts with one credit per epsilon placeholder, and a
    // rule whose whole right-hand side is placeholders (in particular an
    // empty one) makes its left-hand nonterminal nullable at once.
    let mut r: usize = 0;
    while r < rr
        invariant
            r <= rr,
            cfg.wf(),
            *cfg == *old(cfg),
            rules == cfg.spec_rules(),
            nts == cfg.nt_count(),
            rr == rules.len(),
            rs@.len() == rr,
            unpack_rules(rs@) == rules,
            nn == nts,
            nullable@.len() == nn,
            processed@.len() == nn,
            count@.len() == r,
            forall|b: int| 0 <= b < nn ==> !processed@[b],
            forall|p: int| 0 <= p < queue@.len() ==> (#[trigger] queue@[p]) < nts
                && nullable@[queue@[p] as int],
            forall|b: int| 0 <= b < nn && nullable@[b] ==> exists|p: int|
                0 <= p < queue@.len() && queue@[p] == b,
            forall|p: int, q: int| 0 <= p < q < queue@.len() ==> queue@[p] != queue@[q],
            forall|x: int|
                0 <= x < r ==> count@[x] == count_marked_from(
                    (#[trigger] rules[x]).1,
                    processed@,
                    0,
                ),
            forall|x: int|
                0 <= x < r && count@[x] == (#[trigger] rules[x]).1.len()
                    ==> nullable@[rules[x].0.idx() as int],
            forall|b: int, m: Seq<bool>|
                #![trigger nullable_closed(rules, m), nullable@[b]]
                0 <= b < nn && nullable@[b] && nullable_closed(rules, m) && m.len() == nn ==> m[b],
        decreases rr - r,
    {
        assert(rules[r as int] == (rs@[r as int].0.unpacked(), unpack_syms(rs@[r as int].1@)));
        assert(rules[r as int].0 is Nonterminal && rules[r as int].0.idx() < nts);
        let rhs = &rs[r].1;
        let ghost grhs = rules[r as int].1;
        assert(grhs == unpack_syms(rhs@));
        assert(forall|p: int|
            0 <= p < grhs.len() && (#[trigger] grhs[p]) is Nonterminal ==> grhs[p].idx() < nts) by {
            assert(forall|p: int|
                0 <= p < grhs.len() ==> valid_symbol(#[trigger] grhs[p], nts, cfg.term_count()));
        }
        let ln = rhs.len();
        let mut cnt: usize = 0;
        let mut j: usize = 0;
        while j < ln
            invariant
                j <= ln,
                ln == grhs.len(),
                grhs == unpack_syms(rhs@),
                rhs@.len() == ln,
                cnt <= j,
                nn == nts,
                processed@.len() == nn,
                forall|b: int| 0 <= b < nn ==> !processed@[b],
                forall|p: int|
                    0 <= p < grhs.len() && (#[trigger] grhs[p]) is Nonterminal ==> grhs[p].idx()
                        < nts,
                cnt + count_marked_from(grhs, processed@, j as int) == count_marked_from(
                    grhs,
                    processed@,
                    0,
                ),
            decreases ln - j,
        {
            let ps = rhs[j];
            assert(grhs[j as int] == ps.unpacked());
            let is_eps = ps.is_terminal() && ps.to_index() == EPSILON_INDEX;
            proof {
                assert(count_marked_from(grhs, processed@, j as int) == (if rhs_sym_nullable(
                    grhs[j as int],
                    processed@,
                ) {
                    1nat
                } else {
                    0nat
                }) + count_marked_from(grhs, processed@, j as int + 1));
                assert(rhs_sym_nullable(grhs[j as int], processed@) == (grhs[j as int]
                    == Symbol::Terminal(EPSILON_INDEX))) by {
                    if grhs[j as int] is Nonterminal {
                        assert(!processed@[grhs[j as int].idx() as int]);
                    }
                }
            }
            if is_eps {
                cnt = cnt + 1;
            }
            let ghost j_prev = j as int;
            j = j + 1;
            proof {
                assert(count_marked_from(grhs, processed@, j as int) == count_marked_from(
                    grhs,
                    processed@,
                    j_prev + 1,
                ));
            }
        }
        assert(cnt == count_marked_from(grhs, processed@, 0));
        count.push(cnt);
        if cnt == ln {
            proof {
                lemma_count_marked_from_full(grhs, processed@, 0);
            }
            assert(forall|p: int|
                0 <= p < grhs.len() ==> rhs_sym_nullable(#[trigger] grhs[p], processed@));
            let b = rs[r].0.to_index();
            if !nullable[b as usize] {
                let ghost old_queue = queue@;
                nullable[b as usize] = true;
                queue.push(b);
                proof {
                    assert forall|b2: int| 0 <= b2 < nn && nullable@[b2] implies exists|p: int|
                        0 <= p < queue@.len() && queue@[p] == b2 by {
                        if b2 == b as int {
                            assert(queue@[queue@.len() - 1] == b);
                        } else {
                            let p = choose|p: int| 0 <= p < old_queue.len() && old_queue[p] == b2;
                            assert(queue@[p] == b2);
                        }
                    }
                    assert forall|m: Seq<bool>|
                        #[trigger] nullable_closed(rules, m) && m.len() == nn implies m[b as int] by {
                        assert forall|p: int| 0 <= p < grhs.len() implies rhs_sym_nullable(
                            #[trigger] grhs[p],
                            m,
                        ) by {
                            if grhs[p] is Nonterminal {
                                assert(!processed@[grhs[p].idx() as int]);
                            }
                        }
                        assert(all_rhs_marked(rules[r as int].1, m));
                    }
                }
            }
        }
        r = r + 1;
    }

    proof {
        lemma_distinct_bounded_len(queue@, nts);
    }

    // Worklist: popping a nonterminal credits every occurrence of it, and a
    // fully credited right-hand side makes its left-hand side nullable.
    let mut head: usize = 0;
    while head < queue.len()
        invariant
            cfg.wf(),
            *cfg == *old(cfg),
            rules == cfg.spec_rules(),
            nts == cfg.nt_count(),
            rr == rules.len(),
            rs@.len() == rr,
            unpack_rules(rs@) == rules,
            nn == nts,
            nullable@.len() == nn,
            processed@.len() == nn,
            count@.len() == rr,
            head <= queue@.len(),
            queue@.len() <= nn,
            forall|p: int| 0 <= p < queue@.len() ==> (#[trigger] queue@[p]) < nts
                && nullable@[queue@[p] as int],
            forall|b: int| 0 <= b < nn && nullable@[b] ==> exists|p: int|
                0 <= p < queue@.len() && queue@[p] == b,
            forall|p: int, q: int| 0 <= p < q < queue@.len() ==> queue@[p] != queue@[q],
            forall|p: int| 0 <= p < head ==> processed@[(#[trigger] queue@[p]) as int],
            forall|b: int| 0 <= b < nn && processed@[b] ==> nullable@[b] && exists|p: int|
                0 <= p < head && queue@[p] == b,
            forall|x: int|
                0 <= x < rr ==> count@[x] == count_marked_from((#[trigger] rules[x]).1, processed@, 0),
            forall|x: int|
                0 <= x < rr && count@[x] == (#[trigger] rules[x]).1.len()
                    ==> nullable@[rules[x].0.idx() as int],
            forall|b: int, m: Seq<bool>|
                #![trigger nullable_closed(rules, m), nullable@[b]]
                0 <= b < nn && nullable@[b] && nullable_closed(rules, m) && m.len() == nn ==> m[b],
        decreases nn - head,
    {
        let aa = queue[head];
        head = head + 1;
        let a = aa as usize;
        let ghost before = processed@;
        assert(!processed@[a as int]) by {
            if processed@[a as int] {
                let p = choose|p: int| 0 <= p < head - 1 && queue@[p] == aa;
            }
        }
        processed[a] = true;
        assert(processed@ == before.update(a as int, true));

        let mut r: usize = 0;
        while r < rr
            invariant
                r <= rr,
                cfg.wf(),
                *cfg == *old(cfg),
                rules == cfg.spec_rules(),
                nts == cfg.nt_count(),
                rr == rules.len(),
                rs@.len() == rr,
                unpack_rules(rs@) == rules,
                nn == nts,
                aa < nts,
                a == aa as usize,
                nullable@.len() == nn,
                processed@.len() == nn,
                count@.len() == rr,
                head <= queue@.len(),
                queue@.len() <= nn,
                processed@ == before.update(a as int, true),
                before.len() == nn,
                !before[a as int],
                forall|p: int| 0 <= p < queue@.len() ==> (#[trigger] queue@[p]) < nts
                    && nullable@[queue@[p] as int],
                forall|b: int| 0 <= b < nn && nullable@[b] ==> exists|p: int|
                    0 <= p < queue@.len() && queue@[p] == b,
                forall|p: int, q: int| 0 <= p < q < queue@.len() ==> queue@[p] != queue@[q],
                forall|p: int| 0 <= p < head ==> processed@[(#[trigger] queue@[p]) as int],
                forall|b: int| 0 <= b < nn && processed@[b] ==> nullable@[b] && exists|p: int|
                    0 <= p < head && queue@[p] == b,
                forall|x: int|
                    0 <= x < r ==> count@[x] == count_marked_from(
                        (#[trigger] rules[x]).1,
                        processed@,
                        0,
                    ),
                forall|x: int|
                    r <= x < rr ==> count@[x] == count_marked_from(
                        (#[trigger] rules[x]).1,
                        before,
                        0,
                    ),
                forall|x: int|
                    0 <= x < rr && count@[x] == (#[trigger] rules[x]).1.len()
                        ==> nullable@[rules[x].0.idx() as int],
                forall|b: int, m: Seq<bool>|
                    #![trigger nullable_closed(rules, m), nullable@[b]]
                    0 <= b < nn && nullable@[b] && nullable_closed(rules, m) && m.len() == nn
                        ==> m[b],
            decreases rr - r,
        {
            assert(rules[r as int] == (rs@[r as int].0.unpacked(), unpack_syms(rs@[r as int].1@)));
            assert(rules[r as int].0 is Nonterminal && rules[r as int].0.idx() < nts);
            let rhs = &rs[r].1;
            let ghost grhs = rules[r as int].1;
            assert(grhs == unpack_syms(rhs@));
            assert(forall|p: int|
                0 <= p < grhs.len() && (#[trigger] grhs[p]) is Nonterminal ==> grhs[p].idx()
                    < nts) by {
                assert(forall|p: int|
                    0 <= p < grhs.len() ==> valid_symbol(#[trigger] grhs[p], nts, cfg.term_count()));
            }
            let ln = rhs.len();
            let mut add: usize = 0;
            let mut j: usize = 0;
            while j < ln
                invariant
                    j <= ln,
                    ln == grhs.len(),
                    grhs == unpack_syms(rhs@),
                    rhs@.len() == ln,
                    add <= j,
                    add + count_occ_from(grhs, aa as int, j as int) == count_occ_from(
                        grhs,
                        aa as int,
                        0,
                    ),
                decreases ln - j,
            {
                let ps = rhs[j];
                assert(grhs[j as int] == ps.unpacked());
                let is_occ = if ps.is_nonterminal() {
                    ps.to_index() == aa
                } else {
                    false
                };
                proof {
                    assert(count_occ_from(grhs, aa as int, j as int) == (if grhs[j as int] is Nonterminal
                        && grhs[j as int].idx() == aa as int {
                        1nat
                    } else {
                        0nat
                    }) + count_occ_from(grhs, aa as int, j as int + 1));
                }
                if is_occ {
                    add = add + 1;
                }
                let ghost j_prev = j as int;
                j = j + 1;
                proof {
                    assert(count_occ_from(grhs, aa as int, j as int) == count_occ_from(
                        grhs,
                        aa as int,
                        j_prev + 1,
                    ));
                }
            }
            assert(add == count_occ_from(grhs, aa as int, 0));
            if add > 0 {
                proof {
                    lemma_count_marked_from_mark(grhs, before, a as int, 0);
                    lemma_count_marked_from_full(grhs, processed@, 0);
                }
                let c = count[r] + add;
                count[r] = c;
                if c == ln {
                    proof {
                        lemma_count_marked_from_full(grhs, processed@, 0);
                    }
                    assert(forall|p: int|
                        0 <= p < grhs.len() ==> rhs_sym_nullable(#[trigger] grhs[p], processed@));
                    let lb = rs[r].0.to_index();
                    if !nullable[lb as usize] {
                        let ghost old_queue = queue@;
                        nullable[lb as usize] = true;
                        queue.push(lb);
                        proof {
                            assert forall|b2: int| 0 <= b2 < nn && nullable@[b2] implies exists|p: int|
                                0 <= p < queue@.len() && queue@[p] == b2 by {
                                if b2 == lb as int {
                                    assert(queue@[queue@.len() - 1] == lb);
                                } else {
                                    let p = choose|p: int|
                                        0 <= p < old_queue.len() && old_queue[p] == b2;
                                    assert(queue@[p] == b2);
                                }
                            }
                            assert forall|b2: int|
                                0 <= b2 < nn && processed@[b2] implies exists|p: int|
                                0 <= p < head && queue@[p] == b2 by {
                                let p = choose|p: int| 0 <= p < head && old_queue[p] == b2;
                                assert(queue@[p] == b2);
                            }
                            assert forall|m: Seq<bool>|
                                #[trigger] nullable_closed(rules, m) && m.len() == nn implies m[lb as int] by {
                                assert forall|p: int| 0 <= p < grhs.len() implies rhs_sym_nullable(
                                    #[trigger] grhs[p],
                                    m,
                                ) by {
                                    if grhs[p] is Nonterminal {
                                        assert(processed@[grhs[p].idx() as int]);
                                        assert(nullable@[grhs[p].idx() as int]);
                                    }
                                }
                                assert(all_rhs_marked(rules[r as int].1, m));
                            }
                            lemma_distinct_bounded_len(queue@, nts);
                        }
                    }
                }
            } else {
                proof {
                    lemma_count_marked_from_mark(grhs, before, a as int, 0);
                }
            }
            r = r + 1;
        }
    }

    // The queue is exhausted: the processed set, the nullable set and the
    // least closed set all coincide.
    assert(processed@ =~= nullable@);
    proof {
        assert forall|x: int|
            0 <= x < rr && all_rhs_marked((#[trigger] rules[x]).1, nullable@) implies nullable@[rules[x].0.idx() as int] by {
            lemma_count_marked_from_full(rules[x].1, nullable@, 0);
        }
    }
    let n = Nullability { nullable };
    let e = cfg.mut_extra();
    e.nullability = Some(n);
}

/// The FOLLOW sets of a grammar: one dense terminal set per nonterminal.
/// `sets[a][t]` is true when terminal `t` can immediately follow nonterminal
/// `a` in some derivation from the start rule (`t` may be the end-of-input
/// sentinel, never the epsilon sentinel).
pub struct Follow {
    /// Dense membership bitmaps, indexed by nonterminal, then terminal.
    pub sets: Vec<Vec<bool>>,
}

} // verus!
