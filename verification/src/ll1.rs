//! LL(1) predictive-parse table construction and the table-driven parser.
//!
//! The table maps a (nonterminal, lookahead terminal) pair to at most one
//! rule. Construction fails on the first cell that two distinct rules claim:
//! keeping either rule silently would make later parses nondeterministic.
//! The parser is a pushdown automaton driven by the table; each step is
//! determined by the stack top and one token of lookahead.

use vstd::prelude::*;
use crate::util::{
    bitmap_falses, compute_follow, empty_visited, first_of_packed_seq, first_of_rhs, first_scan,
    follow_closed, follow_dims, follow_minimal, rows_view,
};
use crate::{
    unpack_rules, unpack_syms, valid_symbol, wf_rules, Cfg, Frozen, PackedSymbol, Rule, Symbol,
    END_OF_INPUT_INDEX, EPSILON_INDEX, NONTERMINAL_BIT,
};

verus! {

/// Whether rule `i` claims the table cell of nonterminal index `a` and
/// terminal index `t`: either `t` is a non-epsilon member of FIRST of the
/// rule's right-hand side, or that FIRST set contains epsilon and `t`
/// belongs to FOLLOW of the rule's left-hand side (given as the bitmap
/// family `f`).
pub open spec fn rule_selects(
    rules: Seq<(Symbol, Seq<Symbol>)>,
    nts: u32,
    f: Seq<Seq<bool>>,
    i: int,
    a: int,
    t: int,
) -> bool {
    &&& 0 <= i < rules.len()
    &&& 0 <= a
    &&& 0 <= t
    &&& rules[i].0.idx() == a
    &&& ((t != EPSILON_INDEX && first_of_rhs(rules, nts, rules[i].1, 0).contains(t as u32)) || (
    first_of_rhs(rules, nts, rules[i].1, 0).contains(EPSILON_INDEX) && f[a][t]))
}

/// Whether no table cell is claimed by two distinct rules: the defining
/// property of an LL(1) grammar.
pub open spec fn ll1_unique(
    rules: Seq<(Symbol, Seq<Symbol>)>,
    nts: u32,
    terms: u32,
    f: Seq<Seq<bool>>,
) -> bool {
    forall|i: int, j: int, a: int, t: int|
        #![trigger rule_selects(rules, nts, f, i, a, t), rule_selects(rules, nts, f, j, a, t)]
        rule_selects(rules, nts, f, i, a, t) && rule_selects(rules, nts, f, j, a, t) && 0 <= a
            < nts && 0 <= t < terms ==> i == j
}

/// An LL(1) conflict: two distinct rules claim the same table cell.
#[derive(Copy, Clone, PartialEq, Eq, Structural, Debug)]
pub struct Ll1Conflict {
    /// The rule already in the cell.
    pub rule_a: Rule,
    /// The rule that claimed the occupied cell.
    pub rule_b: Rule,
    /// The nonterminal of the cell.
    pub nonterminal: Symbol,
    /// The lookahead terminal of the cell.
    pub terminal: Symbol,
}

/// A predictive-parse table: the start symbol, a snapshot of the rule list,
/// and one cell per (nonterminal index, terminal index) pair holding at most
/// one rule.
#[derive(Debug)]
pub struct Table {
    /// The nonterminal on the left of the start rule.
    pub start: Symbol,
    /// The rules of the grammar the table was built from.
    pub rules: Vec<(PackedSymbol, Vec<PackedSymbol>)>,
    /// The cells, indexed by nonterminal index, then terminal index.
    pub table: Vec<Vec<Option<Rule>>>,
}

impl Table {
    /// Number of nonterminals: one table row each.
    pub open spec fn nts(&self) -> int {
        self.table@.len() as int
    }

    /// Number of terminals, the sentinels included: one table column each.
    pub open spec fn cols(&self) -> int {
        if self.table@.len() > 0 {
            rows_view(self.table@)[0].len() as int
        } else {
            0
        }
    }

    /// Well-formedness: the dimensions are consistent, the start symbol is a
    /// nonterminal of the table, every rule is over symbols the table
    /// covers, and every cell refers to a rule of the snapshot.
    pub open spec fn wf(&self) -> bool {
        &&& self.start is Nonterminal
        &&& (self.start.idx() as int) < self.nts()
        &&& 2 <= self.cols() <= NONTERMINAL_BIT
        &&& self.nts() <= NONTERMINAL_BIT
        &&& forall|a: int|
            0 <= a < self.nts() ==> (#[trigger] rows_view(self.table@)[a]).len() == self.cols()
        &&& wf_rules(
            unpack_rules(self.rules@),
            self.nts() as u32,
            self.cols() as u32,
        )
        &&& forall|a: int, t: int|
            0 <= a < self.nts() && 0 <= t < self.cols() && (#[trigger] rows_view(
                self.table@,
            )[a][t]) is Some ==> rows_view(self.table@)[a][t]->Some_0.0
                < unpack_rules(self.rules@).len()
    }
}

/// A grid of `n` rows of `m` empty cells.
fn grid_nones(n: usize, m: usize) -> (r: Vec<Vec<Option<Rule>>>)
    ensures
        rows_view(r@).len() == n,
        forall|a: int| 0 <= a < n ==> (#[trigger] rows_view(r@)[a]).len() == m,
        forall|a: int, t: int|
            0 <= a < n && 0 <= t < m ==> (#[trigger] rows_view(r@)[a][t]) is None,
{
    let mut r: Vec<Vec<Option<Rule>>> = Vec::new();
    let mut a: usize = 0;
    while a < n
        invariant
            a <= n,
            r@.len() == a,
            forall|x: int| 0 <= x < a ==> (#[trigger] rows_view(r@)[x]).len() == m,
            forall|x: int, t: int|
                0 <= x < a && 0 <= t < m ==> (#[trigger] rows_view(r@)[x][t]) is None,
        decreases n - a,
    {
        let mut row: Vec<Option<Rule>> = Vec::new();
        let mut t: usize = 0;
        while t < m
            invariant
                t <= m,
                row@.len() == t,
                forall|k: int| 0 <= k < t ==> (#[trigger] row@[k]) is None,
            decreases m - t,
        {
            row.push(None);
            t = t + 1;
        }
        let ghost prev = r@;
        let ghost rv = row@;
        r.push(row);
        assert(rows_view(r@) =~= rows_view(prev).push(rv));
        a = a + 1;
    }
    r
}

/// Read one cell of a rule grid.
fn grid_get(g: &Vec<Vec<Option<Rule>>>, a: usize, t: usize) -> (r: Option<Rule>)
    requires
        a < g@.len(),
        t < rows_view(g@)[a as int].len(),
    ensures
        r == rows_view(g@)[a as int][t as int],
{
    let row = &g[a];
    row[t]
}

/// Write one cell of a rule grid.
fn grid_put(g: &mut Vec<Vec<Option<Rule>>>, a: usize, t: usize, v: Rule)
    requires
        a < old(g)@.len(),
        t < rows_view(old(g)@)[a as int].len(),
    ensures
        final(g)@.len() == old(g)@.len(),
        rows_view(final(g)@) == rows_view(old(g)@).update(
            a as int,
            rows_view(old(g)@)[a as int].update(t as int, Some(v)),
        ),
{
    let src = &g[a];
    let mut row: Vec<Option<Rule>> = Vec::new();
    let mut k: usize = 0;
    let n = src.len();
    while k < n
        invariant
            k <= n,
            n == src@.len(),
            row@.len() == k,
            forall|q: int| 0 <= q < k ==> row@[q] == src@[q],
        decreases n - k,
    {
        row.push(src[k]);
        k = k + 1;
    }
    assert(row@ =~= g@[a as int]@);
    assert(rows_view(g@)[a as int] == g@[a as int]@);
    row[t] = Some(v);
    let ghost rv = row@;
    g[a] = row;
    assert(rows_view(g@) =~= rows_view(old(g)@).update(
        a as int,
        rows_view(old(g)@)[a as int].update(t as int, Some(v)),
    ));
}

/// Build the LL(1) predictive-parse table of a frozen grammar, computing
/// and attaching its FOLLOW sets along the way. For each rule `i` with
/// left-hand nonterminal `a`: every non-epsilon terminal of FIRST of its
/// right-hand side claims cell `(a, t)`, and, when that FIRST set contains
/// epsilon, so does every terminal of FOLLOW(`a`). Construction succeeds
/// exactly when no cell is claimed by two distinct rules, and the resulting
/// table holds in each cell the unique claiming rule, if any; otherwise it
/// reports the two conflicting rules and the offending cell.
pub fn generate_table(cfg: &mut Cfg<Frozen>) -> (res: Result<Table, Ll1Conflict>)
    requires
        old(cfg).wf(),
        old(cfg).spec_rules().len() > 0,
    ensures
        final(cfg).wf(),
        final(cfg).spec_rules() == old(cfg).spec_rules(),
        final(cfg).nt_count() == old(cfg).nt_count(),
        final(cfg).term_count() == old(cfg).term_count(),
        final(cfg).start_idx() == old(cfg).start_idx(),
        final(cfg).spec_extra().nullability == old(cfg).spec_extra().nullability,
        final(cfg).spec_extra().names == old(cfg).spec_extra().names,
        final(cfg).spec_extra().follow is Some,
        ({
            let rules = old(cfg).spec_rules();
            let nts = old(cfg).nt_count();
            let terms = old(cfg).term_count();
            let start = old(cfg).start_idx();
            let f = rows_view(final(cfg).spec_extra().follow->Some_0.sets@);
            &&& follow_dims(f, nts, terms)
            &&& follow_closed(rules, nts, terms, start, f)
            &&& follow_minimal(rules, nts, terms, start, f)
            &&& (res is Ok <==> ll1_unique(rules, nts, terms, f))
            &&& (res matches Ok(tab) ==> {
                &&& tab.wf()
                &&& unpack_rules(tab.rules@) == rules
                &&& tab.start == rules[start].0
                &&& tab.table@.len() == nts
                &&& (forall|a: int|
                    0 <= a < nts ==> (#[trigger] rows_view(tab.table@)[a]).len() == terms)
                &&& (forall|a: int, t: int|
                    0 <= a < nts && 0 <= t < terms ==> match (#[trigger] rows_view(
                        tab.table@,
                    )[a][t]) {
                        Some(rl) => rule_selects(rules, nts, f, rl.0 as int, a, t),
                        None => forall|i: int|
                            0 <= i < rules.len() ==> !rule_selects(rules, nts, f, i, a, t),
                    })
            })
            &&& (res matches Err(c) ==> {
                &&& c.nonterminal is Nonterminal
                &&& c.terminal is Terminal
                &&& (c.nonterminal.idx() as int) < nts
                &&& (c.terminal.idx() as int) < terms
                &&& c.rule_a.0 != c.rule_b.0
                &&& c.rule_a.0 < rules.len()
                &&& c.rule_b.0 < rules.len()
                &&& rule_selects(
                    rules,
                    nts,
                    f,
                    c.rule_a.0 as int,
                    c.nonterminal.idx() as int,
                    c.terminal.idx() as int,
                )
                &&& rule_selects(
                    rules,
                    nts,
                    f,
                    c.rule_b.0 as int,
                    c.nonterminal.idx() as int,
                    c.terminal.idx() as int,
                )
            })
        }),
{
    compute_follow(cfg);
    let nn = cfg.num_nonterminals() as usize;
    let mm = cfg.num_terminals() as usize;
    let ghost rules = cfg.spec_rules();
    let ghost nts = cfg.nt_count();
    let ghost terms = cfg.term_count();
    let ghost start = cfg.start_idx();
    let visited0 = bitmap_falses(nn);
    assert(visited0@ =~= empty_visited(nts));

    let mut grid = grid_nones(nn, mm);
    let start_pos = cfg.start_rule();
    let extra = cfg.extra();
    let fl = match &extra.follow {
        Some(fl) => fl,
        None => {
            proof {
                assert(false);
            }
            return Err(
                Ll1Conflict {
                    rule_a: Rule(0),
                    rule_b: Rule(0),
                    nonterminal: Symbol::Nonterminal(0),
                    terminal: Symbol::Terminal(0),
                },
            );
        },
    };
    let ghost f = rows_view(fl.sets@);
    let rs = cfg.rules();
    let rr = rs.len();
    assert(forall|x: int|
        0 <= x < rr ==> rules[x] == ((#[trigger] rs@[x]).0.unpacked(), unpack_syms(rs@[x].1@)));

    let mut i: usize = 0;
    while i < rr
        invariant
            i <= rr,
            cfg.wf(),
            cfg.spec_rules() == old(cfg).spec_rules(),
            cfg.nt_count() == old(cfg).nt_count(),
            cfg.term_count() == old(cfg).term_count(),
            cfg.start_idx() == old(cfg).start_idx(),
            cfg.spec_extra().nullability == old(cfg).spec_extra().nullability,
            cfg.spec_extra().names == old(cfg).spec_extra().names,
            cfg.spec_extra().follow == Some(*fl),
            start == cfg.start_idx(),
            follow_closed(rules, nts, terms, start, f),
            follow_minimal(rules, nts, terms, start, f),
            rules == cfg.spec_rules(),
            nts == cfg.nt_count(),
            terms == cfg.term_count(),
            rr == rules.len(),
            rs@.len() == rr,
            unpack_rules(rs@) == rules,
            nn == nts && mm == terms,
            2 <= mm,
            visited0@ == empty_visited(nts),
            f == rows_view(fl.sets@),
            follow_dims(f, nts, terms),
            rows_view(grid@).len() == nn,
            forall|a: int| 0 <= a < nn ==> (#[trigger] rows_view(grid@)[a]).len() == mm,
            forall|a: int, t: int|
                0 <= a < nn && 0 <= t < mm && (#[trigger] rows_view(grid@)[a][t]) is Some
                    ==> rule_selects(
                    rules,
                    nts,
                    f,
                    rows_view(grid@)[a][t]->Some_0.0 as int,
                    a,
                    t,
                ),
            forall|p: int, a: int, t: int|
                0 <= p < i && 0 <= a < nn && 0 <= t < mm && #[trigger] rule_selects(
                    rules,
                    nts,
                    f,
                    p,
                    a,
                    t,
                ) ==> (rows_view(grid@)[a][t] matches Some(rl) && rl.0 == p),
        decreases rr - i,
    {
        assert(rules[i as int].1 == unpack_syms(rs@[i as int].1@));
        assert(rules[i as int].0 is Nonterminal && rules[i as int].0.idx() < nts);
        let lhs_idx = rs[i].0.to_index();
        let ai = lhs_idx as usize;
        assert(forall|q: int|
            0 <= q < rs@[i as int].1@.len() ==> valid_symbol(
                unpack_syms(rs@[i as int].1@)[q],
                cfg.nt_count(),
                cfg.term_count(),
            )) by {
            assert(forall|q: int|
                0 <= q < rules[i as int].1.len() ==> valid_symbol(
                    #[trigger] rules[i as int].1[q],
                    nts,
                    terms,
                ));
        }
        let first = first_of_packed_seq(cfg, &visited0, &rs[i].1, 0);
        let ghost fs = first_of_rhs(rules, nts, rules[i as int].1, 0);
        assert(fs == first_scan(rules, empty_visited(nts), rules[i as int].1, 0));
        assert(forall|t: int| 0 <= t < mm ==> first@[t] == fs.contains(t as u32));

        // Cells claimed through FIRST of the right-hand side.
        let mut t: usize = 0;
        while t < mm
            invariant
                t <= mm,
                i < rr,
                cfg.wf(),
                cfg.spec_rules() == old(cfg).spec_rules(),
                cfg.nt_count() == old(cfg).nt_count(),
                cfg.term_count() == old(cfg).term_count(),
                cfg.start_idx() == old(cfg).start_idx(),
                cfg.spec_extra().nullability == old(cfg).spec_extra().nullability,
                cfg.spec_extra().names == old(cfg).spec_extra().names,
                cfg.spec_extra().follow == Some(*fl),
                start == cfg.start_idx(),
                follow_closed(rules, nts, terms, start, f),
                follow_minimal(rules, nts, terms, start, f),
                rules == cfg.spec_rules(),
                nts == cfg.nt_count(),
                terms == cfg.term_count(),
                rr == rules.len(),
                rs@.len() == rr,
                unpack_rules(rs@) == rules,
                nn == nts && mm == terms,
                2 <= mm,
                f == rows_view(fl.sets@),
                follow_dims(f, nts, terms),
                lhs_idx == rules[i as int].0.idx(),
                ai == lhs_idx as usize,
                ai < nn,
                fs == first_of_rhs(rules, nts, rules[i as int].1, 0),
                first@.len() == mm,
                forall|y: int| 0 <= y < mm ==> first@[y] == fs.contains(y as u32),
                rows_view(grid@).len() == nn,
                forall|a: int| 0 <= a < nn ==> (#[trigger] rows_view(grid@)[a]).len() == mm,
                forall|a: int, y: int|
                    0 <= a < nn && 0 <= y < mm && (#[trigger] rows_view(grid@)[a][y]) is Some
                        ==> rule_selects(
                        rules,
                        nts,
                        f,
                        rows_view(grid@)[a][y]->Some_0.0 as int,
                        a,
                        y,
                    ),
                forall|p: int, a: int, y: int|
                    0 <= p < i && 0 <= a < nn && 0 <= y < mm && #[trigger] rule_selects(
                        rules,
                        nts,
                        f,
                        p,
                        a,
                        y,
                    ) ==> (rows_view(grid@)[a][y] matches Some(rl) && rl.0 == p),
                forall|y: int|
                    #![trigger fs.contains(y as u32)]
                    0 <= y < t && y != EPSILON_INDEX && fs.contains(y as u32) ==> (rows_view(
                        grid@,
                    )[ai as int][y] matches Some(rl) && rl.0 == i),
            decreases mm - t,
        {
            if first[t] && t != EPSILON_INDEX as usize {
                assert(rule_selects(rules, nts, f, i as int, ai as int, t as int));
                match grid_get(&grid, ai, t) {
                    None => {
                        grid_put(&mut grid, ai, t, Rule(i));
                    },
                    Some(rl) => {
                        if rl.0 != i {
                            assert(rule_selects(rules, nts, f, rl.0 as int, ai as int, t as int));
                            proof {
                                assert(!ll1_unique(rules, nts, terms, f)) by {
                                    assert(rule_selects(rules, nts, f, rl.0 as int, ai as int, t as int)
                                        && rule_selects(rules, nts, f, i as int, ai as int, t as int)
                                        && rl.0 as int != i as int);
                                }
                                assert(Symbol::Nonterminal(lhs_idx).idx() as int == ai as int);
                                assert(Symbol::Terminal(t as u32).idx() as int == t as int);
                            }
                            return Err(
                                Ll1Conflict {
                                    rule_a: rl,
                                    rule_b: Rule(i),
                                    nonterminal: Symbol::Nonterminal(lhs_idx),
                                    terminal: Symbol::Terminal(t as u32),
                                },
                            );
                        }
                    },
                }
            }
            t = t + 1;
        }

        // Cells claimed through FOLLOW of the left-hand side, when the
        // right-hand side can derive the empty string.
        if first[EPSILON_INDEX as usize] {
            assert(fs.contains(EPSILON_INDEX));
            let frow = &fl.sets[ai];
            assert(frow@ == f[ai as int]);
            let mut t: usize = 0;
            while t < mm
                invariant
                    t <= mm,
                    i < rr,
                    cfg.wf(),
                    cfg.spec_rules() == old(cfg).spec_rules(),
                    cfg.nt_count() == old(cfg).nt_count(),
                    cfg.term_count() == old(cfg).term_count(),
                    cfg.start_idx() == old(cfg).start_idx(),
                    cfg.spec_extra().nullability == old(cfg).spec_extra().nullability,
                    cfg.spec_extra().names == old(cfg).spec_extra().names,
                    cfg.spec_extra().follow == Some(*fl),
                    start == cfg.start_idx(),
                    follow_closed(rules, nts, terms, start, f),
                    follow_minimal(rules, nts, terms, start, f),
                    rules == cfg.spec_rules(),
                    nts == cfg.nt_count(),
                    terms == cfg.term_count(),
                    rr == rules.len(),
                    rs@.len() == rr,
                    unpack_rules(rs@) == rules,
                    nn == nts && mm == terms,
                    2 <= mm,
                    f == rows_view(fl.sets@),
                    follow_dims(f, nts, terms),
                    lhs_idx == rules[i as int].0.idx(),
                    ai == lhs_idx as usize,
                    ai < nn,
                    fs == first_of_rhs(rules, nts, rules[i as int].1, 0),
                    fs.contains(EPSILON_INDEX),
                    frow@ == f[ai as int],
                    rows_view(grid@).len() == nn,
                    forall|a: int| 0 <= a < nn ==> (#[trigger] rows_view(grid@)[a]).len() == mm,
                    forall|a: int, y: int|
                        0 <= a < nn && 0 <= y < mm && (#[trigger] rows_view(grid@)[a][y]) is Some
                            ==> rule_selects(
                            rules,
                            nts,
                            f,
                            rows_view(grid@)[a][y]->Some_0.0 as int,
                            a,
                            y,
                        ),
                    forall|p: int, a: int, y: int|
                        0 <= p < i && 0 <= a < nn && 0 <= y < mm && #[trigger] rule_selects(
                            rules,
                            nts,
                            f,
                            p,
                            a,
                            y,
                        ) ==> (rows_view(grid@)[a][y] matches Some(rl) && rl.0 == p),
                    forall|y: int|
                        #![trigger fs.contains(y as u32)]
                        0 <= y < mm && y != EPSILON_INDEX && fs.contains(y as u32) ==> (rows_view(
                            grid@,
                        )[ai as int][y] matches Some(rl) && rl.0 == i),
                    forall|y: int|
                        #![trigger f[ai as int][y]]
                        0 <= y < t && f[ai as int][y] ==> (rows_view(grid@)[ai as int][y] matches
                            Some(rl) && rl.0 == i),
                decreases mm - t,
            {
                if frow[t] {
                    assert(rule_selects(rules, nts, f, i as int, ai as int, t as int));
                    match grid_get(&grid, ai, t) {
                        None => {
                            grid_put(&mut grid, ai, t, Rule(i));
                        },
                        Some(rl) => {
                            if rl.0 != i {
                                assert(rule_selects(
                                    rules,
                                    nts,
                                    f,
                                    rl.0 as int,
                                    ai as int,
                                    t as int,
                                ));
                                proof {
                                    assert(!ll1_unique(rules, nts, terms, f)) by {
                                        assert(rule_selects(rules, nts, f, rl.0 as int, ai as int, t as int)
                                            && rule_selects(rules, nts, f, i as int, ai as int, t as int)
                                            && rl.0 as int != i as int);
                                    }
                                    assert(Symbol::Nonterminal(lhs_idx).idx() as int == ai as int);
                                    assert(Symbol::Terminal(t as u32).idx() as int == t as int);
                                }
                                return Err(
                                    Ll1Conflict {
                                        rule_a: rl,
                                        rule_b: Rule(i),
                                        nonterminal: Symbol::Nonterminal(lhs_idx),
                                        terminal: Symbol::Terminal(t as u32),
                                    },
                                );
                            }
                        },
                    }
                }
                t = t + 1;
            }
            proof {
                assert forall|p: int, a: int, y: int|
                    0 <= p < i + 1 && 0 <= a < nn && 0 <= y < mm && #[trigger] rule_selects(
                        rules,
                        nts,
                        f,
                        p,
                        a,
                        y,
                    ) implies (rows_view(grid@)[a][y] matches Some(rl) && rl.0 == p) by {
                    if p == i as int {
                        assert(a == ai as int);
                    }
                }
            }
        } else {
            proof {
                assert forall|p: int, a: int, y: int|
                    0 <= p < i + 1 && 0 <= a < nn && 0 <= y < mm && #[trigger] rule_selects(
                        rules,
                        nts,
                        f,
                        p,
                        a,
                        y,
                    ) implies (rows_view(grid@)[a][y] matches Some(rl) && rl.0 == p) by {
                    if p == i as int {
                        assert(a == ai as int);
                        assert(y != EPSILON_INDEX && fs.contains(y as u32));
                    }
                }
            }
        }
        i = i + 1;
    }

    // No conflicts: every cell holds the unique rule claiming it.
    proof {
        assert forall|p: int, q: int, a: int, t: int|
            #![trigger rule_selects(rules, nts, f, p, a, t), rule_selects(rules, nts, f, q, a, t)]
            rule_selects(rules, nts, f, p, a, t) && rule_selects(rules, nts, f, q, a, t) && 0 <= a
                < nts && 0 <= t < terms implies p == q by {
            assert(rows_view(grid@)[a][t] matches Some(rl) && rl.0 == p);
            assert(rows_view(grid@)[a][t] matches Some(rl) && rl.0 == q);
        }
    }

    // Snapshot the rule list.
    let mut rules_copy: Vec<(PackedSymbol, Vec<PackedSymbol>)> = Vec::new();
    let mut k: usize = 0;
    while k < rr
        invariant
            k <= rr,
            rs@.len() == rr,
            rules_copy@.len() == k,
            forall|q: int|
                0 <= q < k ==> (#[trigger] rules_copy@[q]).0 == rs@[q].0 && rules_copy@[q].1@
                    == rs@[q].1@,
        decreases rr - k,
    {
        let src = &rs[k].1;
        let mut inner: Vec<PackedSymbol> = Vec::new();
        let mut q: usize = 0;
        let ln = src.len();
        while q < ln
            invariant
                q <= ln,
                ln == src@.len(),
                inner@.len() == q,
                forall|w: int| 0 <= w < q ==> inner@[w] == src@[w],
            decreases ln - q,
        {
            inner.push(src[q]);
            q = q + 1;
        }
        assert(inner@ =~= rs@[k as int].1@);
        rules_copy.push((rs[k].0, inner));
        k = k + 1;
    }
    assert(unpack_rules(rules_copy@) =~= rules);

    let start_sym = rs[start_pos].0.unpack();
    let tab = Table { start: start_sym, rules: rules_copy, table: grid };
    proof {
        assert(tab.table@.len() == nn);
        assert(rows_view(tab.table@)[0].len() == mm);
        assert(tab.cols() == mm && tab.nts() == nn);
        assert(tab.start == rules[start as int].0);
        assert(wf_rules(unpack_rules(tab.rules@), tab.nts() as u32, tab.cols() as u32));
        assert forall|a: int, t: int|
            0 <= a < tab.nts() && 0 <= t < tab.cols() && (#[trigger] rows_view(
                tab.table@,
            )[a][t]) is Some implies rows_view(tab.table@)[a][t]->Some_0.0 < unpack_rules(
            tab.rules@,
        ).len() by {
            assert(rule_selects(
                rules,
                nts,
                f,
                rows_view(tab.table@)[a][t]->Some_0.0 as int,
                a,
                t,
            ));
        }
        assert(tab.wf());
        assert forall|a: int, t: int|
            #![trigger rows_view(tab.table@)[a][t]]
            0 <= a < nts && 0 <= t < terms implies match (rows_view(
            tab.table@,
        )[a][t]) {
            Some(rl) => rule_selects(rules, nts, f, rl.0 as int, a, t),
            None => forall|i: int|
                0 <= i < rules.len() ==> !rule_selects(rules, nts, f, i, a, t),
        } by {
            match rows_view(tab.table@)[a][t] {
                Some(rl) => {
                    assert(rule_selects(rules, nts, f, rl.0 as int, a, t));
                },
                None => {
                    assert forall|i2: int| 0 <= i2 < rules.len() implies !rule_selects(
                        rules,
                        nts,
                        f,
                        i2,
                        a,
                        t,
                    ) by {
                        if rule_selects(rules, nts, f, i2, a, t) {
                            assert(rows_view(tab.table@)[a][t] matches Some(rl) && rl.0 == i2);
                        }
                    }
                },
            }
        }
    }
    Ok(tab)
}

/// The ways a parse attempt can fail. Parse failures are fatal to the
/// attempt: there is no recovery, and retrying with the same table and
/// input cannot succeed.
#[derive(Copy, Clone, PartialEq, Eq, Structural, Debug)]
pub enum ParseError {
    /// The stack's top terminal (or the exhausted stack) does not match the
    /// current token.
    UnexpectedToken,
    /// The table holds no rule for the current nonterminal and lookahead.
    NoApplicableRule,
    /// The automaton ran for an astronomical number of steps without
    /// halting. A table whose construction reported no conflict can still
    /// expand nonterminals in a cycle that never consumes input; this bound
    /// keeps the parser terminating on such tables, and no input parseable
    /// in practice comes anywhere near it.
    DerivationLimit,
}

/// Outcome of the specification-level automaton run with a given step
/// allowance.
pub enum ParseOutcome {
    /// The automaton accepted, having applied these rules in this order.
    Accepts(Seq<Rule>),
    /// The automaton hit a fatal step: a terminal mismatch or an empty cell.
    Rejects(ParseError),
    /// The step allowance ran out before the automaton halted.
    Unfinished,
}

/// The parse stack with epsilon placeholders discarded from the top; the
/// stack's top is the sequence's last element.
pub open spec fn strip_placeholders(stack: Seq<PackedSymbol>) -> Seq<PackedSymbol>
    decreases stack.len(),
{
    if stack.len() == 0 {
        stack
    } else if stack.last().0 == EPSILON_INDEX {
        strip_placeholders(stack.drop_last())
    } else {
        stack
    }
}

/// The packed form of a symbol.
pub open spec fn spec_pack(s: Symbol) -> PackedSymbol {
    match s {
        Symbol::Terminal(t) => PackedSymbol(t),
        Symbol::Nonterminal(a) => PackedSymbol((a + NONTERMINAL_BIT) as u32),
    }
}

/// The automaton's starting stack: the end-of-input marker at the bottom,
/// the start symbol on top.
pub open spec fn initial_stack(tab: Table) -> Seq<PackedSymbol> {
    seq![PackedSymbol(END_OF_INPUT_INDEX), spec_pack(tab.start)]
}

/// The one-token lookahead at a position: the token's terminal index, or
/// the end-of-input sentinel once the input is exhausted.
pub open spec fn lookahead_at(s: Seq<Symbol>, pos: int) -> int {
    if 0 <= pos < s.len() {
        s[pos].idx() as int
    } else {
        END_OF_INPUT_INDEX as int
    }
}

/// The table-driven pushdown automaton, as a function of the table, the
/// input, the state (stack, input position, rules applied so far) and a
/// step allowance. After discarding epsilon placeholders, one step is
/// determined by the stack top and the lookahead:
/// - the bottom end-of-input marker accepts exactly at end of input and
///   otherwise fails with an unexpected token;
/// - a terminal matching the lookahead is popped and the token consumed; a
///   mismatch (also against the implicit final end-of-input token) fails
///   with an unexpected token;
/// - a nonterminal is replaced through its table cell for the lookahead,
///   the rule's right-hand side pushed in reverse so its first symbol is
///   on top, and the rule recorded; an empty cell fails with no applicable
///   rule.
/// The nonterminal replaced is always the leftmost one not yet rewritten,
/// so the recorded rules of an accepting run are a leftmost derivation.
/// `Unfinished` is the outcome of exhausting the step allowance.
pub open spec fn run(
    tab: Table,
    s: Seq<Symbol>,
    stack: Seq<PackedSymbol>,
    pos: int,
    deriv: Seq<Rule>,
    fuel: nat,
) -> ParseOutcome
    decreases fuel,
{
    if fuel == 0 {
        ParseOutcome::Unfinished
    } else {
        let st = strip_placeholders(stack);
        if st.len() == 0 {
            // Unreachable from the initial stack: the bottom marker is
            // never a placeholder.
            ParseOutcome::Rejects(ParseError::UnexpectedToken)
        } else {
            let top = st.last();
            if top.0 < NONTERMINAL_BIT {
                if top.0 == END_OF_INPUT_INDEX {
                    if pos >= s.len() {
                        ParseOutcome::Accepts(deriv)
                    } else {
                        ParseOutcome::Rejects(ParseError::UnexpectedToken)
                    }
                } else if 0 <= pos < s.len() && s[pos].idx() == top.0 {
                    run(tab, s, st.drop_last(), pos + 1, deriv, (fuel - 1) as nat)
                } else {
                    ParseOutcome::Rejects(ParseError::UnexpectedToken)
                }
            } else {
                let a = top.0 - NONTERMINAL_BIT;
                match rows_view(tab.table@)[a as int][lookahead_at(s, pos)] {
                    Some(rl) => run(
                        tab,
                        s,
                        st.drop_last() + tab.rules@[rl.0 as int].1@.reverse(),
                        pos,
                        deriv.push(rl),
                        (fuel - 1) as nat,
                    ),
                    None => ParseOutcome::Rejects(ParseError::NoApplicableRule),
                }
            }
        }
    }
}

/// Parse a token sequence with a predictive table, also returning the
/// tokens consumed by the matching steps, in order. The result is exactly
/// the outcome of the automaton `run` from the initial stack: acceptance
/// returns the rules it applied — a leftmost derivation — and the consumed
/// tokens, which are exactly the input (concatenating them reproduces the
/// original token sequence); a fatal step returns its error; only the
/// exhaustion of the astronomical step allowance returns the
/// derivation-limit error. In particular the result is a function of the
/// table and the input alone.
///
/// Tokens are ordinary terminals of the table's grammar: the two sentinels
/// never occur in real input, and the end-of-input sentinel is appended
/// implicitly.
pub fn parse_with_matches(tab: &Table, s: &[Symbol]) -> (res: Result<
    (Vec<Rule>, Vec<Symbol>),
    ParseError,
>)
    requires
        tab.wf(),
        forall|k: int|
            0 <= k < s@.len() ==> (#[trigger] s@[k]) is Terminal && (s@[k].idx() as int)
                < tab.cols() && s@[k].idx() != END_OF_INPUT_INDEX && s@[k].idx() != EPSILON_INDEX,
    ensures
        res matches Ok(dm) ==> dm.1@ == s@,
        res matches Ok(dm) ==> forall|q: int|
            0 <= q < dm.0@.len() ==> (#[trigger] dm.0@[q]).0 < tab.rules@.len(),
        ({
            let outcome = run(*tab, s@, initial_stack(*tab), 0, Seq::empty(), u64::MAX as nat);
            match res {
                Ok(dm) => outcome == ParseOutcome::Accepts(dm.0@),
                Err(ParseError::DerivationLimit) => outcome is Unfinished,
                Err(e) => outcome == ParseOutcome::Rejects(e),
            }
        }),
{
    let nn = tab.table.len();
    let mut stack: Vec<PackedSymbol> = Vec::new();
    stack.push(PackedSymbol(END_OF_INPUT_INDEX));
    assert(tab.start.packable());
    let spk = tab.start.pack();
    assert(spk == spec_pack(tab.start)) by {
        if spk.0 < NONTERMINAL_BIT {
            assert(spk.unpacked() is Terminal);
        }
    }
    stack.push(spk);
    let mut derivation: Vec<Rule> = Vec::new();
    let mut matched: Vec<Symbol> = Vec::new();
    let mut idx: usize = 0;
    let mut steps: u64 = 0;
    assert(PackedSymbol(END_OF_INPUT_INDEX).unpacked() == Symbol::Terminal(END_OF_INPUT_INDEX));
    assert(matched@ =~= s@.take(0));
    assert(stack@ =~= initial_stack(*tab));

    loop
        invariant
            tab.wf(),
            nn == tab.nts(),
            forall|k: int|
                0 <= k < s@.len() ==> (#[trigger] s@[k]) is Terminal && (s@[k].idx() as int)
                    < tab.cols() && s@[k].idx() != END_OF_INPUT_INDEX && s@[k].idx()
                    != EPSILON_INDEX,
            idx <= s@.len(),
            matched@ == s@.take(idx as int),
            stack@.len() >= 1,
            stack@[0] == PackedSymbol(END_OF_INPUT_INDEX),
            forall|k: int|
                0 <= k < stack@.len() ==> match (#[trigger] stack@[k]).unpacked() {
                    Symbol::Terminal(t) => (t as int) < tab.cols(),
                    Symbol::Nonterminal(a) => (a as int) < tab.nts(),
                },
            forall|q: int| 0 <= q < derivation@.len() ==> (#[trigger] derivation@[q]).0
                < tab.rules@.len(),
            steps <= u64::MAX,
            run(*tab, s@, initial_stack(*tab), 0, Seq::empty(), u64::MAX as nat) == run(
                *tab,
                s@,
                stack@,
                idx as int,
                derivation@,
                (u64::MAX - steps) as nat,
            ),
        decreases u64::MAX - steps,
    {
        if steps == u64::MAX {
            return Err(ParseError::DerivationLimit);
        }
        let ghost rem = (u64::MAX - steps) as nat;
        let ghost stack_head = stack@;
        steps = steps + 1;
        proof {
            assert((u64::MAX - steps) as nat == (rem - 1) as nat);
        }

        // Epsilon placeholders on top of the stack never match real input:
        // discard them before acting.
        while stack[stack.len() - 1].0 == EPSILON_INDEX
            invariant
                stack@.len() >= 1,
                stack@[0] == PackedSymbol(END_OF_INPUT_INDEX),
                forall|k: int|
                    0 <= k < stack@.len() ==> match (#[trigger] stack@[k]).unpacked() {
                        Symbol::Terminal(t) => (t as int) < tab.cols(),
                        Symbol::Nonterminal(a) => (a as int) < tab.nts(),
                    },
                strip_placeholders(stack@) == strip_placeholders(stack_head),
            decreases stack@.len(),
        {
            assert(stack@.len() >= 2) by {
                assert(stack@[0].0 == END_OF_INPUT_INDEX);
            }
            let ghost prev = stack@;
            let _ = stack.pop();
            proof {
                assert(stack@ == prev.drop_last());
                assert(strip_placeholders(prev) == strip_placeholders(prev.drop_last()));
            }
        }
        proof {
            assert(strip_placeholders(stack@) == stack@);
            assert(strip_placeholders(stack_head) == stack@);
        }
        let ghost target = run(*tab, s@, stack_head, idx as int, derivation@, rem);

        let top = stack[stack.len() - 1];
        assert(top == strip_placeholders(stack_head).last());
        if top.is_terminal() {
            assert(top.0 < NONTERMINAL_BIT) by {
                if top.0 >= NONTERMINAL_BIT {
                    assert(top.unpacked() is Nonterminal);
                }
            }
            let tt = top.to_index();
            assert(tt == top.0);
            if tt == END_OF_INPUT_INDEX {
                // Bottom marker reached: accept exactly at end of input.
                if idx >= s.len() {
                    assert(matched@ =~= s@);
                    proof {
                        assert(target == ParseOutcome::Accepts(derivation@));
                    }
                    return Ok((derivation, matched));
                } else {
                    proof {
                        assert(target == ParseOutcome::Rejects(ParseError::UnexpectedToken));
                    }
                    return Err(ParseError::UnexpectedToken);
                }
            } else if idx < s.len() {
                let tok = s[idx];
                let ti = match tok {
                    Symbol::Terminal(x) => x,
                    Symbol::Nonterminal(x) => x,
                };
                assert(ti == s@[idx as int].idx());
                if ti == tt {
                    proof {
                        assert(target == run(
                            *tab,
                            s@,
                            strip_placeholders(stack_head).drop_last(),
                            idx as int + 1,
                            derivation@,
                            (rem - 1) as nat,
                        ));
                    }
                    let ghost prev = stack@;
                    let _ = stack.pop();
                    matched.push(tok);
                    idx = idx + 1;
                    assert(matched@ =~= s@.take(idx as int));
                    proof {
                        assert(stack@ == prev.drop_last());
                    }
                } else {
                    proof {
                        assert(target == ParseOutcome::Rejects(ParseError::UnexpectedToken));
                    }
                    return Err(ParseError::UnexpectedToken);
                }
            } else {
                // Lookahead is the implicit end-of-input token, but the
                // stack still expects a real terminal.
                proof {
                    assert(target == ParseOutcome::Rejects(ParseError::UnexpectedToken));
                }
                return Err(ParseError::UnexpectedToken);
            }
        } else {
            assert(top.0 >= NONTERMINAL_BIT) by {
                if top.0 < NONTERMINAL_BIT {
                    assert(top.unpacked() is Terminal);
                }
            }
            let a = top.to_index() as usize;
            assert(a as int == top.0 - NONTERMINAL_BIT);
            let la = if idx < s.len() {
                match s[idx] {
                    Symbol::Terminal(x) => x,
                    Symbol::Nonterminal(x) => x,
                }
            } else {
                END_OF_INPUT_INDEX
            };
            assert(la as int == lookahead_at(s@, idx as int));
            assert((la as int) < tab.cols());
            match grid_get(&tab.table, a, la as usize) {
                None => {
                    proof {
                        assert(target == ParseOutcome::Rejects(ParseError::NoApplicableRule));
                    }
                    return Err(ParseError::NoApplicableRule);
                },
                Some(rl) => {
                    assert(rl.0 < tab.rules@.len()) by {
                        assert(rows_view(tab.table@)[a as int][la as int] is Some);
                    }
                    proof {
                        assert(target == run(
                            *tab,
                            s@,
                            strip_placeholders(stack_head).drop_last()
                                + tab.rules@[rl.0 as int].1@.reverse(),
                            idx as int,
                            derivation@.push(rl),
                            (rem - 1) as nat,
                        ));
                    }
                    derivation.push(rl);
                    let ghost prev = stack@;
                    let _ = stack.pop();
                    let ghost base = stack@;
                    proof {
                        assert(base == prev.drop_last());
                    }
                    let rhs = &tab.rules[rl.0].1;
                    assert(unpack_rules(tab.rules@)[rl.0 as int].1 == unpack_syms(rhs@));
                    assert(rhs@ == tab.rules@[rl.0 as int].1@);
                    let mut w = rhs.len();
                    assert(stack@ =~= base + rhs@.subrange(w as int, rhs@.len() as int).reverse());
                    while w > 0
                        invariant
                            w <= rhs@.len(),
                            tab.wf(),
                            rl.0 < tab.rules@.len(),
                            unpack_rules(tab.rules@)[rl.0 as int].1 == unpack_syms(rhs@),
                            stack@ == base + rhs@.subrange(w as int, rhs@.len() as int).reverse(),
                            base.len() >= 1,
                            base[0] == PackedSymbol(END_OF_INPUT_INDEX),
                            forall|k: int|
                                0 <= k < base.len() ==> match (#[trigger] base[k]).unpacked() {
                                    Symbol::Terminal(t) => (t as int) < tab.cols(),
                                    Symbol::Nonterminal(a2) => (a2 as int) < tab.nts(),
                                },
                        decreases w,
                    {
                        w = w - 1;
                        let sym = rhs[w];
                        assert(match sym.unpacked() {
                            Symbol::Terminal(t) => (t as int) < tab.cols(),
                            Symbol::Nonterminal(a2) => (a2 as int) < tab.nts(),
                        }) by {
                            assert(unpack_syms(rhs@)[w as int] == sym.unpacked());
                            assert(valid_symbol(
                                unpack_rules(tab.rules@)[rl.0 as int].1[w as int],
                                tab.nts() as u32,
                                tab.cols() as u32,
                            ));
                        }
                        stack.push(sym);
                        assert(stack@ =~= base + rhs@.subrange(w as int, rhs@.len() as int).reverse());
                    }
                    proof {
                        assert(rhs@.subrange(0, rhs@.len() as int) =~= rhs@);
                        assert(stack@ == base + rhs@.reverse());
                        // The stack validity facts extend to the pushed
                        // right-hand side.
                        assert(forall|k: int|
                            0 <= k < stack@.len() ==> match (#[trigger] stack@[k]).unpacked() {
                                Symbol::Terminal(t) => (t as int) < tab.cols(),
                                Symbol::Nonterminal(a2) => (a2 as int) < tab.nts(),
                            }) by {
                            assert(forall|k: int|
                                0 <= k < rhs@.len() ==> (#[trigger] rhs@.reverse()[k])
                                    == rhs@[rhs@.len() - 1 - k]);
                            assert(forall|k: int|
                                0 <= k < rhs@.len() ==> unpack_syms(rhs@)[k] == (
                                #[trigger] rhs@[k]).unpacked());
                            assert(forall|k: int|
                                0 <= k < rhs@.len() ==> valid_symbol(
                                    #[trigger] unpack_rules(tab.rules@)[rl.0 as int].1[k],
                                    tab.nts() as u32,
                                    tab.cols() as u32,
                                ));
                        }
                    }
                },
            }
        }
    }
}

/// Parse a token sequence with a predictive table, returning the rules
/// applied, in order: a leftmost derivation of the input on acceptance.
/// The result is exactly the outcome of the automaton `run` from the
/// initial stack — acceptance, the error of the first fatal step, or the
/// derivation-limit error when the astronomical step allowance runs out —
/// so it is a function of the table and the input alone. Each cell of the
/// table holds at most one rule, so exactly one transition applies at
/// every step and no backtracking ever happens.
pub fn parse(tab: &Table, s: &[Symbol]) -> (res: Result<Vec<Rule>, ParseError>)
    requires
        tab.wf(),
        forall|k: int|
            0 <= k < s@.len() ==> (#[trigger] s@[k]) is Terminal && (s@[k].idx() as int)
                < tab.cols() && s@[k].idx() != END_OF_INPUT_INDEX && s@[k].idx() != EPSILON_INDEX,
    ensures
        res matches Ok(d) ==> forall|q: int|
            0 <= q < d@.len() ==> (#[trigger] d@[q]).0 < tab.rules@.len(),
        ({
            let outcome = run(*tab, s@, initial_stack(*tab), 0, Seq::empty(), u64::MAX as nat);
            match res {
                Ok(d) => outcome == ParseOutcome::Accepts(d@),
                Err(ParseError::DerivationLimit) => outcome is Unfinished,
                Err(e) => outcome == ParseOutcome::Rejects(e),
            }
        }),
{
    match parse_with_matches(tab, s) {
        Ok((d, _m)) => Ok(d),
        Err(e) => Err(e),
    }
}

} // verus!
