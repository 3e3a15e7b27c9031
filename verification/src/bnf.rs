//! A compact textual notation for grammars.
//!
//! One line per rule: the line's first non-blank character names the
//! left-hand nonterminal, the remaining characters name the right-hand-side
//! symbols, and a line with no further characters denotes the empty
//! production. An uppercase ASCII letter names a nonterminal, any other
//! byte a terminal. The first line's rule becomes the start rule. The
//! loader builds grammars only through the construction API and keeps a
//! symbol-name table so results can be rendered back to the notation.

use vstd::prelude::*;
use vstd::string::StringSliceAdditionalSpecFns;
use crate::{valid_symbol, Cfg, Mutable, Symbol, NONTERMINAL_BIT};

verus! {

/// Display names for the symbols of a grammar read from text: one byte per
/// allocated nonterminal and terminal, in allocation order.
pub struct BNFName {
    /// Name of each nonterminal, indexed by nonterminal index.
    pub nonterminals: Vec<u8>,
    /// Name of each ordinarily allocated terminal, indexed by terminal
    /// index minus the two reserved sentinel slots.
    pub terminals: Vec<u8>,
}

/// The name table covers exactly the allocated symbols of a grammar.
pub open spec fn names_sync<T>(names: &BNFName, c: &Cfg<T>) -> bool {
    &&& names.nonterminals@.len() == c.nt_count()
    &&& names.terminals@.len() + 2 == c.term_count()
}

/// Whether a byte is blank space the notation ignores.
pub open spec fn spec_blank(b: u8) -> bool {
    b == 32 || b == 9 || b == 13
}

/// Position of the first occurrence of a byte in a name table at or after
/// `p`, or the table's length when it does not occur.
pub open spec fn name_index_from(names: Seq<u8>, ch: u8, p: int) -> int
    decreases names.len() - p,
{
    if p < 0 || p >= names.len() {
        names.len() as int
    } else if names[p] == ch {
        p
    } else {
        name_index_from(names, ch, p + 1)
    }
}

/// The nonterminal a byte names under a name table: the existing entry's
/// index, or a freshly interned one; no symbol only when the index space is
/// exhausted. Returns the possibly grown table and the symbol.
pub open spec fn intern_nonterminal(ntn: Seq<u8>, ch: u8) -> (Seq<u8>, Option<Symbol>) {
    let p = name_index_from(ntn, ch, 0);
    if p < ntn.len() {
        (ntn, Some(Symbol::Nonterminal(p as u32)))
    } else if ntn.len() < NONTERMINAL_BIT {
        (ntn.push(ch), Some(Symbol::Nonterminal(ntn.len() as u32)))
    } else {
        (ntn, None)
    }
}

/// The terminal a byte names under a name table, two slots past the
/// sentinels; as `intern_nonterminal` otherwise.
pub open spec fn intern_terminal(tn: Seq<u8>, ch: u8) -> (Seq<u8>, Option<Symbol>) {
    let p = name_index_from(tn, ch, 0);
    if p < tn.len() {
        (tn, Some(Symbol::Terminal((p + 2) as u32)))
    } else if tn.len() + 2 < NONTERMINAL_BIT {
        (tn.push(ch), Some(Symbol::Terminal((tn.len() + 2) as u32)))
    } else {
        (tn, None)
    }
}

/// The state of reading one notation line: the name tables so far, the
/// left-hand nonterminal once seen, and the right-hand symbols so far.
pub struct LineScan {
    /// Nonterminal names interned so far.
    pub ntn: Seq<u8>,
    /// Terminal names interned so far.
    pub tn: Seq<u8>,
    /// The line's left-hand nonterminal, once a non-blank byte was read.
    pub lhs: Option<Symbol>,
    /// The line's right-hand symbols so far.
    pub syms: Seq<Symbol>,
}

/// Reading the line bytes `bytes[k..j]`: blanks are skipped, the first
/// other byte names the left-hand nonterminal, and each further byte names
/// a right-hand symbol, a nonterminal for uppercase ASCII and a terminal
/// otherwise.
pub open spec fn scan_line(bytes: Seq<u8>, k: int, j: int, st: LineScan) -> LineScan
    decreases j - k,
{
    if k < 0 || k >= j {
        st
    } else {
        let b = bytes[k];
        if spec_blank(b) {
            scan_line(bytes, k + 1, j, st)
        } else {
            match st.lhs {
                None => {
                    let fresh = intern_nonterminal(st.ntn, b);
                    scan_line(
                        bytes,
                        k + 1,
                        j,
                        LineScan { ntn: fresh.0, tn: st.tn, lhs: fresh.1, syms: st.syms },
                    )
                },
                Some(_) => {
                    if 65 <= b && b <= 90 {
                        let fresh = intern_nonterminal(st.ntn, b);
                        scan_line(
                            bytes,
                            k + 1,
                            j,
                            LineScan {
                                ntn: fresh.0,
                                tn: st.tn,
                                lhs: st.lhs,
                                syms: match fresh.1 {
                                    Some(sym) => st.syms.push(sym),
                                    None => st.syms,
                                },
                            },
                        )
                    } else {
                        let fresh = intern_terminal(st.tn, b);
                        scan_line(
                            bytes,
                            k + 1,
                            j,
                            LineScan {
                                ntn: st.ntn,
                                tn: fresh.0,
                                lhs: st.lhs,
                                syms: match fresh.1 {
                                    Some(sym) => st.syms.push(sym),
                                    None => st.syms,
                                },
                            },
                        )
                    }
                },
            }
        }
    }
}

/// Position of the first newline at or after `i`, or the text's length.
pub open spec fn line_end(bytes: Seq<u8>, i: int) -> int
    decreases bytes.len() - i,
{
    if i < 0 || i >= bytes.len() {
        bytes.len() as int
    } else if bytes[i] == 10 {
        i
    } else {
        line_end(bytes, i + 1)
    }
}

/// The end of the line starting at `i` lies between `i` and the text's end.
pub proof fn lemma_line_end_bounds(bytes: Seq<u8>, i: int)
    requires
        0 <= i <= bytes.len(),
    ensures
        i <= line_end(bytes, i) <= bytes.len(),
    decreases bytes.len() - i,
{
    if i < bytes.len() && bytes[i] != 10 {
        lemma_line_end_bounds(bytes, i + 1);
    }
}

/// A grammar as the loader builds it: the two name tables, the rules in
/// line order, and the start rule's index.
pub struct Loaded {
    /// Nonterminal names, in allocation order.
    pub ntn: Seq<u8>,
    /// Terminal names, in allocation order.
    pub tn: Seq<u8>,
    /// One rule per nonempty line, in line order.
    pub rules: Seq<(Symbol, Seq<Symbol>)>,
    /// Index of the start rule: the first line's rule.
    pub start: int,
}

/// Reading the whole notation from position `i` on, one line at a time: a
/// line with a left-hand nonterminal adds one rule (with an empty
/// right-hand side for the empty production), a blank line adds none, and
/// the first line's rule becomes the start rule.
pub open spec fn load_from(bytes: Seq<u8>, i: int, acc: Loaded, first: bool) -> Loaded
    decreases bytes.len() - i,
    via load_from_dec
{
    if i < 0 || i >= bytes.len() {
        acc
    } else {
        let j = line_end(bytes, i);
        let sc = scan_line(
            bytes,
            i,
            j,
            LineScan { ntn: acc.ntn, tn: acc.tn, lhs: None, syms: Seq::empty() },
        );
        let acc2 = match sc.lhs {
            Some(l) => Loaded {
                ntn: sc.ntn,
                tn: sc.tn,
                rules: acc.rules.push((l, sc.syms)),
                start: if first {
                    acc.rules.len() as int
                } else {
                    acc.start
                },
            },
            None => Loaded { ntn: sc.ntn, tn: sc.tn, rules: acc.rules, start: acc.start },
        };
        let next = if j < bytes.len() {
            j + 1
        } else {
            bytes.len() as int
        };
        load_from(bytes, next, acc2, false)
    }
}

#[via_fn]
proof fn load_from_dec(bytes: Seq<u8>, i: int, acc: Loaded, first: bool) {
    if 0 <= i < bytes.len() {
        lemma_line_end_bounds(bytes, i);
    }
}

/// The grammar the textual notation denotes.
pub open spec fn load_notation(bytes: Seq<u8>) -> Loaded {
    load_from(
        bytes,
        0,
        Loaded { ntn: Seq::empty(), tn: Seq::empty(), rules: Seq::empty(), start: 0 },
        true,
    )
}

/// The nonterminal named by a byte, interning a fresh one for a byte not
/// seen before, exactly as `intern_nonterminal` says. `None` only when the
/// symbol space is exhausted, which no byte-based notation can reach.
fn lookup_or_add_nonterminal(c: &mut Cfg<Mutable>, names: &mut BNFName, ch: u8) -> (r: Option<
    Symbol,
>)
    requires
        old(c).wf(),
        names_sync(old(names), old(c)),
    ensures
        final(c).wf(),
        names_sync(final(names), final(c)),
        final(names).nonterminals@ == intern_nonterminal(old(names).nonterminals@, ch).0,
        final(names).terminals@ == old(names).terminals@,
        r == intern_nonterminal(old(names).nonterminals@, ch).1,
        final(c).nt_count() >= old(c).nt_count(),
        final(c).term_count() == old(c).term_count(),
        final(c).spec_rules() == old(c).spec_rules(),
        final(c).start_idx() == old(c).start_idx(),
        final(c).spec_extra() == old(c).spec_extra(),
        r matches Some(s) ==> s is Nonterminal && valid_symbol(
            s,
            final(c).nt_count(),
            final(c).term_count(),
        ),
{
    let ghost ntn0 = names.nonterminals@;
    let n = names.nonterminals.len();
    let mut p: usize = 0;
    while p < n
        invariant
            p <= n,
            *c == *old(c),
            *names == *old(names),
            old(c).wf(),
            names_sync(old(names), old(c)),
            ntn0 == names.nonterminals@,
            n == names.nonterminals@.len(),
            name_index_from(ntn0, ch, 0) == name_index_from(ntn0, ch, p as int),
        decreases n - p,
    {
        if names.nonterminals[p] == ch {
            assert(p < c.nt_count());
            assert(name_index_from(ntn0, ch, p as int) == p);
            return Some(Symbol::Nonterminal(p as u32));
        }
        let ghost p_prev = p as int;
        p = p + 1;
        proof {
            assert(name_index_from(ntn0, ch, p as int) == name_index_from(ntn0, ch, p_prev + 1));
        }
    }
    assert(name_index_from(ntn0, ch, 0) == ntn0.len());
    if c.num_nonterminals() < NONTERMINAL_BIT {
        let s = c.add_nonterminal();
        names.nonterminals.push(ch);
        Some(s)
    } else {
        None
    }
}

/// The terminal named by a byte, interning a fresh one for a byte not seen
/// before, exactly as `intern_terminal` says; the two sentinel slots are
/// never handed out.
fn lookup_or_add_terminal(c: &mut Cfg<Mutable>, names: &mut BNFName, ch: u8) -> (r: Option<Symbol>)
    requires
        old(c).wf(),
        names_sync(old(names), old(c)),
    ensures
        final(c).wf(),
        names_sync(final(names), final(c)),
        final(names).terminals@ == intern_terminal(old(names).terminals@, ch).0,
        final(names).nonterminals@ == old(names).nonterminals@,
        r == intern_terminal(old(names).terminals@, ch).1,
        final(c).nt_count() == old(c).nt_count(),
        final(c).term_count() >= old(c).term_count(),
        final(c).spec_rules() == old(c).spec_rules(),
        final(c).start_idx() == old(c).start_idx(),
        final(c).spec_extra() == old(c).spec_extra(),
        r matches Some(s) ==> s is Terminal && valid_symbol(
            s,
            final(c).nt_count(),
            final(c).term_count(),
        ),
{
    let ghost tn0 = names.terminals@;
    let n = names.terminals.len();
    assert(n + 2 == c.term_count() && c.term_count() <= NONTERMINAL_BIT);
    let mut p: usize = 0;
    while p < n
        invariant
            p <= n,
            *c == *old(c),
            *names == *old(names),
            old(c).wf(),
            names_sync(old(names), old(c)),
            tn0 == names.terminals@,
            n == names.terminals@.len(),
            n + 2 == c.term_count(),
            c.term_count() <= NONTERMINAL_BIT,
            name_index_from(tn0, ch, 0) == name_index_from(tn0, ch, p as int),
        decreases n - p,
    {
        if names.terminals[p] == ch {
            assert(name_index_from(tn0, ch, p as int) == p);
            return Some(Symbol::Terminal(p as u32 + 2));
        }
        let ghost p_prev = p as int;
        p = p + 1;
        proof {
            assert(name_index_from(tn0, ch, p as int) == name_index_from(tn0, ch, p_prev + 1));
        }
    }
    assert(name_index_from(tn0, ch, 0) == tn0.len());
    if c.num_terminals() < NONTERMINAL_BIT {
        let s = c.add_terminal();
        names.terminals.push(ch);
        Some(s)
    } else {
        None
    }
}

/// Whether a byte is blank space the notation ignores.
fn is_blank(b: u8) -> (r: bool)
    ensures
        r == spec_blank(b),
{
    b == 32 || b == 9 || b == 13
}

/// Read a grammar from its textual notation: exactly the grammar
/// `load_notation` denotes on the text's bytes. Each line adds one rule:
/// the first non-blank character is the left-hand nonterminal, every
/// further non-blank character a right-hand-side symbol (uppercase ASCII
/// letters name nonterminals, other bytes terminals), and a line with a
/// left-hand character only adds the empty production. The first line's
/// rule becomes the start rule, and the byte-to-symbol name table is
/// attached to the grammar.
pub fn from_str(bnf: &str) -> (r: Cfg<Mutable>)
    ensures
        r.wf(),
        r.spec_extra().names matches Some(nm) && names_sync(&nm, &r),
        ({
            let loaded = load_notation(bnf.spec_bytes());
            &&& r.spec_rules() == loaded.rules
            &&& r.start_idx() == loaded.start
            &&& r.nt_count() == loaded.ntn.len()
            &&& r.term_count() == loaded.tn.len() + 2
            &&& r.spec_extra().names matches Some(nm) && nm.nonterminals@ == loaded.ntn
                && nm.terminals@ == loaded.tn
        }),
{
    let bytes = bnf.as_bytes();
    let ghost bs = bytes@;
    let n = bytes.len();
    let mut c = Cfg::new();
    let mut names = BNFName { nonterminals: Vec::new(), terminals: Vec::new() };
    let mut first_line = true;
    let mut i: usize = 0;
    proof {
        assert(names.nonterminals@ =~= Seq::<u8>::empty());
        assert(names.terminals@ =~= Seq::<u8>::empty());
        assert(c.spec_rules() =~= Seq::<(Symbol, Seq<Symbol>)>::empty());
        assert(Loaded {
            ntn: names.nonterminals@,
            tn: names.terminals@,
            rules: c.spec_rules(),
            start: c.start_idx(),
        } == Loaded {
            ntn: Seq::<u8>::empty(),
            tn: Seq::<u8>::empty(),
            rules: Seq::<(Symbol, Seq<Symbol>)>::empty(),
            start: 0,
        });
    }
    while i < n
        invariant
            i <= n,
            n == bs.len(),
            bs == bytes@,
            c.wf(),
            names_sync(&names, &c),
            load_from(
                bs,
                i as int,
                Loaded {
                    ntn: names.nonterminals@,
                    tn: names.terminals@,
                    rules: c.spec_rules(),
                    start: c.start_idx(),
                },
                first_line,
            ) == load_notation(bs),
        decreases n - i,
    {
        let ghost acc = Loaded {
            ntn: names.nonterminals@,
            tn: names.terminals@,
            rules: c.spec_rules(),
            start: c.start_idx(),
        };
        // The current line is bytes[i..j].
        let mut j = i;
        while j < n && bytes[j] != 10
            invariant
                i <= j <= n,
                n == bs.len(),
                bs == bytes@,
                line_end(bs, i as int) == line_end(bs, j as int),
            decreases n - j,
        {
            let ghost j_prev = j as int;
            j = j + 1;
            proof {
                assert(line_end(bs, j as int) == line_end(bs, j_prev + 1));
            }
        }
        assert(j as int == line_end(bs, i as int));
        let mut lhs: Option<Symbol> = None;
        let mut syms: Vec<Symbol> = Vec::new();
        let ghost st0 = LineScan {
            ntn: names.nonterminals@,
            tn: names.terminals@,
            lhs: None,
            syms: Seq::empty(),
        };
        let mut k = i;
        proof {
            assert(syms@ =~= Seq::<Symbol>::empty());
        }
        while k < j
            invariant
                i <= k <= j <= n,
                n == bs.len(),
                bs == bytes@,
                c.wf(),
                names_sync(&names, &c),
                c.spec_rules() == acc.rules,
                c.start_idx() == acc.start,
                lhs matches Some(l) ==> l is Nonterminal && valid_symbol(
                    l,
                    c.nt_count(),
                    c.term_count(),
                ),
                forall|q: int|
                    0 <= q < syms@.len() ==> valid_symbol(
                        #[trigger] syms@[q],
                        c.nt_count(),
                        c.term_count(),
                    ),
                scan_line(
                    bs,
                    k as int,
                    j as int,
                    LineScan {
                        ntn: names.nonterminals@,
                        tn: names.terminals@,
                        lhs: lhs,
                        syms: syms@,
                    },
                ) == scan_line(bs, i as int, j as int, st0),
            decreases j - k,
        {
            let b = bytes[k];
            let ghost cur = LineScan {
                ntn: names.nonterminals@,
                tn: names.terminals@,
                lhs: lhs,
                syms: syms@,
            };
            if !is_blank(b) {
                let ghost nt0 = c.nt_count();
                let ghost tc0 = c.term_count();
                match lhs {
                    None => {
                        lhs = lookup_or_add_nonterminal(&mut c, &mut names, b);
                    },
                    Some(_) => {
                        let s = if 65 <= b && b <= 90 {
                            lookup_or_add_nonterminal(&mut c, &mut names, b)
                        } else {
                            lookup_or_add_terminal(&mut c, &mut names, b)
                        };
                        match s {
                            Some(sym) => {
                                syms.push(sym);
                            },
                            None => {},
                        }
                    },
                }
                assert(c.nt_count() >= nt0 && c.term_count() >= tc0);
            }
            proof {
                assert(scan_line(bs, k as int, j as int, cur) == scan_line(
                    bs,
                    k as int + 1,
                    j as int,
                    LineScan {
                        ntn: names.nonterminals@,
                        tn: names.terminals@,
                        lhs: lhs,
                        syms: syms@,
                    },
                ));
            }
            let ghost k_prev = k as int;
            k = k + 1;
            proof {
                assert(scan_line(
                    bs,
                    k as int,
                    j as int,
                    LineScan {
                        ntn: names.nonterminals@,
                        tn: names.terminals@,
                        lhs: lhs,
                        syms: syms@,
                    },
                ) == scan_line(
                    bs,
                    k_prev + 1,
                    j as int,
                    LineScan {
                        ntn: names.nonterminals@,
                        tn: names.terminals@,
                        lhs: lhs,
                        syms: syms@,
                    },
                ));
            }
        }
        let ghost sc = scan_line(bs, i as int, j as int, st0);
        proof {
            assert(sc == LineScan {
                ntn: names.nonterminals@,
                tn: names.terminals@,
                lhs: lhs,
                syms: syms@,
            });
        }
        match lhs {
            Some(l) => {
                // A line with no further characters leaves `syms` empty: an
                // empty right-hand side denotes the empty production.
                let res = c.add_rule(l, syms.as_slice());
                match res {
                    Ok(rl) => {
                        if first_line {
                            c.set_start(rl);
                        }
                    },
                    Err(_) => {
                        proof {
                            assert(false);
                        }
                    },
                }
            },
            None => {},
        }
        proof {
            assert(st0 == LineScan { ntn: acc.ntn, tn: acc.tn, lhs: None, syms: Seq::empty() });
            let acc2 = match sc.lhs {
                Some(l) => Loaded {
                    ntn: sc.ntn,
                    tn: sc.tn,
                    rules: acc.rules.push((l, sc.syms)),
                    start: if first_line {
                        acc.rules.len() as int
                    } else {
                        acc.start
                    },
                },
                None => Loaded { ntn: sc.ntn, tn: sc.tn, rules: acc.rules, start: acc.start },
            };
            assert(acc2 == Loaded {
                ntn: names.nonterminals@,
                tn: names.terminals@,
                rules: c.spec_rules(),
                start: c.start_idx(),
            });
            assert(load_from(bs, i as int, acc, first_line) == load_from(
                bs,
                if j < n {
                    j as int + 1
                } else {
                    n as int
                },
                acc2,
                false,
            ));
            assert(load_from(bs, i as int, acc, first_line) == load_from(
                bs,
                if j < n {
                    j as int + 1
                } else {
                    n as int
                },
                Loaded {
                    ntn: names.nonterminals@,
                    tn: names.terminals@,
                    rules: c.spec_rules(),
                    start: c.start_idx(),
                },
                false,
            ));
        }
        first_line = false;
        let ghost next_i = if j < n {
            j as int + 1
        } else {
            n as int
        };
        i = if j < n {
            j + 1
        } else {
            n
        };
        proof {
            assert(i as int == next_i);
        }
    }
    proof {
        assert(load_from(bs, i as int, Loaded {
            ntn: names.nonterminals@,
            tn: names.terminals@,
            rules: c.spec_rules(),
            start: c.start_idx(),
        }, first_line) == Loaded {
            ntn: names.nonterminals@,
            tn: names.terminals@,
            rules: c.spec_rules(),
            start: c.start_idx(),
        });
    }
    let e = c.mut_extra();
    e.names = Some(names);
    c
}

/// The bytes rendering one right-hand-side symbol: its display name, or
/// the two-byte epsilon mark for a sentinel, which has no name of its own.
pub open spec fn symbol_bytes(sym: Symbol, ntn: Seq<u8>, tn: Seq<u8>) -> Seq<u8> {
    match sym {
        Symbol::Nonterminal(a) => seq![ntn[a as int]],
        Symbol::Terminal(t) => if t >= 2 {
            seq![tn[t as int - 2]]
        } else {
            seq![0xCEu8, 0xB5u8]
        },
    }
}

/// The bytes rendering the right-hand-side part `rhs[w..]`.
pub open spec fn rhs_bytes(rhs: Seq<Symbol>, ntn: Seq<u8>, tn: Seq<u8>, w: int) -> Seq<u8>
    decreases rhs.len() - w,
{
    if w < 0 || w >= rhs.len() {
        Seq::empty()
    } else {
        symbol_bytes(rhs[w], ntn, tn) + rhs_bytes(rhs, ntn, tn, w + 1)
    }
}

/// The bytes rendering one rule as a notation line: the left-hand name, an
/// arrow, and the right-hand side — the epsilon mark when it is empty.
pub open spec fn line_bytes(rule: (Symbol, Seq<Symbol>), ntn: Seq<u8>, tn: Seq<u8>) -> Seq<u8> {
    seq![ntn[rule.0.idx() as int], 32u8, 45u8, 62u8, 32u8] + (if rule.1.len() == 0 {
        seq![0xCEu8, 0xB5u8]
    } else {
        rhs_bytes(rule.1, ntn, tn, 0)
    })
}

/// The bytes rendering the rules from `i` on, one line each, separated by
/// newlines.
pub open spec fn notation_bytes(
    rules: Seq<(Symbol, Seq<Symbol>)>,
    ntn: Seq<u8>,
    tn: Seq<u8>,
    i: int,
) -> Seq<u8>
    decreases rules.len() - i,
{
    if i < 0 || i >= rules.len() {
        Seq::empty()
    } else {
        line_bytes(rules[i], ntn, tn) + (if i + 1 < rules.len() {
            seq![10u8]
        } else {
            Seq::empty()
        }) + notation_bytes(rules, ntn, tn, i + 1)
    }
}

/// The characters String::from_utf8_lossy decodes a byte sequence to: a
/// function of the bytes alone.
pub uninterp spec fn lossy_utf8(bytes: Seq<u8>) -> Seq<char>;

/// Relies on String::from_utf8_lossy of std: the result depends on the
/// bytes alone, and bytes that are valid UTF-8, in particular plain ASCII,
/// decode to the characters they spell.
#[verifier::external_body]
fn bytes_to_string(v: &Vec<u8>) -> (r: String)
    ensures
        r@ == lossy_utf8(v@),
        (forall|q: int| 0 <= q < v@.len() ==> v@[q] < 128) ==> r@ == v@.map_values(
            |b: u8| b as char,
        ),
{
    String::from_utf8_lossy(v.as_slice()).into_owned()
}

/// Render a grammar back to its textual notation, one rule per line as
/// `S -> ABC`, with the epsilon mark for an empty right-hand side and for
/// a sentinel placeholder. The result is the lossy UTF-8 decoding of
/// exactly the rendered notation bytes of the grammar's rules and name
/// table. Requires the name table the loader attached.
pub fn to_string<T>(c: &Cfg<T>) -> (r: String)
    requires
        c.wf(),
        c.spec_extra().names matches Some(nm) && names_sync(&nm, c),
    ensures
        ({
            let nm = c.spec_extra().names->Some_0;
            r@ == lossy_utf8(
                notation_bytes(c.spec_rules(), nm.nonterminals@, nm.terminals@, 0),
            )
        }),
{
    let mut out: Vec<u8> = Vec::new();
    let names = match &c.extra().names {
        Some(nm) => nm,
        None => {
            proof {
                assert(false);
            }
            return bytes_to_string(&out);
        },
    };
    let ghost ntn = names.nonterminals@;
    let ghost tn = names.terminals@;
    let rs = c.rules();
    let rr = rs.len();
    let ghost rules = c.spec_rules();
    assert(forall|x: int|
        0 <= x < rr ==> rules[x] == ((#[trigger] rs@[x]).0.unpacked(), crate::unpack_syms(
            rs@[x].1@,
        )));
    let mut i: usize = 0;
    assert(out@ + notation_bytes(rules, ntn, tn, 0) =~= notation_bytes(rules, ntn, tn, 0));
    while i < rr
        invariant
            i <= rr,
            c.wf(),
            rules == c.spec_rules(),
            rr == rules.len(),
            rs@.len() == rr,
            crate::unpack_rules(rs@) == rules,
            c.spec_extra().names matches Some(nm) && names_sync(&nm, c),
            names == &c.spec_extra().names->Some_0,
            ntn == names.nonterminals@,
            tn == names.terminals@,
            out@ + notation_bytes(rules, ntn, tn, i as int) == notation_bytes(rules, ntn, tn, 0),
        decreases rr - i,
    {
        assert(rules[i as int] == (rs@[i as int].0.unpacked(), crate::unpack_syms(rs@[i as int].1@)));
        assert(rules[i as int].0 is Nonterminal && rules[i as int].0.idx() < c.nt_count());
        let ghost out_head = out@;
        let a = rs[i].0.to_index();
        out.push(names.nonterminals[a as usize]);
        out.push(32);
        out.push(45);
        out.push(62);
        out.push(32);
        assert(out@ =~= out_head + seq![ntn[rules[i as int].0.idx() as int], 32u8, 45u8, 62u8, 32u8]);
        let ghost mid = out@;
        let rhs = &rs[i].1;
        let ghost grhs = rules[i as int].1;
        let ln = rhs.len();
        if ln == 0 {
            out.push(0xCE);
            out.push(0xB5);
            assert(out@ =~= mid + seq![0xCEu8, 0xB5u8]);
        } else {
            let mut w: usize = 0;
            assert(out@ + rhs_bytes(grhs, ntn, tn, 0) =~= mid + rhs_bytes(grhs, ntn, tn, 0));
            while w < ln
                invariant
                    w <= ln,
                    c.wf(),
                    rules == c.spec_rules(),
                    i < rr,
                    rr == rules.len(),
                    rs@.len() == rr,
                    crate::unpack_rules(rs@) == rules,
                    grhs == rules[i as int].1,
                    grhs == crate::unpack_syms(rhs@),
                    ln == rhs@.len(),
                    c.spec_extra().names matches Some(nm) && names_sync(&nm, c),
                    names == &c.spec_extra().names->Some_0,
                    ntn == names.nonterminals@,
                    tn == names.terminals@,
                    out@ + rhs_bytes(grhs, ntn, tn, w as int) == mid + rhs_bytes(grhs, ntn, tn, 0),
                decreases ln - w,
            {
                assert(crate::unpack_syms(rhs@)[w as int] == rhs@[w as int].unpacked());
                assert(valid_symbol(rules[i as int].1[w as int], c.nt_count(), c.term_count())) by {
                    assert(forall|q: int|
                        0 <= q < rules[i as int].1.len() ==> valid_symbol(
                            #[trigger] rules[i as int].1[q],
                            c.nt_count(),
                            c.term_count(),
                        ));
                }
                let ghost prev = out@;
                let ps = rhs[w];
                if ps.is_nonterminal() {
                    out.push(names.nonterminals[ps.to_index() as usize]);
                } else {
                    let t = ps.to_index();
                    if t >= 2 {
                        assert(t - 2 < names.terminals@.len());
                        out.push(names.terminals[(t - 2) as usize]);
                    } else {
                        // A sentinel has no name of its own: render the
                        // epsilon mark.
                        out.push(0xCE);
                        out.push(0xB5);
                    }
                }
                proof {
                    assert(out@ =~= prev + symbol_bytes(grhs[w as int], ntn, tn));
                    assert(rhs_bytes(grhs, ntn, tn, w as int) == symbol_bytes(
                        grhs[w as int],
                        ntn,
                        tn,
                    ) + rhs_bytes(grhs, ntn, tn, w as int + 1));
                }
                let ghost w_prev = w as int;
                w = w + 1;
                proof {
                    assert(rhs_bytes(grhs, ntn, tn, w as int) == rhs_bytes(
                        grhs,
                        ntn,
                        tn,
                        w_prev + 1,
                    ));
                    assert(out@ + rhs_bytes(grhs, ntn, tn, w as int) =~= mid + rhs_bytes(
                        grhs,
                        ntn,
                        tn,
                        0,
                    ));
                }
            }
            proof {
                assert(rhs_bytes(grhs, ntn, tn, ln as int) =~= Seq::<u8>::empty());
                assert(out@ =~= mid + rhs_bytes(grhs, ntn, tn, 0));
            }
        }
        proof {
            assert(out@ =~= out_head + line_bytes(rules[i as int], ntn, tn));
        }
        if i + 1 < rr {
            out.push(10);
        }
        proof {
            assert(notation_bytes(rules, ntn, tn, i as int) == line_bytes(rules[i as int], ntn, tn)
                + (if i as int + 1 < rules.len() {
                seq![10u8]
            } else {
                Seq::<u8>::empty()
            }) + notation_bytes(rules, ntn, tn, i as int + 1));
            assert(out@ + notation_bytes(rules, ntn, tn, i as int + 1) =~= out_head
                + notation_bytes(rules, ntn, tn, i as int));
        }
        let ghost i_prev = i as int;
        i = i + 1;
        proof {
            assert(notation_bytes(rules, ntn, tn, i as int) == notation_bytes(
                rules,
                ntn,
                tn,
                i_prev + 1,
            ));
        }
    }
    proof {
        assert(notation_bytes(rules, ntn, tn, rr as int) =~= Seq::<u8>::empty());
        assert(out@ =~= notation_bytes(rules, ntn, tn, 0));
    }
    bytes_to_string(&out)
}

} // verus!
