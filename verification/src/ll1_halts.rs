//! The predictive parser stops on every input when the parse table has no
//! conflict: while the lookahead stays the same, each step makes a weight
//! of the stack top smaller, a weight built from the round of the FIRST
//! computation in which the lookahead (or ε) reaches each symbol.
use vstd::prelude::*;
use crate::first_follow::{
    all_cands, below, cands, covers, fill, first_closed, follow_closed, lemma_all_cands_prefix,
    lemma_seq_first_mono, occurrence_ok, prod_cands, seq_first,
};
use crate::first_follow::{least_first, least_follow};
use crate::grammar::{GrammarView, ProductionView, least_nullable, lhs_set, well_formed};
use crate::lexer::TokenView;
use crate::parser::{Config, Move, pushed, run, start_config, step, stops, table_of};
use crate::symbol::{NonTerminal, Symbol, Terminal, all_terminals, lemma_terminal_index, terminal_index};

verus! {

/// Every nonterminal of `rhs` has a production in `g`.
pub open spec fn rhs_in(g: GrammarView, rhs: Seq<Symbol>) -> bool {
    forall|j: int| 0 <= j < rhs.len() ==> (#[trigger] rhs[j] matches Symbol::NonTerminal(m) ==> lhs_set(g).contains(m))
}

/// One round of the FIRST constraints: each nonterminal with a production
/// gets FIRST of its right-hand sides, computed from `prev`.
pub open spec fn first_step(g: GrammarView, prev: Map<NonTerminal, Set<Symbol>>) -> Map<
    NonTerminal,
    Set<Symbol>,
> {
    Map::new(
        |n: NonTerminal| lhs_set(g).contains(n),
        |n: NonTerminal|
            Set::new(
                |x: Symbol|
                    exists|q: int|
                        0 <= q < g.productions.len() && g.productions[q].lhs == n
                            && #[trigger] seq_first(prev, g.productions[q].rhs).contains(x),
            ),
    )
}

/// The FIRST sets after `k` rounds, starting from empty sets.
pub open spec fn first_round(g: GrammarView, k: nat) -> Map<NonTerminal, Set<Symbol>>
    decreases k,
{
    if k == 0 {
        Map::new(|n: NonTerminal| lhs_set(g).contains(n), |n: NonTerminal| Set::<Symbol>::empty())
    } else {
        first_step(g, first_round(g, (k - 1) as nat))
    }
}

/// `x` is in the FIRST set of `n` after `k` rounds.
pub open spec fn in_round(g: GrammarView, n: NonTerminal, x: Symbol, k: nat) -> bool {
    first_round(g, k)[n].contains(x)
}

/// The first round in which `x` reaches the FIRST set of `n`.
pub open spec fn rank(g: GrammarView, n: NonTerminal, x: Symbol) -> nat {
    choose|k: nat| in_round(g, n, x, k) && forall|j: nat| j < k ==> !#[trigger] in_round(g, n, x, j)
}

proof fn lemma_covers_rounds(g: GrammarView, k: nat, rhs: Seq<Symbol>)
    requires
        rhs_in(g, rhs),
    ensures
        crate::first_follow::covers(first_round(g, k), rhs),
{
    assert forall|i: int| 0 <= i < rhs.len() implies (#[trigger] rhs[i] matches Symbol::NonTerminal(m) ==> first_round(g, k).dom().contains(m)) by {
        if k > 0 {
            if let Symbol::NonTerminal(m) = rhs[i] {
                assert(first_step(g, first_round(g, (k - 1) as nat)).dom().contains(m));
            }
        }
    }
}

/// Each round only adds to the previous one.
proof fn lemma_round_grows(g: GrammarView, k: nat)
    requires
        crate::grammar::well_formed(g),
    ensures
        below(first_round(g, k), first_round(g, k + 1)),
    decreases k,
{
    let a = first_round(g, k);
    let b = first_round(g, k + 1);
    if k > 0 {
        lemma_round_grows(g, (k - 1) as nat);
        let pa = first_round(g, (k - 1) as nat);
        assert forall|n: NonTerminal| #[trigger] a.dom().contains(n) implies b.dom().contains(n) && a[n].subset_of(b[n]) by {
            assert forall|x: Symbol| a[n].contains(x) implies b[n].contains(x) by {
                let q = choose|q: int|
                    0 <= q < g.productions.len() && g.productions[q].lhs == n
                        && #[trigger] seq_first(pa, g.productions[q].rhs).contains(x);
                assert(rhs_in(g, g.productions[q].rhs)) by {
                    assert forall|j: int| 0 <= j < g.productions[q].rhs.len() implies (#[trigger] g.productions[q].rhs[j] matches Symbol::NonTerminal(m) ==> lhs_set(g).contains(m)) by {
                        assert(crate::grammar::rhs_symbol_ok(g, g.productions[q].rhs[j]));
                    }
                }
                lemma_covers_rounds(g, (k - 1) as nat, g.productions[q].rhs);
                lemma_seq_first_mono(pa, a, g.productions[q].rhs);
                assert(seq_first(a, g.productions[q].rhs).contains(x));
            }
        }
    } else {
        assert forall|n: NonTerminal| #[trigger] a.dom().contains(n) implies b.dom().contains(n) && a[n].subset_of(b[n]) by {
            assert(a[n] =~= Set::<Symbol>::empty());
        }
    }
}

/// Later rounds hold everything earlier ones do.
proof fn lemma_round_mono(g: GrammarView, j: nat, k: nat)
    requires
        crate::grammar::well_formed(g),
        j <= k,
    ensures
        below(first_round(g, j), first_round(g, k)),
    decreases k - j,
{
    if j < k {
        lemma_round_mono(g, j, (k - 1) as nat);
        lemma_round_grows(g, (k - 1) as nat);
        let a = first_round(g, j);
        let b = first_round(g, (k - 1) as nat);
        let c = first_round(g, k);
        assert forall|n: NonTerminal| #[trigger] a.dom().contains(n) implies c.dom().contains(n) && a[n].subset_of(c[n]) by {
            assert(b.dom().contains(n));
        }
    } else {
        let a = first_round(g, j);
        assert forall|n: NonTerminal| #[trigger] a.dom().contains(n) implies a.dom().contains(n) && a[n].subset_of(a[n]) by {}
    }
}

/// Every round stays inside any FIRST sets that meet the constraints.
pub proof fn lemma_round_below(g: GrammarView, f: Map<NonTerminal, Set<Symbol>>, k: nat)
    requires
        crate::grammar::well_formed(g),
        first_closed(g, f),
    ensures
        below(first_round(g, k), f),
    decreases k,
{
    let a = first_round(g, k);
    if k > 0 {
        lemma_round_below(g, f, (k - 1) as nat);
        let pa = first_round(g, (k - 1) as nat);
        assert forall|n: NonTerminal| #[trigger] a.dom().contains(n) implies f.dom().contains(n) && a[n].subset_of(f[n]) by {
            let q0 = choose|q: int| 0 <= q < g.productions.len() && #[trigger] g.productions[q].lhs == n;
            assert(f.dom().contains(g.productions[q0].lhs));
            assert forall|x: Symbol| a[n].contains(x) implies f[n].contains(x) by {
                let q = choose|q: int|
                    0 <= q < g.productions.len() && g.productions[q].lhs == n
                        && #[trigger] seq_first(pa, g.productions[q].rhs).contains(x);
                assert(rhs_in(g, g.productions[q].rhs)) by {
                    assert forall|j: int| 0 <= j < g.productions[q].rhs.len() implies (#[trigger] g.productions[q].rhs[j] matches Symbol::NonTerminal(m) ==> lhs_set(g).contains(m)) by {
                        assert(crate::grammar::rhs_symbol_ok(g, g.productions[q].rhs[j]));
                    }
                }
                lemma_covers_rounds(g, (k - 1) as nat, g.productions[q].rhs);
                lemma_seq_first_mono(pa, f, g.productions[q].rhs);
                assert(f.dom().contains(g.productions[q].lhs));
            }
        }
    } else {
        assert forall|n: NonTerminal| #[trigger] a.dom().contains(n) implies f.dom().contains(n) && a[n].subset_of(f[n]) by {
            let q0 = choose|q: int| 0 <= q < g.productions.len() && #[trigger] g.productions[q].lhs == n;
            assert(f.dom().contains(g.productions[q0].lhs));
        }
    }
}

/// The FIRST sets reached by some round.
pub open spec fn all_rounds(g: GrammarView) -> Map<NonTerminal, Set<Symbol>> {
    Map::new(
        |n: NonTerminal| lhs_set(g).contains(n),
        |n: NonTerminal| Set::new(|x: Symbol| exists|k: nat| #[trigger] in_round(g, n, x, k)),
    )
}

/// Whatever FIRST of a string holds with the sets of all rounds, it holds
/// with the sets of one round.
proof fn lemma_seq_first_rounds(g: GrammarView, rhs: Seq<Symbol>, x: Symbol)
    requires
        crate::grammar::well_formed(g),
        rhs_in(g, rhs),
        seq_first(all_rounds(g), rhs).contains(x),
    ensures
        exists|k: nat| #[trigger] seq_first(first_round(g, k), rhs).contains(x),
    decreases rhs.len(),
{
    if rhs.len() == 0 {
        assert(seq_first(first_round(g, 0), rhs).contains(x));
    } else {
        let u = all_rounds(g);
        let rest = rhs.skip(1);
        assert(rhs_in(g, rest)) by {
            assert forall|j: int| 0 <= j < rest.len() implies (#[trigger] rest[j] matches Symbol::NonTerminal(m) ==> lhs_set(g).contains(m)) by {
                assert(rest[j] == rhs[j + 1]);
            }
        }
        match rhs[0] {
            Symbol::NonTerminal(n) => {
                assert(lhs_set(g).contains(n));
                if u[n].remove(Symbol::Epsilon).contains(x) {
                    let k = choose|k: nat| #[trigger] in_round(g, n, x, k);
                    assert(first_round(g, k).dom().contains(n)) by {
                        if k > 0 {
                            assert(first_step(g, first_round(g, (k - 1) as nat)).dom().contains(n));
                        }
                    }
                    assert(seq_first(first_round(g, k), rhs).contains(x));
                } else {
                    assert(u[n].contains(Symbol::Epsilon));
                    assert(seq_first(u, rest).contains(x));
                    let k1 = choose|k: nat| #[trigger] in_round(g, n, Symbol::Epsilon, k);
                    lemma_seq_first_rounds(g, rest, x);
                    let k2 = choose|k: nat| #[trigger] seq_first(first_round(g, k), rest).contains(x);
                    let k = if k1 <= k2 {
                        k2
                    } else {
                        k1
                    };
                    lemma_round_mono(g, k1, k);
                    lemma_round_mono(g, k2, k);
                    lemma_covers_rounds(g, k2, rest);
                    lemma_seq_first_mono(first_round(g, k2), first_round(g, k), rest);
                    assert(first_round(g, k1).dom().contains(n)) by {
                        if k1 > 0 {
                            assert(first_step(g, first_round(g, (k1 - 1) as nat)).dom().contains(n));
                        }
                    }
                    assert(first_round(g, k)[n].contains(Symbol::Epsilon));
                    assert(seq_first(first_round(g, k), rhs).contains(x));
                }
            },
            _ => {
                assert(seq_first(first_round(g, 0), rhs).contains(x));
            },
        }
    }
}

/// The sets of all rounds meet the FIRST constraints.
proof fn lemma_all_rounds_closed(g: GrammarView)
    requires
        crate::grammar::well_formed(g),
    ensures
        first_closed(g, all_rounds(g)),
{
    let u = all_rounds(g);
    assert forall|q: int| 0 <= q < g.productions.len() implies {
        &&& u.dom().contains(#[trigger] g.productions[q].lhs)
        &&& seq_first(u, g.productions[q].rhs).subset_of(u[g.productions[q].lhs])
    } by {
        let n = g.productions[q].lhs;
        assert(lhs_set(g).contains(n));
        assert forall|x: Symbol| seq_first(u, g.productions[q].rhs).contains(x) implies u[n].contains(x) by {
            assert(rhs_in(g, g.productions[q].rhs)) by {
                assert forall|j: int| 0 <= j < g.productions[q].rhs.len() implies (#[trigger] g.productions[q].rhs[j] matches Symbol::NonTerminal(m) ==> lhs_set(g).contains(m)) by {
                    assert(crate::grammar::rhs_symbol_ok(g, g.productions[q].rhs[j]));
                }
            }
            lemma_seq_first_rounds(g, g.productions[q].rhs, x);
            let k = choose|k: nat| #[trigger] seq_first(first_round(g, k), g.productions[q].rhs).contains(x);
            assert(first_round(g, k + 1) == first_step(g, first_round(g, k)));
            assert(in_round(g, n, x, k + 1));
        }
    }
}

/// Every member of the least FIRST sets is reached by some round, and every
/// round stays inside them.
pub proof fn lemma_least_first_rounds(g: GrammarView, f: Map<NonTerminal, Set<Symbol>>)
    requires
        crate::grammar::well_formed(g),
        first_closed(g, f),
        forall|h: Map<NonTerminal, Set<Symbol>>| #[trigger] first_closed(g, h) ==> below(f, h),
    ensures
        forall|n: NonTerminal, x: Symbol|
            f.dom().contains(n) && #[trigger] f[n].contains(x) ==> exists|k: nat| #[trigger] in_round(g, n, x, k),
        forall|n: NonTerminal, x: Symbol, k: nat|
            lhs_set(g).contains(n) && #[trigger] in_round(g, n, x, k) ==> f[n].contains(x),
{
    lemma_all_rounds_closed(g);
    assert(below(f, all_rounds(g)));
    assert forall|n: NonTerminal, x: Symbol, k: nat| lhs_set(g).contains(n) && #[trigger] in_round(g, n, x, k) implies f[n].contains(x) by {
        lemma_round_below(g, f, k);
        assert(first_round(g, k).dom().contains(n)) by {
            if k > 0 {
                assert(first_step(g, first_round(g, (k - 1) as nat)).dom().contains(n));
            }
        }
    }
}

/// There is a first round in which `x` reaches `n`.
proof fn lemma_min_round(g: GrammarView, n: NonTerminal, x: Symbol, k: nat)
    requires
        in_round(g, n, x, k),
    ensures
        exists|m: nat| in_round(g, n, x, m) && forall|j: nat| j < m ==> !#[trigger] in_round(g, n, x, j),
    decreases k,
{
    if exists|j: nat| j < k && #[trigger] in_round(g, n, x, j) {
        let j = choose|j: nat| j < k && #[trigger] in_round(g, n, x, j);
        lemma_min_round(g, n, x, j);
    } else {
        assert(in_round(g, n, x, k) && forall|j: nat| j < k ==> !#[trigger] in_round(g, n, x, j));
    }
}

/// The rank is a round that holds `x`, no later than any other.
pub proof fn lemma_rank(g: GrammarView, n: NonTerminal, x: Symbol, k: nat)
    requires
        lhs_set(g).contains(n),
        in_round(g, n, x, k),
    ensures
        in_round(g, n, x, rank(g, n, x)),
        rank(g, n, x) <= k,
        rank(g, n, x) > 0,
{
    lemma_min_round(g, n, x, k);
    let r = rank(g, n, x);
    assert(in_round(g, n, x, r) && forall|j: nat| j < r ==> !#[trigger] in_round(g, n, x, j));
    if r > k {
        assert(!in_round(g, n, x, k));
    }
    if r == 0 {
        assert(first_round(g, 0)[n] =~= Set::<Symbol>::empty());
    }
}

/// When filling succeeds, every entry asked for is asked for once, the
/// filled table records the production that asked, and every recorded
/// entry was asked for.
proof fn lemma_fill_ok(cs: Seq<(NonTerminal, Terminal, int)>)
    requires
        fill(cs) is Ok,
    ensures
        forall|i: int|
            0 <= i < cs.len() ==> fill(cs)->Ok_0.dom().contains((#[trigger] cs[i].0, cs[i].1))
                && fill(cs)->Ok_0[(cs[i].0, cs[i].1)] == cs[i].2,
        forall|i: int, j: int|
            0 <= i < j < cs.len() ==> (#[trigger] cs[i].0, cs[i].1) != (#[trigger] cs[j].0, cs[j].1),
        forall|key: (NonTerminal, Terminal)|
            #[trigger] fill(cs)->Ok_0.dom().contains(key) ==> exists|i: int|
                0 <= i < cs.len() && #[trigger] cs[i] == (key.0, key.1, fill(cs)->Ok_0[key]),
    decreases cs.len(),
{
    if cs.len() > 0 {
        let init = cs.drop_last();
        let (a, t, k) = cs.last();
        lemma_fill_ok(init);
        let m0 = fill(init)->Ok_0;
        let m = fill(cs)->Ok_0;
        assert(!m0.dom().contains((a, t)));
        assert(m == m0.insert((a, t), k));
        assert(cs[cs.len() - 1] == cs.last());
        assert forall|i: int| 0 <= i < cs.len() implies m.dom().contains((#[trigger] cs[i].0, cs[i].1))
            && m[(cs[i].0, cs[i].1)] == cs[i].2 by {
            if i < cs.len() - 1 {
                assert(cs[i] == init[i]);
            }
        }
        assert forall|i: int, j: int| 0 <= i < j < cs.len() implies (#[trigger] cs[i].0, cs[i].1) != (
        #[trigger] cs[j].0, cs[j].1) by {
            assert(cs[i] == init[i]);
            if j < cs.len() - 1 {
                assert(cs[j] == init[j]);
            } else {
                assert(m0.dom().contains((init[i].0, init[i].1)));
            }
        }
        assert forall|key: (NonTerminal, Terminal)| #[trigger] m.dom().contains(key) implies exists|i: int|
            0 <= i < cs.len() && #[trigger] cs[i] == (key.0, key.1, m[key]) by {
            if key == (a, t) {
                assert(cs[cs.len() - 1] == (key.0, key.1, m[key]));
            } else {
                assert(m0.dom().contains(key));
                let i = choose|i: int| 0 <= i < init.len() && #[trigger] init[i] == (key.0, key.1, m0[key]);
                assert(cs[i] == init[i]);
            }
        }
    }
}

/// The entries that `cands` asks for: `(lhs, t, k)` for terminals `t` of `s`.
proof fn lemma_cands_items(lhs: NonTerminal, k: int, s: Set<Symbol>, upto: int)
    requires
        0 <= upto <= 28,
    ensures
        forall|i: int|
            0 <= i < cands(lhs, k, s, upto).len() ==> {
                let e = #[trigger] cands(lhs, k, s, upto)[i];
                e.0 == lhs && e.2 == k && s.contains(Symbol::Terminal(e.1))
            },
    decreases upto,
{
    if upto > 0 {
        lemma_cands_items(lhs, k, s, upto - 1);
        let c = cands(lhs, k, s, upto);
        let p = cands(lhs, k, s, upto - 1);
        assert forall|i: int| 0 <= i < c.len() implies {
            let e = #[trigger] c[i];
            e.0 == lhs && e.2 == k && s.contains(Symbol::Terminal(e.1))
        } by {
            if i < p.len() {
                assert(c[i] == p[i]);
            }
        }
    }
}

/// `cands` asks for every terminal of `s` before `upto`.
proof fn lemma_cands_has(lhs: NonTerminal, k: int, s: Set<Symbol>, upto: int, t: Terminal)
    requires
        0 <= upto <= 28,
        terminal_index(t) < upto,
        s.contains(Symbol::Terminal(t)),
    ensures
        exists|i: int| 0 <= i < cands(lhs, k, s, upto).len() && #[trigger] cands(lhs, k, s, upto)[i] == (lhs, t, k),
    decreases upto,
{
    lemma_terminal_index(t);
    let c = cands(lhs, k, s, upto);
    let p = cands(lhs, k, s, upto - 1);
    if terminal_index(t) == upto - 1 {
        assert(all_terminals()[upto - 1] == t);
        assert(c[p.len() as int] == (lhs, t, k));
    } else {
        lemma_cands_has(lhs, k, s, upto - 1, t);
        let i = choose|i: int| 0 <= i < p.len() && #[trigger] p[i] == (lhs, t, k);
        assert(c[i] == p[i]);
    }
}

/// The entries of production `q` sit after those of the productions before
/// it.
proof fn lemma_all_cands_at(
    g: GrammarView,
    f: Map<NonTerminal, Set<Symbol>>,
    fo: Map<NonTerminal, Set<Symbol>>,
    q: int,
    n: int,
    i: int,
)
    requires
        0 <= q < n,
        0 <= i < prod_cands(g, f, fo, q).len(),
    ensures
        all_cands(g, f, fo, q).len() + i < all_cands(g, f, fo, n).len(),
        all_cands(g, f, fo, n)[all_cands(g, f, fo, q).len() + i] == prod_cands(g, f, fo, q)[i],
{
    lemma_all_cands_prefix(g, f, fo, q + 1, n);
    let pre = all_cands(g, f, fo, q + 1);
    assert(pre == all_cands(g, f, fo, q) + prod_cands(g, f, fo, q));
    assert(pre[all_cands(g, f, fo, q).len() + i] == prod_cands(g, f, fo, q)[i]);
}

/// Every entry asked for comes from some production.
proof fn lemma_all_cands_from(
    g: GrammarView,
    f: Map<NonTerminal, Set<Symbol>>,
    fo: Map<NonTerminal, Set<Symbol>>,
    n: int,
    idx: int,
)
    requires
        0 <= n,
        0 <= idx < all_cands(g, f, fo, n).len(),
    ensures
        exists|q: int, i: int|
            0 <= q < n && 0 <= i < prod_cands(g, f, fo, q).len() && #[trigger] prod_cands(g, f, fo, q)[i]
                == all_cands(g, f, fo, n)[idx],
    decreases n,
{
    let prev = all_cands(g, f, fo, n - 1);
    if idx < prev.len() {
        lemma_all_cands_from(g, f, fo, n - 1, idx);
        let (q, i) = choose|q: int, i: int|
            0 <= q < n - 1 && 0 <= i < prod_cands(g, f, fo, q).len() && #[trigger] prod_cands(g, f, fo, q)[i]
                == prev[idx];
        assert(all_cands(g, f, fo, n)[idx] == prev[idx]);
    } else {
        let i = idx - prev.len();
        assert(all_cands(g, f, fo, n)[idx] == prod_cands(g, f, fo, n - 1)[i]);
    }
}

/// Production `q` asks for the entry of its left-hand side and `a` because
/// `a` starts its right-hand side.
pub open spec fn by_first(g: GrammarView, f: Map<NonTerminal, Set<Symbol>>, q: int, a: Terminal) -> bool {
    seq_first(f, g.productions[q].rhs).contains(Symbol::Terminal(a))
}

/// Production `q` asks for the entry of its left-hand side and `a` because
/// its right-hand side derives the empty string and `a` follows the
/// left-hand side.
pub open spec fn by_follow(
    g: GrammarView,
    f: Map<NonTerminal, Set<Symbol>>,
    fo: Map<NonTerminal, Set<Symbol>>,
    q: int,
    a: Terminal,
) -> bool {
    &&& seq_first(f, g.productions[q].rhs).contains(Symbol::Epsilon)
    &&& fo[g.productions[q].lhs].contains(Symbol::Terminal(a))
}

/// The entries of a table built without conflict, by production index.
pub open spec fn entries(
    g: GrammarView,
    f: Map<NonTerminal, Set<Symbol>>,
    fo: Map<NonTerminal, Set<Symbol>>,
) -> Map<(NonTerminal, Terminal), int> {
    fill(all_cands(g, f, fo, g.productions.len() as int))->Ok_0
}

/// Where production `q` asks, by FIRST, for the entry of `a`.
proof fn lemma_first_cand(
    g: GrammarView,
    f: Map<NonTerminal, Set<Symbol>>,
    fo: Map<NonTerminal, Set<Symbol>>,
    q: int,
    a: Terminal,
) -> (idx: int)
    requires
        0 <= q < g.productions.len(),
        by_first(g, f, q, a),
    ensures
        all_cands(g, f, fo, q).len() <= idx < all_cands(g, f, fo, q).len() + cands(
            g.productions[q].lhs,
            q,
            seq_first(f, g.productions[q].rhs),
            28,
        ).len(),
        idx < all_cands(g, f, fo, g.productions.len() as int).len(),
        all_cands(g, f, fo, g.productions.len() as int)[idx] == (g.productions[q].lhs, a, q),
{
    let p = g.productions[q];
    let rf = seq_first(f, p.rhs);
    lemma_terminal_index(a);
    lemma_cands_has(p.lhs, q, rf, 28, a);
    let i = choose|i: int| 0 <= i < cands(p.lhs, q, rf, 28).len() && #[trigger] cands(p.lhs, q, rf, 28)[i] == (p.lhs, a, q);
    assert(prod_cands(g, f, fo, q)[i] == cands(p.lhs, q, rf, 28)[i]);
    lemma_all_cands_at(g, f, fo, q, g.productions.len() as int, i);
    all_cands(g, f, fo, q).len() + i
}

/// Where production `q` asks, by FOLLOW, for the entry of `a`.
proof fn lemma_follow_cand(
    g: GrammarView,
    f: Map<NonTerminal, Set<Symbol>>,
    fo: Map<NonTerminal, Set<Symbol>>,
    q: int,
    a: Terminal,
) -> (idx: int)
    requires
        0 <= q < g.productions.len(),
        by_follow(g, f, fo, q, a),
    ensures
        all_cands(g, f, fo, q).len() + cands(
            g.productions[q].lhs,
            q,
            seq_first(f, g.productions[q].rhs),
            28,
        ).len() <= idx,
        idx < all_cands(g, f, fo, g.productions.len() as int).len(),
        all_cands(g, f, fo, g.productions.len() as int)[idx] == (g.productions[q].lhs, a, q),
{
    let p = g.productions[q];
    let rf = seq_first(f, p.rhs);
    let head = cands(p.lhs, q, rf, 28);
    lemma_terminal_index(a);
    lemma_cands_has(p.lhs, q, fo[p.lhs], 28, a);
    let i = choose|i: int| 0 <= i < cands(p.lhs, q, fo[p.lhs], 28).len() && #[trigger] cands(p.lhs, q, fo[p.lhs], 28)[i] == (p.lhs, a, q);
    assert(prod_cands(g, f, fo, q) == head + cands(p.lhs, q, fo[p.lhs], 28));
    assert(prod_cands(g, f, fo, q)[head.len() + i] == cands(p.lhs, q, fo[p.lhs], 28)[i]);
    lemma_all_cands_at(g, f, fo, q, g.productions.len() as int, head.len() + i);
    all_cands(g, f, fo, q).len() + head.len() + i
}

/// Without a conflict, a production that asks for an entry holds it.
proof fn lemma_entry_of(
    g: GrammarView,
    f: Map<NonTerminal, Set<Symbol>>,
    fo: Map<NonTerminal, Set<Symbol>>,
    q: int,
    a: Terminal,
)
    requires
        fill(all_cands(g, f, fo, g.productions.len() as int)) is Ok,
        0 <= q < g.productions.len(),
        by_first(g, f, q, a) || by_follow(g, f, fo, q, a),
    ensures
        entries(g, f, fo).dom().contains((g.productions[q].lhs, a)),
        entries(g, f, fo)[(g.productions[q].lhs, a)] == q,
{
    let cs = all_cands(g, f, fo, g.productions.len() as int);
    lemma_fill_ok(cs);
    let idx = if by_first(g, f, q, a) {
        lemma_first_cand(g, f, fo, q, a)
    } else {
        lemma_follow_cand(g, f, fo, q, a)
    };
    assert(cs[idx] == (g.productions[q].lhs, a, q));
    let e = cs[idx];
    assert(fill(cs)->Ok_0.dom().contains((e.0, e.1)) && fill(cs)->Ok_0[(e.0, e.1)] == e.2);
    assert(entries(g, f, fo) == fill(cs)->Ok_0);
}

/// Without a conflict, no production asks for the same entry by FIRST and
/// another (or the same) by FOLLOW.
pub proof fn lemma_no_double_route(
    g: GrammarView,
    f: Map<NonTerminal, Set<Symbol>>,
    fo: Map<NonTerminal, Set<Symbol>>,
    q1: int,
    q2: int,
    a: Terminal,
)
    requires
        fill(all_cands(g, f, fo, g.productions.len() as int)) is Ok,
        0 <= q1 < g.productions.len(),
        0 <= q2 < g.productions.len(),
        g.productions[q1].lhs == g.productions[q2].lhs,
    ensures
        !(by_first(g, f, q1, a) && by_follow(g, f, fo, q2, a)),
{
    if by_first(g, f, q1, a) && by_follow(g, f, fo, q2, a) {
        lemma_entry_of(g, f, fo, q1, a);
        lemma_entry_of(g, f, fo, q2, a);
        let cs = all_cands(g, f, fo, g.productions.len() as int);
        lemma_fill_ok(cs);
        let i1 = lemma_first_cand(g, f, fo, q1, a);
        let i2 = lemma_follow_cand(g, f, fo, q1, a);
        assert(cs[i1].0 == cs[i2].0 && cs[i1].1 == cs[i2].1);
    }
}

/// Without a conflict, the production that holds an entry asked for it.
pub proof fn lemma_entry_origin(
    g: GrammarView,
    f: Map<NonTerminal, Set<Symbol>>,
    fo: Map<NonTerminal, Set<Symbol>>,
    key: (NonTerminal, Terminal),
)
    requires
        fill(all_cands(g, f, fo, g.productions.len() as int)) is Ok,
        entries(g, f, fo).dom().contains(key),
    ensures
        0 <= entries(g, f, fo)[key] < g.productions.len(),
        g.productions[entries(g, f, fo)[key]].lhs == key.0,
        by_first(g, f, entries(g, f, fo)[key], key.1) || by_follow(g, f, fo, entries(g, f, fo)[key], key.1),
{
    let n = g.productions.len() as int;
    let cs = all_cands(g, f, fo, n);
    let m = entries(g, f, fo);
    lemma_fill_ok(cs);
    let idx = choose|i: int| 0 <= i < cs.len() && #[trigger] cs[i] == (key.0, key.1, m[key]);
    lemma_all_cands_from(g, f, fo, n, idx);
    let (q, i) = choose|q: int, i: int|
        0 <= q < n && 0 <= i < prod_cands(g, f, fo, q).len() && #[trigger] prod_cands(g, f, fo, q)[i] == cs[idx];
    let p = g.productions[q];
    let rf = seq_first(f, p.rhs);
    let head = cands(p.lhs, q, rf, 28);
    lemma_cands_items(p.lhs, q, rf, 28);
    lemma_cands_items(p.lhs, q, fo[p.lhs], 28);
    if i < head.len() {
        assert(prod_cands(g, f, fo, q)[i] == head[i]);
    } else {
        assert(rf.contains(Symbol::Epsilon));
        assert(prod_cands(g, f, fo, q) == head + cands(p.lhs, q, fo[p.lhs], 28));
        assert(prod_cands(g, f, fo, q)[i] == cands(p.lhs, q, fo[p.lhs], 28)[i - head.len()]);
    }
}

/// The first `i` symbols of `rhs` are nonterminals whose sets in `h` hold ε.
pub open spec fn nullable_prefix(h: Map<NonTerminal, Set<Symbol>>, rhs: Seq<Symbol>, i: int) -> bool {
    forall|j: int|
        0 <= j < i ==> (#[trigger] rhs[j] matches Symbol::NonTerminal(m) && h[m].contains(Symbol::Epsilon))
}

/// Symbol `x` starts with terminal `a`, by the sets in `h`.
pub open spec fn gives(h: Map<NonTerminal, Set<Symbol>>, x: Symbol, a: Terminal) -> bool {
    x == Symbol::Terminal(a) || (x matches Symbol::NonTerminal(m) && h[m].contains(Symbol::Terminal(a)))
}

/// A terminal starts a string exactly when some symbol of it starts with
/// the terminal and all symbols before it derive the empty string.
proof fn lemma_first_of_string(h: Map<NonTerminal, Set<Symbol>>, rhs: Seq<Symbol>, a: Terminal)
    ensures
        seq_first(h, rhs).contains(Symbol::Terminal(a)) <==> exists|i: int|
            0 <= i < rhs.len() && nullable_prefix(h, rhs, i) && #[trigger] gives(h, rhs[i], a),
    decreases rhs.len(),
{
    if rhs.len() > 0 {
        let rest = rhs.skip(1);
        lemma_first_of_string(h, rest, a);
        if seq_first(h, rhs).contains(Symbol::Terminal(a)) {
            if gives(h, rhs[0], a) {
                assert(nullable_prefix(h, rhs, 0));
            } else {
                let i = choose|i: int| 0 <= i < rest.len() && nullable_prefix(h, rest, i) && #[trigger] gives(h, rest[i], a);
                assert(rest[i] == rhs[i + 1]);
                assert forall|j: int| 0 <= j < i + 1 implies (#[trigger] rhs[j] matches Symbol::NonTerminal(m) && h[m].contains(Symbol::Epsilon)) by {
                    if j > 0 {
                        assert(rhs[j] == rest[j - 1]);
                    }
                }
            }
        }
        if exists|i: int| 0 <= i < rhs.len() && nullable_prefix(h, rhs, i) && #[trigger] gives(h, rhs[i], a) {
            let i = choose|i: int| 0 <= i < rhs.len() && nullable_prefix(h, rhs, i) && #[trigger] gives(h, rhs[i], a);
            if i > 0 {
                assert(rhs[0] matches Symbol::NonTerminal(m) && h[m].contains(Symbol::Epsilon));
                assert(rest[i - 1] == rhs[i]);
                assert forall|j: int| 0 <= j < i - 1 implies (#[trigger] rest[j] matches Symbol::NonTerminal(m) && h[m].contains(Symbol::Epsilon)) by {
                    assert(rest[j] == rhs[j + 1]);
                }
                assert(gives(h, rest[i - 1], a));
            }
        }
    }
}

/// A string derives the empty string exactly when all its symbols are
/// nonterminals whose sets hold ε.
proof fn lemma_empty_of_string(h: Map<NonTerminal, Set<Symbol>>, rhs: Seq<Symbol>)
    requires
        forall|j: int| 0 <= j < rhs.len() ==> #[trigger] rhs[j] != Symbol::Epsilon,
    ensures
        seq_first(h, rhs).contains(Symbol::Epsilon) <==> nullable_prefix(h, rhs, rhs.len() as int),
    decreases rhs.len(),
{
    if rhs.len() > 0 {
        let rest = rhs.skip(1);
        assert forall|j: int| 0 <= j < rest.len() implies #[trigger] rest[j] != Symbol::Epsilon by {
            assert(rest[j] == rhs[j + 1]);
        }
        lemma_empty_of_string(h, rest);
        if nullable_prefix(h, rhs, rhs.len() as int) {
            assert(rhs[0] matches Symbol::NonTerminal(m) && h[m].contains(Symbol::Epsilon));
            assert forall|j: int| 0 <= j < rest.len() implies (#[trigger] rest[j] matches Symbol::NonTerminal(m) && h[m].contains(Symbol::Epsilon)) by {
                assert(rest[j] == rhs[j + 1]);
            }
        }
        if seq_first(h, rhs).contains(Symbol::Epsilon) {
            assert(rhs[0] != Symbol::Epsilon);
            assert forall|j: int| 0 <= j < rhs.len() implies (#[trigger] rhs[j] matches Symbol::NonTerminal(m) && h[m].contains(Symbol::Epsilon)) by {
                if j > 0 {
                    assert(rhs[j] == rest[j - 1]);
                }
            }
        }
    }
}

/// `b` to the power `e`.
pub open spec fn power(b: nat, e: nat) -> nat
    decreases e,
{
    if e == 0 {
        1
    } else {
        b * power(b, (e - 1) as nat)
    }
}

proof fn lemma_power_pos(b: nat, e: nat)
    requires
        b >= 1,
    ensures
        power(b, e) >= 1,
    decreases e,
{
    if e > 0 {
        lemma_power_pos(b, (e - 1) as nat);
        let p = power(b, (e - 1) as nat);
        assert(b * p >= 1) by (nonlinear_arith)
            requires
                b >= 1,
                p >= 1,
        ;
    }
}

proof fn lemma_power_mono(b: nat, e1: nat, e2: nat)
    requires
        b >= 1,
        e1 <= e2,
    ensures
        power(b, e1) <= power(b, e2),
    decreases e2,
{
    if e1 < e2 {
        lemma_power_mono(b, e1, (e2 - 1) as nat);
        lemma_power_pos(b, (e2 - 1) as nat);
        let p = power(b, (e2 - 1) as nat);
        assert(p <= b * p) by (nonlinear_arith)
            requires
                b >= 1,
                p >= 1,
        ;
    }
}

/// The length of the longest right-hand side.
pub open spec fn max_rhs(ps: Seq<ProductionView>) -> nat
    decreases ps.len(),
{
    if ps.len() == 0 {
        0
    } else {
        let r = max_rhs(ps.drop_last());
        if ps.last().rhs.len() > r {
            ps.last().rhs.len()
        } else {
            r
        }
    }
}

proof fn lemma_max_rhs(ps: Seq<ProductionView>, q: int)
    requires
        0 <= q < ps.len(),
    ensures
        ps[q].rhs.len() <= max_rhs(ps),
    decreases ps.len(),
{
    if q < ps.len() - 1 {
        lemma_max_rhs(ps.drop_last(), q);
        assert(ps.drop_last()[q] == ps[q]);
    }
}

/// Symbol `x` on top of the stack will read lookahead `a`: it is `a`, or a
/// nonterminal whose FIRST set holds `a`.
pub open spec fn consuming(f: Map<NonTerminal, Set<Symbol>>, a: Terminal, x: Symbol) -> bool {
    gives(f, x, a)
}

/// The exponent of the weight of `x` for lookahead `a`: odd and growing with
/// the round in which `a` reaches FIRST of `x` when `x` reads `a`; even and
/// growing with the round in which ε does when `x` only derives the empty
/// string; zero for terminals.
pub open spec fn expo(g: GrammarView, f: Map<NonTerminal, Set<Symbol>>, a: Terminal, x: Symbol) -> nat {
    match x {
        Symbol::NonTerminal(n) => if f[n].contains(Symbol::Terminal(a)) {
            2 * rank(g, n, Symbol::Terminal(a)) + 1
        } else if f[n].contains(Symbol::Epsilon) {
            2 * rank(g, n, Symbol::Epsilon)
        } else {
            0
        },
        _ => 0,
    }
}

/// The base of the weights: more than any right-hand side is long.
pub open spec fn base(g: GrammarView) -> nat {
    max_rhs(g.productions) + 1
}

/// The weight of symbol `x` for lookahead `a`.
pub open spec fn weight(g: GrammarView, f: Map<NonTerminal, Set<Symbol>>, a: Terminal, x: Symbol) -> nat {
    power(base(g), expo(g, f, a, x))
}

/// The sum of the weights of the symbols.
pub open spec fn sum_weights(g: GrammarView, f: Map<NonTerminal, Set<Symbol>>, a: Terminal, l: Seq<Symbol>) -> nat
    decreases l.len(),
{
    if l.len() == 0 {
        0
    } else {
        weight(g, f, a, l[0]) + sum_weights(g, f, a, l.skip(1))
    }
}

/// The weight of the part of the stack (top first) that is worked on
/// before lookahead `a` is read: the symbols down to the first one that
/// reads `a`.
pub open spec fn active(g: GrammarView, f: Map<NonTerminal, Set<Symbol>>, a: Terminal, l: Seq<Symbol>) -> nat
    decreases l.len(),
{
    if l.len() == 0 {
        0
    } else {
        weight(g, f, a, l[0]) + if consuming(f, a, l[0]) {
            0
        } else {
            active(g, f, a, l.skip(1))
        }
    }
}

/// The symbols of the stack, top first.
pub open spec fn tops(stack: Seq<(Symbol, usize)>) -> Seq<Symbol> {
    Seq::new(stack.len(), |i: int| stack[stack.len() - 1 - i].0)
}

/// Before the first symbol that reads the lookahead, the active weight is
/// the weights of the symbols up to it.
proof fn lemma_active_stops(
    g: GrammarView,
    f: Map<NonTerminal, Set<Symbol>>,
    a: Terminal,
    l1: Seq<Symbol>,
    l2: Seq<Symbol>,
    i: int,
)
    requires
        0 <= i < l1.len(),
        consuming(f, a, l1[i]),
        forall|j: int| 0 <= j < i ==> !consuming(f, a, #[trigger] l1[j]),
    ensures
        active(g, f, a, l1 + l2) == sum_weights(g, f, a, l1.take(i + 1)),
    decreases i,
{
    let l = l1 + l2;
    assert(l[0] == l1[0]);
    if i == 0 {
        assert(l1.take(1).skip(1) =~= Seq::<Symbol>::empty());
        assert(l1.take(1)[0] == l1[0]);
        assert(sum_weights(g, f, a, Seq::<Symbol>::empty()) == 0);
        assert(sum_weights(g, f, a, l1.take(1)) == weight(g, f, a, l1[0]));
    } else {
        assert(!consuming(f, a, l1[0]));
        assert(l.skip(1) =~= l1.skip(1) + l2);
        assert forall|j: int| 0 <= j < i - 1 implies !consuming(f, a, #[trigger] l1.skip(1)[j]) by {
            assert(l1.skip(1)[j] == l1[j + 1]);
        }
        assert(l1.skip(1)[i - 1] == l1[i]);
        lemma_active_stops(g, f, a, l1.skip(1), l2, i - 1);
        assert(l1.take(i + 1).skip(1) =~= l1.skip(1).take(i));
        assert(l1.take(i + 1)[0] == l1[0]);
        assert(active(g, f, a, l) == weight(g, f, a, l1[0]) + active(g, f, a, l.skip(1)));
        assert(sum_weights(g, f, a, l1.take(i + 1)) == weight(g, f, a, l1[0]) + sum_weights(
            g,
            f,
            a,
            l1.skip(1).take(i),
        ));
    }
}

/// Over symbols none of which reads the lookahead, the active weight adds up.
proof fn lemma_active_passes(
    g: GrammarView,
    f: Map<NonTerminal, Set<Symbol>>,
    a: Terminal,
    l1: Seq<Symbol>,
    l2: Seq<Symbol>,
)
    requires
        forall|j: int| 0 <= j < l1.len() ==> !consuming(f, a, #[trigger] l1[j]),
    ensures
        active(g, f, a, l1 + l2) == sum_weights(g, f, a, l1) + active(g, f, a, l2),
    decreases l1.len(),
{
    if l1.len() == 0 {
        assert(l1 + l2 =~= l2);
    } else {
        let l = l1 + l2;
        assert(l[0] == l1[0]);
        assert(!consuming(f, a, l1[0]));
        assert(l.skip(1) =~= l1.skip(1) + l2);
        assert forall|j: int| 0 <= j < l1.skip(1).len() implies !consuming(f, a, #[trigger] l1.skip(1)[j]) by {
            assert(l1.skip(1)[j] == l1[j + 1]);
        }
        lemma_active_passes(g, f, a, l1.skip(1), l2);
    }
}

/// Symbols whose exponents stay at most `e` weigh at most their count times
/// the weight of `e`.
proof fn lemma_sum_bound(g: GrammarView, f: Map<NonTerminal, Set<Symbol>>, a: Terminal, l: Seq<Symbol>, e: nat)
    requires
        forall|j: int| 0 <= j < l.len() ==> expo(g, f, a, #[trigger] l[j]) <= e,
    ensures
        sum_weights(g, f, a, l) <= l.len() * power(base(g), e),
    decreases l.len(),
{
    if l.len() > 0 {
        assert forall|j: int| 0 <= j < l.skip(1).len() implies expo(g, f, a, #[trigger] l.skip(1)[j]) <= e by {
            assert(l.skip(1)[j] == l[j + 1]);
        }
        lemma_sum_bound(g, f, a, l.skip(1), e);
        assert(expo(g, f, a, l[0]) <= e);
        lemma_power_mono(base(g), expo(g, f, a, l[0]), e);
        let p = power(base(g), e);
        let n = l.len();
        assert((n - 1) * p + p == n * p) by (nonlinear_arith);
    }
}

/// Fewer symbols than the base, each with an exponent below `e`, weigh
/// less than one symbol with exponent `e`.
proof fn lemma_replace_lighter(g: GrammarView, f: Map<NonTerminal, Set<Symbol>>, a: Terminal, l: Seq<Symbol>, e: nat)
    requires
        e >= 1,
        l.len() < base(g),
        forall|j: int| 0 <= j < l.len() ==> expo(g, f, a, #[trigger] l[j]) < e,
    ensures
        sum_weights(g, f, a, l) < power(base(g), e),
{
    let b = base(g);
    let e1 = (e - 1) as nat;
    lemma_sum_bound(g, f, a, l, e1);
    lemma_power_pos(b, e1);
    let p = power(b, e1);
    let n = l.len();
    assert(n * p < b * p) by (nonlinear_arith)
        requires
            n < b,
            p >= 1,
    ;
    assert(power(b, e) == b * p);
}

/// The stack after popping its top and pushing a right-hand side, top first.
proof fn lemma_tops_push(rest: Seq<(Symbol, usize)>, rhs: Seq<Symbol>, b: int)
    ensures
        tops(rest + crate::parser::pushed(rhs, b)) == rhs + tops(rest),
{
    let p = crate::parser::pushed(rhs, b);
    let s = rest + p;
    assert forall|i: int| 0 <= i < s.len() implies #[trigger] tops(s)[i] == (rhs + tops(rest))[i] by {
        if i < rhs.len() {
            assert(s[s.len() - 1 - i] == p[p.len() - 1 - i]);
        } else {
            assert(s[s.len() - 1 - i] == rest[rest.len() - 1 - (i - rhs.len())]);
        }
    }
    assert(tops(s) =~= rhs + tops(rest));
}

/// The top of the stack comes first.
proof fn lemma_tops_pop(stack: Seq<(Symbol, usize)>)
    requires
        stack.len() >= 1,
    ensures
        tops(stack) == seq![stack.last().0] + tops(stack.drop_last()),
{
    assert(tops(stack) =~= seq![stack.last().0] + tops(stack.drop_last()));
}

/// `g` is well formed and `f` holds its least FIRST sets.
pub open spec fn first_ctx(g: GrammarView, f: Map<NonTerminal, Set<Symbol>>) -> bool {
    &&& well_formed(g)
    &&& f.dom() == lhs_set(g)
    &&& first_closed(g, f)
    &&& forall|h: Map<NonTerminal, Set<Symbol>>| #[trigger] first_closed(g, h) ==> below(f, h)
}

/// What the termination argument needs of a grammar: it is well formed,
/// `f` holds its least FIRST sets, `fo` meets the FOLLOW constraints, and
/// the parse table built from them has no conflict.
pub open spec fn halting_ctx(
    g: GrammarView,
    f: Map<NonTerminal, Set<Symbol>>,
    fo: Map<NonTerminal, Set<Symbol>>,
) -> bool {
    &&& first_ctx(g, f)
    &&& follow_closed(g, f, least_nullable(g), fo)
    &&& fill(all_cands(g, f, fo, g.productions.len() as int)) is Ok
}

proof fn lemma_rhs_in(g: GrammarView, q: int)
    requires
        well_formed(g),
        0 <= q < g.productions.len(),
    ensures
        rhs_in(g, g.productions[q].rhs),
        forall|j: int| 0 <= j < g.productions[q].rhs.len() ==> #[trigger] g.productions[q].rhs[j] != Symbol::Epsilon,
{
    assert forall|j: int| 0 <= j < g.productions[q].rhs.len() implies (#[trigger] g.productions[q].rhs[j] matches Symbol::NonTerminal(m) ==> lhs_set(g).contains(m)) by {
        assert(crate::grammar::rhs_symbol_ok(g, g.productions[q].rhs[j]));
    }
    assert forall|j: int| 0 <= j < g.productions[q].rhs.len() implies #[trigger] g.productions[q].rhs[j] != Symbol::Epsilon by {
        assert(crate::grammar::rhs_symbol_ok(g, g.productions[q].rhs[j]));
    }
}

/// FIRST of a string with the sets of a round stays inside FIRST with `f`.
proof fn lemma_round_string(g: GrammarView, f: Map<NonTerminal, Set<Symbol>>, k: nat, rhs: Seq<Symbol>)
    requires
        well_formed(g),
        first_closed(g, f),
        rhs_in(g, rhs),
    ensures
        seq_first(first_round(g, k), rhs).subset_of(seq_first(f, rhs)),
{
    lemma_round_below(g, f, k);
    lemma_covers_rounds(g, k, rhs);
    lemma_seq_first_mono(first_round(g, k), f, rhs);
}

/// A member of a least FIRST set comes, in the round of its rank, from a
/// right-hand side of the nonterminal computed with the round before.
proof fn lemma_rank_source(g: GrammarView, f: Map<NonTerminal, Set<Symbol>>, n: NonTerminal, x: Symbol) -> (q: int)
    requires
        first_ctx(g, f),
        lhs_set(g).contains(n),
        f[n].contains(x),
    ensures
        rank(g, n, x) >= 1,
        0 <= q < g.productions.len(),
        g.productions[q].lhs == n,
        seq_first(first_round(g, (rank(g, n, x) - 1) as nat), g.productions[q].rhs).contains(x),
        seq_first(f, g.productions[q].rhs).contains(x),
{
    lemma_least_first_rounds(g, f);
    let k0 = choose|k: nat| #[trigger] in_round(g, n, x, k);
    lemma_rank(g, n, x, k0);
    let r = rank(g, n, x);
    let prev = first_round(g, (r - 1) as nat);
    assert(first_round(g, r) == first_step(g, prev));
    let q = choose|q: int|
        0 <= q < g.productions.len() && g.productions[q].lhs == n
            && #[trigger] seq_first(prev, g.productions[q].rhs).contains(x);
    lemma_rhs_in(g, q);
    lemma_round_string(g, f, (r - 1) as nat, g.productions[q].rhs);
    q
}

/// What is in a round is in the least FIRST sets, and its rank is at most
/// that round.
proof fn lemma_in_round(g: GrammarView, f: Map<NonTerminal, Set<Symbol>>, n: NonTerminal, x: Symbol, k: nat)
    requires
        first_ctx(g, f),
        lhs_set(g).contains(n),
        first_round(g, k)[n].contains(x),
    ensures
        f[n].contains(x),
        rank(g, n, x) <= k,
{
    lemma_least_first_rounds(g, f);
    assert(in_round(g, n, x, k));
    lemma_rank(g, n, x, k);
}

/// A production chosen because the lookahead starts its right-hand side:
/// its left-hand side reads the lookahead, and the symbols it pushes, down
/// to the first one that reads the lookahead, all weigh less.
proof fn lemma_first_route(
    g: GrammarView,
    f: Map<NonTerminal, Set<Symbol>>,
    fo: Map<NonTerminal, Set<Symbol>>,
    q: int,
    a: Terminal,
) -> (i: int)
    requires
        halting_ctx(g, f, fo),
        0 <= q < g.productions.len(),
        by_first(g, f, q, a),
    ensures
        consuming(f, a, Symbol::NonTerminal(g.productions[q].lhs)),
        expo(g, f, a, Symbol::NonTerminal(g.productions[q].lhs)) >= 1,
        0 <= i < g.productions[q].rhs.len(),
        consuming(f, a, g.productions[q].rhs[i]),
        forall|j: int| 0 <= j < i ==> !consuming(f, a, #[trigger] g.productions[q].rhs[j]),
        forall|j: int|
            0 <= j <= i ==> expo(g, f, a, #[trigger] g.productions[q].rhs[j]) < expo(
                g,
                f,
                a,
                Symbol::NonTerminal(g.productions[q].lhs),
            ),
{
    let p = g.productions[q];
    let big_a = p.lhs;
    let ta = Symbol::Terminal(a);
    lemma_rhs_in(g, q);
    assert(lhs_set(g).contains(big_a));
    assert(f.dom().contains(big_a) && seq_first(f, p.rhs).subset_of(f[big_a]));
    let q2 = lemma_rank_source(g, f, big_a, ta);
    let r = rank(g, big_a, ta);
    lemma_entry_of(g, f, fo, q, a);
    lemma_entry_of(g, f, fo, q2, a);
    assert(q2 == q);
    let h = first_round(g, (r - 1) as nat);
    lemma_first_of_string(h, p.rhs, a);
    let i = choose|i: int| 0 <= i < p.rhs.len() && nullable_prefix(h, p.rhs, i) && #[trigger] gives(h, p.rhs[i], a);
    let e_a = expo(g, f, a, Symbol::NonTerminal(big_a));
    assert(e_a == 2 * r + 1);
    // the symbol that reads the lookahead
    if let Symbol::NonTerminal(m) = p.rhs[i] {
        assert(lhs_set(g).contains(m));
        lemma_in_round(g, f, m, ta, (r - 1) as nat);
    }
    // the symbols before it only derive the empty string
    assert forall|j: int| 0 <= j < i implies !consuming(f, a, #[trigger] p.rhs[j]) && expo(g, f, a, p.rhs[j]) < e_a by {
        if let Symbol::NonTerminal(m) = p.rhs[j] {
            assert(lhs_set(g).contains(m));
            assert(h[m].contains(Symbol::Epsilon));
            lemma_in_round(g, f, m, Symbol::Epsilon, (r - 1) as nat);
            if f[m].contains(ta) {
                let qj = lemma_rank_source(g, f, m, ta);
                let qe = lemma_rank_source(g, f, m, Symbol::Epsilon);
                let rest = p.rhs.skip(j + 1);
                assert(occurrence_ok(g, f, least_nullable(g), fo, q, j));
                assert forall|l: int| 0 <= l < i - j - 1 implies (#[trigger] rest[l] matches Symbol::NonTerminal(m2) && f[m2].contains(Symbol::Epsilon)) by {
                    assert(rest[l] == p.rhs[j + 1 + l]);
                    if let Symbol::NonTerminal(m2) = p.rhs[j + 1 + l] {
                        assert(lhs_set(g).contains(m2));
                        lemma_in_round(g, f, m2, Symbol::Epsilon, (r - 1) as nat);
                    }
                }
                assert(rest[i - j - 1] == p.rhs[i]);
                assert(gives(f, rest[i - j - 1], a));
                lemma_first_of_string(f, rest, a);
                assert(seq_first(f, rest).contains(ta));
                assert(fo[m].contains(ta));
                lemma_no_double_route(g, f, fo, qj, qe, a);
            }
        }
    }
    assert forall|j: int| 0 <= j <= i implies expo(g, f, a, #[trigger] p.rhs[j]) < e_a by {
        if j < i {
            assert(!consuming(f, a, p.rhs[j]) && expo(g, f, a, p.rhs[j]) < e_a);
        }
    }
    i
}

/// A production chosen because its right-hand side derives the empty
/// string and the lookahead follows: its left-hand side does not read the
/// lookahead, and none of the symbols it pushes does, each weighing less.
proof fn lemma_follow_route(
    g: GrammarView,
    f: Map<NonTerminal, Set<Symbol>>,
    fo: Map<NonTerminal, Set<Symbol>>,
    q: int,
    a: Terminal,
)
    requires
        halting_ctx(g, f, fo),
        0 <= q < g.productions.len(),
        by_follow(g, f, fo, q, a),
    ensures
        !consuming(f, a, Symbol::NonTerminal(g.productions[q].lhs)),
        expo(g, f, a, Symbol::NonTerminal(g.productions[q].lhs)) >= 1,
        forall|j: int|
            0 <= j < g.productions[q].rhs.len() ==> !consuming(f, a, #[trigger] g.productions[q].rhs[j])
                && expo(g, f, a, g.productions[q].rhs[j]) < expo(
                g,
                f,
                a,
                Symbol::NonTerminal(g.productions[q].lhs),
            ),
{
    let p = g.productions[q];
    let big_a = p.lhs;
    let ta = Symbol::Terminal(a);
    let eps = Symbol::Epsilon;
    lemma_rhs_in(g, q);
    assert(lhs_set(g).contains(big_a));
    assert(f.dom().contains(big_a) && seq_first(f, p.rhs).subset_of(f[big_a]));
    if f[big_a].contains(ta) {
        let q1 = lemma_rank_source(g, f, big_a, ta);
        lemma_no_double_route(g, f, fo, q1, q, a);
    }
    let q2 = lemma_rank_source(g, f, big_a, eps);
    let r = rank(g, big_a, eps);
    assert(by_follow(g, f, fo, q2, a));
    lemma_entry_of(g, f, fo, q, a);
    lemma_entry_of(g, f, fo, q2, a);
    assert(q2 == q);
    let h = first_round(g, (r - 1) as nat);
    lemma_empty_of_string(h, p.rhs);
    lemma_empty_of_string(f, p.rhs);
    let e_a = expo(g, f, a, Symbol::NonTerminal(big_a));
    assert(e_a == 2 * r);
    assert forall|j: int| 0 <= j < p.rhs.len() implies !consuming(f, a, #[trigger] p.rhs[j]) && expo(g, f, a, p.rhs[j]) < e_a by {
        assert(p.rhs[j] matches Symbol::NonTerminal(m) && h[m].contains(eps));
        if let Symbol::NonTerminal(m) = p.rhs[j] {
            assert(lhs_set(g).contains(m));
            lemma_in_round(g, f, m, eps, (r - 1) as nat);
            if f[m].contains(ta) {
                assert(nullable_prefix(f, p.rhs, j));
                assert(gives(f, p.rhs[j], a));
                lemma_first_of_string(f, p.rhs, a);
                lemma_no_double_route(g, f, fo, q, q, a);
            }
        }
    }
}

/// The parse table of a grammar built without conflict.
pub open spec fn table_from(
    g: GrammarView,
    f: Map<NonTerminal, Set<Symbol>>,
    fo: Map<NonTerminal, Set<Symbol>>,
) -> Map<(NonTerminal, Terminal), ProductionView> {
    Map::new(
        |key: (NonTerminal, Terminal)| entries(g, f, fo).dom().contains(key),
        |key: (NonTerminal, Terminal)| g.productions[entries(g, f, fo)[key]],
    )
}

/// Every symbol on the stack is a terminal or a nonterminal with a
/// production.
pub open spec fn stack_syms_ok(g: GrammarView, stack: Seq<(Symbol, usize)>) -> bool {
    forall|j: int|
        0 <= j < stack.len() ==> (#[trigger] stack[j]).0 != Symbol::Epsilon && (stack[j].0 matches Symbol::NonTerminal(n)
            ==> lhs_set(g).contains(n))
}

/// The active weight of a configuration's stack for its lookahead.
pub open spec fn measure(g: GrammarView, f: Map<NonTerminal, Set<Symbol>>, toks: Seq<TokenView>, c: Config) -> nat {
    if 0 <= c.pos < toks.len() {
        active(g, f, toks[c.pos].kind, tops(c.stack))
    } else {
        0
    }
}

/// Each step that goes on reads a token, or keeps the lookahead and makes
/// the active weight smaller.
proof fn lemma_step_measure(
    g: GrammarView,
    f: Map<NonTerminal, Set<Symbol>>,
    fo: Map<NonTerminal, Set<Symbol>>,
    toks: Seq<TokenView>,
    c: Config,
    c2: Config,
)
    requires
        halting_ctx(g, f, fo),
        stack_syms_ok(g, c.stack),
        0 <= c.pos <= toks.len(),
        step(toks, table_from(g, f, fo), c) == Move::Continue(c2),
    ensures
        stack_syms_ok(g, c2.stack),
        0 <= c2.pos <= toks.len(),
        c2.pos > c.pos || (c2.pos == c.pos && measure(g, f, toks, c2) < measure(g, f, toks, c)),
{
    let table = table_from(g, f, fo);
    let (sym, index) = c.stack.last();
    let rest = c.stack.drop_last();
    let cur = toks[c.pos];
    let a = cur.kind;
    assert(c.stack[c.stack.len() - 1] == c.stack.last());
    assert forall|j: int| 0 <= j < rest.len() implies (#[trigger] rest[j]).0 != Symbol::Epsilon && (rest[j].0 matches Symbol::NonTerminal(n)
        ==> lhs_set(g).contains(n)) by {
        assert(rest[j] == c.stack[j]);
    }
    lemma_tops_pop(c.stack);
    match sym {
        Symbol::Terminal(term) => {},
        Symbol::Epsilon => {},
        Symbol::NonTerminal(nt) => {
            let key = (nt, a);
            assert(table.dom().contains(key));
            lemma_entry_origin(g, f, fo, key);
            let q = entries(g, f, fo)[key];
            let p = g.productions[q];
            assert(table[key] == p);
            lemma_rhs_in(g, q);
            lemma_max_rhs(g.productions, q);
            let top = seq![Symbol::NonTerminal(nt)];
            assert(tops(c.stack) == top + tops(rest));
            if p.rhs.len() == 0 {
                assert(!by_first(g, f, q, a)) by {
                    assert(seq_first(f, p.rhs) == set![Symbol::Epsilon]);
                }
                lemma_follow_route(g, f, fo, q, a);
                assert(c2.stack == rest);
                assert((top + tops(rest))[0] == Symbol::NonTerminal(nt));
                assert((top + tops(rest)).skip(1) =~= tops(rest));
                lemma_power_pos(base(g), expo(g, f, a, Symbol::NonTerminal(nt)));
            } else {
                let b = c.nodes.len() as int;
                assert(c2.stack == rest + pushed(p.rhs, b));
                lemma_tops_push(rest, p.rhs, b);
                assert forall|j: int| 0 <= j < c2.stack.len() implies (#[trigger] c2.stack[j]).0 != Symbol::Epsilon && (c2.stack[j].0 matches Symbol::NonTerminal(n)
                    ==> lhs_set(g).contains(n)) by {
                    if j >= rest.len() {
                        let k = j - rest.len();
                        assert(c2.stack[j] == pushed(p.rhs, b)[k]);
                        assert(pushed(p.rhs, b)[k].0 == p.rhs[p.rhs.len() - 1 - k]);
                    } else {
                        assert(c2.stack[j] == rest[j]);
                    }
                }
                assert((top + tops(rest))[0] == Symbol::NonTerminal(nt));
                assert((top + tops(rest)).skip(1) =~= tops(rest));
                if by_first(g, f, q, a) {
                    let i = lemma_first_route(g, f, fo, q, a);
                    lemma_active_stops(g, f, a, p.rhs, tops(rest), i);
                    let l = p.rhs.take(i + 1);
                    assert forall|j: int| 0 <= j < l.len() implies expo(g, f, a, #[trigger] l[j]) < expo(
                        g,
                        f,
                        a,
                        Symbol::NonTerminal(nt),
                    ) by {
                        assert(l[j] == p.rhs[j]);
                    }
                    lemma_replace_lighter(g, f, a, l, expo(g, f, a, Symbol::NonTerminal(nt)));
                } else {
                    lemma_follow_route(g, f, fo, q, a);
                    lemma_active_passes(g, f, a, p.rhs, tops(rest));
                    lemma_replace_lighter(g, f, a, p.rhs, expo(g, f, a, Symbol::NonTerminal(nt)));
                }
            }
        },
    }
}

/// From a configuration whose stack holds grammar symbols, the parser stops.
proof fn lemma_halts_from(
    g: GrammarView,
    f: Map<NonTerminal, Set<Symbol>>,
    fo: Map<NonTerminal, Set<Symbol>>,
    toks: Seq<TokenView>,
    c: Config,
)
    requires
        halting_ctx(g, f, fo),
        stack_syms_ok(g, c.stack),
        0 <= c.pos <= toks.len(),
    ensures
        exists|fuel: nat| #[trigger] run(toks, table_from(g, f, fo), c, fuel) is Some,
    decreases toks.len() - c.pos, measure(g, f, toks, c),
{
    let table = table_from(g, f, fo);
    match step(toks, table, c) {
        Move::Continue(c2) => {
            lemma_step_measure(g, f, fo, toks, c, c2);
            lemma_halts_from(g, f, fo, toks, c2);
            let fuel = choose|fuel: nat| #[trigger] run(toks, table, c2, fuel) is Some;
            assert(run(toks, table, c, fuel + 1) == run(toks, table, c2, fuel));
        },
        _ => {
            assert(run(toks, table, c, 1) is Some);
        },
    }
}

/// When the parse table of `g` has no conflict, the predictive parser
/// stops on every input: it accepts or fails after finitely many steps.
pub proof fn lemma_parser_stops(toks: Seq<TokenView>, g: GrammarView)
    requires
        well_formed(g),
        lhs_set(g).contains(g.start),
        least_first(g).dom() == lhs_set(g),
        first_closed(g, least_first(g)),
        forall|h: Map<NonTerminal, Set<Symbol>>| #[trigger] first_closed(g, h) ==> below(least_first(g), h),
        follow_closed(
            g,
            least_first(g),
            least_nullable(g),
            least_follow(g, least_first(g), least_nullable(g)),
        ),
        table_of(g) is Some,
    ensures
        stops(toks, table_of(g)->Some_0, g.start),
{
    let f = least_first(g);
    let fo = least_follow(g, f, least_nullable(g));
    assert(fill(all_cands(g, f, fo, g.productions.len() as int)) is Ok);
    assert(table_of(g)->Some_0 =~= table_from(g, f, fo));
    let c = start_config(g.start);
    assert(stack_syms_ok(g, c.stack));
    lemma_halts_from(g, f, fo, toks, c);
}

} // verus!
