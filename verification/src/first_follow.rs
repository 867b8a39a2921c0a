//! FIRST and FOLLOW sets of a grammar, as least solutions of their
//! defining constraints, and the LL(1) parse table built from them.
use vstd::prelude::*;
use crate::grammar::{
    Grammar, GrammarView, Production, ProductionView, least_nullable, lhs_set, production_text,
    rhs_symbol_ok, well_formed,
};
pub use crate::listing::{format_first_sets, format_follow_sets, format_parse_table};
use crate::sets::NonTerminalSet;
use crate::sets::{SymbolSet, SymbolSets, count_true, lemma_count_set, nonterminal_count, slot_count};
use crate::symbol::{
    NonTerminal, Symbol, Terminal, all_terminals, lemma_nonterminal_index, lemma_terminal_index,
    nonterminal_index, terminal_index,
};

verus! {

/// FIRST of the symbol string `rhs`, given the FIRST sets `f` of the
/// nonterminals: the first terminals of its derivations, and ε when it
/// derives the empty string.
pub open spec fn seq_first(f: Map<NonTerminal, Set<Symbol>>, rhs: Seq<Symbol>) -> Set<Symbol>
    decreases rhs.len(),
{
    if rhs.len() == 0 {
        set![Symbol::Epsilon]
    } else {
        match rhs[0] {
            Symbol::NonTerminal(n) => f[n].remove(Symbol::Epsilon) + if f[n].contains(
                Symbol::Epsilon,
            ) {
                seq_first(f, rhs.skip(1))
            } else {
                Set::empty()
            },
            other => set![other],
        }
    }
}

/// Every nonterminal of `rhs` has a set in `f`.
pub open spec fn covers(f: Map<NonTerminal, Set<Symbol>>, rhs: Seq<Symbol>) -> bool {
    forall|i: int| 0 <= i < rhs.len() ==> (#[trigger] rhs[i] matches Symbol::NonTerminal(n) ==> f.dom().contains(n))
}

/// `f` satisfies the FIRST constraints of `g`: every left-hand side has a
/// set, and it holds FIRST of each of its right-hand sides.
pub open spec fn first_closed(g: GrammarView, f: Map<NonTerminal, Set<Symbol>>) -> bool {
    forall|k: int|
        0 <= k < g.productions.len() ==> {
            &&& f.dom().contains(#[trigger] g.productions[k].lhs)
            &&& seq_first(f, g.productions[k].rhs).subset_of(f[g.productions[k].lhs])
        }
}

/// `a` is below `b`: every set of `a` is inside the set of `b` for the same
/// nonterminal.
pub open spec fn below(a: Map<NonTerminal, Set<Symbol>>, b: Map<NonTerminal, Set<Symbol>>) -> bool {
    forall|n: NonTerminal| #[trigger] a.dom().contains(n) ==> b.dom().contains(n) && a[n].subset_of(b[n])
}

/// The FIRST sets of `g`: the least sets, one for each nonterminal that has
/// a production, that satisfy the FIRST constraints.
pub open spec fn least_first(g: GrammarView) -> Map<NonTerminal, Set<Symbol>> {
    choose|f: Map<NonTerminal, Set<Symbol>>|
        f.dom() == lhs_set(g) && first_closed(g, f) && forall|h: Map<NonTerminal, Set<Symbol>>| #[trigger]
            first_closed(g, h) ==> below(f, h)
}

/// The FOLLOW sets of `g` given FIRST sets and the nullable nonterminals:
/// the least sets, one for each nonterminal that has a production, that
/// satisfy the FOLLOW constraints.
pub open spec fn least_follow(
    g: GrammarView,
    first: Map<NonTerminal, Set<Symbol>>,
    nullable: Set<NonTerminal>,
) -> Map<NonTerminal, Set<Symbol>> {
    choose|fo: Map<NonTerminal, Set<Symbol>>|
        fo.dom() == lhs_set(g) && follow_closed(g, first, nullable, fo) && forall|h: Map<NonTerminal, Set<Symbol>>| #[trigger]
            follow_closed(g, first, nullable, h) ==> below(fo, h)
}

/// Two families below each other over the same nonterminals are equal.
proof fn lemma_below_antisym(a: Map<NonTerminal, Set<Symbol>>, b: Map<NonTerminal, Set<Symbol>>)
    requires
        a.dom() == b.dom(),
        below(a, b),
        below(b, a),
    ensures
        a == b,
{
    assert forall|n: NonTerminal| #[trigger] a.dom().contains(n) implies a[n] == b[n] by {
        assert(a[n] =~= b[n]);
    }
    assert(a =~= b);
}

/// FIRST of a string grows with the FIRST sets it is computed from.
pub(crate) proof fn lemma_seq_first_mono(
    a: Map<NonTerminal, Set<Symbol>>,
    b: Map<NonTerminal, Set<Symbol>>,
    rhs: Seq<Symbol>,
)
    requires
        below(a, b),
        covers(a, rhs),
    ensures
        seq_first(a, rhs).subset_of(seq_first(b, rhs)),
    decreases rhs.len(),
{
    if rhs.len() > 0 {
        let rest = rhs.skip(1);
        assert forall|i: int| 0 <= i < rest.len() implies (#[trigger] rest[i] matches Symbol::NonTerminal(n) ==> a.dom().contains(n)) by {
            assert(rest[i] == rhs[i + 1]);
        }
        lemma_seq_first_mono(a, b, rest);
        if let Symbol::NonTerminal(n) = rhs[0] {
            assert(a.dom().contains(n));
        }
    }
}

/// FIRST of `rhs` from symbol `from` on, given the FIRST sets of the
/// nonterminals: the FIRST sets of its leading nonterminals without ε, as
/// long as they hold ε, then the first terminal; ε too if every symbol is a
/// nonterminal whose FIRST set holds ε.
fn suffix_first(first_set_map: &SymbolSets, rhs: &Vec<Symbol>, from: usize) -> (r: SymbolSet)
    requires
        first_set_map.wf(),
        covers(first_set_map@, rhs@),
        from <= rhs@.len(),
    ensures
        r@ == seq_first(first_set_map@, rhs@.skip(from as int)),
        r.size() <= slot_count(),
{
    let ghost f = first_set_map@;
    let ghost whole = rhs@.skip(from as int);
    let mut rhs_first = SymbolSet::new();
    let n = rhs.len();
    let mut i: usize = from;
    let mut all_nullable = true;
    while i < n
        invariant_except_break
            all_nullable,
        invariant
            n == rhs@.len(),
            whole == rhs@.skip(from as int),
            f == first_set_map@,
            first_set_map.wf(),
            covers(f, rhs@),
            from <= i <= n,
            rhs_first.size() <= slot_count(),
            seq_first(f, whole) == rhs_first@ + if all_nullable {
                seq_first(f, rhs@.skip(i as int))
            } else {
                Set::empty()
            },
        ensures
            rhs_first.size() <= slot_count(),
            seq_first(f, whole) == rhs_first@ + if all_nullable {
                set![Symbol::Epsilon]
            } else {
                Set::empty()
            },
        decreases n - i,
    {
        let ghost tail = rhs@.skip(i as int);
        assert(tail[0] == rhs@[i as int]);
        assert(tail.skip(1) =~= rhs@.skip(i + 1));
        match rhs[i] {
            Symbol::NonTerminal(nt) => {
                assert(rhs@[i as int] matches Symbol::NonTerminal(m) ==> f.dom().contains(m));
                let cur_first = match first_set_map.get(nt) {
                    Some(s) => s,
                    None => {
                        assert(false);
                        return SymbolSet::new();
                    },
                };
                rhs_first.extend_from(cur_first, false);
                assert(cur_first@.filter(|y: Symbol| false || y != Symbol::Epsilon) =~= f[nt].remove(
                    Symbol::Epsilon,
                ));
                if cur_first.contains(Symbol::Epsilon) {
                    i = i + 1;
                    assert(seq_first(f, whole) =~= rhs_first@ + seq_first(f, rhs@.skip(i as int)));
                    continue;
                }
                all_nullable = false;
                assert(seq_first(f, whole) =~= rhs_first@ + Set::<Symbol>::empty());
                break;
            },
            x => {
                rhs_first.insert(x);
                all_nullable = false;
                assert(seq_first(f, whole) =~= rhs_first@ + Set::<Symbol>::empty());
                break;
            },
        }
    }
    proof {
        if all_nullable {
            assert(rhs@.skip(n as int) =~= Seq::<Symbol>::empty());
        }
    }
    if all_nullable {
        rhs_first.insert(Symbol::Epsilon);
        assert(seq_first(f, whole) =~= rhs_first@);
    } else {
        assert(seq_first(f, whole) =~= rhs_first@);
    }
    rhs_first
}

/// FIRST of the right-hand side of `prod`, given the FIRST sets of the
/// nonterminals.
pub fn get_rhs_first(prod: &Production, first_set_map: &SymbolSets) -> (r: SymbolSet)
    requires
        first_set_map.wf(),
        covers(first_set_map@, prod.rhs@),
    ensures
        r@ == seq_first(first_set_map@, prod.rhs@),
        r.size() <= slot_count(),
{
    assert(prod.rhs@.skip(0) =~= prod.rhs@);
    suffix_first(first_set_map, &prod.rhs, 0)
}

/// The FIRST sets of the nonterminals of `grammar`: the least sets that
/// satisfy the FIRST constraints, one for each nonterminal that has a
/// production.
pub fn get_first_set(grammar: &Grammar) -> (r: SymbolSets)
    requires
        well_formed(grammar@),
    ensures
        r.wf(),
        r@.dom() == lhs_set(grammar@),
        first_closed(grammar@, r@),
        forall|f: Map<NonTerminal, Set<Symbol>>| #[trigger] first_closed(grammar@, f) ==> below(r@, f),
        r@ == least_first(grammar@),
{
    let ghost g = grammar@;
    let mut first_set_map = SymbolSets::new();
    let n = grammar.productions.len();
    let mut k: usize = 0;
    while k < n
        invariant
            g == grammar@,
            n == g.productions.len(),
            k <= n,
            first_set_map.wf(),
            forall|m: NonTerminal| #[trigger] first_set_map@.dom().contains(m) <==> exists|j: int|
                0 <= j < k && #[trigger] g.productions[j].lhs == m,
            forall|m: NonTerminal| #[trigger] first_set_map@.dom().contains(m) ==> first_set_map@[m]
                == Set::<Symbol>::empty(),
        decreases n - k,
    {
        let lhs = grammar.productions[k].lhs;
        assert(g.productions[k as int].lhs == lhs);
        if first_set_map.get(lhs).is_none() {
            first_set_map.put(lhs, SymbolSet::new());
        }
        k = k + 1;
    }
    assert(first_set_map@.dom() =~= lhs_set(g));
    assert forall|f: Map<NonTerminal, Set<Symbol>>| #[trigger] first_closed(g, f) implies below(first_set_map@, f) by {
        assert forall|m: NonTerminal| #[trigger] first_set_map@.dom().contains(m) implies f.dom().contains(m) && first_set_map@[m].subset_of(f[m]) by {
            assert(lhs_set(g).contains(m));
            let j = choose|j: int| 0 <= j < g.productions.len() && #[trigger] g.productions[j].lhs == m;
            assert(f.dom().contains(g.productions[j].lhs));
        }
    }
    loop
        invariant
            g == grammar@,
            well_formed(g),
            n == g.productions.len(),
            first_set_map.wf(),
            first_set_map@.dom() == lhs_set(g),
            forall|f: Map<NonTerminal, Set<Symbol>>| #[trigger] first_closed(g, f) ==> below(first_set_map@, f),
        ensures
            first_set_map.wf(),
            first_set_map@.dom() == lhs_set(g),
            first_closed(g, first_set_map@),
            forall|f: Map<NonTerminal, Set<Symbol>>| #[trigger] first_closed(g, f) ==> below(first_set_map@, f),
        decreases nonterminal_count() * slot_count() - first_set_map.total(),
    {
        first_set_map.check_total();
        let ghost start_total = first_set_map.total();
        let ghost start_map = first_set_map@;
        let mut changed = false;
        let mut k: usize = 0;
        while k < n
            invariant
                g == grammar@,
                well_formed(g),
                n == g.productions.len(),
                k <= n,
                first_set_map.wf(),
                first_set_map@.dom() == lhs_set(g),
                forall|f: Map<NonTerminal, Set<Symbol>>| #[trigger] first_closed(g, f) ==> below(first_set_map@, f),
                first_set_map.total() >= start_total,
                changed ==> first_set_map.total() > start_total,
                !changed ==> first_set_map@ == start_map,
                !changed ==> forall|j: int|
                    0 <= j < k ==> seq_first(first_set_map@, #[trigger] g.productions[j].rhs).subset_of(
                        first_set_map@[g.productions[j].lhs],
                    ),
            decreases n - k,
        {
            let prod = &grammar.productions[k];
            let ghost map0 = first_set_map@;
            assert(g.productions[k as int] == prod@);
            assert(lhs_set(g).contains(prod.lhs));
            assert(covers(map0, prod.rhs@)) by {
                assert forall|i: int| 0 <= i < prod.rhs@.len() implies (#[trigger] prod.rhs@[i] matches Symbol::NonTerminal(m) ==> map0.dom().contains(m)) by {
                    let sym = g.productions[k as int].rhs[i];
                    assert(sym == prod.rhs@[i]);
                    assert(rhs_symbol_ok(g, sym));
                }
            }
            let cur = match first_set_map.get(prod.lhs) {
                Some(s) => s,
                None => {
                    assert(false);
                    return SymbolSets::new();
                },
            };
            let mut lhs_first = cur.copy();
            let rhs_first = get_rhs_first(prod, &first_set_map);
            let grew = lhs_first.extend_from(&rhs_first, true);
            assert(rhs_first@.filter(|y: Symbol| true || y != Symbol::Epsilon) =~= rhs_first@);
            let ghost new_set = lhs_first@;
            first_set_map.put(prod.lhs, lhs_first);
            proof {
                assert forall|f: Map<NonTerminal, Set<Symbol>>| #[trigger] first_closed(g, f) implies below(first_set_map@, f) by {
                    assert(below(map0, f));
                    lemma_seq_first_mono(map0, f, prod.rhs@);
                    assert(f.dom().contains(g.productions[k as int].lhs));
                    assert(seq_first(f, g.productions[k as int].rhs).subset_of(f[g.productions[k as int].lhs]));
                    assert forall|m: NonTerminal| #[trigger] first_set_map@.dom().contains(m) implies f.dom().contains(m) && first_set_map@[m].subset_of(f[m]) by {
                        if m != prod.lhs {
                            assert(map0.dom().contains(m));
                        }
                    }
                }
                if !grew {
                    assert(first_set_map@ =~= map0);
                }
            }
            if grew {
                changed = true;
            }
            k = k + 1;
        }
        first_set_map.check_total();
        if !changed {
            break;
        }
    }
    proof {
        let c = least_first(g);
        assert(c.dom() == lhs_set(g) && first_closed(g, c) && forall|h: Map<NonTerminal, Set<Symbol>>| #[trigger]
            first_closed(g, h) ==> below(c, h));
        lemma_below_antisym(first_set_map@, c);
    }
    first_set_map
}


/// Every symbol of `s` is a nonterminal in `nullable`.
pub open spec fn all_in(nullable: Set<NonTerminal>, s: Seq<Symbol>) -> bool {
    forall|j: int|
        0 <= j < s.len() ==> (#[trigger] s[j] matches Symbol::NonTerminal(n) && nullable.contains(n))
}

/// The FOLLOW constraints of symbol `i` of production `k`, if it is a
/// nonterminal `B`: FOLLOW(B) holds FIRST of what follows it (without ε),
/// and, when all that follows derives the empty string, FOLLOW of the
/// left-hand side.
pub open spec fn occurrence_ok(
    g: GrammarView,
    first: Map<NonTerminal, Set<Symbol>>,
    nullable: Set<NonTerminal>,
    fo: Map<NonTerminal, Set<Symbol>>,
    k: int,
    i: int,
) -> bool {
    let rhs = g.productions[k].rhs;
    rhs[i] matches Symbol::NonTerminal(b) ==> {
        &&& seq_first(first, rhs.skip(i + 1)).remove(Symbol::Epsilon).subset_of(fo[b])
        &&& all_in(nullable, rhs.skip(i + 1)) ==> fo[g.productions[k].lhs].subset_of(fo[b])
    }
}

/// `fo` satisfies the FOLLOW constraints of `g`: every nonterminal of the
/// grammar has a set, FOLLOW of the start symbol holds the end marker, and
/// every occurrence of a nonterminal on a right-hand side meets its
/// constraints.
pub open spec fn follow_closed(
    g: GrammarView,
    first: Map<NonTerminal, Set<Symbol>>,
    nullable: Set<NonTerminal>,
    fo: Map<NonTerminal, Set<Symbol>>,
) -> bool {
    &&& lhs_set(g).subset_of(fo.dom())
    &&& fo[g.start].contains(Symbol::Terminal(Terminal::End))
    &&& forall|k: int, i: int|
        0 <= k < g.productions.len() && 0 <= i < g.productions[k].rhs.len() ==> #[trigger] occurrence_ok(
            g,
            first,
            nullable,
            fo,
            k,
            i,
        )
}

/// Whether every symbol of `rhs` from `from` on is a nonterminal in `nullable`.
fn suffix_all_nullable(nullable: &NonTerminalSet, rhs: &Vec<Symbol>, from: usize) -> (b: bool)
    requires
        from <= rhs@.len(),
    ensures
        b == all_in(nullable@, rhs@.skip(from as int)),
{
    let ghost s = rhs@.skip(from as int);
    let n = rhs.len();
    let mut j: usize = from;
    while j < n
        invariant
            n == rhs@.len(),
            from <= j <= n,
            s == rhs@.skip(from as int),
            forall|x: int| 0 <= x < j - from ==> (#[trigger] s[x] matches Symbol::NonTerminal(m) && nullable@.contains(m)),
        decreases n - j,
    {
        assert(s[j - from] == rhs@[j as int]);
        let ok = match rhs[j] {
            Symbol::NonTerminal(m) => nullable.contains(m),
            _ => false,
        };
        if !ok {
            return false;
        }
        j = j + 1;
    }
    true
}

/// The FOLLOW sets of the nonterminals of `grammar`, given FIRST sets: the
/// least sets that satisfy the FOLLOW constraints, with the nonterminals
/// that derive the empty string as `nullable_nonterminal` finds them.
pub fn get_follow_set(grammar: &Grammar, first_set: &SymbolSets) -> (r: SymbolSets)
    requires
        well_formed(grammar@),
        lhs_set(grammar@).contains(grammar@.start),
        first_set.wf(),
        lhs_set(grammar@).subset_of(first_set@.dom()),
    ensures
        r.wf(),
        r@.dom() == lhs_set(grammar@),
        follow_closed(grammar@, first_set@, least_nullable(grammar@), r@),
        forall|fo: Map<NonTerminal, Set<Symbol>>| #[trigger]
            follow_closed(grammar@, first_set@, least_nullable(grammar@), fo) ==> below(r@, fo),
        r@ == least_follow(grammar@, first_set@, least_nullable(grammar@)),
{
    let ghost g = grammar@;
    let ghost first = first_set@;
    let mut follow_set = SymbolSets::new();
    let n = grammar.productions.len();
    let mut k: usize = 0;
    while k < n
        invariant
            g == grammar@,
            well_formed(g),
            n == g.productions.len(),
            k <= n,
            follow_set.wf(),
            forall|m: NonTerminal| #[trigger] follow_set@.dom().contains(m) ==> lhs_set(g).contains(m),
            forall|j: int| 0 <= j < k ==> follow_set@.dom().contains(#[trigger] g.productions[j].lhs),
            forall|m: NonTerminal| #[trigger] follow_set@.dom().contains(m) ==> follow_set@[m]
                == Set::<Symbol>::empty(),
        decreases n - k,
    {
        let prod = &grammar.productions[k];
        assert(g.productions[k as int] == prod@);
        assert(g.productions[k as int].lhs == prod.lhs);
        assert(lhs_set(g).contains(prod.lhs));
        if follow_set.get(prod.lhs).is_none() {
            follow_set.put(prod.lhs, SymbolSet::new());
        }
        let len = prod.rhs.len();
        let mut i: usize = 0;
        while i < len
            invariant
                g == grammar@,
                well_formed(g),
                k < n,
                n == g.productions.len(),
                g.productions[k as int] == prod@,
                len == prod.rhs@.len(),
                i <= len,
                follow_set.wf(),
                forall|m: NonTerminal| #[trigger] follow_set@.dom().contains(m) ==> lhs_set(g).contains(m),
                forall|j: int| 0 <= j <= k ==> follow_set@.dom().contains(#[trigger] g.productions[j].lhs),
                forall|m: NonTerminal| #[trigger] follow_set@.dom().contains(m) ==> follow_set@[m]
                    == Set::<Symbol>::empty(),
            decreases len - i,
        {
            if let Symbol::NonTerminal(nt) = prod.rhs[i] {
                assert(rhs_symbol_ok(g, g.productions[k as int].rhs[i as int]));
                if follow_set.get(nt).is_none() {
                    follow_set.put(nt, SymbolSet::new());
                }
            }
            i = i + 1;
        }
        k = k + 1;
    }
    assert(follow_set@.dom() =~= lhs_set(g)) by {
        assert forall|m: NonTerminal| lhs_set(g).contains(m) implies #[trigger] follow_set@.dom().contains(m) by {
            let j = choose|j: int| 0 <= j < g.productions.len() && #[trigger] g.productions[j].lhs == m;
        }
    }
    let mut start_follow = match follow_set.get(grammar.start) {
        Some(s) => s.copy(),
        None => {
            assert(false);
            return SymbolSets::new();
        },
    };
    start_follow.insert(Symbol::Terminal(Terminal::End));
    follow_set.put(grammar.start, start_follow);
    let nullable_set = grammar.nullable_nonterminal();
    let ghost nl = least_nullable(g);
    assert forall|fo: Map<NonTerminal, Set<Symbol>>| #[trigger] follow_closed(g, first, nl, fo) implies below(follow_set@, fo) by {
        assert forall|m: NonTerminal| #[trigger] follow_set@.dom().contains(m) implies fo.dom().contains(m) && follow_set@[m].subset_of(fo[m]) by {
            assert(lhs_set(g).contains(m));
        }
    }
    loop
        invariant
            g == grammar@,
            first == first_set@,
            first_set.wf(),
            lhs_set(g).subset_of(first.dom()),
            well_formed(g),
            n == g.productions.len(),
            nl == least_nullable(g),
            nullable_set@ == nl,
            follow_set.wf(),
            follow_set@.dom() == lhs_set(g),
            follow_set@[g.start].contains(Symbol::Terminal(Terminal::End)),
            forall|fo: Map<NonTerminal, Set<Symbol>>| #[trigger] follow_closed(g, first, nl, fo) ==> below(follow_set@, fo),
        ensures
            follow_set.wf(),
            follow_set@.dom() == lhs_set(g),
            follow_closed(g, first, nl, follow_set@),
            forall|fo: Map<NonTerminal, Set<Symbol>>| #[trigger] follow_closed(g, first, nl, fo) ==> below(follow_set@, fo),
        decreases nonterminal_count() * slot_count() - follow_set.total(),
    {
        follow_set.check_total();
        let ghost start_total = follow_set.total();
        let ghost start_map = follow_set@;
        let mut changed = false;
        let mut k: usize = 0;
        while k < n
            invariant
                g == grammar@,
                first == first_set@,
                first_set.wf(),
                lhs_set(g).subset_of(first.dom()),
                well_formed(g),
                n == g.productions.len(),
                nl == least_nullable(g),
                nullable_set@ == nl,
                k <= n,
                follow_set.wf(),
                follow_set@.dom() == lhs_set(g),
                follow_set@[g.start].contains(Symbol::Terminal(Terminal::End)),
                forall|fo: Map<NonTerminal, Set<Symbol>>| #[trigger] follow_closed(g, first, nl, fo) ==> below(follow_set@, fo),
                follow_set.total() >= start_total,
                changed ==> follow_set.total() > start_total,
                !changed ==> follow_set@ == start_map,
                !changed ==> forall|j: int, i: int|
                    0 <= j < k && 0 <= i < g.productions[j].rhs.len() ==> #[trigger] occurrence_ok(
                        g,
                        first,
                        nl,
                        follow_set@,
                        j,
                        i,
                    ),
            decreases n - k,
        {
            let prod = &grammar.productions[k];
            assert(g.productions[k as int] == prod@);
            assert(g.productions[k as int].lhs == prod.lhs);
            assert(lhs_set(g).contains(prod.lhs));
            let lhs_follow = match follow_set.get(prod.lhs) {
                Some(s) => s.copy(),
                None => {
                    assert(false);
                    return SymbolSets::new();
                },
            };
            let ghost map_k = follow_set@;
            assert(covers(first, prod.rhs@)) by {
                assert forall|x: int| 0 <= x < prod.rhs@.len() implies (#[trigger] prod.rhs@[x] matches Symbol::NonTerminal(m) ==> first.dom().contains(m)) by {
                    let sym = g.productions[k as int].rhs[x];
                    assert(sym == prod.rhs@[x]);
                    assert(rhs_symbol_ok(g, sym));
                }
            }
            let len = prod.rhs.len();
            let mut i: usize = len;
            while i > 0
                invariant
                    g == grammar@,
                    first == first_set@,
                    first_set.wf(),
                    covers(first, prod.rhs@),
                    well_formed(g),
                    k < n,
                    n == g.productions.len(),
                    g.productions[k as int] == prod@,
                    nl == least_nullable(g),
                    nullable_set@ == nl,
                    len == prod.rhs@.len(),
                    i <= len,
                    lhs_follow@ == map_k[prod.lhs],
                    map_k.dom() == lhs_set(g),
                    lhs_set(g).contains(prod.lhs),
                    !changed ==> map_k == start_map,
                    follow_set.wf(),
                    follow_set@.dom() == lhs_set(g),
                    follow_set@[g.start].contains(Symbol::Terminal(Terminal::End)),
                    forall|fo: Map<NonTerminal, Set<Symbol>>| #[trigger] follow_closed(g, first, nl, fo) ==> below(follow_set@, fo),
                    forall|fo: Map<NonTerminal, Set<Symbol>>| #[trigger] follow_closed(g, first, nl, fo) ==> below(map_k, fo),
                    follow_set.total() >= start_total,
                    changed ==> follow_set.total() > start_total,
                    !changed ==> follow_set@ == start_map,
                    !changed ==> forall|j: int, x: int|
                        0 <= j < k && 0 <= x < g.productions[j].rhs.len() ==> #[trigger] occurrence_ok(
                            g,
                            first,
                            nl,
                            follow_set@,
                            j,
                            x,
                        ),
                    !changed ==> forall|x: int|
                        i <= x < len ==> #[trigger] occurrence_ok(g, first, nl, follow_set@, k as int, x),
                decreases i,
            {
                i = i - 1;
                if let Symbol::NonTerminal(nt) = prod.rhs[i] {
                    assert(rhs_symbol_ok(g, g.productions[k as int].rhs[i as int]));
                    let mut nt_follow = match follow_set.get(nt) {
                        Some(s) => s.copy(),
                        None => {
                            assert(false);
                            return SymbolSets::new();
                        },
                    };
                    let ghost old_set = nt_follow@;
                    let after_first = suffix_first(first_set, &prod.rhs, i + 1);
                    let grew1 = nt_follow.extend_from(&after_first, false);
                    let all_nullable = suffix_all_nullable(&nullable_set, &prod.rhs, i + 1);
                    let mut grew2 = false;
                    if all_nullable {
                        grew2 = nt_follow.extend_from(&lhs_follow, true);
                    }
                    let ghost new_set = nt_follow@;
                    let ghost before = follow_set@;
                    let grew = grew1 || grew2;
                    follow_set.put(nt, nt_follow);
                    proof {
                        let rest = prod.rhs@.skip(i + 1);
                        let fpart = seq_first(first, rest).remove(Symbol::Epsilon);
                        assert(after_first@.filter(|y: Symbol| false || y != Symbol::Epsilon) =~= fpart);
                        assert(lhs_follow@.filter(|y: Symbol| true || y != Symbol::Epsilon) =~= lhs_follow@);
                        assert(g.productions[k as int].rhs[i as int] == Symbol::NonTerminal(nt));
                        assert(g.productions[k as int].rhs.skip(i + 1) == rest);
                        assert(new_set == old_set + fpart + if all_nullable {
                            lhs_follow@
                        } else {
                            Set::empty()
                        });
                        assert(old_set == before[nt]);
                        assert forall|fo: Map<NonTerminal, Set<Symbol>>| #[trigger] follow_closed(g, first, nl, fo) implies below(follow_set@, fo) by {
                            assert(below(before, fo));
                            assert(below(map_k, fo));
                            assert(occurrence_ok(g, first, nl, fo, k as int, i as int));
                            assert(fpart.subset_of(fo[nt]));
                            assert(before.dom().contains(nt));
                            assert(before[nt].subset_of(fo[nt]));
                            if all_nullable {
                                assert(all_in(nl, rest));
                                assert(map_k.dom().contains(prod.lhs));
                                assert(fo[prod.lhs].subset_of(fo[nt]));
                            }
                            assert(new_set.subset_of(fo[nt]));
                            assert forall|m: NonTerminal| #[trigger] follow_set@.dom().contains(m) implies fo.dom().contains(m) && follow_set@[m].subset_of(fo[m]) by {
                                if m != nt {
                                    assert(before.dom().contains(m));
                                }
                            }
                        }
                        if !grew && !changed {
                            assert(follow_set@ =~= before);
                            assert(new_set == old_set);
                            assert(fpart.subset_of(before[nt]));
                            if all_nullable {
                                assert(lhs_follow@.subset_of(before[nt]));
                            }
                            assert(occurrence_ok(g, first, nl, follow_set@, k as int, i as int));
                        }
                    }
                    if grew {
                        changed = true;
                    }
                }
            }
            k = k + 1;
        }
        follow_set.check_total();
        if !changed {
            break;
        }
    }
    proof {
        let c = least_follow(g, first, nl);
        assert(c.dom() == lhs_set(g) && follow_closed(g, first, nl, c) && forall|h: Map<NonTerminal, Set<Symbol>>| #[trigger]
            follow_closed(g, first, nl, h) ==> below(c, h));
        lemma_below_antisym(follow_set@, c);
    }
    follow_set
}


/// The slot of the table entry for `(n, t)`.
pub open spec fn entry_slot(n: NonTerminal, t: Terminal) -> int {
    nonterminal_index(n) * 28 + terminal_index(t)
}

proof fn lemma_entry_slot(a: NonTerminal, b: Terminal, c: NonTerminal, d: Terminal)
    ensures
        0 <= entry_slot(a, b) < 784,
        entry_slot(a, b) == entry_slot(c, d) ==> a == c && b == d,
{
    lemma_nonterminal_index(a);
    lemma_nonterminal_index(c);
    lemma_terminal_index(b);
    lemma_terminal_index(d);
}

/// An LL(1) parse table: at most one production for each pair of a
/// nonterminal and a lookahead terminal.
pub struct ParseTable {
    entries: Vec<Option<Production>>,
    keys: Ghost<Set<(NonTerminal, Terminal)>>,
}

/// Which slots of the table hold an entry.
pub open spec fn filled_slots(entries: Seq<Option<Production>>) -> Seq<bool> {
    entries.map_values(|o: Option<Production>| o is Some)
}

impl View for ParseTable {
    type V = Map<(NonTerminal, Terminal), ProductionView>;

    closed spec fn view(&self) -> Map<(NonTerminal, Terminal), ProductionView> {
        Map::new(
            |key: (NonTerminal, Terminal)| self.entries@[entry_slot(key.0, key.1)] is Some,
            |key: (NonTerminal, Terminal)| self.entries@[entry_slot(key.0, key.1)]->0@,
        )
    }
}

impl ParseTable {
    /// One slot per pair.
    pub closed spec fn wf(&self) -> bool {
        &&& self.entries@.len() == 784
        &&& self.keys@ == self@.dom()
        &&& self.keys@.finite()
        &&& self.keys@.len() == count_true(filled_slots(self.entries@))
    }

    /// The empty table.
    pub fn new() -> (t: Self)
        ensures
            t.wf(),
            t@ == Map::<(NonTerminal, Terminal), ProductionView>::empty(),
    {
        let mut entries: Vec<Option<Production>> = Vec::new();
        let mut k: usize = 0;
        while k < 784
            invariant
                k <= 784,
                entries@.len() == k,
                forall|i: int| 0 <= i < k ==> entries@[i] is None,
            decreases 784 - k,
        {
            entries.push(None);
            k = k + 1;
        }
        let t = ParseTable { entries, keys: Ghost(Set::empty()) };
        assert forall|key: (NonTerminal, Terminal)| !t@.dom().contains(key) by {
            lemma_entry_slot(key.0, key.1, key.0, key.1);
        }
        assert(t@ =~= Map::<(NonTerminal, Terminal), ProductionView>::empty());
        assert(t@.dom() =~= Set::<(NonTerminal, Terminal)>::empty());
        proof {
            lemma_no_filled(t.entries@);
        }
        t
    }

    /// The production for nonterminal `n` and lookahead `t`, if any.
    pub fn get(&self, n: NonTerminal, t: Terminal) -> (r: Option<&Production>)
        requires
            self.wf(),
        ensures
            match r {
                Some(p) => self@.dom().contains((n, t)) && p@ == self@[(n, t)],
                None => !self@.dom().contains((n, t)),
            },
    {
        proof {
            lemma_entry_slot(n, t, n, t);
        }
        match &self.entries[n.index() * 28 + t.index()] {
            Some(p) => Some(p),
            None => None,
        }
    }

    /// Sets the production for `n` and `t`.
    fn put(&mut self, n: NonTerminal, t: Terminal, p: Production)
        requires
            old(self).wf(),
        ensures
            final(self).wf(),
            final(self)@ == old(self)@.insert((n, t), p@),
    {
        proof {
            lemma_entry_slot(n, t, n, t);
        }
        let i = n.index() * 28 + t.index();
        let ghost pv = p@;
        let ghost old_entries = self.entries@;
        let ghost was_new = !old(self)@.dom().contains((n, t));
        self.entries.set(i, Some(p));
        proof {
            let f0 = filled_slots(old_entries);
            let f1 = filled_slots(self.entries@);
            if was_new {
                assert(f1 =~= f0.update(i as int, true));
                lemma_count_set(f0, i as int);
                self.keys@ = self.keys@.insert((n, t));
            } else {
                assert(f1 =~= f0);
            }
            assert forall|key: (NonTerminal, Terminal)| #![auto] self@.dom().contains(key) == old(self)@.insert((n, t), pv).dom().contains(key) by {
                lemma_entry_slot(key.0, key.1, n, t);
            }
            assert forall|key: (NonTerminal, Terminal)| #![auto] self@.dom().contains(key) implies self@[key] == old(self)@.insert((n, t), pv)[key] by {
                lemma_entry_slot(key.0, key.1, n, t);
            }
            assert(self@ =~= old(self)@.insert((n, t), pv));
            assert(self.keys@ =~= self@.dom());
        }
    }

    /// The number of entries.
    pub fn len(&self) -> (r: usize)
        requires
            self.wf(),
        ensures
            r == self@.dom().len(),
    {
        let mut count: usize = 0;
        let mut k: usize = 0;
        while k < self.entries.len()
            invariant
                self.wf(),
                k <= self.entries@.len(),
                count == count_true(filled_slots(self.entries@).take(k as int)),
                count <= k,
            decreases self.entries@.len() - k,
        {
            let ghost f = filled_slots(self.entries@);
            assert(f.take(k + 1).drop_last() =~= f.take(k as int));
            if self.entries[k].is_some() {
                count = count + 1;
            }
            k = k + 1;
        }
        assert(filled_slots(self.entries@).take(k as int) =~= filled_slots(self.entries@));
        count
    }

    /// Whether there is an entry for nonterminal `n` and lookahead `t`.
    pub fn contains_key(&self, n: NonTerminal, t: Terminal) -> (b: bool)
        requires
            self.wf(),
        ensures
            b == self@.dom().contains((n, t)),
    {
        self.get(n, t).is_some()
    }
}

/// A table with no slot filled counts no entry.
proof fn lemma_no_filled(entries: Seq<Option<Production>>)
    requires
        forall|i: int| 0 <= i < entries.len() ==> entries[i] is None,
    ensures
        count_true(filled_slots(entries)) == 0,
    decreases entries.len(),
{
    if entries.len() > 0 {
        assert(filled_slots(entries).drop_last() =~= filled_slots(entries.drop_last()));
        lemma_no_filled(entries.drop_last());
    }
}

/// The table entries that production `k` asks for from the set `s`, for the
/// terminals before `upto` (in declaration order): `(lhs, t, k)` for each
/// terminal `t` in `s`.
pub open spec fn cands(lhs: NonTerminal, k: int, s: Set<Symbol>, upto: int) -> Seq<
    (NonTerminal, Terminal, int),
>
    decreases upto,
{
    if upto <= 0 {
        Seq::empty()
    } else {
        cands(lhs, k, s, upto - 1) + if s.contains(Symbol::Terminal(all_terminals()[upto - 1])) {
            seq![(lhs, all_terminals()[upto - 1], k)]
        } else {
            Seq::empty()
        }
    }
}

/// The table entries that production `k` asks for: one for each terminal in
/// FIRST of its right-hand side, and, when that FIRST holds ε, one for each
/// terminal in FOLLOW of its left-hand side.
pub open spec fn prod_cands(
    g: GrammarView,
    f: Map<NonTerminal, Set<Symbol>>,
    fo: Map<NonTerminal, Set<Symbol>>,
    k: int,
) -> Seq<(NonTerminal, Terminal, int)> {
    let p = g.productions[k];
    let rf = seq_first(f, p.rhs);
    cands(p.lhs, k, rf, 28) + if rf.contains(Symbol::Epsilon) {
        cands(p.lhs, k, fo[p.lhs], 28)
    } else {
        Seq::empty()
    }
}

/// The table entries that the first `k` productions ask for, in order.
pub open spec fn all_cands(
    g: GrammarView,
    f: Map<NonTerminal, Set<Symbol>>,
    fo: Map<NonTerminal, Set<Symbol>>,
    k: int,
) -> Seq<(NonTerminal, Terminal, int)>
    decreases k,
{
    if k <= 0 {
        Seq::empty()
    } else {
        all_cands(g, f, fo, k - 1) + prod_cands(g, f, fo, k - 1)
    }
}

/// Filling the entries in order: the production index of each entry, or
/// the first entry asked for twice, with the production that holds it and
/// the one that asks again.
pub open spec fn fill(cs: Seq<(NonTerminal, Terminal, int)>) -> Result<
    Map<(NonTerminal, Terminal), int>,
    (NonTerminal, Terminal, int, int),
>
    decreases cs.len(),
{
    if cs.len() == 0 {
        Ok(Map::empty())
    } else {
        match fill(cs.drop_last()) {
            Err(e) => Err(e),
            Ok(m) => {
                let (a, t, k) = cs.last();
                if m.dom().contains((a, t)) {
                    Err((a, t, m[(a, t)], k))
                } else {
                    Ok(m.insert((a, t), k))
                }
            },
        }
    }
}

/// The message of an LL(1) conflict.
pub open spec fn conflict_text(
    a: NonTerminal,
    t: Terminal,
    held: ProductionView,
    asked: ProductionView,
) -> Seq<char> {
    "LL(1) 冲突: 表项 ("@ + crate::symbol::nonterminal_name(a) + ", "@ + crate::symbol::terminal_text(t)
        + ") 同时对应 `"@ + production_text(held) + "` 和 `"@ + production_text(asked) + "`"@
}


/// `table` holds, for each entry filled, the production whose index `m`
/// records.
pub open spec fn table_is(
    table: Map<(NonTerminal, Terminal), ProductionView>,
    g: GrammarView,
    m: Map<(NonTerminal, Terminal), int>,
) -> bool {
    &&& table.dom() == m.dom()
    &&& forall|key: (NonTerminal, Terminal)| #[trigger]
        m.dom().contains(key) ==> 0 <= m[key] < g.productions.len() && table[key]
            == g.productions[m[key]]
}

/// Once filling stops at an entry asked for twice, more entries change
/// nothing.
proof fn lemma_fill_err(cs: Seq<(NonTerminal, Terminal, int)>, more: Seq<(NonTerminal, Terminal, int)>)
    requires
        fill(cs) is Err,
    ensures
        fill(cs + more) == fill(cs),
    decreases more.len(),
{
    if more.len() > 0 {
        lemma_fill_err(cs, more.drop_last());
        assert((cs + more).drop_last() =~= cs + more.drop_last());
    } else {
        assert(cs + more =~= cs);
    }
}

/// The entries of the first `k` productions come first.
pub(crate) proof fn lemma_all_cands_prefix(
    g: GrammarView,
    f: Map<NonTerminal, Set<Symbol>>,
    fo: Map<NonTerminal, Set<Symbol>>,
    k: int,
    n: int,
)
    requires
        0 <= k <= n,
    ensures
        all_cands(g, f, fo, n) == all_cands(g, f, fo, k) + all_cands(g, f, fo, n).skip(
            all_cands(g, f, fo, k).len() as int,
        ),
        all_cands(g, f, fo, k).len() <= all_cands(g, f, fo, n).len(),
    decreases n,
{
    if k < n {
        lemma_all_cands_prefix(g, f, fo, k, n - 1);
        assert(all_cands(g, f, fo, n) =~= all_cands(g, f, fo, k) + all_cands(g, f, fo, n).skip(
            all_cands(g, f, fo, k).len() as int,
        ));
    } else {
        assert(all_cands(g, f, fo, n).skip(all_cands(g, f, fo, k).len() as int) =~= Seq::<
            (NonTerminal, Terminal, int),
        >::empty());
        assert(all_cands(g, f, fo, n) =~= all_cands(g, f, fo, k) + Seq::<
            (NonTerminal, Terminal, int),
        >::empty());
    }
}


/// The entries asked for up to terminal `a` come first among all of them.
proof fn lemma_cands_split(lhs: NonTerminal, k: int, s: Set<Symbol>, a: int)
    requires
        0 <= a <= 28,
    ensures
        cands(lhs, k, s, 28) == cands(lhs, k, s, a) + cands(lhs, k, s, 28).skip(
            cands(lhs, k, s, a).len() as int,
        ),
    decreases 28 - a,
{
    if a < 28 {
        lemma_cands_split(lhs, k, s, a + 1);
        assert(cands(lhs, k, s, 28) =~= cands(lhs, k, s, a) + cands(lhs, k, s, 28).skip(
            cands(lhs, k, s, a).len() as int,
        ));
    } else {
        assert(cands(lhs, k, s, 28).skip(cands(lhs, k, s, 28).len() as int) =~= Seq::<
            (NonTerminal, Terminal, int),
        >::empty());
        assert(cands(lhs, k, s, 28) =~= cands(lhs, k, s, 28) + Seq::<
            (NonTerminal, Terminal, int),
        >::empty());
    }
}

/// The message of an LL(1) conflict at `(a, t)`.
fn conflict_message(a: NonTerminal, t: Terminal, held: &Production, asked: &Production) -> (s: String)
    ensures
        s@ == conflict_text(a, t, held@, asked@),
{
    let mut s = String::from_str("LL(1) 冲突: 表项 (");
    s.append(a.as_text());
    s.append(", ");
    s.append(t.as_text());
    s.append(") 同时对应 `");
    s.append(held.to_string().as_str());
    s.append("` 和 `");
    s.append(asked.to_string().as_str());
    s.append("`");
    s
}

/// Fills the entries that production `k` asks for from `set`, after the
/// entries `done`.
fn fill_entries(
    table: &mut ParseTable,
    grammar: &Grammar,
    k: usize,
    set: &SymbolSet,
    Ghost(done): Ghost<Seq<(NonTerminal, Terminal, int)>>,
) -> (r: Result<(), String>)
    requires
        old(table).wf(),
        k < grammar@.productions.len(),
        fill(done) matches Ok(m) && table_is(old(table)@, grammar@, m),
    ensures
        final(table).wf(),
        match r {
            Ok(()) => fill(done + cands(grammar@.productions[k as int].lhs, k as int, set@, 28)) matches Ok(
                m,
            ) && table_is(final(table)@, grammar@, m),
            Err(msg) => fill(done + cands(grammar@.productions[k as int].lhs, k as int, set@, 28)) matches Err(
                (a, t, k1, k2),
            ) && 0 <= k1 < grammar@.productions.len() && 0 <= k2 < grammar@.productions.len()
                && msg@ == conflict_text(a, t, grammar@.productions[k1], grammar@.productions[k2]),
        },
{
    let ghost g = grammar@;
    let prod = &grammar.productions[k];
    assert(g.productions[k as int] == prod@);
    let terms = Terminal::all();
    let mut ti: usize = 0;
    while ti < 28
        invariant
            g == grammar@,
            k < g.productions.len(),
            g.productions[k as int] == prod@,
            terms@ == all_terminals(),
            ti <= 28,
            table.wf(),
            fill(done + cands(prod.lhs, k as int, set@, ti as int)) matches Ok(m) && table_is(
                table@,
                g,
                m,
            ),
        decreases 28 - ti,
    {
        let t = terms[ti];
        let ghost before = done + cands(prod.lhs, k as int, set@, ti as int);
        let ghost after = done + cands(prod.lhs, k as int, set@, ti + 1);
        if set.contains(Symbol::Terminal(t)) {
            assert(after =~= before.push((prod.lhs, t, k as int)));
            assert(after.drop_last() =~= before);
            match table.get(prod.lhs, t) {
                Some(existing) => {
                    let msg = conflict_message(prod.lhs, t, existing, prod);
                    proof {
                        let m = fill(before)->Ok_0;
                        assert(m.dom().contains((prod.lhs, t)));
                        let rest = cands(prod.lhs, k as int, set@, 28).skip(
                            cands(prod.lhs, k as int, set@, ti + 1).len() as int,
                        );
                        lemma_fill_err(after, rest);
                        lemma_cands_split(prod.lhs, k as int, set@, ti + 1);
                        assert(done + cands(prod.lhs, k as int, set@, 28) =~= after + rest);
                    }
                    return Err(msg);
                },
                None => {},
            }
            let ghost m0 = fill(before)->Ok_0;
            table.put(prod.lhs, t, prod.clone());
            proof {
                assert(fill(after) == Ok::<Map<(NonTerminal, Terminal), int>, (NonTerminal, Terminal, int, int)>(m0.insert((prod.lhs, t), k as int)));
                assert forall|key: (NonTerminal, Terminal)| #[trigger] m0.insert((prod.lhs, t), k as int).dom().contains(key) implies 0 <= m0.insert((prod.lhs, t), k as int)[key] < g.productions.len() && table@[key] == g.productions[m0.insert((prod.lhs, t), k as int)[key]] by {
                    if key != (prod.lhs, t) {
                        assert(m0.dom().contains(key));
                    }
                }
                assert(table@.dom() =~= m0.insert((prod.lhs, t), k as int).dom());
            }
        } else {
            assert(after =~= before);
        }
        ti = ti + 1;
    }
    Ok(())
}


/// The LL(1) parse table of `grammar`: for each production, an entry for
/// each terminal in FIRST of its right-hand side and, when that FIRST holds
/// ε, for each terminal in FOLLOW of its left-hand side; or the conflict
/// at the first entry asked for twice (productions in order, terminals in
/// declaration order).
pub fn build_parse_table(grammar: &Grammar) -> (r: Result<ParseTable, String>)
    requires
        well_formed(grammar@),
        lhs_set(grammar@).contains(grammar@.start),
    ensures
        ({
            let g = grammar@;
            let f = least_first(g);
            let fo = least_follow(g, f, least_nullable(g));
            match fill(all_cands(g, f, fo, g.productions.len() as int)) {
                Ok(m) => r matches Ok(table) && table.wf() && table_is(table@, g, m),
                Err((a, t, k1, k2)) => r matches Err(msg) && msg@ == conflict_text(
                    a,
                    t,
                    g.productions[k1],
                    g.productions[k2],
                ),
            }
        }),
        least_first(grammar@).dom() == lhs_set(grammar@),
        first_closed(grammar@, least_first(grammar@)),
        forall|h: Map<NonTerminal, Set<Symbol>>| #[trigger]
            first_closed(grammar@, h) ==> below(least_first(grammar@), h),
        follow_closed(
            grammar@,
            least_first(grammar@),
            least_nullable(grammar@),
            least_follow(grammar@, least_first(grammar@), least_nullable(grammar@)),
        ),
{
    let ghost g = grammar@;
    let first_set_map = get_first_set(grammar);
    let follow_set_map = get_follow_set(grammar, &first_set_map);
    let ghost f = first_set_map@;
    let ghost fo = follow_set_map@;
    let mut table = ParseTable::new();
    let n = grammar.productions.len();
    assert(all_cands(g, f, fo, 0) =~= Seq::<(NonTerminal, Terminal, int)>::empty());
    let mut k: usize = 0;
    while k < n
        invariant
            g == grammar@,
            well_formed(g),
            n == g.productions.len(),
            k <= n,
            f == first_set_map@,
            fo == follow_set_map@,
            f == least_first(g),
            fo == least_follow(g, f, least_nullable(g)),
            first_set_map.wf(),
            follow_set_map.wf(),
            f.dom() == lhs_set(g),
            fo.dom() == lhs_set(g),
            first_closed(g, f),
            forall|h: Map<NonTerminal, Set<Symbol>>| #[trigger] first_closed(g, h) ==> below(f, h),
            follow_closed(g, f, least_nullable(g), fo),
            table.wf(),
            fill(all_cands(g, f, fo, k as int)) matches Ok(m) && table_is(table@, g, m),
        decreases n - k,
    {
        let prod = &grammar.productions[k];
        assert(g.productions[k as int] == prod@);
        assert(g.productions[k as int].lhs == prod.lhs);
        assert(lhs_set(g).contains(prod.lhs));
        assert(covers(f, prod.rhs@)) by {
            assert forall|x: int| 0 <= x < prod.rhs@.len() implies (#[trigger] prod.rhs@[x] matches Symbol::NonTerminal(m) ==> f.dom().contains(m)) by {
                let sym = g.productions[k as int].rhs[x];
                assert(sym == prod.rhs@[x]);
                assert(rhs_symbol_ok(g, sym));
            }
        }
        let rhs_first = get_rhs_first(prod, &first_set_map);
        let ghost done = all_cands(g, f, fo, k as int);
        let ghost first_part = cands(prod.lhs, k as int, rhs_first@, 28);
        let ghost follow_part = if rhs_first@.contains(Symbol::Epsilon) {
            cands(prod.lhs, k as int, fo[prod.lhs], 28)
        } else {
            Seq::empty()
        };
        proof {
            assert(all_cands(g, f, fo, k + 1) =~= done + first_part + follow_part);
            lemma_all_cands_prefix(g, f, fo, k + 1, n as int);
        }
        let ghost rest = all_cands(g, f, fo, n as int).skip(all_cands(g, f, fo, k + 1).len() as int);
        match fill_entries(&mut table, grammar, k, &rhs_first, Ghost(done)) {
            Err(msg) => {
                proof {
                    lemma_fill_err(done + first_part, follow_part + rest);
                    assert(all_cands(g, f, fo, n as int) =~= (done + first_part) + (follow_part + rest));
                }
                return Err(msg);
            },
            Ok(()) => {},
        }
        if rhs_first.contains(Symbol::Epsilon) {
            let lhs_follow = match follow_set_map.get(prod.lhs) {
                Some(x) => x,
                None => {
                    assert(false);
                    return Err(String::new());
                },
            };
            match fill_entries(&mut table, grammar, k, lhs_follow, Ghost(done + first_part)) {
                Err(msg) => {
                    proof {
                        assert(done + first_part + follow_part == (done + first_part) + cands(prod.lhs, k as int, lhs_follow@, 28));
                        lemma_fill_err(done + first_part + follow_part, rest);
                        assert(all_cands(g, f, fo, n as int) =~= (done + first_part + follow_part) + rest);
                    }
                    return Err(msg);
                },
                Ok(()) => {},
            }
        } else {
            assert(done + first_part + follow_part =~= done + first_part);
        }
        k = k + 1;
    }
    Ok(table)
}

} // verus!
