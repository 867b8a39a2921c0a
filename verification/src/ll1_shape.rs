//! The tree that the predictive parser builds is a parse tree of the
//! grammar: its root is the start symbol, and every node with children is a
//! nonterminal expanded by one of its productions.
use vstd::prelude::*;
use crate::grammar::{GrammarView, ProductionView};
use crate::lexer::TokenView;
use crate::ll1_yield::config_ok;
use crate::first_follow::{all_cands, fill, least_first, least_follow};
use crate::grammar::least_nullable;
use crate::ll1_halts::{entries, lemma_entry_origin};
use crate::parser::{Config, Move, NodeView, filled, pushed, slots, start_config, step, table_of};
use crate::symbol::{NonTerminal, Symbol, Terminal};

verus! {

/// The children of a node expanded by a production with right-hand side
/// `rhs`: one child per symbol, of that symbol's kind, or a single `ε` leaf
/// when `rhs` is empty.
pub open spec fn kids_match(ns: Seq<NodeView>, children: Seq<usize>, rhs: Seq<Symbol>) -> bool {
    if rhs.len() == 0 {
        &&& children.len() == 1
        &&& children[0] < ns.len()
        &&& ns[children[0] as int].kind == Symbol::Epsilon
    } else {
        &&& children.len() == rhs.len()
        &&& forall|j: int|
            0 <= j < rhs.len() ==> #[trigger] children[j] < ns.len() && ns[children[j] as int].kind
                == rhs[j]
    }
}

/// Node `nv` fits the grammar: a leaf is a terminal or `ε`; a node with
/// children is a nonterminal expanded by one of its productions.
pub open spec fn node_fits(g: GrammarView, ns: Seq<NodeView>, nv: NodeView) -> bool {
    if nv.children.len() == 0 {
        nv.kind is Terminal || nv.kind is Epsilon
    } else {
        nv.kind matches Symbol::NonTerminal(n) && exists|q: int|
            0 <= q < g.productions.len() && #[trigger] g.productions[q].lhs == n && kids_match(
                ns,
                nv.children,
                g.productions[q].rhs,
            )
    }
}

/// `ns` is a parse tree of `g`: the root is the start symbol and every node
/// fits the grammar.
pub open spec fn derivation_tree(g: GrammarView, ns: Seq<NodeView>) -> bool {
    &&& ns.len() > 0
    &&& ns[0].kind == Symbol::NonTerminal(g.start)
    &&& forall|i: int| 0 <= i < ns.len() ==> node_fits(g, ns, #[trigger] ns[i])
}

/// Every entry of the table is a production of `g` for the entry's
/// nonterminal.
pub open spec fn table_from_grammar(g: GrammarView, table: Map<(NonTerminal, Terminal), ProductionView>) -> bool {
    forall|key: (NonTerminal, Terminal)|
        #[trigger] table.dom().contains(key) ==> exists|q: int|
            0 <= q < g.productions.len() && #[trigger] g.productions[q] == table[key]
                && g.productions[q].lhs == key.0
}

/// Slot `s` holds a node of kind `sym`, or is unfilled with an entry for
/// `sym` on the stack above the bottom.
pub open spec fn slot_kind(c: Config, s: int, sym: Symbol) -> bool {
    &&& 0 <= s < c.nodes.len()
    &&& match c.nodes[s] {
        Some(nv) => nv.kind == sym,
        None => exists|j: int|
            1 <= j < c.stack.len() && (#[trigger] c.stack[j]).0 == sym && c.stack[j].1 as int == s,
    }
}

/// The children slots of a node expanded by a production with right-hand
/// side `rhs`, in a partial tree.
pub open spec fn slots_match(c: Config, children: Seq<usize>, rhs: Seq<Symbol>) -> bool {
    if rhs.len() == 0 {
        children.len() == 1 && slot_kind(c, children[0] as int, Symbol::Epsilon)
    } else {
        &&& children.len() == rhs.len()
        &&& forall|j: int| 0 <= j < rhs.len() ==> slot_kind(c, #[trigger] children[j] as int, rhs[j])
    }
}

/// A filled node of a partial tree fits the grammar.
pub open spec fn node_fits_partial(g: GrammarView, c: Config, nv: NodeView) -> bool {
    if nv.children.len() == 0 {
        nv.kind is Terminal || nv.kind is Epsilon
    } else {
        nv.kind matches Symbol::NonTerminal(n) && exists|q: int|
            0 <= q < g.productions.len() && #[trigger] g.productions[q].lhs == n && slots_match(
                c,
                nv.children,
                g.productions[q].rhs,
            )
    }
}

/// The partial tree of a configuration fits the grammar: the root slot is
/// for the start symbol, and every filled node fits.
pub open spec fn shape_ok(g: GrammarView, c: Config) -> bool {
    &&& slot_kind(c, 0, Symbol::NonTerminal(g.start))
    &&& forall|i: int|
        0 <= i < c.nodes.len() && #[trigger] c.nodes[i] is Some ==> node_fits_partial(g, c, c.nodes[i]->0)
}

/// What a step keeps of the slots: the popped top's slot `x` now holds a
/// node of the top's symbol, the other old slots are unchanged, and the
/// stack below the top stays.
pub open spec fn step_frame(c: Config, c2: Config, x: int, top: Symbol) -> bool {
    &&& c.stack.len() >= 2
    &&& c.stack.last().0 == top
    &&& c.stack.last().1 as int == x
    &&& 0 <= x < c.nodes.len()
    &&& c.nodes.len() <= c2.nodes.len()
    &&& forall|s: int| 0 <= s < c.nodes.len() && s != x ==> #[trigger] c2.nodes[s] == c.nodes[s]
    &&& c2.nodes[x] matches Some(nv) && nv.kind == top
    &&& c.stack.len() - 1 <= c2.stack.len()
    &&& forall|j: int| 0 <= j < c.stack.len() - 1 ==> #[trigger] c2.stack[j] == c.stack[j]
}

/// A slot keeps the kind it is for across a step.
proof fn lemma_slot_kind_step(toks: Seq<TokenView>, c: Config, c2: Config, x: int, top: Symbol, s: int, sym: Symbol)
    requires
        config_ok(toks, c),
        step_frame(c, c2, x, top),
        slot_kind(c, s, sym),
    ensures
        slot_kind(c2, s, sym),
{
    let t = c.stack.len() - 1;
    assert(c.stack[t] == c.stack.last());
    if s == x {
        assert(c.nodes[x] is None);
        let j = choose|j: int| 1 <= j < c.stack.len() && (#[trigger] c.stack[j]).0 == sym && c.stack[j].1 as int == s;
        if j != t {
            assert(c.stack[j].1 != c.stack[t].1);
        }
    } else {
        assert(c2.nodes[s] == c.nodes[s]);
        if c.nodes[s] is None {
            let j = choose|j: int| 1 <= j < c.stack.len() && (#[trigger] c.stack[j]).0 == sym && c.stack[j].1 as int == s;
            assert(j != t);
            assert(c2.stack[j] == c.stack[j]);
        }
    }
}

/// The children of a filled node keep matching its production across a
/// step.
proof fn lemma_slots_match_step(
    toks: Seq<TokenView>,
    c: Config,
    c2: Config,
    x: int,
    top: Symbol,
    children: Seq<usize>,
    rhs: Seq<Symbol>,
)
    requires
        config_ok(toks, c),
        step_frame(c, c2, x, top),
        slots_match(c, children, rhs),
    ensures
        slots_match(c2, children, rhs),
{
    if rhs.len() == 0 {
        lemma_slot_kind_step(toks, c, c2, x, top, children[0] as int, Symbol::Epsilon);
    } else {
        assert forall|j: int| 0 <= j < rhs.len() implies slot_kind(c2, #[trigger] children[j] as int, rhs[j]) by {
            lemma_slot_kind_step(toks, c, c2, x, top, children[j] as int, rhs[j]);
        }
    }
}

/// A filled node of the old tree still fits after a step.
proof fn lemma_node_step(
    g: GrammarView,
    toks: Seq<TokenView>,
    c: Config,
    c2: Config,
    x: int,
    top: Symbol,
    nv: NodeView,
)
    requires
        config_ok(toks, c),
        step_frame(c, c2, x, top),
        node_fits_partial(g, c, nv),
    ensures
        node_fits_partial(g, c2, nv),
{
    if nv.children.len() > 0 {
        if let Symbol::NonTerminal(n) = nv.kind {
            let q = choose|q: int|
                0 <= q < g.productions.len() && #[trigger] g.productions[q].lhs == n && slots_match(
                    c,
                    nv.children,
                    g.productions[q].rhs,
                );
            lemma_slots_match_step(toks, c, c2, x, top, nv.children, g.productions[q].rhs);
        }
    }
}

/// The partial tree fits the grammar after each step.
pub proof fn lemma_shape_step(
    g: GrammarView,
    toks: Seq<TokenView>,
    table: Map<(NonTerminal, Terminal), ProductionView>,
    c: Config,
    c2: Config,
)
    requires
        config_ok(toks, c),
        shape_ok(g, c),
        table_from_grammar(g, table),
        step(toks, table, c) == Move::Continue(c2),
        c2.nodes.len() <= usize::MAX,
    ensures
        shape_ok(g, c2),
{
    let (top, index) = c.stack.last();
    let x = index as int;
    let rest = c.stack.drop_last();
    let cur = toks[c.pos];
    let t = c.stack.len() - 1;
    assert(c.stack[t] == c.stack.last());
    assert(c.stack.len() >= 2) by {
        if c.stack.len() == 1 {
            assert(c.stack.last() == c.stack[0]);
        }
    }
    assert(x < c.nodes.len() && c.nodes[x] is None);
    match top {
        Symbol::NonTerminal(nt) => {
            let key = (nt, cur.kind);
            let p = table[key];
            let q = choose|q: int|
                0 <= q < g.productions.len() && #[trigger] g.productions[q] == table[key]
                    && g.productions[q].lhs == key.0;
            let base = c.nodes.len() as int;
            let nv = c2.nodes[x]->0;
            assert(step_frame(c, c2, x, top)) by {
                if p.rhs.len() > 0 {
                    assert(c2.stack == rest + pushed(p.rhs, base));
                } else {
                    assert(c2.stack == rest);
                }
                assert forall|j: int| 0 <= j < c.stack.len() - 1 implies #[trigger] c2.stack[j] == c.stack[j] by {
                    assert(rest[j] == c.stack[j]);
                }
            }
            // the new node is expanded by production `q`
            assert(slots_match(c2, nv.children, p.rhs)) by {
                if p.rhs.len() == 0 {
                    assert(nv.children == seq![base as usize]);
                    assert(c2.nodes[base] == Some(NodeView { kind: Symbol::Epsilon, children: Seq::empty() }));
                } else {
                    let m = p.rhs.len();
                    assert(nv.children == slots(m, base));
                    assert(c2.stack == rest + pushed(p.rhs, base));
                    assert forall|j: int| 0 <= j < m implies slot_kind(c2, #[trigger] nv.children[j] as int, p.rhs[j]) by {
                        let k = m - 1 - j;
                        let idx = rest.len() + k;
                        assert(c2.stack[idx] == pushed(p.rhs, base)[k]);
                        assert(c2.nodes[base + j] is None);
                        assert(c2.stack[idx] == (p.rhs[j], nv.children[j]));
                    }
                }
            }
            assert(node_fits_partial(g, c2, nv));
            assert forall|i: int| 0 <= i < c2.nodes.len() && #[trigger] c2.nodes[i] is Some implies node_fits_partial(
                g,
                c2,
                c2.nodes[i]->0,
            ) by {
                if i == x {
                } else if i < c.nodes.len() {
                    assert(c.nodes[i] is Some);
                    lemma_node_step(g, toks, c, c2, x, top, c.nodes[i]->0);
                } else {
                    assert(p.rhs.len() == 0 && i == base);
                }
            }
            lemma_slot_kind_step(toks, c, c2, x, top, 0, Symbol::NonTerminal(g.start));
        },
        _ => {
            assert(step_frame(c, c2, x, top)) by {
                assert forall|j: int| 0 <= j < c.stack.len() - 1 implies #[trigger] c2.stack[j] == c.stack[j] by {
                    assert(rest[j] == c.stack[j]);
                }
            }
            assert forall|i: int| 0 <= i < c2.nodes.len() && #[trigger] c2.nodes[i] is Some implies node_fits_partial(
                g,
                c2,
                c2.nodes[i]->0,
            ) by {
                if i != x {
                    assert(c.nodes[i] is Some);
                    lemma_node_step(g, toks, c, c2, x, top, c.nodes[i]->0);
                }
            }
            lemma_slot_kind_step(toks, c, c2, x, top, 0, Symbol::NonTerminal(g.start));
        },
    }
}

/// The configuration the parser starts from fits the grammar.
pub proof fn lemma_shape_start(g: GrammarView)
    ensures
        shape_ok(g, start_config(g.start)),
{
    let c = start_config(g.start);
    assert(c.stack[1] == (Symbol::NonTerminal(g.start), 0usize));
}

/// A partial tree that fits the grammar and has every slot filled is a
/// parse tree of the grammar.
pub proof fn lemma_shape_complete(g: GrammarView, c: Config)
    requires
        shape_ok(g, c),
        forall|q: int| 0 <= q < c.nodes.len() ==> #[trigger] c.nodes[q] is Some,
    ensures
        derivation_tree(g, filled(c.nodes)),
{
    let ns = filled(c.nodes);
    assert(c.nodes[0] is Some);
    assert forall|i: int| 0 <= i < ns.len() implies node_fits(g, ns, #[trigger] ns[i]) by {
        assert(c.nodes[i] is Some);
        let nv = c.nodes[i]->0;
        assert(ns[i] == nv);
        assert(node_fits_partial(g, c, nv));
        if nv.children.len() > 0 {
            if let Symbol::NonTerminal(n) = nv.kind {
                let q = choose|q: int|
                    0 <= q < g.productions.len() && #[trigger] g.productions[q].lhs == n && slots_match(
                        c,
                        nv.children,
                        g.productions[q].rhs,
                    );
                let rhs = g.productions[q].rhs;
                if rhs.len() == 0 {
                    let s = nv.children[0] as int;
                    assert(c.nodes[s] is Some);
                } else {
                    assert forall|j: int| 0 <= j < rhs.len() implies #[trigger] nv.children[j] < ns.len()
                        && ns[nv.children[j] as int].kind == rhs[j] by {
                        assert(slot_kind(c, nv.children[j] as int, rhs[j]));
                        assert(c.nodes[nv.children[j] as int] is Some);
                    }
                }
                assert(kids_match(ns, nv.children, rhs));
            }
        }
    }
}

/// The parse table of a grammar, when it has no conflict, holds only
/// productions of the grammar, each under its own nonterminal.
pub proof fn lemma_table_from_grammar(g: GrammarView)
    requires
        table_of(g) is Some,
    ensures
        table_from_grammar(g, table_of(g)->Some_0),
{
    let f = least_first(g);
    let fo = least_follow(g, f, least_nullable(g));
    let table = table_of(g)->Some_0;
    assert(fill(all_cands(g, f, fo, g.productions.len() as int)) is Ok);
    assert forall|key: (NonTerminal, Terminal)| #[trigger] table.dom().contains(key) implies exists|q: int|
        0 <= q < g.productions.len() && #[trigger] g.productions[q] == table[key]
            && g.productions[q].lhs == key.0 by {
        lemma_entry_origin(g, f, fo, key);
        let q = entries(g, f, fo)[key];
        assert(g.productions[q] == table[key]);
    }
}

} // verus!
