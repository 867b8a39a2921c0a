//! The leaves of the tree that the predictive parser builds spell the
//! tokens it reads: at every step, the frontier of the partial tree is the
//! tokens read so far followed by the node slots of the symbols still on
//! the stack, top first.
use vstd::prelude::*;
use crate::grammar::ProductionView;
use crate::lexer::TokenView;
use crate::parser::{Config, Move, NodeView, kids_after, pushed, slots, step};
use crate::rd_yield::texts;
use crate::symbol::{NonTerminal, Symbol, Terminal, symbol_text};

verus! {

/// An item of the frontier of a partial parse tree: the text of a leaf, or
/// a node slot not filled yet.
pub enum Item {
    Text(Seq<char>),
    Pending(int),
}

/// The frontier under slot `id`: the texts of its leaves from left to
/// right, the empty leaves `ε` left out, each unfilled slot standing for
/// itself. Only children after their parent are followed.
pub open spec fn frontier(ns: Seq<Option<NodeView>>, id: int) -> Seq<Item>
    decreases ns.len() - id, 1int, 0int,
{
    if 0 <= id < ns.len() {
        match ns[id] {
            None => seq![Item::Pending(id)],
            Some(nv) => if nv.children.len() == 0 {
                if nv.kind == Symbol::Epsilon {
                    Seq::empty()
                } else {
                    seq![Item::Text(symbol_text(nv.kind))]
                }
            } else {
                frontier_of(ns, nv.children, id)
            },
        }
    } else {
        Seq::empty()
    }
}

/// The frontiers under the slots `ids` that come after `parent`, in order.
pub open spec fn frontier_of(ns: Seq<Option<NodeView>>, ids: Seq<usize>, parent: int) -> Seq<Item>
    decreases ns.len() - parent, 0int, ids.len(),
{
    if ids.len() == 0 {
        Seq::empty()
    } else {
        let c = ids.last() as int;
        frontier_of(ns, ids.drop_last(), parent) + if parent < c < ns.len() {
            frontier(ns, c)
        } else {
            Seq::empty()
        }
    }
}

/// The texts as frontier items.
pub open spec fn text_items(ts: Seq<Seq<char>>) -> Seq<Item> {
    ts.map_values(|t: Seq<char>| Item::Text(t))
}

/// The nodes as filled slots.
pub open spec fn as_slots(ns: Seq<NodeView>) -> Seq<Option<NodeView>> {
    ns.map_values(|n: NodeView| Some(n))
}

/// `items` with each occurrence of slot `x` replaced by `v`.
pub open spec fn subst(items: Seq<Item>, x: int, v: Seq<Item>) -> Seq<Item>
    decreases items.len(),
{
    if items.len() == 0 {
        Seq::empty()
    } else {
        subst(items.drop_last(), x, v) + if items.last() == Item::Pending(x) {
            v
        } else {
            seq![items.last()]
        }
    }
}

/// The slots of the stack entries above the bottom one, top first.
pub open spec fn pending(stack: Seq<(Symbol, usize)>) -> Seq<Item>
    decreases stack.len(),
{
    if stack.len() <= 1 {
        Seq::empty()
    } else {
        seq![Item::Pending(stack.last().1 as int)] + pending(stack.drop_last())
    }
}

/// What the parser keeps true of a configuration: the end marker at the
/// bottom of the stack for the root slot; the other stack entries for
/// distinct unfilled slots; children after their parents; and the frontier
/// of the tree is the tokens read, then the slots on the stack.
pub open spec fn config_ok(toks: Seq<TokenView>, c: Config) -> bool {
    &&& c.nodes.len() > 0
    &&& kids_after(c.nodes)
    &&& 0 <= c.pos <= toks.len()
    &&& c.stack.len() >= 1
    &&& c.stack[0] == (Symbol::Terminal(Terminal::End), 0usize)
    &&& forall|j: int|
        1 <= j < c.stack.len() ==> (#[trigger] c.stack[j]).1 < c.nodes.len() && c.nodes[c.stack[j].1 as int]
            is None
    &&& forall|i: int, j: int|
        1 <= i < j < c.stack.len() ==> (#[trigger] c.stack[i]).1 != (#[trigger] c.stack[j]).1
    &&& frontier(c.nodes, 0) == text_items(texts(toks.take(c.pos))) + pending(c.stack)
}

proof fn lemma_subst_concat(a: Seq<Item>, b: Seq<Item>, x: int, v: Seq<Item>)
    ensures
        subst(a + b, x, v) == subst(a, x, v) + subst(b, x, v),
    decreases b.len(),
{
    if b.len() == 0 {
        assert(a + b =~= a);
        assert(subst(a, x, v) + subst(b, x, v) =~= subst(a, x, v));
    } else {
        assert((a + b).drop_last() =~= a + b.drop_last());
        lemma_subst_concat(a, b.drop_last(), x, v);
        let tail = if b.last() == Item::Pending(x) {
            v
        } else {
            seq![b.last()]
        };
        assert(subst(a + b, x, v) =~= subst(a, x, v) + subst(b.drop_last(), x, v) + tail);
        assert(subst(a, x, v) + subst(b.drop_last(), x, v) + tail =~= subst(a, x, v) + (subst(
            b.drop_last(),
            x,
            v,
        ) + tail));
    }
}

proof fn lemma_subst_absent(a: Seq<Item>, x: int, v: Seq<Item>)
    requires
        !a.contains(Item::Pending(x)),
    ensures
        subst(a, x, v) == a,
    decreases a.len(),
{
    if a.len() > 0 {
        assert(!a.drop_last().contains(Item::Pending(x))) by {
            if a.drop_last().contains(Item::Pending(x)) {
                let k = choose|k: int| 0 <= k < a.drop_last().len() && a.drop_last()[k] == Item::Pending(x);
                assert(a[k] == Item::Pending(x));
            }
        }
        lemma_subst_absent(a.drop_last(), x, v);
        assert(a[a.len() - 1] == a.last());
        assert(a.drop_last().push(a.last()) =~= a);
    }
}

proof fn lemma_subst_one(x: int, v: Seq<Item>)
    ensures
        subst(seq![Item::Pending(x)], x, v) == v,
{
    assert(seq![Item::Pending(x)].drop_last() =~= Seq::<Item>::empty());
    assert(subst(Seq::<Item>::empty(), x, v) =~= Seq::<Item>::empty());
    assert(Seq::<Item>::empty() + v =~= v);
}

/// Filling the unfilled slot `x` replaces it, in every frontier, by the
/// frontier of the new node.
proof fn lemma_frontier_fill(ns: Seq<Option<NodeView>>, x: int, nv: NodeView, id: int)
    requires
        0 <= x < ns.len(),
        ns[x] is None,
    ensures
        frontier(ns.update(x, Some(nv)), id) == subst(
            frontier(ns, id),
            x,
            frontier(ns.update(x, Some(nv)), x),
        ),
    decreases ns.len() - id, 1int, 0int,
{
    let new = ns.update(x, Some(nv));
    let v = frontier(new, x);
    if 0 <= id < ns.len() {
        if id == x {
            lemma_subst_one(x, v);
        } else {
            assert(new[id] == ns[id]);
            match ns[id] {
                None => {
                    lemma_subst_absent(seq![Item::Pending(id)], x, v);
                },
                Some(n) => {
                    if n.children.len() == 0 {
                        lemma_subst_absent(frontier(ns, id), x, v);
                    } else {
                        lemma_frontier_of_fill(ns, x, nv, n.children, id);
                    }
                },
            }
        }
    } else {
        assert(subst(Seq::<Item>::empty(), x, v) =~= Seq::<Item>::empty());
    }
}

proof fn lemma_frontier_of_fill(
    ns: Seq<Option<NodeView>>,
    x: int,
    nv: NodeView,
    ids: Seq<usize>,
    parent: int,
)
    requires
        0 <= x < ns.len(),
        ns[x] is None,
    ensures
        frontier_of(ns.update(x, Some(nv)), ids, parent) == subst(
            frontier_of(ns, ids, parent),
            x,
            frontier(ns.update(x, Some(nv)), x),
        ),
    decreases ns.len() - parent, 0int, ids.len(),
{
    let new = ns.update(x, Some(nv));
    let v = frontier(new, x);
    if ids.len() == 0 {
        assert(subst(Seq::<Item>::empty(), x, v) =~= Seq::<Item>::empty());
    } else {
        let c = ids.last() as int;
        lemma_frontier_of_fill(ns, x, nv, ids.drop_last(), parent);
        let tail = if parent < c < ns.len() {
            frontier(ns, c)
        } else {
            Seq::empty()
        };
        if parent < c < ns.len() {
            lemma_frontier_fill(ns, x, nv, c);
        } else {
            assert(subst(Seq::<Item>::empty(), x, v) =~= Seq::<Item>::empty());
        }
        lemma_subst_concat(frontier_of(ns, ids.drop_last(), parent), tail, x, v);
    }
}

/// Slots added at the end change no frontier of a slot before them.
proof fn lemma_frontier_extend(ns: Seq<Option<NodeView>>, more: Seq<Option<NodeView>>, id: int)
    requires
        kids_after(ns),
        0 <= id < ns.len(),
    ensures
        frontier(ns + more, id) == frontier(ns, id),
    decreases ns.len() - id, 1int, 0int,
{
    assert((ns + more)[id] == ns[id]);
    if let Some(n) = ns[id] {
        if n.children.len() > 0 {
            lemma_frontier_of_extend(ns, more, n.children, id);
        }
    }
}

proof fn lemma_frontier_of_extend(
    ns: Seq<Option<NodeView>>,
    more: Seq<Option<NodeView>>,
    ids: Seq<usize>,
    parent: int,
)
    requires
        kids_after(ns),
        0 <= parent < ns.len(),
        forall|k: int| 0 <= k < ids.len() ==> parent < #[trigger] ids[k] < ns.len(),
    ensures
        frontier_of(ns + more, ids, parent) == frontier_of(ns, ids, parent),
    decreases ns.len() - parent, 0int, ids.len(),
{
    if ids.len() > 0 {
        let c = ids.last() as int;
        assert(ids[ids.len() - 1] == ids.last());
        assert forall|k: int| 0 <= k < ids.drop_last().len() implies parent < #[trigger] ids.drop_last()[k]
            < ns.len() by {
            assert(ids.drop_last()[k] == ids[k]);
        }
        lemma_frontier_of_extend(ns, more, ids.drop_last(), parent);
        lemma_frontier_extend(ns, more, c);
    }
}

/// In a tree whose slots are all filled, the frontier holds only texts.
proof fn lemma_frontier_complete(ns: Seq<Option<NodeView>>, id: int)
    requires
        forall|q: int| 0 <= q < ns.len() ==> #[trigger] ns[q] is Some,
    ensures
        forall|i: int| 0 <= i < frontier(ns, id).len() ==> #[trigger] frontier(ns, id)[i] is Text,
    decreases ns.len() - id, 1int, 0int,
{
    if 0 <= id < ns.len() {
        assert(ns[id] is Some);
        if let Some(n) = ns[id] {
            if n.children.len() > 0 {
                lemma_frontier_of_complete(ns, n.children, id);
            }
        }
    }
}

proof fn lemma_frontier_of_complete(ns: Seq<Option<NodeView>>, ids: Seq<usize>, parent: int)
    requires
        forall|q: int| 0 <= q < ns.len() ==> #[trigger] ns[q] is Some,
    ensures
        forall|i: int|
            0 <= i < frontier_of(ns, ids, parent).len() ==> #[trigger] frontier_of(ns, ids, parent)[i] is Text,
    decreases ns.len() - parent, 0int, ids.len(),
{
    if ids.len() > 0 {
        let c = ids.last() as int;
        lemma_frontier_of_complete(ns, ids.drop_last(), parent);
        if parent < c < ns.len() {
            lemma_frontier_complete(ns, c);
        }
    }
}

/// The frontier under the fresh slots `base`, `base + 1`, ... of a new node
/// is those slots, in order.
proof fn lemma_frontier_fresh(ns: Seq<Option<NodeView>>, m: nat, base: int, parent: int)
    requires
        0 <= parent < base,
        base + m <= ns.len(),
        ns.len() <= usize::MAX,
        forall|q: int| base <= q < base + m ==> #[trigger] ns[q] is None,
    ensures
        frontier_of(ns, slots(m, base), parent) == Seq::new(m, |i: int| Item::Pending(base + i)),
    decreases m,
{
    if m > 0 {
        assert(slots(m, base).drop_last() =~= slots((m - 1) as nat, base));
        lemma_frontier_fresh(ns, (m - 1) as nat, base, parent);
        let c = slots(m, base).last() as int;
        assert(c == base + m - 1);
        assert(ns[c] is None);
        assert(frontier(ns, c) == seq![Item::Pending(c)]);
        assert(Seq::new((m - 1) as nat, |i: int| Item::Pending(base + i)) + seq![Item::Pending(base + m - 1)]
            =~= Seq::new(m, |i: int| Item::Pending(base + i)));
    } else {
        assert(Seq::new(m, |i: int| Item::Pending(base + i)) =~= Seq::<Item>::empty());
    }
}

/// The pending items are the slots of the stack entries above the bottom.
proof fn lemma_pending_items(stack: Seq<(Symbol, usize)>)
    ensures
        pending(stack).len() == if stack.len() <= 1 {
            0
        } else {
            stack.len() - 1
        },
        forall|k: int|
            0 <= k < pending(stack).len() ==> #[trigger] pending(stack)[k] == Item::Pending(
                stack[stack.len() - 1 - k].1 as int,
            ),
    decreases stack.len(),
{
    if stack.len() > 1 {
        lemma_pending_items(stack.drop_last());
        let p = pending(stack);
        assert forall|k: int| 0 <= k < p.len() implies #[trigger] p[k] == Item::Pending(
            stack[stack.len() - 1 - k].1 as int,
        ) by {
            if k > 0 {
                assert(p[k] == pending(stack.drop_last())[k - 1]);
            }
        }
    }
}

/// Pushing entries on a stack with a bottom puts their slots, last pushed
/// first, in front of the pending items.
proof fn lemma_pending_push(rest: Seq<(Symbol, usize)>, p: Seq<(Symbol, usize)>)
    requires
        rest.len() >= 1,
    ensures
        pending(rest + p) == Seq::new(p.len(), |i: int| Item::Pending(p[p.len() - 1 - i].1 as int))
            + pending(rest),
    decreases p.len(),
{
    if p.len() == 0 {
        assert(rest + p =~= rest);
        assert(Seq::new(p.len(), |i: int| Item::Pending(p[p.len() - 1 - i].1 as int)) =~= Seq::<Item>::empty());
        assert(Seq::<Item>::empty() + pending(rest) =~= pending(rest));
    } else {
        assert((rest + p).drop_last() =~= rest + p.drop_last());
        lemma_pending_push(rest, p.drop_last());
        assert((rest + p).last() == p.last());
        let q = p.drop_last();
        assert(seq![Item::Pending(p.last().1 as int)] + Seq::new(
            q.len(),
            |i: int| Item::Pending(q[q.len() - 1 - i].1 as int),
        ) =~= Seq::new(p.len(), |i: int| Item::Pending(p[p.len() - 1 - i].1 as int)));
        assert(seq![Item::Pending(p.last().1 as int)] + (Seq::new(
            q.len(),
            |i: int| Item::Pending(q[q.len() - 1 - i].1 as int),
        ) + pending(rest)) =~= seq![Item::Pending(p.last().1 as int)] + Seq::new(
            q.len(),
            |i: int| Item::Pending(q[q.len() - 1 - i].1 as int),
        ) + pending(rest));
    }
}

/// Text items never name a slot.
proof fn lemma_texts_no_slot(ts: Seq<Seq<char>>, x: int)
    ensures
        !text_items(ts).contains(Item::Pending(x)),
{
    if text_items(ts).contains(Item::Pending(x)) {
        let k = choose|k: int| 0 <= k < text_items(ts).len() && text_items(ts)[k] == Item::Pending(x);
        assert(text_items(ts)[k] == Item::Text(ts[k]));
    }
}

/// Reading one more token adds its text.
proof fn lemma_texts_next(toks: Seq<TokenView>, pos: int)
    requires
        0 <= pos < toks.len(),
    ensures
        text_items(texts(toks.take(pos + 1))) == text_items(texts(toks.take(pos))) + seq![
            Item::Text(symbol_text(Symbol::Terminal(toks[pos].kind))),
        ],
{
    assert(text_items(texts(toks.take(pos + 1))) =~= text_items(texts(toks.take(pos))) + seq![
        Item::Text(symbol_text(Symbol::Terminal(toks[pos].kind))),
    ]);
}

/// Popping the top entry, whose slot is filled by `nv` with frontier `v`:
/// the frontier becomes the tokens read, then `v`, then the rest of the
/// stack.
proof fn lemma_pop_fill(
    toks: Seq<TokenView>,
    c: Config,
    grown: Seq<Option<NodeView>>,
    nv: NodeView,
    v: Seq<Item>,
)
    requires
        config_ok(toks, c),
        c.stack.len() >= 2,
        c.nodes.len() <= grown.len(),
        kids_after(c.nodes),
        frontier(grown, 0) == frontier(c.nodes, 0),
        grown[c.stack.last().1 as int] is None,
        frontier(grown.update(c.stack.last().1 as int, Some(nv)), c.stack.last().1 as int) == v,
    ensures
        frontier(grown.update(c.stack.last().1 as int, Some(nv)), 0) == text_items(
            texts(toks.take(c.pos)),
        ) + v + pending(c.stack.drop_last()),
{
    let x = c.stack.last().1 as int;
    let rest = c.stack.drop_last();
    assert(c.stack[c.stack.len() - 1] == c.stack.last());
    lemma_frontier_fill(grown, x, nv, 0);
    let head = text_items(texts(toks.take(c.pos)));
    assert(pending(c.stack) == seq![Item::Pending(x)] + pending(rest));
    assert(frontier(c.nodes, 0) =~= head + seq![Item::Pending(x)] + pending(rest));
    lemma_subst_concat(head + seq![Item::Pending(x)], pending(rest), x, v);
    lemma_subst_concat(head, seq![Item::Pending(x)], x, v);
    lemma_texts_no_slot(texts(toks.take(c.pos)), x);
    lemma_subst_absent(head, x, v);
    lemma_subst_one(x, v);
    lemma_pending_items(rest);
    assert(!pending(rest).contains(Item::Pending(x))) by {
        if pending(rest).contains(Item::Pending(x)) {
            let k = choose|k: int| 0 <= k < pending(rest).len() && pending(rest)[k] == Item::Pending(x);
            let j = rest.len() - 1 - k;
            assert(rest[j] == c.stack[j]);
            assert(c.stack[j].1 != c.stack[c.stack.len() - 1].1);
        }
    }
    lemma_subst_absent(pending(rest), x, v);
}

/// A step that goes on keeps what the parser keeps true.
pub proof fn lemma_step_keeps(
    toks: Seq<TokenView>,
    table: Map<(NonTerminal, Terminal), ProductionView>,
    c: Config,
    c2: Config,
)
    requires
        config_ok(toks, c),
        step(toks, table, c) == Move::Continue(c2),
        c2.nodes.len() <= usize::MAX,
    ensures
        config_ok(toks, c2),
{
    let (sym, index) = c.stack.last();
    let x = index as int;
    let rest = c.stack.drop_last();
    let cur = toks[c.pos];
    assert(c.stack[c.stack.len() - 1] == c.stack.last());
    assert(c.stack.len() >= 2) by {
        if c.stack.len() == 1 {
            assert(c.stack.last() == c.stack[0]);
        }
    }
    assert(x < c.nodes.len() && c.nodes[x] is None);
    assert(rest.len() >= 1 && rest[0] == c.stack[0]);
    assert forall|j: int| 1 <= j < rest.len() implies (#[trigger] rest[j]).1 != index by {
        assert(rest[j] == c.stack[j]);
    }
    match sym {
        Symbol::Terminal(term) => {
            let nv = NodeView { kind: Symbol::Terminal(term), children: Seq::empty() };
            assert(c2.nodes == c.nodes.update(x, Some(nv)));
            lemma_pop_fill(toks, c, c.nodes, nv, seq![Item::Text(symbol_text(Symbol::Terminal(term)))]);
            lemma_texts_next(toks, c.pos);
            assert(text_items(texts(toks.take(c.pos))) + seq![Item::Text(symbol_text(Symbol::Terminal(term)))] + pending(rest)
                =~= text_items(texts(toks.take(c.pos))) + (seq![Item::Text(symbol_text(Symbol::Terminal(term)))] + pending(rest)));
            crate::parser::lemma_kids_after_set(c.nodes, x, nv);
            assert forall|j: int| 1 <= j < c2.stack.len() implies (#[trigger] c2.stack[j]).1 < c2.nodes.len()
                && c2.nodes[c2.stack[j].1 as int] is None by {
                assert(c2.stack[j] == c.stack[j]);
            }
            assert forall|i: int, j: int| 1 <= i < j < c2.stack.len() implies (#[trigger] c2.stack[i]).1
                != (#[trigger] c2.stack[j]).1 by {
                assert(c2.stack[i] == c.stack[i] && c2.stack[j] == c.stack[j]);
            }
        },
        Symbol::Epsilon => {
            let nv = NodeView { kind: Symbol::Epsilon, children: Seq::empty() };
            assert(c2.nodes == c.nodes.update(x, Some(nv)));
            lemma_pop_fill(toks, c, c.nodes, nv, Seq::empty());
            assert(text_items(texts(toks.take(c.pos))) + Seq::<Item>::empty() =~= text_items(texts(toks.take(c.pos))));
            crate::parser::lemma_kids_after_set(c.nodes, x, nv);
            assert forall|j: int| 1 <= j < c2.stack.len() implies (#[trigger] c2.stack[j]).1 < c2.nodes.len()
                && c2.nodes[c2.stack[j].1 as int] is None by {
                assert(c2.stack[j] == c.stack[j]);
            }
            assert forall|i: int, j: int| 1 <= i < j < c2.stack.len() implies (#[trigger] c2.stack[i]).1
                != (#[trigger] c2.stack[j]).1 by {
                assert(c2.stack[i] == c.stack[i] && c2.stack[j] == c.stack[j]);
            }
        },
        Symbol::NonTerminal(nt) => {
            let p = table[(nt, cur.kind)];
            let base = c.nodes.len() as int;
            if p.rhs.len() == 0 {
                let leaf = Some(NodeView { kind: Symbol::Epsilon, children: Seq::empty() });
                let grown = c.nodes.push(leaf);
                let nv = NodeView { kind: Symbol::NonTerminal(nt), children: seq![base as usize] };
                assert(c2.nodes == grown.update(x, Some(nv)));
                assert(grown =~= c.nodes + seq![leaf]);
                lemma_frontier_extend(c.nodes, seq![leaf], 0);
                let new = grown.update(x, Some(nv));
                assert(frontier(new, x) == Seq::<Item>::empty()) by {
                    assert(new[x] == Some(nv));
                    assert(nv.children.drop_last() =~= Seq::<usize>::empty());
                    assert(new[base] == leaf);
                    assert(frontier_of(new, Seq::<usize>::empty(), x) =~= Seq::<Item>::empty());
                    assert(frontier(new, base) =~= Seq::<Item>::empty());
                    assert(nv.children.last() as int == base);
                    assert(frontier_of(new, nv.children, x) =~= Seq::<Item>::empty() + frontier(new, base));
                }
                lemma_pop_fill(toks, c, grown, nv, Seq::empty());
                assert(text_items(texts(toks.take(c.pos))) + Seq::<Item>::empty() =~= text_items(texts(toks.take(c.pos))));
                crate::parser::lemma_kids_after_grow(c.nodes, seq![leaf]);
                crate::parser::lemma_kids_after_set(grown, x, nv);
                assert forall|j: int| 1 <= j < c2.stack.len() implies (#[trigger] c2.stack[j]).1 < c2.nodes.len()
                    && c2.nodes[c2.stack[j].1 as int] is None by {
                    assert(c2.stack[j] == c.stack[j]);
                }
                assert forall|i: int, j: int| 1 <= i < j < c2.stack.len() implies (#[trigger] c2.stack[i]).1
                    != (#[trigger] c2.stack[j]).1 by {
                    assert(c2.stack[i] == c.stack[i] && c2.stack[j] == c.stack[j]);
                }
            } else {
                let m = p.rhs.len();
                let more = Seq::new(m, |j: int| None::<NodeView>);
                let grown = c.nodes + more;
                let nv = NodeView { kind: Symbol::NonTerminal(nt), children: slots(m, base) };
                assert(c2.nodes == grown.update(x, Some(nv)));
                let new = grown.update(x, Some(nv));
                lemma_frontier_extend(c.nodes, more, 0);
                let v = Seq::new(m, |i: int| Item::Pending(base + i));
                assert(frontier(new, x) == v) by {
                    assert(new[x] == Some(nv));
                    assert forall|q: int| base <= q < base + m implies #[trigger] new[q] is None by {
                        assert(new[q] == more[q - base]);
                    }
                    lemma_frontier_fresh(new, m, base, x);
                }
                lemma_pop_fill(toks, c, grown, nv, v);
                let pu = pushed(p.rhs, base);
                assert(c2.stack == rest + pu);
                lemma_pending_push(rest, pu);
                assert(Seq::new(pu.len(), |i: int| Item::Pending(pu[pu.len() - 1 - i].1 as int)) =~= v);
                assert(text_items(texts(toks.take(c.pos))) + v + pending(rest) =~= text_items(texts(toks.take(c.pos)))
                    + (v + pending(rest)));
                crate::parser::lemma_kids_after_grow(c.nodes, more);
                assert forall|q: int| 0 <= q < nv.children.len() implies x < #[trigger] nv.children[q]
                    < grown.len() by {}
                crate::parser::lemma_kids_after_set(grown, x, nv);
                assert forall|j: int| 1 <= j < c2.stack.len() implies (#[trigger] c2.stack[j]).1 < c2.nodes.len()
                    && c2.nodes[c2.stack[j].1 as int] is None by {
                    if j < rest.len() {
                        assert(c2.stack[j] == c.stack[j]);
                        assert(c2.nodes[c.stack[j].1 as int] == c.nodes[c.stack[j].1 as int]);
                    } else {
                        assert(c2.stack[j] == pu[j - rest.len()]);
                        assert(c2.nodes[c2.stack[j].1 as int] == more[c2.stack[j].1 - base]);
                    }
                }
                assert forall|i: int, j: int| 1 <= i < j < c2.stack.len() implies (#[trigger] c2.stack[i]).1
                    != (#[trigger] c2.stack[j]).1 by {
                    if j < rest.len() {
                        assert(c2.stack[i] == c.stack[i] && c2.stack[j] == c.stack[j]);
                    } else if i < rest.len() {
                        assert(c2.stack[i] == c.stack[i]);
                        assert(c2.stack[j] == pu[j - rest.len()]);
                    } else {
                        assert(c2.stack[i] == pu[i - rest.len()]);
                        assert(c2.stack[j] == pu[j - rest.len()]);
                    }
                }
            }
        },
    }
}

/// The configuration the parser starts from keeps what the parser keeps
/// true.
pub proof fn lemma_start_ok(toks: Seq<TokenView>, start: NonTerminal)
    ensures
        config_ok(toks, crate::parser::start_config(start)),
{
    let c = crate::parser::start_config(start);
    assert(toks.take(0) =~= Seq::<TokenView>::empty());
    assert(texts(toks.take(0)) =~= Seq::<Seq<char>>::empty());
    assert(text_items(texts(toks.take(0))) =~= Seq::<Item>::empty());
    assert(c.stack.drop_last() =~= seq![(Symbol::Terminal(Terminal::End), 0usize)]);
    assert(pending(c.stack.drop_last()) =~= Seq::<Item>::empty());
    assert(pending(c.stack) =~= seq![Item::Pending(0)]);
    assert(Seq::<Item>::empty() + seq![Item::Pending(0)] =~= seq![Item::Pending(0)]);
}

/// When the parser accepts with every slot filled, the frontier of the
/// tree is the tokens read.
pub proof fn lemma_accept_complete(toks: Seq<TokenView>, c: Config, nodes: Seq<Option<NodeView>>, pos: int)
    requires
        config_ok(toks, c),
        nodes == c.nodes,
        pos == c.pos,
        forall|q: int| 0 <= q < nodes.len() ==> #[trigger] nodes[q] is Some,
    ensures
        frontier(nodes, 0) == text_items(texts(toks.take(pos))),
{
    lemma_frontier_complete(nodes, 0);
    lemma_pending_items(c.stack);
    let head = text_items(texts(toks.take(pos)));
    if pending(c.stack).len() > 0 {
        assert(frontier(nodes, 0)[head.len() as int] == pending(c.stack)[0]);
        assert(frontier(nodes, 0)[head.len() as int] is Text);
    }
    assert(head + pending(c.stack) =~= head);
}

} // verus!
