//! Table-driven LL(1) predictive parsing: a stack of grammar symbols is
//! expanded by the parse table against the lookahead token, and the parse
//! tree is built alongside, each node filled in when its symbol leaves the
//! stack.
use vstd::prelude::*;
use crate::first_follow::{
    ParseTable, all_cands, build_parse_table, conflict_text, fill, least_first, least_follow,
    table_is,
};
use crate::grammar::{Grammar, GrammarView, ProductionView, least_nullable, lhs_set, well_formed};
use crate::lexer::{Token, TokenView, token_views};
use crate::symbol::{NonTerminal, Symbol, Terminal, nonterminal_name, symbol_text, terminal_text};
use crate::syntax_tree::{
    RdNode, RdNodeView, children_after, format_tree as format_labelled_tree, lemma_after_printable,
    node_views, printable, tree_text,
};
use crate::ll1_halts::lemma_parser_stops;
use crate::ll1_shape::{
    derivation_tree, lemma_shape_complete, lemma_shape_start, lemma_shape_step, lemma_table_from_grammar,
    shape_ok, table_from_grammar,
};
use crate::ll1_yield::{
    as_slots, config_ok, frontier, lemma_accept_complete, lemma_start_ok, lemma_step_keeps, text_items,
};
use crate::rd_yield::texts;
use crate::text::{decimal, push_decimal};

verus! {

/// A node of an LL(1) parse tree: its symbol and the indices of its children.
#[derive(Debug)]
pub struct Node {
    pub kind: Symbol,
    pub children: Vec<usize>,
}

/// The mathematical value of a `Node`.
pub struct NodeView {
    pub kind: Symbol,
    pub children: Seq<usize>,
}

impl View for Node {
    type V = NodeView;

    open spec fn view(&self) -> NodeView {
        NodeView { kind: self.kind, children: self.children@ }
    }
}

/// The views of a list of nodes.
pub open spec fn ll1_node_views(ns: Seq<Node>) -> Seq<NodeView> {
    ns.map_values(|n: Node| n@)
}

/// The nodes with their symbols printed as labels.
pub open spec fn labelled(ns: Seq<NodeView>) -> Seq<RdNodeView> {
    ns.map_values(|n: NodeView| RdNodeView { label: symbol_text(n.kind), children: n.children })
}

/// A configuration of the predictive parser: the stack of symbols, each with
/// the slot of its node, the position of the lookahead, and the node slots.
#[verifier::ext_equal]
pub struct Config {
    pub stack: Seq<(Symbol, usize)>,
    pub pos: int,
    pub nodes: Seq<Option<NodeView>>,
}

/// What one step of the parser does.
pub enum Move {
    Continue(Config),
    Accept(Config),
    Fail(Seq<char>),
}

/// The configuration before the first step: the end marker under the start
/// symbol, both for the root slot.
pub open spec fn start_config(start: NonTerminal) -> Config {
    Config {
        stack: seq![(Symbol::Terminal(Terminal::End), 0usize), (Symbol::NonTerminal(start), 0usize)],
        pos: 0,
        nodes: seq![None],
    }
}

/// The message for a terminal on the stack that the lookahead does not match.
pub open spec fn mismatch_text(term: Terminal, t: TokenView) -> Seq<char> {
    "语法错误: 期待终结符 `"@ + terminal_text(term) + "`, 实际读到 `"@ + terminal_text(t.kind)
        + "` (offset "@ + decimal(t.offset as nat) + ")"@
}

/// The message for a nonterminal with no table entry for the lookahead.
pub open spec fn no_entry_text(nt: NonTerminal, t: TokenView) -> Seq<char> {
    "语法错误: 非终结符 `"@ + nonterminal_name(nt) + "` 在向前看符号 `"@ + terminal_text(t.kind)
        + "` 下无可用产生式 (offset "@ + decimal(t.offset as nat) + ")"@
}

/// The stack entries for the right-hand side `rhs` whose nodes start at
/// slot `base`, last symbol first, so that the first symbol is on top.
pub open spec fn pushed(rhs: Seq<Symbol>, base: int) -> Seq<(Symbol, usize)> {
    Seq::new(rhs.len(), |j: int| (rhs[rhs.len() - 1 - j], (base + rhs.len() - 1 - j) as usize))
}

/// The slots `base`, `base + 1`, ... for the `m` symbols of a right-hand side.
pub open spec fn slots(m: nat, base: int) -> Seq<usize> {
    Seq::new(m, |j: int| (base + j) as usize)
}

/// One step: pop the top symbol; a terminal must match the lookahead (the
/// end marker accepts); a nonterminal is replaced by the right-hand side
/// that the table gives for the lookahead, whose nodes become its children
/// (one `ε` child for an empty right-hand side).
pub open spec fn step(
    toks: Seq<TokenView>,
    table: Map<(NonTerminal, Terminal), ProductionView>,
    c: Config,
) -> Move {
    if c.stack.len() == 0 {
        Move::Fail("分析栈提前耗尽，未在结束符位置成功结束"@)
    } else if !(0 <= c.pos < toks.len()) {
        Move::Fail("输入在分析过程中提前结束"@)
    } else {
        let (sym, index) = c.stack.last();
        let rest = c.stack.drop_last();
        let cur = toks[c.pos];
        match sym {
            Symbol::Terminal(term) => if term != cur.kind {
                Move::Fail(mismatch_text(term, cur))
            } else if term == Terminal::End {
                Move::Accept(Config { stack: rest, pos: c.pos, nodes: c.nodes })
            } else {
                Move::Continue(
                    Config {
                        stack: rest,
                        pos: c.pos + 1,
                        nodes: c.nodes.update(
                            index as int,
                            Some(NodeView { kind: Symbol::Terminal(term), children: Seq::empty() }),
                        ),
                    },
                )
            },
            Symbol::NonTerminal(nt) => if !table.dom().contains((nt, cur.kind)) {
                Move::Fail(no_entry_text(nt, cur))
            } else {
                let p = table[(nt, cur.kind)];
                let base = c.nodes.len() as int;
                if p.rhs.len() == 0 {
                    Move::Continue(
                        Config {
                            stack: rest,
                            pos: c.pos,
                            nodes: c.nodes.push(
                                Some(NodeView { kind: Symbol::Epsilon, children: Seq::empty() }),
                            ).update(
                                index as int,
                                Some(
                                    NodeView {
                                        kind: Symbol::NonTerminal(nt),
                                        children: seq![base as usize],
                                    },
                                ),
                            ),
                        },
                    )
                } else {
                    Move::Continue(
                        Config {
                            stack: rest + pushed(p.rhs, base),
                            pos: c.pos,
                            nodes: (c.nodes + Seq::new(p.rhs.len(), |j: int| None)).update(
                                index as int,
                                Some(
                                    NodeView {
                                        kind: Symbol::NonTerminal(nt),
                                        children: slots(p.rhs.len(), base),
                                    },
                                ),
                            ),
                        },
                    )
                }
            },
            Symbol::Epsilon => Move::Continue(
                Config {
                    stack: rest,
                    pos: c.pos,
                    nodes: c.nodes.update(
                        index as int,
                        Some(NodeView { kind: Symbol::Epsilon, children: Seq::empty() }),
                    ),
                },
            ),
        }
    }
}

/// Runs at most `fuel` steps: the accepting configuration or the failure
/// message, or nothing if the parser has not stopped by then.
pub open spec fn run(
    toks: Seq<TokenView>,
    table: Map<(NonTerminal, Terminal), ProductionView>,
    c: Config,
    fuel: nat,
) -> Option<Result<Config, Seq<char>>>
    decreases fuel,
{
    if fuel == 0 {
        None
    } else {
        match step(toks, table, c) {
            Move::Continue(c2) => run(toks, table, c2, (fuel - 1) as nat),
            Move::Accept(c2) => Some(Ok(c2)),
            Move::Fail(m) => Some(Err(m)),
        }
    }
}

/// The parser stops on `toks` (within some number of steps).
pub open spec fn stops(
    toks: Seq<TokenView>,
    table: Map<(NonTerminal, Terminal), ProductionView>,
    start: NonTerminal,
) -> bool {
    exists|fuel: nat| #[trigger] run(toks, table, start_config(start), fuel) is Some
}

/// The number of steps after which the parser has stopped, when it stops.
pub open spec fn stop_fuel(
    toks: Seq<TokenView>,
    table: Map<(NonTerminal, Terminal), ProductionView>,
    start: NonTerminal,
) -> nat {
    choose|fuel: nat| #[trigger] run(toks, table, start_config(start), fuel) is Some
}

/// The parse table of `g` as a map to productions, if it has no conflict.
pub open spec fn table_of(g: GrammarView) -> Option<Map<(NonTerminal, Terminal), ProductionView>> {
    let f = least_first(g);
    let fo = least_follow(g, f, least_nullable(g));
    match fill(all_cands(g, f, fo, g.productions.len() as int)) {
        Ok(m) => Some(
            Map::new(
                |key: (NonTerminal, Terminal)| m.dom().contains(key),
                |key: (NonTerminal, Terminal)| g.productions[m[key]],
            ),
        ),
        Err(_) => None,
    }
}


/// The views of the node slots.
pub open spec fn slot_views(ns: Seq<Option<Node>>) -> Seq<Option<NodeView>> {
    ns.map_values(
        |o: Option<Node>|
            match o {
                Some(n) => Some(n@),
                None => None,
            },
    )
}

/// The first slot from `from` on that was never filled, if any.
pub open spec fn first_empty(nodes: Seq<Option<NodeView>>, from: int) -> Option<int>
    decreases nodes.len() - from,
{
    if from < 0 || from >= nodes.len() {
        None
    } else if nodes[from] is None {
        Some(from)
    } else {
        first_empty(nodes, from + 1)
    }
}

/// The nodes of slots that are all filled.
pub open spec fn filled(nodes: Seq<Option<NodeView>>) -> Seq<NodeView> {
    nodes.map_values(|o: Option<NodeView>| o->0)
}

/// The message for input left over when the end marker was matched.
pub open spec fn unconsumed_text(t: TokenView) -> Seq<char> {
    "语法错误: 输入未完全消费，当前位置仍为 `"@ + terminal_text(t.kind) + "` (offset "@ + decimal(
        t.offset as nat,
    ) + ")"@
}

/// The message for a node slot that was never filled.
pub open spec fn unfilled_text(i: int) -> Seq<char> {
    "语法树节点 "@ + decimal(i as nat) + " 未被正确填充"@
}

/// A whole predictive parse of `toks` with the LL(1) table of `g`: the
/// nodes of the parse tree (the root first), or the first error.
pub open spec fn spec_ll1_parse(toks: Seq<TokenView>, g: GrammarView) -> Result<
    Seq<NodeView>,
    Seq<char>,
> {
    if toks.len() == 0 {
        Err("输入 token 序列为空"@)
    } else {
        let f = least_first(g);
        let fo = least_follow(g, f, least_nullable(g));
        match fill(all_cands(g, f, fo, g.productions.len() as int)) {
            Err((a, t, k1, k2)) => Err(conflict_text(a, t, g.productions[k1], g.productions[k2])),
            Ok(_) => {
                let table = table_of(g)->Some_0;
                match run(toks, table, start_config(g.start), stop_fuel(toks, table, g.start)) {
                    Some(Err(m)) => Err(m),
                    Some(Ok(c)) => if c.pos != toks.len() - 1 {
                        Err(unconsumed_text(toks[c.pos]))
                    } else {
                        match first_empty(c.nodes, 0) {
                            Some(i) => Err(unfilled_text(i)),
                            None => Ok(filled(c.nodes)),
                        }
                    },
                    None => Err(Seq::empty()),
                }
            },
        }
    }
}

/// Every child of a filled slot is a later slot.
pub open spec fn kids_after(ns: Seq<Option<NodeView>>) -> bool {
    forall|i: int, q: int|
        0 <= i < ns.len() && ns[i] is Some && 0 <= q < ns[i]->0.children.len() ==> i
            < #[trigger] ns[i]->0.children[q] < ns.len()
}

/// Filling a slot with a node whose children are later slots keeps every
/// child after its parent.
pub(crate) proof fn lemma_kids_after_set(ns: Seq<Option<NodeView>>, index: int, nv: NodeView)
    requires
        kids_after(ns),
        0 <= index < ns.len(),
        forall|q: int| 0 <= q < nv.children.len() ==> index < #[trigger] nv.children[q] < ns.len(),
    ensures
        kids_after(ns.update(index, Some(nv))),
{
    let after = ns.update(index, Some(nv));
    assert forall|i: int, q: int|
        0 <= i < after.len() && after[i] is Some && 0 <= q < after[i]->0.children.len() implies i
            < #[trigger] after[i]->0.children[q] < after.len() by {
        if i != index {
            assert(after[i] == ns[i]);
        }
    }
}

/// Appending empty slots or leaves keeps every child after its parent.
pub(crate) proof fn lemma_kids_after_grow(ns: Seq<Option<NodeView>>, more: Seq<Option<NodeView>>)
    requires
        kids_after(ns),
        forall|j: int| 0 <= j < more.len() ==> (#[trigger] more[j] matches Some(nv) ==> nv.children.len() == 0),
    ensures
        kids_after(ns + more),
{
    let after = ns + more;
    assert forall|i: int, q: int|
        0 <= i < after.len() && after[i] is Some && 0 <= q < after[i]->0.children.len() implies i
            < #[trigger] after[i]->0.children[q] < after.len() by {
        if i >= ns.len() {
            assert(after[i] == more[i - ns.len()]);
        } else {
            assert(after[i] == ns[i]);
        }
    }
}

/// A parse tree whose slots are all filled and whose children come after
/// their parents prints from its root.
proof fn lemma_filled_printable(ns: Seq<Option<NodeView>>)
    requires
        kids_after(ns),
        ns.len() > 0,
        forall|q: int| 0 <= q < ns.len() ==> #[trigger] ns[q] is Some,
    ensures
        printable(labelled(filled(ns)), 0, ns.len()),
{
    let nodes = labelled(filled(ns));
    assert forall|i: int, k: int| 0 <= i < nodes.len() && 0 <= k < nodes[i].children.len() implies i
        < #[trigger] nodes[i].children[k] < nodes.len() by {
        assert(ns[i] is Some);
        assert(nodes[i].children == ns[i]->0.children);
    }
    lemma_after_printable(nodes, 0, ns.len());
}

/// Predictive parsing of `tokens` with the LL(1) table of `grammar`: the
/// nodes of the parse tree, the root first and every node's children after
/// it, or the first error (a conflict in the table, a mismatched terminal,
/// a missing table entry, input left over).
pub fn parse(tokens: &[Token], grammar: &Grammar) -> (r: Result<Vec<Node>, String>)
    requires
        well_formed(grammar@),
        lhs_set(grammar@).contains(grammar@.start),
    ensures
        match spec_ll1_parse(token_views(tokens@), grammar@) {
            Ok(ns) => r matches Ok(v) && ll1_node_views(v@) == ns,
            Err(m) => r matches Err(x) && x@ == m,
        },
        r matches Ok(v) ==> printable(labelled(ll1_node_views(v@)), 0, v@.len()),
        r matches Ok(v) ==> frontier(as_slots(ll1_node_views(v@)), 0) == text_items(
            texts(token_views(tokens@).drop_last()),
        ),
        r matches Ok(v) ==> derivation_tree(grammar@, ll1_node_views(v@)),
{
    let ghost toks = token_views(tokens@);
    let ghost g = grammar@;
    if tokens.len() == 0 {
        return Err(String::from_str("输入 token 序列为空"));
    }
    let parse_table = build_parse_table(grammar)?;
    let ghost table = table_of(g)->Some_0;
    proof {
        let f = least_first(g);
        let fo = least_follow(g, f, least_nullable(g));
        let m = fill(all_cands(g, f, fo, g.productions.len() as int))->Ok_0;
        assert(parse_table@ =~= table);
    }
    proof {
        lemma_parser_stops(toks, g);
    }
    let ghost fuel = stop_fuel(toks, table, g.start);
    let mut result_nodes: Vec<Option<Node>> = Vec::new();
    result_nodes.push(None);
    let mut stack: Vec<(Symbol, usize)> = Vec::new();
    stack.push((Symbol::Terminal(Terminal::End), 0));
    stack.push((Symbol::NonTerminal(grammar.start), 0));
    let mut pos: usize = 0;
    let ghost mut left = fuel;
    proof {
        assert(stack@ =~= start_config(g.start).stack);
        assert(slot_views(result_nodes@) =~= start_config(g.start).nodes);
        assert(kids_after(slot_views(result_nodes@)));
    }
    let ghost outcome = run(toks, table, start_config(g.start), fuel);
    assert(outcome is Some);
    proof {
        lemma_start_ok(toks, g.start);
        lemma_shape_start(g);
        lemma_table_from_grammar(g);
    }
    let ghost mut last = start_config(g.start);
    loop
        invariant_except_break
            run(
                toks,
                table,
                Config { stack: stack@, pos: pos as int, nodes: slot_views(result_nodes@) },
                left,
            ) == outcome,
            forall|j: int| 0 <= j < stack@.len() ==> (#[trigger] stack@[j]).1 < result_nodes@.len(),
            config_ok(toks, Config { stack: stack@, pos: pos as int, nodes: slot_views(result_nodes@) }),
            shape_ok(g, Config { stack: stack@, pos: pos as int, nodes: slot_views(result_nodes@) }),
        invariant
            toks == token_views(tokens@),
            toks.len() > 0,
            g == grammar@,
            table == table_of(g)->Some_0,
            fill(
                all_cands(
                    g,
                    least_first(g),
                    least_follow(g, least_first(g), least_nullable(g)),
                    g.productions.len() as int,
                ),
            ) is Ok,
            outcome == run(toks, table, start_config(g.start), stop_fuel(toks, table, g.start)),
            parse_table.wf(),
            parse_table@ == table,
            table_from_grammar(g, table),
            outcome is Some,
            result_nodes@.len() > 0,
            kids_after(slot_views(result_nodes@)),
        ensures
            outcome == Some(
                Ok::<Config, Seq<char>>(
                    Config { stack: stack@, pos: pos as int, nodes: slot_views(result_nodes@) },
                ),
            ),
            pos < tokens@.len(),
            config_ok(toks, last),
            shape_ok(g, last),
            last.nodes == slot_views(result_nodes@),
            last.pos == pos,
        decreases left,
    {
        let ghost c = Config { stack: stack@, pos: pos as int, nodes: slot_views(result_nodes@) };
        let ghost old_nodes = result_nodes@;
        let ghost old_stack = stack@;
        assert(left > 0);
        let (symbol, index) = match stack.pop() {
            Some(top) => top,
            None => {
                return Err(String::from_str("分析栈提前耗尽，未在结束符位置成功结束"));
            },
        };
        assert(stack@ =~= old_stack.drop_last());
        assert(old_stack.last() == (symbol, index));
        assert(index < result_nodes@.len()) by {
            assert(old_stack[old_stack.len() - 1].1 < old_nodes.len());
        }
        if pos >= tokens.len() {
            return Err(String::from_str("输入在分析过程中提前结束"));
        }
        let current = &tokens[pos];
        assert(toks[pos as int] == current@);
        match symbol {
            Symbol::Terminal(term) => {
                if term != current.kind {
                    return Err(mismatch_message(term, current));
                }
                if term == Terminal::End {
                    proof {
                        last = c;
                    }
                    break ;
                }
                result_nodes.set(index, Some(Node { kind: Symbol::Terminal(term), children: Vec::new() }));
                pos = pos + 1;
                proof {
                    assert(slot_views(result_nodes@) =~= c.nodes.update(
                        index as int,
                        Some(NodeView { kind: Symbol::Terminal(term), children: Seq::empty() }),
                    ));
                    lemma_kids_after_set(
                        c.nodes,
                        index as int,
                        NodeView { kind: Symbol::Terminal(term), children: Seq::empty() },
                    );
                }
            },
            Symbol::NonTerminal(nt) => {
                let lookahead = current.kind;
                let prod = match parse_table.get(nt, lookahead) {
                    Some(p) => p,
                    None => {
                        return Err(no_entry_message(nt, current));
                    },
                };
                let base = result_nodes.len();
                if prod.rhs.len() == 0 {
                    result_nodes.push(Some(Node { kind: Symbol::Epsilon, children: Vec::new() }));
                    let epsilon_id = result_nodes.len() - 1;
                    let mut children: Vec<usize> = Vec::new();
                    children.push(epsilon_id);
                    assert(children@ =~= seq![base]);
                    result_nodes.set(index, Some(Node { kind: Symbol::NonTerminal(nt), children }));
                    proof {
                        let leaf = Some(NodeView { kind: Symbol::Epsilon, children: Seq::empty() });
                        assert(slot_views(result_nodes@) =~= c.nodes.push(leaf).update(
                            index as int,
                            Some(NodeView { kind: Symbol::NonTerminal(nt), children: seq![base] }),
                        ));
                        lemma_kids_after_grow(c.nodes, seq![leaf]);
                        assert(c.nodes + seq![leaf] =~= c.nodes.push(leaf));
                        lemma_kids_after_set(
                            c.nodes.push(leaf),
                            index as int,
                            NodeView { kind: Symbol::NonTerminal(nt), children: seq![base] },
                        );
                    }
                } else {
                    let m = prod.rhs.len();
                    let mut child_ids: Vec<usize> = Vec::new();
                    let mut j: usize = 0;
                    while j < m
                        invariant
                            m == prod.rhs@.len(),
                            j <= m,
                            base <= result_nodes@.len(),
                            result_nodes@.len() == base + j,
                            result_nodes@.take(base as int) == old_nodes,
                            forall|q: int| base <= q < result_nodes@.len() ==> result_nodes@[q] is None,
                            child_ids@.len() == j,
                            forall|q: int| 0 <= q < j ==> child_ids@[q] == base + q,
                        decreases m - j,
                    {
                        let ghost before = result_nodes@;
                        result_nodes.push(None);
                        assert(result_nodes@.take(base as int) =~= before.take(base as int));
                        child_ids.push(result_nodes.len() - 1);
                        j = j + 1;
                    }
                    assert(child_ids@ =~= slots(m as nat, base as int));
                    let children = clone_ids(&child_ids);
                    let ghost grown_nodes = result_nodes@;
                    proof {
                        assert(slot_views(grown_nodes) =~= c.nodes + Seq::new(m as nat, |q: int| None)) by {
                            assert forall|q: int| 0 <= q < old_nodes.len() implies grown_nodes[q] == old_nodes[q] by {
                                assert(grown_nodes.take(base as int)[q] == old_nodes[q]);
                            }
                        }
                    }
                    result_nodes.set(index, Some(Node { kind: Symbol::NonTerminal(nt), children }));
                    proof {
                        let parent = NodeView {
                            kind: Symbol::NonTerminal(nt),
                            children: slots(m as nat, base as int),
                        };
                        assert(slot_views(result_nodes@) =~= slot_views(grown_nodes).update(
                            index as int,
                            Some(parent),
                        ));
                        lemma_kids_after_grow(c.nodes, Seq::new(m as nat, |q: int| None));
                        assert forall|q: int| 0 <= q < parent.children.len() implies index
                            < #[trigger] parent.children[q] < grown_nodes.len() by {
                            assert(parent.children[q] == child_ids@[q]);
                        }
                        lemma_kids_after_set(slot_views(grown_nodes), index as int, parent);
                    }
                    let ghost rest = stack@;
                    let mut k: usize = m;
                    while k > 0
                        invariant
                            m == prod.rhs@.len(),
                            k <= m,
                            child_ids@ == slots(m as nat, base as int),
                            base + m <= result_nodes@.len(),
                            stack@ == rest + pushed(prod.rhs@, base as int).take(m - k),
                            forall|q: int| 0 <= q < rest.len() ==> (#[trigger] rest[q]).1 < base,
                        decreases k,
                    {
                        k = k - 1;
                        let ghost before = stack@;
                        stack.push((prod.rhs[k], child_ids[k]));
                        assert(stack@ =~= rest + pushed(prod.rhs@, base as int).take(m - k));
                    }
                    assert(pushed(prod.rhs@, base as int).take(m as int) =~= pushed(prod.rhs@, base as int));
                }
            },
            Symbol::Epsilon => {
                result_nodes.set(index, Some(Node { kind: Symbol::Epsilon, children: Vec::new() }));
                proof {
                    assert(slot_views(result_nodes@) =~= c.nodes.update(
                        index as int,
                        Some(NodeView { kind: Symbol::Epsilon, children: Seq::empty() }),
                    ));
                    lemma_kids_after_set(
                        c.nodes,
                        index as int,
                        NodeView { kind: Symbol::Epsilon, children: Seq::empty() },
                    );
                }
            },
        }
        proof {
            let c2 = Config { stack: stack@, pos: pos as int, nodes: slot_views(result_nodes@) };
            assert(step(toks, table, c) == Move::Continue(c2));
            assert(c2.nodes.len() == result_nodes.len());
            lemma_step_keeps(toks, table, c, c2);
            lemma_shape_step(g, toks, table, c, c2);
            left = (left - 1) as nat;
        }
    }
    let ghost c = Config { stack: stack@, pos: pos as int, nodes: slot_views(result_nodes@) };
    if pos != tokens.len() - 1 {
        return Err(unconsumed_message(&tokens[pos]));
    }
    let n = result_nodes.len();
    let mut out: Vec<Node> = Vec::new();
    let mut i: usize = 0;
    let ghost expected = spec_ll1_parse(toks, g);
    assert(expected == match first_empty(c.nodes, 0) {
        Some(x) => Err(unfilled_text(x)),
        None => Ok(filled(c.nodes)),
    });
    while i < n
        invariant
            expected == match first_empty(c.nodes, 0) {
                Some(x) => Err(unfilled_text(x)),
                None => Ok(filled(c.nodes)),
            },
            expected == spec_ll1_parse(toks, g),
            toks == token_views(tokens@),
            g == grammar@,
            n == result_nodes@.len(),
            c.nodes == slot_views(result_nodes@),
            i <= n,
            first_empty(c.nodes, 0) == first_empty(c.nodes, i as int),
            ll1_node_views(out@) == filled(c.nodes.take(i as int)),
            forall|q: int| 0 <= q < i ==> c.nodes[q] is Some,
        decreases n - i,
    {
        match &result_nodes[i] {
            Some(node) => {
                let ghost before = out@;
                out.push(clone_node(node));
                assert(c.nodes[i as int] == Some(node@));
                assert(ll1_node_views(out@) =~= ll1_node_views(before).push(node@));
                assert(filled(c.nodes.take(i + 1)) =~= filled(c.nodes.take(i as int)).push(node@));
            },
            None => {
                assert(c.nodes[i as int] is None);
                assert(first_empty(c.nodes, i as int) == Some(i as int));
                return Err(unfilled_message(i));
            },
        }
        i = i + 1;
    }
    assert(c.nodes.take(n as int) =~= c.nodes);
    proof {
        lemma_filled_printable(c.nodes);
        lemma_accept_complete(toks, last, c.nodes, pos as int);
        lemma_shape_complete(g, last);
        assert(as_slots(ll1_node_views(out@)) =~= c.nodes);
        assert(toks.take(pos as int) =~= toks.drop_last());
    }
    Ok(out)
}

fn clone_ids(ids: &Vec<usize>) -> (r: Vec<usize>)
    ensures
        r@ == ids@,
{
    let mut r: Vec<usize> = Vec::new();
    let n = ids.len();
    let mut k: usize = 0;
    while k < n
        invariant
            n == ids@.len(),
            k <= n,
            r@ == ids@.take(k as int),
        decreases n - k,
    {
        r.push(ids[k]);
        k = k + 1;
        assert(r@ =~= ids@.take(k as int));
    }
    assert(ids@.take(n as int) =~= ids@);
    r
}

fn clone_node(node: &Node) -> (r: Node)
    ensures
        r@ == node@,
{
    Node { kind: node.kind, children: clone_ids(&node.children) }
}

impl Clone for Node {
    fn clone(&self) -> (r: Self)
        ensures
            r@ == self@,
    {
        clone_node(self)
    }
}

fn push_offset(s: &mut String, token: &Token)
    ensures
        final(s)@ == old(s)@ + "` (offset "@ + decimal(token.offset as nat) + ")"@,
{
    s.append("` (offset ");
    push_decimal(s, token.offset);
    s.append(")");
}

fn mismatch_message(term: Terminal, token: &Token) -> (s: String)
    ensures
        s@ == mismatch_text(term, token@),
{
    let mut s = String::from_str("语法错误: 期待终结符 `");
    s.append(term.as_text());
    s.append("`, 实际读到 `");
    s.append(token.kind.as_text());
    push_offset(&mut s, token);
    s
}

fn no_entry_message(nt: NonTerminal, token: &Token) -> (s: String)
    ensures
        s@ == no_entry_text(nt, token@),
{
    let mut s = String::from_str("语法错误: 非终结符 `");
    s.append(nt.as_text());
    s.append("` 在向前看符号 `");
    s.append(token.kind.as_text());
    s.append("` 下无可用产生式 (offset ");
    push_decimal(&mut s, token.offset);
    s.append(")");
    s
}

fn unconsumed_message(token: &Token) -> (s: String)
    ensures
        s@ == unconsumed_text(token@),
{
    let mut s = String::from_str("语法错误: 输入未完全消费，当前位置仍为 `");
    s.append(token.kind.as_text());
    push_offset(&mut s, token);
    s
}

fn unfilled_message(i: usize) -> (s: String)
    ensures
        s@ == unfilled_text(i as int),
{
    let mut s = String::from_str("语法树节点 ");
    push_decimal(&mut s, i);
    s.append(" 未被正确填充");
    s
}


/// The parse tree from node 0, one node per line (its symbol), each
/// indented by two spaces per level below the root. The tree must be
/// finite: no node lies below itself.
pub fn format_tree(nodes: &[Node]) -> (s: String)
    requires
        printable(labelled(ll1_node_views(nodes@)), 0, nodes@.len()),
    ensures
        s@ == tree_text(labelled(ll1_node_views(nodes@)), 0, 0, nodes@.len()),
{
    let ghost target = labelled(ll1_node_views(nodes@));
    let mut rd: Vec<RdNode> = Vec::new();
    let n = nodes.len();
    let mut i: usize = 0;
    while i < n
        invariant
            n == nodes@.len(),
            target == labelled(ll1_node_views(nodes@)),
            i <= n,
            node_views(rd@) == target.take(i as int),
        decreases n - i,
    {
        let ghost before = rd@;
        rd.push(RdNode { label: nodes[i].kind.to_string(), children: clone_ids(&nodes[i].children) });
        assert(node_views(rd@) =~= target.take(i + 1)) by {
            assert(node_views(rd@) =~= node_views(before).push(rd@[i as int]@));
        }
        i = i + 1;
    }
    assert(target.take(n as int) =~= target);
    format_labelled_tree(&rd, 0)
}

} // verus!
