//! In the trees of the recursive-descent parser `and` binds tighter than
//! `or`: no `and` node has an `or` node as a direct operand (an `or` under
//! an `and` stands inside a parenthesized group).
use vstd::prelude::*;
use crate::lexer::TokenView;
use crate::rd_rules::{
    RState, add_node, arith_power, enter, epsilon, logic_power, look, r_assign, r_block,
    r_bool_atom, r_bool_bp, r_bool_expr, r_bool_rest, r_decl, r_expr, r_expr_atom, r_expr_bp,
    r_expr_rest, r_if, r_program, r_relation, r_statement, r_stmt_list, r_stmt_list_rest,
    r_terminal, r_variable, r_while, spec_rd_parse, start_state, starts_stmt,
};
use crate::symbol::{Terminal, terminal_text};
use crate::syntax_tree::RdNodeView;

verus! {

/// Node `p` joins two operands by the connective whose leaf reads `op`.
pub open spec fn logic_node(nodes: Seq<RdNodeView>, p: int, op: Seq<char>) -> bool {
    &&& 0 <= p < nodes.len()
    &&& nodes[p].label == "LogicalExpr"@
    &&& nodes[p].children.len() == 3
    &&& nodes[p].children[0] < p
    &&& nodes[p].children[1] < p
    &&& nodes[p].children[2] < p
    &&& nodes[nodes[p].children[1] as int].label == op
}

/// No `and` node has an `or` node as its left or right operand.
pub open spec fn and_binds_tighter(nodes: Seq<RdNodeView>) -> bool {
    forall|p: int|
        #[trigger] logic_node(nodes, p, "and"@) ==> !logic_node(
            nodes,
            nodes[p].children[0] as int,
            "or"@,
        ) && !logic_node(nodes, nodes[p].children[2] as int, "or"@)
}

/// `b`'s nodes extend `a`'s.
pub open spec fn extends(a: RState, b: RState) -> bool {
    &&& a.nodes.len() <= b.nodes.len()
    &&& forall|p: int| 0 <= p < a.nodes.len() ==> #[trigger] b.nodes[p] == a.nodes[p]
}

/// The token at `pos` ends a boolean phrase whose connectives bind at least
/// as tightly as `m`.
pub open spec fn bool_stops(t: Seq<TokenView>, pos: int, m: u8) -> bool {
    look(t, pos) matches Some(tk) && match logic_power(tk.kind) {
        None => true,
        Some((lbp, _)) => lbp < m,
    }
}

proof fn lemma_labels()
    ensures
        "and"@ != "or"@,
        "BinaryExpr"@ != "LogicalExpr"@,
        "GroupedExpr"@ != "LogicalExpr"@,
        "GroupedBoolExpr"@ != "LogicalExpr"@,
        "Relation"@ != "LogicalExpr"@,
        "AssignStmt"@ != "LogicalExpr"@,
        "Block"@ != "LogicalExpr"@,
        "StmtList"@ != "LogicalExpr"@,
        "DeclStmt"@ != "LogicalExpr"@,
        terminal_text(Terminal::And) == "and"@,
        terminal_text(Terminal::Or) == "or"@,
{
    reveal_strlit("and");
    reveal_strlit("or");
    reveal_strlit("BinaryExpr");
    reveal_strlit("GroupedExpr");
    reveal_strlit("GroupedBoolExpr");
    reveal_strlit("Relation");
    reveal_strlit("LogicalExpr");
    reveal_strlit("AssignStmt");
    reveal_strlit("Block");
    reveal_strlit("StmtList");
    reveal_strlit("DeclStmt");
    assert("AssignStmt"@[0] != "LogicalExpr"@[0]);
    assert("Block"@[0] != "LogicalExpr"@[0]);
    assert("StmtList"@[0] != "LogicalExpr"@[0]);
    assert("DeclStmt"@[0] != "LogicalExpr"@[0]);
    assert("and"@[0] != "or"@[0]);
    assert("BinaryExpr"@[0] != "LogicalExpr"@[0]);
    assert("GroupedExpr"@[0] != "LogicalExpr"@[0]);
    assert("GroupedBoolExpr"@[0] != "LogicalExpr"@[0]);
    assert("Relation"@[0] != "LogicalExpr"@[0]);
}

proof fn lemma_extends_trans(a: RState, b: RState, c: RState)
    requires
        extends(a, b),
        extends(b, c),
    ensures
        extends(a, c),
{
    assert forall|p: int| 0 <= p < a.nodes.len() implies #[trigger] c.nodes[p] == a.nodes[p] by {
        assert(c.nodes[p] == b.nodes[p]);
    }
}

proof fn lemma_logic_kept(a: RState, b: RState, p: int, op: Seq<char>)
    requires
        extends(a, b),
        0 <= p < a.nodes.len(),
    ensures
        logic_node(b.nodes, p, op) == logic_node(a.nodes, p, op),
{
    assert(b.nodes[p] == a.nodes[p]);
    if a.nodes[p].children.len() == 3 && a.nodes[p].children[1] < p {
        assert(0 <= a.nodes[p].children[1]);
        assert(b.nodes[a.nodes[p].children[1] as int] == a.nodes[a.nodes[p].children[1] as int]);
    }
}

/// An `and` node about to be added whose operands are not `or` nodes.
pub open spec fn and_ok(st: RState, label: Seq<char>, children: Seq<usize>) -> bool {
    logic_node(st.nodes.push(RdNodeView { label, children }), st.nodes.len() as int, "and"@)
        ==> !logic_node(st.nodes, children[0] as int, "or"@) && !logic_node(
        st.nodes,
        children[2] as int,
        "or"@,
    )
}

/// Adding a node that is not an `and` over an `or` keeps the property.
proof fn lemma_add_node(st: RState, label: Seq<char>, children: Seq<usize>)
    ensures
        and_binds_tighter(st.nodes) && and_ok(st, label, children) ==> and_binds_tighter(
            add_node(st, label, children).0.nodes,
        ),
        extends(st, add_node(st, label, children).0),
        add_node(st, label, children).0.nodes.len() == st.nodes.len() + 1,
        add_node(st, label, children).0.nodes[st.nodes.len() as int] == (RdNodeView { label, children }),
        add_node(st, label, children).0.pos == st.pos,
        st.nodes.len() <= usize::MAX ==> add_node(st, label, children).1 == st.nodes.len(),
{
    let s2 = add_node(st, label, children).0;
    lemma_labels();
    assert(extends(st, s2));
    if and_binds_tighter(st.nodes) && and_ok(st, label, children) {
        assert forall|p: int| #[trigger] logic_node(s2.nodes, p, "and"@) implies !logic_node(
            s2.nodes,
            s2.nodes[p].children[0] as int,
            "or"@,
        ) && !logic_node(s2.nodes, s2.nodes[p].children[2] as int, "or"@) by {
            if p < st.nodes.len() {
                lemma_logic_kept(st, s2, p, "and"@);
                let c0 = s2.nodes[p].children[0] as int;
                let c2 = s2.nodes[p].children[2] as int;
                assert(s2.nodes[p] == st.nodes[p]);
                lemma_logic_kept(st, s2, c0, "or"@);
                lemma_logic_kept(st, s2, c2, "or"@);
            } else {
                lemma_logic_kept(st, s2, children[0] as int, "or"@);
                lemma_logic_kept(st, s2, children[2] as int, "or"@);
            }
        }
    }
}

/// The nodes fit the index type.
pub open spec fn fits(st: RState) -> bool {
    st.nodes.len() <= usize::MAX
}

proof fn lemma_terminal(t: Seq<TokenView>, st: RState, kind: Terminal)
    requires
        r_terminal(t, st, kind) is Ok,
    ensures
        ({
            let (r, leaf) = r_terminal(t, st, kind)->Ok_0;
            &&& extends(st, r)
            &&& (and_binds_tighter(st.nodes) ==> and_binds_tighter(r.nodes))
            &&& r.nodes.len() == st.nodes.len() + 1
            &&& r.nodes[st.nodes.len() as int].label == terminal_text(kind)
            &&& (st.nodes.len() <= usize::MAX ==> leaf == st.nodes.len())
            &&& r.pos == st.pos + 1
        }),
{
    let s1 = RState { pos: st.pos + 1, nodes: st.nodes, trace: st.trace.push("match "@ + terminal_text(kind)) };
    lemma_add_node(s1, terminal_text(kind), Seq::empty());
}

/// A rule that builds no connective node: it adds nodes and keeps the
/// property.
pub open spec fn keeps(st: RState, r: RState) -> bool {
    &&& extends(st, r)
    &&& (and_binds_tighter(st.nodes) ==> and_binds_tighter(r.nodes))
}

proof fn lemma_variable(t: Seq<TokenView>, st: RState)
    requires
        r_variable(t, st) is Ok,
    ensures
        keeps(st, r_variable(t, st)->Ok_0.0),
{
    let s0 = enter(st, "parse_variable"@);
    lemma_terminal(t, s0, Terminal::Id);
    let (s1, id) = r_terminal(t, s0, Terminal::Id)->Ok_0;
    lemma_add_node(s1, "Variable"@, seq![id]);
    lemma_extends_trans(st, s1, r_variable(t, st)->Ok_0.0);
}

proof fn lemma_expr(t: Seq<TokenView>, st: RState)
    requires
        r_expr(t, st) is Ok,
    ensures
        keeps(st, r_expr(t, st)->Ok_0.0),
    decreases t.len() - st.pos, 3int,
{
    let s0 = enter(st, "parse_expr"@);
    lemma_expr_bp(t, s0, 0);
    let (s1, e) = r_expr_bp(t, s0, 0)->Ok_0;
    lemma_add_node(s1, "Expr"@, seq![e]);
    lemma_extends_trans(st, s1, r_expr(t, st)->Ok_0.0);
}

proof fn lemma_expr_bp(t: Seq<TokenView>, st: RState, m: u8)
    requires
        r_expr_bp(t, st, m) is Ok,
    ensures
        keeps(st, r_expr_bp(t, st, m)->Ok_0.0),
    decreases t.len() - st.pos, 2int,
{
    lemma_expr_atom(t, st);
    let (s1, l) = r_expr_atom(t, st)->Ok_0;
    lemma_expr_rest(t, s1, l, m);
    lemma_extends_trans(st, s1, r_expr_bp(t, st, m)->Ok_0.0);
}

proof fn lemma_expr_rest(t: Seq<TokenView>, st: RState, left: usize, m: u8)
    requires
        r_expr_rest(t, st, left, m) is Ok,
    ensures
        keeps(st, r_expr_rest(t, st, left, m)->Ok_0.0),
    decreases t.len() - st.pos, 0int,
{
    let tk = look(t, st.pos)->Some_0;
    match arith_power(tk.kind) {
        None => {},
        Some((lbp, rbp)) => {
            if lbp >= m {
                lemma_labels();
                lemma_terminal(t, st, tk.kind);
                let (s1, op) = r_terminal(t, st, tk.kind)->Ok_0;
                lemma_expr_bp(t, s1, rbp);
                let (s2, right) = r_expr_bp(t, s1, rbp)->Ok_0;
                lemma_add_node(s2, "BinaryExpr"@, seq![left, op, right]);
                let (s3, node) = add_node(s2, "BinaryExpr"@, seq![left, op, right]);
                lemma_expr_rest(t, s3, node, m);
                lemma_extends_trans(st, s1, s2);
                lemma_extends_trans(st, s2, s3);
                lemma_extends_trans(st, s3, r_expr_rest(t, st, left, m)->Ok_0.0);
            }
        },
    }
}

proof fn lemma_expr_atom(t: Seq<TokenView>, st: RState)
    requires
        r_expr_atom(t, st) is Ok,
    ensures
        keeps(st, r_expr_atom(t, st)->Ok_0.0),
    decreases t.len() - st.pos, 1int,
{
    let tk = look(t, st.pos)->Some_0;
    if tk.kind == Terminal::Id {
        lemma_variable(t, st);
    } else if tk.kind == Terminal::Num {
        lemma_terminal(t, st, Terminal::Num);
        let (s1, num) = r_terminal(t, st, Terminal::Num)->Ok_0;
        lemma_add_node(s1, "Number"@, seq![num]);
        lemma_extends_trans(st, s1, r_expr_atom(t, st)->Ok_0.0);
    } else {
        lemma_labels();
        lemma_terminal(t, st, Terminal::LParen);
        let (s1, lp) = r_terminal(t, st, Terminal::LParen)->Ok_0;
        lemma_expr(t, s1);
        let (s2, e) = r_expr(t, s1)->Ok_0;
        lemma_terminal(t, s2, Terminal::RParen);
        let (s3, rp) = r_terminal(t, s2, Terminal::RParen)->Ok_0;
        lemma_add_node(s3, "GroupedExpr"@, seq![lp, e, rp]);
        lemma_extends_trans(st, s1, s2);
        lemma_extends_trans(st, s2, s3);
        lemma_extends_trans(st, s3, r_expr_atom(t, st)->Ok_0.0);
    }
}

proof fn lemma_relation(t: Seq<TokenView>, st: RState)
    requires
        r_relation(t, st) is Ok,
    ensures
        keeps(st, r_relation(t, st)->Ok_0.0),
{
    lemma_labels();
    let tk = look(t, st.pos)->Some_0;
    let (s1, l) = if tk.kind == Terminal::Id {
        lemma_variable(t, st);
        r_variable(t, st)->Ok_0
    } else {
        lemma_terminal(t, st, Terminal::Num);
        let (sa, num) = r_terminal(t, st, Terminal::Num)->Ok_0;
        lemma_add_node(sa, "Number"@, seq![num]);
        lemma_extends_trans(st, sa, add_node(sa, "Number"@, seq![num]).0);
        add_node(sa, "Number"@, seq![num])
    };
    let tk2 = look(t, s1.pos)->Some_0;
    lemma_terminal(t, s1, tk2.kind);
    let (s2, op) = r_terminal(t, s1, tk2.kind)->Ok_0;
    lemma_expr(t, s2);
    let (s3, right) = r_expr(t, s2)->Ok_0;
    lemma_extends_trans(st, s1, s2);
    lemma_extends_trans(st, s2, s3);
    let r = r_relation(t, st)->Ok_0.0;
    lemma_add_node(s3, "Relation"@, seq![l, op, right]);
    lemma_extends_trans(st, s3, r);
}

/// What a boolean rule gives: nodes added, the property kept, and a result
/// node that is an `or` node only at the loosest level.
pub open spec fn bool_result(st: RState, r: RState, e: usize, m: u8) -> bool {
    &&& extends(st, r)
    &&& (and_binds_tighter(st.nodes) && fits(r) ==> {
        &&& and_binds_tighter(r.nodes)
        &&& e < r.nodes.len()
        &&& (m >= 2 ==> !logic_node(r.nodes, e as int, "or"@))
    })
}

proof fn lemma_bool_expr(t: Seq<TokenView>, st: RState)
    requires
        r_bool_expr(t, st) is Ok,
    ensures
        bool_result(st, r_bool_expr(t, st)->Ok_0.0, r_bool_expr(t, st)->Ok_0.1, 0),
    decreases t.len() - st.pos, 4int,
{
    let s0 = enter(st, "parse_bool_expr"@);
    lemma_bool_bp(t, s0, 0);
    let (s1, e) = r_bool_bp(t, s0, 0)->Ok_0;
    lemma_add_node(s1, "BoolExpr"@, seq![e]);
    lemma_extends_trans(st, s1, r_bool_expr(t, st)->Ok_0.0);
}

proof fn lemma_bool_atom(t: Seq<TokenView>, st: RState)
    requires
        r_bool_atom(t, st) is Ok,
    ensures
        bool_result(st, r_bool_atom(t, st)->Ok_0.0, r_bool_atom(t, st)->Ok_0.1, 5),
    decreases t.len() - st.pos, 2int,
{
    lemma_labels();
    let tk = look(t, st.pos)->Some_0;
    let (r, e) = r_bool_atom(t, st)->Ok_0;
    if tk.kind == Terminal::True || tk.kind == Terminal::False {
        lemma_terminal(t, st, tk.kind);
        let (s1, lit) = r_terminal(t, st, tk.kind)->Ok_0;
        lemma_add_node(s1, "BoolLiteral"@, seq![lit]);
        lemma_extends_trans(st, s1, r);
    } else if tk.kind == Terminal::LParen {
        lemma_terminal(t, st, Terminal::LParen);
        let (s1, lp) = r_terminal(t, st, Terminal::LParen)->Ok_0;
        lemma_bool_expr(t, s1);
        let (s2, be) = r_bool_expr(t, s1)->Ok_0;
        lemma_terminal(t, s2, Terminal::RParen);
        let (s3, rp) = r_terminal(t, s2, Terminal::RParen)->Ok_0;
        lemma_add_node(s3, "GroupedBoolExpr"@, seq![lp, be, rp]);
        lemma_extends_trans(st, s1, s2);
        lemma_extends_trans(st, s2, s3);
        lemma_extends_trans(st, s3, r);
    } else {
        lemma_relation(t, st);
    }
}

proof fn lemma_bool_bp(t: Seq<TokenView>, st: RState, m: u8)
    requires
        r_bool_bp(t, st, m) is Ok,
    ensures
        bool_result(st, r_bool_bp(t, st, m)->Ok_0.0, r_bool_bp(t, st, m)->Ok_0.1, m),
        bool_stops(t, r_bool_bp(t, st, m)->Ok_0.0.pos, m),
    decreases t.len() - st.pos, 3int,
{
    let tk = look(t, st.pos)->Some_0;
    let r = r_bool_bp(t, st, m)->Ok_0.0;
    if tk.kind == Terminal::Not {
        lemma_terminal(t, st, Terminal::Not);
        let (s1, kw) = r_terminal(t, st, Terminal::Not)->Ok_0;
        lemma_bool_bp(t, s1, 5);
        let (s2, e) = r_bool_bp(t, s1, 5)->Ok_0;
        lemma_add_node(s2, "NotExpr"@, seq![kw, e]);
        let (s3, n) = add_node(s2, "NotExpr"@, seq![kw, e]);
        lemma_bool_rest(t, s3, n, m);
        lemma_extends_trans(st, s1, s2);
        lemma_extends_trans(st, s2, s3);
        lemma_extends_trans(st, s3, r);
    } else {
        lemma_bool_atom(t, st);
        let (s1, n) = r_bool_atom(t, st)->Ok_0;
        lemma_bool_rest(t, s1, n, m);
        lemma_extends_trans(st, s1, r);
    }
}

/// The loop's own conditions on the operand read so far.
pub open spec fn rest_ready(t: Seq<TokenView>, st: RState, left: usize, m: u8) -> bool {
    &&& left < st.nodes.len()
    &&& (m >= 2 ==> !logic_node(st.nodes, left as int, "or"@))
    &&& (logic_node(st.nodes, left as int, "or"@) ==> !(look(t, st.pos) matches Some(tk)
        && tk.kind == Terminal::And))
}

proof fn lemma_bool_rest(t: Seq<TokenView>, st: RState, left: usize, m: u8)
    requires
        r_bool_rest(t, st, left, m) is Ok,
    ensures
        extends(st, r_bool_rest(t, st, left, m)->Ok_0.0),
        rest_ready(t, st, left, m) ==> bool_result(
            st,
            r_bool_rest(t, st, left, m)->Ok_0.0,
            r_bool_rest(t, st, left, m)->Ok_0.1,
            m,
        ),
        bool_stops(t, r_bool_rest(t, st, left, m)->Ok_0.0.pos, m),
    decreases t.len() - st.pos, 0int,
{
    let tk = look(t, st.pos)->Some_0;
    let r = r_bool_rest(t, st, left, m)->Ok_0.0;
    match logic_power(tk.kind) {
        None => {
            assert(extends(st, st));
        },
        Some((lbp, rbp)) => {
            if lbp < m {
                assert(extends(st, st));
            } else {
                lemma_labels();
                lemma_terminal(t, st, tk.kind);
                let (s1, op) = r_terminal(t, st, tk.kind)->Ok_0;
                lemma_bool_bp(t, s1, rbp);
                let (s2, right) = r_bool_bp(t, s1, rbp)->Ok_0;
                let ch = seq![left, op, right];
                lemma_add_node(s2, "LogicalExpr"@, ch);
                let (s3, node) = add_node(s2, "LogicalExpr"@, ch);
                lemma_bool_rest(t, s3, node, m);
                lemma_extends_trans(st, s1, s2);
                lemma_extends_trans(st, s2, s3);
                lemma_extends_trans(st, s3, r);
                lemma_extends_trans(s2, s3, r);
                if rest_ready(t, st, left, m) && and_binds_tighter(st.nodes) && fits(r) {
                    assert(s2.nodes[op as int] == s1.nodes[op as int]);
                    assert(s3.nodes[op as int] == s2.nodes[op as int]);
                    lemma_logic_kept(st, s2, left as int, "or"@);
                    lemma_logic_kept(s2, s3, left as int, "or"@);
                    lemma_logic_kept(s2, s3, right as int, "or"@);
                    assert(and_ok(s2, "LogicalExpr"@, ch));
                    assert(rest_ready(t, s3, node, m));
                }
            }
        },
    }
}

/// `and` binds tighter than `or` in every boolean expression the parser
/// reads: the nodes it adds never join an `or` node directly under an `and`
/// node.
pub proof fn lemma_and_binds_tighter(t: Seq<TokenView>, st: RState)
    requires
        and_binds_tighter(st.nodes),
        r_bool_expr(t, st) is Ok,
        r_bool_expr(t, st)->Ok_0.0.nodes.len() <= usize::MAX,
    ensures
        and_binds_tighter(r_bool_expr(t, st)->Ok_0.0.nodes),
{
    lemma_bool_expr(t, st);
}


/// A rule added nodes, and kept the property where the nodes fit.
pub open spec fn keeps_fit(st: RState, r: RState) -> bool {
    &&& extends(st, r)
    &&& (and_binds_tighter(st.nodes) && fits(r) ==> and_binds_tighter(r.nodes))
}

proof fn lemma_kf_trans(a: RState, b: RState, c: RState)
    requires
        keeps_fit(a, b),
        keeps_fit(b, c),
    ensures
        keeps_fit(a, c),
{
    lemma_extends_trans(a, b, c);
}

proof fn lemma_add_plain(st: RState, label: Seq<char>, children: Seq<usize>)
    requires
        label != "LogicalExpr"@ || children.len() != 3,
    ensures
        keeps_fit(st, add_node(st, label, children).0),
{
    lemma_add_node(st, label, children);
}

proof fn lemma_terminal_kf(t: Seq<TokenView>, st: RState, kind: Terminal)
    requires
        r_terminal(t, st, kind) is Ok,
    ensures
        keeps_fit(st, r_terminal(t, st, kind)->Ok_0.0),
{
    lemma_terminal(t, st, kind);
}

proof fn lemma_expr_kf(t: Seq<TokenView>, st: RState)
    requires
        r_expr(t, st) is Ok,
    ensures
        keeps_fit(st, r_expr(t, st)->Ok_0.0),
{
    lemma_expr(t, st);
}

proof fn lemma_bool_expr_kf(t: Seq<TokenView>, st: RState)
    requires
        r_bool_expr(t, st) is Ok,
    ensures
        keeps_fit(st, r_bool_expr(t, st)->Ok_0.0),
{
    lemma_bool_expr(t, st);
}

proof fn lemma_assign_kf(t: Seq<TokenView>, st: RState)
    requires
        r_assign(t, st) is Ok,
    ensures
        keeps_fit(st, r_assign(t, st)->Ok_0.0),
{
    lemma_labels();
    let s0 = enter(st, "parse_assign_stmt"@);
    lemma_variable(t, s0);
    let (s1, var) = r_variable(t, s0)->Ok_0;
    lemma_terminal_kf(t, s1, Terminal::Assign);
    let (s2, eq) = r_terminal(t, s1, Terminal::Assign)->Ok_0;
    lemma_expr_kf(t, s2);
    let (s3, e) = r_expr(t, s2)->Ok_0;
    lemma_add_plain(s3, "AssignStmt"@, seq![var, eq, e]);
    lemma_kf_trans(st, s1, s2);
    lemma_kf_trans(st, s2, s3);
    lemma_kf_trans(st, s3, r_assign(t, st)->Ok_0.0);
}

proof fn lemma_decl_kf(t: Seq<TokenView>, st: RState)
    requires
        r_decl(t, st) is Ok,
    ensures
        keeps_fit(st, r_decl(t, st)->Ok_0.0),
{
    lemma_labels();
    let s0 = enter(st, "parse_decl_stmt"@);
    lemma_terminal_kf(t, s0, Terminal::Let);
    let (s1, kw) = r_terminal(t, s0, Terminal::Let)->Ok_0;
    lemma_variable(t, s1);
    let (s2, var) = r_variable(t, s1)->Ok_0;
    lemma_kf_trans(st, s1, s2);
    let tk = look(t, s2.pos)->Some_0;
    let r = r_decl(t, st)->Ok_0.0;
    if tk.kind == Terminal::Assign {
        lemma_terminal_kf(t, s2, Terminal::Assign);
        let (s3, eq) = r_terminal(t, s2, Terminal::Assign)->Ok_0;
        lemma_expr_kf(t, s3);
        let (s4, e) = r_expr(t, s3)->Ok_0;
        lemma_add_plain(s4, "DeclStmt"@, seq![kw, var, eq, e]);
        lemma_kf_trans(st, s2, s3);
        lemma_kf_trans(st, s3, s4);
        lemma_kf_trans(st, s4, r);
    } else {
        let (s3, eps) = epsilon(s2);
        lemma_add_plain(s2, "ε"@, Seq::empty());
        lemma_add_plain(s3, "DeclStmt"@, seq![kw, var, eps]);
        lemma_kf_trans(st, s2, s3);
        lemma_kf_trans(st, s3, r);
    }
}

proof fn lemma_stmt_list_kf(t: Seq<TokenView>, st: RState)
    requires
        r_stmt_list(t, st) is Ok,
    ensures
        keeps_fit(st, r_stmt_list(t, st)->Ok_0.0),
    decreases t.len() - st.pos, 3int, 1int,
{
    let s0 = enter(st, "parse_stmt_list"@);
    lemma_statement_kf(t, s0);
    let (s1, first) = r_statement(t, s0)->Ok_0;
    lemma_stmt_list_rest_kf(t, s1, seq![first]);
    lemma_kf_trans(st, s1, r_stmt_list(t, st)->Ok_0.0);
}

proof fn lemma_stmt_list_rest_kf(t: Seq<TokenView>, st: RState, items: Seq<usize>)
    requires
        r_stmt_list_rest(t, st, items) is Ok,
    ensures
        keeps_fit(st, r_stmt_list_rest(t, st, items)->Ok_0.0),
    decreases t.len() - st.pos, 3int, 0int,
{
    lemma_labels();
    let tk = look(t, st.pos)->Some_0;
    if starts_stmt(tk.kind) {
        lemma_statement_kf(t, st);
        let (s1, s) = r_statement(t, st)->Ok_0;
        lemma_stmt_list_rest_kf(t, s1, items.push(s));
        lemma_kf_trans(st, s1, r_stmt_list_rest(t, st, items)->Ok_0.0);
    } else {
        lemma_add_plain(st, "StmtList"@, items);
    }
}

proof fn lemma_statement_kf(t: Seq<TokenView>, st: RState)
    requires
        r_statement(t, st) is Ok,
    ensures
        keeps_fit(st, r_statement(t, st)->Ok_0.0),
    decreases t.len() - st.pos, 2int, 0int,
{
    lemma_labels();
    reveal_strlit("Statement");
    assert("Statement"@.len() != "LogicalExpr"@.len()) by {
        reveal_strlit("LogicalExpr");
    }
    let s1 = enter(st, "parse_statement"@);
    let tk = look(t, s1.pos)->Some_0;
    let r = r_statement(t, st)->Ok_0.0;
    if tk.kind == Terminal::Let || tk.kind == Terminal::Id {
        if tk.kind == Terminal::Let {
            lemma_decl_kf(t, s1);
        } else {
            lemma_assign_kf(t, s1);
        }
        let (s2, sm) = if tk.kind == Terminal::Let {
            r_decl(t, s1)->Ok_0
        } else {
            r_assign(t, s1)->Ok_0
        };
        lemma_terminal_kf(t, s2, Terminal::Semicolon);
        let (s3, semi) = r_terminal(t, s2, Terminal::Semicolon)->Ok_0;
        lemma_add_plain(s3, "Statement"@, seq![sm, semi]);
        lemma_kf_trans(st, s2, s3);
        lemma_kf_trans(st, s3, r);
    } else {
        if tk.kind == Terminal::If {
            lemma_if_kf(t, s1);
        } else if tk.kind == Terminal::While {
            lemma_while_kf(t, s1);
        } else {
            lemma_block_kf(t, s1);
        }
        let (s2, sm) = if tk.kind == Terminal::If {
            r_if(t, s1)->Ok_0
        } else if tk.kind == Terminal::While {
            r_while(t, s1)->Ok_0
        } else {
            r_block(t, s1)->Ok_0
        };
        lemma_add_plain(s2, "Statement"@, seq![sm]);
        lemma_kf_trans(st, s2, r);
    }
}

proof fn lemma_block_kf(t: Seq<TokenView>, st: RState)
    requires
        r_block(t, st) is Ok,
    ensures
        keeps_fit(st, r_block(t, st)->Ok_0.0),
    decreases t.len() - st.pos, 1int, 0int,
{
    lemma_labels();
    let s0 = enter(st, "parse_block"@);
    lemma_terminal_kf(t, s0, Terminal::LBrace);
    let (s1, lb) = r_terminal(t, s0, Terminal::LBrace)->Ok_0;
    let tk = look(t, s1.pos)->Some_0;
    let r = r_block(t, st)->Ok_0.0;
    if starts_stmt(tk.kind) {
        lemma_stmt_list_kf(t, s1);
    } else {
        lemma_add_plain(s1, "ε"@, Seq::empty());
    }
    let (s2, b) = if starts_stmt(tk.kind) {
        r_stmt_list(t, s1)->Ok_0
    } else {
        epsilon(s1)
    };
    lemma_terminal_kf(t, s2, Terminal::RBrace);
    let (s3, rb) = r_terminal(t, s2, Terminal::RBrace)->Ok_0;
    lemma_add_plain(s3, "Block"@, seq![lb, b, rb]);
    lemma_kf_trans(st, s1, s2);
    lemma_kf_trans(st, s2, s3);
    lemma_kf_trans(st, s3, r);
}

proof fn lemma_if_kf(t: Seq<TokenView>, st: RState)
    requires
        r_if(t, st) is Ok,
    ensures
        keeps_fit(st, r_if(t, st)->Ok_0.0),
    decreases t.len() - st.pos, 1int, 0int,
{
    lemma_labels();
    reveal_strlit("IfStmt");
    assert("IfStmt"@[0] != "LogicalExpr"@[0]) by {
        reveal_strlit("LogicalExpr");
    }
    let s0 = enter(st, "parse_if_stmt"@);
    lemma_terminal_kf(t, s0, Terminal::If);
    let (s1, kw) = r_terminal(t, s0, Terminal::If)->Ok_0;
    lemma_terminal_kf(t, s1, Terminal::LParen);
    let (s2, lp) = r_terminal(t, s1, Terminal::LParen)->Ok_0;
    lemma_bool_expr_kf(t, s2);
    let (s3, cond) = r_bool_expr(t, s2)->Ok_0;
    lemma_terminal_kf(t, s3, Terminal::RParen);
    let (s4, rp) = r_terminal(t, s3, Terminal::RParen)->Ok_0;
    lemma_block_kf(t, s4);
    let (s5, tb) = r_block(t, s4)->Ok_0;
    lemma_kf_trans(st, s1, s2);
    lemma_kf_trans(st, s2, s3);
    lemma_kf_trans(st, s3, s4);
    lemma_kf_trans(st, s4, s5);
    let r = r_if(t, st)->Ok_0.0;
    let tk = look(t, s5.pos)->Some_0;
    if tk.kind == Terminal::Else {
        lemma_terminal_kf(t, s5, Terminal::Else);
        let (s6, ekw) = r_terminal(t, s5, Terminal::Else)->Ok_0;
        let t2 = look(t, s6.pos)->Some_0;
        if t2.kind == Terminal::If {
            lemma_if_kf(t, s6);
        } else {
            lemma_block_kf(t, s6);
        }
        let (s7, b) = if t2.kind == Terminal::If {
            r_if(t, s6)->Ok_0
        } else {
            r_block(t, s6)->Ok_0
        };
        lemma_add_plain(s7, "IfStmt"@, seq![kw, lp, cond, rp, tb, ekw, b]);
        lemma_kf_trans(st, s5, s6);
        lemma_kf_trans(st, s6, s7);
        lemma_kf_trans(st, s7, r);
    } else {
        let (s6, eps) = epsilon(s5);
        lemma_add_plain(s5, "ε"@, Seq::empty());
        lemma_add_plain(s6, "IfStmt"@, seq![kw, lp, cond, rp, tb, eps]);
        lemma_kf_trans(st, s5, s6);
        lemma_kf_trans(st, s6, r);
    }
}

proof fn lemma_while_kf(t: Seq<TokenView>, st: RState)
    requires
        r_while(t, st) is Ok,
    ensures
        keeps_fit(st, r_while(t, st)->Ok_0.0),
    decreases t.len() - st.pos, 1int, 0int,
{
    lemma_labels();
    reveal_strlit("WhileStmt");
    assert("WhileStmt"@[0] != "LogicalExpr"@[0]) by {
        reveal_strlit("LogicalExpr");
    }
    let s0 = enter(st, "parse_while_stmt"@);
    lemma_terminal_kf(t, s0, Terminal::While);
    let (s1, kw) = r_terminal(t, s0, Terminal::While)->Ok_0;
    lemma_terminal_kf(t, s1, Terminal::LParen);
    let (s2, lp) = r_terminal(t, s1, Terminal::LParen)->Ok_0;
    lemma_bool_expr_kf(t, s2);
    let (s3, cond) = r_bool_expr(t, s2)->Ok_0;
    lemma_terminal_kf(t, s3, Terminal::RParen);
    let (s4, rp) = r_terminal(t, s3, Terminal::RParen)->Ok_0;
    lemma_block_kf(t, s4);
    let (s5, body) = r_block(t, s4)->Ok_0;
    lemma_add_plain(s5, "WhileStmt"@, seq![kw, lp, cond, rp, body]);
    lemma_kf_trans(st, s1, s2);
    lemma_kf_trans(st, s2, s3);
    lemma_kf_trans(st, s3, s4);
    lemma_kf_trans(st, s4, s5);
    lemma_kf_trans(st, s5, r_while(t, st)->Ok_0.0);
}

/// In every tree the recursive-descent parser builds, `and` binds tighter
/// than `or`: no `and` node has an `or` node as its left or right operand
/// (such an `or` is always inside a parenthesized group).
pub proof fn lemma_tree_and_binds_tighter(t: Seq<TokenView>)
    requires
        spec_rd_parse(t) is Ok,
        spec_rd_parse(t)->Ok_0.1.len() <= usize::MAX,
    ensures
        and_binds_tighter(spec_rd_parse(t)->Ok_0.1),
{
    lemma_labels();
    reveal_strlit("Program");
    assert("Program"@.len() != "LogicalExpr"@.len()) by {
        reveal_strlit("LogicalExpr");
    }
    let s0 = enter(start_state(), "parse_program"@);
    lemma_stmt_list_kf(t, s0);
    let (s1, list) = r_stmt_list(t, s0)->Ok_0;
    lemma_add_plain(s1, "Program"@, seq![list]);
    assert(and_binds_tighter(Seq::<RdNodeView>::empty()));
}

} // verus!
