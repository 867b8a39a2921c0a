//! Printed listings of the FIRST and FOLLOW sets and of the LL(1) parse
//! table.
use vstd::prelude::*;
use crate::first_follow::{
    ParseTable, all_cands, build_parse_table, conflict_text, fill, get_first_set, get_follow_set,
    least_first, least_follow,
};
use crate::grammar::{
    Grammar, GrammarView, ProductionView, least_nullable, lhs_set, production_text, well_formed,
};
use crate::sets::{SymbolSet, SymbolSets, slot};
use crate::symbol::{
    NonTerminal, Symbol, Terminal, all_nonterminals, all_terminals, nonterminal_name, symbol_text,
    terminal_text,
};
use crate::text::push_char;

verus! {

/// The items separated by `sep`.
pub open spec fn joined(items: Seq<Seq<char>>, sep: Seq<char>) -> Seq<char>
    decreases items.len(),
{
    if items.len() == 0 {
        Seq::empty()
    } else if items.len() == 1 {
        items[0]
    } else {
        joined(items.drop_last(), sep) + sep + items.last()
    }
}

/// One more item: after the others and a separator, or alone.
proof fn lemma_joined_push(items: Seq<Seq<char>>, sep: Seq<char>, x: Seq<char>)
    ensures
        joined(items.push(x), sep) == if items.len() == 0 {
            x
        } else {
            joined(items, sep) + sep + x
        },
{
    assert(items.push(x).drop_last() =~= items);
}

/// The terminals and ε in the order of their printed texts.
pub open spec fn print_order() -> Seq<Symbol> {
    seq![
        Symbol::Terminal(Terminal::Ne),
        Symbol::Terminal(Terminal::End),
        Symbol::Terminal(Terminal::LParen),
        Symbol::Terminal(Terminal::RParen),
        Symbol::Terminal(Terminal::Star),
        Symbol::Terminal(Terminal::Plus),
        Symbol::Terminal(Terminal::Minus),
        Symbol::Terminal(Terminal::Slash),
        Symbol::Terminal(Terminal::Semicolon),
        Symbol::Terminal(Terminal::Lt),
        Symbol::Terminal(Terminal::Le),
        Symbol::Terminal(Terminal::Assign),
        Symbol::Terminal(Terminal::Eq),
        Symbol::Terminal(Terminal::Gt),
        Symbol::Terminal(Terminal::Ge),
        Symbol::Terminal(Terminal::And),
        Symbol::Terminal(Terminal::Else),
        Symbol::Terminal(Terminal::False),
        Symbol::Terminal(Terminal::Id),
        Symbol::Terminal(Terminal::If),
        Symbol::Terminal(Terminal::Let),
        Symbol::Terminal(Terminal::Not),
        Symbol::Terminal(Terminal::Num),
        Symbol::Terminal(Terminal::Or),
        Symbol::Terminal(Terminal::True),
        Symbol::Terminal(Terminal::While),
        Symbol::Terminal(Terminal::LBrace),
        Symbol::Terminal(Terminal::RBrace),
        Symbol::Epsilon,
    ]
}

fn print_order_vec() -> (v: Vec<Symbol>)
    ensures
        v@ == print_order(),
{
    let v = vec![
        Symbol::Terminal(Terminal::Ne),
        Symbol::Terminal(Terminal::End),
        Symbol::Terminal(Terminal::LParen),
        Symbol::Terminal(Terminal::RParen),
        Symbol::Terminal(Terminal::Star),
        Symbol::Terminal(Terminal::Plus),
        Symbol::Terminal(Terminal::Minus),
        Symbol::Terminal(Terminal::Slash),
        Symbol::Terminal(Terminal::Semicolon),
        Symbol::Terminal(Terminal::Lt),
        Symbol::Terminal(Terminal::Le),
        Symbol::Terminal(Terminal::Assign),
        Symbol::Terminal(Terminal::Eq),
        Symbol::Terminal(Terminal::Gt),
        Symbol::Terminal(Terminal::Ge),
        Symbol::Terminal(Terminal::And),
        Symbol::Terminal(Terminal::Else),
        Symbol::Terminal(Terminal::False),
        Symbol::Terminal(Terminal::Id),
        Symbol::Terminal(Terminal::If),
        Symbol::Terminal(Terminal::Let),
        Symbol::Terminal(Terminal::Not),
        Symbol::Terminal(Terminal::Num),
        Symbol::Terminal(Terminal::Or),
        Symbol::Terminal(Terminal::True),
        Symbol::Terminal(Terminal::While),
        Symbol::Terminal(Terminal::LBrace),
        Symbol::Terminal(Terminal::RBrace),
        Symbol::Epsilon,
    ];
    assert(v@ =~= print_order());
    v
}

/// The texts of the members of `s` among the first `k` symbols of the
/// print order, in that order.
pub open spec fn member_texts(s: Set<Symbol>, k: int) -> Seq<Seq<char>>
    decreases k,
{
    if k <= 0 {
        Seq::empty()
    } else {
        member_texts(s, k - 1) + if s.contains(print_order()[k - 1]) {
            seq![symbol_text(print_order()[k - 1])]
        } else {
            Seq::empty()
        }
    }
}

/// How a set of terminals and ε prints: `{ a, b, c }`, its members sorted
/// by their text (`{  }` when it is empty).
pub open spec fn set_text(s: Set<Symbol>) -> Seq<char> {
    "{ "@ + joined(member_texts(s, 29), ", "@) + " }"@
}

/// Appends the printed form of `set` to `out`.
fn push_set_text(out: &mut String, set: &SymbolSet)
    ensures
        final(out)@ == old(out)@ + set_text(set@),
{
    let order = print_order_vec();
    out.append("{ ");
    let ghost head = out@;
    let ghost s = set@;
    let mut any = false;
    let mut k: usize = 0;
    while k < order.len()
        invariant
            order@ == print_order(),
            s == set@,
            k <= 29,
            out@ == head + joined(member_texts(s, k as int), ", "@),
            any == (member_texts(s, k as int).len() > 0),
        decreases 29 - k,
    {
        let sym = order[k];
        let ghost before = member_texts(s, k as int);
        if set.contains(sym) {
            if any {
                out.append(", ");
            }
            out.append(sym.as_text());
            proof {
                lemma_joined_push(before, ", "@, symbol_text(sym));
                assert(member_texts(s, k + 1) =~= before.push(symbol_text(sym)));
            }
            any = true;
        } else {
            assert(member_texts(s, k + 1) =~= before);
        }
        k = k + 1;
    }
    out.append(" }");
}

/// `a` comes strictly before `b` in string order: at the first place where
/// they differ the character of `a` is smaller, or `a` is a proper prefix of
/// `b`.
pub open spec fn text_before(a: Seq<char>, b: Seq<char>) -> bool
    decreases a.len(),
{
    if b.len() == 0 {
        false
    } else if a.len() == 0 {
        true
    } else if a[0] != b[0] {
        (a[0] as int) < (b[0] as int)
    } else {
        text_before(a.drop_first(), b.drop_first())
    }
}

/// Every item comes strictly before each later one.
pub open spec fn ascending(items: Seq<Seq<char>>) -> bool {
    forall|i: int, j: int|
        0 <= i < j < items.len() ==> text_before(#[trigger] items[i], #[trigger] items[j])
}

proof fn lemma_text_before_irreflexive(a: Seq<char>)
    ensures
        !text_before(a, a),
    decreases a.len(),
{
    if a.len() > 0 {
        lemma_text_before_irreflexive(a.drop_first());
    }
}

proof fn lemma_text_before_trans(a: Seq<char>, b: Seq<char>, c: Seq<char>)
    requires
        text_before(a, b),
        text_before(b, c),
    ensures
        text_before(a, c),
    decreases a.len(),
{
    if a.len() > 0 && a[0] == b[0] && b[0] == c[0] {
        lemma_text_before_trans(a.drop_first(), b.drop_first(), c.drop_first());
    }
}

/// Each symbol of the print order prints strictly before the next one.
proof fn lemma_print_order_adjacent(i: int)
    requires
        0 <= i < 28,
    ensures
        text_before(symbol_text(print_order()[i]), symbol_text(print_order()[i + 1])),
{
    reveal_strlit("!=");
    reveal_strlit("#");
    reveal_strlit("(");
    reveal_strlit(")");
    reveal_strlit("*");
    reveal_strlit("+");
    reveal_strlit("-");
    reveal_strlit("/");
    reveal_strlit(";");
    reveal_strlit("<");
    reveal_strlit("<=");
    reveal_strlit("=");
    reveal_strlit("==");
    reveal_strlit(">");
    reveal_strlit(">=");
    reveal_strlit("and");
    reveal_strlit("else");
    reveal_strlit("false");
    reveal_strlit("id");
    reveal_strlit("if");
    reveal_strlit("let");
    reveal_strlit("not");
    reveal_strlit("num");
    reveal_strlit("or");
    reveal_strlit("true");
    reveal_strlit("while");
    reveal_strlit("{");
    reveal_strlit("}");
    reveal_strlit("ε");
    reveal_with_fuel(text_before, 3);
    let a = symbol_text(print_order()[i]);
    let b = symbol_text(print_order()[i + 1]);
    assert(a.len() > 0 && b.len() > 0);
    if a[0] == b[0] {
        assert(a.drop_first().len() < b.drop_first().len() || a.drop_first()[0] != b.drop_first()[0]);
    }
}

/// The print order is strictly ascending by text.
proof fn lemma_print_order_sorted(i: int, j: int)
    requires
        0 <= i < j < 29,
    ensures
        text_before(symbol_text(print_order()[i]), symbol_text(print_order()[j])),
    decreases j - i,
{
    lemma_print_order_adjacent(j - 1);
    if i < j - 1 {
        lemma_print_order_sorted(i, j - 1);
        lemma_text_before_trans(
            symbol_text(print_order()[i]),
            symbol_text(print_order()[j - 1]),
            symbol_text(print_order()[j]),
        );
    }
}

/// The print order lists every terminal, and ε.
proof fn lemma_print_order_complete(x: Symbol)
    requires
        slot(x) is Some,
    ensures
        exists|j: int| 0 <= j < 29 && print_order()[j] == x,
{
    let po = print_order();
    match x {
        Symbol::Terminal(t) => match t {
            Terminal::Ne => assert(po[0] == x),
            Terminal::End => assert(po[1] == x),
            Terminal::LParen => assert(po[2] == x),
            Terminal::RParen => assert(po[3] == x),
            Terminal::Star => assert(po[4] == x),
            Terminal::Plus => assert(po[5] == x),
            Terminal::Minus => assert(po[6] == x),
            Terminal::Slash => assert(po[7] == x),
            Terminal::Semicolon => assert(po[8] == x),
            Terminal::Lt => assert(po[9] == x),
            Terminal::Le => assert(po[10] == x),
            Terminal::Assign => assert(po[11] == x),
            Terminal::Eq => assert(po[12] == x),
            Terminal::Gt => assert(po[13] == x),
            Terminal::Ge => assert(po[14] == x),
            Terminal::And => assert(po[15] == x),
            Terminal::Else => assert(po[16] == x),
            Terminal::False => assert(po[17] == x),
            Terminal::Id => assert(po[18] == x),
            Terminal::If => assert(po[19] == x),
            Terminal::Let => assert(po[20] == x),
            Terminal::Not => assert(po[21] == x),
            Terminal::Num => assert(po[22] == x),
            Terminal::Or => assert(po[23] == x),
            Terminal::True => assert(po[24] == x),
            Terminal::While => assert(po[25] == x),
            Terminal::LBrace => assert(po[26] == x),
            Terminal::RBrace => assert(po[27] == x),
        },
        Symbol::Epsilon => assert(po[28] == x),
        Symbol::NonTerminal(_) => {},
    }
}

/// The positions in the print order of the members of `s` among its first
/// `k` symbols.
spec fn member_positions(s: Set<Symbol>, k: int) -> Seq<int>
    decreases k,
{
    if k <= 0 {
        Seq::empty()
    } else {
        member_positions(s, k - 1) + if s.contains(print_order()[k - 1]) {
            seq![k - 1]
        } else {
            Seq::empty()
        }
    }
}

/// Item `idx` of `member_texts(s, k)` is the text of the member at
/// position `idx` of `member_positions(s, k)`; the positions increase, and
/// every member among the first `k` symbols is listed.
proof fn lemma_member_texts(s: Set<Symbol>, k: int)
    requires
        0 <= k <= 29,
    ensures
        member_positions(s, k).len() == member_texts(s, k).len(),
        forall|idx: int|
            0 <= idx < member_texts(s, k).len() ==> {
                let p = #[trigger] member_positions(s, k)[idx];
                &&& 0 <= p < k
                &&& s.contains(print_order()[p])
                &&& member_texts(s, k)[idx] == symbol_text(print_order()[p])
            },
        forall|a: int, b: int|
            0 <= a < b < member_texts(s, k).len() ==> #[trigger] member_positions(s, k)[a]
                < #[trigger] member_positions(s, k)[b],
        forall|i: int|
            0 <= i < k && s.contains(#[trigger] print_order()[i]) ==> member_texts(s, k).contains(
                symbol_text(print_order()[i]),
            ),
    decreases k,
{
    if k > 0 {
        lemma_member_texts(s, k - 1);
        let before = member_texts(s, k - 1);
        let pb = member_positions(s, k - 1);
        let x = print_order()[k - 1];
        let after = member_texts(s, k);
        let pa = member_positions(s, k);
        if s.contains(x) {
            assert(after =~= before.push(symbol_text(x)));
            assert(pa =~= pb.push(k - 1));
            assert forall|i: int| 0 <= i < k && s.contains(#[trigger] print_order()[i]) implies after.contains(
                symbol_text(print_order()[i]),
            ) by {
                if i < k - 1 {
                    let idx = choose|idx: int| 0 <= idx < before.len() && before[idx] == symbol_text(print_order()[i]);
                    assert(after[idx] == before[idx]);
                } else {
                    assert(after[after.len() - 1] == symbol_text(print_order()[i]));
                }
            }
        } else {
            assert(after =~= before);
            assert(pa =~= pb);
        }
    }
}

/// What `set_text` lists of a set: the texts of exactly its members,
/// ascending in string order.
pub proof fn lemma_set_text_sorted(s: Set<Symbol>)
    ensures
        ascending(member_texts(s, 29)),
        forall|x: Symbol|
            #![trigger s.contains(x)]
            slot(x) is Some ==> (s.contains(x) <==> member_texts(s, 29).contains(symbol_text(x))),
{
    lemma_member_texts(s, 29);
    let items = member_texts(s, 29);
    let pos = member_positions(s, 29);
    assert forall|i: int, j: int| 0 <= i < j < items.len() implies text_before(
        #[trigger] items[i],
        #[trigger] items[j],
    ) by {
        assert(pos[i] < pos[j]);
        lemma_print_order_sorted(pos[i], pos[j]);
    }
    assert forall|x: Symbol| #![trigger s.contains(x)] slot(x) is Some implies (s.contains(x)
        <==> items.contains(symbol_text(x))) by {
        lemma_print_order_complete(x);
        let j = choose|j: int| 0 <= j < 29 && print_order()[j] == x;
        if s.contains(x) {
            assert(s.contains(print_order()[j]));
        }
        if items.contains(symbol_text(x)) {
            let idx = choose|idx: int| 0 <= idx < items.len() && items[idx] == symbol_text(x);
            let i = pos[idx];
            assert(s.contains(print_order()[i]) && items[idx] == symbol_text(print_order()[i]));
            if i < j {
                lemma_print_order_sorted(i, j);
                lemma_text_before_irreflexive(symbol_text(x));
            } else if j < i {
                lemma_print_order_sorted(j, i);
                lemma_text_before_irreflexive(symbol_text(x));
            }
        }
    }
}

/// The lines `LABEL(A) = { ... }` for the nonterminals among the first `k`
/// (in declaration order) that have a set in `m`.
pub open spec fn set_lines(label: Seq<char>, m: Map<NonTerminal, Set<Symbol>>, k: int) -> Seq<Seq<char>>
    decreases k,
{
    if k <= 0 {
        Seq::empty()
    } else {
        let n = all_nonterminals()[k - 1];
        set_lines(label, m, k - 1) + if m.dom().contains(n) {
            seq![label + "("@ + nonterminal_name(n) + ") = "@ + set_text(m[n])]
        } else {
            Seq::empty()
        }
    }
}

/// The listing of the sets of `m`: one line per nonterminal that has a set,
/// in declaration order, without a final newline.
pub open spec fn sets_listing(label: Seq<char>, m: Map<NonTerminal, Set<Symbol>>) -> Seq<char> {
    joined(set_lines(label, m, 28), "\n"@)
}

/// The listing of the sets in `sets`, each line starting with `label`.
fn list_sets(label: &str, sets: &SymbolSets) -> (r: String)
    requires
        sets.wf(),
    ensures
        r@ == sets_listing(label@, sets@),
{
    let all = NonTerminal::all();
    let ghost m = sets@;
    let mut out = String::new();
    let mut any = false;
    let mut i: usize = 0;
    while i < all.len()
        invariant
            all@ == all_nonterminals(),
            m == sets@,
            sets.wf(),
            i <= 28,
            out@ == joined(set_lines(label@, m, i as int), "\n"@),
            any == (set_lines(label@, m, i as int).len() > 0),
        decreases 28 - i,
    {
        let n = all[i];
        let ghost before = set_lines(label@, m, i as int);
        match sets.get(n) {
            Some(set) => {
                let ghost start = out@;
                if any {
                    out.append("\n");
                }
                let ghost mid = out@;
                out.append(label);
                out.append("(");
                out.append(n.as_text());
                out.append(") = ");
                let ghost pre = out@;
                push_set_text(&mut out, set);
                let ghost line = label@ + "("@ + nonterminal_name(n) + ") = "@ + set_text(m[n]);
                proof {
                    assert(pre == mid + label@ + "("@ + nonterminal_name(n) + ") = "@);
                    assert(out@ =~= mid + line);
                    lemma_joined_push(before, "\n"@, line);
                    assert(set_lines(label@, m, i + 1) =~= before.push(line));
                }
                any = true;
            },
            None => {
                assert(set_lines(label@, m, i + 1) =~= before);
            },
        }
        i = i + 1;
    }
    out
}

/// The FIRST sets of `grammar`, one line `FIRST(A) = { ... }` per
/// nonterminal that has a production, in declaration order.
pub fn format_first_sets(grammar: &Grammar) -> (r: String)
    requires
        well_formed(grammar@),
    ensures
        r@ == sets_listing("FIRST"@, least_first(grammar@)),
{
    let first = get_first_set(grammar);
    list_sets("FIRST", &first)
}

/// The FOLLOW sets of `grammar`, one line `FOLLOW(A) = { ... }` per
/// nonterminal that has a production, in declaration order.
pub fn format_follow_sets(grammar: &Grammar) -> (r: String)
    requires
        well_formed(grammar@),
        lhs_set(grammar@).contains(grammar@.start),
    ensures
        r@ == sets_listing(
            "FOLLOW"@,
            least_follow(grammar@, least_first(grammar@), least_nullable(grammar@)),
        ),
{
    let first = get_first_set(grammar);
    let follow = get_follow_set(grammar, &first);
    list_sets("FOLLOW", &follow)
}

/// The line of the table entry for `n` and `t`: `A | t | A → ...`.
pub open spec fn entry_line(n: NonTerminal, t: Terminal, p: ProductionView) -> Seq<char> {
    nonterminal_name(n) + " | "@ + terminal_text(t) + " | "@ + production_text(p)
}

/// The lines of the entries of nonterminal `n` for the first `j` terminals
/// (in declaration order) that have one in `table`.
pub open spec fn table_row(
    table: Map<(NonTerminal, Terminal), ProductionView>,
    n: NonTerminal,
    j: int,
) -> Seq<Seq<char>>
    decreases j,
{
    if j <= 0 {
        Seq::empty()
    } else {
        let t = all_terminals()[j - 1];
        table_row(table, n, j - 1) + if table.dom().contains((n, t)) {
            seq![entry_line(n, t, table[(n, t)])]
        } else {
            Seq::empty()
        }
    }
}

/// The lines of the entries of the first `i` nonterminals (in declaration
/// order).
pub open spec fn table_rows(table: Map<(NonTerminal, Terminal), ProductionView>, i: int) -> Seq<
    Seq<char>,
>
    decreases i,
{
    if i <= 0 {
        Seq::empty()
    } else {
        table_rows(table, i - 1) + table_row(table, all_nonterminals()[i - 1], 28)
    }
}

/// The header of the table listing and its rule of 48 dashes.
pub open spec fn table_header() -> Seq<Seq<char>> {
    seq!["非终结符 | 向前看符号 | 产生式"@, Seq::new(48, |i: int| '-')]
}

/// How a parse table prints: the header, then one line per entry, by
/// nonterminal and then by terminal in declaration order.
pub open spec fn table_listing(table: Map<(NonTerminal, Terminal), ProductionView>) -> Seq<char> {
    joined(table_header() + table_rows(table, 28), "\n"@)
}

/// The listing of `table`.
fn list_table(table: &ParseTable) -> (r: String)
    requires
        table.wf(),
    ensures
        r@ == table_listing(table@),
{
    let nts = NonTerminal::all();
    let ts = Terminal::all();
    let ghost t = table@;
    let mut out = String::from_str("非终结符 | 向前看符号 | 产生式");
    out.append("\n");
    let ghost top = out@;
    let mut d: usize = 0;
    while d < 48
        invariant
            d <= 48,
            out@ == top + Seq::new(d as nat, |i: int| '-'),
        decreases 48 - d,
    {
        push_char(&mut out, '-');
        assert(out@ =~= top + Seq::new((d + 1) as nat, |i: int| '-'));
        d = d + 1;
    }
    proof {
        let h = table_header();
        assert(h.drop_last() =~= seq![h[0]]);
        assert(joined(seq![h[0]], "\n"@) == h[0]);
        assert(out@ =~= joined(h, "\n"@));
        assert(table_header() + table_rows(t, 0) =~= h);
    }
    let mut i: usize = 0;
    while i < nts.len()
        invariant
            nts@ == all_nonterminals(),
            ts@ == all_terminals(),
            t == table@,
            table.wf(),
            i <= 28,
            out@ == joined(table_header() + table_rows(t, i as int), "\n"@),
        decreases 28 - i,
    {
        let n = nts[i];
        let ghost done = table_header() + table_rows(t, i as int);
        assert(done + table_row(t, n, 0) =~= done);
        let mut j: usize = 0;
        while j < ts.len()
            invariant
                nts@ == all_nonterminals(),
                ts@ == all_terminals(),
                t == table@,
                table.wf(),
                i < 28,
                n == all_nonterminals()[i as int],
                j <= 28,
                done == table_header() + table_rows(t, i as int),
                out@ == joined(done + table_row(t, n, j as int), "\n"@),
            decreases 28 - j,
        {
            let term = ts[j];
            let ghost before = done + table_row(t, n, j as int);
            match table.get(n, term) {
                Some(p) => {
                    let ghost start = out@;
                    out.append("\n");
                    out.append(n.as_text());
                    out.append(" | ");
                    out.append(term.as_text());
                    out.append(" | ");
                    let ps = p.to_string();
                    out.append(ps.as_str());
                    let ghost line = entry_line(n, term, t[(n, term)]);
                    proof {
                        assert(out@ =~= start + "\n"@ + line);
                        lemma_joined_push(before, "\n"@, line);
                        assert(done + table_row(t, n, j + 1) =~= before.push(line));
                    }
                },
                None => {
                    assert(done + table_row(t, n, j + 1) =~= before);
                },
            }
            j = j + 1;
        }
        assert(done + table_row(t, n, 28) =~= table_header() + table_rows(t, i + 1));
        i = i + 1;
    }
    out
}

/// The table whose entries hold the productions of `g` with the indices
/// that `m` records.
pub open spec fn table_of(g: GrammarView, m: Map<(NonTerminal, Terminal), int>) -> Map<
    (NonTerminal, Terminal),
    ProductionView,
> {
    Map::new(|key: (NonTerminal, Terminal)| m.dom().contains(key), |key: (NonTerminal, Terminal)| g.productions[m[key]])
}

/// The LL(1) parse table of `grammar` as a listing (see `table_listing`),
/// or the message of its first conflict (as `build_parse_table` reports
/// it).
pub fn format_parse_table(grammar: &Grammar) -> (r: Result<String, String>)
    requires
        well_formed(grammar@),
        lhs_set(grammar@).contains(grammar@.start),
    ensures
        ({
            let g = grammar@;
            let f = least_first(g);
            let fo = least_follow(g, f, least_nullable(g));
            match fill(all_cands(g, f, fo, g.productions.len() as int)) {
                Ok(m) => r matches Ok(s) && s@ == table_listing(table_of(g, m)),
                Err((a, t, k1, k2)) => r matches Err(msg) && msg@ == conflict_text(
                    a,
                    t,
                    g.productions[k1],
                    g.productions[k2],
                ),
            }
        }),
{
    let table = build_parse_table(grammar)?;
    let s = list_table(&table);
    proof {
        let g = grammar@;
        let f = least_first(g);
        let fo = least_follow(g, f, least_nullable(g));
        if let Ok(m) = fill(all_cands(g, f, fo, g.productions.len() as int)) {
            assert(table@ =~= table_of(g, m));
        }
    }
    Ok(s)
}

} // verus!
