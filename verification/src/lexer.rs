//! The lexer: source text to tokens, with byte offsets for error reports.
use vstd::prelude::*;
use crate::error::{CompileError, CompileResult, ErrorView};
use crate::symbol::{Terminal, terminal_text};
use crate::text::{char_width, lemma_utf8_len_prefix, push_char, utf8_len, width_of};

verus! {

/// A token: the smallest unit the lexer produces.
#[derive(Debug, PartialEq)]
pub struct Token {
    pub kind: Terminal,
    pub lexeme: String,
    /// Byte offset in the source, for error reports.
    pub offset: usize,
}

/// The mathematical value of a `Token`.
pub struct TokenView {
    pub kind: Terminal,
    pub lexeme: Seq<char>,
    pub offset: usize,
}

impl View for Token {
    type V = TokenView;

    open spec fn view(&self) -> TokenView {
        TokenView { kind: self.kind, lexeme: self.lexeme@, offset: self.offset }
    }
}

impl Clone for Token {
    fn clone(&self) -> (t: Self)
        ensures
            t == *self,
    {
        Token { kind: self.kind, lexeme: self.lexeme.clone(), offset: self.offset }
    }
}

/// The views of a sequence of tokens.
pub open spec fn token_views(ts: Seq<Token>) -> Seq<TokenView> {
    ts.map_values(|t: Token| t@)
}

/// Whether `c` has the Unicode `White_Space` property: tab, line feed,
/// vertical tab, form feed, carriage return, space, next line, no-break
/// space, ogham space mark, the spaces U+2000 to U+200A, line separator,
/// paragraph separator, narrow no-break space, medium mathematical space and
/// ideographic space.
pub open spec fn white_space(c: char) -> bool {
    let u = c as u32;
    ||| 0x09 <= u <= 0x0D
    ||| u == 0x20
    ||| u == 0x85
    ||| u == 0xA0
    ||| u == 0x1680
    ||| 0x2000 <= u <= 0x200A
    ||| u == 0x2028
    ||| u == 0x2029
    ||| u == 0x202F
    ||| u == 0x205F
    ||| u == 0x3000
}

/// `char::is_whitespace`: whether `c` has the Unicode `White_Space`
/// property, the set `white_space` lists.
#[verifier::external_body]
fn is_whitespace(c: char) -> (b: bool)
    ensures
        b == white_space(c),
{
    c.is_whitespace()
}

/// ASCII letter.
pub open spec fn is_ascii_alpha(c: char) -> bool {
    ('a' <= c && c <= 'z') || ('A' <= c && c <= 'Z')
}

/// ASCII digit.
pub open spec fn is_ascii_digit(c: char) -> bool {
    '0' <= c && c <= '9'
}

/// A character that may start an identifier.
pub open spec fn starts_ident(c: char) -> bool {
    is_ascii_alpha(c) || c == '_'
}

/// A character that may continue an identifier.
pub open spec fn continues_ident(c: char) -> bool {
    is_ascii_alpha(c) || is_ascii_digit(c) || c == '_'
}

/// The byte offset of character `i` of `cs`.
pub open spec fn byte_offset(cs: Seq<char>, i: int) -> usize {
    utf8_len(cs.take(i)) as usize
}

/// The end of the run of identifier characters starting at `j`.
pub open spec fn ident_end(cs: Seq<char>, j: int) -> int
    decreases cs.len() - j,
{
    if j < 0 || j >= cs.len() || !continues_ident(cs[j]) {
        j
    } else {
        ident_end(cs, j + 1)
    }
}

/// The end of the run of digits starting at `j`.
pub open spec fn digits_end(cs: Seq<char>, j: int) -> int
    decreases cs.len() - j,
{
    if j < 0 || j >= cs.len() || !is_ascii_digit(cs[j]) {
        j
    } else {
        digits_end(cs, j + 1)
    }
}

/// The end of a line comment whose text starts at `j`: just past the first
/// line feed, or the end of the input.
pub open spec fn line_comment_end(cs: Seq<char>, j: int) -> int
    decreases cs.len() - j,
{
    if j < 0 || j >= cs.len() {
        j
    } else if cs[j] == '\n' {
        j + 1
    } else {
        line_comment_end(cs, j + 1)
    }
}

/// The end of a block comment whose text starts at `j`, `prev` being the
/// character before `j` (`'\0'` at the start): just past the first `*/`
/// whose `*` is inside the comment, if there is one.
pub open spec fn block_comment_end(cs: Seq<char>, j: int, prev: char) -> Option<int>
    decreases cs.len() - j,
{
    if j < 0 || j >= cs.len() {
        None
    } else if prev == '*' && cs[j] == '/' {
        Some(j + 1)
    } else {
        block_comment_end(cs, j + 1, cs[j])
    }
}

pub proof fn lemma_ident_end(cs: Seq<char>, j: int)
    requires
        0 <= j <= cs.len(),
    ensures
        j <= ident_end(cs, j) <= cs.len(),
        forall|k: int| j <= k < ident_end(cs, j) ==> continues_ident(#[trigger] cs[k]),
        ident_end(cs, j) < cs.len() ==> !continues_ident(cs[ident_end(cs, j)]),
    decreases cs.len() - j,
{
    if j < cs.len() && continues_ident(cs[j]) {
        lemma_ident_end(cs, j + 1);
    }
}

pub proof fn lemma_digits_end(cs: Seq<char>, j: int)
    requires
        0 <= j <= cs.len(),
    ensures
        j <= digits_end(cs, j) <= cs.len(),
        forall|k: int| j <= k < digits_end(cs, j) ==> is_ascii_digit(#[trigger] cs[k]),
        digits_end(cs, j) < cs.len() ==> !is_ascii_digit(cs[digits_end(cs, j)]),
    decreases cs.len() - j,
{
    if j < cs.len() && is_ascii_digit(cs[j]) {
        lemma_digits_end(cs, j + 1);
    }
}

pub proof fn lemma_line_comment_end(cs: Seq<char>, j: int)
    requires
        0 <= j <= cs.len(),
    ensures
        j <= line_comment_end(cs, j) <= cs.len(),
    decreases cs.len() - j,
{
    if j < cs.len() && cs[j] != '\n' {
        lemma_line_comment_end(cs, j + 1);
    }
}

pub proof fn lemma_block_comment_end(cs: Seq<char>, j: int, prev: char)
    requires
        0 <= j <= cs.len(),
    ensures
        block_comment_end(cs, j, prev) matches Some(k) ==> j < k <= cs.len(),
    decreases cs.len() - j,
{
    if j < cs.len() && !(prev == '*' && cs[j] == '/') {
        lemma_block_comment_end(cs, j + 1, cs[j]);
    }
}

/// The keyword spelled by `word`, or `Id`.
pub open spec fn keyword_kind(word: Seq<char>) -> Terminal {
    if word == "let"@ {
        Terminal::Let
    } else if word == "if"@ {
        Terminal::If
    } else if word == "else"@ {
        Terminal::Else
    } else if word == "true"@ {
        Terminal::True
    } else if word == "false"@ {
        Terminal::False
    } else if word == "and"@ {
        Terminal::And
    } else if word == "or"@ {
        Terminal::Or
    } else if word == "not"@ {
        Terminal::Not
    } else if word == "while"@ {
        Terminal::While
    } else {
        Terminal::Id
    }
}

/// A token value.
pub open spec fn tok(kind: Terminal, lexeme: Seq<char>, offset: usize) -> TokenView {
    TokenView { kind, lexeme, offset }
}

/// Lexes `cs` from character `i` on, the tokens found before `i` being `acc`:
/// whitespace and comments are skipped, identifiers, keywords, numbers and
/// operators become tokens, and the end marker `#` closes the sequence.
pub open spec fn lex_from(cs: Seq<char>, i: int, acc: Seq<TokenView>) -> Result<
    Seq<TokenView>,
    ErrorView,
>
    decreases cs.len() - i,
{
    if i < 0 || i >= cs.len() {
        Ok(acc.push(tok(Terminal::End, "#"@, byte_offset(cs, cs.len() as int))))
    } else {
        let c = cs[i];
        let start = byte_offset(cs, i);
        let has_next = i + 1 < cs.len();
        if white_space(c) {
            lex_from(cs, i + 1, acc)
        } else if starts_ident(c) {
            proof {
                lemma_ident_end(cs, i + 1);
            }
            let j = ident_end(cs, i + 1);
            let word = cs.subrange(i, j);
            lex_from(cs, j, acc.push(tok(keyword_kind(word), word, start)))
        } else if is_ascii_digit(c) {
            proof {
                lemma_digits_end(cs, i + 1);
            }
            let j = digits_end(cs, i + 1);
            if j < cs.len() && starts_ident(cs[j]) {
                Err(
                    ErrorView::Lex {
                        offset: byte_offset(cs, j),
                        message: "数字后面不能紧跟字母 '"@ + seq![cs[j]] + "'"@,
                    },
                )
            } else {
                lex_from(cs, j, acc.push(tok(Terminal::Num, cs.subrange(i, j), start)))
            }
        } else if c == '+' {
            lex_from(cs, i + 1, acc.push(tok(Terminal::Plus, "+"@, start)))
        } else if c == '-' {
            lex_from(cs, i + 1, acc.push(tok(Terminal::Minus, "-"@, start)))
        } else if c == '*' {
            lex_from(cs, i + 1, acc.push(tok(Terminal::Star, "*"@, start)))
        } else if c == '/' {
            if has_next && cs[i + 1] == '/' {
                proof {
                    lemma_line_comment_end(cs, i + 2);
                }
                lex_from(cs, line_comment_end(cs, i + 2), acc)
            } else if has_next && cs[i + 1] == '*' {
                proof {
                    lemma_block_comment_end(cs, i + 2, '\0');
                }
                match block_comment_end(cs, i + 2, '\0') {
                    Some(j) => lex_from(cs, j, acc),
                    None => Err(ErrorView::Lex { offset: start, message: "多行注释未闭合"@ }),
                }
            } else {
                lex_from(cs, i + 1, acc.push(tok(Terminal::Slash, "/"@, start)))
            }
        } else if c == '=' {
            if has_next && cs[i + 1] == '=' {
                lex_from(cs, i + 2, acc.push(tok(Terminal::Eq, "=="@, start)))
            } else {
                lex_from(cs, i + 1, acc.push(tok(Terminal::Assign, "="@, start)))
            }
        } else if c == '!' {
            if has_next && cs[i + 1] == '=' {
                lex_from(cs, i + 2, acc.push(tok(Terminal::Ne, "!="@, start)))
            } else {
                Err(
                    ErrorView::Lex {
                        offset: start,
                        message: "单独的 '!' 不合法，请使用 'not' 或 '!='"@,
                    },
                )
            }
        } else if c == '<' {
            if has_next && cs[i + 1] == '=' {
                lex_from(cs, i + 2, acc.push(tok(Terminal::Le, "<="@, start)))
            } else {
                lex_from(cs, i + 1, acc.push(tok(Terminal::Lt, "<"@, start)))
            }
        } else if c == '>' {
            if has_next && cs[i + 1] == '=' {
                lex_from(cs, i + 2, acc.push(tok(Terminal::Ge, ">="@, start)))
            } else {
                lex_from(cs, i + 1, acc.push(tok(Terminal::Gt, ">"@, start)))
            }
        } else if c == '(' {
            lex_from(cs, i + 1, acc.push(tok(Terminal::LParen, "("@, start)))
        } else if c == ')' {
            lex_from(cs, i + 1, acc.push(tok(Terminal::RParen, ")"@, start)))
        } else if c == '{' {
            lex_from(cs, i + 1, acc.push(tok(Terminal::LBrace, "{"@, start)))
        } else if c == '}' {
            lex_from(cs, i + 1, acc.push(tok(Terminal::RBrace, "}"@, start)))
        } else if c == ';' {
            lex_from(cs, i + 1, acc.push(tok(Terminal::Semicolon, ";"@, start)))
        } else {
            Err(ErrorView::Lex { offset: start, message: "非法字符 '"@ + seq![c] + "'"@ })
        }
    }
}

/// The tokens of `src`, ending with the end marker.
pub open spec fn spec_tokenize(src: Seq<char>) -> Result<Seq<TokenView>, ErrorView> {
    lex_from(src, 0, Seq::empty())
}

/// The source is small enough that every byte offset fits in a `usize`.
pub open spec fn offsets_fit(src: Seq<char>) -> bool {
    utf8_len(src) <= usize::MAX
}

/// Tokens ending in the end marker: exactly the last token is `End`, it
/// sits at the end of the source, and the offsets strictly increase.
pub open spec fn well_ended(ts: Seq<TokenView>, src: Seq<char>) -> bool {
    &&& ts.len() >= 1
    &&& ts.last().kind == Terminal::End
    &&& ts.last().lexeme == "#"@
    &&& ts.last().offset == utf8_len(src)
    &&& forall|k: int| 0 <= k < ts.len() - 1 ==> (#[trigger] ts[k]).kind != Terminal::End
    &&& forall|a: int, b: int| 0 <= a < b < ts.len() ==> (#[trigger] ts[a]).offset < (#[trigger] ts[b]).offset
}

/// `t`'s lexeme is spelled in `src` from a character whose byte offset is
/// `t.offset`.
pub open spec fn spelled_at_offset(src: Seq<char>, t: TokenView) -> bool {
    exists|i: int|
        0 <= i && i + t.lexeme.len() <= src.len() && #[trigger] byte_offset(src, i) == t.offset
            && src.subrange(i, i + t.lexeme.len()) == t.lexeme
}

/// Every token but the closing end marker is spelled in `src` at its offset.
pub open spec fn spelled_in(ts: Seq<TokenView>, src: Seq<char>) -> bool {
    forall|k: int| 0 <= k < ts.len() - 1 ==> spelled_at_offset(src, #[trigger] ts[k])
}

/// The characters of `s`, in order.
pub fn chars_of(s: &str) -> (cs: Vec<char>)
    ensures
        cs@ == s@,
{
    broadcast use vstd::string::group_string_axioms;

    let mut cs: Vec<char> = Vec::new();
    let mut it = s.chars();
    loop
        invariant
            cs@ + vstd::std_specs::iter::IteratorSpec::remaining(&it) == s@,
            vstd::std_specs::iter::IteratorSpec::obeys_prophetic_iter_laws(&it),
        ensures
            cs@ == s@,
        decreases s@.len() - cs@.len(),
    {
        let ghost before = vstd::std_specs::iter::IteratorSpec::remaining(&it);
        match it.next() {
            Some(c) => {
                cs.push(c);
                assert(cs@ + vstd::std_specs::iter::IteratorSpec::remaining(&it) =~= s@);
            },
            None => {
                assert(cs@ =~= s@);
                break ;
            },
        }
    }
    cs
}

fn push_token(tokens: &mut Vec<Token>, kind: Terminal, lexeme: String, offset: usize)
    ensures
        token_views(final(tokens)@) == token_views(old(tokens)@).push(tok(kind, lexeme@, offset)),
        final(tokens)@ == old(tokens)@.push(Token { kind, lexeme, offset }),
{
    tokens.push(Token { kind, lexeme, offset });
    assert(token_views(tokens@) =~= token_views(old(tokens)@).push(tok(kind, lexeme@, offset)));
}

/// Appends a token whose lexeme is spelled in `cs` from character `at`.
fn push_spelled(
    tokens: &mut Vec<Token>,
    cs: &Vec<char>,
    at: usize,
    kind: Terminal,
    lexeme: String,
    offset: usize,
)
    requires
        at + lexeme@.len() <= cs@.len(),
        cs@.subrange(at as int, at + lexeme@.len()) == lexeme@,
        offset == byte_offset(cs@, at as int),
    ensures
        token_views(final(tokens)@) == token_views(old(tokens)@).push(tok(kind, lexeme@, offset)),
        final(tokens)@ == old(tokens)@.push(Token { kind, lexeme, offset }),
        spelled_at_offset(cs@, tok(kind, lexeme@, offset)),
{
    let ghost text = lexeme@;
    push_token(tokens, kind, lexeme, offset);
    assert(byte_offset(cs@, at as int) == offset);
    assert(cs@.subrange(at as int, at + text.len()) == text);
}

/// Whether `cs[i..j]` spells `word`.
fn spells(cs: &Vec<char>, i: usize, j: usize, word: &str) -> (b: bool)
    requires
        i <= j <= cs@.len(),
    ensures
        b == (cs@.subrange(i as int, j as int) == word@),
{
    let w = chars_of(word);
    if j - i != w.len() {
        assert(cs@.subrange(i as int, j as int).len() != word@.len());
        return false;
    }
    let mut k: usize = 0;
    while k < w.len()
        invariant
            i <= j <= cs@.len(),
            j - i == w@.len(),
            w@ == word@,
            k <= w@.len(),
            forall|m: int| 0 <= m < k ==> cs@[i + m] == w@[m],
        decreases w@.len() - k,
    {
        if cs[i + k] != w[k] {
            assert(cs@.subrange(i as int, j as int)[k as int] != word@[k as int]);
            return false;
        }
        k = k + 1;
    }
    assert(cs@.subrange(i as int, j as int) =~= word@);
    true
}

fn keyword_of(cs: &Vec<char>, i: usize, j: usize) -> (t: Terminal)
    requires
        i <= j <= cs@.len(),
    ensures
        t == keyword_kind(cs@.subrange(i as int, j as int)),
{
    if spells(cs, i, j, "let") {
        Terminal::Let
    } else if spells(cs, i, j, "if") {
        Terminal::If
    } else if spells(cs, i, j, "else") {
        Terminal::Else
    } else if spells(cs, i, j, "true") {
        Terminal::True
    } else if spells(cs, i, j, "false") {
        Terminal::False
    } else if spells(cs, i, j, "and") {
        Terminal::And
    } else if spells(cs, i, j, "or") {
        Terminal::Or
    } else if spells(cs, i, j, "not") {
        Terminal::Not
    } else if spells(cs, i, j, "while") {
        Terminal::While
    } else {
        Terminal::Id
    }
}

fn alpha(c: char) -> (b: bool)
    ensures
        b == is_ascii_alpha(c),
{
    ('a' <= c && c <= 'z') || ('A' <= c && c <= 'Z')
}

fn digit(c: char) -> (b: bool)
    ensures
        b == is_ascii_digit(c),
{
    '0' <= c && c <= '9'
}

fn scan_ident_end(cs: &Vec<char>, j: usize) -> (k: usize)
    requires
        j <= cs@.len(),
    ensures
        k == ident_end(cs@, j as int),
{
    let mut k = j;
    while k < cs.len() && (alpha(cs[k]) || digit(cs[k]) || cs[k] == '_')
        invariant
            j <= k <= cs@.len(),
            ident_end(cs@, k as int) == ident_end(cs@, j as int),
        decreases cs@.len() - k,
    {
        k = k + 1;
    }
    k
}

fn scan_digits_end(cs: &Vec<char>, j: usize) -> (k: usize)
    requires
        j <= cs@.len(),
    ensures
        k == digits_end(cs@, j as int),
{
    let mut k = j;
    while k < cs.len() && digit(cs[k])
        invariant
            j <= k <= cs@.len(),
            digits_end(cs@, k as int) == digits_end(cs@, j as int),
        decreases cs@.len() - k,
    {
        k = k + 1;
    }
    k
}

fn scan_line_comment(cs: &Vec<char>, j: usize) -> (k: usize)
    requires
        j <= cs@.len(),
    ensures
        k == line_comment_end(cs@, j as int),
{
    let mut k = j;
    while k < cs.len()
        invariant
            j <= k <= cs@.len(),
            line_comment_end(cs@, k as int) == line_comment_end(cs@, j as int),
        decreases cs@.len() - k,
    {
        if cs[k] == '\n' {
            return k + 1;
        }
        k = k + 1;
    }
    k
}

fn scan_block_comment(cs: &Vec<char>, j: usize) -> (k: Option<usize>)
    requires
        j <= cs@.len(),
    ensures
        k matches Some(e) ==> block_comment_end(cs@, j as int, '\0') == Some(e as int),
        k is None ==> block_comment_end(cs@, j as int, '\0') is None,
{
    let mut k = j;
    let mut prev = '\0';
    while k < cs.len()
        invariant
            j <= k <= cs@.len(),
            block_comment_end(cs@, k as int, prev) == block_comment_end(cs@, j as int, '\0'),
        decreases cs@.len() - k,
    {
        if prev == '*' && cs[k] == '/' {
            return Some(k + 1);
        }
        prev = cs[k];
        k = k + 1;
    }
    None
}

/// The byte offset of character `to`, given that of character `from`.
fn offset_after(cs: &Vec<char>, from: usize, to: usize, offset: usize) -> (o: usize)
    requires
        from <= to <= cs@.len(),
        offset == byte_offset(cs@, from as int),
        utf8_len(cs@) <= usize::MAX,
    ensures
        o == byte_offset(cs@, to as int),
        o as int == utf8_len(cs@.take(to as int)),
        to > from ==> o > offset,
{
    let mut k = from;
    let mut o = offset;
    proof {
        lemma_utf8_len_prefix(cs@, from as int);
    }
    while k < to
        invariant
            from <= k <= to <= cs@.len(),
            utf8_len(cs@) <= usize::MAX,
            o as int == utf8_len(cs@.take(k as int)),
            k > from ==> o > offset,
            offset as int == utf8_len(cs@.take(from as int)),
        decreases to - k,
    {
        proof {
            lemma_utf8_len_prefix(cs@, k as int);
            lemma_utf8_len_prefix(cs@, k + 1);
        }
        o = o + width_of(cs[k]);
        k = k + 1;
    }
    proof {
        lemma_utf8_len_prefix(cs@, to as int);
    }
    o
}

/// The characters `cs[i..j]` as a string.
fn collect(cs: &Vec<char>, i: usize, j: usize) -> (s: String)
    requires
        i <= j <= cs@.len(),
    ensures
        s@ == cs@.subrange(i as int, j as int),
{
    let mut s = String::new();
    let mut k = i;
    while k < j
        invariant
            i <= k <= j <= cs@.len(),
            s@ == cs@.subrange(i as int, k as int),
        decreases j - k,
    {
        push_char(&mut s, cs[k]);
        assert(s@ =~= cs@.subrange(i as int, k + 1));
        k = k + 1;
    }
    s
}

/// Converts source text to tokens, appending the end marker `End`.
#[verifier::spinoff_prover]
#[verifier::rlimit(80)]
pub fn tokenize(src: &str) -> (r: CompileResult<Vec<Token>>)
    requires
        offsets_fit(src@),
    ensures
        match spec_tokenize(src@) {
            Ok(ts) => r matches Ok(v) && token_views(v@) == ts,
            Err(e) => r matches Err(x) && x@ == e,
        },
        r matches Ok(v) ==> well_ended(token_views(v@), src@),
        r matches Ok(v) ==> spelled_in(token_views(v@), src@),
{
    let cs = chars_of(src);
    let n = cs.len();
    let mut tokens: Vec<Token> = Vec::new();
    let mut i: usize = 0;
    let mut offset: usize = 0;
    proof {
        lemma_utf8_len_prefix(cs@, 0);
        assert(cs@.take(0) =~= Seq::<char>::empty());
        assert(token_views(tokens@) =~= Seq::<TokenView>::empty());
    }
    while i < n
        invariant
            n == cs@.len(),
            cs@ == src@,
            i <= n,
            utf8_len(cs@) <= usize::MAX,
            offset as int == utf8_len(cs@.take(i as int)),
            offset == byte_offset(cs@, i as int),
            lex_from(cs@, i as int, token_views(tokens@)) == spec_tokenize(src@),
            forall|k: int| 0 <= k < tokens@.len() ==> (#[trigger] tokens@[k]).kind != Terminal::End,
            forall|k: int| 0 <= k < tokens@.len() ==> (#[trigger] tokens@[k]).offset < offset,
            forall|k: int|
                0 <= k < tokens@.len() ==> spelled_at_offset(
                    cs@,
                    #[trigger] token_views(tokens@)[k],
                ),
            forall|a: int, b: int|
                0 <= a < b < tokens@.len() ==> (#[trigger] tokens@[a]).offset < (
                #[trigger] tokens@[b]).offset,
        decreases n - i,
    {
        let ch = cs[i];
        let start = offset;
        let ghost acc = token_views(tokens@);
        let ghost old_tokens = tokens@;
        proof {
            lemma_utf8_len_prefix(cs@, i as int);
            lemma_utf8_len_prefix(cs@, i + 1);
        }
        let has_next = i + 1 < n;
        if is_whitespace(ch) {
            offset = offset_after(&cs, i, i + 1, offset);
            i = i + 1;
        } else if alpha(ch) || ch == '_' {
            let j = scan_ident_end(&cs, i + 1);
            proof {
                lemma_ident_end(cs@, i + 1);
            }
            let kind = keyword_of(&cs, i, j);
            let word = collect(&cs, i, j);
            push_spelled(&mut tokens, &cs, i, kind, word, start);
            offset = offset_after(&cs, i, j, offset);
            i = j;
        } else if digit(ch) {
            let j = scan_digits_end(&cs, i + 1);
            proof {
                lemma_digits_end(cs@, i + 1);
            }
            offset = offset_after(&cs, i, j, offset);
            if j < n && (alpha(cs[j]) || cs[j] == '_') {
                let mut message = String::from_str("数字后面不能紧跟字母 '");
                push_char(&mut message, cs[j]);
                message.append("'");
                assert(message@ =~= "数字后面不能紧跟字母 '"@ + seq![cs@[j as int]] + "'"@);
                return Err(CompileError::lex(offset, message));
            }
            let text = collect(&cs, i, j);
            push_spelled(&mut tokens, &cs, i, Terminal::Num, text, start);
            i = j;
        } else if ch == '+' {
            proof {
                reveal_strlit("+");
                assert(cs@.subrange(i as int, i + 1) =~= "+"@);
            }
            push_spelled(&mut tokens, &cs, i, Terminal::Plus, String::from_str("+"), start);
            offset = offset_after(&cs, i, i + 1, offset);
            i = i + 1;
        } else if ch == '-' {
            proof {
                reveal_strlit("-");
                assert(cs@.subrange(i as int, i + 1) =~= "-"@);
            }
            push_spelled(&mut tokens, &cs, i, Terminal::Minus, String::from_str("-"), start);
            offset = offset_after(&cs, i, i + 1, offset);
            i = i + 1;
        } else if ch == '*' {
            proof {
                reveal_strlit("*");
                assert(cs@.subrange(i as int, i + 1) =~= "*"@);
            }
            push_spelled(&mut tokens, &cs, i, Terminal::Star, String::from_str("*"), start);
            offset = offset_after(&cs, i, i + 1, offset);
            i = i + 1;
        } else if ch == '/' {
            if has_next && cs[i + 1] == '/' {
                let j = scan_line_comment(&cs, i + 2);
                proof {
                    lemma_line_comment_end(cs@, i + 2);
                }
                offset = offset_after(&cs, i, j, offset);
                i = j;
            } else if has_next && cs[i + 1] == '*' {
                proof {
                    lemma_block_comment_end(cs@, i + 2, '\0');
                }
                match scan_block_comment(&cs, i + 2) {
                    Some(j) => {
                        offset = offset_after(&cs, i, j, offset);
                        i = j;
                    },
                    None => {
                        return Err(CompileError::lex(start, String::from_str("多行注释未闭合")));
                    },
                }
            } else {
                proof {
                    reveal_strlit("/");
                    assert(cs@.subrange(i as int, i + 1) =~= "/"@);
                }
                push_spelled(&mut tokens, &cs, i, Terminal::Slash, String::from_str("/"), start);
                offset = offset_after(&cs, i, i + 1, offset);
                i = i + 1;
            }
        } else if ch == '=' {
            if has_next && cs[i + 1] == '=' {
                proof {
                    reveal_strlit("==");
                    assert(cs@.subrange(i as int, i + 2) =~= "=="@);
                }
                push_spelled(&mut tokens, &cs, i, Terminal::Eq, String::from_str("=="), start);
                offset = offset_after(&cs, i, i + 2, offset);
                i = i + 2;
            } else {
                proof {
                    reveal_strlit("=");
                    assert(cs@.subrange(i as int, i + 1) =~= "="@);
                }
                push_spelled(&mut tokens, &cs, i, Terminal::Assign, String::from_str("="), start);
                offset = offset_after(&cs, i, i + 1, offset);
                i = i + 1;
            }
        } else if ch == '!' {
            if has_next && cs[i + 1] == '=' {
                proof {
                    reveal_strlit("!=");
                    assert(cs@.subrange(i as int, i + 2) =~= "!="@);
                }
                push_spelled(&mut tokens, &cs, i, Terminal::Ne, String::from_str("!="), start);
                offset = offset_after(&cs, i, i + 2, offset);
                i = i + 2;
            } else {
                return Err(
                    CompileError::lex(
                        start,
                        String::from_str("单独的 '!' 不合法，请使用 'not' 或 '!='"),
                    ),
                );
            }
        } else if ch == '<' {
            if has_next && cs[i + 1] == '=' {
                proof {
                    reveal_strlit("<=");
                    assert(cs@.subrange(i as int, i + 2) =~= "<="@);
                }
                push_spelled(&mut tokens, &cs, i, Terminal::Le, String::from_str("<="), start);
                offset = offset_after(&cs, i, i + 2, offset);
                i = i + 2;
            } else {
                proof {
                    reveal_strlit("<");
                    assert(cs@.subrange(i as int, i + 1) =~= "<"@);
                }
                push_spelled(&mut tokens, &cs, i, Terminal::Lt, String::from_str("<"), start);
                offset = offset_after(&cs, i, i + 1, offset);
                i = i + 1;
            }
        } else if ch == '>' {
            if has_next && cs[i + 1] == '=' {
                proof {
                    reveal_strlit(">=");
                    assert(cs@.subrange(i as int, i + 2) =~= ">="@);
                }
                push_spelled(&mut tokens, &cs, i, Terminal::Ge, String::from_str(">="), start);
                offset = offset_after(&cs, i, i + 2, offset);
                i = i + 2;
            } else {
                proof {
                    reveal_strlit(">");
                    assert(cs@.subrange(i as int, i + 1) =~= ">"@);
                }
                push_spelled(&mut tokens, &cs, i, Terminal::Gt, String::from_str(">"), start);
                offset = offset_after(&cs, i, i + 1, offset);
                i = i + 1;
            }
        } else if ch == '(' {
            proof {
                reveal_strlit("(");
                assert(cs@.subrange(i as int, i + 1) =~= "("@);
            }
            push_spelled(&mut tokens, &cs, i, Terminal::LParen, String::from_str("("), start);
            offset = offset_after(&cs, i, i + 1, offset);
            i = i + 1;
        } else if ch == ')' {
            proof {
                reveal_strlit(")");
                assert(cs@.subrange(i as int, i + 1) =~= ")"@);
            }
            push_spelled(&mut tokens, &cs, i, Terminal::RParen, String::from_str(")"), start);
            offset = offset_after(&cs, i, i + 1, offset);
            i = i + 1;
        } else if ch == '{' {
            proof {
                reveal_strlit("{");
                assert(cs@.subrange(i as int, i + 1) =~= "{"@);
            }
            push_spelled(&mut tokens, &cs, i, Terminal::LBrace, String::from_str("{"), start);
            offset = offset_after(&cs, i, i + 1, offset);
            i = i + 1;
        } else if ch == '}' {
            proof {
                reveal_strlit("}");
                assert(cs@.subrange(i as int, i + 1) =~= "}"@);
            }
            push_spelled(&mut tokens, &cs, i, Terminal::RBrace, String::from_str("}"), start);
            offset = offset_after(&cs, i, i + 1, offset);
            i = i + 1;
        } else if ch == ';' {
            proof {
                reveal_strlit(";");
                assert(cs@.subrange(i as int, i + 1) =~= ";"@);
            }
            push_spelled(&mut tokens, &cs, i, Terminal::Semicolon, String::from_str(";"), start);
            offset = offset_after(&cs, i, i + 1, offset);
            i = i + 1;
        } else {
            let mut message = String::from_str("非法字符 '");
            push_char(&mut message, ch);
            message.append("'");
            assert(message@ =~= "非法字符 '"@ + seq![ch] + "'"@);
            return Err(CompileError::lex(start, message));
        }
        proof {
            assert forall|k: int| 0 <= k < tokens@.len() implies (#[trigger] tokens@[k]).offset
                < offset by {
                if k < old_tokens.len() {
                    assert(tokens@[k] == old_tokens[k]);
                } else {
                    assert(tokens@[k].offset == start);
                }
            }
            assert forall|k: int| 0 <= k < tokens@.len() implies spelled_at_offset(
                cs@,
                #[trigger] token_views(tokens@)[k],
            ) by {
                if k < old_tokens.len() {
                    assert(token_views(tokens@)[k] == token_views(old_tokens)[k]);
                }
            }
        }
    }
    proof {
        lemma_utf8_len_prefix(cs@, n as int);
        assert(cs@.take(n as int) =~= cs@);
    }
    let ghost before = tokens@;
    push_token(&mut tokens, Terminal::End, String::from_str("#"), offset);
    assert forall|k: int| 0 <= k < tokens@.len() - 1 implies spelled_at_offset(
        src@,
        #[trigger] token_views(tokens@)[k],
    ) by {
        assert(token_views(tokens@)[k] == token_views(before)[k]);
    }
    Ok(tokens)
}

/// The token kinds of `ts`, printed and separated by single spaces.
pub open spec fn kinds_text(ts: Seq<TokenView>) -> Seq<char>
    decreases ts.len(),
{
    if ts.len() == 0 {
        Seq::empty()
    } else if ts.len() == 1 {
        terminal_text(ts[0].kind)
    } else {
        kinds_text(ts.drop_last()) + " "@ + terminal_text(ts.last().kind)
    }
}

/// The token kinds, separated by spaces, such as `id = num ; #`.
pub fn format_tokens(tokens: &[Token]) -> (s: String)
    ensures
        s@ == kinds_text(token_views(tokens@)),
{
    let mut out = String::new();
    let n = tokens.len();
    let mut i: usize = 0;
    while i < n
        invariant
            n == tokens@.len(),
            i <= n,
            out@ == kinds_text(token_views(tokens@).take(i as int)),
        decreases n - i,
    {
        if i > 0 {
            out.append(" ");
        }
        out.append(tokens[i].kind.as_text());
        proof {
            let t = token_views(tokens@).take(i + 1);
            assert(t.drop_last() =~= token_views(tokens@).take(i as int));
            if i == 0 {
                assert(token_views(tokens@).take(0) =~= Seq::<TokenView>::empty());
                assert(out@ =~= kinds_text(t));
            } else {
                assert(out@ =~= kinds_text(t));
            }
        }
        i = i + 1;
    }
    assert(token_views(tokens@).take(n as int) =~= token_views(tokens@));
    out
}

} // verus!
