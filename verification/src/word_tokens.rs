//! A word of the source (an identifier or a keyword) becomes one token that
//! takes every following letter, digit and underscore: no word token is
//! followed in the source by a character that could continue it.
use vstd::prelude::*;
use crate::lexer::{
    TokenView, block_comment_end, byte_offset, digits_end, ident_end, keyword_kind, lemma_block_comment_end,
    lemma_digits_end, lemma_ident_end, lemma_line_comment_end, lex_from, line_comment_end,
    spec_tokenize, starts_ident, tok, white_space,
};
use crate::symbol::Terminal;

verus! {

/// An ASCII letter, an ASCII digit or `_`.
pub open spec fn word_char(c: char) -> bool {
    ('a' <= c && c <= 'z') || ('A' <= c && c <= 'Z') || ('0' <= c && c <= '9') || c == '_'
}

/// The kind of a token spelled as a word: an identifier or a keyword.
pub open spec fn word_kind(k: Terminal) -> bool {
    k == Terminal::Id || k == Terminal::Let || k == Terminal::If || k == Terminal::Else || k
        == Terminal::While || k == Terminal::True || k == Terminal::False || k == Terminal::And
        || k == Terminal::Or || k == Terminal::Not
}

/// `t` is spelled in `src` at its offset, all of word characters, and the
/// character after it (if any) is not a word character.
pub open spec fn whole_word(src: Seq<char>, t: TokenView) -> bool {
    exists|i: int|
        0 <= i && i + t.lexeme.len() <= src.len() && #[trigger] byte_offset(src, i) == t.offset
            && src.subrange(i, i + t.lexeme.len()) == t.lexeme && (forall|m: int|
            0 <= m < t.lexeme.len() ==> word_char(#[trigger] t.lexeme[m])) && (i + t.lexeme.len()
            < src.len() ==> !word_char(src[i + t.lexeme.len()]))
}

/// Every word token of `ts` is a whole word of `src`.
pub open spec fn words_whole(ts: Seq<TokenView>, src: Seq<char>) -> bool {
    forall|k: int| 0 <= k < ts.len() && word_kind(#[trigger] ts[k].kind) ==> whole_word(src, ts[k])
}

proof fn lemma_push_whole(acc: Seq<TokenView>, x: TokenView, src: Seq<char>)
    requires
        words_whole(acc, src),
        word_kind(x.kind) ==> whole_word(src, x),
    ensures
        words_whole(acc.push(x), src),
{
    assert forall|k: int| 0 <= k < acc.push(x).len() && word_kind(#[trigger] acc.push(x)[k].kind) implies whole_word(src, acc.push(x)[k]) by {
        if k < acc.len() {
            assert(acc.push(x)[k] == acc[k]);
        }
    }
}

proof fn lemma_lex_words(cs: Seq<char>, i: int, acc: Seq<TokenView>)
    requires
        words_whole(acc, cs),
        lex_from(cs, i, acc) is Ok,
    ensures
        words_whole(lex_from(cs, i, acc)->Ok_0, cs),
    decreases cs.len() - i,
{
    if i < 0 || i >= cs.len() {
        lemma_push_whole(acc, tok(Terminal::End, "#"@, byte_offset(cs, cs.len() as int)), cs);
    } else {
        let c = cs[i];
        let start = byte_offset(cs, i);
        let has_next = i + 1 < cs.len();
        if white_space(c) {
            lemma_lex_words(cs, i + 1, acc);
        } else if starts_ident(c) {
            lemma_ident_end(cs, i + 1);
            let j = ident_end(cs, i + 1);
            let word = cs.subrange(i, j);
            let x = tok(keyword_kind(word), word, start);
            assert(whole_word(cs, x)) by {
                assert(cs.subrange(i, i + word.len()) == word);
                assert forall|m: int| 0 <= m < word.len() implies word_char(#[trigger] word[m]) by {
                    assert(word[m] == cs[i + m]);
                }
            }
            lemma_push_whole(acc, x, cs);
            lemma_lex_words(cs, j, acc.push(x));
        } else if crate::lexer::is_ascii_digit(c) {
            lemma_digits_end(cs, i + 1);
            let j = digits_end(cs, i + 1);
            if !(j < cs.len() && starts_ident(cs[j])) {
                let x = tok(Terminal::Num, cs.subrange(i, j), start);
                lemma_push_whole(acc, x, cs);
                lemma_lex_words(cs, j, acc.push(x));
            }
        } else if c == '/' && has_next && cs[i + 1] == '/' {
            lemma_line_comment_end(cs, i + 2);
            lemma_lex_words(cs, line_comment_end(cs, i + 2), acc);
        } else if c == '/' && has_next && cs[i + 1] == '*' {
            lemma_block_comment_end(cs, i + 2, '\0');
            let j = block_comment_end(cs, i + 2, '\0')->Some_0;
            lemma_lex_words(cs, j, acc);
        } else {
            let r = lex_from(cs, i, acc);
            // every other step pushes one token that is not a word
            let (kind, lex, len): (Terminal, Seq<char>, int) = if c == '+' {
                (Terminal::Plus, "+"@, 1)
            } else if c == '-' {
                (Terminal::Minus, "-"@, 1)
            } else if c == '*' {
                (Terminal::Star, "*"@, 1)
            } else if c == '/' {
                (Terminal::Slash, "/"@, 1)
            } else if c == '=' && has_next && cs[i + 1] == '=' {
                (Terminal::Eq, "=="@, 2)
            } else if c == '=' {
                (Terminal::Assign, "="@, 1)
            } else if c == '!' {
                (Terminal::Ne, "!="@, 2)
            } else if c == '<' && has_next && cs[i + 1] == '=' {
                (Terminal::Le, "<="@, 2)
            } else if c == '<' {
                (Terminal::Lt, "<"@, 1)
            } else if c == '>' && has_next && cs[i + 1] == '=' {
                (Terminal::Ge, ">="@, 2)
            } else if c == '>' {
                (Terminal::Gt, ">"@, 1)
            } else if c == '(' {
                (Terminal::LParen, "("@, 1)
            } else if c == ')' {
                (Terminal::RParen, ")"@, 1)
            } else if c == '{' {
                (Terminal::LBrace, "{"@, 1)
            } else if c == '}' {
                (Terminal::RBrace, "}"@, 1)
            } else {
                (Terminal::Semicolon, ";"@, 1)
            };
            let x = tok(kind, lex, start);
            assert(lex_from(cs, i, acc) == lex_from(cs, i + len, acc.push(x)));
            lemma_push_whole(acc, x, cs);
            lemma_lex_words(cs, i + len, acc.push(x));
        }
    }
}

/// The lexer takes each word whole: every identifier or keyword token is
/// spelled in the source at its offset, consists of letters, digits and
/// underscores, and is not followed by another letter, digit or underscore.
pub proof fn lemma_words_are_whole(src: Seq<char>)
    requires
        spec_tokenize(src) is Ok,
    ensures
        words_whole(spec_tokenize(src)->Ok_0, src),
{
    lemma_lex_words(src, 0, Seq::empty());
}

} // verus!
