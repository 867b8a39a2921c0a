//! Character-level helpers shared by the lexer, the error type and the
//! quadruple printer: decimal rendering of numbers, UTF-8 widths and
//! list rendering.
use vstd::prelude::*;

verus! {

/// The ASCII digit for `d` (for `d < 10`).
pub open spec fn digit_char(d: nat) -> char {
    if d == 0 {
        '0'
    } else if d == 1 {
        '1'
    } else if d == 2 {
        '2'
    } else if d == 3 {
        '3'
    } else if d == 4 {
        '4'
    } else if d == 5 {
        '5'
    } else if d == 6 {
        '6'
    } else if d == 7 {
        '7'
    } else if d == 8 {
        '8'
    } else {
        '9'
    }
}

/// Decimal notation of `n`, most significant digit first, without leading zeros.
pub open spec fn decimal(n: nat) -> Seq<char>
    decreases n,
{
    if n < 10 {
        seq![digit_char(n)]
    } else {
        decimal(n / 10).push(digit_char(n % 10))
    }
}

/// Number of bytes the UTF-8 encoding of `c` takes.
pub open spec fn char_width(c: char) -> nat {
    if (c as u32) < 0x80 {
        1
    } else if (c as u32) < 0x800 {
        2
    } else if (c as u32) < 0x10000 {
        3
    } else {
        4
    }
}

/// Number of bytes the UTF-8 encoding of `s` takes.
pub open spec fn utf8_len(s: Seq<char>) -> nat
    decreases s.len(),
{
    if s.len() == 0 {
        0
    } else {
        utf8_len(s.drop_last()) + char_width(s.last())
    }
}

/// `[a, b, c]`: the items in decimal, separated by `", "`, in square brackets
/// (the `Debug` rendering of a list of indices).
pub open spec fn list_text(items: Seq<usize>) -> Seq<char> {
    seq!['['] + joined_decimals(items) + seq![']']
}

/// The items in decimal, separated by `", "`.
pub open spec fn joined_decimals(items: Seq<usize>) -> Seq<char>
    decreases items.len(),
{
    if items.len() == 0 {
        Seq::empty()
    } else if items.len() == 1 {
        decimal(items[0] as nat)
    } else {
        joined_decimals(items.drop_last()) + seq![',', ' '] + decimal(items.last() as nat)
    }
}

/// Appends `c` to `s` (`String::push`).
#[verifier::external_body]
pub(crate) fn push_char(s: &mut String, c: char)
    ensures
        final(s)@ == old(s)@.push(c),
{
    s.push(c);
}

fn digit(d: usize) -> (c: char)
    requires
        d < 10,
    ensures
        c == digit_char(d as nat),
{
    match d {
        0 => '0',
        1 => '1',
        2 => '2',
        3 => '3',
        4 => '4',
        5 => '5',
        6 => '6',
        7 => '7',
        8 => '8',
        _ => '9',
    }
}

/// Appends the decimal notation of `n` to `out`.
pub fn push_decimal(out: &mut String, n: usize)
    ensures
        final(out)@ == old(out)@ + decimal(n as nat),
    decreases n,
{
    if n < 10 {
        push_char(out, digit(n));
    } else {
        push_decimal(out, n / 10);
        push_char(out, digit(n % 10));
        assert(old(out)@ + decimal(n as nat) =~= old(out)@ + decimal((n / 10) as nat) + seq![
            digit_char((n % 10) as nat),
        ]);
    }
}

/// Number of bytes the UTF-8 encoding of `c` takes (`char::len_utf8`).
pub fn width_of(c: char) -> (w: usize)
    ensures
        w == char_width(c),
{
    let code = c as u32;
    if code < 0x80 {
        1
    } else if code < 0x800 {
        2
    } else if code < 0x10000 {
        3
    } else {
        4
    }
}

/// Appends `[a, b, c]` for `items` to `out`.
pub fn push_list(out: &mut String, items: &[usize])
    ensures
        final(out)@ == old(out)@ + list_text(items@),
{
    push_char(out, '[');
    let n = items.len();
    let mut i: usize = 0;
    while i < n
        invariant
            n == items@.len(),
            i <= n,
            out@ == old(out)@ + seq!['['] + joined_decimals(items@.take(i as int)),
        decreases n - i,
    {
        let ghost before = out@;
        if i > 0 {
            push_char(out, ',');
            push_char(out, ' ');
        }
        push_decimal(out, items[i]);
        proof {
            let t = items@.take(i + 1);
            assert(t.drop_last() =~= items@.take(i as int));
            assert(t.last() == items@[i as int]);
            if i == 0 {
                assert(items@.take(0) =~= Seq::<usize>::empty());
            }
        }
        i = i + 1;
    }
    push_char(out, ']');
    assert(items@.take(n as int) =~= items@);
}

/// `utf8_len` is additive over concatenation.
pub proof fn lemma_utf8_len_concat(a: Seq<char>, b: Seq<char>)
    ensures
        utf8_len(a + b) == utf8_len(a) + utf8_len(b),
    decreases b.len(),
{
    if b.len() == 0 {
        assert(a + b =~= a);
    } else {
        lemma_utf8_len_concat(a, b.drop_last());
        assert((a + b).drop_last() =~= a + b.drop_last());
    }
}

/// A prefix never takes more bytes than the whole sequence.
pub proof fn lemma_utf8_len_prefix(s: Seq<char>, i: int)
    requires
        0 <= i <= s.len(),
    ensures
        utf8_len(s.take(i)) <= utf8_len(s),
        i < s.len() ==> utf8_len(s.take(i + 1)) == utf8_len(s.take(i)) + char_width(s[i]),
{
    lemma_utf8_len_concat(s.take(i), s.skip(i));
    assert(s.take(i) + s.skip(i) =~= s);
    if i < s.len() {
        assert(s.take(i + 1).drop_last() =~= s.take(i));
    }
}

} // verus!
