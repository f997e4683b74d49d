//! Character classes, decimal numerals, character order on texts, and the
//! standard-library string operations that the rest of the library relies on.

use vstd::prelude::*;

verus! {

/// Characters with the Unicode `White_Space` property.
pub open spec fn white_space(c: char) -> bool {
    let u = c as u32;
    (0x09 <= u && u <= 0x0D) || u == 0x20 || u == 0x85 || u == 0xA0 || u == 0x1680
        || (0x2000 <= u && u <= 0x200A) || u == 0x2028 || u == 0x2029 || u == 0x202F
        || u == 0x205F || u == 0x3000
}

/// No character of `s` is white space.
pub open spec fn no_white_space(s: Seq<char>) -> bool {
    forall|i: int| 0 <= i < s.len() ==> !white_space(#[trigger] s[i])
}

/// Relies on `char::is_whitespace`: true exactly for the characters with the
/// Unicode `White_Space` property.
#[verifier::external_body]
pub(crate) fn is_white(c: char) -> (r: bool)
    ensures
        r == white_space(c),
{
    c.is_whitespace()
}

/// The lowercase mapping of a text, as `str::to_lowercase` computes it.
pub uninterp spec fn lower_of(s: Seq<char>) -> Seq<char>;

/// Relies on `str::to_lowercase`: the result depends on the characters of
/// `s` alone.
#[verifier::external_body]
pub(crate) fn lowercase(s: &str) -> (r: String)
    ensures
        r@ == lower_of(s@),
{
    s.to_lowercase()
}

/// Relies on `String::push`: appends one character.
#[verifier::external_body]
pub(crate) fn push_char(s: &mut String, c: char)
    ensures
        final(s)@ == old(s)@.push(c),
{
    s.push(c)
}

/// The ASCII digit for `d < 10`.
pub open spec fn digit_char(d: nat) -> char {
    if d == 0 { '0' }
    else if d == 1 { '1' }
    else if d == 2 { '2' }
    else if d == 3 { '3' }
    else if d == 4 { '4' }
    else if d == 5 { '5' }
    else if d == 6 { '6' }
    else if d == 7 { '7' }
    else if d == 8 { '8' }
    else { '9' }
}

pub open spec fn is_digit(c: char) -> bool {
    48 <= (c as u32) && (c as u32) <= 57
}

pub open spec fn digit_value(c: char) -> nat {
    ((c as u32) - 48) as nat
}

/// The decimal numeral of `v`: no sign, no leading zero.
pub open spec fn decimal_of(v: nat) -> Seq<char>
    decreases v,
{
    if v < 10 {
        seq![digit_char(v)]
    } else {
        decimal_of(v / 10).push(digit_char(v % 10))
    }
}

pub open spec fn all_digits(s: Seq<char>) -> bool {
    forall|i: int| 0 <= i < s.len() ==> is_digit(#[trigger] s[i])
}

/// The number that a string of digits denotes.
pub open spec fn digits_value(s: Seq<char>) -> nat
    decreases s.len(),
{
    if s.len() == 0 {
        0
    } else {
        digits_value(s.drop_last()) * 10 + digit_value(s.last())
    }
}

/// A numeral with an optional leading `+`, as an unsigned number.
pub open spec fn count_of_text(s: Seq<char>) -> Option<nat> {
    let t = if s.len() > 0 && s[0] == '+' { s.drop_first() } else { s };
    if t.len() > 0 && all_digits(t) && digits_value(t) <= usize::MAX {
        Some(digits_value(t))
    } else {
        None
    }
}

/// Relies on `usize::to_string`: the decimal numeral of the value.
#[verifier::external_body]
pub(crate) fn decimal_text(v: usize) -> (r: String)
    ensures
        r@ == decimal_of(v as nat),
{
    v.to_string()
}

/// Relies on `str::parse::<usize>`: an optional `+` and then one or more
/// ASCII digits whose value fits in `usize`; anything else is an error.
#[verifier::external_body]
pub(crate) fn parse_count(s: &str) -> (r: Option<usize>)
    ensures
        match count_of_text(s@) {
            Some(v) => r == Some(v as usize),
            None => r is None,
        },
{
    s.parse::<usize>().ok()
}

proof fn lemma_digit_char(d: nat)
    requires
        d < 10,
    ensures
        is_digit(digit_char(d)),
        digit_value(digit_char(d)) == d,
        digit_char(d) != '+',
        !white_space(digit_char(d)),
{
}

/// A decimal numeral is a non-empty string of digits, with no sign and no
/// white space, and it reads back as the number it was written from.
pub proof fn lemma_decimal_reads_back(v: nat)
    ensures
        decimal_of(v).len() > 0,
        all_digits(decimal_of(v)),
        no_white_space(decimal_of(v)),
        decimal_of(v)[0] != '+',
        digits_value(decimal_of(v)) == v,
        v <= usize::MAX ==> count_of_text(decimal_of(v)) == Some(v),
    decreases v,
{
    if v < 10 {
        lemma_digit_char(v);
        assert(decimal_of(v).drop_last() =~= Seq::<char>::empty());
        assert(digits_value(Seq::<char>::empty()) == 0);
    } else {
        lemma_decimal_reads_back(v / 10);
        lemma_digit_char(v % 10);
        let s = decimal_of(v);
        assert(s.drop_last() =~= decimal_of(v / 10));
        assert(s.last() == digit_char(v % 10));
        vstd::arithmetic::div_mod::lemma_fundamental_div_mod(v as int, 10);
        assert(digits_value(s) == v);
        assert(s[0] == decimal_of(v / 10)[0]);
        assert forall|i: int| 0 <= i < s.len() implies is_digit(#[trigger] s[i]) && !white_space(s[i]) by {
            if i < s.len() - 1 {
                assert(s[i] == decimal_of(v / 10)[i]);
            }
        }
    }
}

/// `a` comes strictly before `b` in character (code point) order.
pub open spec fn lex_lt(a: Seq<char>, b: Seq<char>) -> bool
    decreases a.len(),
{
    if a.len() == 0 {
        b.len() > 0
    } else if b.len() == 0 {
        false
    } else if a[0] != b[0] {
        (a[0] as u32) < (b[0] as u32)
    } else {
        lex_lt(a.drop_first(), b.drop_first())
    }
}

/// Character order on texts is transitive.
pub proof fn lemma_lex_trans(a: Seq<char>, b: Seq<char>, c: Seq<char>)
    requires
        lex_lt(a, b),
        lex_lt(b, c),
    ensures
        lex_lt(a, c),
    decreases a.len(),
{
    if a.len() > 0 && b.len() > 0 && c.len() > 0 && a[0] == b[0] && b[0] == c[0] {
        lemma_lex_trans(a.drop_first(), b.drop_first(), c.drop_first());
    }
}

/// Of two different texts, one comes before the other.
pub proof fn lemma_lex_total(a: Seq<char>, b: Seq<char>)
    requires
        a != b,
    ensures
        lex_lt(a, b) || lex_lt(b, a),
    decreases a.len(),
{
    if a.len() == 0 {
        assert(b.len() > 0) by {
            if b.len() == 0 {
                assert(a =~= b);
            }
        }
    } else if b.len() > 0 && a[0] == b[0] {
        if a.drop_first() == b.drop_first() {
            assert(a.drop_first().len() == a.len() - 1);
            assert(b.drop_first().len() == b.len() - 1);
            assert(a.len() == b.len());
            assert forall|i: int| 0 <= i < a.len() implies a[i] == b[i] by {
                if i > 0 {
                    assert(a.drop_first()[i - 1] == b.drop_first()[i - 1]);
                }
            }
            assert(a =~= b);
        } else {
            lemma_lex_total(a.drop_first(), b.drop_first());
        }
    } else if b.len() > 0 {
        let x = a[0];
        let y = b[0];
        vstd::utf8::char_u32_cast(x, x as u32);
        vstd::utf8::char_u32_cast(y, y as u32);
        assert((x as u32) != (y as u32));
    }
}

/// No text comes strictly before itself.
pub proof fn lemma_lex_irreflexive(a: Seq<char>)
    ensures
        !lex_lt(a, a),
    decreases a.len(),
{
    if a.len() > 0 {
        lemma_lex_irreflexive(a.drop_first());
    }
}

/// `a@` comes strictly before `b@` in character order.
pub fn lex_less(a: &str, b: &str) -> (r: bool)
    ensures
        r == lex_lt(a@, b@),
{
    let la = a.unicode_len();
    let lb = b.unicode_len();
    let mut i: usize = 0;
    proof {
        assert(a@.skip(0) =~= a@);
        assert(b@.skip(0) =~= b@);
    }
    while i < la && i < lb
        invariant
            la == a@.len(),
            lb == b@.len(),
            i <= la,
            i <= lb,
            lex_lt(a@, b@) == lex_lt(a@.skip(i as int), b@.skip(i as int)),
        decreases la - i,
    {
        let ca = a.get_char(i);
        let cb = b.get_char(i);
        proof {
            assert(a@.skip(i as int)[0] == ca);
            assert(b@.skip(i as int)[0] == cb);
        }
        if ca != cb {
            return (ca as u32) < (cb as u32);
        }
        proof {
            assert(a@.skip(i as int).drop_first() =~= a@.skip(i + 1));
            assert(b@.skip(i as int).drop_first() =~= b@.skip(i + 1));
        }
        i = i + 1;
    }
    i == la && i < lb
}

} // verus!
