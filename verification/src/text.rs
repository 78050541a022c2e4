//! Building of texts: numbers in decimal, lists with separators, quoted strings.
//!
//! The model of a text is its sequence of characters.

use vstd::prelude::*;
use vstd::string::*;

verus! {

/// The character of a decimal digit.
pub open spec fn digit_char(d: int) -> char {
    ((48 + d) as u8) as char
}

/// The digits of a number in base ten, without leading zeros.
pub open spec fn decimal(n: nat) -> Seq<char>
    decreases n,
{
    if n < 10 {
        seq![digit_char(n as int)]
    } else {
        decimal(n / 10).push(digit_char((n % 10) as int))
    }
}

/// A number with its sign, in base ten.
pub open spec fn signed_decimal(v: int) -> Seq<char> {
    if v < 0 {
        seq!['-'] + decimal((-v) as nat)
    } else {
        decimal(v as nat)
    }
}

/// The parts from position `from` on, each after the first preceded by the separator.
pub open spec fn join_from(parts: Seq<Seq<char>>, separator: Seq<char>, from: int) -> Seq<char>
    decreases parts.len() - from,
{
    if from < 0 || from >= parts.len() {
        Seq::empty()
    } else if from == 0 {
        parts[0] + join_from(parts, separator, 1)
    } else {
        separator + parts[from] + join_from(parts, separator, from + 1)
    }
}

/// The parts in order, with the separator between each two.
pub open spec fn join(parts: Seq<Seq<char>>, separator: Seq<char>) -> Seq<char> {
    join_from(parts, separator, 0)
}

/// A character as it stands inside a quoted string: a backslash before a
/// backslash and before a double quote.
pub open spec fn escaped_char(c: char) -> Seq<char> {
    if c == '\\' || c == '"' {
        seq!['\\', c]
    } else {
        seq![c]
    }
}

/// The first `n` characters of a text, escaped.
pub open spec fn escaped_prefix(text: Seq<char>, n: int) -> Seq<char>
    decreases n,
{
    if n <= 0 {
        Seq::empty()
    } else {
        escaped_prefix(text, n - 1) + escaped_char(text[n - 1])
    }
}

/// A text between double quotes, with its backslashes and double quotes escaped.
pub open spec fn quoted(text: Seq<char>) -> Seq<char> {
    seq!['"'] + escaped_prefix(text, text.len() as int) + seq!['"']
}

/// The order of texts: character by character, and a text before the
/// texts that it begins.
pub open spec fn text_less(a: Seq<char>, b: Seq<char>) -> bool
    decreases a.len(),
{
    if b.len() == 0 {
        false
    } else if a.len() == 0 {
        true
    } else if (a[0] as u32) < (b[0] as u32) {
        true
    } else if (a[0] as u32) > (b[0] as u32) {
        false
    } else {
        text_less(a.drop_first(), b.drop_first())
    }
}

pub open spec fn views(strings: Seq<String>) -> Seq<Seq<char>> {
    Seq::new(strings.len(), |i: int| strings[i]@)
}

/// `String::push` of std: appends one character to the string.
#[verifier::external_body]
pub(crate) fn push_char(s: &mut String, c: char)
    ensures
        final(s)@ == old(s)@.push(c),
{
    s.push(c)
}

/// Appends the decimal digits of a number.
pub fn push_decimal(s: &mut String, n: u64)
    ensures
        final(s)@ == old(s)@ + decimal(n as nat),
    decreases n,
{
    if n >= 10 {
        push_decimal(s, n / 10);
    }
    let d: u8 = (n % 10) as u8;
    push_char(s, (48u8 + d) as char);
    assert(s@ =~= old(s)@ + decimal(n as nat));
}

/// Appends the decimal digits of a number of up to 128 bits.
pub fn push_decimal_wide(s: &mut String, n: u128)
    ensures
        final(s)@ == old(s)@ + decimal(n as nat),
    decreases n,
{
    if n >= 10 {
        push_decimal_wide(s, n / 10);
    }
    let d: u8 = (n % 10) as u8;
    push_char(s, (48u8 + d) as char);
    assert(s@ =~= old(s)@ + decimal(n as nat));
}

/// Appends a number with its sign, in base ten.
pub fn push_signed_decimal(s: &mut String, n: i128)
    ensures
        final(s)@ == old(s)@ + signed_decimal(n as int),
{
    if n < 0 {
        push_char(s, '-');
        // The magnitude of the least number does not fit the signed type.
        let magnitude: u128 = (-(n + 1)) as u128 + 1;
        push_decimal_wide(s, magnitude);
        assert(s@ =~= old(s)@ + signed_decimal(n as int));
    } else {
        push_decimal_wide(s, n as u128);
    }
}

/// The number in decimal.
pub fn decimal_string(n: u64) -> (r: String)
    ensures
        r@ == decimal(n as nat),
{
    let mut s = String::new();
    push_decimal(&mut s, n);
    assert(s@ =~= decimal(n as nat));
    s
}

/// The strings in order, with the separator between each two.
pub fn join_strings(parts: &Vec<String>, separator: &str) -> (r: String)
    ensures
        r@ == join(views(parts@), separator@),
{
    let mut result = String::new();
    let mut i: usize = parts.len();
    let ghost texts = views(parts@);
    assert(result@ =~= join_from(texts, separator@, i as int));
    while i > 0
        invariant
            i <= parts@.len(),
            texts == views(parts@),
            result@ == join_from(texts, separator@, i as int),
        decreases i,
    {
        i -= 1;
        let mut piece = String::new();
        if i > 0 {
            piece.append(separator);
        }
        piece.append(parts[i].as_str());
        piece.append(result.as_str());
        proof {
            assert(texts[i as int] == parts@[i as int]@);
            if i > 0 {
                assert(piece@ =~= separator@ + texts[i as int] + join_from(
                    texts,
                    separator@,
                    i + 1,
                ));
            } else {
                assert(piece@ =~= texts[0] + join_from(texts, separator@, 1));
            }
        }
        result = piece;
    }
    result
}

/// Whether `a` comes before `b` in the order of texts.
pub fn is_text_less(a: &str, b: &str) -> (r: bool)
    ensures
        r == text_less(a@, b@),
{
    let n = a.unicode_len();
    let m = b.unicode_len();
    let mut i: usize = 0;
    assert(a@.skip(0) =~= a@ && b@.skip(0) =~= b@);
    while i < n && i < m
        invariant
            n == a@.len(),
            m == b@.len(),
            i <= n,
            i <= m,
            text_less(a@, b@) == text_less(a@.skip(i as int), b@.skip(i as int)),
        decreases n - i,
    {
        let x = a.get_char(i);
        let y = b.get_char(i);
        proof {
            assert(a@.skip(i as int)[0] == x);
            assert(b@.skip(i as int)[0] == y);
            assert(a@.skip(i as int).drop_first() =~= a@.skip(i + 1));
            assert(b@.skip(i as int).drop_first() =~= b@.skip(i + 1));
        }
        if (x as u32) < (y as u32) {
            return true;
        }
        if (x as u32) > (y as u32) {
            return false;
        }
        i += 1;
    }
    i < m
}

/// The text between double quotes, escaped.
pub fn quote(text: &str) -> (r: String)
    ensures
        r@ == quoted(text@),
{
    let mut result = String::new();
    push_char(&mut result, '"');
    let n = text.unicode_len();
    let mut i: usize = 0;
    assert(result@ =~= seq!['"'] + escaped_prefix(text@, 0));
    while i < n
        invariant
            n == text@.len(),
            i <= n,
            result@ == seq!['"'] + escaped_prefix(text@, i as int),
        decreases n - i,
    {
        let c = text.get_char(i);
        if c == '\\' || c == '"' {
            push_char(&mut result, '\\');
        }
        push_char(&mut result, c);
        i += 1;
        assert(result@ =~= seq!['"'] + escaped_prefix(text@, i as int));
    }
    push_char(&mut result, '"');
    assert(result@ =~= quoted(text@));
    result
}

} // verus!
