//! Text helpers: appending, comparing and ordering strings by their characters, and writing
//! numbers in decimal.

use vstd::prelude::*;
use vstd::std_specs::iter::IteratorSpec;

verus! {

/// Trusts `String::push`: it appends the character to the string.
pub assume_specification[ String::push ](string: &mut String, ch: char)
    ensures
        final(string)@ == old(string)@.push(ch),
;

/// Trusts `String::push_str`: it appends the given text to the string.
pub assume_specification[ String::push_str ](string: &mut String, suffix: &str)
    ensures
        final(string)@ == old(string)@ + suffix@,
;

/// The texts of some strings.
pub open spec fn texts_of(strings: Seq<String>) -> Seq<Seq<char>> {
    strings.map_values(|s: String| s@)
}

/// The text of an optional string.
pub open spec fn optional_text(given: Option<&str>) -> Option<Seq<char>> {
    match given {
        Some(string) => Some(string@),
        None => None,
    }
}

/// Whether two texts hold the same characters.
pub fn same_text(a: &str, b: &str) -> (same: bool)
    ensures
        same == (a@ == b@),
{
    let mut left = a.chars();
    let mut right = b.chars();
    let ghost mut k: int = 0;
    loop
        invariant
            0 <= k <= a@.len(),
            k <= b@.len(),
            a@.take(k) == b@.take(k),
            left.remaining() == a@.skip(k),
            right.remaining() == b@.skip(k),
        decreases a@.len() - k,
    {
        match (left.next(), right.next()) {
            (Some(x), Some(y)) => {
                assert(x == a@[k] && y == b@[k]);
                if x != y {
                    return false;
                }
                proof {
                    assert(a@.take(k + 1) == a@.take(k).push(x));
                    assert(b@.take(k + 1) == b@.take(k).push(y));
                    assert(a@.skip(k).drop_first() == a@.skip(k + 1));
                    assert(b@.skip(k).drop_first() == b@.skip(k + 1));
                    k = k + 1;
                }
            },
            (None, None) => {
                assert(a@.take(k) == a@ && b@.take(k) == b@);
                return true;
            },
            _ => {
                return false;
            },
        }
    }
}

/// Whether `a` stands before `b` in the order of their characters' code points, a text standing
/// before its own extensions.
pub open spec fn precedes(a: Seq<char>, b: Seq<char>) -> bool
    decreases a.len(),
{
    if b.len() == 0 {
        false
    } else if a.len() == 0 {
        true
    } else if a[0] != b[0] {
        a[0] < b[0]
    } else {
        precedes(a.drop_first(), b.drop_first())
    }
}

/// Whether `a` stands before `b` in the order of their characters.
pub fn stands_before(a: &str, b: &str) -> (before: bool)
    ensures
        before == precedes(a@, b@),
{
    let mut left = a.chars();
    let mut right = b.chars();
    let ghost mut k: int = 0;
    proof {
        assert(a@.skip(0) == a@ && b@.skip(0) == b@);
    }
    loop
        invariant
            0 <= k <= a@.len(),
            k <= b@.len(),
            left.remaining() == a@.skip(k),
            right.remaining() == b@.skip(k),
            precedes(a@, b@) == precedes(a@.skip(k), b@.skip(k)),
        decreases a@.len() - k,
    {
        match (left.next(), right.next()) {
            (Some(x), Some(y)) => {
                if x != y {
                    return x < y;
                }
                proof {
                    assert(a@.skip(k).drop_first() == a@.skip(k + 1));
                    assert(b@.skip(k).drop_first() == b@.skip(k + 1));
                    k = k + 1;
                }
            },
            (None, Some(_)) => {
                return true;
            },
            _ => {
                return false;
            },
        }
    }
}

/// No text stands before itself.
pub proof fn lemma_precedes_irreflexive(a: Seq<char>)
    ensures
        !precedes(a, a),
    decreases a.len(),
{
    if a.len() > 0 {
        lemma_precedes_irreflexive(a.drop_first());
    }
}

/// If `a` stands before `b` and `b` before `c`, then `a` stands before `c`.
pub proof fn lemma_precedes_transitive(a: Seq<char>, b: Seq<char>, c: Seq<char>)
    requires
        precedes(a, b),
        precedes(b, c),
    ensures
        precedes(a, c),
    decreases a.len(),
{
    if a.len() > 0 && a[0] == b[0] && b[0] == c[0] {
        lemma_precedes_transitive(a.drop_first(), b.drop_first(), c.drop_first());
    }
}

/// Of two different texts one stands before the other.
pub proof fn lemma_precedes_total(a: Seq<char>, b: Seq<char>)
    ensures
        a == b || precedes(a, b) || precedes(b, a),
    decreases a.len(),
{
    if a.len() > 0 && b.len() > 0 && a[0] == b[0] {
        lemma_precedes_total(a.drop_first(), b.drop_first());
        if a.drop_first() == b.drop_first() {
            assert(a == seq![a[0]] + a.drop_first());
            assert(b == seq![b[0]] + b.drop_first());
        }
    } else if a.len() == 0 && b.len() == 0 {
        assert(a == b);
    }
}

/// The character of a decimal digit.
pub open spec fn digit(d: nat) -> char {
    (48 + d) as char
}

/// A number in decimal, without leading zeros.
pub open spec fn decimal(n: nat) -> Seq<char>
    decreases n,
{
    if n < 10 {
        seq![digit(n)]
    } else {
        decimal(n / 10).push(digit(n % 10))
    }
}

/// Appends a number in decimal.
pub fn push_decimal(text: &mut String, n: u64)
    ensures
        final(text)@ == old(text)@ + decimal(n as nat),
    decreases n,
{
    if n >= 10 {
        push_decimal(text, n / 10);
    }
    let d: u8 = (n % 10) as u8;
    text.push((48 + d) as char);
}

// ---------------------------------------------------------------------------
// Laws
// ---------------------------------------------------------------------------

/// The number that a text spells, digit by digit from the left.
pub open spec fn spelled(text: Seq<char>) -> int
    decreases text.len(),
{
    if text.len() == 0 {
        0
    } else {
        10 * spelled(text.drop_last()) + (text.last() as int - '0' as int)
    }
}

/// A number in decimal can be read back: its text is made of decimal digits, does not begin with a
/// zero unless it is the number zero, and spells the number.
pub proof fn law_decimal_spells_its_number(n: nat)
    ensures
        decimal(n).len() > 0,
        forall|i: int| 0 <= i < decimal(n).len() ==> '0' <= #[trigger] decimal(n)[i] <= '9',
        decimal(n)[0] == '0' ==> n == 0 && decimal(n).len() == 1,
        spelled(decimal(n)) == n,
    decreases n,
{
    if n >= 10 {
        let front = decimal(n / 10);
        law_decimal_spells_its_number(n / 10);
        assert(decimal(n).drop_last() == front);
        assert(decimal(n)[0] == front[0]);
    } else {
        assert(decimal(n).drop_last() == Seq::<char>::empty());
        assert(spelled(decimal(n).drop_last()) == 0);
    }
}

/// Different numbers have different decimal texts.
pub proof fn law_different_numbers_have_different_decimals(m: nat, n: nat)
    requires
        m != n,
    ensures
        decimal(m) != decimal(n),
{
    law_decimal_spells_its_number(m);
    law_decimal_spells_its_number(n);
}

/// The order of two texts goes by the first character in which they differ.
pub proof fn law_first_difference_decides(a: Seq<char>, b: Seq<char>, k: int)
    requires
        0 <= k < a.len(),
        k < b.len(),
        a.take(k) == b.take(k),
        a[k] < b[k],
    ensures
        precedes(a, b),
        !precedes(b, a),
    decreases k,
{
    if k > 0 {
        assert(a.take(k)[0] == a[0]);
        assert(b.take(k)[0] == b[0]);
        let x = a.drop_first();
        let y = b.drop_first();
        let xs = x.take(k - 1);
        let ys = y.take(k - 1);
        assert forall|i: int| 0 <= i < k - 1 implies #[trigger] xs[i] == ys[i] by {
            assert(xs[i] == a[i + 1] && ys[i] == b[i + 1]);
            assert(a[i + 1] == a.take(k)[i + 1] && b[i + 1] == b.take(k)[i + 1]);
        }
        assert(xs == ys);
        law_first_difference_decides(x, y, k - 1);
    }
}

/// A text stands before its own extensions, and none of them before it.
pub proof fn law_text_precedes_its_extensions(a: Seq<char>, more: Seq<char>)
    requires
        more.len() > 0,
    ensures
        precedes(a, a + more),
        !precedes(a + more, a),
    decreases a.len(),
{
    if a.len() > 0 {
        assert((a + more).drop_first() == a.drop_first() + more);
        law_text_precedes_its_extensions(a.drop_first(), more);
    }
}

/// The texts of some strings are those of the strings, one for one.
pub proof fn law_texts_are_those_of_the_strings(strings: Seq<String>, i: int)
    requires
        0 <= i < strings.len(),
    ensures
        texts_of(strings).len() == strings.len(),
        texts_of(strings)[i] == strings[i]@,
{
}

/// An optional string has the text that the string has.
pub proof fn law_optional_text_is_that_of_the_string(string: &str)
    ensures
        optional_text(Some(string)) == Some(string@),
        optional_text(None) is None,
{
}

} // verus!
