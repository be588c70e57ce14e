//! Canonical region identifiers.
//!
//! A region is named by its hue key alone. The canonical identifier renders
//! the millidegree hue as whole degrees, a dot, and exactly three fractional
//! digits, e.g. hue key `210500` becomes `"210.500"`. The rendering is
//! injective: distinct hue keys always yield distinct identifiers, and equal
//! hue keys the same one.

use vstd::arithmetic::div_mod::{lemma_div_denominator, lemma_fundamental_div_mod};
use vstd::prelude::*;
use vstd::string::StringExecFns;

verus! {

/// The character for one decimal digit.
pub open spec fn spec_digit_char(d: nat) -> char {
    if d == 0 {
        '0'
    } else if d == 1 {
        '1'
    } else if d == 2 {
        '2'
    } else if d == 3 {
        '3'
    } else if d == 4 {
        '4'
    } else if d == 5 {
        '5'
    } else if d == 6 {
        '6'
    } else if d == 7 {
        '7'
    } else if d == 8 {
        '8'
    } else {
        '9'
    }
}

/// The decimal digits of `n`, most significant first, without leading zeros
/// (the value zero renders as the single digit `0`).
pub open spec fn spec_digits(n: nat) -> Seq<char>
    decreases n,
{
    if n < 10 {
        seq![spec_digit_char(n)]
    } else {
        spec_digits(n / 10).push(spec_digit_char(n % 10))
    }
}

/// The canonical identifier of hue key `h`: whole degrees, `'.'`, then the
/// three millidegree digits.
pub open spec fn spec_hue_name(h: int) -> Seq<char>
    recommends
        0 <= h,
{
    let f = h % 1000;
    spec_digits((h / 1000) as nat) + seq![
        '.',
        spec_digit_char(((f / 100) % 10) as nat),
        spec_digit_char(((f / 10) % 10) as nat),
        spec_digit_char((f % 10) as nat),
    ]
}

/// A digit string is never empty.
proof fn lemma_digits_len(n: nat)
    ensures
        spec_digits(n).len() >= 1,
    decreases n,
{
    if n >= 10 {
        lemma_digits_len(n / 10);
    }
}

/// The ten digit characters are pairwise distinct.
proof fn lemma_digit_char_injective(x: nat, y: nat)
    requires
        x < 10,
        y < 10,
        spec_digit_char(x) == spec_digit_char(y),
    ensures
        x == y,
{
}

/// Digit strings contain no dot, so the dot of a full identifier marks where
/// the fractional part begins.
proof fn lemma_digits_no_dot(n: nat)
    ensures
        forall|i: int| 0 <= i < spec_digits(n).len() ==> spec_digits(n)[i] != '.',
    decreases n,
{
    if n >= 10 {
        lemma_digits_no_dot(n / 10);
        assert forall|i: int| 0 <= i < spec_digits(n).len() implies spec_digits(n)[i] != '.' by {
            if i < spec_digits(n).len() - 1 {
                assert(spec_digits(n)[i] == spec_digits(n / 10)[i]);
            } else {
                assert(spec_digits(n)[i] == spec_digit_char(n % 10));
            }
        }
    } else {
        assert(spec_digits(n)[0] == spec_digit_char(n));
    }
}

/// Distinct values render to distinct digit strings.
proof fn lemma_digits_injective(a: nat, b: nat)
    requires
        spec_digits(a) == spec_digits(b),
    ensures
        a == b,
    decreases a,
{
    lemma_digits_len(a);
    lemma_digits_len(b);
    if a < 10 && b < 10 {
        assert(spec_digits(a)[0] == spec_digit_char(a));
        assert(spec_digits(b)[0] == spec_digit_char(b));
        lemma_digit_char_injective(a, b);
    } else if a >= 10 && b >= 10 {
        assert(spec_digits(a).last() == spec_digit_char(a % 10));
        assert(spec_digits(b).last() == spec_digit_char(b % 10));
        lemma_digit_char_injective(a % 10, b % 10);
        assert(spec_digits(a).drop_last() =~= spec_digits(a / 10));
        assert(spec_digits(b).drop_last() =~= spec_digits(b / 10));
        lemma_digits_injective(a / 10, b / 10);
        lemma_fundamental_div_mod(a as int, 10);
        lemma_fundamental_div_mod(b as int, 10);
    } else if a < 10 {
        assert(spec_digits(b).len() == spec_digits(b / 10).len() + 1);
        lemma_digits_len(b / 10);
        assert(false);
    } else {
        assert(spec_digits(a).len() == spec_digits(a / 10).len() + 1);
        lemma_digits_len(a / 10);
        assert(false);
    }
}

/// For values below 1000, the three digit characters pin the value down.
proof fn lemma_three_digits_determine(f1: int, f2: int)
    requires
        0 <= f1 < 1000,
        0 <= f2 < 1000,
        (f1 / 100) % 10 == (f2 / 100) % 10,
        (f1 / 10) % 10 == (f2 / 10) % 10,
        f1 % 10 == f2 % 10,
    ensures
        f1 == f2,
{
    lemma_three_digit_decomposition(f1);
    lemma_three_digit_decomposition(f2);
}

/// A value below 1000 is rebuilt from its three decimal digits.
proof fn lemma_three_digit_decomposition(f: int)
    requires
        0 <= f < 1000,
    ensures
        f == 100 * ((f / 100) % 10) + 10 * ((f / 10) % 10) + f % 10,
{
    lemma_fundamental_div_mod(f, 10);
    lemma_fundamental_div_mod(f / 10, 10);
    lemma_div_denominator(f, 10, 10);
    assert(f / 100 < 10) by {
        assert(f / 100 <= 999int / 100) by {
            vstd::arithmetic::div_mod::lemma_div_is_ordered(f, 999, 100);
        }
    }
    assert((f / 100) % 10 == f / 100) by {
        vstd::arithmetic::div_mod::lemma_small_mod((f / 100) as nat, 10);
    }
}

/// Identical hue keys collapse to one identifier, distinct hue keys to
/// distinct identifiers: the canonical rendering is injective.
pub proof fn lemma_hue_name_injective(a: int, b: int)
    requires
        0 <= a,
        0 <= b,
        spec_hue_name(a) == spec_hue_name(b),
    ensures
        a == b,
{
    let da = spec_digits((a / 1000) as nat);
    let db = spec_digits((b / 1000) as nat);
    let sa = spec_hue_name(a);
    let sb = spec_hue_name(b);
    lemma_digits_no_dot((a / 1000) as nat);
    lemma_digits_no_dot((b / 1000) as nat);
    assert(sa[da.len() as int] == '.');
    assert(sb[db.len() as int] == '.');
    if da.len() < db.len() {
        assert(sb[da.len() as int] == db[da.len() as int]);
        assert(false);
    }
    if db.len() < da.len() {
        assert(sa[db.len() as int] == da[db.len() as int]);
        assert(false);
    }
    assert(da =~= db) by {
        assert(forall|i: int| 0 <= i < da.len() ==> #[trigger] da[i] == sa[i] && db[i] == sb[i]);
    }
    lemma_digits_injective((a / 1000) as nat, (b / 1000) as nat);
    let fa = a % 1000;
    let fb = b % 1000;
    let la = da.len() as int;
    assert(sa[la + 1] == spec_digit_char(((fa / 100) % 10) as nat));
    assert(sb[la + 1] == spec_digit_char(((fb / 100) % 10) as nat));
    assert(sa[la + 2] == spec_digit_char(((fa / 10) % 10) as nat));
    assert(sb[la + 2] == spec_digit_char(((fb / 10) % 10) as nat));
    assert(sa[la + 3] == spec_digit_char((fa % 10) as nat));
    assert(sb[la + 3] == spec_digit_char((fb % 10) as nat));
    vstd::arithmetic::div_mod::lemma_mod_division_less_than_divisor(a, 1000);
    vstd::arithmetic::div_mod::lemma_mod_division_less_than_divisor(b, 1000);
    lemma_three_digits_determine(fa, fb);
    lemma_fundamental_div_mod(a, 1000);
    lemma_fundamental_div_mod(b, 1000);
}

/// The string slice for one decimal digit.
fn digit_str(d: u32) -> (s: &'static str)
    requires
        d < 10,
    ensures
        s@ == seq![spec_digit_char(d as nat)],
{
    proof {
        reveal_strlit("0");
        reveal_strlit("1");
        reveal_strlit("2");
        reveal_strlit("3");
        reveal_strlit("4");
        reveal_strlit("5");
        reveal_strlit("6");
        reveal_strlit("7");
        reveal_strlit("8");
        reveal_strlit("9");
    }
    if d == 0 {
        "0"
    } else if d == 1 {
        "1"
    } else if d == 2 {
        "2"
    } else if d == 3 {
        "3"
    } else if d == 4 {
        "4"
    } else if d == 5 {
        "5"
    } else if d == 6 {
        "6"
    } else if d == 7 {
        "7"
    } else if d == 8 {
        "8"
    } else {
        "9"
    }
}

/// Appends the decimal digits of `n` to `out`.
fn push_digits(n: u32, out: &mut String)
    ensures
        final(out)@ == old(out)@ + spec_digits(n as nat),
    decreases n,
{
    if n >= 10 {
        push_digits(n / 10, out);
        let s = digit_str(n % 10);
        out.append(s);
        assert(final(out)@ =~= old(out)@ + spec_digits(n as nat));
    } else {
        let s = digit_str(n);
        out.append(s);
        assert(final(out)@ =~= old(out)@ + spec_digits(n as nat));
    }
}

/// Renders the canonical identifier of a hue key.
pub fn hue_name(h: u32) -> (s: String)
    requires
        h < 360000,
    ensures
        s@ == spec_hue_name(h as int),
{
    let mut s = String::new();
    push_digits(h / 1000, &mut s);
    proof {
        reveal_strlit(".");
    }
    s.append(".");
    let f: u32 = h % 1000;
    s.append(digit_str((f / 100) % 10));
    s.append(digit_str((f / 10) % 10));
    s.append(digit_str(f % 10));
    assert(s@ =~= spec_hue_name(h as int));
    s
}

} // verus!
