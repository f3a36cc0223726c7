//! Input acquisition: turn one line of console text into a run parameter.
//!
//! The text is trimmed of leading and trailing whitespace and read as a
//! non-negative decimal integer, exactly as Rust's integer parsing does:
//! an optional leading plus sign, then one or more ASCII digits, and the
//! value must fit the machine word. Anything else — an empty line, stray
//! characters, a negative sign, an overflowing value — falls back to the
//! caller's default.

use vstd::prelude::*;
use vstd::arithmetic::div_mod::lemma_fundamental_div_mod;

verus! {

/// Whether `c` is whitespace: the Unicode white-space code points, the set
/// Rust's `char::is_whitespace` recognises.
pub open spec fn is_ws(c: char) -> bool {
    let u = c as int;
    (0x9 <= u && u <= 0xd) || u == 0x20 || u == 0x85 || u == 0xa0 || u == 0x1680 || (0x2000 <= u
        && u <= 0x200a) || u == 0x2028 || u == 0x2029 || u == 0x202f || u == 0x205f || u == 0x3000
}

/// Whether `c` is an ASCII decimal digit.
pub open spec fn is_digit(c: char) -> bool {
    0x30 <= c as int && c as int <= 0x39
}

/// The value of the digit `c`.
pub open spec fn digit_val(c: char) -> int {
    c as int - 0x30
}

/// Whether every character of `s` is an ASCII decimal digit.
pub open spec fn all_digits(s: Seq<char>) -> bool {
    forall|i: int| 0 <= i < s.len() ==> is_digit(s[i])
}

/// The value of the digit string `s`, most significant digit first.
pub open spec fn dec_value(s: Seq<char>) -> int
    decreases s.len(),
{
    if s.len() == 0 {
        0
    } else {
        dec_value(s.drop_last()) * 10 + digit_val(s.last())
    }
}

/// `s` without its leading whitespace.
pub open spec fn trim_front(s: Seq<char>) -> Seq<char>
    decreases s.len(),
{
    if s.len() > 0 && is_ws(s[0]) {
        trim_front(s.subrange(1, s.len() as int))
    } else {
        s
    }
}

/// `s` without its trailing whitespace.
pub open spec fn trim_back(s: Seq<char>) -> Seq<char>
    decreases s.len(),
{
    if s.len() > 0 && is_ws(s.last()) {
        trim_back(s.drop_last())
    } else {
        s
    }
}

/// `s` without leading and trailing whitespace.
pub open spec fn trimmed(s: Seq<char>) -> Seq<char> {
    trim_back(trim_front(s))
}

/// `s` without a single leading plus sign, if it has one.
pub open spec fn strip_sign(s: Seq<char>) -> Seq<char> {
    if s.len() > 0 && s[0] == '+' {
        s.subrange(1, s.len() as int)
    } else {
        s
    }
}

/// Whether `s` reads as a non-negative integer that fits the machine word:
/// an optional plus sign, one or more digits, value at most `usize::MAX`.
pub open spec fn parses(s: Seq<char>) -> bool {
    let d = strip_sign(s);
    d.len() > 0 && all_digits(d) && dec_value(d) <= usize::MAX
}

/// A digit string's value is non-negative.
proof fn lemma_dec_value_nonneg(s: Seq<char>)
    requires
        all_digits(s),
    ensures
        dec_value(s) >= 0,
    decreases s.len(),
{
    if s.len() > 0 {
        assert(all_digits(s.drop_last())) by {
            assert(forall|i: int| 0 <= i < s.len() - 1 ==> s.drop_last()[i] == s[i]);
        }
        lemma_dec_value_nonneg(s.drop_last());
    }
}

/// Reading one more digit multiplies the prefix value by ten and adds it.
proof fn lemma_dec_value_take_step(s: Seq<char>, i: int)
    requires
        0 <= i < s.len(),
    ensures
        dec_value(s.take(i + 1)) == dec_value(s.take(i)) * 10 + digit_val(s[i]),
{
    let t = s.take(i + 1);
    assert(t.drop_last() =~= s.take(i));
    assert(t.last() == s[i]);
}

/// A digit string's value is at least the value of any of its prefixes.
proof fn lemma_dec_value_take_le(s: Seq<char>, i: int)
    requires
        all_digits(s),
        0 <= i <= s.len(),
    ensures
        dec_value(s.take(i)) <= dec_value(s),
    decreases s.len() - i,
{
    if i == s.len() {
        assert(s.take(i) =~= s);
    } else {
        lemma_dec_value_take_step(s, i);
        lemma_dec_value_take_le(s, i + 1);
        assert(all_digits(s.take(i))) by {
            assert(forall|k: int| 0 <= k < i ==> s.take(i)[k] == s[k]);
        }
        lemma_dec_value_nonneg(s.take(i));
    }
}

/// Whether `c` is whitespace, by Rust's own reckoning.
fn is_whitespace_char(c: char) -> (r: bool)
    ensures
        r == is_ws(c),
{
    let u = c as u32;
    (0x9 <= u && u <= 0xd) || u == 0x20 || u == 0x85 || u == 0xa0 || u == 0x1680 || (0x2000 <= u
        && u <= 0x200a) || u == 0x2028 || u == 0x2029 || u == 0x202f || u == 0x205f || u == 0x3000
}

/// Read one line of console text as a non-negative integer, falling back
/// to `default` when it does not parse.
///
/// The text is trimmed of whitespace on both ends; what remains must be an
/// optional plus sign followed by one or more ASCII digits, and the value
/// must fit in a `usize`. On any other text — empty, stray characters, a
/// negative sign, a value too large — the configured default is returned
/// instead; parsing never fails.
pub fn get_input(text: &str, default: usize) -> (r: usize)
    ensures
        parses(trimmed(text@)) ==> r == dec_value(strip_sign(trimmed(text@))),
        !parses(trimmed(text@)) ==> r == default,
{
    let ghost t0 = text@;
    let n = text.unicode_len();
    proof {
        assert(t0.subrange(0, n as int) =~= t0);
    }
    let mut a: usize = 0;
    while a < n && is_whitespace_char(text.get_char(a))
        invariant
            n == t0.len(),
            t0 == text@,
            0 <= a <= n,
            trim_front(t0) == trim_front(t0.subrange(a as int, n as int)),
        decreases n - a,
    {
        proof {
            let sub = t0.subrange(a as int, n as int);
            assert(sub.subrange(1, sub.len() as int) =~= t0.subrange(a + 1, n as int));
        }
        a = a + 1;
    }
    proof {
        assert(t0.subrange(0, n as int) =~= t0);
        if a < n {
            assert(trim_front(t0.subrange(a as int, n as int)) == t0.subrange(
                a as int,
                n as int,
            ));
        }
        assert(trim_front(t0) == t0.subrange(a as int, n as int));
    }
    let mut b: usize = n;
    while b > a && is_whitespace_char(text.get_char(b - 1))
        invariant
            n == t0.len(),
            t0 == text@,
            0 <= a <= b <= n,
            trim_front(t0) == t0.subrange(a as int, n as int),
            trim_back(t0.subrange(a as int, n as int)) == trim_back(
                t0.subrange(a as int, b as int),
            ),
        decreases b,
    {
        proof {
            let sub = t0.subrange(a as int, b as int);
            assert(sub.drop_last() =~= t0.subrange(a as int, b - 1));
        }
        b = b - 1;
    }
    let ghost tr = t0.subrange(a as int, b as int);
    proof {
        if a < b {
            assert(trim_back(tr) == tr);
        } else {
            assert(tr =~= Seq::<char>::empty());
        }
        assert(trimmed(t0) == tr);
    }
    let mut start = a;
    if a < b {
        let c0 = text.get_char(a);
        if c0 == '+' {
            start = a + 1;
        }
    }
    let ghost digits = strip_sign(tr);
    proof {
        assert(digits =~= t0.subrange(start as int, b as int));
    }
    if start == b {
        // nothing but an optional sign: no digits to read
        return default;
    }
    let mut acc: usize = 0;
    let mut i = start;
    while i < b
        invariant
            n == t0.len(),
            t0 == text@,
            0 <= start <= i <= b <= n,
            digits == t0.subrange(start as int, b as int),
            digits == strip_sign(trimmed(t0)),
            all_digits(digits.take(i - start)),
            acc == dec_value(digits.take(i - start)),
        decreases b - i,
    {
        let c = text.get_char(i);
        let u = c as u32;
        if u < 0x30 || u > 0x39 {
            // a character that is no digit: the text does not parse
            proof {
                assert(digits[i - start] == t0[i as int]);
                assert(!is_digit(digits[i - start]));
            }
            return default;
        }
        let dv = (u - 0x30) as usize;
        proof {
            assert(digits[i - start] == t0[i as int]);
            lemma_dec_value_take_step(digits, i - start);
            assert(digits.take(i - start + 1).take(i - start) =~= digits.take(i - start));
            assert(forall|k: int|
                0 <= k < i - start + 1 ==> digits.take(i - start + 1)[k] == digits[k]);
            lemma_fundamental_div_mod((usize::MAX - dv) as int, 10);
        }
        if acc > (usize::MAX - dv) / 10 {
            // the value has outgrown the machine word: the text does not parse
            proof {
                if parses(trimmed(t0)) {
                    lemma_dec_value_take_le(digits, i - start + 1);
                }
            }
            return default;
        }
        acc = acc * 10 + dv;
        i = i + 1;
    }
    proof {
        assert(digits.take(b - start) =~= digits);
    }
    acc
}

} // verus!
