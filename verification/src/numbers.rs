//! Decimal rendering and parsing of 64-bit signed integers, and parsing of
//! booleans, as the configuration store's typed accessors use them.

use vstd::prelude::*;

use crate::text::to_chars;

verus! {

pub open spec fn is_digit_char(c: char) -> bool {
    '0' <= c && c <= '9'
}

pub open spec fn digit_val(c: char) -> int {
    c as int - 48
}

pub open spec fn digit_char(d: int) -> char {
    if d == 0 {
        '0'
    } else if d == 1 {
        '1'
    } else if d == 2 {
        '2'
    } else if d == 3 {
        '3'
    } else if d == 4 {
        '4'
    } else if d == 5 {
        '5'
    } else if d == 6 {
        '6'
    } else if d == 7 {
        '7'
    } else if d == 8 {
        '8'
    } else {
        '9'
    }
}

pub open spec fn all_digits(s: Seq<char>) -> bool {
    forall|i: int| 0 <= i < s.len() ==> is_digit_char(#[trigger] s[i])
}

/// The value of a digit string, most significant digit first.
pub open spec fn digits_val(s: Seq<char>) -> int
    decreases s.len(),
{
    if s.len() == 0 {
        0
    } else {
        digits_val(s.drop_last()) * 10 + digit_val(s.last())
    }
}

pub proof fn lemma_digits_val_nonneg(s: Seq<char>)
    requires
        all_digits(s),
    ensures
        digits_val(s) >= 0,
    decreases s.len(),
{
    if s.len() > 0 {
        assert(all_digits(s.drop_last()));
        lemma_digits_val_nonneg(s.drop_last());
    }
}

/// The canonical decimal rendering of a nonnegative number: no sign, no
/// leading zero (except for zero itself).
pub open spec fn udec(n: nat) -> Seq<char>
    decreases n,
{
    if n < 10 {
        seq![digit_char(n as int)]
    } else {
        udec(n / 10).push(digit_char((n % 10) as int))
    }
}

/// The canonical decimal rendering of a signed number.
pub open spec fn spec_i64_dec(v: int) -> Seq<char> {
    if v < 0 {
        seq!['-'] + udec((-v) as nat)
    } else {
        udec(v as nat)
    }
}

pub proof fn lemma_udec_wf(n: nat)
    ensures
        udec(n).len() >= 1,
        all_digits(udec(n)),
        digits_val(udec(n)) == n,
        udec(n)[0] != '0' || n < 10,
    decreases n,
{
    if n < 10 {
        let s = udec(n);
        assert(s == seq![digit_char(n as int)]);
        assert(s.drop_last() =~= Seq::<char>::empty());
        assert(digits_val(Seq::<char>::empty()) == 0);
        assert(digits_val(s) == digits_val(s.drop_last()) * 10 + digit_val(s.last()));
        assert(digit_val(digit_char(n as int)) == n as int);
    } else {
        lemma_udec_wf(n / 10);
        let s = udec(n);
        assert(s == udec(n / 10).push(digit_char((n % 10) as int)));
        assert(s.drop_last() =~= udec(n / 10));
        assert(s.last() == digit_char((n % 10) as int));
        assert(digits_val(s) == digits_val(udec(n / 10)) * 10 + digit_val(
            digit_char((n % 10) as int),
        ));
        assert(n / 10 * 10 + n % 10 == n);
        assert(forall|i: int| 0 <= i < s.len() - 1 ==> s[i] == udec(n / 10)[i]);
        assert(n / 10 >= 1);
        assert(udec(n / 10)[0] != '0') by {
            if n / 10 < 10 {
                assert(udec(n / 10) == seq![digit_char((n / 10) as int)]);
            }
        }
    }
}

/// What a character string means as a 64-bit signed integer: an optional
/// sign, then one or more digits, and the value must fit; anything else is
/// no number.
pub open spec fn spec_parse_i64(s: Seq<char>) -> Option<int> {
    let digits = if s.len() > 0 && (s[0] == '+' || s[0] == '-') {
        s.skip(1)
    } else {
        s
    };
    let negative = s.len() > 0 && s[0] == '-';
    if digits.len() == 0 || !all_digits(digits) {
        None
    } else {
        let magnitude = digits_val(digits);
        let value = if negative {
            -magnitude
        } else {
            magnitude
        };
        if -0x8000000000000000 <= value <= 0x7fffffffffffffff {
            Some(value)
        } else {
            None
        }
    }
}

/// What a character string means as a boolean: exactly `true` or `false`.
pub open spec fn spec_parse_bool(s: Seq<char>) -> Option<bool> {
    if s == "true"@ {
        Some(true)
    } else if s == "false"@ {
        Some(false)
    } else {
        None
    }
}

/// The canonical rendering parses back to the value it came from.
pub proof fn lemma_dec_round_trip(v: int)
    requires
        -0x8000000000000000 <= v <= 0x7fffffffffffffff,
    ensures
        spec_parse_i64(spec_i64_dec(v)) == Some(v),
{
    if v < 0 {
        lemma_udec_wf((-v) as nat);
        let s = spec_i64_dec(v);
        assert(s[0] == '-');
        assert(s.skip(1) =~= udec((-v) as nat));
    } else {
        lemma_udec_wf(v as nat);
        let s = spec_i64_dec(v);
        assert(s.len() >= 1);
        assert(is_digit_char(s[0]));
        assert(s[0] != '+' && s[0] != '-');
    }
}

fn append_digit(out: &mut String, c: char)
    requires
        is_digit_char(c),
    ensures
        final(out)@ == old(out)@.push(c),
{
    proof {
        reveal_strlit("0");
        reveal_strlit("1");
        reveal_strlit("2");
        reveal_strlit("3");
        reveal_strlit("4");
        reveal_strlit("5");
        reveal_strlit("6");
        reveal_strlit("7");
        reveal_strlit("8");
        reveal_strlit("9");
    }
    let ghost prev = out@;
    match c {
        '0' => out.append("0"),
        '1' => out.append("1"),
        '2' => out.append("2"),
        '3' => out.append("3"),
        '4' => out.append("4"),
        '5' => out.append("5"),
        '6' => out.append("6"),
        '7' => out.append("7"),
        '8' => out.append("8"),
        _ => out.append("9"),
    }
    proof {
        assert(out@ =~= prev.push(c));
    }
}

/// The canonical decimal rendering of `v`, as `spec_i64_dec` describes it.
pub fn to_decimal(v: i64) -> (r: String)
    ensures
        r@ == spec_i64_dec(v as int),
{
    let negative = v < 0;
    let m: u64 = if v == -0x8000000000000000i64 {
        0x8000000000000000u64
    } else if v < 0 {
        (-v) as u64
    } else {
        v as u64
    };
    let ghost m0 = m as nat;
    let mut digits: Vec<char> = Vec::new();
    let mut rem: u64 = m;
    // collect the digits least significant first
    while rem >= 10
        invariant
            m0 == m as nat,
            udec(m0) =~= udec(rem as nat) + Seq::new(
                digits@.len(),
                |j: int| digits@[digits@.len() - 1 - j],
            ),
        decreases rem,
    {
        let d: u64 = rem % 10;
        let next: u64 = rem / 10;
        let ghost before = digits@;
        digits.push(digit_char_exec(d));
        proof {
            assert(udec(rem as nat) == udec(next as nat).push(digit_char(d as int)));
            assert(udec(next as nat) + Seq::new(
                digits@.len(),
                |j: int| digits@[digits@.len() - 1 - j],
            ) =~= (udec(next as nat).push(digit_char(d as int))) + Seq::new(
                before.len(),
                |j: int| before[before.len() - 1 - j],
            ));
        }
        rem = next;
    }
    let ghost before = digits@;
    let last_digit = digit_char_exec(rem);
    digits.push(last_digit);
    proof {
        assert(udec(rem as nat) == seq![digit_char(rem as int)]);
        assert(udec(m0) =~= Seq::new(digits@.len(), |j: int| digits@[digits@.len() - 1 - j]));
    }
    let mut out = String::new();
    if negative {
        proof {
            reveal_strlit("-");
        }
        out.append("-");
        proof {
            assert(out@ =~= seq!['-']);
        }
    }
    let ghost sign_part = out@;
    let n: usize = digits.len();
    let mut k: usize = 0;
    while k < n
        invariant
            n == digits@.len(),
            k <= n,
            udec(m0) == Seq::new(n as nat, |j: int| digits@[n - 1 - j]),
            out@ == sign_part + Seq::new(k as nat, |j: int| digits@[n - 1 - j]),
        decreases n - k,
    {
        let c = digits[n - 1 - k];
        proof {
            lemma_udec_wf(m0);
            assert(udec(m0)[k as int] == digits@[n - 1 - k]);
            assert(is_digit_char(c));
        }
        append_digit(&mut out, c);
        k = k + 1;
        proof {
            assert(out@ =~= sign_part + Seq::new(k as nat, |j: int| digits@[n - 1 - j]));
        }
    }
    proof {
        assert(Seq::new(n as nat, |j: int| digits@[n - 1 - j]) =~= udec(m0));
        if negative {
            assert(out@ =~= seq!['-'] + udec((-(v as int)) as nat));
        } else {
            assert(out@ =~= udec(v as nat));
        }
    }
    out
}

fn digit_char_exec(d: u64) -> (r: char)
    requires
        d < 10,
    ensures
        r == digit_char(d as int),
{
    match d {
        0 => '0',
        1 => '1',
        2 => '2',
        3 => '3',
        4 => '4',
        5 => '5',
        6 => '6',
        7 => '7',
        8 => '8',
        _ => '9',
    }
}

/// Parse a 64-bit signed integer, exactly as `spec_parse_i64` describes.
pub fn parse_i64(s: &str) -> (r: Option<i64>)
    ensures
        match r {
            Some(v) => spec_parse_i64(s@) == Some(v as int),
            None => spec_parse_i64(s@) is None,
        },
{
    let chars = to_chars(s);
    let n: usize = chars.len();
    let negative = n > 0 && chars[0] == '-';
    let start: usize = if n > 0 && (chars[0] == '+' || chars[0] == '-') {
        1
    } else {
        0
    };
    let ghost digits = s@.skip(start as int);
    proof {
        if start == 0 {
            assert(digits =~= s@);
        }
    }
    if n == start {
        proof {
            assert(digits.len() == 0);
            assert(spec_parse_i64(s@) is None);
        }
        return None;
    }
    // the magnitude, clamped just above the largest value that can fit
    let cap: u128 = 0x8000000000000001u128;
    let mut acc: u128 = 0;
    let mut i: usize = start;
    while i < n
        invariant
            n == s@.len() == chars@.len(),
            chars@ == s@,
            start <= i <= n,
            digits == s@.skip(start as int),
            (n > 0 && (s@[0] == '+' || s@[0] == '-')) ==> start == 1,
            !(n > 0 && (s@[0] == '+' || s@[0] == '-')) ==> start == 0,
            acc as int == if digits_val(digits.take(i - start)) <= cap as int {
                digits_val(digits.take(i - start))
            } else {
                cap as int
            },
            all_digits(digits.take(i - start)),
            cap == 0x8000000000000001u128,
        decreases n - i,
    {
        let c = chars[i];
        if !(c >= '0' && c <= '9') {
            proof {
                assert(digits[i - start] == c);
                assert(!all_digits(digits));
            }
            return None;
        }
        let d: u64 = (c as u32 as u64) - 48;
        let ghost prefix = digits.take(i - start);
        let ghost x = digits_val(prefix);
        proof {
            lemma_digits_val_nonneg(prefix);
            assert(digits.take(i + 1 - start).drop_last() =~= prefix);
            assert(digits.take(i + 1 - start).last() == c);
            assert(digits_val(digits.take(i + 1 - start)) == x * 10 + digit_val(c));
            assert(all_digits(digits.take(i + 1 - start)));
        }
        let mut next: u128 = acc * 10 + (d as u128);
        if next > cap {
            next = cap;
        }
        proof {
            let xd = x * 10 + digit_val(c);
            if x <= cap as int {
                assert(acc as int == x);
                assert(next as int == if xd <= cap as int {
                    xd
                } else {
                    cap as int
                });
            } else {
                assert(acc == cap);
                assert(xd >= x) by {
                    assert(x * 10 == x + 9 * x);
                    lemma_digits_val_nonneg(prefix);
                }
                assert(next == cap);
            }
        }
        acc = next;
        i = i + 1;
    }
    proof {
        assert(digits.take(n - start) =~= digits);
    }
    if negative {
        if acc <= 0x8000000000000000u128 {
            proof {
                assert(digits_val(digits) == acc as int);
            }
            if acc == 0x8000000000000000u128 {
                Some(-0x8000000000000000i64)
            } else {
                Some(-(acc as i64))
            }
        } else {
            proof {
                assert(digits_val(digits) >= acc as int);
            }
            None
        }
    } else {
        if acc <= 0x7fffffffffffffffu128 {
            proof {
                assert(digits_val(digits) == acc as int);
            }
            Some(acc as i64)
        } else {
            proof {
                if digits_val(digits) <= cap as int {
                    assert(digits_val(digits) == acc as int);
                } else {
                    assert(acc == cap);
                }
                assert(digits_val(digits) > 0x7fffffffffffffff);
            }
            None
        }
    }
}

/// Parse a boolean, exactly as `spec_parse_bool` describes.
pub fn parse_bool(s: &str) -> (r: Option<bool>)
    ensures
        match r {
            Some(v) => spec_parse_bool(s@) == Some(v),
            None => spec_parse_bool(s@) is None,
        },
{
    let chars = to_chars(s);
    let t = to_chars("true");
    let f = to_chars("false");
    if crate::text::chars_eq(&chars, &t) {
        Some(true)
    } else if crate::text::chars_eq(&chars, &f) {
        Some(false)
    } else {
        None
    }
}

} // verus!
