//! Decimal numerals: the value of a digit string, fixed-point parsing into
//! microseconds, and formatting of integers back into decimal text.

use vstd::prelude::*;
use vstd::string::*;
use crate::text::{digit, digit_val, find_char, find_from, is_digit, lemma_find_from};

verus! {

// ---------------------------------------------------------------------------
// Value of a digit string
// ---------------------------------------------------------------------------

pub open spec fn all_digits(s: Seq<char>) -> bool {
    forall|i: int| 0 <= i < s.len() ==> is_digit(#[trigger] s[i])
}

/// The numeric value of a decimal digit string (most significant first).
pub open spec fn dec_val(s: Seq<char>) -> nat
    decreases s.len(),
{
    if s.len() == 0 {
        0
    } else {
        dec_val(s.drop_last()) * 10 + digit_val(s.last())
    }
}

pub open spec fn pow10(n: nat) -> nat
    decreases n,
{
    if n == 0 {
        1
    } else {
        10 * pow10((n - 1) as nat)
    }
}

/// A run of `n` zero digits.
pub open spec fn zeros(n: nat) -> Seq<char> {
    Seq::new(n, |i: int| '0')
}

/// Appending one character multiplies the prefix value by ten.
pub proof fn lemma_dec_val_push(s: Seq<char>, c: char)
    ensures
        dec_val(s.push(c)) == dec_val(s) * 10 + digit_val(c),
{
    assert(s.push(c).drop_last() =~= s);
    assert(s.push(c).last() == c);
}

/// The value of a prefix never exceeds the value of the whole string.
pub proof fn lemma_dec_val_prefix(s: Seq<char>, k: int)
    requires
        0 <= k <= s.len(),
    ensures
        dec_val(s.take(k)) <= dec_val(s),
    decreases s.len() - k,
{
    if k == s.len() {
        assert(s.take(k) =~= s);
    } else {
        assert(s.take(k + 1).drop_last() =~= s.take(k));
        assert(dec_val(s.take(k + 1)) == dec_val(s.take(k)) * 10 + digit_val(s.take(k + 1).last()));
        lemma_dec_val_prefix(s, k + 1);
    }
}

/// A digit string of length `n` has value below ten to the `n`.
pub proof fn lemma_dec_val_bound(s: Seq<char>)
    requires
        all_digits(s),
    ensures
        dec_val(s) < pow10(s.len()),
    decreases s.len(),
{
    if s.len() > 0 {
        assert(all_digits(s.drop_last())) by {
            assert(forall|i: int| 0 <= i < s.len() - 1 ==> s.drop_last()[i] == s[i]);
        }
        lemma_dec_val_bound(s.drop_last());
        assert(is_digit(s.last()));
        assert(digit_val(s.last()) <= 9);
        assert(dec_val(s.drop_last()) * 10 <= (pow10(s.drop_last().len()) - 1) * 10) by (
        nonlinear_arith)
            requires
                dec_val(s.drop_last()) <= pow10(s.drop_last().len()) - 1,
        ;
    }
}

/// Padding with zero digits scales the value by a power of ten.
pub proof fn lemma_dec_val_zeros(t: Seq<char>, m: nat)
    ensures
        dec_val(t + zeros(m)) == dec_val(t) * pow10(m),
    decreases m,
{
    if m == 0 {
        assert(t + zeros(0) =~= t);
        assert(pow10(0) == 1);
        assert(dec_val(t + zeros(m)) == dec_val(t) * pow10(m));
    } else {
        lemma_dec_val_zeros(t, (m - 1) as nat);
        let tz = t + zeros((m - 1) as nat);
        assert(t + zeros(m) =~= tz.push('0'));
        lemma_dec_val_push(tz, '0');
        assert(digit_val('0') == 0);
        assert(dec_val(t + zeros(m)) == dec_val(tz) * 10);
        assert(dec_val(tz) == dec_val(t) * pow10((m - 1) as nat));
        assert(pow10(m) == 10 * pow10((m - 1) as nat));
        assert((dec_val(t) * pow10((m - 1) as nat)) * 10 == dec_val(t) * (10 * pow10(
            (m - 1) as nat,
        ))) by (nonlinear_arith);
        assert(dec_val(t + zeros(m)) == dec_val(t) * pow10(m));
    }
}

/// Executable value of a decimal digit character.
pub fn digit_value(c: char) -> (r: u64)
    requires
        is_digit(c),
    ensures
        r == digit_val(c),
{
    (c as u32 - 48) as u64
}

/// Value of the digit string `s[from..to]`, or `None` when a character there
/// is no digit or the value does not fit in a `u64`.
pub fn dec_val_range(s: &str, from: usize, to: usize) -> (r: Option<u64>)
    requires
        from <= to <= s@.len(),
    ensures
        ({
            let seg = s@.subrange(from as int, to as int);
            match r {
                Some(v) => all_digits(seg) && v == dec_val(seg),
                None => !all_digits(seg) || dec_val(seg) > u64::MAX,
            }
        }),
{
    let ghost seg = s@.subrange(from as int, to as int);
    let mut val: u64 = 0;
    let mut j: usize = from;
    proof {
        assert(s@.subrange(from as int, from as int) =~= Seq::<char>::empty());
    }
    while j < to
        invariant
            from <= j <= to <= s@.len(),
            seg == s@.subrange(from as int, to as int),
            all_digits(s@.subrange(from as int, j as int)),
            val == dec_val(s@.subrange(from as int, j as int)),
        decreases to - j,
    {
        let ghost pre = s@.subrange(from as int, j as int);
        let c = s.get_char(j);
        if !digit(c) {
            proof {
                assert(seg[j - from] == c);
            }
            return None;
        }
        let d = digit_value(c);
        let nv: u128 = val as u128 * 10 + d as u128;
        proof {
            assert(s@.subrange(from as int, j + 1) =~= pre.push(c));
            lemma_dec_val_push(pre, c);
        }
        if nv > u64::MAX as u128 {
            proof {
                assert(seg.take(j + 1 - from) =~= s@.subrange(from as int, j + 1));
                lemma_dec_val_prefix(seg, j + 1 - from);
            }
            return None;
        }
        val = nv as u64;
        j = j + 1;
    }
    proof {
        assert(s@.subrange(from as int, to as int) =~= seg);
    }
    Some(val)
}

// ---------------------------------------------------------------------------
// Fixed-point parsing into microseconds
// ---------------------------------------------------------------------------

/// The fraction padded or truncated to exactly six digits.
pub open spec fn pad6(s: Seq<char>) -> Seq<char> {
    if s.len() >= 6 {
        s.take(6)
    } else {
        s + zeros((6 - s.len()) as nat)
    }
}

/// A decimal numeral `digits[.digits]` (either part may be empty, not both),
/// read as a count of seconds, converted to whole microseconds: fractional
/// digits beyond the sixth are truncated. `None` when the text has any other
/// shape or the result does not fit in a `u64`.
pub open spec fn spec_parse_micros(s: Seq<char>) -> Option<u64> {
    let ip_end = match find_from(s, '.', 0) {
        Some(d) => d,
        None => s.len() as int,
    };
    let ip = s.take(ip_end);
    let fp = if ip_end == s.len() {
        Seq::<char>::empty()
    } else {
        s.skip(ip_end + 1)
    };
    if ip.len() + fp.len() == 0 {
        None
    } else if !all_digits(ip) || !all_digits(fp) {
        None
    } else {
        let v = dec_val(ip) * 1000000 + dec_val(pad6(fp));
        if v > u64::MAX {
            None
        } else {
            Some(v as u64)
        }
    }
}

/// Scale factor that pads `k` fraction digits out to six.
fn pad_factor(k: usize) -> (r: u64)
    requires
        k <= 6,
    ensures
        r == pow10((6 - k) as nat),
{
    proof {
        assert(pow10(0) == 1);
        assert(pow10(1) == 10);
        assert(pow10(2) == 100);
        assert(pow10(3) == 1000);
        assert(pow10(4) == 10000);
        assert(pow10(5) == 100000);
        assert(pow10(6) == 1000000);
    }
    if k == 6 {
        1
    } else if k == 5 {
        10
    } else if k == 4 {
        100
    } else if k == 3 {
        1000
    } else if k == 2 {
        10000
    } else if k == 1 {
        100000
    } else {
        1000000
    }
}

/// Parses a decimal count of seconds into whole microseconds.
pub fn parse_micros(s: &str) -> (r: Option<u64>)
    ensures
        r == spec_parse_micros(s@),
{
    let n = s.unicode_len();
    let dot = find_char(s, '.', 0);
    proof {
        lemma_find_from(s@, '.', 0);
    }
    let ip_end: usize = match dot {
        Some(d) => d,
        None => n,
    };
    let fp_start: usize = match dot {
        Some(d) => d + 1,
        None => n,
    };
    let ghost ip = s@.take(ip_end as int);
    let ghost fp = if ip_end == n {
        Seq::<char>::empty()
    } else {
        s@.skip(ip_end + 1)
    };
    proof {
        assert(fp =~= s@.subrange(fp_start as int, n as int));
    }
    if ip_end == 0 && fp_start == n {
        return None;
    }
    let ipv = match dec_val_range(s, 0, ip_end) {
        Some(v) => v,
        None => {
            proof {
                assert(ip =~= s@.subrange(0, ip_end as int));
                if all_digits(ip) {
                    assert(dec_val(ip) > u64::MAX);
                    assert(dec_val(ip) * 1000000 >= dec_val(ip) * 1) by (nonlinear_arith);
                }
            }
            return None;
        },
    };
    proof {
        assert(ip =~= s@.subrange(0, ip_end as int));
    }
    let fp_len = n - fp_start;
    let fv: u64;
    if fp_len >= 6 {
        let v6 = match dec_val_range(s, fp_start, fp_start + 6) {
            Some(v) => v,
            None => {
                proof {
                    let seg6 = s@.subrange(fp_start as int, fp_start + 6);
                    assert(seg6 =~= fp.take(6));
                    if all_digits(seg6) {
                        lemma_dec_val_bound(seg6);
                        assert(pow10(0) == 1);
                        assert(pow10(1) == 10);
                        assert(pow10(2) == 100);
                        assert(pow10(3) == 1000);
                        assert(pow10(4) == 10000);
                        assert(pow10(5) == 100000);
                        assert(pow10(6) == 1000000);
                        assert(forall|k: int| 0 <= k < fp.len() && is_digit(#[trigger] seg6[k])
                            ==> true);
                        assert(!all_digits(fp)) by {
                            if all_digits(fp) {
                                assert(forall|k: int| 0 <= k < 6 ==> #[trigger] seg6[k] == fp[k]);
                                assert(false);
                            }
                        }
                    } else {
                        assert(exists|k: int| 0 <= k < 6 && !is_digit(#[trigger] seg6[k]));
                        let k = choose|k: int| 0 <= k < 6 && !is_digit(#[trigger] seg6[k]);
                        assert(fp[k] == seg6[k]);
                    }
                }
                return None;
            },
        };
        let ghost seg6 = s@.subrange(fp_start as int, fp_start + 6);
        proof {
            assert forall|k: int| fp_start <= k < fp_start + 6 implies is_digit(
                #[trigger] s@[k],
            ) by {
                assert(seg6[k - fp_start] == s@[k]);
            }
        }
        // the digits past the sixth carry no value but must still be digits
        let mut j = fp_start + 6;
        while j < n
            invariant
                fp_start + 6 <= j <= n,
                n == s@.len(),
                fp == s@.subrange(fp_start as int, n as int),
                !all_digits(fp) ==> spec_parse_micros(s@) is None,
                forall|k: int| fp_start <= k < j ==> is_digit(#[trigger] s@[k]),
                all_digits(seg6),
                seg6 == s@.subrange(fp_start as int, fp_start + 6),
            decreases n - j,
        {
            let c = s.get_char(j);
            if !digit(c) {
                proof {
                    assert(fp[j - fp_start] == c);
                    assert(!all_digits(fp));
                }
                return None;
            }
            j = j + 1;
        }
        proof {
            assert(forall|k: int| 0 <= k < fp.len() ==> fp[k] == s@[fp_start + k]);
            assert(all_digits(fp));
            assert(pad6(fp) =~= seg6);
        }
        fv = v6;
    } else {
        let vf = match dec_val_range(s, fp_start, n) {
            Some(v) => v,
            None => {
                proof {
                    if all_digits(fp) {
                        lemma_dec_val_bound(fp);
                        assert(pow10(0) == 1);
                        assert(pow10(1) == 10);
                        assert(pow10(2) == 100);
                        assert(pow10(3) == 1000);
                        assert(pow10(4) == 10000);
                        assert(pow10(5) == 100000);
                        assert(false);
                    }
                }
                return None;
            },
        };
        let factor = pad_factor(fp_len);
        proof {
            lemma_dec_val_bound(fp);
            assert(pow10(0) == 1);
            assert(pow10(1) == 10);
            assert(pow10(2) == 100);
            assert(pow10(3) == 1000);
            assert(pow10(4) == 10000);
            assert(pow10(5) == 100000);
            assert(pow10(6) == 1000000);
            lemma_dec_val_zeros(fp, (6 - fp.len()) as nat);
            assert(dec_val(fp) * pow10((6 - fp.len()) as nat) <= 99999 * 1000000) by (
            nonlinear_arith)
                requires
                    dec_val(fp) <= 99999,
                    pow10((6 - fp.len()) as nat) <= 1000000,
            ;
        }
        fv = vf * factor;
    }
    // fv == dec_val(pad6(fp)) and is below one million
    proof {
        lemma_dec_val_bound(pad6(fp));
        assert(pad6(fp).len() == 6);
        assert(pow10(6) == 1000000) by {
            assert(pow10(0) == 1);
            assert(pow10(1) == 10);
            assert(pow10(2) == 100);
            assert(pow10(3) == 1000);
            assert(pow10(4) == 10000);
            assert(pow10(5) == 100000);
        }
    }
    let total: u128 = ipv as u128 * 1000000 + fv as u128;
    if total > u64::MAX as u128 {
        None
    } else {
        Some(total as u64)
    }
}

// ---------------------------------------------------------------------------
// Formatting
// ---------------------------------------------------------------------------

/// The decimal digit character for `d`.
pub open spec fn digit_char(d: int) -> char {
    if d == 0 {
        '0'
    } else if d == 1 {
        '1'
    } else if d == 2 {
        '2'
    } else if d == 3 {
        '3'
    } else if d == 4 {
        '4'
    } else if d == 5 {
        '5'
    } else if d == 6 {
        '6'
    } else if d == 7 {
        '7'
    } else if d == 8 {
        '8'
    } else {
        '9'
    }
}

/// The decimal numeral of `n`, most significant digit first, no leading zero.
pub open spec fn dec_str(n: nat) -> Seq<char>
    decreases n,
{
    if n < 10 {
        seq![digit_char(n as int)]
    } else {
        dec_str(n / 10).push(digit_char((n % 10) as int))
    }
}

/// A signed value's decimal numeral, with a leading minus when negative.
pub open spec fn int_str(v: int) -> Seq<char> {
    if v < 0 {
        seq!['-'] + dec_str((-v) as nat)
    } else {
        dec_str(v as nat)
    }
}

fn digit_str(d: u64) -> (r: &'static str)
    requires
        d <= 9,
    ensures
        r@ == seq![digit_char(d as int)],
{
    if d == 0 {
        proof {
            reveal_strlit("0");
            assert("0"@ =~= seq![digit_char(0int)]);
        }
        "0"
    } else if d == 1 {
        proof {
            reveal_strlit("1");
            assert("1"@ =~= seq![digit_char(1int)]);
        }
        "1"
    } else if d == 2 {
        proof {
            reveal_strlit("2");
            assert("2"@ =~= seq![digit_char(2int)]);
        }
        "2"
    } else if d == 3 {
        proof {
            reveal_strlit("3");
            assert("3"@ =~= seq![digit_char(3int)]);
        }
        "3"
    } else if d == 4 {
        proof {
            reveal_strlit("4");
            assert("4"@ =~= seq![digit_char(4int)]);
        }
        "4"
    } else if d == 5 {
        proof {
            reveal_strlit("5");
            assert("5"@ =~= seq![digit_char(5int)]);
        }
        "5"
    } else if d == 6 {
        proof {
            reveal_strlit("6");
            assert("6"@ =~= seq![digit_char(6int)]);
        }
        "6"
    } else if d == 7 {
        proof {
            reveal_strlit("7");
            assert("7"@ =~= seq![digit_char(7int)]);
        }
        "7"
    } else if d == 8 {
        proof {
            reveal_strlit("8");
            assert("8"@ =~= seq![digit_char(8int)]);
        }
        "8"
    } else {
        proof {
            reveal_strlit("9");
            assert("9"@ =~= seq![digit_char(9int)]);
        }
        "9"
    }
}

/// Formats `n` in decimal.
pub fn u128_to_string(n: u128) -> (r: String)
    ensures
        r@ == dec_str(n as nat),
    decreases n,
{
    if n < 10 {
        let mut s = String::new();
        s.append(digit_str(n as u64));
        proof {
            assert(s@ =~= dec_str(n as nat));
        }
        s
    } else {
        let mut s = u128_to_string(n / 10);
        s.append(digit_str((n % 10) as u64));
        proof {
            assert(s@ =~= dec_str(n as nat));
        }
        s
    }
}

/// Formats `n` in decimal.
pub fn u64_to_string(n: u64) -> (r: String)
    ensures
        r@ == dec_str(n as nat),
{
    u128_to_string(n as u128)
}

/// Formats `v` in decimal, with a leading minus when negative.
pub fn i128_to_string(v: i128) -> (r: String)
    requires
        v != i128::MIN,
    ensures
        r@ == int_str(v as int),
{
    if v < 0 {
        let m = (-v) as u128;
        let mut s = String::from_str("-");
        let t = u128_to_string(m);
        s.append(t.as_str());
        proof {
            reveal_strlit("-");
            assert(s@ =~= int_str(v as int));
        }
        s
    } else {
        u128_to_string(v as u128)
    }
}

} // verus!
