//! Decimal text for the wire format's timestamp fields: formatting of signed
//! integers, parsing with exact overflow behaviour, and the round-trip lemmas
//! tying the two together.

use vstd::prelude::*;

verus! {

pub open spec fn is_dec_digit(c: char) -> bool {
    48 <= c as int && c as int <= 57
}

pub open spec fn dec_digit_val(c: char) -> int {
    c as int - 48
}

/// The decimal digit character for `d` in 0..=9.
pub open spec fn digit_char(d: int) -> char {
    if d == 0 {
        '0'
    } else if d == 1 {
        '1'
    } else if d == 2 {
        '2'
    } else if d == 3 {
        '3'
    } else if d == 4 {
        '4'
    } else if d == 5 {
        '5'
    } else if d == 6 {
        '6'
    } else if d == 7 {
        '7'
    } else if d == 8 {
        '8'
    } else {
        '9'
    }
}

/// The decimal text of a non-negative integer, without sign or leading zeros.
pub open spec fn dec_str_of(n: nat) -> Seq<char>
    decreases n,
{
    if n < 10 {
        seq![digit_char(n as int)]
    } else {
        dec_str_of(n / 10).push(digit_char((n % 10) as int))
    }
}

/// The decimal text of a signed integer: a leading `-` for negative values.
pub open spec fn int_str_of(v: int) -> Seq<char> {
    if v < 0 {
        seq!['-'] + dec_str_of((-v) as nat)
    } else {
        dec_str_of(v as nat)
    }
}

pub open spec fn all_dec_digits(s: Seq<char>) -> bool {
    forall|i: int| 0 <= i < s.len() ==> is_dec_digit(#[trigger] s[i])
}

/// The value of a digit string read most-significant first.
pub open spec fn dec_val(s: Seq<char>) -> int
    decreases s.len(),
{
    if s.len() == 0 {
        0
    } else {
        dec_val(s.drop_last()) * 10 + dec_digit_val(s.last())
    }
}

/// The digits of an integer string, after an optional single `+` or `-`.
pub open spec fn digits_part(s: Seq<char>) -> Seq<char> {
    if s.len() > 0 && (s[0] == '+' || s[0] == '-') {
        s.skip(1)
    } else {
        s
    }
}

/// Whether `s` is an optionally signed, non-empty run of decimal digits.
pub open spec fn is_int_str(s: Seq<char>) -> bool {
    digits_part(s).len() >= 1 && all_dec_digits(digits_part(s))
}

/// The signed value of an integer string.
pub open spec fn int_str_val(s: Seq<char>) -> int {
    if s.len() > 0 && s[0] == '-' {
        -dec_val(digits_part(s))
    } else {
        dec_val(digits_part(s))
    }
}

pub proof fn lemma_dec_str_of_digits(n: nat)
    ensures
        dec_str_of(n).len() >= 1,
        all_dec_digits(dec_str_of(n)),
    decreases n,
{
    if n >= 10 {
        lemma_dec_str_of_digits(n / 10);
        let s = dec_str_of(n / 10);
        let t = dec_str_of(n);
        assert forall|i: int| 0 <= i < t.len() implies is_dec_digit(#[trigger] t[i]) by {
            if i < s.len() {
                assert(t[i] == s[i]);
            }
        }
    }
}

pub proof fn lemma_dec_val_nonneg(s: Seq<char>)
    requires
        all_dec_digits(s),
    ensures
        dec_val(s) >= 0,
    decreases s.len(),
{
    if s.len() > 0 {
        assert(all_dec_digits(s.drop_last())) by {
            assert forall|i: int| 0 <= i < s.drop_last().len() implies is_dec_digit(
                #[trigger] s.drop_last()[i],
            ) by {
                assert(s.drop_last()[i] == s[i]);
            }
        }
        lemma_dec_val_nonneg(s.drop_last());
    }
}

/// Reading back the decimal text of `n` yields `n`.
pub proof fn lemma_dec_round_trip(n: nat)
    ensures
        dec_val(dec_str_of(n)) == n,
    decreases n,
{
    if n < 10 {
        let s = dec_str_of(n);
        assert(s.drop_last() =~= Seq::<char>::empty());
        assert(dec_val(Seq::<char>::empty()) == 0);
        assert(s.last() == digit_char(n as int));
        assert(dec_val(s) == dec_val(s.drop_last()) * 10 + dec_digit_val(s.last()));
        assert(dec_digit_val(digit_char(n as int)) == n);
    } else {
        lemma_dec_round_trip(n / 10);
        let s = dec_str_of(n);
        assert(s.drop_last() =~= dec_str_of(n / 10));
        assert(dec_digit_val(digit_char((n % 10) as int)) == n % 10);
        assert(n / 10 * 10 + n % 10 == n) by {
            vstd::arithmetic::div_mod::lemma_fundamental_div_mod(n as int, 10);
        }
    }
}

/// The signed decimal text of `v` parses back to `v`, and holds nothing but
/// digits and a possible leading minus sign.
pub proof fn lemma_int_str_round_trip(v: int)
    ensures
        is_int_str(int_str_of(v)),
        int_str_val(int_str_of(v)) == v,
        forall|i: int|
            0 <= i < int_str_of(v).len() ==> (is_dec_digit(#[trigger] int_str_of(v)[i])
                || int_str_of(v)[i] == '-'),
{
    let s = int_str_of(v);
    if v < 0 {
        lemma_dec_str_of_digits((-v) as nat);
        lemma_dec_round_trip((-v) as nat);
        assert(s[0] == '-');
        assert(s.skip(1) =~= dec_str_of((-v) as nat));
        assert(digits_part(s) == dec_str_of((-v) as nat));
        assert forall|i: int| 0 <= i < s.len() implies (is_dec_digit(#[trigger] s[i]) || s[i]
            == '-') by {
            if i >= 1 {
                assert(s[i] == dec_str_of((-v) as nat)[i - 1]);
            }
        }
    } else {
        lemma_dec_str_of_digits(v as nat);
        lemma_dec_round_trip(v as nat);
        assert(is_dec_digit(s[0]));
        assert(s[0] != '+' && s[0] != '-');
        assert(digits_part(s) == s);
    }
}

/// Appending digits never shrinks the value of a digit string.
pub proof fn lemma_dec_val_prefix(s: Seq<char>, i: int)
    requires
        all_dec_digits(s),
        0 <= i <= s.len(),
    ensures
        dec_val(s.subrange(0, i)) <= dec_val(s),
    decreases s.len() - i,
{
    if i < s.len() {
        let t = s.subrange(0, i + 1);
        assert(t.drop_last() =~= s.subrange(0, i));
        assert(all_dec_digits(s.subrange(0, i))) by {
            assert forall|j: int| 0 <= j < i implies is_dec_digit(
                #[trigger] s.subrange(0, i)[j],
            ) by {
                assert(s.subrange(0, i)[j] == s[j]);
            }
        }
        lemma_dec_val_nonneg(s.subrange(0, i));
        assert(dec_val(t) == dec_val(s.subrange(0, i)) * 10 + dec_digit_val(s[i]));
        lemma_dec_val_prefix(s, i + 1);
    } else {
        assert(s.subrange(0, i) =~= s);
    }
}

fn digit_str(d: u8) -> (r: &'static str)
    requires
        d < 10,
    ensures
        r@ == seq![digit_char(d as int)],
{
    proof {
        reveal_strlit("0");
        reveal_strlit("1");
        reveal_strlit("2");
        reveal_strlit("3");
        reveal_strlit("4");
        reveal_strlit("5");
        reveal_strlit("6");
        reveal_strlit("7");
        reveal_strlit("8");
        reveal_strlit("9");
    }
    let r = match d {
        0 => "0",
        1 => "1",
        2 => "2",
        3 => "3",
        4 => "4",
        5 => "5",
        6 => "6",
        7 => "7",
        8 => "8",
        _ => "9",
    };
    proof {
        assert(r@ =~= seq![digit_char(d as int)]);
    }
    r
}

/// The reversal of a digit list, as the characters it stands for.
spec fn rev_chars(digits: Seq<u8>) -> Seq<char> {
    Seq::new(digits.len(), |j: int| digit_char(digits[digits.len() - 1 - j] as int))
}

pub fn u64_to_string(n: u64) -> (r: String)
    ensures
        r@ == dec_str_of(n as nat),
{
    if n == 0 {
        proof {
            reveal_strlit("0");
        }
        let z = String::from_str("0");
        proof {
            assert(z@ =~= dec_str_of(0));
        }
        return z;
    }
    let mut digits: Vec<u8> = Vec::new();
    let mut m: u64 = n;
    while m > 0
        invariant
            m >= 0,
            forall|j: int| 0 <= j < digits@.len() ==> #[trigger] digits@[j] < 10,
            if m > 0 {
                dec_str_of(n as nat) =~= dec_str_of(m as nat) + rev_chars(digits@)
            } else {
                digits@.len() >= 1 && dec_str_of(n as nat) =~= rev_chars(digits@)
            },
        decreases m,
    {
        let d: u8 = (m % 10) as u8;
        let ghost old_m = m as nat;
        let ghost old_digits = digits@;
        digits.push(d);
        m = m / 10;
        proof {
            assert(rev_chars(digits@) =~= seq![digit_char(d as int)] + rev_chars(old_digits));
            if m > 0 {
                assert(dec_str_of(old_m) == dec_str_of(old_m / 10).push(
                    digit_char((old_m % 10) as int),
                ));
                assert(dec_str_of(n as nat) =~= dec_str_of(m as nat) + rev_chars(digits@));
            } else {
                assert(old_m < 10);
                assert(dec_str_of(old_m) == seq![digit_char(old_m as int)]);
                assert(dec_str_of(n as nat) =~= rev_chars(digits@));
            }
        }
    }
    let mut s = String::new();
    let mut j: usize = 0;
    proof {
        assert(dec_str_of(n as nat).len() == digits@.len());
    }
    while j < digits.len()
        invariant
            j <= digits@.len(),
            digits@.len() >= 1,
            forall|k: int| 0 <= k < digits@.len() ==> #[trigger] digits@[k] < 10,
            dec_str_of(n as nat) =~= rev_chars(digits@),
            s@ =~= dec_str_of(n as nat).subrange(0, j as int),
        decreases digits@.len() - j,
    {
        let d = digits[digits.len() - 1 - j];
        s.append(digit_str(d));
        j = j + 1;
        proof {
            assert(dec_str_of(n as nat)[j - 1] == digit_char(d as int));
            assert(s@ =~= dec_str_of(n as nat).subrange(0, j as int));
        }
    }
    proof {
        assert(dec_str_of(n as nat).subrange(0, dec_str_of(n as nat).len() as int) =~= dec_str_of(
            n as nat,
        ));
    }
    s
}

pub fn i64_to_string(v: i64) -> (r: String)
    ensures
        r@ == int_str_of(v as int),
{
    if v >= 0 {
        u64_to_string(v as u64)
    } else {
        let m: i128 = -(v as i128);
        let mag: u64 = m as u64;
        proof {
            reveal_strlit("-");
        }
        let mut s = String::from_str("-");
        let tail = u64_to_string(mag);
        s.append(tail.as_str());
        proof {
            assert(s@ =~= int_str_of(v as int));
        }
        s
    }
}

pub fn i32_to_string(v: i32) -> (r: String)
    ensures
        r@ == int_str_of(v as int),
{
    i64_to_string(v as i64)
}

/// Parses an optionally signed decimal integer exactly as the timestamp
/// fields require: `None` when the text is not an integer or its value does
/// not fit in an `i64`.
pub fn parse_i64(s: &str) -> (r: Option<i64>)
    ensures
        r is Some <==> (is_int_str(s@) && i64::MIN <= int_str_val(s@) <= i64::MAX),
        r matches Some(v) ==> v as int == int_str_val(s@),
{
    let n = s.unicode_len();
    if n == 0 {
        return None;
    }
    let c0 = s.get_char(0);
    let neg = c0 == '-';
    let has_sign = neg || c0 == '+';
    let start: usize = if has_sign {
        1
    } else {
        0
    };
    if n == start {
        return None;
    }
    let limit: u64 = if neg {
        9223372036854775808
    } else {
        9223372036854775807
    };
    let ghost digits = s@.skip(start as int);
    proof {
        assert(digits =~= digits_part(s@));
    }
    let mut acc: u64 = 0;
    let mut i: usize = start;
    while i < n
        invariant
            start <= i <= n,
            n == s@.len(),
            start == if (s@.len() > 0 && (s@[0] == '+' || s@[0] == '-')) {
                1int
            } else {
                0int
            },
            neg == (s@.len() > 0 && s@[0] == '-'),
            limit == if neg {
                9223372036854775808u64
            } else {
                9223372036854775807u64
            },
            digits == digits_part(s@),
            digits.len() >= 1,
            all_dec_digits(digits.subrange(0, i - start)),
            acc as int == dec_val(digits.subrange(0, i - start)),
            acc <= limit,
        decreases n - i,
    {
        let c = s.get_char(i);
        let u: u32 = c as u32;
        if u < 48 || u > 57 {
            proof {
                assert(digits[i - start] == s@[i as int]);
                assert(!is_dec_digit(digits[i - start]));
                assert(!all_dec_digits(digits));
            }
            return None;
        }
        let d: u64 = (u - 48) as u64;
        proof {
            assert(digits[i - start] == s@[i as int]);
            assert(is_dec_digit(s@[i as int]));
        }
        if acc > (limit - d) / 10 {
            proof {
                let p = digits.subrange(0, i - start);
                let q = digits.subrange(0, i + 1 - start);
                assert(q.drop_last() =~= p);
                assert(dec_val(q) == dec_val(p) * 10 + d);
                assert(acc as int * 10 + d as int > limit as int) by (nonlinear_arith)
                    requires
                        acc as int > (limit as int - d as int) / 10,
                        0 <= d as int <= 9,
                        d as int <= limit as int,
                {}
                assert(all_dec_digits(q)) by {
                    assert forall|k: int| 0 <= k < q.len() implies is_dec_digit(
                        #[trigger] q[k],
                    ) by {
                        if k < p.len() {
                            assert(q[k] == p[k]);
                        }
                    }
                }
                assert(all_dec_digits(digits) ==> dec_val(q) <= dec_val(digits)) by {
                    if all_dec_digits(digits) {
                        lemma_dec_val_prefix(digits, i + 1 - start);
                    }
                }
                if neg {
                    assert(all_dec_digits(digits) ==> int_str_val(s@) < i64::MIN);
                } else {
                    assert(all_dec_digits(digits) ==> int_str_val(s@) > i64::MAX);
                }
                assert(!(is_int_str(s@) && i64::MIN <= int_str_val(s@) <= i64::MAX));
            }
            return None;
        }
        proof {
            assert(acc as int * 10 + d as int <= limit as int) by (nonlinear_arith)
                requires
                    acc as int <= (limit as int - d as int) / 10,
                    0 <= d as int <= 9,
                    d as int <= limit as int,
            {}
        }
        let ghost old_acc = acc as int;
        acc = acc * 10 + d;
        i = i + 1;
        proof {
            let p = digits.subrange(0, i - 1 - start);
            let q = digits.subrange(0, i - start);
            assert(q.drop_last() =~= p);
            assert(q.last() == s@[i - 1]);
            assert(dec_val(q) == old_acc * 10 + d);
            assert(all_dec_digits(q)) by {
                assert forall|k: int| 0 <= k < q.len() implies is_dec_digit(#[trigger] q[k]) by {
                    if k < p.len() {
                        assert(q[k] == p[k]);
                    }
                }
            }
        }
    }
    proof {
        assert(digits.subrange(0, n - start) =~= digits);
        assert(is_int_str(s@));
    }
    if neg {
        let v: i64 = (-(acc as i128)) as i64;
        proof {
            assert(v as int == -(acc as int));
        }
        Some(v)
    } else {
        Some(acc as i64)
    }
}

/// Parses an optionally signed decimal integer into an `i32`, failing on
/// non-integer text and on values outside the `i32` range.
pub fn parse_i32(s: &str) -> (r: Option<i32>)
    ensures
        r is Some <==> (is_int_str(s@) && i32::MIN <= int_str_val(s@) <= i32::MAX),
        r matches Some(v) ==> v as int == int_str_val(s@),
{
    match parse_i64(s) {
        Some(v) => {
            if v >= -2147483648i64 && v <= 2147483647i64 {
                Some(v as i32)
            } else {
                None
            }
        },
        None => None,
    }
}

} // verus!
