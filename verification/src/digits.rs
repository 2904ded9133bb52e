//! Decimal text: grammar, value, canonical form, and the executable parsers.
//!
//! An unsigned number is an optional `+` followed by one or more decimal
//! digits; a signed number allows `-` as well. The value of a digit string is
//! pinned by [`uint_val`], and [`canon_nat`] is the canonical (shortest)
//! rendering of a value, so round trips can be stated exactly.

use vstd::prelude::*;

verus! {

/// Whether `c` is a decimal digit.
pub open spec fn is_digit(c: char) -> bool {
    0x30 <= c as u32 && c as u32 <= 0x39
}

/// The numeric value of the digit `c`.
pub open spec fn digit_val(c: char) -> nat {
    (c as u32 - 0x30) as nat
}

/// The digit whose value is `d % 10`.
pub open spec fn digit_char(d: nat) -> char {
    ((0x30 + d % 10) as u8) as char
}

/// Whether every character of `s` is a decimal digit.
pub open spec fn all_digits(s: Seq<char>) -> bool {
    forall|i: int| 0 <= i < s.len() ==> is_digit(s[i])
}

/// The value of the digit string `s`, most significant digit first.
pub open spec fn uint_val(s: Seq<char>) -> nat
    decreases s.len(),
{
    if s.len() == 0 {
        0
    } else {
        10 * uint_val(s.drop_last()) + digit_val(s.last())
    }
}

/// `s` without its single optional leading `+`.
pub open spec fn unsigned_digits(s: Seq<char>) -> Seq<char> {
    if s.len() > 0 && s[0] == '+' {
        s.drop_first()
    } else {
        s
    }
}

/// Whether `s` matches the textual grammar of an unsigned integer.
pub open spec fn is_unsigned_text(s: Seq<char>) -> bool {
    unsigned_digits(s).len() > 0 && all_digits(unsigned_digits(s))
}

/// The value of the unsigned number `s` spells.
pub open spec fn unsigned_val(s: Seq<char>) -> nat {
    uint_val(unsigned_digits(s))
}

/// `s` without its single optional leading `+` or `-`.
pub open spec fn signed_digits(s: Seq<char>) -> Seq<char> {
    if s.len() > 0 && (s[0] == '+' || s[0] == '-') {
        s.drop_first()
    } else {
        s
    }
}

/// Whether `s` matches the textual grammar of a signed integer.
pub open spec fn is_signed_text(s: Seq<char>) -> bool {
    signed_digits(s).len() > 0 && all_digits(signed_digits(s))
}

/// The value of the signed number `s` spells.
pub open spec fn signed_val(s: Seq<char>) -> int {
    if s.len() > 0 && s[0] == '-' {
        -(uint_val(signed_digits(s)) as int)
    } else {
        uint_val(signed_digits(s)) as int
    }
}

/// The canonical decimal rendering of `n`: no sign, no leading zero except
/// for zero itself.
pub open spec fn canon_nat(n: nat) -> Seq<char>
    decreases n,
{
    if n < 10 {
        seq![digit_char(n)]
    } else {
        canon_nat(n / 10).push(digit_char(n))
    }
}

/// Ten to the `n`.
pub open spec fn pow10(n: nat) -> nat
    decreases n,
{
    if n == 0 {
        1
    } else {
        10 * pow10((n - 1) as nat)
    }
}

/// The rendering of `n % pow10(len)` as exactly `len` digits, zero padded.
pub open spec fn canon_pad(n: nat, len: nat) -> Seq<char>
    decreases len,
{
    if len == 0 {
        Seq::empty()
    } else {
        canon_pad(n / 10, (len - 1) as nat).push(digit_char(n))
    }
}

/// The index of the first `.` in `d`, or `d.len()` when there is none.
pub open spec fn dot_pos(d: Seq<char>) -> int
    decreases d.len(),
{
    if d.len() == 0 {
        0
    } else if d[0] == '.' {
        0
    } else {
        1 + dot_pos(d.drop_first())
    }
}

/// The digits before the first `.` of `d`.
pub open spec fn int_digits(d: Seq<char>) -> Seq<char> {
    d.subrange(0, dot_pos(d))
}

/// The digits after the first `.` of `d`, empty when there is no `.`.
pub open spec fn frac_digits(d: Seq<char>) -> Seq<char> {
    if dot_pos(d) < d.len() {
        d.subrange(dot_pos(d) + 1, d.len() as int)
    } else {
        Seq::empty()
    }
}

/// `dot_pos` finds exactly the first `.`.
pub proof fn lemma_dot_pos_at(d: Seq<char>, i: int)
    requires
        0 <= i <= d.len(),
        forall|k: int| 0 <= k < i ==> d[k] != '.',
        i < d.len() ==> d[i] == '.',
        i == d.len() ==> (forall|k: int| 0 <= k < d.len() ==> d[k] != '.'),
    ensures
        dot_pos(d) == i,
    decreases i + 1,
{
    if d.len() == 0 {
    } else if i == 0 {
    } else {
        let t = d.drop_first();
        assert(forall|k: int| 0 <= k < i - 1 ==> #[trigger] t[k] != '.');
        lemma_dot_pos_at(t, i - 1);
    }
}

/// The digit character of `n` is a digit and is worth `n % 10`.
proof fn lemma_digit_char(n: nat)
    ensures
        is_digit(digit_char(n)),
        digit_val(digit_char(n)) == n % 10,
{
    let m = n % 10;
    assert(0 <= m < 10);
    let b = (0x30 + m) as u8;
    assert(0x30 <= b <= 0x39);
    assert((b as char) as u32 == b);
}

/// The canonical rendering of a value reads back as that value.
pub proof fn lemma_canon_nat(n: nat)
    ensures
        canon_nat(n).len() > 0,
        all_digits(canon_nat(n)),
        uint_val(canon_nat(n)) == n,
    decreases n,
{
    if n < 10 {
        let c = digit_char(n);
        lemma_digit_char(n);
        assert(canon_nat(n) == seq![c]);
        assert(seq![c].len() == 1);
        assert(seq![c][0] == c);
        assert(seq![c].last() == c);
        assert(seq![c].drop_last() =~= Seq::<char>::empty());
        assert(uint_val(Seq::<char>::empty()) == 0);
        assert(uint_val(seq![c]) == 10 * uint_val(seq![c].drop_last()) + digit_val(seq![c].last()));
        assert(uint_val(seq![c]) == digit_val(c));
        assert(n % 10 == n) by {
            vstd::arithmetic::div_mod::lemma_small_mod(n, 10);
        }
        assert(uint_val(canon_nat(n)) == n);
    } else {
        lemma_canon_nat(n / 10);
        let s = canon_nat(n);
        assert(s == canon_nat(n / 10).push(digit_char(n)));
        assert(s.drop_last() =~= canon_nat(n / 10));
        assert(s.last() == digit_char(n));
        lemma_digit_char(n);
        assert(uint_val(s) == 10 * uint_val(canon_nat(n / 10)) + digit_val(digit_char(n)));
        assert(10 * (n / 10) + n % 10 == n) by {
            vstd::arithmetic::div_mod::lemma_fundamental_div_mod(n as int, 10);
        }
        assert(uint_val(canon_nat(n)) == n);
        assert(forall|i: int| 0 <= i < s.len() ==> is_digit(s[i]));
    }
}

/// The padded rendering of a value below `pow10(len)` reads back as that
/// value, in exactly `len` digits.
pub proof fn lemma_canon_pad(n: nat, len: nat)
    requires
        n < pow10(len),
    ensures
        canon_pad(n, len).len() == len,
        all_digits(canon_pad(n, len)),
        uint_val(canon_pad(n, len)) == n,
    decreases len,
{
    if len == 0 {
        assert(n == 0);
    } else {
        assert(n / 10 < pow10((len - 1) as nat)) by {
            vstd::arithmetic::div_mod::lemma_fundamental_div_mod(n as int, 10);
        }
        lemma_canon_pad(n / 10, (len - 1) as nat);
        let s = canon_pad(n, len);
        assert(s.drop_last() =~= canon_pad(n / 10, (len - 1) as nat));
        lemma_digit_char(n);
        assert(10 * (n / 10) + n % 10 == n) by {
            vstd::arithmetic::div_mod::lemma_fundamental_div_mod(n as int, 10);
        }
        assert(forall|i: int| 0 <= i < s.len() ==> is_digit(s[i]));
    }
}

/// A digit string is worth at least any of its prefixes.
proof fn lemma_uint_val_prefix(s: Seq<char>, j: int)
    requires
        0 <= j <= s.len(),
    ensures
        uint_val(s) >= uint_val(s.subrange(0, j)),
    decreases s.len() - j,
{
    if j == s.len() {
        assert(s.subrange(0, j) =~= s);
    } else {
        lemma_uint_val_prefix(s, j + 1);
        assert(s.subrange(0, j + 1).drop_last() =~= s.subrange(0, j));
        assert(uint_val(s.subrange(0, j + 1)) >= uint_val(s.subrange(0, j)));
    }
}

/// Parses the digits of `s` from position `start` to the end as a `u64`.
/// Fails when a non-digit appears, when there are no digits at all, or when
/// the value does not fit.
pub fn parse_digits_u64(s: &str, start: usize) -> (r: Option<u64>)
    requires
        start <= s@.len(),
    ensures
        ({
            let d = s@.skip(start as int);
            match r {
                Some(v) => d.len() > 0 && all_digits(d) && uint_val(d) == v,
                None => !(d.len() > 0 && all_digits(d) && uint_val(d) <= u64::MAX),
            }
        }),
{
    let ghost d = s@.skip(start as int);
    let n = s.unicode_len();
    if start == n {
        return None;
    }
    let mut acc: u64 = 0;
    let mut i: usize = start;
    while i < n
        invariant
            n == s@.len(),
            start <= i <= n,
            start < n,
            d == s@.skip(start as int),
            forall|k: int| 0 <= k < i - start ==> is_digit(#[trigger] d[k]),
            acc == uint_val(d.subrange(0, i - start)),
        decreases n - i,
    {
        let c = s.get_char(i);
        let u = c as u32;
        if u < 0x30 || u > 0x39 {
            proof {
                assert(d[i - start] == s@[i as int]);
                assert(!is_digit(d[i - start]));
            }
            return None;
        }
        let dv: u64 = (u - 0x30) as u64;
        proof {
            assert(d[i - start] == s@[i as int]);
            assert(is_digit(d[i - start]));
            assert(digit_val(d[i - start]) == dv);
        }
        if acc > (u64::MAX - dv) / 10 {
            proof {
                let q = ((u64::MAX - dv) / 10) as int;
                vstd::arithmetic::div_mod::lemma_fundamental_div_mod(u64::MAX - dv, 10);
                assert(10 * acc + dv > u64::MAX) by (nonlinear_arith)
                    requires
                        acc > q,
                        u64::MAX - dv == 10 * q + ((u64::MAX - dv) as int % 10),
                        (u64::MAX - dv) as int % 10 < 10,
                {}
                assert(d.subrange(0, i - start + 1).drop_last() =~= d.subrange(0, i - start));
                assert(uint_val(d.subrange(0, i - start + 1)) > u64::MAX);
                lemma_uint_val_prefix(d, i - start + 1);
            }
            return None;
        }
        proof {
            let q = ((u64::MAX - dv) / 10) as int;
            vstd::arithmetic::div_mod::lemma_fundamental_div_mod(u64::MAX - dv, 10);
            assert(10 * acc + dv <= u64::MAX) by (nonlinear_arith)
                requires
                    acc <= q,
                    0 <= dv,
                    u64::MAX - dv == 10 * q + ((u64::MAX - dv) as int % 10),
                    (u64::MAX - dv) as int % 10 >= 0,
            {}
            assert(d.subrange(0, i - start + 1).drop_last() =~= d.subrange(0, i - start));
        }
        acc = acc * 10 + dv;
        i = i + 1;
    }
    proof {
        assert(d.subrange(0, n - start) =~= d);
    }
    Some(acc)
}

/// Parses `s` as an unsigned 64-bit integer: an optional `+`, then digits.
pub fn parse_u64(s: &str) -> (r: Option<u64>)
    ensures
        match r {
            Some(v) => is_unsigned_text(s@) && unsigned_val(s@) == v,
            None => !(is_unsigned_text(s@) && unsigned_val(s@) <= u64::MAX),
        },
{
    let n = s.unicode_len();
    let start: usize = if n > 0 && s.get_char(0) == '+' {
        1
    } else {
        0
    };
    proof {
        if start == 1 {
            assert(s@.skip(1) =~= s@.drop_first());
        } else {
            assert(s@.skip(0) =~= s@);
        }
        assert(unsigned_digits(s@) == s@.skip(start as int));
    }
    parse_digits_u64(s, start)
}

/// Parses `s` as a signed 64-bit integer: an optional `+` or `-`, then
/// digits.
pub fn parse_i64(s: &str) -> (r: Option<i64>)
    ensures
        match r {
            Some(v) => is_signed_text(s@) && signed_val(s@) == v,
            None => !(is_signed_text(s@) && i64::MIN <= signed_val(s@) <= i64::MAX),
        },
{
    let n = s.unicode_len();
    let neg = n > 0 && s.get_char(0) == '-';
    let plus = n > 0 && s.get_char(0) == '+';
    let start: usize = if neg || plus {
        1
    } else {
        0
    };
    proof {
        if start == 1 {
            assert(s@.skip(1) =~= s@.drop_first());
        } else {
            assert(s@.skip(0) =~= s@);
        }
        assert(signed_digits(s@) == s@.skip(start as int));
    }
    match parse_digits_u64(s, start) {
        None => None,
        Some(mag) => {
            if !neg {
                if mag <= i64::MAX as u64 {
                    Some(mag as i64)
                } else {
                    None
                }
            } else {
                if mag < 0x8000_0000_0000_0000u64 {
                    Some(-(mag as i64))
                } else if mag == 0x8000_0000_0000_0000u64 {
                    Some(i64::MIN)
                } else {
                    None
                }
            }
        },
    }
}

} // verus!
