//! The parseable numeric types: unsigned and signed integers, and the
//! fixed-point decimal stand-in for fractional amounts.
//!
//! Each type states its textual grammar (`accepts`), the value a matching
//! string denotes (`value_of`), and a canonical rendering (`canonical`), and
//! proves that the canonical rendering of any value parses back to that
//! value.

use vstd::prelude::*;

use crate::digits::all_digits;
use crate::digits::canon_nat;
use crate::digits::canon_pad;
use crate::digits::dot_pos;
use crate::digits::frac_digits;
use crate::digits::int_digits;
use crate::digits::is_digit;
use crate::digits::is_signed_text;
use crate::digits::is_unsigned_text;
use crate::digits::lemma_canon_nat;
use crate::digits::lemma_canon_pad;
use crate::digits::lemma_dot_pos_at;
use crate::digits::parse_digits_u64;
use crate::digits::parse_i64;
use crate::digits::parse_u64;
use crate::digits::pow10;
use crate::digits::signed_digits;
use crate::digits::signed_val;
use crate::digits::uint_val;
use crate::digits::unsigned_digits;
use crate::digits::unsigned_val;

verus! {

/// A primitive type with a textual grammar: a matching string denotes one
/// value, and every value has a canonical rendering that parses back to it.
pub trait Numeric: Sized {
    /// Whether `s` is a valid textual representation of a value of `Self`.
    spec fn accepts(s: Seq<char>) -> bool;

    /// The value that the matching string `s` denotes.
    spec fn value_of(s: Seq<char>) -> Self;

    /// The canonical rendering of `self`.
    spec fn canonical(self) -> Seq<char>;

    /// Whether `self` is a value the grammar can express at all. True for
    /// every integer; the fixed-point type asks its fraction to fit its
    /// declared width.
    spec fn text_wf(self) -> bool;

    /// Parses the whole of `s`, exactly when `s` matches the grammar.
    fn from_text(s: &str) -> (r: Option<Self>)
        ensures
            r == if Self::accepts(s@) {
                Some(Self::value_of(s@))
            } else {
                None::<Self>
            },
    ;

    /// Round trip: rendering a value canonically and parsing it back yields
    /// the value itself.
    proof fn lemma_canonical_round_trip(self)
        requires
            self.text_wf(),
        ensures
            Self::accepts(self.canonical()),
            Self::value_of(self.canonical()) == self,
    ;
}

proof fn lemma_unsigned_canon(n: nat)
    ensures
        is_unsigned_text(canon_nat(n)),
        unsigned_val(canon_nat(n)) == n,
        is_signed_text(canon_nat(n)),
        signed_val(canon_nat(n)) == n,
{
    lemma_canon_nat(n);
    let c = canon_nat(n);
    assert(is_digit(c[0]));
    assert(c[0] != '+' && c[0] != '-') by {
        if c[0] == '+' {
            assert(c[0] as u32 == 0x2b);
        }
        if c[0] == '-' {
            assert(c[0] as u32 == 0x2d);
        }
    }
    assert(unsigned_digits(c) == c);
    assert(signed_digits(c) == c);
}

impl Numeric for u64 {
    open spec fn accepts(s: Seq<char>) -> bool {
        is_unsigned_text(s) && unsigned_val(s) <= u64::MAX
    }

    open spec fn value_of(s: Seq<char>) -> u64 {
        unsigned_val(s) as u64
    }

    open spec fn canonical(self) -> Seq<char> {
        canon_nat(self as nat)
    }

    open spec fn text_wf(self) -> bool {
        true
    }

    fn from_text(s: &str) -> (r: Option<u64>) {
        parse_u64(s)
    }

    proof fn lemma_canonical_round_trip(self) {
        lemma_unsigned_canon(self as nat);
    }
}

proof fn lemma_signed_canon_neg(m: nat)
    ensures
        is_signed_text(seq!['-'] + canon_nat(m)),
        signed_val(seq!['-'] + canon_nat(m)) == -(m as int),
{
    lemma_canon_nat(m);
    let c = seq!['-'] + canon_nat(m);
    assert(c[0] == '-');
    assert(c.drop_first() =~= canon_nat(m));
    assert(signed_digits(c) == c.drop_first());
    assert(all_digits(signed_digits(c)));
}

impl Numeric for u8 {
    open spec fn accepts(s: Seq<char>) -> bool {
        is_unsigned_text(s) && unsigned_val(s) <= u8::MAX
    }

    open spec fn value_of(s: Seq<char>) -> u8 {
        unsigned_val(s) as u8
    }

    open spec fn canonical(self) -> Seq<char> {
        canon_nat(self as nat)
    }

    open spec fn text_wf(self) -> bool {
        true
    }

    fn from_text(s: &str) -> (r: Option<u8>) {
        match parse_u64(s) {
            Some(v) => if v <= u8::MAX as u64 {
                Some(v as u8)
            } else {
                None
            },
            None => None,
        }
    }

    proof fn lemma_canonical_round_trip(self) {
        lemma_unsigned_canon(self as nat);
    }
}

impl Numeric for u16 {
    open spec fn accepts(s: Seq<char>) -> bool {
        is_unsigned_text(s) && unsigned_val(s) <= u16::MAX
    }

    open spec fn value_of(s: Seq<char>) -> u16 {
        unsigned_val(s) as u16
    }

    open spec fn canonical(self) -> Seq<char> {
        canon_nat(self as nat)
    }

    open spec fn text_wf(self) -> bool {
        true
    }

    fn from_text(s: &str) -> (r: Option<u16>) {
        match parse_u64(s) {
            Some(v) => if v <= u16::MAX as u64 {
                Some(v as u16)
            } else {
                None
            },
            None => None,
        }
    }

    proof fn lemma_canonical_round_trip(self) {
        lemma_unsigned_canon(self as nat);
    }
}

impl Numeric for u32 {
    open spec fn accepts(s: Seq<char>) -> bool {
        is_unsigned_text(s) && unsigned_val(s) <= u32::MAX
    }

    open spec fn value_of(s: Seq<char>) -> u32 {
        unsigned_val(s) as u32
    }

    open spec fn canonical(self) -> Seq<char> {
        canon_nat(self as nat)
    }

    open spec fn text_wf(self) -> bool {
        true
    }

    fn from_text(s: &str) -> (r: Option<u32>) {
        match parse_u64(s) {
            Some(v) => if v <= u32::MAX as u64 {
                Some(v as u32)
            } else {
                None
            },
            None => None,
        }
    }

    proof fn lemma_canonical_round_trip(self) {
        lemma_unsigned_canon(self as nat);
    }
}

impl Numeric for usize {
    open spec fn accepts(s: Seq<char>) -> bool {
        is_unsigned_text(s) && unsigned_val(s) <= usize::MAX
    }

    open spec fn value_of(s: Seq<char>) -> usize {
        unsigned_val(s) as usize
    }

    open spec fn canonical(self) -> Seq<char> {
        canon_nat(self as nat)
    }

    open spec fn text_wf(self) -> bool {
        true
    }

    fn from_text(s: &str) -> (r: Option<usize>) {
        match parse_u64(s) {
            Some(v) => if v <= usize::MAX as u64 {
                Some(v as usize)
            } else {
                None
            },
            None => None,
        }
    }

    proof fn lemma_canonical_round_trip(self) {
        lemma_unsigned_canon(self as nat);
    }
}

impl Numeric for i8 {
    open spec fn accepts(s: Seq<char>) -> bool {
        is_signed_text(s) && i8::MIN <= signed_val(s) <= i8::MAX
    }

    open spec fn value_of(s: Seq<char>) -> i8 {
        signed_val(s) as i8
    }

    open spec fn canonical(self) -> Seq<char> {
        if self >= 0 {
            canon_nat(self as nat)
        } else {
            seq!['-'] + canon_nat((-(self as int)) as nat)
        }
    }

    open spec fn text_wf(self) -> bool {
        true
    }

    fn from_text(s: &str) -> (r: Option<i8>) {
        match parse_i64(s) {
            Some(v) => if i8::MIN as i64 <= v && v <= i8::MAX as i64 {
                Some(v as i8)
            } else {
                None
            },
            None => None,
        }
    }

    proof fn lemma_canonical_round_trip(self) {
        if self >= 0 {
            lemma_unsigned_canon(self as nat);
        } else {
            lemma_signed_canon_neg((-(self as int)) as nat);
        }
    }
}

impl Numeric for i16 {
    open spec fn accepts(s: Seq<char>) -> bool {
        is_signed_text(s) && i16::MIN <= signed_val(s) <= i16::MAX
    }

    open spec fn value_of(s: Seq<char>) -> i16 {
        signed_val(s) as i16
    }

    open spec fn canonical(self) -> Seq<char> {
        if self >= 0 {
            canon_nat(self as nat)
        } else {
            seq!['-'] + canon_nat((-(self as int)) as nat)
        }
    }

    open spec fn text_wf(self) -> bool {
        true
    }

    fn from_text(s: &str) -> (r: Option<i16>) {
        match parse_i64(s) {
            Some(v) => if i16::MIN as i64 <= v && v <= i16::MAX as i64 {
                Some(v as i16)
            } else {
                None
            },
            None => None,
        }
    }

    proof fn lemma_canonical_round_trip(self) {
        if self >= 0 {
            lemma_unsigned_canon(self as nat);
        } else {
            lemma_signed_canon_neg((-(self as int)) as nat);
        }
    }
}

impl Numeric for i32 {
    open spec fn accepts(s: Seq<char>) -> bool {
        is_signed_text(s) && i32::MIN <= signed_val(s) <= i32::MAX
    }

    open spec fn value_of(s: Seq<char>) -> i32 {
        signed_val(s) as i32
    }

    open spec fn canonical(self) -> Seq<char> {
        if self >= 0 {
            canon_nat(self as nat)
        } else {
            seq!['-'] + canon_nat((-(self as int)) as nat)
        }
    }

    open spec fn text_wf(self) -> bool {
        true
    }

    fn from_text(s: &str) -> (r: Option<i32>) {
        match parse_i64(s) {
            Some(v) => if i32::MIN as i64 <= v && v <= i32::MAX as i64 {
                Some(v as i32)
            } else {
                None
            },
            None => None,
        }
    }

    proof fn lemma_canonical_round_trip(self) {
        if self >= 0 {
            lemma_unsigned_canon(self as nat);
        } else {
            lemma_signed_canon_neg((-(self as int)) as nat);
        }
    }
}

impl Numeric for i64 {
    open spec fn accepts(s: Seq<char>) -> bool {
        is_signed_text(s) && i64::MIN <= signed_val(s) <= i64::MAX
    }

    open spec fn value_of(s: Seq<char>) -> i64 {
        signed_val(s) as i64
    }

    open spec fn canonical(self) -> Seq<char> {
        if self >= 0 {
            canon_nat(self as nat)
        } else {
            seq!['-'] + canon_nat((-(self as int)) as nat)
        }
    }

    open spec fn text_wf(self) -> bool {
        true
    }

    fn from_text(s: &str) -> (r: Option<i64>) {
        match parse_i64(s) {
            Some(v) => if i64::MIN as i64 <= v && v <= i64::MAX as i64 {
                Some(v as i64)
            } else {
                None
            },
            None => None,
        }
    }

    proof fn lemma_canonical_round_trip(self) {
        if self >= 0 {
            lemma_unsigned_canon(self as nat);
        } else {
            lemma_signed_canon_neg((-(self as int)) as nat);
        }
    }
}

/// A decimal amount written with a fixed number of fraction digits: the
/// value `units.frac`, negated when `negative` is set, with `frac` spelled
/// out in exactly `frac_len` digits.
#[derive(Clone, Copy, PartialEq, Eq, Structural, Debug)]
pub struct FixedPoint {
    /// Whether the amount was written with a leading `-`.
    pub negative: bool,
    /// The digits before the decimal point.
    pub units: u64,
    /// The digits after the decimal point, read as an integer.
    pub frac: u64,
    /// How many digits were written after the decimal point.
    pub frac_len: usize,
}

impl Numeric for FixedPoint {
    open spec fn accepts(s: Seq<char>) -> bool {
        let d = signed_digits(s);
        let ip = int_digits(d);
        let fp = frac_digits(d);
        ip.len() > 0 && all_digits(ip) && uint_val(ip) <= u64::MAX && (dot_pos(d) < d.len()
            ==> fp.len() > 0 && all_digits(fp) && uint_val(fp) <= u64::MAX)
    }

    open spec fn value_of(s: Seq<char>) -> FixedPoint {
        let d = signed_digits(s);
        FixedPoint {
            negative: s.len() > 0 && s[0] == '-',
            units: uint_val(int_digits(d)) as u64,
            frac: uint_val(frac_digits(d)) as u64,
            frac_len: frac_digits(d).len() as usize,
        }
    }

    open spec fn canonical(self) -> Seq<char> {
        let sign: Seq<char> = if self.negative {
            seq!['-']
        } else {
            Seq::empty()
        };
        let tail: Seq<char> = if self.frac_len == 0 {
            Seq::empty()
        } else {
            seq!['.'] + canon_pad(self.frac as nat, self.frac_len as nat)
        };
        sign + canon_nat(self.units as nat) + tail
    }

    open spec fn text_wf(self) -> bool {
        self.frac < pow10(self.frac_len as nat)
    }

    fn from_text(s: &str) -> (r: Option<FixedPoint>) {
        let n = s.unicode_len();
        let neg = n > 0 && s.get_char(0) == '-';
        let plus = n > 0 && s.get_char(0) == '+';
        let start: usize = if neg || plus {
            1
        } else {
            0
        };
        proof {
            if start == 1 {
                assert(s@.skip(1) =~= s@.drop_first());
            } else {
                assert(s@.skip(0) =~= s@);
            }
            assert(signed_digits(s@) == s@.skip(start as int));
        }
        let ghost d = signed_digits(s@);
        let mut dp: usize = start;
        while dp < n && s.get_char(dp) != '.'
            invariant
                n == s@.len(),
                start <= dp <= n,
                d == s@.skip(start as int),
                forall|k: int| 0 <= k < dp - start ==> #[trigger] d[k] != '.',
            decreases n - dp,
        {
            dp = dp + 1;
        }
        proof {
            lemma_dot_pos_at(d, dp - start);
        }
        let ipart = s.substring_char(start, dp);
        proof {
            assert(ipart@ =~= int_digits(d));
        }
        let units = match parse_digits_u64(ipart, 0) {
            Some(v) => v,
            None => {
                proof {
                    assert(ipart@.skip(0) =~= ipart@);
                }
                return None;
            },
        };
        proof {
            assert(ipart@.skip(0) =~= ipart@);
        }
        if dp == n {
            proof {
                assert(frac_digits(d) =~= Seq::<char>::empty());
            }
            Some(FixedPoint { negative: neg, units, frac: 0, frac_len: 0 })
        } else {
            let fpart = s.substring_char(dp + 1, n);
            proof {
                assert(fpart@ =~= frac_digits(d));
            }
            let frac = match parse_digits_u64(fpart, 0) {
                Some(v) => v,
                None => {
                    proof {
                        assert(fpart@.skip(0) =~= fpart@);
                    }
                    return None;
                },
            };
            proof {
                assert(fpart@.skip(0) =~= fpart@);
            }
            let frac_len = fpart.unicode_len();
            Some(FixedPoint { negative: neg, units, frac, frac_len })
        }
    }

    proof fn lemma_canonical_round_trip(self) {
        lemma_canon_nat(self.units as nat);
        let u = canon_nat(self.units as nat);
        let sign: Seq<char> = if self.negative {
            seq!['-']
        } else {
            Seq::empty()
        };
        let c = self.canonical();
        if self.frac_len == 0 {
            assert(self.frac == 0);
            let body = u;
            assert(c =~= sign + body);
            lemma_fixed_body(self.negative, c, body);
            lemma_dot_pos_at(body, body.len() as int);
            assert(int_digits(body) =~= body);
            assert(frac_digits(body) =~= Seq::<char>::empty());
        } else {
            lemma_canon_pad(self.frac as nat, self.frac_len as nat);
            let f = canon_pad(self.frac as nat, self.frac_len as nat);
            let body = u + (seq!['.'] + f);
            assert(c =~= sign + body);
            lemma_fixed_body(self.negative, c, body);
            assert(forall|k: int| 0 <= k < u.len() ==> #[trigger] body[k] != '.') by {
                assert(forall|k: int|
                    0 <= k < u.len() ==> is_digit(#[trigger] body[k]) && body[k] as u32
                        != 0x2e);
            }
            assert(body[u.len() as int] == '.');
            lemma_dot_pos_at(body, u.len() as int);
            assert(int_digits(body) =~= u);
            assert(frac_digits(body) =~= f);
        }
    }
}

/// Splitting the optional sign off a canonical rendering leaves its body.
proof fn lemma_fixed_body(negative: bool, c: Seq<char>, body: Seq<char>)
    requires
        body.len() > 0,
        is_digit(body[0]),
        c == (if negative {
            seq!['-']
        } else {
            Seq::<char>::empty()
        }) + body,
    ensures
        signed_digits(c) == body,
        (c.len() > 0 && c[0] == '-') == negative,
{
    if negative {
        assert(c[0] == '-');
        assert(c.drop_first() =~= body);
    } else {
        assert(c =~= body);
        assert(c[0] != '-' && c[0] != '+') by {
            if c[0] == '-' {
                assert(c[0] as u32 == 0x2d);
            }
            if c[0] == '+' {
                assert(c[0] as u32 == 0x2b);
            }
        }
    }
}

/// An integer type read where whole numbers are expected.
pub trait Integral: Numeric {

}

impl Integral for u8 {

}

impl Integral for u16 {

}

impl Integral for u32 {

}

impl Integral for u64 {

}

impl Integral for usize {

}

/// A type with fraction digits, read where decimal amounts are expected.
pub trait Decimal: Numeric {

}

impl Decimal for FixedPoint {

}

} // verus!
