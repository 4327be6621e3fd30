//! A scaled fixed-point decimal: an `i64` mantissa together with a number of
//! decimal places, so that the represented number is `value / 10^places`.
//! The arithmetic follows the scale of the right-hand operand and truncates
//! toward zero where it divides, which is exactly the numeric capability the
//! aligner expects of a value type.

use vstd::prelude::*;

verus! {

use crate::model::trunc_div;
use vstd::arithmetic::div_mod::lemma_div_of0;
use vstd::string::StringExecFns;
use vstd::string::StringSliceAdditionalSpecFns;

/// `10^n`, the scale factor belonging to `n` decimal places.
pub open spec fn pow10(n: nat) -> int
    decreases n,
{
    if n == 0 {
        1
    } else {
        10 * pow10((n - 1) as nat)
    }
}

pub proof fn lemma_pow10_positive(n: nat)
    ensures
        pow10(n) >= 1,
    decreases n,
{
    if n > 0 {
        lemma_pow10_positive((n - 1) as nat);
    }
}

pub proof fn lemma_pow10_increases(a: nat, b: nat)
    requires
        a <= b,
    ensures
        pow10(a) <= pow10(b),
    decreases b,
{
    if a < b {
        lemma_pow10_increases(a, (b - 1) as nat);
        lemma_pow10_positive((b - 1) as nat);
    }
}

/// The byte is an ASCII decimal digit.
pub open spec fn is_digit(b: u8) -> bool {
    48 <= b <= 57
}

/// Every byte of the sequence is an ASCII decimal digit.
pub open spec fn all_digits(s: Seq<u8>) -> bool {
    forall|i: int| 0 <= i < s.len() ==> is_digit(#[trigger] s[i])
}

/// The number denoted by a sequence of ASCII digits, most significant first.
pub open spec fn digits_value(s: Seq<u8>) -> int
    decreases s.len(),
{
    if s.len() == 0 {
        0
    } else {
        10 * digits_value(s.drop_last()) + (s.last() - 48)
    }
}

/// The sequence is an optionally signed run of ASCII digits, as `i64`'s own
/// string parser accepts it: `+` or `-`, then one or more digits.
pub open spec fn is_int_token(s: Seq<u8>) -> bool {
    if s.len() > 0 && (s[0] == 43 || s[0] == 45) {
        s.len() > 1 && all_digits(s.skip(1))
    } else {
        s.len() > 0 && all_digits(s)
    }
}

/// The signed number denoted by an integer token.
pub open spec fn int_token_value(s: Seq<u8>) -> int {
    if s.len() > 0 && s[0] == 45 {
        -digits_value(s.skip(1))
    } else if s.len() > 0 && s[0] == 43 {
        digits_value(s.skip(1))
    } else {
        digits_value(s)
    }
}

/// The value lies in `i64`'s range.
pub open spec fn fits_i64(v: int) -> bool {
    i64::MIN <= v <= i64::MAX
}

/// How many ASCII dots the sequence holds.
pub open spec fn count_dots(s: Seq<u8>) -> int
    decreases s.len(),
{
    if s.len() == 0 {
        0
    } else {
        count_dots(s.drop_last()) + if s.last() == 46 {
            1int
        } else {
            0int
        }
    }
}

/// The whole input is one integer token denoting a number in `i64` range.
pub open spec fn parses_plain(s: Seq<u8>) -> bool {
    is_int_token(s) && fits_i64(int_token_value(s))
}

/// `s` decomposes as `l . r` where both sides are integer tokens in `i64`
/// range and the combined mantissa `l * 10^len(r) + r` is in range too. The
/// fraction's scale is the byte length of `r`, sign included: the text is
/// simply split at the dot and each side read as its own integer.
pub open spec fn decimal_token(s: Seq<u8>, l: Seq<u8>, r: Seq<u8>) -> bool {
    &&& s == l + seq![46u8] + r
    &&& !l.contains(46)
    &&& !r.contains(46)
    &&& is_int_token(l)
    &&& is_int_token(r)
    &&& fits_i64(int_token_value(l))
    &&& fits_i64(int_token_value(r))
    &&& fits_i64(int_token_value(l) * pow10(r.len()) + int_token_value(r))
}

/// Some single-dot decomposition of `s` parses as a decimal.
pub open spec fn parses_decimal(s: Seq<u8>) -> bool {
    exists|l: Seq<u8>, r: Seq<u8>| decimal_token(s, l, r)
}

pub proof fn lemma_digits_value_nonneg(s: Seq<u8>)
    requires
        all_digits(s),
    ensures
        digits_value(s) >= 0,
    decreases s.len(),
{
    if s.len() > 0 {
        assert(all_digits(s.drop_last()));
        lemma_digits_value_nonneg(s.drop_last());
    }
}

pub proof fn lemma_digits_value_extend(s: Seq<u8>, i: int)
    requires
        0 <= i < s.len(),
    ensures
        digits_value(s.take(i + 1)) == 10 * digits_value(s.take(i)) + (s[i] - 48),
{
    assert(s.take(i + 1).drop_last() =~= s.take(i));
}

pub proof fn lemma_digits_value_grows(s: Seq<u8>, i: int)
    requires
        all_digits(s),
        0 <= i <= s.len(),
    ensures
        digits_value(s) >= digits_value(s.take(i)),
    decreases s.len() - i,
{
    if i < s.len() {
        assert(all_digits(s.take(i)));
        lemma_digits_value_nonneg(s.take(i));
        lemma_digits_value_extend(s, i);
        lemma_digits_value_grows(s, i + 1);
    } else {
        assert(s.take(i) =~= s);
    }
}

pub proof fn lemma_count_dots_extend(s: Seq<u8>, i: int)
    requires
        0 <= i < s.len(),
    ensures
        count_dots(s.take(i + 1)) == count_dots(s.take(i)) + if s[i] == 46 {
            1int
        } else {
            0int
        },
{
    assert(s.take(i + 1).drop_last() =~= s.take(i));
}

/// A single-dot decomposition of a byte sequence is unique: the dot's
/// position is pinned by both halves being dot-free.
pub proof fn lemma_decimal_decomposition_unique(s: Seq<u8>, l1: Seq<u8>, r1: Seq<u8>, l2: Seq<u8>, r2: Seq<u8>)
    requires
        s == l1 + seq![46u8] + r1,
        s == l2 + seq![46u8] + r2,
        !l1.contains(46),
        !l2.contains(46),
    ensures
        l1 == l2,
        r1 == r2,
{
    if l1.len() < l2.len() {
        assert(l2[l1.len() as int] == s[l1.len() as int]);
        assert(s[l1.len() as int] == 46);
        assert(l2.contains(46));
    } else if l2.len() < l1.len() {
        assert(l1[l2.len() as int] == s[l2.len() as int]);
        assert(s[l2.len() as int] == 46);
        assert(l1.contains(46));
    }
    assert(l1.len() == l2.len());
    assert forall|i: int| 0 <= i < l1.len() implies l1[i] == l2[i] by {
        assert((l1 + seq![46u8] + r1)[i] == l1[i]);
        assert((l2 + seq![46u8] + r2)[i] == l2[i]);
    }
    assert(l1 =~= l2);
    assert((l1 + seq![46u8] + r1).len() == l1.len() + 1 + r1.len());
    assert((l2 + seq![46u8] + r2).len() == l2.len() + 1 + r2.len());
    assert(r1.len() == r2.len());
    assert forall|i: int| 0 <= i < r1.len() implies r1[i] == r2[i] by {
        assert((l1 + seq![46u8] + r1)[l1.len() + 1 + i] == r1[i]);
        assert((l2 + seq![46u8] + r2)[l2.len() + 1 + i] == r2[i]);
    }
    assert(r1 =~= r2);
}

/// A decimal number `value / 10^places`, kept as an integer mantissa and a
/// scale. Two values interoperate only at equal scale; combining different
/// scales would silently reinterpret magnitudes, so the operations require
/// equal `places` instead.
#[derive(Clone, Copy, Debug, PartialEq, Eq, Structural)]
pub struct RoundedDecimal {
    pub value: i64,
    pub places: usize,
}

/// Error returned when a string does not denote a decimal number.
#[derive(Clone, Copy, Debug, PartialEq, Eq)]
pub struct RoundedDecimalParseError {
    pub description: &'static str,
}

/// Division truncating toward zero, the semantics of the machine `/`.
/// Relies on `i64::checked_div`, whose result vstd specifies exactly.
fn div_trunc(a: i64, b: i64) -> (r: i64)
    requires
        b != 0,
        i64::MIN <= trunc_div(a as int, b as int) <= i64::MAX,
    ensures
        r == trunc_div(a as int, b as int),
{
    proof {
        if a == 0 {
            lemma_div_of0(if b >= 0 {
                b as int
            } else {
                -(b as int)
            });
        }
    }
    let q = a.checked_div(b);
    q.unwrap()
}

/// `10^n` as a machine integer.
fn pow10_i64(n: usize) -> (r: i64)
    requires
        pow10(n as nat) <= i64::MAX as int,
    ensures
        r == pow10(n as nat),
{
    let mut acc: i64 = 1;
    let mut i: usize = 0;
    while i < n
        invariant
            i <= n,
            acc == pow10(i as nat),
            pow10(n as nat) <= i64::MAX as int,
        decreases n - i,
    {
        proof {
            lemma_pow10_positive(i as nat);
            lemma_pow10_increases((i + 1) as nat, n as nat);
            assert(pow10((i + 1) as nat) == 10 * pow10(i as nat));
        }
        acc = acc * 10;
        i += 1;
    }
    acc
}

/// The ASCII digits of `n`, most significant first.
pub open spec fn dec_digits(n: nat) -> Seq<u8>
    decreases n,
{
    if n < 10 {
        seq![(48 + n) as u8]
    } else {
        dec_digits(n / 10) + seq![(48 + (n % 10)) as u8]
    }
}

/// The ASCII form of a signed integer: a minus sign where negative, then
/// the digits of the magnitude.
pub open spec fn int_bytes(v: int) -> Seq<u8> {
    if v < 0 {
        seq![45u8] + dec_digits((-v) as nat)
    } else {
        dec_digits(v as nat)
    }
}

/// `s` left-padded with ASCII zeros to length `p` (unchanged if already as
/// long).
pub open spec fn zero_pad(s: Seq<u8>, p: nat) -> Seq<u8> {
    if s.len() >= p {
        s
    } else {
        Seq::new((p - s.len()) as nat, |i: int| 48u8) + s
    }
}

/// The display form of `value` at scale `places`: the bare integer at scale
/// zero; otherwise `left.right`, where `left` is the mantissa divided by the
/// scale (truncating toward zero), `right` is the mantissa minus `left`, and
/// the fraction is zero-padded on the left to `places` digits.
pub open spec fn decimal_bytes(value: int, places: nat) -> Seq<u8> {
    if places == 0 {
        int_bytes(value)
    } else {
        let left = trunc_div(value, pow10(places));
        int_bytes(left) + seq![46u8] + zero_pad(int_bytes(value - left), places)
    }
}

pub proof fn lemma_dec_digits_ascii(n: nat)
    ensures
        forall|i: int| 0 <= i < dec_digits(n).len() ==> 48 <= #[trigger] dec_digits(n)[i] <= 57,
    decreases n,
{
    if n >= 10 {
        lemma_dec_digits_ascii(n / 10);
        assert forall|i: int| 0 <= i < dec_digits(n).len() implies 48 <= #[trigger] dec_digits(
            n,
        )[i] <= 57 by {
            if i < dec_digits(n / 10).len() {
                assert(dec_digits(n)[i] == dec_digits(n / 10)[i]);
            } else {
                assert(dec_digits(n)[i] == (48 + (n % 10)) as u8);
            }
        }
    }
}

pub proof fn lemma_int_bytes_ascii(v: int)
    ensures
        forall|i: int| 0 <= i < int_bytes(v).len() ==> ((#[trigger] int_bytes(v)[i]) == 45 || 48
            <= int_bytes(v)[i] <= 57),
{
    if v < 0 {
        lemma_dec_digits_ascii((-v) as nat);
    } else {
        lemma_dec_digits_ascii(v as nat);
    }
}

/// A sequence holding an ASCII dot anywhere is no integer token.
pub proof fn lemma_dot_not_token(s: Seq<u8>, p: int)
    requires
        0 <= p < s.len(),
        s[p] == 46,
    ensures
        !is_int_token(s),
{
    if s.len() > 0 && (s[0] == 43 || s[0] == 45) {
        if p >= 1 && all_digits(s.skip(1)) {
            assert(s.skip(1)[p - 1] == 46);
        }
    }
}

/// With twenty or more fractional places and a nonzero whole part, the
/// combined mantissa lies far outside `i64`'s range.
proof fn lemma_combined_out_of_range(lv: int, rv: int, p: nat)
    requires
        lv != 0,
        fits_i64(rv),
        p >= 20,
    ensures
        !fits_i64(lv * pow10(p) + rv),
{
    lemma_pow10_increases(20, p);
    assert(pow10(20) == 100000000000000000000) by {
        reveal_with_fuel(pow10, 21);
    }
    let pw = pow10(p);
    if lv >= 1 {
        assert(lv * pw >= pw) by (nonlinear_arith)
            requires lv >= 1 && pw > 0;
    } else {
        assert(lv * pw <= -pw) by (nonlinear_arith)
            requires lv <= -1 && pw > 0;
    }
}

/// `10^n` as an `i128`, for the scales that can still matter to a mantissa
/// in `i64`'s range.
fn pow10_i128(n: usize) -> (r: i128)
    requires
        n <= 19,
    ensures
        r == pow10(n as nat),
{
    let mut acc: i128 = 1;
    let mut i: usize = 0;
    #[verifier::loop_isolation(false)]
    while i < n
        invariant
            i <= n,
            acc == pow10(i as nat),
        decreases n - i,
    {
        proof {
            lemma_pow10_positive(i as nat);
            lemma_pow10_increases((i + 1) as nat, 19);
            assert(pow10(19) == 10000000000000000000) by {
                reveal_with_fuel(pow10, 20);
            }
        }
        acc = acc * 10;
        i += 1;
    }
    acc
}

/// Builds the string spelling exactly the given bytes, one character per
/// byte, for the bytes a decimal rendering uses: digits, the minus sign and
/// the dot.
fn ascii_string(bytes: &Vec<u8>) -> (r: String)
    requires
        forall|i: int| 0 <= i < bytes@.len() ==> ((#[trigger] bytes@[i]) == 45 || bytes@[i] == 46
            || 48 <= bytes@[i] <= 57),
    ensures
        r@ == bytes@.map_values(|b: u8| b as char),
{
    let mut r = String::new();
    let mut i: usize = 0;
    #[verifier::loop_isolation(false)]
    while i < bytes.len()
        invariant
            i <= bytes@.len(),
            r@ == bytes@.take(i as int).map_values(|b: u8| b as char),
        decreases bytes@.len() - i,
    {
        let b = bytes[i];
        let piece: &str = if b == 45 {
            "-"
        } else if b == 46 {
            "."
        } else if b == 48 {
            "0"
        } else if b == 49 {
            "1"
        } else if b == 50 {
            "2"
        } else if b == 51 {
            "3"
        } else if b == 52 {
            "4"
        } else if b == 53 {
            "5"
        } else if b == 54 {
            "6"
        } else if b == 55 {
            "7"
        } else if b == 56 {
            "8"
        } else {
            "9"
        };
        proof {
            reveal_strlit("-");
            reveal_strlit(".");
            reveal_strlit("0");
            reveal_strlit("1");
            reveal_strlit("2");
            reveal_strlit("3");
            reveal_strlit("4");
            reveal_strlit("5");
            reveal_strlit("6");
            reveal_strlit("7");
            reveal_strlit("8");
            reveal_strlit("9");
            assert(piece@ =~= seq![b as char]);
        }
        r.append(piece);
        proof {
            assert(r@ =~= bytes@.take(i as int + 1).map_values(|c: u8| c as char));
        }
        i += 1;
    }
    proof {
        assert(bytes@.take(bytes@.len() as int) =~= bytes@);
    }
    r
}

/// Appends the decimal digits of `n`, most significant first.
fn push_digits(n: u64, out: &mut Vec<u8>)
    ensures
        final(out)@ == old(out)@ + dec_digits(n as nat),
    decreases n,
{
    if n < 10 {
        out.push(48 + n as u8);
        proof {
            assert(out@ =~= old(out)@ + dec_digits(n as nat));
        }
    } else {
        proof {
            vstd::arithmetic::div_mod::lemma_div_decreases(n as int, 10);
        }
        let q = n / 10;
        let r = n % 10;
        push_digits(q, out);
        out.push(48 + r as u8);
        proof {
            assert(out@ =~= old(out)@ + dec_digits(n as nat));
        }
    }
}

/// Appends the decimal form of `v`: a minus sign where negative, then the
/// digits of the magnitude.
fn push_int_bytes(v: i64, out: &mut Vec<u8>)
    ensures
        final(out)@ == old(out)@ + int_bytes(v as int),
{
    if v < 0 {
        out.push(45);
        let mag: u64 = ((-(v + 1)) as u64) + 1;
        proof {
            assert(mag as int == -(v as int));
        }
        push_digits(mag, out);
        proof {
            assert(out@ =~= old(out)@ + int_bytes(v as int));
        }
    } else {
        push_digits(v as u64, out);
    }
}

/// Parses `bs[from..to]` as an optionally signed run of decimal digits,
/// exactly as `i64`'s own string parser accepts it: `Some` with the denoted
/// value if and only if the bytes form an integer token whose value is in
/// `i64`'s range.
fn parse_i64(bs: &[u8], from: usize, to: usize) -> (res: Option<i64>)
    requires
        from <= to <= bs@.len(),
    ensures
        ({
            let tok = bs@.subrange(from as int, to as int);
            match res {
                Some(v) => is_int_token(tok) && fits_i64(int_token_value(tok)) && v
                    == int_token_value(tok),
                None => !(is_int_token(tok) && fits_i64(int_token_value(tok))),
            }
        }),
{
    let ghost tok = bs@.subrange(from as int, to as int);
    if from == to {
        return None;
    }
    let first = bs[from];
    let neg = first == 45;
    let has_sign = first == 45 || first == 43;
    let start = if has_sign {
        from + 1
    } else {
        from
    };
    if start == to {
        return None;
    }
    let ghost dseq = bs@.subrange(start as int, to as int);
    proof {
        if has_sign {
            assert(dseq =~= tok.skip(1));
        } else {
            assert(dseq =~= tok);
        }
    }
    let limit: u64 = if neg {
        9223372036854775808
    } else {
        9223372036854775807
    };
    let mut acc: u64 = 0;
    let mut i: usize = start;
    #[verifier::loop_isolation(false)]
    while i < to
        invariant
            start <= i <= to,
            all_digits(dseq.take(i - start)),
            acc == digits_value(dseq.take(i - start)),
            acc <= limit,
        decreases to - i,
    {
        let b = bs[i];
        if b < 48 || b > 57 {
            proof {
                assert(dseq[i - start] == b && !is_digit(b));
            }
            return None;
        }
        let d = (b - 48) as u64;
        proof {
            lemma_digits_value_extend(dseq, i - start);
            lemma_digits_value_nonneg(dseq.take(i - start));
        }
        let ghost val_next = digits_value(dseq.take(i - start + 1));
        let overflowed: bool;
        let mut next: u64 = 0;
        match acc.checked_mul(10) {
            Some(m) => {
                match m.checked_add(d) {
                    Some(a) => {
                        overflowed = a > limit;
                        next = a;
                    },
                    None => {
                        overflowed = true;
                    },
                }
            },
            None => {
                overflowed = true;
            },
        }
        if overflowed {
            proof {
                assert(val_next > limit);
                if all_digits(dseq) {
                    lemma_digits_value_grows(dseq, i - start + 1);
                    assert(digits_value(dseq) > limit);
                }
            }
            return None;
        }
        acc = next;
        i += 1;
        proof {
            assert(dseq.take(i - start).drop_last() =~= dseq.take(i - start - 1));
        }
    }
    proof {
        assert(dseq.take(to - start) =~= dseq);
    }
    if neg {
        if acc == 9223372036854775808u64 {
            Some(i64::MIN)
        } else {
            Some(-(acc as i64))
        }
    } else {
        Some(acc as i64)
    }
}

impl RoundedDecimal {
    /// A whole number: mantissa `value` at scale zero.
    pub fn from(value: i64) -> (r: Self)
        ensures
            r == (RoundedDecimal { value, places: 0 }),
    {
        RoundedDecimal { value, places: 0 }
    }

    /// The sum, at the common scale.
    pub fn add(self, rhs: Self) -> (r: Self)
        requires
            self.places == rhs.places,
            i64::MIN <= self.value + rhs.value <= i64::MAX,
        ensures
            r == (RoundedDecimal { value: (self.value + rhs.value) as i64, places: self.places }),
    {
        RoundedDecimal { value: self.value + rhs.value, places: self.places }
    }

    /// Adds `rhs` in place, at the common scale.
    pub fn add_assign(&mut self, rhs: Self)
        requires
            old(self).places == rhs.places,
            i64::MIN <= old(self).value + rhs.value <= i64::MAX,
        ensures
            *final(self) == (RoundedDecimal {
                value: (old(self).value + rhs.value) as i64,
                places: old(self).places,
            }),
    {
        *self = (*self).add(rhs);
    }

    /// The difference, at the common scale.
    pub fn sub(self, rhs: Self) -> (r: Self)
        requires
            self.places == rhs.places,
            i64::MIN <= self.value - rhs.value <= i64::MAX,
        ensures
            r == (RoundedDecimal { value: (self.value - rhs.value) as i64, places: self.places }),
    {
        RoundedDecimal { value: self.value - rhs.value, places: self.places }
    }

    /// Subtracts `rhs` in place, at the common scale.
    pub fn sub_assign(&mut self, rhs: Self)
        requires
            old(self).places == rhs.places,
            i64::MIN <= old(self).value - rhs.value <= i64::MAX,
        ensures
            *final(self) == (RoundedDecimal {
                value: (old(self).value - rhs.value) as i64,
                places: old(self).places,
            }),
    {
        *self = (*self).sub(rhs);
    }

    /// The product: the mantissas are multiplied and the result is scaled
    /// back down by the right-hand operand's scale, truncating toward zero.
    /// The result keeps the left-hand operand's scale.
    pub fn mul(self, rhs: Self) -> (r: Self)
        requires
            pow10(rhs.places as nat) <= i64::MAX as int,
            i64::MIN <= self.value * rhs.value <= i64::MAX,
        ensures
            r.value == trunc_div(self.value * rhs.value, pow10(rhs.places as nat)),
            r.places == self.places,
    {
        let scale = pow10_i64(rhs.places);
        let prod = self.value * rhs.value;
        proof {
            lemma_pow10_positive(rhs.places as nat);
            crate::model::lemma_trunc_div_share_bounds(prod as int, 1, scale as int);
            assert(prod as int * 1 == prod as int);
        }
        RoundedDecimal { value: div_trunc(prod, scale), places: self.places }
    }

    /// Multiplies by `rhs` in place.
    pub fn mul_assign(&mut self, rhs: Self)
        requires
            pow10(rhs.places as nat) <= i64::MAX as int,
            i64::MIN <= old(self).value * rhs.value <= i64::MAX,
        ensures
            final(self).value == trunc_div(
                old(self).value * rhs.value,
                pow10(rhs.places as nat),
            ),
            final(self).places == old(self).places,
    {
        *self = (*self).mul(rhs);
    }

    /// The quotient: the left mantissa is scaled up by the right-hand
    /// operand's scale and divided by the right mantissa, truncating toward
    /// zero. The result keeps the left-hand operand's scale.
    pub fn div(self, rhs: Self) -> (r: Self)
        requires
            pow10(rhs.places as nat) <= i64::MAX as int,
            rhs.value != 0,
            i64::MIN <= self.value * pow10(rhs.places as nat) <= i64::MAX,
            i64::MIN <= trunc_div(self.value * pow10(rhs.places as nat), rhs.value as int)
                <= i64::MAX,
        ensures
            r.value == trunc_div(self.value * pow10(rhs.places as nat), rhs.value as int),
            r.places == self.places,
    {
        let scale = pow10_i64(rhs.places);
        let scaled = self.value * scale;
        RoundedDecimal { value: div_trunc(scaled, rhs.value), places: self.places }
    }

    /// Parses a decimal string: either one integer token (`"12"`, `"-3"`),
    /// giving a whole number at scale zero, or two integer tokens separated
    /// by a single dot (`"0.10"`), giving mantissa `left * 10^places + right`
    /// where `places` is the byte length of the fraction part. Anything else
    /// — no digits, a second dot, or a mantissa outside `i64`'s range — is
    /// rejected. Where combining the two tokens would overflow the machine
    /// arithmetic, this parser returns the error rather than panic.
    pub fn from_str(s: &str) -> (res: Result<RoundedDecimal, RoundedDecimalParseError>)
        ensures
            ({
                let bs = s.spec_bytes();
                &&& (res is Ok <==> parses_plain(bs) || parses_decimal(bs))
                &&& (parses_plain(bs) ==> (res matches Ok(v) && v.value == int_token_value(bs)
                    && v.places == 0))
                &&& (forall|l: Seq<u8>, r: Seq<u8>| #[trigger] decimal_token(bs, l, r)
                    ==> (res matches Ok(v) && v.value == int_token_value(l) * pow10(r.len())
                        + int_token_value(r) && v.places == r.len()))
                &&& (res matches Err(e) ==> e.description@ == (if count_dots(bs) >= 2 {
                    "Invalid dot count."@
                } else {
                    "Invalid number."@
                }))
            }),
    {
        let bs = s.as_bytes();
        let n = bs.len();
        let mut dots: usize = 0;
        let mut dot_pos: usize = 0;
        let mut dot2: usize = 0;
        let mut i: usize = 0;
        #[verifier::loop_isolation(false)]
        while i < n
            invariant
                i <= n,
                dots <= i,
                dots == count_dots(bs@.take(i as int)),
                dots >= 1 ==> dot_pos < i && bs@[dot_pos as int] == 46 && (forall|j: int|
                    0 <= j < dot_pos ==> bs@[j] != 46),
                dots == 1 ==> forall|j: int| dot_pos < j < i ==> bs@[j] != 46,
                dots >= 2 ==> dot_pos < dot2 < i && bs@[dot2 as int] == 46,
                dots == 0 ==> forall|j: int| 0 <= j < i ==> bs@[j] != 46,
            decreases n - i,
        {
            let b = bs[i];
            proof {
                lemma_count_dots_extend(bs@, i as int);
            }
            if b == 46 {
                if dots == 0 {
                    dot_pos = i;
                } else if dots == 1 {
                    dot2 = i;
                }
                dots += 1;
            }
            i += 1;
        }
        proof {
            assert(bs@.take(n as int) =~= bs@);
        }
        if dots == 0 {
            proof {
                assert forall|l: Seq<u8>, r: Seq<u8>| !(#[trigger] decimal_token(bs@, l, r)) by {
                    if decimal_token(bs@, l, r) {
                        assert(bs@.len() == l.len() + 1 + r.len());
                        assert(bs@[l.len() as int] == 46);
                    }
                }
            }
            match parse_i64(bs, 0, n) {
                Some(v) => {
                    proof {
                        assert(bs@.subrange(0, n as int) =~= bs@);
                    }
                    Ok(RoundedDecimal { value: v, places: 0 })
                },
                None => {
                    proof {
                        assert(bs@.subrange(0, n as int) =~= bs@);
                    }
                    Err(RoundedDecimalParseError { description: "Invalid number." })
                },
            }
        } else if dots == 1 {
            let ghost lseq = bs@.subrange(0, dot_pos as int);
            let ghost rseq = bs@.subrange(dot_pos as int + 1, n as int);
            proof {
                lemma_dot_not_token(bs@, dot_pos as int);
                assert(bs@ =~= lseq + seq![46u8] + rseq);
                assert forall|j: int| 0 <= j < lseq.len() implies lseq[j] != 46 by {
                    assert(lseq[j] == bs@[j]);
                }
                assert(!lseq.contains(46));
                assert forall|j: int| 0 <= j < rseq.len() implies rseq[j] != 46 by {
                    assert(rseq[j] == bs@[dot_pos + 1 + j]);
                }
                assert(!rseq.contains(46));
            }
            let lv_opt = parse_i64(bs, 0, dot_pos);
            let rv_opt = parse_i64(bs, dot_pos + 1, n);
            if lv_opt.is_some() && rv_opt.is_some() {
                let lv = lv_opt.unwrap();
                let rv = rv_opt.unwrap();
                let places = n - dot_pos - 1;
                proof {
                    assert(rseq.len() == places);
                }
                if lv == 0 {
                    proof {
                        assert(0 * pow10(rseq.len()) == 0) by (nonlinear_arith);
                        assert(decimal_token(bs@, lseq, rseq));
                        assert forall|l: Seq<u8>, r: Seq<u8>| #[trigger] decimal_token(bs@, l, r)
                            implies l == lseq && r == rseq by {
                            lemma_decimal_decomposition_unique(bs@, l, r, lseq, rseq);
                        }
                    }
                    Ok(RoundedDecimal { value: rv, places })
                } else if places >= 20 {
                    proof {
                        lemma_combined_out_of_range(lv as int, rv as int, rseq.len());
                        assert forall|l: Seq<u8>, r: Seq<u8>| !(#[trigger] decimal_token(
                            bs@,
                            l,
                            r,
                        )) by {
                            if decimal_token(bs@, l, r) {
                                lemma_decimal_decomposition_unique(bs@, l, r, lseq, rseq);
                            }
                        }
                    }
                    Err(RoundedDecimalParseError { description: "Invalid number." })
                } else {
                    let pw = pow10_i128(places);
                    proof {
                        lemma_pow10_positive(places as nat);
                        lemma_pow10_increases(places as nat, 19);
                        assert(pow10(19) == 10000000000000000000) by {
                            reveal_with_fuel(pow10, 20);
                        }
                        assert((lv as int) * (pw as int) <= 9223372036854775808
                            * 10000000000000000000 && (lv as int) * (pw as int) >= -(
                        9223372036854775808 * 10000000000000000000)) by (nonlinear_arith)
                            requires
                                -9223372036854775808 <= lv as int <= 9223372036854775807,
                                0 < pw as int <= 10000000000000000000,
                        ;
                    }
                    let total = (lv as i128) * pw + (rv as i128);
                    if -9223372036854775808i128 <= total && total <= 9223372036854775807i128 {
                        proof {
                            assert(decimal_token(bs@, lseq, rseq));
                            assert forall|l: Seq<u8>, r: Seq<u8>| #[trigger] decimal_token(
                                bs@,
                                l,
                                r,
                            ) implies l == lseq && r == rseq by {
                                lemma_decimal_decomposition_unique(bs@, l, r, lseq, rseq);
                            }
                        }
                        Ok(RoundedDecimal { value: total as i64, places })
                    } else {
                        proof {
                            assert forall|l: Seq<u8>, r: Seq<u8>| !(#[trigger] decimal_token(
                                bs@,
                                l,
                                r,
                            )) by {
                                if decimal_token(bs@, l, r) {
                                    lemma_decimal_decomposition_unique(bs@, l, r, lseq, rseq);
                                }
                            }
                        }
                        Err(RoundedDecimalParseError { description: "Invalid number." })
                    }
                }
            } else {
                proof {
                    assert(!(is_int_token(lseq) && fits_i64(int_token_value(lseq))) || !(
                    is_int_token(rseq) && fits_i64(int_token_value(rseq))));
                    assert forall|l: Seq<u8>, r: Seq<u8>| !(#[trigger] decimal_token(bs@, l, r)) by {
                        if decimal_token(bs@, l, r) {
                            lemma_decimal_decomposition_unique(bs@, l, r, lseq, rseq);
                        }
                    }
                }
                Err(RoundedDecimalParseError { description: "Invalid number." })
            }
        } else {
            proof {
                lemma_dot_not_token(bs@, dot_pos as int);
                assert forall|l: Seq<u8>, r: Seq<u8>| !(#[trigger] decimal_token(bs@, l, r)) by {
                    if decimal_token(bs@, l, r) {
                        if dot_pos < l.len() {
                            assert(l[dot_pos as int] == bs@[dot_pos as int]);
                        } else if dot_pos > l.len() {
                            assert(r[dot_pos - l.len() - 1] == bs@[dot_pos as int]);
                        }
                        if dot2 < l.len() {
                            assert(l[dot2 as int] == bs@[dot2 as int]);
                        } else if dot2 > l.len() {
                            assert(r[dot2 - l.len() - 1] == bs@[dot2 as int]);
                        }
                    }
                }
            }
            Err(RoundedDecimalParseError { description: "Invalid dot count." })
        }
    }

    /// The display form of the number, as `Display` would print it: the bare
    /// mantissa at scale zero, and otherwise `left.right` with the fraction
    /// zero-padded to `places` digits (see [`decimal_bytes`]).
    pub fn to_decimal_string(&self) -> (r: String)
        requires
            self.places == 0 || pow10(self.places as nat) <= i64::MAX as int,
        ensures
            r@ == decimal_bytes(self.value as int, self.places as nat).map_values(
                |b: u8| b as char,
            ),
    {
        let ghost target = decimal_bytes(self.value as int, self.places as nat);
        let mut buf: Vec<u8> = Vec::new();
        if self.places == 0 {
            push_int_bytes(self.value, &mut buf);
            proof {
                assert(buf@ =~= target);
            }
        } else {
            let scale = pow10_i64(self.places);
            proof {
                lemma_pow10_positive(self.places as nat);
                crate::model::lemma_trunc_div_share_bounds(self.value as int, 1, scale as int);
                assert(self.value as int * 1 == self.value as int);
            }
            let left = div_trunc(self.value, scale);
            let right = self.value - left;
            push_int_bytes(left, &mut buf);
            buf.push(46);
            let mut rbuf: Vec<u8> = Vec::new();
            push_int_bytes(right, &mut rbuf);
            let ghost head = int_bytes(left as int) + seq![46u8];
            proof {
                assert(buf@ =~= head);
            }
            let pad: usize = if rbuf.len() < self.places {
                self.places - rbuf.len()
            } else {
                0
            };
            let mut k: usize = 0;
            #[verifier::loop_isolation(false)]
            while k < pad
                invariant
                    k <= pad,
                    buf@ == head + Seq::new(k as nat, |i: int| 48u8),
                decreases pad - k,
            {
                buf.push(48);
                proof {
                    assert(buf@ =~= head + Seq::new((k + 1) as nat, |i: int| 48u8));
                }
                k += 1;
            }
            let ghost padded = head + Seq::new(pad as nat, |i: int| 48u8);
            let mut m: usize = 0;
            #[verifier::loop_isolation(false)]
            while m < rbuf.len()
                invariant
                    m <= rbuf@.len(),
                    buf@ == padded + rbuf@.take(m as int),
                decreases rbuf@.len() - m,
            {
                let b = rbuf[m];
                buf.push(b);
                proof {
                    assert(buf@ =~= padded + rbuf@.take(m as int + 1));
                }
                m += 1;
            }
            proof {
                assert(rbuf@.take(rbuf@.len() as int) =~= rbuf@);
                assert(buf@ =~= target);
            }
        }
        proof {
            lemma_int_bytes_ascii(self.value as int);
            if self.places > 0 {
                lemma_int_bytes_ascii(trunc_div(self.value as int, pow10(self.places as nat)));
                lemma_int_bytes_ascii(self.value as int - trunc_div(
                    self.value as int,
                    pow10(self.places as nat),
                ));
            }
            assert(forall|i: int| 0 <= i < buf@.len() ==> ((#[trigger] buf@[i]) == 45 || buf@[i]
                == 46 || 48 <= buf@[i] <= 57));
        }
        ascii_string(&buf)
    }

    /// Divides by `rhs` in place.
    pub fn div_assign(&mut self, rhs: Self)
        requires
            pow10(rhs.places as nat) <= i64::MAX as int,
            rhs.value != 0,
            i64::MIN <= old(self).value * pow10(rhs.places as nat) <= i64::MAX,
            i64::MIN <= trunc_div(old(self).value * pow10(rhs.places as nat), rhs.value as int)
                <= i64::MAX,
        ensures
            final(self).value == trunc_div(
                old(self).value * pow10(rhs.places as nat),
                rhs.value as int,
            ),
            final(self).places == old(self).places,
    {
        *self = (*self).div(rhs);
    }
}

} // verus!
