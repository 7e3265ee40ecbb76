//! Exact rational numbers for cell values.
//!
//! Formula evaluation works on rationals rather than machine floats, so a
//! computed value is exactly the mathematical result of the formula whenever
//! the arithmetic fits the machine word; an operation whose exact result
//! cannot be represented reports failure instead of rounding.
use vstd::prelude::*;

verus! {

/// The mathematical model of a rational: a numerator and a positive
/// denominator, not necessarily in lowest terms.
pub struct RatV {
    pub num: int,
    pub den: int,
}

/// Two rational models denote the same number (cross multiplication).
pub open spec fn rat_eq(a: RatV, b: RatV) -> bool {
    a.num * b.den == b.num * a.den
}

/// The exact sum of two fractions.
pub open spec fn rat_add(a: RatV, b: RatV) -> RatV {
    RatV { num: a.num * b.den + b.num * a.den, den: a.den * b.den }
}

/// The exact difference of two fractions.
pub open spec fn rat_sub(a: RatV, b: RatV) -> RatV {
    RatV { num: a.num * b.den - b.num * a.den, den: a.den * b.den }
}

/// The exact product of two fractions.
pub open spec fn rat_mul(a: RatV, b: RatV) -> RatV {
    RatV { num: a.num * b.num, den: a.den * b.den }
}

/// The exact quotient of two fractions, with the sign moved into the
/// numerator so that the denominator stays positive.
pub open spec fn rat_div(a: RatV, b: RatV) -> RatV {
    let n = a.num * b.den;
    let d = a.den * b.num;
    if d >= 0 {
        RatV { num: n, den: d }
    } else {
        RatV { num: -n, den: -d }
    }
}

/// Whether a rational model fits the machine representation below.
pub open spec fn rat_in_range(v: RatV) -> bool {
    i64::MIN <= v.num <= i64::MAX && 1 <= v.den <= u64::MAX
}

/// The largest number of fractional digits that rendering produces; long
/// division stops there when the expansion does not terminate earlier.
pub const FRAC_DIGIT_CAP: u64 = 20;

/// The fractional digits produced by long division of `rem / den`, at most
/// `fuel` of them, stopping early when the remainder reaches zero.
pub open spec fn frac_digits(rem: int, den: int, fuel: nat) -> Seq<char>
    decreases fuel,
{
    if rem == 0 || fuel == 0 {
        Seq::<char>::empty()
    } else {
        seq![crate::text::digit_char((rem * 10) / den)] + frac_digits(
            (rem * 10) % den,
            den,
            (fuel - 1) as nat,
        )
    }
}

/// The decimal rendering of a rational value: optional minus sign, the
/// integer part, and a fractional part when the value is not whole.
pub open spec fn rat_render(v: RatV) -> Seq<char> {
    let a = if v.num < 0 { -v.num } else { v.num };
    let q = a / v.den;
    let r = a % v.den;
    let mag = if r == 0 {
        crate::text::dec_str(q as nat)
    } else {
        crate::text::dec_str(q as nat) + seq!['.'] + frac_digits(r, v.den, FRAC_DIGIT_CAP as nat)
    };
    if v.num < 0 {
        seq!['-'] + mag
    } else {
        mag
    }
}

/// The power of ten `10^k`.
pub open spec fn pow10(k: nat) -> int
    decreases k,
{
    if k == 0 {
        1
    } else {
        10 * pow10((k - 1) as nat)
    }
}

/// The position of the first `.` in `s`, or `s.len()` when there is none.
pub open spec fn dot_pos(s: Seq<char>) -> int
    decreases s.len(),
{
    if s.len() == 0 {
        0
    } else if s[0] == '.' {
        0
    } else {
        1 + dot_pos(s.drop_first())
    }
}

/// Every character of `s` is a decimal digit.
pub open spec fn all_digits(s: Seq<char>) -> bool {
    forall|i: int| 0 <= i < s.len() ==> crate::text::is_digit_char(s[i])
}

/// Whether `s` is a numeric literal: decimal digits with at most one decimal
/// point and at least one digit or point beside it ("12", "1.5", ".5", "5.").
pub open spec fn is_literal_chars(s: Seq<char>) -> bool {
    let k = dot_pos(s);
    if k == s.len() {
        s.len() > 0 && all_digits(s)
    } else {
        s.len() > 1 && all_digits(s.subrange(0, k)) && all_digits(
            s.subrange(k + 1, s.len() as int),
        )
    }
}

/// The digits of a literal with the decimal point removed.
pub open spec fn literal_digits(s: Seq<char>) -> Seq<char> {
    let k = dot_pos(s);
    if k == s.len() {
        s
    } else {
        s.subrange(0, k) + s.subrange(k + 1, s.len() as int)
    }
}

/// The number of digits after the decimal point of a literal.
pub open spec fn literal_frac_len(s: Seq<char>) -> int {
    if dot_pos(s) == s.len() {
        0
    } else {
        s.len() - dot_pos(s) - 1
    }
}

/// The rational value of a numeric literal.
pub open spec fn literal_rat(s: Seq<char>) -> RatV {
    RatV {
        num: crate::text::digits_val(literal_digits(s)),
        den: pow10(literal_frac_len(s) as nat),
    }
}

/// Whether the value of a literal fits the machine representation.
pub open spec fn literal_fits(s: Seq<char>) -> bool {
    crate::text::digits_val(literal_digits(s)) <= i64::MAX && literal_frac_len(s) <= 19
}

/// What parsing a term as a numeric literal yields: its exact rational value,
/// or nothing when the term is not a literal or its value does not fit.
pub open spec fn parse_literal_spec(s: Seq<char>) -> Option<RatV> {
    if is_literal_chars(s) && literal_fits(s) {
        Some(literal_rat(s))
    } else {
        None
    }
}

/// There is no decimal point before position `i`, so the first one is at or
/// after it.
proof fn lemma_dot_pos_lb(s: Seq<char>, i: int)
    requires
        0 <= i <= s.len(),
        forall|p: int| 0 <= p < i ==> s[p] != '.',
    ensures
        dot_pos(s) >= i,
    decreases s.len(),
{
    lemma_dot_pos_props(s);
    if dot_pos(s) < i {
        assert(s[dot_pos(s)] == '.');
    }
}

/// Basic facts about `dot_pos`: it is within bounds, it points at a decimal
/// point when one exists, and nothing before it is a point.
proof fn lemma_dot_pos_props(s: Seq<char>)
    ensures
        0 <= dot_pos(s) <= s.len(),
        dot_pos(s) < s.len() ==> s[dot_pos(s)] == '.',
        forall|p: int| 0 <= p < dot_pos(s) ==> s[p] != '.',
    decreases s.len(),
{
    if s.len() == 0 {
    } else if s[0] == '.' {
    } else {
        let t = s.drop_first();
        lemma_dot_pos_props(t);
        assert forall|p: int| 0 <= p < dot_pos(s) implies s[p] != '.' by {
            if p >= 1 {
                assert(t[p - 1] != '.');
                assert(s[p] == t[p - 1]);
            }
        }
    }
}

/// `dot_pos` is the unique position with no point before it that either
/// holds a point or is the end.
proof fn lemma_dot_pos_char(s: Seq<char>, k: int)
    requires
        0 <= k <= s.len(),
        k < s.len() ==> s[k] == '.',
        forall|i: int| 0 <= i < k ==> s[i] != '.',
    ensures
        dot_pos(s) == k,
    decreases s.len(),
{
    if s.len() == 0 {
    } else if s[0] == '.' {
        assert(k == 0);
    } else {
        let t = s.drop_first();
        assert(k >= 1);
        assert(forall|i: int| 0 <= i < k - 1 ==> t[i] != '.');
        lemma_dot_pos_char(t, k - 1);
    }
}

/// The value of a digit string is non-negative.
proof fn lemma_digits_val_nonneg(s: Seq<char>)
    requires
        all_digits(s),
    ensures
        crate::text::digits_val(s) >= 0,
    decreases s.len(),
{
    if s.len() > 0 {
        let t = s.drop_last();
        assert(all_digits(t));
        lemma_digits_val_nonneg(t);
    }
}

/// Extending a digit string never decreases its value.
proof fn lemma_digits_val_prefix(s: Seq<char>, j: int)
    requires
        all_digits(s),
        0 <= j <= s.len(),
    ensures
        crate::text::digits_val(s) >= crate::text::digits_val(s.subrange(0, j)),
    decreases s.len(),
{
    if j == s.len() {
        assert(s.subrange(0, j) =~= s);
    } else {
        let t = s.drop_last();
        assert(all_digits(t));
        lemma_digits_val_prefix(t, j);
        assert(t.subrange(0, j) =~= s.subrange(0, j));
        lemma_digits_val_nonneg(t);
    }
}

/// Powers of ten are positive and monotonic.
proof fn lemma_pow10_mono(a: nat, b: nat)
    requires
        a <= b,
    ensures
        1 <= pow10(a) <= pow10(b),
    decreases b,
{
    if b == 0 {
    } else if a == b {
        lemma_pow10_mono((b - 1) as nat, (b - 1) as nat);
    } else {
        lemma_pow10_mono(a, (b - 1) as nat);
    }
}

/// Bounds for the product of an `i64`-range factor and a `u64`-range factor.
proof fn lemma_prod_i64_u64(a: int, b: int)
    by (nonlinear_arith)
    requires
        i64::MIN <= a <= i64::MAX,
        0 <= b <= u64::MAX,
    ensures
        i64::MIN * u64::MAX <= a * b <= i64::MAX * u64::MAX,
{
}

/// Bounds for the product of two `i64`-range factors.
proof fn lemma_prod_i64_i64(a: int, b: int)
    by (nonlinear_arith)
    requires
        i64::MIN <= a <= i64::MAX,
        i64::MIN <= b <= i64::MAX,
    ensures
        i64::MIN * i64::MAX <= a * b <= i64::MIN * i64::MIN,
{
}

/// Bounds for the product of two `u64`-range factors.
proof fn lemma_prod_u64_u64(a: int, b: int)
    by (nonlinear_arith)
    requires
        0 <= a <= u64::MAX,
        0 <= b <= u64::MAX,
    ensures
        0 <= a * b <= u64::MAX * u64::MAX,
{
}

/// The product of a positive factor and a nonzero factor keeps the sign of
/// the nonzero factor.
proof fn lemma_prod_sign(a: int, b: int)
    by (nonlinear_arith)
    requires
        a >= 1,
    ensures
        b > 0 ==> a * b >= 1,
        b < 0 ==> a * b <= -1,
        b == 0 ==> a * b == 0,
{
}

/// A rational number: `num / den`, with `den` always at least 1.
#[derive(Debug, Clone, Copy, PartialEq, Eq)]
pub struct Rational {
    num: i64,
    den: u64,
}

impl Rational {
    #[verifier::type_invariant]
    spec fn type_inv(&self) -> bool {
        self.den >= 1
    }

    pub closed spec fn view(&self) -> RatV {
        RatV { num: self.num as int, den: self.den as int }
    }

    /// The fraction `num / den`.
    pub fn new(num: i64, den: u64) -> (r: Rational)
        requires
            den >= 1,
        ensures
            r@ == (RatV { num: num as int, den: den as int }),
            rat_in_range(r@),
    {
        Rational { num, den }
    }

    /// The whole number `n`.
    pub fn from_int(n: i64) -> (r: Rational)
        ensures
            r@ == (RatV { num: n as int, den: 1int }),
            rat_in_range(r@),
    {
        Rational { num: n, den: 1 }
    }

    /// Whether the value is exactly zero.
    pub fn is_zero(&self) -> (r: bool)
        ensures
            r == (self@.num == 0),
    {
        self.num == 0
    }

    /// Whether two rationals denote the same number.
    pub fn eq_value(&self, other: &Rational) -> (r: bool)
        ensures
            r == rat_eq(self@, other@),
    {
        proof {
            use_type_invariant(self);
            use_type_invariant(other);
            lemma_prod_i64_u64(self.num as int, other.den as int);
            lemma_prod_i64_u64(other.num as int, self.den as int);
        }
        let p1: i128 = self.num as i128 * other.den as i128;
        let p2: i128 = other.num as i128 * self.den as i128;
        p1 == p2
    }

    /// The exact sum, or `None` when it does not fit the representation.
    pub fn add(&self, other: &Rational) -> (r: Option<Rational>)
        ensures
            match r {
                Some(c) => c@ == rat_add(self@, other@) && rat_in_range(c@),
                None => !rat_in_range(rat_add(self@, other@)),
            },
    {
        proof {
            use_type_invariant(self);
            use_type_invariant(other);
        }
        proof {
            lemma_prod_i64_u64(self.num as int, other.den as int);
            lemma_prod_i64_u64(other.num as int, self.den as int);
            lemma_prod_u64_u64(self.den as int, other.den as int);
        }
        let p1: i128 = self.num as i128 * other.den as i128;
        let p2: i128 = other.num as i128 * self.den as i128;
        if p2 >= 0 && p1 > i128::MAX - p2 {
            return None;
        }
        if p2 < 0 && p1 < i128::MIN - p2 {
            return None;
        }
        let n: i128 = p1 + p2;
        let d: u128 = self.den as u128 * other.den as u128;
        Self::build(n, d)
    }

    /// The exact difference, or `None` when it does not fit.
    pub fn sub(&self, other: &Rational) -> (r: Option<Rational>)
        ensures
            match r {
                Some(c) => c@ == rat_sub(self@, other@) && rat_in_range(c@),
                None => !rat_in_range(rat_sub(self@, other@)),
            },
    {
        proof {
            use_type_invariant(self);
            use_type_invariant(other);
        }
        proof {
            lemma_prod_i64_u64(self.num as int, other.den as int);
            lemma_prod_i64_u64(other.num as int, self.den as int);
            lemma_prod_u64_u64(self.den as int, other.den as int);
        }
        let p1: i128 = self.num as i128 * other.den as i128;
        let p2: i128 = other.num as i128 * self.den as i128;
        if p2 < 0 && p1 > i128::MAX + p2 {
            return None;
        }
        if p2 >= 0 && p1 < i128::MIN + p2 {
            return None;
        }
        let n: i128 = p1 - p2;
        let d: u128 = self.den as u128 * other.den as u128;
        Self::build(n, d)
    }

    /// The exact product, or `None` when it does not fit.
    pub fn mul(&self, other: &Rational) -> (r: Option<Rational>)
        ensures
            match r {
                Some(c) => c@ == rat_mul(self@, other@) && rat_in_range(c@),
                None => !rat_in_range(rat_mul(self@, other@)),
            },
    {
        proof {
            use_type_invariant(self);
            use_type_invariant(other);
        }
        proof {
            lemma_prod_i64_i64(self.num as int, other.num as int);
            lemma_prod_u64_u64(self.den as int, other.den as int);
        }
        let n: i128 = self.num as i128 * other.num as i128;
        let d: u128 = self.den as u128 * other.den as u128;
        Self::build(n, d)
    }

    /// The exact quotient, or `None` when it does not fit.  The divisor must
    /// not be zero; the evaluator rejects division by zero before calling.
    pub fn div(&self, other: &Rational) -> (r: Option<Rational>)
        requires
            other@.num != 0,
        ensures
            match r {
                Some(c) => c@ == rat_div(self@, other@) && rat_in_range(c@),
                None => !rat_in_range(rat_div(self@, other@)),
            },
    {
        proof {
            use_type_invariant(self);
            use_type_invariant(other);
        }
        proof {
            lemma_prod_i64_u64(self.num as int, other.den as int);
            lemma_prod_i64_u64(other.num as int, self.den as int);
            assert(self.den as int * other.num as int == other.num as int * self.den as int)
                by (nonlinear_arith);
            lemma_prod_sign(self.den as int, other.num as int);
        }
        let mut n: i128 = self.num as i128 * other.den as i128;
        let mut d: i128 = self.den as i128 * other.num as i128;
        if d < 0 {
            n = -n;
            d = -d;
        }
        Self::build(n, d as u128)
    }

    /// The decimal rendering of the value: optional sign, integer part, and,
    /// when the value is not a whole number, a fractional part of at most
    /// `FRAC_DIGIT_CAP` digits obtained by long division.
    pub fn render(&self) -> (s: String)
        ensures
            s@ == rat_render(self@),
    {
        proof {
            use_type_invariant(self);
        }
        let neg = self.num < 0;
        let a: u64 = if neg {
            (-(self.num as i128)) as u64
        } else {
            self.num as u64
        };
        let q: u64 = a / self.den;
        let r: u64 = a % self.den;
        let mut out = String::new();
        if neg {
            crate::text::push_char(&mut out, '-');
        }
        crate::text::append_u64(&mut out, q);
        if r != 0 {
            crate::text::push_char(&mut out, '.');
            let ghost base = out@;
            let mut rem: u64 = r;
            let mut i: u64 = 0;
            while rem != 0 && i < FRAC_DIGIT_CAP
                invariant
                    self.den >= 1,
                    rem < self.den,
                    0 <= i <= FRAC_DIGIT_CAP,
                    out@ + frac_digits(rem as int, self.den as int, (FRAC_DIGIT_CAP - i) as nat)
                        == base + frac_digits(r as int, self.den as int, FRAC_DIGIT_CAP as nat),
                decreases FRAC_DIGIT_CAP - i,
            {
                let t: u128 = rem as u128 * 10;
                proof {
                    assert(t / (self.den as u128) <= 9) by (nonlinear_arith)
                        requires
                            t == rem as u128 * 10,
                            rem < self.den,
                            self.den >= 1;
                    assert(t % (self.den as u128) < (self.den as u128)) by (nonlinear_arith)
                        requires
                            self.den >= 1;
                }
                let dgt: u64 = (t / self.den as u128) as u64;
                let new_rem: u64 = (t % self.den as u128) as u64;
                let ghost fuel = (FRAC_DIGIT_CAP - i) as nat;
                crate::text::push_char(&mut out, crate::text::digit_to_char(dgt));
                proof {
                    assert(frac_digits(rem as int, self.den as int, fuel) =~= seq![
                        crate::text::digit_char((rem as int * 10) / self.den as int),
                    ] + frac_digits(
                        (rem as int * 10) % self.den as int,
                        self.den as int,
                        (fuel - 1) as nat,
                    ));
                    assert(out@ + frac_digits(new_rem as int, self.den as int, (fuel - 1) as nat)
                        =~= base + frac_digits(r as int, self.den as int, FRAC_DIGIT_CAP as nat));
                }
                rem = new_rem;
                i = i + 1;
            }
            proof {
                assert(frac_digits(rem as int, self.den as int, (FRAC_DIGIT_CAP - i) as nat)
                    =~= Seq::<char>::empty());
                assert(out@ =~= base + frac_digits(
                    r as int,
                    self.den as int,
                    FRAC_DIGIT_CAP as nat,
                ));
                assert(out@ =~= rat_render(self@));
            }
        } else {
            proof {
                assert(out@ =~= rat_render(self@));
            }
        }
        out
    }

    /// Parses a term as a numeric literal, yielding its exact value.
    pub fn parse_literal(s: &str) -> (r: Option<Rational>)
        ensures
            match r {
                Some(c) => parse_literal_spec(s@) == Some(c@) && rat_in_range(c@),
                None => parse_literal_spec(s@) is None,
            },
    {
        let n = s.unicode_len();
        // Locate the decimal point and reject any character that is neither
        // a digit nor the single point.
        let mut k: usize = n;
        let mut i: usize = 0;
        while i < n
            invariant
                0 <= i <= n,
                n == s@.len(),
                k == n || (k < i && s@[k as int] == '.'),
                forall|p: int|
                    0 <= p < i && p != k ==> crate::text::is_digit_char(#[trigger] s@[p]),
            decreases n - i,
        {
            let c = s.get_char(i);
            if c == '.' {
                if k < n {
                    proof {
                        lemma_dot_pos_char(s@, k as int);
                        assert(s@.subrange(k + 1, n as int)[i - k - 1] == s@[i as int]);
                    }
                    return None;
                }
                k = i;
            } else if !crate::text::is_digit(c) {
                proof {
                    if k == n {
                        lemma_dot_pos_props(s@);
                        lemma_dot_pos_lb(s@, i as int);
                        let d = dot_pos(s@);
                        if d < s@.len() {
                            assert(s@[d] == '.');
                            assert(d > i);
                            assert(s@.subrange(0, d)[i as int] == s@[i as int]);
                        }
                    } else {
                        lemma_dot_pos_char(s@, k as int);
                        assert(s@.subrange(k + 1, n as int)[i - k - 1] == s@[i as int]);
                    }
                }
                return None;
            }
            i = i + 1;
        }
        proof {
            if k == n {
                lemma_dot_pos_char(s@, n as int);
            } else {
                lemma_dot_pos_char(s@, k as int);
            }
        }
        if n == 0 {
            return None;
        }
        if k < n && n == 1 {
            return None;
        }
        proof {
            if k < n {
                assert(all_digits(s@.subrange(0, k as int)));
                assert(all_digits(s@.subrange(k + 1, n as int)));
            }
            assert(is_literal_chars(s@));
        }
        let ghost digits = literal_digits(s@);
        proof {
            if k == n {
                assert(digits =~= s@);
            }
            assert(all_digits(digits));
        }
        // Accumulate the digit string's value, with the point skipped.
        let mut acc: u64 = 0;
        let mut p: usize = 0;
        while p < n
            invariant
                0 <= p <= n,
                n == s@.len(),
                n >= 1,
                k <= n,
                k == n || (k < n && s@[k as int] == '.'),
                forall|q: int|
                    0 <= q < n && q != k ==> crate::text::is_digit_char(#[trigger] s@[q]),
                digits == literal_digits(s@),
                all_digits(digits),
                digits.len() == (if k == n { n as int } else { n - 1 }),
                k == n ==> digits =~= s@,
                k < n ==> digits =~= s@.subrange(0, k as int) + s@.subrange(k + 1, n as int),
                acc <= i64::MAX,
                acc == crate::text::digits_val(
                    digits.subrange(0, if p <= k { p as int } else { p - 1 }),
                ),
            decreases n - p,
        {
            if p != k {
                let c = s.get_char(p);
                let d = crate::text::digit_value(c);
                let wide: u128 = acc as u128 * 10 + d as u128;
                let ghost j: int = if p <= k { p as int } else { p - 1 };
                proof {
                    assert(digits[j] == s@[p as int]);
                    assert(digits.subrange(0, j + 1).drop_last() =~= digits.subrange(0, j));
                    assert(digits.subrange(0, j + 1).last() == digits[j]);
                    assert(crate::text::digits_val(digits.subrange(0, j + 1)) == crate::text::digits_val(
                        digits.subrange(0, j),
                    ) * 10 + crate::text::digit_val(digits[j]));
                }
                if wide > i64::MAX as u128 {
                    proof {
                        lemma_digits_val_prefix(digits, j + 1);
                    }
                    return None;
                }
                acc = wide as u64;
            }
            p = p + 1;
        }
        proof {
            assert(digits.subrange(0, digits.len() as int) =~= digits);
        }
        // The denominator is ten to the number of fractional digits.
        let fraclen: usize = if k == n {
            0
        } else {
            n - k - 1
        };
        if fraclen > 19 {
            return None;
        }
        let mut den: u64 = 1;
        let mut c2: usize = 0;
        while c2 < fraclen
            invariant
                0 <= c2 <= fraclen <= 19,
                den == pow10(c2 as nat),
            decreases fraclen - c2,
        {
            proof {
                lemma_pow10_mono(c2 as nat, 18);
                reveal_with_fuel(pow10, 20);
            }
            den = den * 10;
            c2 = c2 + 1;
        }
        proof {
            lemma_pow10_mono(fraclen as nat, 19);
            reveal_with_fuel(pow10, 20);
        }
        Some(Rational { num: acc as i64, den })
    }

    /// Packs an exact numerator/denominator pair computed in wide arithmetic,
    /// or reports that it does not fit.
    fn build(n: i128, d: u128) -> (r: Option<Rational>)
        ensures
            match r {
                Some(c) => c@ == (RatV { num: n as int, den: d as int }) && rat_in_range(c@),
                None => !rat_in_range(RatV { num: n as int, den: d as int }),
            },
    {
        if n > i64::MAX as i128 || n < i64::MIN as i128 || d > u64::MAX as u128 || d == 0 {
            return None;
        }
        Some(Rational { num: n as i64, den: d as u64 })
    }
}

} // verus!
