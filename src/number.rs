use vstd::prelude::*;

verus! {

/// Greatest common divisor, by Euclid's algorithm.
pub open spec fn gcd(a: nat, b: nat) -> nat
    decreases b,
{
    if b == 0 {
        a
    } else {
        gcd(b, a % b)
    }
}

pub open spec fn abs(x: int) -> nat {
    if x < 0 {
        (-x) as nat
    } else {
        x as nat
    }
}

pub open spec fn pow10(k: nat) -> nat
    decreases k,
{
    if k == 0 {
        1
    } else {
        10 * pow10((k - 1) as nat)
    }
}

pub open spec fn fits_i64(x: int) -> bool {
    i64::MIN <= x <= i64::MAX
}

/// The fraction `n / d` (with `d > 0`) in lowest terms: numerator and denominator.
pub open spec fn reduce(n: int, d: int) -> (int, int) {
    let g = gcd(abs(n), d as nat);
    let m = (abs(n) / g) as int;
    (if n < 0 { -m } else { m }, d / (g as int))
}

/// The number `n / d` (with `d > 0`) in lowest terms, when both parts fit in `i64`.
pub closed spec fn make(n: int, d: int) -> Option<Number> {
    let (a, b) = reduce(n, d);
    if fits_i64(a) && fits_i64(b) {
        Some(Number { num: a as i64, den: b as i64 })
    } else {
        None
    }
}

pub closed spec fn add_spec(x: Number, y: Number) -> Option<Number> {
    make(x.num * y.den + y.num * x.den, x.den * y.den)
}

pub closed spec fn sub_spec(x: Number, y: Number) -> Option<Number> {
    make(x.num * y.den - y.num * x.den, x.den * y.den)
}

pub closed spec fn mul_spec(x: Number, y: Number) -> Option<Number> {
    make(x.num * y.num, x.den * y.den)
}

/// Quotient `x / y` for a divisor `y` that is not zero.
pub closed spec fn div_spec(x: Number, y: Number) -> Option<Number> {
    if y.num > 0 {
        make(x.num * y.den, x.den * y.num)
    } else {
        make(-(x.num * y.den), -(x.den * y.num))
    }
}

pub closed spec fn neg_spec(x: Number) -> Option<Number> {
    make(-x.num, x.den as int)
}

/// Numeric equality of two fractions.
pub closed spec fn num_eq(x: Number, y: Number) -> bool {
    x.num * y.den == y.num * x.den
}

/// `x < y` as fractions with positive denominators.
pub closed spec fn num_lt(x: Number, y: Number) -> bool {
    x.num * y.den < y.num * x.den
}

pub open spec fn digit_char(d: nat) -> char {
    if d == 0 { '0' } else if d == 1 { '1' } else if d == 2 { '2' } else if d == 3 { '3' }
    else if d == 4 { '4' } else if d == 5 { '5' } else if d == 6 { '6' } else if d == 7 { '7' }
    else if d == 8 { '8' } else { '9' }
}

pub open spec fn is_digit(c: char) -> bool {
    '0' <= c <= '9'
}

pub open spec fn digit_value(c: char) -> nat {
    ((c as u32) - 48) as nat
}

/// The natural number written by a sequence of decimal digits.
pub open spec fn digits_value(s: Seq<char>) -> nat
    decreases s.len(),
{
    if s.len() == 0 {
        0
    } else {
        digits_value(s.drop_last()) * 10 + digit_value(s.last())
    }
}

/// Decimal text is read exactly when its digits, read as a whole number, stay
/// below this bound (38 significant digits) ...
pub const MANTISSA_LIMIT: u128 = 100_000_000_000_000_000_000_000_000_000_000_000_000;

/// ... and its digits are scaled by a power of ten no further than this.
pub const MAX_SCALE: i64 = 38;

/// The number `m · 10^t`, negated when `neg`, when it is representable.
pub open spec fn scaled(neg: bool, m: nat, t: int) -> Option<Number> {
    let n: int = if neg { -(m as int) } else { m as int };
    if t >= 0 {
        make(n * pow10(t as nat), 1)
    } else {
        make(n, pow10((-t) as nat) as int)
    }
}

/// The number that decimal text with the digits of value `m`, scaled by
/// `10^t`, writes: zero for zero digits; otherwise `scaled`, within the
/// limits `MANTISSA_LIMIT` and `MAX_SCALE`; `None` beyond them or when the
/// value is not representable.
pub open spec fn decimal_value(neg: bool, m: nat, t: int) -> Option<Number> {
    if m == 0 {
        make(0, 1)
    } else if m < MANTISSA_LIMIT && -MAX_SCALE <= t <= MAX_SCALE {
        scaled(neg, m, t)
    } else {
        None
    }
}

/// Decimal digits of a natural number, most significant first.
pub open spec fn digits(n: nat) -> Seq<char>
    decreases n,
{
    if n < 10 {
        seq![digit_char(n)]
    } else {
        digits(n / 10) + seq![digit_char(n % 10)]
    }
}

/// Up to `k` digits of the decimal expansion of `rem / den` (with `rem < den`),
/// stopping early when the expansion terminates.
pub open spec fn frac_digits(rem: nat, den: nat, k: nat) -> Seq<char>
    decreases k,
{
    if k == 0 || rem == 0 || den == 0 {
        Seq::empty()
    } else {
        seq![digit_char((rem * 10) / den)] + frac_digits((rem * 10) % den, den, (k - 1) as nat)
    }
}

/// Most fraction digits written when a number is turned into text.
pub const MAX_FRACTION_DIGITS: u64 = 16;

/// Decimal text of a number: sign, integer part, and the fraction digits, if any.
pub closed spec fn number_text(x: Number) -> Seq<char> {
    let a = abs(x.num as int);
    let q = a / (x.den as nat);
    let r = a % (x.den as nat);
    let sign = if x.num < 0 { seq!['-'] } else { Seq::<char>::empty() };
    let frac = if r == 0 {
        Seq::<char>::empty()
    } else {
        seq!['.'] + frac_digits(r, x.den as nat, MAX_FRACTION_DIGITS as nat)
    };
    sign + digits(q) + frac
}

/// An exact rational number: `num / den`, kept in lowest terms with `den >= 1`.
#[derive(Clone, Copy, Debug, PartialEq, Eq, Structural)]
pub struct Number {
    num: i64,
    den: i64,
}

proof fn lemma_gcd_bounds(a: nat, b: nat)
    requires
        b > 0,
    ensures
        1 <= gcd(a, b) <= b,
    decreases b,
{
    if a % b != 0 {
        lemma_gcd_bounds(b, a % b);
    } else {
        assert(gcd(b, 0) == b);
    }
}

proof fn lemma_make_wf(n: int, d: int)
    requires
        d > 0,
    ensures
        make(n, d) matches Some(r) ==> r.wf(),
{
    lemma_gcd_bounds(abs(n), d as nat);
    let g = gcd(abs(n), d as nat);
    assert(d / (g as int) >= 1) by (nonlinear_arith)
        requires
            1 <= g <= d,
    ;
}

fn gcd_u128(a: u128, b: u128) -> (r: u128)
    ensures
        r == gcd(a as nat, b as nat),
{
    let mut x = a;
    let mut y = b;
    while y != 0
        invariant
            gcd(x as nat, y as nat) == gcd(a as nat, b as nat),
        decreases y,
    {
        let t = x % y;
        x = y;
        y = t;
    }
    x
}

/// Bound on the magnitude of intermediate numerators and denominators.
pub open spec fn wide(x: int) -> bool {
    -0x4000_0000_0000_0000_0000_0000_0000_0000 < x < 0x4000_0000_0000_0000_0000_0000_0000_0000
}

proof fn lemma_wide_product(a: int, b: int)
    requires
        fits_i64(a),
        fits_i64(b),
    ensures
        -0x4000_0000_0000_0000_0000_0000_0000_0001 < a * b < 0x4000_0000_0000_0000_0000_0000_0000_0001,
        b >= 0 ==> -0x4000_0000_0000_0000_0000_0000_0000_0000 < a * b < 0x4000_0000_0000_0000_0000_0000_0000_0000,
{
    assert(-0x4000_0000_0000_0000_0000_0000_0000_0001 < a * b < 0x4000_0000_0000_0000_0000_0000_0000_0001)
        by (nonlinear_arith)
        requires
            -0x8000_0000_0000_0000 <= a <= 0x8000_0000_0000_0000,
            -0x8000_0000_0000_0000 <= b <= 0x8000_0000_0000_0000,
    ;
    if b >= 0 {
        assert(-0x4000_0000_0000_0000_0000_0000_0000_0000 < a * b < 0x4000_0000_0000_0000_0000_0000_0000_0000)
            by (nonlinear_arith)
            requires
                -0x8000_0000_0000_0000 <= a <= 0x8000_0000_0000_0000,
                0 <= b < 0x8000_0000_0000_0000,
        ;
    }
}

/// Builds `n / d` in lowest terms; `None` when a part does not fit in `i64`.
fn make_exec(n: i128, d: i128) -> (r: Option<Number>)
    requires
        d > 0,
        -0x7fff_ffff_ffff_ffff_ffff_ffff_ffff_ffff <= n,
    ensures
        r == make(n as int, d as int),
{
    proof {
        lemma_make_wf(n as int, d as int);
    }
    let an: u128 = if n < 0 { (-n) as u128 } else { n as u128 };
    let g = gcd_u128(an, d as u128);
    proof {
        lemma_gcd_bounds(abs(n as int), d as nat);
    }
    let m: u128 = an / g;
    let b: u128 = (d as u128) / g;
    if m > 0x7fff_ffff_ffff_ffff || b > 0x7fff_ffff_ffff_ffff {
        if n < 0 && m == 0x8000_0000_0000_0000 && b <= 0x7fff_ffff_ffff_ffff {
            return Some(Number { num: i64::MIN, den: b as i64 });
        }
        return None;
    }
    let a: i64 = if n < 0 { -(m as i64) } else { m as i64 };
    Some(Number { num: a, den: b as i64 })
}

impl Number {
    #[verifier::type_invariant]
    pub closed spec fn wf(self) -> bool {
        self.den >= 1
    }

    /// The numerator, in lowest terms.
    pub closed spec fn numer(self) -> int {
        self.num as int
    }

    /// The denominator, in lowest terms; at least 1.
    pub closed spec fn denom(self) -> int {
        self.den as int
    }

    pub fn numerator(&self) -> (r: i64)
        ensures
            r == self.numer(),
    {
        self.num
    }

    pub fn denominator(&self) -> (r: i64)
        ensures
            r == self.denom(),
            r >= 1,
    {
        proof {
            use_type_invariant(self);
        }
        self.den
    }

    /// The fraction `n / d` (with `d > 0`) of wide parts in lowest terms;
    /// `None` when a part of the result does not fit in `i64`.
    pub fn new_wide(n: i128, d: i128) -> (r: Option<Number>)
        requires
            d > 0,
            -0x7fff_ffff_ffff_ffff_ffff_ffff_ffff_ffff <= n,
        ensures
            r == make(n as int, d as int),
    {
        make_exec(n, d)
    }

    /// The whole number `n`.
    pub fn from_int(n: i64) -> (r: Number)
        ensures
            r.numer() == n,
            r.denom() == 1,
    {
        Number { num: n, den: 1 }
    }

    /// The fraction `n / d` in lowest terms; `None` when `d` is zero or a part
    /// of the result does not fit in `i64`.
    pub fn new(n: i64, d: i64) -> (r: Option<Number>)
        ensures
            d == 0 ==> r is None,
            d > 0 ==> r == make(n as int, d as int),
            d < 0 ==> r == make(-n, -d),
    {
        if d == 0 {
            None
        } else if d > 0 {
            make_exec(n as i128, d as i128)
        } else {
            make_exec(-(n as i128), -(d as i128))
        }
    }

    pub fn is_zero(&self) -> (r: bool)
        ensures
            r == (self.numer() == 0),
    {
        self.num == 0
    }

    /// Sum; `None` on overflow.
    pub fn add(&self, y: &Number) -> (r: Option<Number>)
        ensures
            r == add_spec(*self, *y),
    {
        proof {
            use_type_invariant(self);
            use_type_invariant(y);
        }
        proof {
            lemma_wide_product(self.num as int, y.den as int);
            lemma_wide_product(y.num as int, self.den as int);
            lemma_wide_product(self.den as int, y.den as int);
        }
        let n = self.num as i128 * y.den as i128 + y.num as i128 * self.den as i128;
        let d = self.den as i128 * y.den as i128;
        proof {
            assert(d > 0) by (nonlinear_arith)
                requires
                    d == self.den as int * y.den as int,
                    self.den >= 1,
                    y.den >= 1,
            ;
        }
        make_exec(n, d)
    }

    /// Difference; `None` on overflow.
    pub fn sub(&self, y: &Number) -> (r: Option<Number>)
        ensures
            r == sub_spec(*self, *y),
    {
        proof {
            use_type_invariant(self);
            use_type_invariant(y);
        }
        proof {
            lemma_wide_product(self.num as int, y.den as int);
            lemma_wide_product(y.num as int, self.den as int);
            lemma_wide_product(self.den as int, y.den as int);
        }
        let n = self.num as i128 * y.den as i128 - y.num as i128 * self.den as i128;
        let d = self.den as i128 * y.den as i128;
        proof {
            assert(d > 0) by (nonlinear_arith)
                requires
                    d == self.den as int * y.den as int,
                    self.den >= 1,
                    y.den >= 1,
            ;
        }
        make_exec(n, d)
    }

    /// Product; `None` on overflow.
    pub fn mul(&self, y: &Number) -> (r: Option<Number>)
        ensures
            r == mul_spec(*self, *y),
    {
        proof {
            use_type_invariant(self);
            use_type_invariant(y);
        }
        proof {
            lemma_wide_product(self.num as int, y.num as int);
            lemma_wide_product(self.den as int, y.den as int);
        }
        let n = self.num as i128 * y.num as i128;
        let d = self.den as i128 * y.den as i128;
        proof {
            assert(d > 0) by (nonlinear_arith)
                requires
                    d == self.den as int * y.den as int,
                    self.den >= 1,
                    y.den >= 1,
            ;
        }
        make_exec(n, d)
    }

    /// Quotient by a divisor that is not zero; `None` on overflow.
    pub fn div(&self, y: &Number) -> (r: Option<Number>)
        requires
            y.numer() != 0,
        ensures
            r == div_spec(*self, *y),
    {
        proof {
            use_type_invariant(self);
            use_type_invariant(y);
        }
        proof {
            lemma_wide_product(self.num as int, y.den as int);
            lemma_wide_product(self.den as int, y.num as int);
        }
        let n = self.num as i128 * y.den as i128;
        let d = self.den as i128 * y.num as i128;
        if y.num > 0 {
            proof {
                assert(d > 0) by (nonlinear_arith)
                    requires
                        d == self.den as int * y.num as int,
                        self.den >= 1,
                        y.num >= 1,
                ;
            }
            make_exec(n, d)
        } else {
            proof {
                assert(d < 0) by (nonlinear_arith)
                    requires
                        d == self.den as int * y.num as int,
                        self.den >= 1,
                        y.num < 0,
                ;
            }
            make_exec(-n, -d)
        }
    }

    /// Negation; `None` on overflow.
    pub fn neg(&self) -> (r: Option<Number>)
        ensures
            r == neg_spec(*self),
    {
        proof {
            use_type_invariant(self);
        }
        make_exec(-(self.num as i128), self.den as i128)
    }

    /// Numeric equality.
    pub fn num_eq(&self, y: &Number) -> (r: bool)
        ensures
            r == num_eq(*self, *y),
    {
        proof {
            lemma_wide_product(self.num as int, y.den as int);
            lemma_wide_product(y.num as int, self.den as int);
        }
        self.num as i128 * y.den as i128 == y.num as i128 * self.den as i128
    }

    /// Numeric `<`.
    pub fn num_lt(&self, y: &Number) -> (r: bool)
        ensures
            r == num_lt(*self, *y),
    {
        proof {
            lemma_wide_product(self.num as int, y.den as int);
            lemma_wide_product(y.num as int, self.den as int);
        }
        (self.num as i128 * y.den as i128) < y.num as i128 * self.den as i128
    }
}

fn digit_to_char(d: u64) -> (c: char)
    requires
        d < 10,
    ensures
        c == digit_char(d as nat),
{
    if d == 0 { '0' } else if d == 1 { '1' } else if d == 2 { '2' } else if d == 3 { '3' }
    else if d == 4 { '4' } else if d == 5 { '5' } else if d == 6 { '6' } else if d == 7 { '7' }
    else if d == 8 { '8' } else { '9' }
}

fn push_digits(n: u64, out: &mut Vec<char>)
    ensures
        final(out)@ == old(out)@ + digits(n as nat),
    decreases n,
{
    if n >= 10 {
        push_digits(n / 10, out);
    }
    out.push(digit_to_char(n % 10));
}

fn push_frac_digits(rem: u64, den: u64, out: &mut Vec<char>)
    requires
        rem < den,
    ensures
        final(out)@ == old(out)@ + frac_digits(rem as nat, den as nat, MAX_FRACTION_DIGITS as nat),
{
    let ghost target = old(out)@ + frac_digits(rem as nat, den as nat, MAX_FRACTION_DIGITS as nat);
    let mut r: u64 = rem;
    let mut left: u64 = MAX_FRACTION_DIGITS;
    while left > 0 && r != 0
        invariant
            r < den,
            left <= MAX_FRACTION_DIGITS,
            out@ + frac_digits(r as nat, den as nat, left as nat) == target,
        decreases left,
    {
        let t: u128 = r as u128 * 10;
        let d: u128 = t / den as u128;
        assert(d < 10) by (nonlinear_arith)
            requires
                t as int == r as int * 10,
                d as int == t as int / den as int,
                r < den,
        ;
        let ghost before = out@;
        out.push(digit_to_char(d as u64));
        r = (t % den as u128) as u64;
        left = left - 1;
        assert(out@ + frac_digits(r as nat, den as nat, left as nat)
            == before + frac_digits((t / 10) as nat, den as nat, (left + 1) as nat));
    }
}

impl Number {
    /// Appends the decimal text of this number to `out`.
    pub fn push_text(&self, out: &mut Vec<char>)
        ensures
            final(out)@ == old(out)@ + number_text(*self),
    {
        proof {
            use_type_invariant(self);
        }
        let a: u64 = if self.num < 0 {
            if self.num == i64::MIN {
                0x8000_0000_0000_0000u64
            } else {
                (-self.num) as u64
            }
        } else {
            self.num as u64
        };
        let d: u64 = self.den as u64;
        let q = a / d;
        let r = a % d;
        let ghost start = out@;
        if self.num < 0 {
            out.push('-');
        }
        push_digits(q, out);
        if r != 0 {
            out.push('.');
            push_frac_digits(r, d, out);
        }
        assert(out@ =~= start + number_text(*self));
    }
}

proof fn lemma_pow10_pos(k: nat)
    ensures
        pow10(k) >= 1,
    decreases k,
{
    if k > 0 {
        lemma_pow10_pos((k - 1) as nat);
    }
}

proof fn lemma_pow10_mono(a: nat, b: nat)
    requires
        a <= b,
    ensures
        pow10(a) <= pow10(b),
    decreases b,
{
    if a < b {
        lemma_pow10_mono(a, (b - 1) as nat);
        lemma_pow10_pos((b - 1) as nat);
    }
}

proof fn lemma_gcd_divides(a: nat, b: nat)
    requires
        a + b > 0,
    ensures
        gcd(a, b) > 0,
        a == gcd(a, b) * (a / gcd(a, b)),
        b == gcd(a, b) * (b / gcd(a, b)),
    decreases b,
{
    if b == 0 {
        assert(gcd(a, b) == a);
        assert(a / a == 1 && 0nat / a == 0) by (nonlinear_arith)
            requires
                a > 0,
        ;
    } else {
        let r = a % b;
        lemma_gcd_divides(b, r);
        let g = gcd(b, r);
        assert(gcd(a, b) == g);
        vstd::arithmetic::div_mod::lemma_fundamental_div_mod(a as int, b as int);
        let k = (b / g) * (a / b) + r / g;
        assert(a == g * k) by (nonlinear_arith)
            requires
                a == b * (a / b) + r,
                b == g * (b / g),
                r == g * (r / g),
                k == (b / g) * (a / b) + r / g,
        ;
        vstd::arithmetic::div_mod::lemma_div_multiples_vanish(k as int, g as int);
        assert(a / g == k);
    }
}

/// Reducing a fraction keeps its value: the result's parts are in the same
/// ratio as `n` and `d`.
pub proof fn lemma_make_value(n: int, d: int)
    requires
        d > 0,
    ensures
        make(n, d) matches Some(r) ==> r.numer() * d == n * r.denom(),
{
    lemma_gcd_divides(abs(n), d as nat);
    let g = gcd(abs(n), d as nat);
    let m = abs(n) / g;
    let b = d / (g as int);
    assert(d == g * b);
    assert(abs(n) == g * m);
    if n < 0 {
        assert((-m) * d == n * b) by (nonlinear_arith)
            requires
                d == g * b,
                -n == g * m,
        ;
    } else {
        assert(m * d == n * b) by (nonlinear_arith)
            requires
                d == g * b,
                n == g * m,
        ;
    }
}

/// The sum, difference, product and quotient have the value of the exact
/// rational result.
pub proof fn lemma_arith_exact(x: Number, y: Number)
    requires
        x.wf(),
        y.wf(),
    ensures
        add_spec(x, y) matches Some(r) ==> r.numer() * (x.denom() * y.denom()) == (x.numer() * y.denom()
            + y.numer() * x.denom()) * r.denom(),
        sub_spec(x, y) matches Some(r) ==> r.numer() * (x.denom() * y.denom()) == (x.numer() * y.denom()
            - y.numer() * x.denom()) * r.denom(),
        mul_spec(x, y) matches Some(r) ==> r.numer() * (x.denom() * y.denom()) == (x.numer() * y.numer())
            * r.denom(),
        y.numer() > 0 ==> (div_spec(x, y) matches Some(r) ==> r.numer() * (x.denom() * y.numer()) == (
        x.numer() * y.denom()) * r.denom()),
{
    assert(x.den * y.den > 0) by (nonlinear_arith)
        requires
            x.den >= 1,
            y.den >= 1,
    ;
    lemma_make_value(x.num * y.den + y.num * x.den, x.den * y.den);
    lemma_make_value(x.num * y.den - y.num * x.den, x.den * y.den);
    lemma_make_value(x.num * y.num, x.den * y.den);
    if y.num > 0 {
        assert(x.den * y.num > 0) by (nonlinear_arith)
            requires
                x.den >= 1,
                y.num >= 1,
        ;
        lemma_make_value(x.num * y.den, x.den * y.num);
    }
}

/// The text of a number, in terms of its numerator and denominator: the
/// sign, the digits of the whole part, and when the division leaves a
/// remainder, `.` and up to `MAX_FRACTION_DIGITS` digits of the fraction.
pub proof fn lemma_number_text(x: Number)
    ensures
        number_text(x) == (if x.numer() < 0 { seq!['-'] } else { Seq::<char>::empty() }) + digits(
            abs(x.numer()) / (x.denom() as nat),
        ) + (if abs(x.numer()) % (x.denom() as nat) == 0 {
            Seq::<char>::empty()
        } else {
            seq!['.'] + frac_digits(
                abs(x.numer()) % (x.denom() as nat),
                x.denom() as nat,
                MAX_FRACTION_DIGITS as nat,
            )
        }),
{
}

/// A whole number is its own lowest terms.
pub proof fn lemma_make_whole(n: int)
    requires
        fits_i64(n),
    ensures
        make(n, 1) is Some,
        make(n, 1)->0.numer() == n,
        make(n, 1)->0.denom() == 1,
{
    let a = abs(n);
    assert(a % 1 == 0 && a / 1 == a) by (nonlinear_arith);
    assert(gcd(1, 0) == 1);
    assert(gcd(a, 1) == gcd(1, a % 1));
    assert(gcd(a, 1) == 1);
    assert(1int / 1int == 1) by (nonlinear_arith);
    assert(reduce(n, 1) == (n, 1int));
}

/// The text of a whole number: its sign, then its decimal digits.
pub proof fn lemma_whole_text(x: Number)
    requires
        x.denom() == 1,
    ensures
        number_text(x) == (if x.numer() < 0 { seq!['-'] } else { Seq::<char>::empty() }) + digits(
            abs(x.numer()),
        ),
{
    let a = abs(x.num as int);
    assert(a / 1 == a && a % 1 == 0) by (nonlinear_arith);
    assert(number_text(x) =~= (if x.numer() < 0 { seq!['-'] } else { Seq::<char>::empty() }) + digits(a));
}

/// `from_int` builds the whole number.
pub proof fn lemma_from_int_is_make(x: Number, n: i64)
    requires
        x.numer() == n,
        x.denom() == 1,
    ensures
        Some(x) == make(n as int, 1),
{
    lemma_make_whole(n as int);
}

/// A whole number's reduced form is itself over one.
proof fn lemma_reduce_int(x: int)
    ensures
        reduce(x, 1) == (x, 1int),
{
    let a = abs(x);
    assert(a % 1 == 0 && a / 1 == a) by (nonlinear_arith);
    assert(gcd(1, 0) == 1);
    assert(gcd(a, 1) == gcd(1, a % 1));
    assert(1int / 1int == 1) by (nonlinear_arith);
}

proof fn lemma_pow10_split(a: nat, b: nat)
    ensures
        pow10(a + b) == pow10(a) * pow10(b),
    decreases a,
{
    if a > 0 {
        lemma_pow10_split((a - 1) as nat, b);
        assert(((a + b) - 1) as nat == ((a - 1) as nat + b) as nat);
        assert(pow10(a) == 10 * pow10((a - 1) as nat));
        assert(pow10(a + b) == 10 * pow10((a - 1 + b) as nat));
        assert(10 * (pow10((a - 1) as nat) * pow10(b)) == (10 * pow10((a - 1) as nat)) * pow10(b)) by (nonlinear_arith);
    } else {
        assert(pow10(a) == 1);
        assert(a + b == b);
    }
}

proof fn lemma_pow10_38()
    ensures
        pow10(38) == 100_000_000_000_000_000_000_000_000_000_000_000_000,
{
    reveal_with_fuel(pow10, 39);
}

proof fn lemma_digits_value_mono(s: Seq<char>, i: int, j: int)
    requires
        0 <= i <= j <= s.len(),
        forall|x: int| 0 <= x < s.len() ==> is_digit(#[trigger] s[x]),
    ensures
        digits_value(s.subrange(0, i)) <= digits_value(s.subrange(0, j)),
    decreases j - i,
{
    if i < j {
        lemma_digits_value_mono(s, i, j - 1);
        assert(s.subrange(0, j).drop_last() =~= s.subrange(0, j - 1));
    }
}

/// The value of the digits `ds`, when it is below `MANTISSA_LIMIT`.
pub(crate) fn digits_below_limit(ds: &Vec<char>) -> (r: Option<u128>)
    requires
        forall|i: int| 0 <= i < ds@.len() ==> is_digit(#[trigger] ds@[i]),
    ensures
        r matches Some(v) ==> v == digits_value(ds@) && v < MANTISSA_LIMIT,
        r is None ==> digits_value(ds@) >= MANTISSA_LIMIT,
{
    let mut acc: u128 = 0;
    let mut i: usize = 0;
    while i < ds.len()
        invariant
            i <= ds@.len(),
            forall|j: int| 0 <= j < ds@.len() ==> is_digit(#[trigger] ds@[j]),
            acc == digits_value(ds@.subrange(0, i as int)),
            acc < MANTISSA_LIMIT,
        decreases ds@.len() - i,
    {
        assert(ds@.subrange(0, i + 1).drop_last() =~= ds@.subrange(0, i as int));
        let c = ds[i];
        assert(is_digit(c));
        let dv: u128 = (c as u32 - 48) as u128;
        let q: u128 = (MANTISSA_LIMIT - 1 - dv) / 10;
        if acc > q {
            proof {
                assert(acc * 10 + dv >= MANTISSA_LIMIT) by (nonlinear_arith)
                    requires
                        q == (MANTISSA_LIMIT - 1 - dv) / 10,
                        acc > q,
                        dv <= 9,
                ;
                lemma_digits_value_mono(ds@, i + 1, ds@.len() as int);
                assert(ds@.subrange(0, ds@.len() as int) =~= ds@);
            }
            return None;
        }
        assert(acc * 10 + dv < MANTISSA_LIMIT) by (nonlinear_arith)
            requires
                q == (MANTISSA_LIMIT - 1 - dv) / 10,
                acc <= q,
                dv <= 9,
        ;
        acc = acc * 10 + dv;
        i = i + 1;
    }
    assert(ds@.subrange(0, ds@.len() as int) =~= ds@);
    Some(acc)
}

impl Number {
    /// The number `m · 10^t`, negated when `neg`, when it is representable.
    fn from_scaled(neg: bool, m: u128, t: i64) -> (r: Option<Number>)
        requires
            m < MANTISSA_LIMIT,
            -MAX_SCALE <= t <= MAX_SCALE,
        ensures
            r == scaled(neg, m as nat, t as int),
    {
        proof {
            lemma_pow10_38();
        }
        if t >= 0 {
            let mut acc: u128 = m;
            let mut j: i64 = 0;
            while j < t
                invariant
                    0 <= j <= t,
                    t <= MAX_SCALE,
                    acc == m * pow10(j as nat),
                decreases t - j,
            {
                if acc > 0x8000_0000_0000_0000 {
                    proof {
                        lemma_pow10_pos((t - j) as nat);
                        lemma_pow10_split(j as nat, (t - j) as nat);
                        let n: int = if neg { -(m as int) } else { m as int };
                        assert(abs(n * pow10(t as nat)) >= acc) by (nonlinear_arith)
                            requires
                                acc == m * pow10(j as nat),
                                pow10(t as nat) == pow10(j as nat) * pow10((t - j) as nat),
                                pow10((t - j) as nat) >= 1,
                                n == m || n == -m,
                                m >= 0,
                        ;
                        lemma_reduce_int(n * pow10(t as nat));
                    }
                    return None;
                }
                assert(pow10((j + 1) as nat) == 10 * pow10(j as nat));
                assert(acc * 10 == m * pow10((j + 1) as nat)) by (nonlinear_arith)
                    requires
                        acc == m * pow10(j as nat),
                        pow10((j + 1) as nat) == 10 * pow10(j as nat),
                ;
                acc = acc * 10;
                j = j + 1;
            }
            if acc > 0x8000_0000_0000_0000 {
                proof {
                    let n: int = if neg { -(m as int) } else { m as int };
                    assert(abs(n * pow10(t as nat)) == acc) by (nonlinear_arith)
                        requires
                            acc == m * pow10(t as nat),
                            n == m || n == -m,
                            m >= 0,
                            pow10(t as nat) >= 0,
                    ;
                    lemma_reduce_int(n * pow10(t as nat));
                }
                return None;
            }
            let n: i128 = if neg { -(acc as i128) } else { acc as i128 };
            proof {
                let nn: int = if neg { -(m as int) } else { m as int };
                assert(n == nn * pow10(t as nat)) by (nonlinear_arith)
                    requires
                        acc == m * pow10(t as nat),
                        n == (if neg { -acc } else { acc as int }),
                        nn == (if neg { -(m as int) } else { m as int }),
                ;
            }
            make_exec(n, 1)
        } else {
            let k: i64 = -t;
            let mut p: u128 = 1;
            let mut j: i64 = 0;
            while j < k
                invariant
                    0 <= j <= k,
                    k <= MAX_SCALE,
                    p == pow10(j as nat),
                    pow10(38) == 100_000_000_000_000_000_000_000_000_000_000_000_000,
                decreases k - j,
            {
                proof {
                    lemma_pow10_mono((j + 1) as nat, 38);
                }
                p = p * 10;
                j = j + 1;
            }
            proof {
                lemma_pow10_pos(k as nat);
                lemma_pow10_mono(k as nat, 38);
            }
            let n: i128 = if neg { -(m as i128) } else { m as i128 };
            make_exec(n, p as i128)
        }
    }

    /// The number that decimal text with the digits `ds`, scaled by `10^t`
    /// and negated when `neg`, writes; see `decimal_value`.
    pub fn from_decimal_text(neg: bool, ds: &Vec<char>, t: i128) -> (r: Option<Number>)
        requires
            forall|i: int| 0 <= i < ds@.len() ==> is_digit(#[trigger] ds@[i]),
        ensures
            r == decimal_value(neg, digits_value(ds@), t as int),
    {
        match digits_below_limit(ds) {
            None => None,
            Some(m) => {
                if m == 0 {
                    make_exec(0, 1)
                } else if t < -(MAX_SCALE as i128) || t > MAX_SCALE as i128 {
                    None
                } else {
                    Number::from_scaled(neg, m, t as i64)
                }
            },
        }
    }
}

} // verus!
