//! Exact decimal numbers: a signed 96-bit mantissa and a power-of-ten scale.
//! Arithmetic, parsing and formatting are done by `rust_decimal`; this module
//! states exactly what those calls return where no rounding is involved, and
//! decides in verified code when a `Decimal` holds the exact result.

use vstd::prelude::*;
use crate::date::FormatError;
use crate::text::{digits, padded, pow10, lemma_pow10_add, lemma_pow10_positive, pow10_u128};

verus! {

/// The largest mantissa magnitude, `2^96 - 1`.
pub const MAX_MANTISSA: i128 = 79228162514264337593543950335;

/// The largest number of fractional digits.
pub const MAX_SCALE: u32 = 28;

/// The number `mantissa / 10^scale`.
#[derive(Clone, Copy, Debug, PartialEq, Eq, Structural)]
pub struct Decimal {
    pub mantissa: i128,
    pub scale: u32,
}

pub open spec fn abs(x: int) -> nat {
    if x < 0 {
        (-x) as nat
    } else {
        x as nat
    }
}

/// What `rust_decimal` parses from a literal, as `(mantissa, scale)`, if it is one.
pub uninterp spec fn parsed_decimal(s: Seq<char>) -> Option<(int, int)>;

/// The text of `mantissa / 10^scale` with exactly `prec` fractional digits:
/// a minus sign for a negative mantissa, the integer part, and for `prec > 0`
/// a point followed by the fractional digits cut (not rounded) or padded
/// with zeros to `prec`.
pub open spec fn fixed_text(m: int, scale: nat, prec: nat) -> Seq<char> {
    let a = abs(m);
    let sign = if m < 0 {
        seq!['-']
    } else {
        seq![]
    };
    let frac = if prec == 0 {
        seq![]
    } else {
        seq!['.'] + padded(a * pow10(prec) / pow10(scale), prec)
    };
    sign + digits(a / pow10(scale)) + frac
}

/// How many digits the integer part of `m / 10^scale` has.
pub open spec fn int_digits(m: int, scale: nat) -> nat {
    digits(abs(m) / pow10(scale)).len()
}

/// `fixed_text` fits the 32-character buffer that `rust_decimal` writes it in:
/// the integer digits, a point and at most 28 fractional digits.
pub open spec fn fits_text_buffer(m: int, scale: nat, prec: nat) -> bool {
    int_digits(m, scale) + (if prec <= 28 { prec } else { 28 }) <= 31
}

/// The product of `a` and `b` where it is representable without rounding;
/// a zero factor gives zero at scale 0.
pub open spec fn exact_product(a: Decimal, b: Decimal) -> Option<Decimal> {
    if a.mantissa == 0 || b.mantissa == 0 {
        Some(Decimal { mantissa: 0, scale: 0 })
    } else if a.scale + b.scale <= MAX_SCALE && abs(a.mantissa * b.mantissa) <= MAX_MANTISSA {
        Some(Decimal { mantissa: (a.mantissa * b.mantissa) as i128, scale: (a.scale + b.scale) as u32 })
    } else {
        None
    }
}

/// The mantissa of `d` brought to the larger scale `s`.
pub open spec fn aligned(d: Decimal, s: nat) -> int {
    d.mantissa * pow10((s - d.scale) as nat)
}

pub open spec fn max_scale(a: Decimal, b: Decimal) -> nat {
    if a.scale >= b.scale {
        a.scale as nat
    } else {
        b.scale as nat
    }
}

/// The sum of `a` and `b` where both, brought to the larger scale, and their sum
/// fit the mantissa; adding zero returns the other operand unchanged.
pub open spec fn exact_sum(a: Decimal, b: Decimal) -> Option<Decimal> {
    if a.mantissa == 0 {
        Some(b)
    } else if b.mantissa == 0 {
        Some(a)
    } else {
        let s = max_scale(a, b);
        let x = aligned(a, s);
        let y = aligned(b, s);
        if abs(x) <= MAX_MANTISSA && abs(y) <= MAX_MANTISSA && abs(x + y) <= MAX_MANTISSA {
            Some(Decimal { mantissa: (x + y) as i128, scale: s as u32 })
        } else {
            None
        }
    }
}

/// Some `Decimal` holds the exact product of `a` and `b`.
pub open spec fn product_defined(a: Decimal, b: Decimal) -> bool {
    representable(product_units(a, b))
}

/// `v` is held at scale `s` by a mantissa of at most 96 bits.
pub open spec fn fits_at(v: int, s: nat) -> bool {
    v % (pow10((56 - s) as nat) as int) == 0 && abs(v / (pow10((56 - s) as nat) as int)) <= MAX_MANTISSA
}

/// The largest scale not above `s` at which `v` fits (0 where none does).
pub open spec fn top_scale(v: int, s: nat) -> nat
    decreases s,
{
    if s == 0 || fits_at(v, s) {
        s
    } else {
        top_scale(v, (s - 1) as nat)
    }
}

/// `v` at the largest scale not above `cap` that holds it.
pub open spec fn held_at_top(v: int, cap: nat) -> Decimal {
    let s = top_scale(v, cap);
    Decimal { mantissa: (v / (pow10((56 - s) as nat) as int)) as i128, scale: s as u32 }
}

/// What `checked_mul` gives: zero at scale 0 for a zero factor; otherwise
/// the exact product at the summed scale, lowered (to at most 28) only as far
/// as the 96 bits need; `None` where no `Decimal` holds it.
pub open spec fn mul_result(a: Decimal, b: Decimal) -> Option<Decimal> {
    if a.mantissa == 0 || b.mantissa == 0 {
        Some(Decimal { mantissa: 0, scale: 0 })
    } else if representable(product_units(a, b)) {
        let cap: nat = if a.scale + b.scale <= MAX_SCALE {
            (a.scale + b.scale) as nat
        } else {
            MAX_SCALE as nat
        };
        Some(held_at_top(product_units(a, b), cap))
    } else {
        None
    }
}

/// What `checked_add` gives: the other operand for a zero one; otherwise the
/// exact sum at the larger scale, lowered only as far as the 96 bits need;
/// `None` where no `Decimal` holds it.
pub open spec fn add_result(a: Decimal, b: Decimal) -> Option<Decimal> {
    if a.mantissa == 0 {
        Some(b)
    } else if b.mantissa == 0 {
        Some(a)
    } else if representable(a.units() + b.units()) {
        Some(held_at_top(a.units() + b.units(), max_scale(a, b)))
    } else {
        None
    }
}

/// The product does not depend on the order of the factors.
pub proof fn lemma_mul_result_commutes(a: Decimal, b: Decimal)
    ensures
        mul_result(a, b) == mul_result(b, a),
{
    let x = a.mantissa as int;
    let y = b.mantissa as int;
    assert(x * y == y * x) by (nonlinear_arith);
    assert(product_units(a, b) == product_units(b, a));
}

/// The exact value of `a * b`, in units of `10^-56`.
pub open spec fn product_units(a: Decimal, b: Decimal) -> int {
    a.mantissa * b.mantissa * pow10((56 - a.scale - b.scale) as nat)
}

/// `m / 10^s`, in units of `10^-56`.
pub open spec fn units_at(m: int, s: nat) -> int {
    m * pow10((56 - s) as nat)
}

/// The value `v` (in units of `10^-56`) can be held by a `Decimal`: some
/// mantissa of at most 96 bits at some scale of at most 28 gives it exactly.
pub open spec fn representable(v: int) -> bool {
    exists|m: int, s: nat| s <= MAX_SCALE && abs(m) <= MAX_MANTISSA && v == #[trigger] units_at(m, s)
}

impl Decimal {
    pub open spec fn wf(&self) -> bool {
        -MAX_MANTISSA <= self.mantissa <= MAX_MANTISSA && self.scale <= MAX_SCALE
    }

    /// The exact value, in units of `10^-56`.
    pub open spec fn units(&self) -> int {
        self.mantissa * pow10((56 - self.scale) as nat)
    }

    pub fn zero() -> (r: Decimal)
        ensures
            r.wf(),
            r.mantissa == 0,
            r.scale == 0,
    {
        Decimal { mantissa: 0, scale: 0 }
    }

    /// `mantissa / 10^scale`, where both are in range.
    pub fn from_parts(mantissa: i128, scale: u32) -> (r: Option<Decimal>)
        ensures
            r is Some <==> (-MAX_MANTISSA <= mantissa <= MAX_MANTISSA && scale <= MAX_SCALE),
            r matches Some(d) ==> d.wf() && d.mantissa == mantissa && d.scale == scale,
    {
        if -MAX_MANTISSA <= mantissa && mantissa <= MAX_MANTISSA && scale <= MAX_SCALE {
            Some(Decimal { mantissa, scale })
        } else {
            None
        }
    }

    /// Reads an exact decimal literal; `None` if `s` is not one.
    pub fn parse(s: &str) -> (r: Option<Decimal>)
        ensures
            r is Some <==> parsed_decimal(s@) is Some,
            r matches Some(d) ==> d.wf() && parsed_decimal(s@) == Some((d.mantissa as int, d.scale as int)),
    {
        parse_exact(s)
    }

    /// The text with all `scale` fractional digits, as `Display` writes it.
    pub fn to_string(&self) -> (r: String)
        requires
            self.wf(),
        ensures
            r@ == fixed_text(self.mantissa as int, self.scale as nat, self.scale as nat),
    {
        proof {
            lemma_int_digits_bound(*self);
        }
        format_fixed(self, self.scale as usize)
    }

    /// The text with exactly `prec` fractional digits, cut or padded.
    pub fn to_fixed(&self, prec: usize) -> (r: String)
        requires
            self.wf(),
            fits_text_buffer(self.mantissa as int, self.scale as nat, prec as nat),
        ensures
            r@ == fixed_text(self.mantissa as int, self.scale as nat, prec as nat),
    {
        format_fixed(self, prec)
    }

    /// The exact product; `None` exactly where no `Decimal` holds it.
    pub fn checked_mul(&self, other: &Decimal) -> (r: Option<Decimal>)
        requires
            self.wf(),
            other.wf(),
        ensures
            r == mul_result(*self, *other),
            r is Some <==> product_defined(*self, *other),
            r matches Some(d) ==> d.wf() && d.units() == product_units(*self, *other),
            exact_product(*self, *other) is Some ==> r == exact_product(*self, *other),
    {
        proof {
            lemma_product_units(*self, *other);
            if let Some(d) = exact_product(*self, *other) {
                lemma_wf_representable(d);
            }
        }
        if product_fits(self, other) || product_representable(self, other) {
            raw_mul(self, other)
        } else {
            None
        }
    }

    /// The exact sum; `None` exactly where no `Decimal` holds it.
    pub fn checked_add(&self, other: &Decimal) -> (r: Option<Decimal>)
        requires
            self.wf(),
            other.wf(),
        ensures
            r == add_result(*self, *other),
            r is Some <==> representable(self.units() + other.units()),
            r matches Some(d) ==> d.wf() && d.units() == self.units() + other.units(),
            exact_sum(*self, *other) is Some ==> r == exact_sum(*self, *other),
    {
        proof {
            lemma_sum_units(*self, *other);
            if let Some(d) = exact_sum(*self, *other) {
                lemma_wf_representable(d);
            }
        }
        if self.mantissa != 0 && other.mantissa != 0 {
            let s = if self.scale >= other.scale {
                self.scale
            } else {
                other.scale
            };
            let x = align(self, s);
            let y = align(other, s);
            let aligned_fits = match (x, y) {
                (Some(x), Some(y)) => {
                    let t: i128 = x + y;
                    -MAX_MANTISSA <= t && t <= MAX_MANTISSA
                },
                _ => false,
            };
            if !aligned_fits && !sum_fits(self, other) {
                return None;
            }
        }
        raw_add(self, other)
    }
}

/// Decodes a decimal field from its literal text.
pub fn decode_decimal(s: &str) -> (r: Result<Decimal, FormatError>)
    ensures
        parsed_decimal(s@) is None ==> r == Err::<Decimal, FormatError>(FormatError::InvalidDecimal),
        parsed_decimal(s@) matches Some((m, sc)) ==> r == Ok::<Decimal, FormatError>(
            Decimal { mantissa: m as i128, scale: sc as u32 },
        ),
        r matches Ok(d) ==> d.wf(),
{
    match Decimal::parse(s) {
        Some(d) => Ok(d),
        None => Err(FormatError::InvalidDecimal),
    }
}

/// `m / 10^s` with trailing zeros of the mantissa dropped while the scale
/// allows: the same value, at the smallest scale that gives it.
fn canonical(mag: u128, s: u32) -> (r: (u128, u32))
    requires
        s <= MAX_SCALE,
    ensures
        r.1 <= s,
        r.0 <= mag,
        r.0 * pow10((s - r.1) as nat) == mag,
        r.1 == 0 || r.0 % 10 != 0,
{
    let mut t = mag;
    let mut k = s;
    assert(pow10(0) == 1);
    assert((s - k) as nat == 0);
    assert(t * pow10((s - k) as nat) == mag) by (nonlinear_arith)
        requires
            pow10((s - k) as nat) == 1,
            t == mag,
    ;
    while k > 0 && t % 10 == 0
        invariant
            k <= s,
            t <= mag,
            t * pow10((s - k) as nat) == mag,
        decreases k,
    {
        proof {
            let q = (t / 10) as nat;
            let p = pow10((s - k) as nat);
            assert(pow10((s - k + 1) as nat) == 10 * p);
            assert(t == q * 10);
            assert(q * (10 * p) == (q * 10) * p) by (nonlinear_arith);
        }
        t = t / 10;
        k = k - 1;
    }
    (t, k)
}

/// 2^125: aligned mantissas below it can be added in an `i128`.
const WIDE_LIMIT: u128 = 42535295865117307932921825928971026432;

/// Whether some `Decimal` holds `a + b` exactly.
fn sum_fits(a: &Decimal, b: &Decimal) -> (r: bool)
    requires
        a.wf(),
        b.wf(),
    ensures
        r == representable(a.units() + b.units()),
{
    let (ta, sa) = canonical(magnitude(a.mantissa), a.scale);
    let (tb, sb) = canonical(magnitude(b.mantissa), b.scale);
    let ca: i128 = if a.mantissa < 0 {
        -(ta as i128)
    } else {
        ta as i128
    };
    let cb: i128 = if b.mantissa < 0 {
        -(tb as i128)
    } else {
        tb as i128
    };
    proof {
        lemma_canonical_units(a.mantissa as int, a.scale as nat, ca as int, sa as nat);
        lemma_canonical_units(b.mantissa as int, b.scale as nat, cb as int, sb as nat);
    }
    let s = if sa >= sb {
        sa
    } else {
        sb
    };
    let pa = pow10_u128(s - sa);
    let pb = pow10_u128(s - sb);
    proof {
        lemma_pow10_positive((s - sa) as nat);
        lemma_pow10_positive((s - sb) as nat);
        crate::text::lemma_pow10_monotone((s - sa) as nat, 28);
        crate::text::lemma_pow10_monotone((s - sb) as nat, 28);
        crate::text::lemma_pow10_28();
        lemma_aligned_sum(ca as int, sa as nat, cb as int, sb as nat, s as nat);
    }
    if ta > WIDE_LIMIT / pa {
        proof {
            lemma_div_bound_converse(ta as int, pa as int, WIDE_LIMIT as int);
            lemma_overflowing_sum(ca as int, sa as nat, pa as int, cb as int, sb as nat, s as nat);
        }
        return false;
    }
    if tb > WIDE_LIMIT / pb {
        proof {
            lemma_div_bound_converse(tb as int, pb as int, WIDE_LIMIT as int);
            lemma_overflowing_sum(cb as int, sb as nat, pb as int, ca as int, sa as nat, s as nat);
        }
        return false;
    }
    proof {
        lemma_div_bound(ta as int, pa as int, WIDE_LIMIT as int);
        lemma_div_bound(tb as int, pb as int, WIDE_LIMIT as int);
        lemma_abs_mul(ca as int, pa as int);
        lemma_abs_mul(cb as int, pb as int);
    }
    let x: i128 = ca * (pa as i128);
    let y: i128 = cb * (pb as i128);
    let t: i128 = x + y;
    let (tc, sc) = canonical(magnitude(t), s);
    let ghost ct: int = if t < 0 {
        -(tc as int)
    } else {
        tc as int
    };
    proof {
        lemma_canonical_units(t as int, s as nat, ct, sc as nat);
        lemma_canonical_representable(ct, sc as nat);
    }
    tc <= MAX_MANTISSA as u128
}

proof fn lemma_abs_mul(c: int, p: int)
    requires
        p >= 1,
    ensures
        abs(c * p) == abs(c) * p,
        abs(c * p) >= abs(c),
{
    if c >= 0 {
        assert(c * p >= 0 && c * p >= c) by (nonlinear_arith)
            requires
                c >= 0,
                p >= 1,
        ;
    } else {
        assert(c * p < 0 && -(c * p) == (-c) * p && (-c) * p >= -c) by (nonlinear_arith)
            requires
                c < 0,
                p >= 1,
        ;
    }
}

/// `c * 10^k` at scale `s` is `c` at scale `s - k`.
proof fn lemma_shift(c: int, k: nat, s: nat)
    requires
        k <= s <= 56,
    ensures
        units_at(c * pow10(k), s) == units_at(c, (s - k) as nat),
{
    lemma_pow10_add(k, (56 - s) as nat);
    assert((k + (56 - s)) as nat == (56 - (s - k)) as nat);
    let p = pow10(k);
    let q = pow10((56 - s) as nat);
    assert((c * p) * q == c * (p * q)) by (nonlinear_arith);
}

/// A mantissa and the canonical form that `canonical` gives for it, with the
/// sign put back, have the same value.
proof fn lemma_canonical_units(m: int, s: nat, c: int, sc: nat)
    requires
        sc <= s <= 56,
        abs(c) * pow10((s - sc) as nat) == abs(m),
        m < 0 ==> c <= 0,
        m >= 0 ==> c >= 0,
    ensures
        units_at(m, s) == units_at(c, sc),
{
    let p = pow10((s - sc) as nat);
    if m < 0 {
        assert(m == c * p) by (nonlinear_arith)
            requires
                (-c) * p == -m,
        ;
    } else {
        assert(m == c * p);
    }
    lemma_shift(c, (s - sc) as nat, s);
}

/// Two values brought to the larger scale `s` add up there.
proof fn lemma_aligned_sum(ca: int, sa: nat, cb: int, sb: nat, s: nat)
    requires
        sa <= s,
        sb <= s,
        s <= 56,
    ensures
        units_at(ca, sa) + units_at(cb, sb) == units_at(ca * pow10((s - sa) as nat) + cb * pow10((s - sb) as nat), s),
{
    lemma_shift(ca, (s - sa) as nat, s);
    lemma_shift(cb, (s - sb) as nat, s);
    let x = ca * pow10((s - sa) as nat);
    let y = cb * pow10((s - sb) as nat);
    let q = pow10((56 - s) as nat);
    assert((x + y) * q == x * q + y * q) by (nonlinear_arith);
}

/// Where one operand, in canonical form, brought to the larger scale exceeds
/// the wide limit, the sum is held by no `Decimal`: its last digit at that
/// scale is the other operand's, which is not zero.
proof fn lemma_overflowing_sum(ca: int, sa: nat, pa: int, cb: int, sb: nat, s: nat)
    requires
        sa <= 28,
        sb <= 28,
        s == (if sa >= sb { sa } else { sb }),
        pa == pow10((s - sa) as nat),
        abs(ca) * pa > WIDE_LIMIT,
        abs(ca) <= MAX_MANTISSA,
        abs(cb) <= MAX_MANTISSA,
        sb == 0 || cb % 10 != 0,
    ensures
        !representable(units_at(ca, sa) + units_at(cb, sb)),
{
    lemma_aligned_sum(ca, sa, cb, sb, s);
    assert(pow10(0) == 1);
    if s == sa {
        assert((s - sa) as nat == 0);
        assert(pa == 1);
        assert(abs(ca) * pa == abs(ca)) by (nonlinear_arith)
            requires
                pa == 1,
        ;
        assert(false);
    }
    assert(s == sb && sb > 0);
    let k = (s - sa) as nat;
    assert(pow10(k) == 10 * pow10((k - 1) as nat));
    assert((s - sb) as nat == 0);
    assert(pow10((s - sb) as nat) == 1);
    let x = ca * pa;
    let q = ca * pow10((k - 1) as nat);
    assert(x == q * 10) by (nonlinear_arith)
        requires
            x == ca * pa,
            pa == 10 * pow10((k - 1) as nat),
            q == ca * pow10((k - 1) as nat),
    ;
    let t = x + cb;
    assert(t % 10 != 0);
    lemma_pow10_positive(k);
    lemma_abs_mul(ca, pa);
    assert(abs(t) > MAX_MANTISSA);
    assert(cb * 1 == cb);
    lemma_canonical_representable(t, s);
}

/// A value in canonical form is held by a `Decimal` exactly where its
/// mantissa fits.
pub proof fn lemma_canonical_representable(t: int, s0: nat)
    requires
        s0 <= 56,
        s0 == 0 || t % 10 != 0,
    ensures
        representable(units_at(t, s0)) <==> (abs(t) <= MAX_MANTISSA && s0 <= MAX_SCALE),
{
    if abs(t) <= MAX_MANTISSA && s0 <= MAX_SCALE {
        assert(units_at(t, s0) == units_at(t, s0));
    }
    if representable(units_at(t, s0)) {
        let (m, s) = choose|m: int, s: nat|
            s <= MAX_SCALE && abs(m) <= MAX_MANTISSA && units_at(t, s0) == #[trigger] units_at(m, s);
        if s >= s0 {
            let k = (s - s0) as nat;
            lemma_shift(t, k, s);
            let p = pow10((56 - s) as nat);
            let q = pow10(k);
            lemma_pow10_positive((56 - s) as nat);
            lemma_pow10_positive(k);
            assert(m == t * q) by (nonlinear_arith)
                requires
                    m * p == (t * q) * p,
                    p > 0,
            ;
            lemma_abs_mul(t, q as int);
        } else {
            let k = (s0 - s) as nat;
            lemma_shift(m, k, s0);
            let p = pow10((56 - s0) as nat);
            let q = pow10(k);
            lemma_pow10_positive((56 - s0) as nat);
            assert(t == m * q) by (nonlinear_arith)
                requires
                    t * p == (m * q) * p,
                    p > 0,
            ;
            assert(q == 10 * pow10((k - 1) as nat));
            let w = m * pow10((k - 1) as nat);
            assert(t == w * 10) by (nonlinear_arith)
                requires
                    t == m * q,
                    q == 10 * pow10((k - 1) as nat),
                    w == m * pow10((k - 1) as nat),
            ;
            assert(t % 10 == 0);
        }
    }
}

/// Every well-formed `Decimal` holds its own value.
pub proof fn lemma_wf_representable(d: Decimal)
    requires
        d.wf(),
    ensures
        representable(d.units()),
{
    assert(d.units() == units_at(d.mantissa as int, d.scale as nat));
}

/// Whether the product of the mantissas fits at the summed scale.
fn product_fits(a: &Decimal, b: &Decimal) -> (r: bool)
    requires
        a.wf(),
        b.wf(),
    ensures
        r == (exact_product(*a, *b) is Some),
{
    if a.mantissa == 0 || b.mantissa == 0 {
        return true;
    }
    if a.scale + b.scale > MAX_SCALE {
        return false;
    }
    let x = magnitude(a.mantissa);
    let y = magnitude(b.mantissa);
    proof {
        assert(abs(a.mantissa * b.mantissa) == x * y) by (nonlinear_arith)
            requires
                x == abs(a.mantissa as int),
                y == abs(b.mantissa as int),
        ;
    }
    if x > (MAX_MANTISSA as u128) / y {
        proof {
            lemma_div_bound_converse(x as int, y as int, MAX_MANTISSA as int);
        }
        false
    } else {
        proof {
            lemma_div_bound(x as int, y as int, MAX_MANTISSA as int);
        }
        true
    }
}

/// Whether some `Decimal` holds `a * b` exactly. The factors of ten are
/// taken out of `|a| * |b|` as twos and fives of the two mantissas, so the
/// full product is never formed.
fn product_representable(a: &Decimal, b: &Decimal) -> (r: bool)
    requires
        a.wf(),
        b.wf(),
    ensures
        r == representable(product_units(*a, *b)),
{
    if a.mantissa == 0 || b.mantissa == 0 {
        proof {
            lemma_product_units(*a, *b);
            lemma_wf_representable(exact_product(*a, *b)->Some_0);
        }
        return true;
    }
    let xa = magnitude(a.mantissa);
    let yb = magnitude(b.mantissa);
    let total: u32 = a.scale + b.scale;
    let mut x = xa;
    let mut y = yb;
    let mut k = total;
    proof {
        assert(pow10(0) == 1);
        assert((total - k) as nat == 0);
        assert(x * y * pow10((total - k) as nat) == xa * yb) by (nonlinear_arith)
            requires
                pow10((total - k) as nat) == 1,
                x == xa,
                y == yb,
        ;
    }
    while k > 0 && (x % 2 == 0 || y % 2 == 0) && (x % 5 == 0 || y % 5 == 0)
        invariant
            1 <= x <= xa,
            1 <= y <= yb,
            k <= total <= 56,
            x * y * pow10((total - k) as nat) == xa * yb,
        decreases k,
    {
        let ghost (x0, y0) = (x as int, y as int);
        if x % 10 == 0 {
            x = x / 10;
        } else if y % 10 == 0 {
            y = y / 10;
        } else if x % 2 == 0 && y % 5 == 0 {
            x = x / 2;
            y = y / 5;
        } else {
            x = x / 5;
            y = y / 2;
        }
        proof {
            assert(x * y * 10 == x0 * y0) by (nonlinear_arith)
                requires
                    (x == x0 / 10 && x0 % 10 == 0 && y == y0) || (y == y0 / 10 && y0 % 10 == 0 && x == x0)
                        || (x == x0 / 2 && x0 % 2 == 0 && y == y0 / 5 && y0 % 5 == 0) || (x == x0 / 5 && x0
                        % 5 == 0 && y == y0 / 2 && y0 % 2 == 0),
            ;
            let p = pow10((total - k) as nat);
            assert(pow10((total - k + 1) as nat) == 10 * p);
            assert(x * y * (10 * p) == (x * y * 10) * p) by (nonlinear_arith);
        }
        k = k - 1;
    }
    let ghost m: int = a.mantissa * b.mantissa;
    let ghost c: int = if m < 0 {
        -(x * y)
    } else {
        x * y
    };
    proof {
        lemma_abs_product(a.mantissa as int, b.mantissa as int);
        assert(x * y >= 1) by (nonlinear_arith)
            requires
                x >= 1,
                y >= 1,
        ;
        if k > 0 {
            lemma_no_ten(x as int, y as int);
        }
        lemma_canonical_units(m, total as nat, c, k as nat);
        lemma_canonical_representable(c, k as nat);
    }
    if k > MAX_SCALE {
        return false;
    }
    if x > (MAX_MANTISSA as u128) / y {
        proof {
            lemma_div_bound_converse(x as int, y as int, MAX_MANTISSA as int);
        }
        false
    } else {
        proof {
            lemma_div_bound(x as int, y as int, MAX_MANTISSA as int);
        }
        true
    }
}

proof fn lemma_abs_product(x: int, y: int)
    ensures
        abs(x * y) == abs(x) * abs(y),
        x * y < 0 <==> ((x < 0 && y > 0) || (x > 0 && y < 0)),
{
    if x >= 0 && y >= 0 {
        assert(x * y >= 0) by (nonlinear_arith)
            requires
                x >= 0,
                y >= 0,
        ;
    } else if x < 0 && y < 0 {
        assert(x * y > 0 && x * y == (-x) * (-y)) by (nonlinear_arith)
            requires
                x < 0,
                y < 0,
        ;
    } else if x < 0 {
        assert(x * y <= 0 && -(x * y) == (-x) * y && (y > 0 ==> x * y < 0)) by (nonlinear_arith)
            requires
                x < 0,
                y >= 0,
        ;
    } else {
        assert(x * y <= 0 && -(x * y) == x * (-y) && (x > 0 ==> x * y < 0)) by (nonlinear_arith)
            requires
                x >= 0,
                y < 0,
        ;
    }
}

/// For a prime `p` (two or five), `p` divides `x * y` only where it divides
/// `x` or `y`.
proof fn lemma_prime_factor(x: int, y: int, p: int)
    requires
        p == 2 || p == 5,
        x % p != 0,
        y % p != 0,
    ensures
        (x * y) % p != 0,
{
    vstd::arithmetic::div_mod::lemma_mul_mod_noop_general(x, y, p);
    let a = x % p;
    let b = y % p;
    assert(1 <= a < p && 1 <= b < p);
    if a == 1 {
        assert(a * b == b) by (nonlinear_arith)
            requires
                a == 1,
        ;
    } else if a == 2 {
        assert(a * b == 2 * b) by (nonlinear_arith)
            requires
                a == 2,
        ;
    } else if a == 3 {
        assert(a * b == 3 * b) by (nonlinear_arith)
            requires
                a == 3,
        ;
    } else {
        assert(a == 4);
        assert(a * b == 4 * b) by (nonlinear_arith)
            requires
                a == 4,
        ;
    }
    assert((a * b) % p != 0);
}

/// Where neither mantissa gives the product a factor of ten, its last digit
/// is not zero.
proof fn lemma_no_ten(x: int, y: int)
    requires
        !((x % 2 == 0 || y % 2 == 0) && (x % 5 == 0 || y % 5 == 0)),
    ensures
        (x * y) % 10 != 0,
{
    if x % 2 != 0 && y % 2 != 0 {
        lemma_prime_factor(x, y, 2);
    } else {
        lemma_prime_factor(x, y, 5);
    }
}

/// The integer part of a `Decimal` has at most `29 - scale` digits, so
/// its text with all or two fractional digits fits the text buffer.
pub proof fn lemma_int_digits_bound(d: Decimal)
    requires
        d.wf(),
    ensures
        int_digits(d.mantissa as int, d.scale as nat) <= 29 - d.scale,
        fits_text_buffer(d.mantissa as int, d.scale as nat, d.scale as nat),
        fits_text_buffer(d.mantissa as int, d.scale as nat, 2),
{
    let s = d.scale as nat;
    let k = (29 - s) as nat;
    let a = abs(d.mantissa as int);
    crate::text::lemma_pow10_29();
    lemma_pow10_add(k, s);
    lemma_pow10_positive(s);
    let p = pow10(s);
    let q = pow10(k);
    assert(a < q * p);
    assert(a / p < q) by (nonlinear_arith)
        requires
            a < q * p,
            p > 0,
            a >= 0,
    ;
    crate::text::lemma_digits_len(a / p, k);
}

/// `|m|` as an unsigned number.
fn magnitude(m: i128) -> (r: u128)
    requires
        m > i128::MIN,
    ensures
        r as int == abs(m as int),
        m != 0 ==> r > 0,
{
    if m < 0 {
        (-m) as u128
    } else {
        m as u128
    }
}

/// The mantissa of `d` at the scale `s`, where it fits.
fn align(d: &Decimal, s: u32) -> (r: Option<i128>)
    requires
        d.wf(),
        d.scale <= s <= MAX_SCALE,
    ensures
        r is Some <==> abs(aligned(*d, s as nat)) <= MAX_MANTISSA,
        r matches Some(x) ==> x == aligned(*d, s as nat),
{
    let p = pow10_u128(s - d.scale);
    proof {
        lemma_pow10_positive((s - d.scale) as nat);
        crate::text::lemma_pow10_monotone((s - d.scale) as nat, 28);
        crate::text::lemma_pow10_28();
    }
    let x = magnitude(d.mantissa);
    if x > (MAX_MANTISSA as u128) / p {
        proof {
            lemma_div_bound_converse(x as int, p as int, MAX_MANTISSA as int);
            assert(abs(d.mantissa * p) == x * p) by (nonlinear_arith)
                requires
                    x == abs(d.mantissa as int),
                    p > 0,
            ;
        }
        None
    } else {
        proof {
            lemma_div_bound(x as int, p as int, MAX_MANTISSA as int);
            assert(abs(d.mantissa * p) == x * p) by (nonlinear_arith)
                requires
                    x == abs(d.mantissa as int),
                    p > 0,
            ;
            assert(-MAX_MANTISSA <= d.mantissa * p <= MAX_MANTISSA);
        }
        Some(d.mantissa * (p as i128))
    }
}

proof fn lemma_div_bound(x: int, y: int, m: int)
    requires
        y > 0,
        0 <= x <= m / y,
        m >= 0,
    ensures
        x * y <= m,
{
    assert(x * y <= (m / y) * y) by (nonlinear_arith)
        requires
            0 <= x <= m / y,
            y > 0,
    ;
    assert((m / y) * y <= m) by (nonlinear_arith)
        requires
            y > 0,
            m >= 0,
    ;
}

proof fn lemma_div_bound_converse(x: int, y: int, m: int)
    requires
        y > 0,
        x > m / y,
        m >= 0,
    ensures
        x * y > m,
{
    assert(x >= m / y + 1);
    assert(x * y >= (m / y + 1) * y) by (nonlinear_arith)
        requires
            x >= m / y + 1,
            y > 0,
    ;
    assert((m / y + 1) * y > m) by (nonlinear_arith)
        requires
            y > 0,
            m >= 0,
    ;
}

pub proof fn lemma_product_units(a: Decimal, b: Decimal)
    requires
        a.wf(),
        b.wf(),
    ensures
        exact_product(a, b) matches Some(d) ==> d.wf() && d.units() == product_units(a, b),
{
    if a.mantissa == 0 || b.mantissa == 0 {
        assert(a.mantissa * b.mantissa == 0) by (nonlinear_arith)
            requires
                a.mantissa == 0 || b.mantissa == 0,
        ;
        assert(product_units(a, b) == 0);
        let d = exact_product(a, b)->Some_0;
        let p = pow10(56);
        assert(d.mantissa * p == 0) by (nonlinear_arith)
            requires
                d.mantissa == 0,
        ;
    } else if a.scale + b.scale <= MAX_SCALE && abs(a.mantissa * b.mantissa) <= MAX_MANTISSA {
        let d = exact_product(a, b)->Some_0;
        assert(d.mantissa == a.mantissa * b.mantissa);
        assert(d.scale == a.scale + b.scale);
        assert(d.wf());
        assert(d.units() == product_units(a, b));
    }
}

pub proof fn lemma_sum_units(a: Decimal, b: Decimal)
    requires
        a.wf(),
        b.wf(),
    ensures
        exact_sum(a, b) matches Some(d) ==> d.wf() && d.units() == a.units() + b.units(),
{
    if a.mantissa != 0 && b.mantissa != 0 {
        let s = max_scale(a, b);
        let ka = (s - a.scale) as nat;
        let kb = (s - b.scale) as nat;
        let k = (56 - s) as nat;
        lemma_pow10_add(ka, k);
        lemma_pow10_add(kb, k);
        assert(ka + k == 56 - a.scale);
        assert(kb + k == 56 - b.scale);
        let x = aligned(a, s);
        let y = aligned(b, s);
        assert((x + y) * pow10(k) == a.mantissa * (pow10(ka) * pow10(k)) + b.mantissa * (pow10(kb) * pow10(k)))
            by (nonlinear_arith)
            requires
                x == a.mantissa * pow10(ka),
                y == b.mantissa * pow10(kb),
        ;
    }
}

/// Relies on `rust_decimal::Decimal::from_str_exact`: the parsed value, or an
/// error for text that is no decimal literal or needs rounding.
#[verifier::external_body]
fn parse_exact(s: &str) -> (r: Option<Decimal>)
    ensures
        r is Some <==> parsed_decimal(s@) is Some,
        r matches Some(d) ==> d.wf() && parsed_decimal(s@) == Some((d.mantissa as int, d.scale as int)),
{
    match rust_decimal::Decimal::from_str_exact(s) {
        Ok(d) => Some(Decimal { mantissa: d.mantissa(), scale: d.scale() }),
        Err(_) => None,
    }
}

/// Relies on `Display` of `rust_decimal::Decimal` with a precision: the digits
/// of the mantissa with the point placed by the scale, the fraction cut or
/// padded with zeros to the precision (past 28 digits by appended zeros), a
/// minus sign for a negative value.
#[verifier::external_body]
fn format_fixed(d: &Decimal, prec: usize) -> (r: String)
    requires
        d.wf(),
        fits_text_buffer(d.mantissa as int, d.scale as nat, prec as nat),
    ensures
        r@ == fixed_text(d.mantissa as int, d.scale as nat, prec as nat),
{
    format!("{:.*}", prec, rust_decimal::Decimal::from_i128_with_scale(d.mantissa, d.scale))
}

/// Relies on `rust_decimal::Decimal::checked_mul`: the product of the mantissas
/// at the summed scale whenever that fits, zero at scale 0 for a zero factor.
/// Where it does not fit, the scale is lowered only as far as 28 and the 96
/// bits need (`rescale` in `ops/common.rs`), so a product that some `Decimal`
/// holds loses no digit and keeps the largest scale that holds it.
#[verifier::external_body]
fn raw_mul(a: &Decimal, b: &Decimal) -> (r: Option<Decimal>)
    requires
        a.wf(),
        b.wf(),
    ensures
        r matches Some(d) ==> d.wf(),
        exact_product(*a, *b) is Some ==> r == exact_product(*a, *b),
        representable(product_units(*a, *b)) ==> r == mul_result(*a, *b),
        r matches Some(d) ==> (representable(product_units(*a, *b)) ==> d.units() == product_units(*a, *b)),
{
    let x = rust_decimal::Decimal::from_i128_with_scale(a.mantissa, a.scale);
    let y = rust_decimal::Decimal::from_i128_with_scale(b.mantissa, b.scale);
    match x.checked_mul(y) {
        Some(p) => Some(Decimal { mantissa: p.mantissa(), scale: p.scale() }),
        None => None,
    }
}

/// Relies on `rust_decimal::Decimal::checked_add`: a zero operand returns the
/// other one; otherwise the operands are brought to the larger scale and added,
/// kept at that scale whenever the sum fits. Where it does not, the scale is
/// lowered only as far as the 96 bits need, so a sum that some `Decimal`
/// holds loses no digit and keeps the largest scale that holds it.
#[verifier::external_body]
fn raw_add(a: &Decimal, b: &Decimal) -> (r: Option<Decimal>)
    requires
        a.wf(),
        b.wf(),
    ensures
        r matches Some(d) ==> d.wf(),
        exact_sum(*a, *b) is Some ==> r == exact_sum(*a, *b),
        representable(a.units() + b.units()) ==> r == add_result(*a, *b),
        r matches Some(d) ==> (representable(a.units() + b.units()) ==> d.units() == a.units() + b.units()),
{
    let x = rust_decimal::Decimal::from_i128_with_scale(a.mantissa, a.scale);
    let y = rust_decimal::Decimal::from_i128_with_scale(b.mantissa, b.scale);
    match x.checked_add(y) {
        Some(p) => Some(Decimal { mantissa: p.mantissa(), scale: p.scale() }),
        None => None,
    }
}

} // verus!
