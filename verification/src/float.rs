//! Binary floating-point numbers of the interchange formats of IEEE 754, held
//! as their bits.
//!
//! A format is given by the width `m` of its fraction: 52 for double precision
//! and 23 for single precision. Values are measured in units of the smallest
//! subnormal number of the format, so that each finite one is an integer.

use vstd::arithmetic::power2::*;
use vstd::prelude::*;

use crate::order::Order;

verus! {

pub const DOUBLE: u64 = 52;

pub const SINGLE: u64 = 23;

pub open spec fn is_format(m: u64) -> bool {
    m == DOUBLE || m == SINGLE
}

/// The weight of the sign bit.
pub open spec fn sign_weight(m: u64) -> int {
    if m == DOUBLE {
        0x8000_0000_0000_0000
    } else {
        0x8000_0000
    }
}

/// The weight of the lowest exponent bit.
pub open spec fn exponent_weight(m: u64) -> int {
    if m == DOUBLE {
        0x10_0000_0000_0000
    } else {
        0x80_0000
    }
}

pub open spec fn exponent_limit(m: u64) -> int {
    if m == DOUBLE {
        2047
    } else {
        255
    }
}

pub open spec fn bias(m: u64) -> int {
    if m == DOUBLE {
        1023
    } else {
        127
    }
}

/// The bits fit the format.
pub open spec fn fits(bits: u64, m: u64) -> bool {
    is_format(m) && bits < 2 * sign_weight(m)
}

pub open spec fn negative(bits: u64, m: u64) -> bool {
    bits >= sign_weight(m)
}

/// The bits without the sign.
pub open spec fn magnitude(bits: u64, m: u64) -> int {
    bits as int % sign_weight(m)
}

pub open spec fn exponent(bits: u64, m: u64) -> int {
    magnitude(bits, m) / exponent_weight(m)
}

pub open spec fn fraction(bits: u64, m: u64) -> int {
    magnitude(bits, m) % exponent_weight(m)
}

pub open spec fn is_nan(bits: u64, m: u64) -> bool {
    exponent(bits, m) == exponent_limit(m) && fraction(bits, m) != 0
}

pub open spec fn is_finite(bits: u64, m: u64) -> bool {
    exponent(bits, m) != exponent_limit(m)
}

/// The significand as an integer, with the hidden bit of a normal number.
pub open spec fn significand(bits: u64, m: u64) -> int {
    if exponent(bits, m) == 0 {
        fraction(bits, m)
    } else {
        fraction(bits, m) + exponent_weight(m)
    }
}

/// The power of two, in units of the smallest subnormal number, that the
/// significand is multiplied with.
pub open spec fn scale(bits: u64, m: u64) -> int {
    if exponent(bits, m) == 0 {
        0
    } else {
        exponent(bits, m) - 1
    }
}

/// The absolute value of a finite number, in units of the smallest subnormal.
pub open spec fn absolute(bits: u64, m: u64) -> int {
    significand(bits, m) * pow2(scale(bits, m) as nat)
}

/// The value of a finite number, in units of the smallest subnormal.
pub open spec fn value(bits: u64, m: u64) -> int {
    if negative(bits, m) {
        -absolute(bits, m)
    } else {
        absolute(bits, m)
    }
}

// ---------------------------------------------------------------------------
// Order
// ---------------------------------------------------------------------------

/// The place of a number on the line: both zeros share one.
pub open spec fn place(bits: u64, m: u64) -> int {
    if negative(bits, m) {
        -magnitude(bits, m)
    } else {
        magnitude(bits, m)
    }
}

/// The order of two numbers, unless one is not a number.
pub open spec fn number_order(a: u64, b: u64, m: u64) -> Option<Order> {
    if is_nan(a, m) || is_nan(b, m) {
        None
    } else {
        Some(crate::order::int_order(place(a, m), place(b, m)))
    }
}

/// The rank in the total order: negative numbers with their sign bit come first,
/// the largest magnitude foremost.
pub open spec fn rank(bits: u64, m: u64) -> int {
    if negative(bits, m) {
        -magnitude(bits, m) - 1
    } else {
        magnitude(bits, m)
    }
}

pub open spec fn total_order(a: u64, b: u64, m: u64) -> Order {
    crate::order::int_order(rank(a, m), rank(b, m))
}

/// The total order tells any two bit patterns apart.
pub proof fn rank_is_injective(a: u64, b: u64, m: u64)
    requires
        fits(a, m),
        fits(b, m),
    ensures
        rank(a, m) == rank(b, m) <==> a == b,
{
}

proof fn lemma_parts(bits: u64, m: u64)
    requires
        fits(bits, m),
    ensures
        0 <= magnitude(bits, m) < sign_weight(m),
        0 <= exponent(bits, m) <= exponent_limit(m),
        0 <= fraction(bits, m) < exponent_weight(m),
        magnitude(bits, m) == exponent(bits, m) * exponent_weight(m) + fraction(bits, m),
        exponent_weight(m) == pow2(m as nat),
        bits as int == magnitude(bits, m) + (if negative(bits, m) {
            sign_weight(m)
        } else {
            0
        }),
{
    lemma2_to64();
    lemma2_to64_rest();
    let w = exponent_weight(m);
    vstd::arithmetic::div_mod::lemma_fundamental_div_mod(magnitude(bits, m), w);
    vstd::arithmetic::mul::lemma_mul_is_commutative(w, exponent(bits, m));
    let h = sign_weight(m);
    if negative(bits, m) {
        vstd::arithmetic::div_mod::lemma_fundamental_div_mod_converse(bits as int, h, 1, bits - h);
    } else {
        vstd::arithmetic::div_mod::lemma_small_mod(bits as nat, h as nat);
    }
    assert(0 <= exponent(bits, m) <= exponent_limit(m)) by (nonlinear_arith)
        requires
            0 <= magnitude(bits, m) < h,
            magnitude(bits, m) == exponent(bits, m) * w + fraction(bits, m),
            0 <= fraction(bits, m) < w,
            h == (exponent_limit(m) + 1) * w,
            w > 0,
    ;
}

proof fn lemma_magnitude_orders(a: u64, b: u64, m: u64)
    requires
        fits(a, m),
        fits(b, m),
        magnitude(a, m) < magnitude(b, m),
    ensures
        absolute(a, m) < absolute(b, m),
{
    lemma_parts(a, m);
    lemma_parts(b, m);
    let w = exponent_weight(m);
    let ea = exponent(a, m);
    let eb = exponent(b, m);
    let sa = scale(a, m) as nat;
    let sb = scale(b, m) as nat;
    lemma_pow2_pos(sa);
    lemma_pow2_pos(sb);
    assert(ea <= eb);
    if sa == sb {
        assert(significand(a, m) < significand(b, m));
        assert(significand(a, m) * pow2(sa) < significand(b, m) * pow2(sa)) by (nonlinear_arith)
            requires
                significand(a, m) < significand(b, m),
                pow2(sa) > 0,
        ;
    } else {
        assert(sa < sb);
        assert(significand(a, m) < 2 * w);
        assert(significand(b, m) >= w);
        lemma_pow2_adds(sa, 1);
        lemma2_to64();
        if sa + 1 < sb {
            lemma_pow2_strictly_increases(sa + 1, sb);
        }
        assert(significand(a, m) * pow2(sa) < 2 * w * pow2(sa)) by (nonlinear_arith)
            requires
                significand(a, m) < 2 * w,
                pow2(sa) > 0,
        ;
        assert(2 * w * pow2(sa) == w * pow2(sa + 1)) by (nonlinear_arith)
            requires
                pow2(sa + 1) == pow2(sa) * 2,
        ;
        assert(w * pow2(sa + 1) <= significand(b, m) * pow2(sb)) by (nonlinear_arith)
            requires
                0 < w <= significand(b, m),
                0 < pow2(sa + 1) <= pow2(sb),
        ;
    }
}

/// On finite numbers the order is the order of the values.
pub proof fn order_is_by_value(a: u64, b: u64, m: u64)
    requires
        fits(a, m),
        fits(b, m),
        is_finite(a, m),
        is_finite(b, m),
    ensures
        number_order(a, b, m) == Some(crate::order::int_order(value(a, m), value(b, m))),
{
    lemma_parts(a, m);
    lemma_parts(b, m);
    lemma_absolute_sign(a, m);
    lemma_absolute_sign(b, m);
    if magnitude(a, m) < magnitude(b, m) {
        lemma_magnitude_orders(a, b, m);
    } else if magnitude(b, m) < magnitude(a, m) {
        lemma_magnitude_orders(b, a, m);
    }
}

proof fn lemma_absolute_sign(a: u64, m: u64)
    requires
        fits(a, m),
    ensures
        absolute(a, m) >= 0,
        absolute(a, m) == 0 <==> magnitude(a, m) == 0,
{
    lemma_parts(a, m);
    lemma_pow2_pos(scale(a, m) as nat);
    assert(absolute(a, m) >= 0 && (absolute(a, m) == 0 <==> significand(a, m) == 0))
        by (nonlinear_arith)
        requires
            absolute(a, m) == significand(a, m) * pow2(scale(a, m) as nat),
            significand(a, m) >= 0,
            pow2(scale(a, m) as nat) > 0,
    ;
}

struct Parts {
    negative: bool,
    magnitude: u64,
    exponent: u64,
    fraction: u64,
}

fn split(bits: u64, m: u64) -> (r: Parts)
    requires
        fits(bits, m),
    ensures
        r.negative == negative(bits, m),
        r.magnitude == magnitude(bits, m),
        r.exponent == exponent(bits, m),
        r.fraction == fraction(bits, m),
{
    let sign: u64 = if m == DOUBLE {
        0x8000_0000_0000_0000
    } else {
        0x8000_0000
    };
    let unit: u64 = if m == DOUBLE {
        0x10_0000_0000_0000
    } else {
        0x80_0000
    };
    let magnitude: u64 = bits % sign;
    Parts {
        negative: bits >= sign,
        magnitude,
        exponent: magnitude / unit,
        fraction: magnitude % unit,
    }
}

fn limit_of(m: u64) -> (r: u64)
    requires
        is_format(m),
    ensures
        r == exponent_limit(m),
{
    if m == DOUBLE {
        2047
    } else {
        255
    }
}

/// Compares two numbers; `None` where one is not a number.
pub fn order_numbers(a: u64, b: u64, m: u64) -> (r: Option<Order>)
    requires
        fits(a, m),
        fits(b, m),
    ensures
        r == number_order(a, b, m),
{
    let x = split(a, m);
    let y = split(b, m);
    let limit: u64 = limit_of(m);
    if (x.exponent == limit && x.fraction != 0) || (y.exponent == limit && y.fraction != 0) {
        return None;
    }
    let p: i128 = if x.negative {
        -(x.magnitude as i128)
    } else {
        x.magnitude as i128
    };
    let q: i128 = if y.negative {
        -(y.magnitude as i128)
    } else {
        y.magnitude as i128
    };
    if p < q {
        Some(Order::Less)
    } else if p == q {
        Some(Order::Equal)
    } else {
        Some(Order::Greater)
    }
}

/// Compares two bit patterns by the total order.
pub fn order_total(a: u64, b: u64, m: u64) -> (r: Order)
    requires
        fits(a, m),
        fits(b, m),
    ensures
        r == total_order(a, b, m),
{
    let x = split(a, m);
    let y = split(b, m);
    let p: i128 = if x.negative {
        -(x.magnitude as i128) - 1
    } else {
        x.magnitude as i128
    };
    let q: i128 = if y.negative {
        -(y.magnitude as i128) - 1
    } else {
        y.magnitude as i128
    };
    if p < q {
        Order::Less
    } else if p == q {
        Order::Equal
    } else {
        Order::Greater
    }
}

pub fn not_a_number(bits: u64, m: u64) -> (r: bool)
    requires
        fits(bits, m),
    ensures
        r == is_nan(bits, m),
{
    let x = split(bits, m);
    x.exponent == limit_of(m) && x.fraction != 0
}

/// The double-precision number of the other sign.
pub open spec fn negated(bits: u64) -> u64 {
    if bits < 0x8000_0000_0000_0000 {
        (bits + 0x8000_0000_0000_0000) as u64
    } else {
        (bits - 0x8000_0000_0000_0000) as u64
    }
}

/// The double-precision number of the other sign.
pub fn negate(bits: u64) -> (r: u64)
    ensures
        r == negated(bits),
{
    if bits < 0x8000_0000_0000_0000 {
        bits + 0x8000_0000_0000_0000
    } else {
        bits - 0x8000_0000_0000_0000
    }
}

// ---------------------------------------------------------------------------
// Nearness
// ---------------------------------------------------------------------------

/// The distance from which on a difference rounds to the machine epsilon: half a
/// unit in the last place below it.
pub open spec fn nearness(m: u64) -> int {
    pow2((bias(m) - 1) as nat) - pow2((bias(m) - m - 3) as nat)
}

/// The rounded difference of the two numbers is below the machine epsilon, the
/// distance from one to the next larger number.
pub open spec fn near(a: u64, b: u64, m: u64) -> bool {
    &&& is_finite(a, m)
    &&& is_finite(b, m)
    &&& -nearness(m) < value(a, m) - value(b, m) < nearness(m)
}

proof fn lemma_pow2_126()
    ensures
        pow2(126) == 0x4000_0000_0000_0000_0000_0000_0000_0000int,
{
    lemma2_to64();
    lemma2_to64_rest();
    lemma_pow2_adds(63, 63);
}

fn power(k: u64) -> (r: u128)
    requires
        k < 127,
    ensures
        r == pow2(k as nat),
{
    let mut r: u128 = 1;
    let mut i: u64 = 0;
    proof {
        lemma2_to64();
    }
    while i < k
        invariant
            i <= k < 127,
            r == pow2(i as nat),
        decreases k - i,
    {
        proof {
            lemma_pow2_126();
            lemma_pow2_unfold((i + 1) as nat);
            if i + 1 < 126 {
                lemma_pow2_strictly_increases((i + 1) as nat, 126);
            }
        }
        r = r * 2;
        i = i + 1;
    }
    r
}

proof fn lemma_pow2_le(a: nat, b: nat)
    requires
        a <= b,
    ensures
        0 < pow2(a) <= pow2(b),
{
    lemma_pow2_pos(a);
    if a < b {
        lemma_pow2_strictly_increases(a, b);
    }
}

/// `nearness` as a multiple of its last place.
proof fn lemma_nearness(m: u64, k: nat)
    requires
        is_format(m),
        k == bias(m) - m - 3,
    ensures
        nearness(m) == (pow2((m + 2) as nat) - 1) * pow2(k),
{
    lemma_pow2_adds((m + 2) as nat, k);
    assert(pow2((m + 2) as nat) * pow2(k) - pow2(k) == (pow2((m + 2) as nat) - 1) * pow2(k))
        by (nonlinear_arith);
}

/// Two small numbers are near each other.
proof fn lemma_small(x: int, p: nat, y: int, q: nat, m: u64, k: nat)
    requires
        is_format(m),
        k == bias(m) - m - 3,
        0 <= x < 2 * pow2(m as nat),
        0 <= y < 2 * pow2(m as nat),
        q <= p <= k,
    ensures
        0 <= x * pow2(p),
        0 <= y * pow2(q),
        x * pow2(p) + y * pow2(q) < nearness(m),
{
    let w = pow2(m as nat) as int;
    let u = pow2(k) as int;
    lemma_pow2_le(p, k);
    lemma_pow2_le(q, k);
    lemma_nearness(m, k);
    lemma2_to64();
    lemma_pow2_adds(m as nat, 2);
    assert(pow2((m + 2) as nat) == 4 * w);
    let a = pow2(p) as int;
    let b = pow2(q) as int;
    assert(0 <= x * a <= (2 * w - 1) * u) by (nonlinear_arith)
        requires
            0 <= x <= 2 * w - 1,
            0 < a <= u,
    ;
    assert(0 <= y * b <= (2 * w - 1) * u) by (nonlinear_arith)
        requires
            0 <= y <= 2 * w - 1,
            0 < b <= u,
    ;
    assert((2 * w - 1) * u + (2 * w - 1) * u < (4 * w - 1) * u) by (nonlinear_arith)
        requires
            u > 0,
    ;
}

/// Two different numbers, one of them large, are not near each other.
proof fn lemma_large(x: int, p: nat, y: int, q: nat, m: u64, k: nat)
    requires
        is_format(m),
        k == bias(m) - m - 3,
        pow2(m as nat) <= x < 2 * pow2(m as nat),
        0 <= y < 2 * pow2(m as nat),
        q <= p,
        p >= k + m + 3,
        x != y || p != q,
    ensures
        x * pow2(p) - y * pow2(q) >= nearness(m) || y * pow2(q) - x * pow2(p) >= nearness(m),
        x * pow2(p) + y * pow2(q) >= nearness(m),
{
    let w = pow2(m as nat) as int;
    let t = pow2((k + m + 2) as nat) as int;
    lemma_pow2_pos(m as nat);
    lemma_pow2_pos(k);
    lemma_pow2_pos(q);
    lemma_pow2_le((k + m + 2) as nat, (p - 1) as nat);
    lemma_pow2_unfold(p);
    let h = pow2((p - 1) as nat) as int;
    let a = pow2(p) as int;
    let b = pow2(q) as int;
    lemma_nearness(m, k);
    lemma_pow2_adds((m + 2) as nat, k);
    assert((m + 2) as nat + k == (k + m + 2) as nat);
    assert(nearness(m) < t) by (nonlinear_arith)
        requires
            nearness(m) == (pow2((m + 2) as nat) - 1) * pow2(k),
            t == pow2((m + 2) as nat) * pow2(k),
            pow2(k) > 0,
    ;
    assert(x * a >= a && y * b >= 0) by (nonlinear_arith)
        requires
            x >= 1,
            y >= 0,
            a > 0,
            b > 0,
    ;
    if q == p {
        if x > y {
            assert(x * a - y * a >= a) by (nonlinear_arith)
                requires
                    x >= y + 1,
                    a > 0,
            ;
        } else {
            assert(y * a - x * a >= a) by (nonlinear_arith)
                requires
                    y >= x + 1,
                    a > 0,
            ;
        }
    } else {
        lemma_pow2_le(q, (p - 1) as nat);
        assert(x * a - y * b >= h) by (nonlinear_arith)
            requires
                w <= x,
                0 <= y <= 2 * w - 1,
                a == 2 * h,
                0 < b <= h,
        ;
    }
}

/// In the middle range both numbers are compared in units of `2^k`.
proof fn lemma_middle(x: int, p: nat, y: int, q: nat, m: u64, k: nat, xs: int, ys: int, rest: bool)
    requires
        is_format(m),
        k == bias(m) - m - 3,
        pow2(m as nat) <= x < 2 * pow2(m as nat),
        0 <= y < 2 * pow2(m as nat),
        q <= p,
        k < p,
        xs == x * pow2((p - k) as nat),
        q >= k ==> ys == y * pow2((q - k) as nat) && !rest,
        q < k ==> ys == y / pow2((k - q) as nat) as int && rest == (y % pow2((k - q) as nat) as int
            != 0),
    ensures
        x * pow2(p) == xs * pow2(k),
        !rest ==> y * pow2(q) == ys * pow2(k),
        rest ==> ys * pow2(k) < y * pow2(q) < (ys + 1) * pow2(k),
        ys >= 0,
        xs >= 2 * pow2(m as nat),
        rest ==> xs > ys,
{
    let u = pow2(k) as int;
    lemma_pow2_pos(k);
    lemma_pow2_adds((p - k) as nat, k);
    let c = pow2((p - k) as nat) as int;
    lemma2_to64();
    lemma_pow2_le(1, (p - k) as nat);
    assert(x * pow2(p) == xs * u) by (nonlinear_arith)
        requires
            pow2(p) == c * u,
            xs == x * c,
    ;
    assert(xs >= 2 * pow2(m as nat)) by (nonlinear_arith)
        requires
            xs == x * c,
            c >= 2,
            x >= pow2(m as nat),
    ;
    if q >= k {
        let d = pow2((q - k) as nat) as int;
        lemma_pow2_adds((q - k) as nat, k);
        lemma_pow2_pos((q - k) as nat);
        assert(y * pow2(q) == ys * u && ys >= 0) by (nonlinear_arith)
            requires
                pow2(q) == d * u,
                ys == y * d,
                y >= 0,
                d > 0,
        ;
    } else {
        let d = pow2((k - q) as nat) as int;
        let e = pow2(q) as int;
        lemma_pow2_adds((k - q) as nat, q);
        lemma_pow2_pos((k - q) as nat);
        lemma_pow2_pos(q);
        let r = y % d;
        vstd::arithmetic::div_mod::lemma_fundamental_div_mod(y, d);
        assert(0 <= r < d);
        assert(ys >= 0 && ys <= y) by (nonlinear_arith)
            requires
                ys == y / d,
                y >= 0,
                d > 0,
        ;
        assert(y * e == ys * u + r * e) by (nonlinear_arith)
            requires
                y == d * ys + r,
                u == d * e,
        ;
        assert(0 <= r * e < u && (r > 0 ==> r * e > 0)) by (nonlinear_arith)
            requires
                0 <= r < d,
                u == d * e,
                e > 0,
        ;
        assert((ys + 1) * u == ys * u + u) by (nonlinear_arith);
        if !rest {
            assert(r * e == 0) by (nonlinear_arith)
                requires
                    r == 0,
            ;
        }
    }
}

/// The distance of `x * 2^p` and `y * 2^q`, or their sum where the signs are
/// opposite, is below `nearness`.
spec fn within(x: int, p: nat, y: int, q: nat, m: u64, opposite: bool) -> bool {
    if opposite {
        x * pow2(p) + y * pow2(q) < nearness(m)
    } else {
        -nearness(m) < x * pow2(p) - y * pow2(q) < nearness(m)
    }
}

proof fn lemma_nearness_positive(m: u64, k: nat)
    requires
        is_format(m),
        k == bias(m) - m - 3,
    ensures
        nearness(m) > 0,
{
    lemma_nearness(m, k);
    lemma_pow2_pos(k);
    lemma2_to64();
    lemma_pow2_le(2, (m + 2) as nat);
    assert((pow2((m + 2) as nat) - 1) * pow2(k) > 0) by (nonlinear_arith)
        requires
            pow2((m + 2) as nat) > 1,
            pow2(k) > 0,
    ;
}

/// A significand times a power of two of at most `m + 2` fits.
fn scaled_up(x: u64, k: u64, m: u64) -> (r: u128)
    requires
        is_format(m),
        x < 2 * pow2(m as nat),
        k <= m + 2,
    ensures
        r == x * pow2(k as nat),
        r < 0x1000_0000_0000_0000_0000_0000_0000u128,
{
    proof {
        lemma2_to64();
        lemma2_to64_rest();
        lemma_pow2_le(k as nat, (m + 2) as nat);
        assert(x * pow2(k as nat) < 0x20_0000_0000_0000 * 0x40_0000_0000_0000) by (nonlinear_arith)
            requires
                0 <= x < 0x20_0000_0000_0000,
                0 < pow2(k as nat) <= 0x40_0000_0000_0000,
        ;
    }
    (x as u128) * power(k)
}

/// The quotient by a power of two, and whether a rest is left.
fn scaled_down(y: u64, k: u64) -> (r: (u128, bool))
    ensures
        r.0 == y as int / pow2(k as nat) as int,
        r.1 == (y as int % pow2(k as nat) as int != 0),
        r.0 <= y,
{
    proof {
        lemma_pow2_pos(k as nat);
    }
    if k < 64 {
        let d: u128 = power(k);
        let quotient: u128 = (y as u128) / d;
        let rest: bool = (y as u128) % d != 0;
        assert(quotient <= y) by (nonlinear_arith)
            requires
                quotient == y as int / d as int,
                d > 0,
        ;
        (quotient, rest)
    } else {
        proof {
            lemma2_to64();
            lemma2_to64_rest();
            lemma_pow2_le(64, k as nat);
            vstd::arithmetic::div_mod::lemma_small_mod(y as nat, pow2(k as nat));
            vstd::arithmetic::div_mod::lemma_basic_div(y as int, pow2(k as nat) as int);
        }
        (0, y != 0)
    }
}

fn middle_within(x: u64, p: u64, y: u64, q: u64, m: u64, opposite: bool) -> (r: bool)
    requires
        is_format(m),
        pow2(m as nat) <= x < 2 * pow2(m as nat),
        y < 2 * pow2(m as nat),
        q <= p,
        bias(m) - m - 3 < p < bias(m),
    ensures
        r == within(x as int, p as nat, y as int, q as nat, m, opposite),
{
    let k: u64 = if m == DOUBLE {
        968
    } else {
        101
    };
    let xs: u128 = scaled_up(x, p - k, m);
    let (ys, rest): (u128, bool) = if q >= k {
        (scaled_up(y, q - k, m), false)
    } else {
        scaled_down(y, k - q)
    };
    let bound: u128 = if m == DOUBLE {
        0x3f_ffff_ffff_ffff
    } else {
        0x1ff_ffff
    };
    proof {
        lemma_middle(
            x as int,
            p as nat,
            y as int,
            q as nat,
            m,
            k as nat,
            xs as int,
            ys as int,
            rest,
        );
        lemma_nearness(m, k as nat);
        lemma_nearness_positive(m, k as nat);
        lemma_pow2_pos(k as nat);
        lemma2_to64();
        lemma2_to64_rest();
        assert(bound == pow2((m + 2) as nat) - 1);
        lemma_compare_multiples(
            xs as int,
            ys as int,
            bound as int,
            pow2(k as nat) as int,
            rest,
            y * pow2(q as nat),
        );
    }
    if opposite {
        xs + ys < bound
    } else if xs >= ys {
        xs - ys < bound || (rest && xs - ys == bound)
    } else {
        ys - xs < bound
    }
}

fn are_within(x: u64, p: u64, y: u64, q: u64, m: u64, opposite: bool) -> (r: bool)
    requires
        is_format(m),
        p < 0x10000,
        p > 0 ==> pow2(m as nat) <= x,
        x < 2 * pow2(m as nat),
        y < 2 * pow2(m as nat),
        q <= p,
    ensures
        r == within(x as int, p as nat, y as int, q as nat, m, opposite),
{
    let k: u64 = if m == DOUBLE {
        968
    } else {
        101
    };
    if p <= k {
        proof {
            lemma_small(x as int, p as nat, y as int, q as nat, m, k as nat);
        }
        true
    } else if p >= k + m + 3 {
        proof {
            lemma_nearness_positive(m, k as nat);
            if x != y || p != q {
                lemma_large(x as int, p as nat, y as int, q as nat, m, k as nat);
            } else if opposite {
                lemma_pow2_pos(m as nat);
                lemma_large(x as int, p as nat, 0, q as nat, m, k as nat);
                assert(y * pow2(q as nat) >= 0 * pow2(q as nat)) by (nonlinear_arith)
                    requires
                        y >= 0,
                        pow2(q as nat) >= 0,
                ;
            }
        }
        !opposite && x == y && p == q
    } else {
        middle_within(x, p, y, q, m, opposite)
    }
}

/// Whether two finite numbers are near each other, where `a` has the larger
/// scale.
fn near_ordered(a: u64, b: u64, m: u64) -> (r: bool)
    requires
        fits(a, m),
        fits(b, m),
        is_finite(a, m),
        is_finite(b, m),
        exponent(a, m) >= exponent(b, m),
    ensures
        r == near(a, b, m),
{
    let pa = split(a, m);
    let pb = split(b, m);
    proof {
        lemma_parts(a, m);
        lemma_parts(b, m);
    }
    let unit: u64 = if m == DOUBLE {
        0x10_0000_0000_0000
    } else {
        0x80_0000
    };
    let x: u64 = if pa.exponent == 0 {
        pa.fraction
    } else {
        pa.fraction + unit
    };
    let p: u64 = if pa.exponent == 0 {
        0
    } else {
        pa.exponent - 1
    };
    let y: u64 = if pb.exponent == 0 {
        pb.fraction
    } else {
        pb.fraction + unit
    };
    let q: u64 = if pb.exponent == 0 {
        0
    } else {
        pb.exponent - 1
    };
    assert(absolute(a, m) == x * pow2(p as nat));
    assert(absolute(b, m) == y * pow2(q as nat));
    proof {
        lemma_absolute_sign(a, m);
        lemma_absolute_sign(b, m);
        lemma_nearness_positive(m, (bias(m) - m - 3) as nat);
    }
    are_within(x, p, y, q, m, pa.negative != pb.negative)
}

/// Comparing multiples of `u`, of which the second may have a rest below `u`.
proof fn lemma_compare_multiples(xs: int, ys: int, bound: int, u: int, rest: bool, yv: int)
    requires
        u > 0,
        !rest ==> yv == ys * u,
        rest ==> ys * u < yv < (ys + 1) * u,
    ensures
        xs * u + yv < bound * u <==> xs + ys < bound,
        !rest ==> (-(bound * u) < xs * u - yv < bound * u <==> -bound < xs - ys < bound),
        rest && xs > ys ==> (xs * u - yv < bound * u <==> xs - ys <= bound) && xs * u - yv >= 0,
{
    assert(xs * u + ys * u == (xs + ys) * u) by (nonlinear_arith);
    assert(xs * u - ys * u == (xs - ys) * u) by (nonlinear_arith);
    assert((ys + 1) * u == ys * u + u) by (nonlinear_arith);
    assert(forall|i: int, j: int| i < j ==> #[trigger] (i * u) <= (#[trigger] (j * u)) - u)
        by (nonlinear_arith)
        requires
            u > 0,
    ;
    assert((xs + ys) * u < bound * u <==> xs + ys < bound) by (nonlinear_arith)
        requires
            u > 0,
    ;
    assert((xs + ys) * u <= bound * u - u <==> xs + ys < bound) by (nonlinear_arith)
        requires
            u > 0,
    ;
    assert((xs - ys) * u < bound * u <==> xs - ys < bound) by (nonlinear_arith)
        requires
            u > 0,
    ;
    assert((xs - ys) * u <= bound * u <==> xs - ys <= bound) by (nonlinear_arith)
        requires
            u > 0,
    ;
    assert(-(bound * u) < (xs - ys) * u <==> -bound < xs - ys) by (nonlinear_arith)
        requires
            u > 0,
    ;
    assert((xs - ys) * u <= bound * u - u <==> xs - ys < bound) by (nonlinear_arith)
        requires
            u > 0,
    ;
    if rest && xs > ys {
        assert((xs - ys) * u >= u) by (nonlinear_arith)
            requires
                xs - ys >= 1,
                u > 0,
        ;
        if xs - ys > bound {
            assert((xs - ys) * u >= bound * u + u) by (nonlinear_arith)
                requires
                    xs - ys >= bound + 1,
                    u > 0,
            ;
        }
    }
}

/// Whether two numbers are near each other: their rounded difference is below
/// the machine epsilon.
pub fn are_near(a: u64, b: u64, m: u64) -> (r: bool)
    requires
        fits(a, m),
        fits(b, m),
    ensures
        r == near(a, b, m),
{
    let x = split(a, m);
    let y = split(b, m);
    let limit: u64 = limit_of(m);
    if x.exponent == limit || y.exponent == limit {
        return false;
    }
    proof {
        lemma_parts(a, m);
        lemma_parts(b, m);
    }
    if x.exponent >= y.exponent {
        near_ordered(a, b, m)
    } else {
        near_ordered(b, a, m)
    }
}

// ---------------------------------------------------------------------------
// From integers
// ---------------------------------------------------------------------------

/// The number of binary digits.
pub open spec fn bit_length(n: nat) -> nat
    decreases n,
{
    if n == 0 {
        0
    } else {
        1 + bit_length(n / 2)
    }
}

/// The quotient rounded to the nearest integer, a tie to the even one.
pub open spec fn round_even(n: nat, d: nat) -> nat {
    let q = n / d;
    let r = n % d;
    if 2 * r > d || (2 * r == d && q % 2 == 1) {
        q + 1
    } else {
        q
    }
}

/// The significand, of `m + 1` binary digits, nearest to a positive integer.
pub open spec fn nearest_significand(n: nat, m: u64) -> int {
    let length = bit_length(n);
    if length <= m + 1 {
        n * pow2((m + 1 - length) as nat) as int
    } else {
        round_even(n, pow2((length - m - 1) as nat)) as int
    }
}

/// The bits of the number nearest to an integer, a tie to the even significand.
pub open spec fn of_nat(n: nat, m: u64) -> int {
    if n == 0 {
        0
    } else {
        (bias(m) + bit_length(n) - 2) * exponent_weight(m) + nearest_significand(n, m)
    }
}

pub open spec fn of_int(n: int, m: u64) -> int {
    if n < 0 {
        sign_weight(m) + of_nat((-n) as nat, m)
    } else {
        of_nat(n as nat, m)
    }
}

proof fn lemma_bit_length(n: nat)
    requires
        n > 0,
    ensures
        bit_length(n) >= 1,
        pow2((bit_length(n) - 1) as nat) <= n < pow2(bit_length(n)),
    decreases n,
{
    lemma2_to64();
    if n == 1 {
        assert(bit_length(0) == 0);
        assert(bit_length(1) == 1 + bit_length(1nat / 2));
    } else {
        lemma_bit_length(n / 2);
        lemma_pow2_unfold(bit_length(n));
        lemma_pow2_unfold((bit_length(n) - 1) as nat);
    }
}

proof fn lemma_significand_range(n: nat, m: u64)
    requires
        is_format(m),
        0 < n < 0x1_0000_0000_0000_0000,
    ensures
        1 <= bit_length(n) <= 64,
        exponent_weight(m) <= nearest_significand(n, m) <= 2 * exponent_weight(m),
        bit_length(n) <= m + 1 ==> nearest_significand(n, m) < 2 * exponent_weight(m),
{
    let l = bit_length(n);
    lemma_bit_length(n);
    lemma2_to64();
    lemma2_to64_rest();
    if l > 64 {
        lemma_pow2_le(64, (l - 1) as nat);
    }
    if l <= m + 1 {
        let c = pow2((m + 1 - l) as nat);
        lemma_pow2_pos((m + 1 - l) as nat);
        lemma_pow2_adds((l - 1) as nat, (m + 1 - l) as nat);
        lemma_pow2_adds(l, (m + 1 - l) as nat);
        assert(pow2((l - 1) as nat) * c <= n * c < pow2(l) * c) by (nonlinear_arith)
            requires
                pow2((l - 1) as nat) <= n < pow2(l),
                c > 0,
        ;
    } else {
        let d = pow2((l - m - 1) as nat);
        lemma_pow2_pos((l - m - 1) as nat);
        lemma_pow2_adds(m as nat, (l - m - 1) as nat);
        lemma_pow2_adds((m + 1) as nat, (l - m - 1) as nat);
        let q = n / d;
        vstd::arithmetic::div_mod::lemma_fundamental_div_mod(n as int, d as int);
        let w = pow2(m as nat);
        assert(w <= q < 2 * w) by (nonlinear_arith)
            requires
                w * d <= n < 2 * w * d,
                n == d * q + n % d,
                0 <= n % d < d,
                d > 0,
        ;
    }
}

fn length_of(n: u64) -> (r: u64)
    ensures
        r == bit_length(n as nat),
        r <= 64,
{
    let mut left: u64 = n;
    let mut r: u64 = 0;
    proof {
        if n > 0 {
            lemma_significand_range(n as nat, DOUBLE);
        }
    }
    while left > 0
        invariant
            bit_length(n as nat) == r + bit_length(left as nat),
            bit_length(n as nat) <= 64,
        decreases left,
    {
        left = left / 2;
        r = r + 1;
    }
    r
}

fn nearest(n: u64, m: u64) -> (r: u64)
    requires
        is_format(m),
    ensures
        r == of_nat(n as nat, m),
        r < sign_weight(m),
{
    if n == 0 {
        return 0;
    }
    proof {
        lemma_significand_range(n as nat, m);
        lemma2_to64();
        lemma2_to64_rest();
    }
    let length: u64 = length_of(n);
    let unit: u64 = if m == DOUBLE {
        0x10_0000_0000_0000
    } else {
        0x80_0000
    };
    let base: u64 = if m == DOUBLE {
        1021
    } else {
        125
    };
    let significand: u64 = if length <= m + 1 {
        proof {
            lemma_pow2_le((m + 1 - length) as nat, 63);
        }
        let factor: u64 = power(m + 1 - length) as u64;
        n * factor
    } else {
        proof {
            lemma_pow2_le((length - m - 1) as nat, 62);
            lemma_pow2_pos((length - m - 1) as nat);
        }
        let d: u64 = power(length - m - 1) as u64;
        let q: u64 = n / d;
        let rest: u64 = n % d;
        if 2 * rest > d || (2 * rest == d && q % 2 == 1) {
            q + 1
        } else {
            q
        }
    };
    (base + length) * unit + significand
}

/// The double-precision number nearest to an integer.
pub fn double_of(n: i64) -> (r: u64)
    ensures
        r == of_int(n as int, DOUBLE),
{
    if n < 0 {
        0x8000_0000_0000_0000u64 + nearest((-(n as i128)) as u64, DOUBLE)
    } else {
        nearest(n as u64, DOUBLE)
    }
}

/// The single-precision number nearest to an integer.
pub fn single_of(n: i64) -> (r: u32)
    ensures
        r == of_int(n as int, SINGLE),
{
    if n < 0 {
        (0x8000_0000u64 + nearest((-(n as i128)) as u64, SINGLE)) as u32
    } else {
        nearest(n as u64, SINGLE) as u32
    }
}

/// An integer of at most `m + 1` binary digits keeps its value.
pub proof fn small_integers_are_exact(n: nat, m: u64)
    requires
        is_format(m),
        n < 2 * exponent_weight(m),
    ensures
        0 <= of_nat(n, m) < sign_weight(m),
        is_finite(of_nat(n, m) as u64, m),
        value(of_nat(n, m) as u64, m) == n * pow2((bias(m) + m - 1) as nat),
{
    lemma2_to64();
    lemma2_to64_rest();
    if n > 0 {
        let l = bit_length(n);
        lemma_significand_range(n, m);
        lemma_bit_length(n);
        if l > m + 1 {
            lemma_pow2_le((m + 1) as nat, (l - 1) as nat);
        }
        let bits = of_nat(n, m) as u64;
        let q = nearest_significand(n, m);
        let w = exponent_weight(m);
        let e = bias(m) + l - 1;
        assert(bits == e * w + (q - w)) by (nonlinear_arith)
            requires
                bits == (e - 1) * w + q,
        ;
        vstd::arithmetic::div_mod::lemma_fundamental_div_mod_converse(
            bits as int,
            w,
            e,
            q - w,
        );
        assert(exponent(bits, m) == e);
        assert(significand(bits, m) == q);
        let c = pow2((m + 1 - l) as nat);
        lemma_pow2_adds((m + 1 - l) as nat, (e - 1) as nat);
        assert((m + 1 - l) as nat + (e - 1) as nat == (bias(m) + m - 1) as nat);
        assert(q * pow2((e - 1) as nat) == n * pow2((bias(m) + m - 1) as nat)) by (nonlinear_arith)
            requires
                q == n * c,
                pow2((bias(m) + m - 1) as nat) == c * pow2((e - 1) as nat),
        ;
    } else {
        assert(0 * pow2(0) == 0 * pow2((bias(m) + m - 1) as nat)) by (nonlinear_arith);
    }
}

proof fn lemma_rounding(n: int, d: int, t: int)
    requires
        0 <= n,
        0 < d,
    ensures
        ({
            let q = round_even(n as nat, d as nat) as int;
            let near = if q * d >= n { q * d - n } else { n - q * d };
            let far = if t * d >= n { t * d - n } else { n - t * d };
            &&& near <= far
            &&& near == far && t != q ==> q % 2 == 0
        }),
{
    let q = n / d;
    let r = n % d;
    vstd::arithmetic::div_mod::lemma_fundamental_div_mod(n, d);
    assert(d * q == q * d) by (nonlinear_arith);
    assert((q + 1) * d == q * d + d) by (nonlinear_arith);
    if t < q {
        assert(t * d <= q * d - d) by (nonlinear_arith)
            requires
                t <= q - 1,
                d > 0,
        ;
    } else if t > q + 1 {
        assert(t * d >= q * d + 2 * d) by (nonlinear_arith)
            requires
                t >= q + 2,
                d > 0,
        ;
    }
}

proof fn lemma_rounded_value(n: nat, m: u64)
    requires
        is_format(m),
        0 < n < 0x1_0000_0000_0000_0000,
        bit_length(n) > m + 1,
    ensures
        0 <= of_nat(n, m) < sign_weight(m),
        is_finite(of_nat(n, m) as u64, m),
        value(of_nat(n, m) as u64, m) == nearest_significand(n, m) * pow2(
            (bias(m) + bit_length(n) - 2) as nat,
        ),
        of_nat(n, m) % 2 == nearest_significand(n, m) % 2,
{
    lemma2_to64();
    lemma2_to64_rest();
    lemma_significand_range(n, m);
    let l = bit_length(n);
    let w = exponent_weight(m);
    let q = nearest_significand(n, m);
    let e = bias(m) + l - 1;
    let bits = of_nat(n, m) as u64;
    assert(of_nat(n, m) == (e - 1) * w + q);
    if q < 2 * w {
        assert((e - 1) * w + q == e * w + (q - w)) by (nonlinear_arith);
        vstd::arithmetic::div_mod::lemma_fundamental_div_mod_converse(bits as int, w, e, q - w);
        assert(exponent(bits, m) == e);
        assert(significand(bits, m) == q);
    } else {
        assert((e - 1) * w + q == (e + 1) * w) by (nonlinear_arith)
            requires
                q == 2 * w,
        ;
        vstd::arithmetic::div_mod::lemma_fundamental_div_mod_converse(bits as int, w, e + 1, 0);
        assert(exponent(bits, m) == e + 1);
        assert(significand(bits, m) == w);
        lemma_pow2_unfold(e as nat);
        assert(w * pow2(e as nat) == q * pow2((e - 1) as nat)) by (nonlinear_arith)
            requires
                q == 2 * w,
                pow2(e as nat) == 2 * pow2((e - 1) as nat),
        ;
    }
}

/// The distance of two values.
pub open spec fn distance(a: int, b: int) -> int {
    if a < b {
        b - a
    } else {
        a - b
    }
}

/// An integer becomes the number nearest to it: no other is nearer, and where another
/// is as near, the last bit is zero.
pub proof fn integers_become_the_nearest(n: nat, m: u64, other: u64)
    requires
        is_format(m),
        n < 0x1_0000_0000_0000_0000,
        fits(other, m),
        is_finite(other, m),
    ensures
        0 <= of_nat(n, m) < sign_weight(m),
        is_finite(of_nat(n, m) as u64, m),
        ({
            let exact = n as int * pow2((bias(m) + m - 1) as nat);
            let bits = of_nat(n, m) as u64;
            &&& distance(value(bits, m), exact) <= distance(value(other, m), exact)
            &&& distance(value(bits, m), exact) == distance(value(other, m), exact) && value(
                bits,
                m,
            ) != value(other, m) ==> bits % 2 == 0
        }),
{
    lemma2_to64();
    lemma2_to64_rest();
    let l = bit_length(n);
    if n > 0 {
        lemma_bit_length(n);
        lemma_significand_range(n, m);
    }
    if l <= m + 1 {
        if n > 0 {
            lemma_pow2_le(l, (m + 1) as nat);
        }
        small_integers_are_exact(n, m);
    } else {
        lemma_rounded_value(n, m);
        let bits = of_nat(n, m) as u64;
        let w = exponent_weight(m);
        let q = nearest_significand(n, m);
        let d = pow2((l - m - 1) as nat) as int;
        let u = pow2((bias(m) + m - 1) as nat) as int;
        let g = pow2((bias(m) + l - 2) as nat) as int;
        lemma_pow2_pos((l - m - 1) as nat);
        lemma_pow2_pos((bias(m) + m - 1) as nat);
        lemma_pow2_adds((l - m - 1) as nat, (bias(m) + m - 1) as nat);
        assert(g == d * u);
        lemma_parts(other, m);
        lemma_absolute_sign(other, m);
        let s = scale(other, m) as nat;
        let k = (bias(m) + l - 2) as nat;
        assert(q * g - n * u == (q * d - n) * u) by (nonlinear_arith)
            requires
                g == d * u,
        ;
        if s >= k {
            let c = pow2((s - k) as nat) as int;
            lemma_pow2_adds((s - k) as nat, k);
            let size = significand(other, m) * c;
            assert(absolute(other, m) == size * g) by (nonlinear_arith)
                requires
                    absolute(other, m) == significand(other, m) * pow2(s),
                    pow2(s) == c * g,
                    size == significand(other, m) * c,
            ;
            let t = if negative(other, m) { -size } else { size };
            assert(value(other, m) == t * g) by (nonlinear_arith)
                requires
                    absolute(other, m) == size * g,
                    value(other, m) == (if negative(other, m) {
                        -absolute(other, m)
                    } else {
                        absolute(other, m)
                    }),
                    t == (if negative(other, m) { -size } else { size }),
            ;
            lemma_rounding(n as int, d, t);
            assert(t * g - n * u == (t * d - n) * u) by (nonlinear_arith)
                requires
                    g == d * u,
            ;
            lemma_scaled_distance(q * d - n, t * d - n, u);
        } else {
            lemma_rounding(n as int, d, w);
            lemma_pow2_le((s + 1) as nat, k);
            lemma_pow2_unfold((s + 1) as nat);
            let h = pow2(s) as int;
            lemma_pow2_pos(s);
            assert(significand(other, m) < 2 * w);
            assert(absolute(other, m) < w * g) by (nonlinear_arith)
                requires
                    absolute(other, m) == significand(other, m) * h,
                    0 <= significand(other, m) < 2 * w,
                    2 * h <= g,
                    h > 0,
                    w > 0,
            ;
            assert(w * g - n * u == (w * d - n) * u) by (nonlinear_arith)
                requires
                    g == d * u,
            ;
            lemma_pow2_adds(m as nat, (l - m - 1) as nat);
            assert(w * d <= n);
            lemma_scaled_distance(q * d - n, w * d - n, u);
        }
    }
}

proof fn lemma_scaled_distance(a: int, b: int, u: int)
    requires
        u > 0,
    ensures
        distance(a, 0) <= distance(b, 0) ==> distance(a * u, 0) <= distance(b * u, 0),
        distance(a * u, 0) == distance(b * u, 0) ==> distance(a, 0) == distance(b, 0),
        a <= 0 <==> a * u <= 0,
        b <= 0 <==> b * u <= 0,
{
    assert(distance(a * u, 0) == distance(a, 0) * u) by (nonlinear_arith)
        requires
            u > 0,
            distance(a, 0) == (if a < 0 { -a } else { a }),
            distance(a * u, 0) == (if a * u < 0 { -(a * u) } else { a * u }),
    ;
    assert(distance(b * u, 0) == distance(b, 0) * u) by (nonlinear_arith)
        requires
            u > 0,
            distance(b, 0) == (if b < 0 { -b } else { b }),
            distance(b * u, 0) == (if b * u < 0 { -(b * u) } else { b * u }),
    ;
    let p = distance(a, 0);
    let q = distance(b, 0);
    assert(p <= q ==> p * u <= q * u) by (nonlinear_arith)
        requires
            u > 0,
    ;
    assert(p * u == q * u ==> p == q) by (nonlinear_arith)
        requires
            u > 0,
    ;
    assert((a <= 0 <==> a * u <= 0) && (b <= 0 <==> b * u <= 0)) by (nonlinear_arith)
        requires
            u > 0,
    ;
}

} // verus!
