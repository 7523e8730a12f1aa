//! Color channels: a double between zero and one as a byte.
//!
//! A channel comes as the bits of a double. Its byte is what multiplying it,
//! held between zero and one, by 255 and rounding the product to an integer
//! gives, with halves rounded up. The product is a double itself, so it is
//! rounded once before, to 53 binary digits.

use vstd::arithmetic::power2::{
    lemma_pow2_adds, lemma_pow2_pos, lemma_pow2_strictly_increases, pow2,
};
use vstd::prelude::*;

verus! {

/// `n / d` rounded to an integer, a half to the even one.
pub open spec fn nearest_even(n: int, d: int) -> int {
    let (q, r) = (n / d, n % d);
    if 2 * r < d || (2 * r == d && q % 2 == 0) {
        q
    } else {
        q + 1
    }
}

/// The value of the last of the 53 binary digits that are kept of `p`.
pub open spec fn last_place(p: int) -> int
    decreases p,
{
    if p < 0x20_0000_0000_0000 {
        1
    } else {
        2 * last_place(p / 2)
    }
}

/// `p` rounded to 53 binary digits.
pub open spec fn as_double(p: int) -> int {
    nearest_even(p, last_place(p)) * last_place(p)
}

/// The sign, the exponent and the fraction of a double.
pub open spec fn is_negative(bits: u64) -> bool {
    bits >= 0x8000_0000_0000_0000
}

pub open spec fn exponent(bits: u64) -> int {
    (bits as int / 0x10_0000_0000_0000) % 0x800
}

pub open spec fn fraction(bits: u64) -> int {
    bits as int % 0x10_0000_0000_0000
}

/// The byte of a channel. What is not a number, negative or too small to have
/// a leading binary digit is zero; from one on it is 255. In between the
/// channel is `m / scale`.
pub open spec fn channel(bits: u64) -> int {
    if is_negative(bits) || exponent(bits) == 0 || (exponent(bits) == 0x7ff && fraction(bits)
        != 0) {
        0
    } else if exponent(bits) >= 0x3ff {
        255
    } else {
        let m = 0x10_0000_0000_0000 + fraction(bits);
        let scale = pow2((1075 - exponent(bits)) as nat);
        (2 * as_double(255 * m) + scale) / (2 * scale as int)
    }
}

proof fn lemma_last_place(p: int)
    requires
        0 <= p < 0x2000_0000_0000_0000,
    ensures
        1 <= last_place(p) <= 0x100,
        last_place(p) > 1 ==> last_place(p) * 0x10_0000_0000_0000 <= p,
        p < last_place(p) * 0x20_0000_0000_0000,
{
    reveal_with_fuel(last_place, 10);
}

proof fn lemma_as_double(p: int)
    requires
        0 <= p < 0x2000_0000_0000_0000,
    ensures
        0 <= as_double(p) <= p + 0x100,
        2 * (as_double(p) - p) <= last_place(p),
        2 * (p - as_double(p)) <= last_place(p),
{
    lemma_last_place(p);
    let u = last_place(p);
    let (q, r) = (p / u, p % u);
    vstd::arithmetic::div_mod::lemma_fundamental_div_mod(p, u);
    vstd::arithmetic::div_mod::lemma_mod_bound(p, u);
    vstd::arithmetic::div_mod::lemma_div_pos_is_pos(p, u);
    assert(u * q == q * u) by (nonlinear_arith);
    assert((q + 1) * u == q * u + u) by (nonlinear_arith);
    assert(q * u >= 0) by (nonlinear_arith)
        requires
            q >= 0,
            u >= 1,
    ;
}

/// `p` rounded to 53 binary digits.
fn round_to_double(p: u64) -> (res: u64)
    requires
        p < 0x2000_0000_0000_0000,
    ensures
        res == as_double(p as int),
{
    let mut q: u64 = p;
    let mut u: u64 = 1;
    proof {
        lemma_last_place(p as int);
    }
    while q >= 0x20_0000_0000_0000
        invariant
            0 <= q <= p,
            p < 0x2000_0000_0000_0000,
            1 <= u,
            u * last_place(q as int) == last_place(p as int),
            last_place(p as int) <= 0x100,
        decreases q,
    {
        proof {
            lemma_last_place((q / 2) as int);
            let l = last_place((q / 2) as int);
            assert(u * (2 * l) == (2 * u) * l) by (nonlinear_arith);
            assert(2 * u <= (2 * u) * l) by (nonlinear_arith)
                requires
                    l >= 1,
                    u >= 1,
            ;
        }
        q = q / 2;
        u = 2 * u;
    }
    assert(u == last_place(p as int)) by {
        assert(u * 1 == u);
    }
    proof {
        lemma_as_double(p as int);
        vstd::arithmetic::div_mod::lemma_fundamental_div_mod(p as int, u as int);
    }
    let whole: u64 = p / u;
    let rest: u64 = p % u;
    let n: u64 = if 2 * rest < u || (2 * rest == u && whole % 2 == 0) {
        whole
    } else {
        whole + 1
    };
    n * u
}

/// The byte of a channel is one.
pub proof fn lemma_channel_range(bits: u64)
    ensures
        0 <= channel(bits) <= 255,
{
    if !is_negative(bits) && 0 < exponent(bits) < 0x3ff {
        let m = 0x10_0000_0000_0000 + fraction(bits);
        let k = (1075 - exponent(bits)) as nat;
        let scale = pow2(k) as int;
        lemma_as_double(255 * m);
        vstd::arithmetic::power2::lemma2_to64_rest();
        if k > 53 {
            lemma_pow2_strictly_increases(53, k);
        }
        let (a, b) = (2 * as_double(255 * m) + scale, 2 * scale);
        vstd::arithmetic::div_mod::lemma_fundamental_div_mod(a, b);
        vstd::arithmetic::div_mod::lemma_mod_bound(a, b);
        assert(0 <= a / b < 256) by (nonlinear_arith)
            requires
                a == b * (a / b) + a % b,
                0 <= a % b < b,
                0 <= a < 256 * b,
                b > 0,
        ;
    }
}

/// The byte of a channel, given by the bits of a double.
pub fn channel_byte(bits: u64) -> (res: u8)
    ensures
        res == channel(bits),
{
    let exponent_bits: u64 = (bits / 0x10_0000_0000_0000) % 0x800;
    let fraction_bits: u64 = bits % 0x10_0000_0000_0000;
    if bits >= 0x8000_0000_0000_0000 || exponent_bits == 0 || (exponent_bits == 0x7ff
        && fraction_bits != 0) {
        return 0;
    }
    if exponent_bits >= 0x3ff {
        return 255;
    }
    let m: u64 = 0x10_0000_0000_0000 + fraction_bits;
    let k: u64 = 1075 - exponent_bits;
    proof {
        lemma_as_double(255 * m);
        lemma_pow2_pos(k as nat);
    }
    let p: u64 = round_to_double(255 * m);
    if k > 63 {
        proof {
            vstd::arithmetic::power2::lemma2_to64();
            vstd::arithmetic::power2::lemma2_to64_rest();
            if k > 64 {
                lemma_pow2_strictly_increases(64, k as nat);
            }
            let scale = pow2(k as nat) as int;
            assert(2 * p + scale < 2 * scale);
            vstd::arithmetic::div_mod::lemma_basic_div(2 * p + scale, 2 * scale);
        }
        return 0;
    }
    let mut scale: u128 = 1;
    let mut j: u64 = 0;
    proof {
        vstd::arithmetic::power2::lemma2_to64();
    }
    while j < k
        invariant
            j <= k <= 63,
            scale == pow2(j as nat),
            scale <= 0x8000_0000_0000_0000,
        decreases k - j,
    {
        proof {
            lemma_pow2_adds(1, j as nat);
            vstd::arithmetic::power2::lemma2_to64();
            vstd::arithmetic::power2::lemma2_to64_rest();
            if j + 1 < 63 {
                lemma_pow2_strictly_increases((j + 1) as nat, 63);
            }
        }
        scale = 2 * scale;
        j += 1;
    }
    let n: u128 = (2 * (p as u128) + scale) / (2 * scale);
    proof {
        lemma_channel_range(bits);
    }
    n as u8
}

/// Between zero and one, the byte of a channel `m / scale` is the integer
/// nearest to 255 times the channel, but for the last place of the product.
pub proof fn law_nearest_byte(bits: u64)
    requires
        !is_negative(bits),
        0 < exponent(bits) < 0x3ff,
    ensures
        ({
            let m = 0x10_0000_0000_0000 + fraction(bits);
            let scale = pow2((1075 - exponent(bits)) as nat) as int;
            &&& 2 * (channel(bits) * scale - 255 * m) <= scale + last_place(255 * m)
            &&& 2 * (255 * m - channel(bits) * scale) <= scale + last_place(255 * m)
        }),
{
    let m = 0x10_0000_0000_0000 + fraction(bits);
    let k = (1075 - exponent(bits)) as nat;
    let scale = pow2(k) as int;
    lemma_as_double(255 * m);
    lemma_pow2_pos(k);
    let (a, b) = (2 * as_double(255 * m) + scale, 2 * scale);
    vstd::arithmetic::div_mod::lemma_fundamental_div_mod(a, b);
    vstd::arithmetic::div_mod::lemma_mod_bound(a, b);
    assert(b * (a / b) == 2 * (channel(bits) * scale)) by (nonlinear_arith)
        requires
            b == 2 * scale,
            a / b == channel(bits),
    ;
}

/// Rounding goes to the nearest integer, and from the middle to the even one.
pub proof fn law_nearest_even(n: int, d: int)
    requires
        0 < d,
    ensures
        2 * (nearest_even(n, d) * d - n) <= d,
        2 * (n - nearest_even(n, d) * d) <= d,
        2 * (nearest_even(n, d) * d - n) == d || 2 * (n - nearest_even(n, d) * d) == d
            ==> nearest_even(n, d) % 2 == 0,
{
    let (q, r) = (n / d, n % d);
    vstd::arithmetic::div_mod::lemma_fundamental_div_mod(n, d);
    vstd::arithmetic::div_mod::lemma_mod_bound(n, d);
    assert(d * q == q * d) by (nonlinear_arith);
    assert((q + 1) * d == q * d + d) by (nonlinear_arith);
}

/// The byte of a channel is the last whose half step below does not lie beyond
/// the product: halves are rounded up.
pub proof fn law_halves_go_up(bits: u64)
    requires
        !is_negative(bits),
        0 < exponent(bits) < 0x3ff,
    ensures
        ({
            let product = as_double(255 * (0x10_0000_0000_0000 + fraction(bits)));
            let scale = pow2((1075 - exponent(bits)) as nat) as int;
            &&& (2 * channel(bits) - 1) * scale <= 2 * product
            &&& 2 * product < (2 * channel(bits) + 1) * scale
        }),
{
    let product = as_double(255 * (0x10_0000_0000_0000 + fraction(bits)));
    let k = (1075 - exponent(bits)) as nat;
    let scale = pow2(k) as int;
    lemma_pow2_pos(k);
    let (a, b) = (2 * product + scale, 2 * scale);
    let n = channel(bits);
    vstd::arithmetic::div_mod::lemma_fundamental_div_mod(a, b);
    vstd::arithmetic::div_mod::lemma_mod_bound(a, b);
    assert((2 * n - 1) * scale == b * n - scale && (2 * n + 1) * scale == b * n + scale)
        by (nonlinear_arith)
        requires
            b == 2 * scale,
    ;
}

/// Outside of what lies between zero and one a channel is held to the limits:
/// what is negative or not a number is zero, and from one on it is 255.
pub proof fn law_limits(bits: u64)
    ensures
        bits >= 0x8000_0000_0000_0000 ==> channel(bits) == 0,
        bits < 0x10_0000_0000_0000 ==> channel(bits) == 0,
        0x7ff0_0000_0000_0000 < bits < 0x8000_0000_0000_0000 ==> channel(bits) == 0,
        0x3ff0_0000_0000_0000 <= bits <= 0x7ff0_0000_0000_0000 ==> channel(bits) == 255,
{
}

} // verus!
