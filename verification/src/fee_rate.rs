//! Fee rates: from the node's BTC per 1000 virtual bytes to satoshis per 1000 weight units.
//!
//! The node writes a rate as a decimal number, which is read as the nearest binary64 number.
//! Scaling it is a binary64 multiplication, which rounds to 53 significant bits, and the product
//! is then rounded to a whole number. All of it is done here on integers.

use crate::json::JsonNumber;
use vstd::arithmetic::power2::pow2;
use vstd::prelude::*;

verus! {

/// A rate in BTC/KvB times this is the rate in satoshis/kwu (10^8 / 4).
pub const SAT_PER_KWU_IN_BTC_PER_KVB: u64 = 25_000_000;

/// The number of bits beyond the 53rd.
pub open spec fn excess_bits(n: nat) -> nat
    decreases n,
{
    if n < 0x20_0000_0000_0000 {
        0
    } else {
        1 + excess_bits(n / 2)
    }
}

/// The multiple of `unit` nearest to `n`; of two, the even one.
pub open spec fn nearest_multiple(n: nat, unit: nat) -> nat {
    let q = n / unit;
    let r = n % unit;
    if 2 * r < unit || (2 * r == unit && q % 2 == 0) {
        q * unit
    } else {
        (q + 1) * unit
    }
}

/// `n` rounded to 53 significant bits, ties to even.
pub open spec fn round_to_53_bits(n: nat) -> nat {
    nearest_multiple(n, pow2(excess_bits(n)))
}

/// The whole number nearest to `n * 2^e`; of two, the larger one.
pub open spec fn nearest_whole(n: nat, e: int) -> nat {
    if e >= 0 {
        n * pow2(e as nat)
    } else {
        (2 * n + pow2((-e) as nat)) / (2 * pow2((-e) as nat))
    }
}

/// The greatest 64-bit number that is not above `n`.
pub open spec fn saturated(n: nat) -> u64 {
    if n <= u64::MAX {
        n as u64
    } else {
        u64::MAX
    }
}

/// The rate for `m * 2^e` BTC/KvB, `m` having at most 53 significant bits.
pub open spec fn scaled(m: nat, e: int) -> u64 {
    saturated(nearest_whole(round_to_53_bits(m * SAT_PER_KWU_IN_BTC_PER_KVB as nat), e))
}

/// The rate in satoshis/kwu for a number of BTC/KvB. What is negative, or no number, is zero.
pub open spec fn sat_per_kwu(number: JsonNumber) -> u64 {
    match number {
        JsonNumber::PosInt(n) => scaled(round_to_53_bits(n as nat), 0),
        JsonNumber::NegInt(n) => if n < 0 {
            0
        } else {
            scaled(round_to_53_bits(n as nat), 0)
        },
        JsonNumber::Binary64 { bits, .. } => {
            let negative = bits >= 0x8000_0000_0000_0000;
            let exponent = (bits / 0x10_0000_0000_0000) % 0x800;
            let fraction = bits % 0x10_0000_0000_0000;
            if negative || (exponent == 0x7ff && fraction != 0) {
                0
            } else if exponent == 0x7ff {
                u64::MAX
            } else if exponent == 0 {
                scaled(fraction as nat, -1074)
            } else {
                scaled((0x10_0000_0000_0000 + fraction) as nat, exponent - 1075)
            }
        },
    }
}

/// `n` rounded to 53 significant bits.
fn round_significant(n: u128) -> (r: u128)
    requires
        n < 0x800_0000_0000_0000_0000_0000,
    ensures
        r == round_to_53_bits(n as nat),
        r <= 2 * n,
{
    let mut q: u128 = n;
    let mut unit: u128 = 1;
    let ghost mut shift: nat = 0;
    proof {
        vstd::arithmetic::power2::lemma2_to64();
    }
    while q >= 0x20_0000_0000_0000
        invariant
            n < 0x800_0000_0000_0000_0000_0000,
            unit == pow2(shift),
            unit >= 1,
            q == n as nat / unit as nat,
            q * unit <= n,
            excess_bits(n as nat) == shift + excess_bits(q as nat),
        decreases q,
    {
        proof {
            vstd::arithmetic::power2::lemma_pow2_unfold(shift + 1);
            vstd::arithmetic::div_mod::lemma_div_denominator(n as int, unit as int, 2);
            assert(unit <= n) by (nonlinear_arith)
                requires
                    q * unit <= n,
                    q >= 1,
            ;
            let half = q / 2;
            assert(half * (2 * unit) <= n) by (nonlinear_arith)
                requires
                    q * unit <= n,
                    half == q / 2,
            ;
            shift = shift + 1;
        }
        q = q / 2;
        unit = unit * 2;
    }
    proof {
        assert(excess_bits(q as nat) == 0);
        vstd::arithmetic::div_mod::lemma_fundamental_div_mod(n as int, unit as int);
        assert(unit as int * q as int == q * unit) by (nonlinear_arith);
    }
    let r: u128 = n % unit;
    if 2 * r < unit || (2 * r == unit && q % 2 == 0) {
        q * unit
    } else {
        assert((q + 1) * unit == q * unit + unit) by (nonlinear_arith);
        (q + 1) * unit
    }
}

/// The whole number nearest to `n * 2^e`, or the greatest 64-bit number where that is too large.
fn whole_saturated(n: u128, e: i32) -> (r: u64)
    requires
        n < 0x1000_0000_0000_0000_0000_0000,
        e > i32::MIN,
    ensures
        r == saturated(nearest_whole(n as nat, e as int)),
{
    proof {
        vstd::arithmetic::power2::lemma2_to64();
    }
    if e >= 0 {
        let mut v: u128 = n;
        let mut i: i32 = 0;
        assert(n * pow2(0) == n) by (nonlinear_arith)
            requires
                pow2(0) == 1,
        ;
        while i < e && v <= u64::MAX as u128
            invariant
                0 <= i <= e,
                v == n * pow2(i as nat),
                v < 0x1000_0000_0000_0000_0000_0000,
            decreases e - i,
        {
            proof {
                vstd::arithmetic::power2::lemma_pow2_unfold((i + 1) as nat);
                assert(n * (2 * pow2(i as nat)) == 2 * (n * pow2(i as nat))) by (nonlinear_arith);
            }
            v = v * 2;
            i += 1;
        }
        if v > u64::MAX as u128 {
            proof {
                if i < e {
                    vstd::arithmetic::power2::lemma_pow2_strictly_increases(i as nat, e as nat);
                    assert(n * pow2(i as nat) <= n * pow2(e as nat)) by (nonlinear_arith)
                        requires
                            pow2(i as nat) < pow2(e as nat),
                    ;
                }
            }
            u64::MAX
        } else {
            v as u64
        }
    } else {
        let k: i32 = -e;
        let mut unit: u128 = 1;
        let mut i: i32 = 0;
        while i < k && unit <= 2 * n
            invariant
                0 <= i <= k,
                n < 0x1000_0000_0000_0000_0000_0000,
                unit == pow2(i as nat),
                0 < unit < 0x8000_0000_0000_0000_0000_0000,
            decreases k - i,
        {
            proof {
                vstd::arithmetic::power2::lemma_pow2_unfold((i + 1) as nat);
            }
            unit = unit * 2;
            i += 1;
        }
        if i < k {
            proof {
                vstd::arithmetic::power2::lemma_pow2_strictly_increases(i as nat, k as nat);
                let d = 2 * pow2(k as nat);
                vstd::arithmetic::div_mod::lemma_basic_div((2 * n + pow2(k as nat)) as int, d as int);
            }
            0
        } else {
            let v: u128 = (2 * n + unit) / (2 * unit);
            if v > u64::MAX as u128 {
                u64::MAX
            } else {
                v as u64
            }
        }
    }
}

/// The rate for `m * 2^e` BTC/KvB.
fn scale(m: u128, e: i32) -> (r: u64)
    requires
        m < 0x2_0000_0000_0000_0000,
        e > i32::MIN,
    ensures
        r == scaled(m as nat, e as int),
{
    let ghost factor = SAT_PER_KWU_IN_BTC_PER_KVB;
    assert(m * factor < 0x800_0000_0000_0000_0000_0000) by (nonlinear_arith)
        requires
            m < 0x2_0000_0000_0000_0000,
            factor == 25_000_000,
    ;
    let product: u128 = m * (SAT_PER_KWU_IN_BTC_PER_KVB as u128);
    whole_saturated(round_significant(product), e)
}

impl JsonNumber {
    /// The rate in satoshis/kwu for this number of BTC/KvB.
    pub fn btc_per_kvb_to_sat_per_kwu(&self) -> (rate: u64)
        ensures
            rate == sat_per_kwu(*self),
    {
        match self {
            JsonNumber::PosInt(n) => scale(round_significant(*n as u128), 0),
            JsonNumber::NegInt(n) => if *n < 0 {
                0
            } else {
                scale(round_significant(*n as u128), 0)
            },
            JsonNumber::Binary64 { bits, text: _ } => {
                let negative = *bits >= 0x8000_0000_0000_0000;
                let exponent: u64 = (*bits / 0x10_0000_0000_0000) % 0x800;
                let fraction: u64 = *bits % 0x10_0000_0000_0000;
                if negative || (exponent == 0x7ff && fraction != 0) {
                    0
                } else if exponent == 0x7ff {
                    u64::MAX
                } else if exponent == 0 {
                    scale(fraction as u128, -1074)
                } else {
                    scale((0x10_0000_0000_0000 + fraction) as u128, exponent as i32 - 1075)
                }
            },
        }
    }
}

/// No multiple of `unit` is nearer to `n` than the nearest one.
proof fn lemma_nearest_multiple(n: nat, unit: nat)
    requires
        unit > 0,
    ensures
        -(unit as int) <= 2 * (nearest_multiple(n, unit) - n) <= unit,
{
    let q = n / unit;
    let r = n % unit;
    vstd::arithmetic::div_mod::lemma_fundamental_div_mod(n as int, unit as int);
    assert(unit * q == q * unit) by (nonlinear_arith);
    assert((q + 1) * unit == q * unit + unit) by (nonlinear_arith);
    assert(r < unit);
}

/// A number of at most `53 + more` bits has at most `more` beyond the 53rd.
proof fn lemma_excess_bits(n: nat, more: nat)
    requires
        n < 0x20_0000_0000_0000 * pow2(more),
    ensures
        excess_bits(n) <= more,
    decreases more,
{
    vstd::arithmetic::power2::lemma2_to64();
    if n >= 0x20_0000_0000_0000 {
        if more == 0 {
            assert(0x20_0000_0000_0000 * pow2(0) == 0x20_0000_0000_0000);
        } else {
            let less = (more - 1) as nat;
            vstd::arithmetic::power2::lemma_pow2_unfold(more);
            assert(0x20_0000_0000_0000 * (2 * pow2(less)) == 2 * (0x20_0000_0000_0000 * pow2(less)))
                by (nonlinear_arith);
            lemma_excess_bits(n / 2, less);
        }
    }
}

/// A whole number of BTC/KvB is scaled exactly, as far as 53 bits reach.
pub proof fn law_whole_rates(n: u64)
    requires
        n * SAT_PER_KWU_IN_BTC_PER_KVB < 0x20_0000_0000_0000,
    ensures
        sat_per_kwu(JsonNumber::PosInt(n)) == n * SAT_PER_KWU_IN_BTC_PER_KVB,
{
    vstd::arithmetic::power2::lemma2_to64();
    let p = n as nat * SAT_PER_KWU_IN_BTC_PER_KVB as nat;
    assert(round_to_53_bits(n as nat) == n);
    assert(round_to_53_bits(p) == p);
    assert(p * pow2(0) == p);
}

/// A rate of `k` satoshis per 1000 virtual bytes, read as a binary64 number `m * 2^e` that differs
/// from `k * 10^-8` BTC/KvB by no more than half a unit of its last place, comes out as a whole
/// number of satoshis/kwu than which none is nearer to `k / 4`. This holds up to 2^26 BTC/KvB,
/// which is more than there will ever be.
pub proof fn law_rate_is_nearest(m: nat, e: int, k: nat)
    requires
        m < 0x20_0000_0000_0000,
        e <= -27,
        -100_000_000 <= 2 * (m * 100_000_000 - k * pow2((-e) as nat)) <= 100_000_000,
    ensures
        -2 <= 4 * scaled(m, e) - k <= 2,
{
    vstd::arithmetic::power2::lemma2_to64();
    let d = pow2((-e) as nat);
    let p = m * SAT_PER_KWU_IN_BTC_PER_KVB as nat;
    let r = round_to_53_bits(p);
    assert(p < 0x20_0000_0000_0000 * pow2(25));
    lemma_excess_bits(p, 25);
    let unit = pow2(excess_bits(p));
    vstd::arithmetic::power2::lemma_pow2_pos(excess_bits(p));
    if excess_bits(p) < 25 {
        vstd::arithmetic::power2::lemma_pow2_strictly_increases(excess_bits(p), 25);
    }
    lemma_nearest_multiple(p, unit);
    if e < -27 {
        vstd::arithmetic::power2::lemma_pow2_strictly_increases(27, (-e) as nat);
    }
    assert(d >= 0x800_0000);
    let whole = nearest_whole(r, e);
    vstd::arithmetic::div_mod::lemma_fundamental_div_mod((2 * r + d) as int, (2 * d) as int);
    let rest = (2 * r + d) % (2 * d);
    assert(2 * d * whole + rest == 2 * r + d);
    let c = whole * d;
    assert(2 * d * whole == 2 * c) by (nonlinear_arith)
        requires
            c == whole * d,
    ;
    let kd = k * d;
    assert(-2 * d - 0x400_0000 - 50_000_000 <= 4 * c - kd <= 2 * d + 0x400_0000 + 50_000_000);
    assert(-3 < 4 * whole - k < 3) by (nonlinear_arith)
        requires
            c == whole * d,
            kd == k * d,
            d >= 0x800_0000,
            -2 * d - 0x400_0000 - 50_000_000 <= 4 * c - kd <= 2 * d + 0x400_0000 + 50_000_000,
    ;
    assert(whole <= u64::MAX) by (nonlinear_arith)
        requires
            c == whole * d,
            d >= 0x800_0000,
            2 * c <= 2 * r + d,
            r < 0x8000_0000_0000_0000_0000,
    ;
}

/// The nearest multiple is a multiple, none is nearer, and of two that are as near it is the even
/// one.
pub proof fn law_nearest_multiple(n: nat, unit: nat)
    requires
        unit > 0,
    ensures
        exists|q: nat|
            {
                &&& nearest_multiple(n, unit) == #[trigger] (q * unit)
                &&& -(unit as int) <= 2 * (q * unit - n) <= unit
                &&& (2 * (q * unit - n) == unit || 2 * (n - q * unit) == unit) ==> q % 2 == 0
            },
{
    let q = n / unit;
    let r = n % unit;
    vstd::arithmetic::div_mod::lemma_fundamental_div_mod(n as int, unit as int);
    assert(unit * q == q * unit) by (nonlinear_arith);
    assert((q + 1) * unit == q * unit + unit) by (nonlinear_arith);
    if 2 * r < unit || (2 * r == unit && q % 2 == 0) {
        assert(nearest_multiple(n, unit) == q * unit);
    } else {
        let up: nat = q + 1;
        assert(nearest_multiple(n, unit) == up * unit);
    }
}

/// The bits beyond the 53rd are as many as must be dropped for 53 to be left, and no more.
pub proof fn law_excess_bits(n: nat)
    ensures
        n < 0x20_0000_0000_0000 * pow2(excess_bits(n)),
        excess_bits(n) > 0 ==> n >= 0x10_0000_0000_0000 * pow2(excess_bits(n)),
    decreases n,
{
    vstd::arithmetic::power2::lemma2_to64();
    if n >= 0x20_0000_0000_0000 {
        let half = n / 2;
        law_excess_bits(half);
        let less = excess_bits(half);
        vstd::arithmetic::power2::lemma_pow2_unfold(less + 1);
        assert(0x20_0000_0000_0000 * (2 * pow2(less)) == 2 * (0x20_0000_0000_0000 * pow2(less)))
            by (nonlinear_arith);
        assert(0x10_0000_0000_0000 * (2 * pow2(less)) == 2 * (0x10_0000_0000_0000 * pow2(less)))
            by (nonlinear_arith);
        if less == 0 {
            assert(half >= 0x10_0000_0000_0000);
            assert(0x10_0000_0000_0000 * pow2(0) == 0x10_0000_0000_0000);
        }
    } else {
        assert(0x20_0000_0000_0000 * pow2(0) == 0x20_0000_0000_0000);
    }
}

/// The nearest whole number is less than a half above the number, or a half at most, and less than
/// a half below it.
pub proof fn law_nearest_whole(n: nat, e: int)
    ensures
        e >= 0 ==> nearest_whole(n, e) == n * pow2(e as nat),
        e < 0 ==> {
            let d = pow2((-e) as nat);
            2 * (nearest_whole(n, e) * d) - d <= 2 * n < 2 * (nearest_whole(n, e) * d) + d
        },
{
    if e < 0 {
        let d = pow2((-e) as nat);
        vstd::arithmetic::power2::lemma_pow2_pos((-e) as nat);
        let whole = nearest_whole(n, e);
        vstd::arithmetic::div_mod::lemma_fundamental_div_mod((2 * n + d) as int, (2 * d) as int);
        assert(2 * d * whole == 2 * (whole * d)) by (nonlinear_arith);
    }
}

/// The rate for `m * 2^e` BTC/KvB: the product with 25 000 000 is rounded, ties to even, to the
/// multiple of the least power of two that leaves 53 bits, and that times `2^e` to the nearest whole
/// number, halves upwards; a result beyond 64 bits is the greatest of them.
pub proof fn law_scaled(m: nat, e: int)
    ensures
        exists|k: nat, q: nat, whole: nat|
            {
                let p = m * 25_000_000;
                let unit = pow2(k);
                let rounded = #[trigger] (q * pow2(k));
                &&& p < 0x20_0000_0000_0000 * unit
                &&& k > 0 ==> p >= 0x10_0000_0000_0000 * unit
                &&& -(unit as int) <= 2 * (rounded - p) <= unit
                &&& (2 * (rounded - p) == unit || 2 * (p - rounded) == unit) ==> q % 2 == 0
                &&& e >= 0 ==> whole == rounded * pow2(e as nat)
                &&& e < 0 ==> 2 * (whole * pow2((-e) as nat)) - pow2((-e) as nat) <= 2 * rounded
                    < 2 * (whole * pow2((-e) as nat)) + pow2((-e) as nat)
                &&& scaled(m, e) == #[trigger] least(whole, u64::MAX as nat)
            },
{
    let p = m * 25_000_000;
    let k = excess_bits(p);
    let unit = pow2(k);
    vstd::arithmetic::power2::lemma_pow2_pos(k);
    law_excess_bits(p);
    law_nearest_multiple(p, unit);
    let q = choose|q: nat|
        {
            &&& nearest_multiple(p, unit) == #[trigger] (q * unit)
            &&& -(unit as int) <= 2 * (q * unit - p) <= unit
            &&& (2 * (q * unit - p) == unit || 2 * (p - q * unit) == unit) ==> q % 2 == 0
        };
    let rounded = q * pow2(k);
    law_nearest_whole(rounded, e);
    let whole = nearest_whole(rounded, e);
    assert(scaled(m, e) == least(whole, u64::MAX as nat));
}

/// The lesser of two numbers.
pub open spec fn least(a: nat, b: nat) -> nat {
    if a <= b {
        a
    } else {
        b
    }
}

/// The bits of a binary64 number are its sign, eleven bits of exponent and 52 of fraction: a
/// positive number `m * 2^e` is scaled as such, and what is negative or no number gives zero.
pub proof fn law_binary64(exponent: u64, fraction: u64, text: String)
    requires
        exponent < 0x800,
        fraction < 0x10_0000_0000_0000,
    ensures
        ({
            let bits = exponent * 0x10_0000_0000_0000 + fraction;
            let rate = sat_per_kwu(JsonNumber::Binary64 { bits: bits as u64, text });
            let negative = sat_per_kwu(
                JsonNumber::Binary64 { bits: (0x8000_0000_0000_0000 + bits) as u64, text },
            );
            &&& exponent == 0 ==> rate == scaled(fraction as nat, -1074)
            &&& 0 < exponent < 0x7ff ==> rate == scaled(
                (fraction + 0x10_0000_0000_0000) as nat,
                exponent - 1075,
            )
            &&& exponent == 0x7ff && fraction == 0 ==> rate == u64::MAX
            &&& exponent == 0x7ff && fraction > 0 ==> rate == 0
            &&& negative == 0
        }),
{
    let bits = exponent * 0x10_0000_0000_0000 + fraction;
    assert(bits <= 0x7fff_ffff_ffff_ffff);
    let b = bits as u64;
    assert(b / 0x10_0000_0000_0000 == exponent);
    assert(b % 0x10_0000_0000_0000 == fraction);
    assert((b / 0x10_0000_0000_0000) % 0x800 == exponent);
}

/// An integer counts as the binary64 number nearest to it, with 53 significant bits and ties to
/// even; a negative one gives zero.
pub proof fn law_integer_rates(n: u64, m: i64)
    ensures
        n < 0x20_0000_0000_0000 ==> sat_per_kwu(JsonNumber::PosInt(n)) == scaled(n as nat, 0),
        exists|k: nat, q: nat|
            {
                let unit = pow2(k);
                let rounded = #[trigger] (q * pow2(k));
                &&& n < 0x20_0000_0000_0000 * unit
                &&& k > 0 ==> n >= 0x10_0000_0000_0000 * unit
                &&& -(unit as int) <= 2 * (rounded - n) <= unit
                &&& (2 * (rounded - n) == unit || 2 * (n - rounded) == unit) ==> q % 2 == 0
                &&& sat_per_kwu(JsonNumber::PosInt(n)) == scaled(rounded, 0)
            },
        m < 0 ==> sat_per_kwu(JsonNumber::NegInt(m)) == 0,
        m >= 0 ==> sat_per_kwu(JsonNumber::NegInt(m)) == sat_per_kwu(JsonNumber::PosInt(m as u64)),
{
    vstd::arithmetic::power2::lemma2_to64();
    let p = n as nat;
    let k = excess_bits(p);
    let unit = pow2(k);
    vstd::arithmetic::power2::lemma_pow2_pos(k);
    law_excess_bits(p);
    law_nearest_multiple(p, unit);
    let q = choose|q: nat|
        {
            &&& nearest_multiple(p, unit) == #[trigger] (q * unit)
            &&& -(unit as int) <= 2 * (q * unit - p) <= unit
            &&& (2 * (q * unit - p) == unit || 2 * (p - q * unit) == unit) ==> q % 2 == 0
        };
    let rounded = q * pow2(k);
    assert(round_to_53_bits(p) == rounded);
    if n < 0x20_0000_0000_0000 {
        assert(unit == 1);
        assert(nearest_multiple(p, 1) == p);
    }
}

} // verus!
