//! Fixed-point arithmetic for coordinates: `ONE` units to the pixel.

use vstd::prelude::*;
use vstd::arithmetic::power2::pow2;

verus! {

/// Units to the pixel.
pub const ONE: i128 = 65536;

/// The whole part of the binary logarithm: the `k` with `2^k <= n < 2^(k+1)`;
/// 0 for `n == 0`.
pub open spec fn floor_log2(n: nat) -> nat
    decreases n,
{
    if n < 2 {
        0
    } else {
        1 + floor_log2(n / 2)
    }
}

/// The binary logarithm of `1 + j / 64` in units of 1/65536, rounded down,
/// for `j` from 0 to 64.
pub open spec fn log2_step(j: int) -> int {
    if j <= 0 {
        0
    } else if j == 1 {
        1465
    } else if j == 2 {
        2909
    } else if j == 3 {
        4331
    } else if j == 4 {
        5731
    } else if j == 5 {
        7112
    } else if j == 6 {
        8472
    } else if j == 7 {
        9813
    } else if j == 8 {
        11136
    } else if j == 9 {
        12440
    } else if j == 10 {
        13726
    } else if j == 11 {
        14995
    } else if j == 12 {
        16248
    } else if j == 13 {
        17484
    } else if j == 14 {
        18704
    } else if j == 15 {
        19908
    } else if j == 16 {
        21097
    } else if j == 17 {
        22272
    } else if j == 18 {
        23432
    } else if j == 19 {
        24578
    } else if j == 20 {
        25710
    } else if j == 21 {
        26829
    } else if j == 22 {
        27935
    } else if j == 23 {
        29028
    } else if j == 24 {
        30109
    } else if j == 25 {
        31177
    } else if j == 26 {
        32234
    } else if j == 27 {
        33278
    } else if j == 28 {
        34312
    } else if j == 29 {
        35334
    } else if j == 30 {
        36345
    } else if j == 31 {
        37346
    } else if j == 32 {
        38336
    } else if j == 33 {
        39315
    } else if j == 34 {
        40285
    } else if j == 35 {
        41245
    } else if j == 36 {
        42195
    } else if j == 37 {
        43136
    } else if j == 38 {
        44068
    } else if j == 39 {
        44990
    } else if j == 40 {
        45904
    } else if j == 41 {
        46808
    } else if j == 42 {
        47704
    } else if j == 43 {
        48592
    } else if j == 44 {
        49472
    } else if j == 45 {
        50343
    } else if j == 46 {
        51207
    } else if j == 47 {
        52062
    } else if j == 48 {
        52910
    } else if j == 49 {
        53751
    } else if j == 50 {
        54584
    } else if j == 51 {
        55410
    } else if j == 52 {
        56228
    } else if j == 53 {
        57040
    } else if j == 54 {
        57844
    } else if j == 55 {
        58642
    } else if j == 56 {
        59433
    } else if j == 57 {
        60218
    } else if j == 58 {
        60996
    } else if j == 59 {
        61768
    } else if j == 60 {
        62534
    } else if j == 61 {
        63293
    } else if j == 62 {
        64047
    } else if j == 63 {
        64794
    } else {
        65536
    }
}

/// The first 32 binary places of `n / 2^k` after its leading one, where
/// `2^k` is the largest power of two that `n` reaches: a number from 0 up
/// to, not including, 2^32. 0 for `n == 0`.
pub open spec fn spec_mantissa(n: nat) -> int {
    if n == 0 {
        0
    } else {
        let p = pow2(floor_log2(n)) as int;
        ((n - p) * 0x1_0000_0000) / p
    }
}

/// The fraction of the binary logarithm, in units of 1/65536, of a number
/// with the binary places `m`: the value of `log2_step` at the step that
/// the number has reached, which its first six places name, and from there
/// to the next step a linear rise by the 26 places that follow.
pub open spec fn spec_log2_fraction(m: int) -> int {
    let j = m / 0x400_0000;
    let q = m % 0x400_0000;
    log2_step(j) + ((log2_step(j + 1) - log2_step(j)) * q) / 0x400_0000
}

/// The binary logarithm of `n` in units of 1/65536; 0 for `n == 0`. The
/// whole part is exact. The fraction is the logarithm rounded down at the
/// 64 steps between one power of two and the next, as `log2_step` holds
/// it, and rises linearly from each step to the next.
pub open spec fn spec_log2_fixed(n: nat) -> nat {
    if n == 0 {
        0
    } else {
        (floor_log2(n) * 65536 + spec_log2_fraction(spec_mantissa(n))) as nat
    }
}

/// `floor_log2(n)` is the exponent of the largest power of two that `n` reaches.
pub proof fn lemma_floor_log2_bracket(n: nat)
    requires
        n >= 1,
    ensures
        pow2(floor_log2(n)) <= n < 2 * pow2(floor_log2(n)),
    decreases n,
{
    if n < 2 {
        vstd::arithmetic::power2::lemma2_to64();
    } else {
        lemma_floor_log2_bracket(n / 2);
        vstd::arithmetic::power2::lemma_pow2_unfold(floor_log2(n));
    }
}

pub proof fn lemma_floor_log2_unique(n: nat, k: nat)
    requires
        pow2(k) <= n < 2 * pow2(k),
    ensures
        floor_log2(n) == k,
    decreases k,
{
    if k == 0 {
        vstd::arithmetic::power2::lemma2_to64();
    } else {
        vstd::arithmetic::power2::lemma_pow2_unfold(k);
        vstd::arithmetic::power2::lemma_pow2_pos((k - 1) as nat);
        lemma_floor_log2_unique(n / 2, (k - 1) as nat);
    }
}

pub proof fn lemma_floor_log2_monotone(n: nat, m: nat)
    requires
        n <= m,
    ensures
        floor_log2(n) <= floor_log2(m),
    decreases n,
{
    if n >= 2 {
        lemma_floor_log2_monotone(n / 2, m / 2);
    }
}

/// The steps of the logarithm rise, from 0 to one whole.
pub proof fn lemma_steps_rise(j: int)
    requires
        0 <= j < 64,
    ensures
        0 <= log2_step(j) < log2_step(j + 1) <= 65536,
        log2_step(0) == 0,
        log2_step(64) == 65536,
{
}

proof fn lemma_steps_ordered(i: int, j: int)
    requires
        0 <= i <= j <= 64,
    ensures
        log2_step(i) <= log2_step(j),
    decreases j - i,
{
    if i < j {
        lemma_steps_rise(j - 1);
        lemma_steps_ordered(i, j - 1);
    }
}

/// The binary places of a number stay under 2^32 and never fall as the
/// number grows towards the next power of two.
pub proof fn lemma_mantissa_bound(n: nat, m: nat)
    requires
        1 <= n <= m,
        floor_log2(n) == floor_log2(m),
    ensures
        0 <= spec_mantissa(n) <= spec_mantissa(m) < 0x1_0000_0000,
{
    let p = pow2(floor_log2(n)) as int;
    lemma_floor_log2_bracket(n);
    lemma_floor_log2_bracket(m);
    let (a, b) = (n - p, m - p);
    assert(0 <= (a * 0x1_0000_0000) / p <= (b * 0x1_0000_0000) / p < 0x1_0000_0000)
        by (nonlinear_arith)
        requires
            0 <= a <= b < p,
    ;
}

/// The fraction lies between the step that the number has reached and the
/// next, and stays under one whole.
pub proof fn lemma_log2_fraction_bound(m: int)
    requires
        0 <= m < 0x1_0000_0000,
    ensures
        0 <= m / 0x400_0000 < 64,
        log2_step(m / 0x400_0000) <= spec_log2_fraction(m) < log2_step(m / 0x400_0000 + 1),
        0 <= spec_log2_fraction(m) < 65536,
{
    let j = m / 0x400_0000;
    let q = m % 0x400_0000;
    lemma_steps_rise(j);
    let delta = log2_step(j + 1) - log2_step(j);
    assert(0 <= (delta * q) / 0x400_0000 < delta) by (nonlinear_arith)
        requires
            0 <= q < 0x400_0000,
            0 < delta,
    ;
}

proof fn lemma_log2_fraction_monotone(a: int, b: int)
    requires
        0 <= a <= b < 0x1_0000_0000,
    ensures
        spec_log2_fraction(a) <= spec_log2_fraction(b),
{
    let (ja, jb) = (a / 0x400_0000, b / 0x400_0000);
    let (qa, qb) = (a % 0x400_0000, b % 0x400_0000);
    lemma_log2_fraction_bound(a);
    lemma_log2_fraction_bound(b);
    if ja == jb {
        let delta = log2_step(ja + 1) - log2_step(ja);
        lemma_steps_rise(ja);
        assert((delta * qa) / 0x400_0000 <= (delta * qb) / 0x400_0000) by (nonlinear_arith)
            requires
                0 <= qa <= qb,
                0 < delta,
        ;
    } else {
        lemma_steps_ordered(ja + 1, jb);
    }
}

/// The fixed-point logarithm never falls as its argument grows.
pub proof fn lemma_log2_fixed_monotone(n: nat, m: nat)
    requires
        n <= m,
    ensures
        spec_log2_fixed(n) <= spec_log2_fixed(m),
{
    if n >= 1 {
        let kn = floor_log2(n);
        let km = floor_log2(m);
        lemma_floor_log2_monotone(n, m);
        lemma_mantissa_bound(n, n);
        lemma_mantissa_bound(m, m);
        lemma_log2_fraction_bound(spec_mantissa(n));
        lemma_log2_fraction_bound(spec_mantissa(m));
        if kn == km {
            lemma_mantissa_bound(n, m);
            lemma_log2_fraction_monotone(spec_mantissa(n), spec_mantissa(m));
        } else {
            assert(kn * 65536 + 65536 <= km * 65536);
        }
    }
}

/// The fixed-point logarithm is exact at the powers of two.
pub proof fn lemma_log2_fixed_of_pow2(k: nat)
    ensures
        spec_log2_fixed(pow2(k)) == k * 65536,
{
    vstd::arithmetic::power2::lemma_pow2_pos(k);
    lemma_floor_log2_unique(pow2(k), k);
    let p = pow2(k) as int;
    let zero: int = pow2(k) - p;
    assert((zero * 0x1_0000_0000) / p == 0) by (nonlinear_arith)
        requires
            p > 0,
            zero == 0,
    ;
    assert(spec_mantissa(pow2(k)) == 0);
    let delta = log2_step(1) - log2_step(0);
    let q: int = 0int % 0x400_0000;
    assert((delta * q) / 0x400_0000 == 0) by (nonlinear_arith)
        requires
            q == 0,
    ;
    assert(spec_log2_fraction(0) == 0);
}

pub proof fn lemma_log2_fixed_bound(n: nat)
    requires
        n <= u128::MAX,
    ensures
        spec_log2_fixed(n) < 128 * 65536,
{
    if n >= 1 {
        let k = floor_log2(n);
        lemma_floor_log2_bracket(n);
        lemma_mantissa_bound(n, n);
        lemma_log2_fraction_bound(spec_mantissa(n));
        if k >= 128 {
            lemma_pow2_127();
            vstd::arithmetic::power2::lemma_pow2_unfold(128);
            if k > 128 {
                vstd::arithmetic::power2::lemma_pow2_strictly_increases(128, k);
            }
        }
    }
}

proof fn lemma_pow2_127()
    ensures
        pow2(127) == 0x8000_0000_0000_0000_0000_0000_0000_0000,
        pow2(32) == 0x1_0000_0000,
{
    vstd::arithmetic::power2::lemma2_to64();
    vstd::arithmetic::power2::lemma2_to64_rest();
    vstd::arithmetic::power2::lemma_pow2_adds(63, 64);
}

fn log2_step_at(j: u64) -> (step: u64)
    requires
        j <= 64,
    ensures
        step == log2_step(j as int),
{
    if j <= 0 {
        0
    } else if j == 1 {
        1465
    } else if j == 2 {
        2909
    } else if j == 3 {
        4331
    } else if j == 4 {
        5731
    } else if j == 5 {
        7112
    } else if j == 6 {
        8472
    } else if j == 7 {
        9813
    } else if j == 8 {
        11136
    } else if j == 9 {
        12440
    } else if j == 10 {
        13726
    } else if j == 11 {
        14995
    } else if j == 12 {
        16248
    } else if j == 13 {
        17484
    } else if j == 14 {
        18704
    } else if j == 15 {
        19908
    } else if j == 16 {
        21097
    } else if j == 17 {
        22272
    } else if j == 18 {
        23432
    } else if j == 19 {
        24578
    } else if j == 20 {
        25710
    } else if j == 21 {
        26829
    } else if j == 22 {
        27935
    } else if j == 23 {
        29028
    } else if j == 24 {
        30109
    } else if j == 25 {
        31177
    } else if j == 26 {
        32234
    } else if j == 27 {
        33278
    } else if j == 28 {
        34312
    } else if j == 29 {
        35334
    } else if j == 30 {
        36345
    } else if j == 31 {
        37346
    } else if j == 32 {
        38336
    } else if j == 33 {
        39315
    } else if j == 34 {
        40285
    } else if j == 35 {
        41245
    } else if j == 36 {
        42195
    } else if j == 37 {
        43136
    } else if j == 38 {
        44068
    } else if j == 39 {
        44990
    } else if j == 40 {
        45904
    } else if j == 41 {
        46808
    } else if j == 42 {
        47704
    } else if j == 43 {
        48592
    } else if j == 44 {
        49472
    } else if j == 45 {
        50343
    } else if j == 46 {
        51207
    } else if j == 47 {
        52062
    } else if j == 48 {
        52910
    } else if j == 49 {
        53751
    } else if j == 50 {
        54584
    } else if j == 51 {
        55410
    } else if j == 52 {
        56228
    } else if j == 53 {
        57040
    } else if j == 54 {
        57844
    } else if j == 55 {
        58642
    } else if j == 56 {
        59433
    } else if j == 57 {
        60218
    } else if j == 58 {
        60996
    } else if j == 59 {
        61768
    } else if j == 60 {
        62534
    } else if j == 61 {
        63293
    } else if j == 62 {
        64047
    } else if j == 63 {
        64794
    } else {
        65536
    }
}

/// The binary logarithm of `n` in units of 1/65536.
pub fn log2_fixed(n: u128) -> (log: u64)
    ensures
        log == spec_log2_fixed(n as nat),
        log < 128 * 65536,
{
    proof {
        lemma_log2_fixed_bound(n as nat);
    }
    if n == 0 {
        return 0;
    }
    let mut k: u64 = 0;
    let mut p: u128 = 1;
    proof {
        vstd::arithmetic::power2::lemma2_to64();
        lemma_pow2_127();
    }
    while p <= n / 2
        invariant
            1 <= n,
            1 <= p,
            p == pow2(k as nat),
            p <= n,
            k <= 127,
            pow2(127) == 0x8000_0000_0000_0000_0000_0000_0000_0000,
        decreases n - p,
    {
        proof {
            vstd::arithmetic::power2::lemma_pow2_unfold((k + 1) as nat);
            if k >= 127 {
                vstd::arithmetic::power2::lemma_pow2_strictly_increases(127, (k + 1) as nat);
            }
        }
        p = p * 2;
        k = k + 1;
    }
    let rest: u128 = n - p;
    proof {
        lemma_floor_log2_unique(n as nat, k as nat);
        lemma_mantissa_bound(n as nat, n as nat);
        lemma_log2_fraction_bound(spec_mantissa(n as nat));
    }
    let places: u128 = if k >= 32 {
        proof {
            lemma_pow2_127();
            vstd::arithmetic::power2::lemma_pow2_adds(32, (k - 32) as nat);
            vstd::arithmetic::power2::lemma_pow2_pos((k - 32) as nat);
            let u = pow2((k - 32) as nat) as int;
            assert(p == 0x1_0000_0000 * u);
            assert(p / 0x1_0000_0000 == u) by (nonlinear_arith)
                requires
                    p == 0x1_0000_0000 * u,
            ;
            vstd::arithmetic::div_mod::lemma_div_multiples_vanish_quotient(
                0x1_0000_0000,
                rest as int,
                u,
            );
            assert(0x1_0000_0000 * (rest as int) == (rest as int) * 0x1_0000_0000)
                by (nonlinear_arith);
        }
        let unit: u128 = p / 0x1_0000_0000;
        rest / unit
    } else {
        proof {
            vstd::arithmetic::power2::lemma_pow2_strictly_increases(k as nat, 32);
            lemma_pow2_127();
        }
        (rest * 0x1_0000_0000) / p
    };
    let j: u64 = (places / 0x400_0000) as u64;
    let q: u64 = (places % 0x400_0000) as u64;
    proof {
        lemma_steps_rise(j as int);
    }
    let low: u64 = log2_step_at(j);
    let delta: u64 = log2_step_at(j + 1) - low;
    k * 65536 + low + (delta * q) / 0x400_0000
}

/// `a / b` rounded towards minus infinity.
pub fn floor_div(a: i128, b: i128) -> (q: i128)
    requires
        b > 0,
        -0x4000_0000_0000_0000_0000_0000_0000_0000 <= a <= 0x4000_0000_0000_0000_0000_0000_0000_0000,
        b <= 0x4000_0000_0000_0000_0000_0000_0000_0000,
    ensures
        q == a / b,
{
    if a >= 0 {
        a / b
    } else {
        let up: i128 = (-a + (b - 1)) / b;
        proof {
            let n = -a as int;
            let d = b as int;
            assert((-n) / d == -((n + (d - 1)) / d)) by (nonlinear_arith)
                requires
                    n > 0,
                    d > 0,
            ;
        }
        -up
    }
}

} // verus!
