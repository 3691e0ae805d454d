//! Powers of two and binary logarithms.

use vstd::arithmetic::power2::*;
use vstd::prelude::*;

verus! {

/// The position of the highest set bit of `n`, and 0 for 0.
pub open spec fn floor_log2(n: nat) -> nat
    decreases n,
{
    if n <= 1 {
        0
    } else {
        1 + floor_log2(n / 2)
    }
}

/// The smallest power of two that is not below `n`.
pub open spec fn next_pow2(n: nat) -> nat {
    if n <= 1 {
        1
    } else {
        pow2(floor_log2((n - 1) as nat) + 1)
    }
}

/// The exponent of [`next_pow2`].
pub open spec fn ceil_log2(n: nat) -> nat {
    if n <= 1 {
        0
    } else {
        floor_log2((n - 1) as nat) + 1
    }
}

/// `n` lies between two neighbouring powers of two, the lower of which has the exponent
/// `floor_log2(n)`.
pub proof fn lemma_floor_log2_bounds(n: nat)
    requires
        n >= 1,
    ensures
        pow2(floor_log2(n)) <= n < 2 * pow2(floor_log2(n)),
    decreases n,
{
    lemma2_to64();
    if n > 1 {
        lemma_floor_log2_bounds(n / 2);
        lemma_pow2_unfold(floor_log2(n));
    }
}

/// Two numbers between the same powers of two have the same logarithm.
pub proof fn lemma_floor_log2_unique(n: nat, k: nat)
    requires
        pow2(k) <= n < 2 * pow2(k),
    ensures
        floor_log2(n) == k,
    decreases k,
{
    lemma2_to64();
    if k > 0 {
        lemma_pow2_unfold(k);
        lemma_pow2_pos((k - 1) as nat);
        lemma_floor_log2_unique(n / 2, (k - 1) as nat);
    }
}

pub proof fn lemma_floor_log2_pow2(k: nat)
    ensures
        floor_log2(pow2(k)) == k,
{
    lemma_pow2_pos(k);
    lemma_floor_log2_unique(pow2(k), k);
}

/// Powers of two are ordered as their exponents.
pub proof fn lemma_pow2_mono(a: nat, b: nat)
    requires
        a <= b,
    ensures
        pow2(a) <= pow2(b),
{
    if a < b {
        lemma_pow2_strictly_increases(a, b);
    }
}

/// The logarithm is monotone.
pub proof fn lemma_floor_log2_mono(a: nat, b: nat)
    requires
        a <= b,
    ensures
        floor_log2(a) <= floor_log2(b),
    decreases b,
{
    if a > 1 {
        lemma_floor_log2_mono(a / 2, b / 2);
    }
}

/// [`next_pow2`] is the least power of two that is not below its argument.
pub proof fn lemma_next_pow2(n: nat)
    ensures
        n > 1 ==> next_pow2(n) < 2 * n,
        next_pow2(n) == pow2(ceil_log2(n)),
        next_pow2(n) >= n,
        next_pow2(n) >= 1,
        floor_log2(next_pow2(n)) == ceil_log2(n),
        forall|k: nat| #[trigger] pow2(k) >= n ==> pow2(k) >= next_pow2(n),
{
    lemma2_to64();
    lemma_floor_log2_pow2(ceil_log2(n));
    if n > 1 {
        let m = (n - 1) as nat;
        lemma_floor_log2_bounds(m);
        lemma_pow2_unfold(floor_log2(m) + 1);
    }
    assert forall|k: nat| #[trigger] pow2(k) >= n implies pow2(k) >= next_pow2(n) by {
        lemma_pow2_pos(k);
        if n > 1 {
            if k <= floor_log2((n - 1) as nat) {
                lemma_pow2_mono(k, floor_log2((n - 1) as nat));
                lemma_floor_log2_bounds((n - 1) as nat);
                assert(false);
            }
            lemma_pow2_mono(ceil_log2(n), k);
        }
    }
}

/// The binary logarithm of `n`, rounded down.
pub fn log2(n: usize) -> (k: u32)
    requires
        n > 0,
    ensures
        k == floor_log2(n as nat),
        k < usize::BITS,
        pow2(k as nat) <= n < 2 * pow2(k as nat),
{
    let mut m: usize = n;
    let mut k: u32 = 0;
    proof {
        lemma_floor_log2_bounds(n as nat);
        lemma2_to64();
        lemma2_to64_rest();
        if floor_log2(n as nat) >= usize::BITS {
            lemma_pow2_mono(usize::BITS as nat, floor_log2(n as nat));
        }
    }
    while m > 1
        invariant
            m > 0,
            k + floor_log2(m as nat) == floor_log2(n as nat),
            floor_log2(n as nat) < usize::BITS,
        decreases m,
    {
        m = m / 2;
        k = k + 1;
    }
    k
}

/// Whether `n` is a power of two.
pub fn is_power_of_two(n: usize) -> (r: bool)
    ensures
        r <==> n as nat == pow2(floor_log2(n as nat)),
        r <==> exists|k: nat| n as nat == #[trigger] pow2(k),
{
    let mut m: usize = n;
    let ghost mut k: nat = 0;
    proof {
        lemma2_to64();
        assert(n == m * pow2(0));
    }
    if n == 0 {
        assert forall|k: nat| n as nat != #[trigger] pow2(k) by {
            lemma_pow2_pos(k);
        }
        return false;
    }
    while m % 2 == 0
        invariant
            m > 0,
            n == m * pow2(k),
        decreases m,
    {
        proof {
            lemma_pow2_unfold(k + 1);
            let h = (m / 2) as int;
            assert(m == 2 * h);
            assert((2 * h) * pow2(k) == h * (2 * pow2(k))) by (nonlinear_arith);
            k = k + 1;
        }
        m = m / 2;
    }
    proof {
        if m == 1 {
            lemma_floor_log2_pow2(k);
            assert(n as nat == pow2(k));
        } else {
            assert forall|j: nat| n as nat != #[trigger] pow2(j) by {
                if n as nat == pow2(j) {
                    lemma_pow2_pos(k);
                    if j <= k {
                        lemma_pow2_mono(j, k);
                        assert(m * pow2(k) > pow2(k)) by (nonlinear_arith)
                            requires
                                m > 1,
                                pow2(k) > 0,
                        ;
                    } else {
                        let d = (j - k) as nat;
                        lemma_pow2_adds(k, d);
                        lemma_pow2_unfold(d);
                        let half = pow2((d - 1) as nat) as int;
                        assert(m == 2 * half) by (nonlinear_arith)
                            requires
                                m * pow2(k) == pow2(k) * (2 * half),
                                pow2(k) > 0,
                        ;
                        assert(false);
                    }
                }
            }
        }
    }
    m == 1
}

/// The smallest power of two that is not below `n`.
pub fn next_power_of_two(n: usize) -> (p: usize)
    requires
        next_pow2(n as nat) <= usize::MAX,
    ensures
        p == next_pow2(n as nat),
        p >= n,
        exists|k: nat| p == #[trigger] pow2(k),
        forall|k: nat| n <= #[trigger] pow2(k) ==> p <= pow2(k),
{
    proof {
        lemma_next_pow2(n as nat);
    }
    if n <= 1 {
        return 1;
    }
    let mut m: usize = n - 1;
    let mut p: usize = 1;
    let ghost mut k: nat = 0;
    proof {
        lemma2_to64();
    }
    while m > 0
        invariant
            p == pow2(k),
            n > 1,
            ceil_log2(n as nat) == k + (if m == 0 {
                0
            } else {
                floor_log2(m as nat) + 1
            }),
            next_pow2(n as nat) == pow2(ceil_log2(n as nat)),
            next_pow2(n as nat) <= usize::MAX,
        decreases m,
    {
        proof {
            lemma_pow2_unfold(k + 1);
            lemma_pow2_mono(k + 1, ceil_log2(n as nat));
            k = k + 1;
        }
        m = m / 2;
        p = p * 2;
    }
    p
}

/// `2` to the power `k`.
pub fn power_of_two(k: u32) -> (p: usize)
    requires
        k < usize::BITS,
    ensures
        p == pow2(k as nat),
{
    let mut p: usize = 1;
    let mut i: u32 = 0;
    proof {
        lemma2_to64();
        lemma2_to64_rest();
    }
    while i < k
        invariant
            i <= k < usize::BITS,
            p == pow2(i as nat),
        decreases k - i,
    {
        proof {
            lemma2_to64();
            lemma2_to64_rest();
            lemma_pow2_unfold((i + 1) as nat);
            lemma_pow2_mono((i + 1) as nat, (usize::BITS - 1) as nat);
        }
        p = p * 2;
        i = i + 1;
    }
    p
}

/// The number of times that 2 divides `n`, and 0 for 0.
pub open spec fn twos(n: nat) -> nat
    decreases n,
{
    if n == 0 || n % 2 == 1 {
        0
    } else {
        1 + twos(n / 2)
    }
}

/// The lowest set bit of `n`.
pub fn lowest_bit(n: usize) -> (p: usize)
    requires
        n > 0,
    ensures
        p == pow2(twos(n as nat)),
        0 < p <= n,
        n % p == 0,
        n as nat % (2 * p as nat) != 0,
        exists|k: nat| p == #[trigger] pow2(k),
{
    let mut m: usize = n;
    let mut p: usize = 1;
    let ghost mut k: nat = 0;
    proof {
        lemma2_to64();
    }
    while m % 2 == 0
        invariant
            m > 0,
            p == pow2(k),
            m * p <= n,
            twos(n as nat) == k + twos(m as nat),
        decreases m,
    {
        proof {
            lemma_pow2_unfold(k + 1);
            let h: int = (m / 2) as int;
            assert(h * (2 * p) == m * p) by (nonlinear_arith)
                requires
                    m == 2 * h,
            ;
            assert(2 * p <= h * (2 * p)) by (nonlinear_arith)
                requires
                    h >= 1,
                    p >= 0,
            ;
            k = k + 1;
        }
        m = m / 2;
        p = p * 2;
    }
    proof {
        assert(p <= m * p) by (nonlinear_arith)
            requires
                m >= 1,
                p >= 0,
        ;
        lemma_twos_divides(n as nat);
        lemma_pow2_unfold(twos(n as nat) + 1);
        lemma_pow2_pos(k);
    }
    p
}

/// Half of a multiple of `2 * m` is a multiple of `m`.
proof fn lemma_half_multiple(n: nat, m: nat)
    requires
        n % 2 == 0,
        m > 0,
        n % (2 * m) == 0,
    ensures
        (n / 2) % m == 0,
{
    let q = n / (2 * m);
    vstd::arithmetic::div_mod::lemma_fundamental_div_mod(n as int, (2 * m) as int);
    assert(n / 2 == q * m) by (nonlinear_arith)
        requires
            n == (2 * m) * q,
    ;
    vstd::arithmetic::div_mod::lemma_mod_multiples_basic(q as int, m as int);
}

/// `n` is a multiple of the power of two that [`twos`] gives, and not of the next one.
pub proof fn lemma_twos_divides(n: nat)
    requires
        n > 0,
    ensures
        n % pow2(twos(n)) == 0,
        n % pow2(twos(n) + 1) != 0,
        pow2(twos(n)) <= n,
    decreases n,
{
    lemma2_to64();
    if n % 2 == 0 {
        lemma_twos_divides(n / 2);
        lemma_pow2_unfold(twos(n / 2) + 2);
        lemma_pow2_pos(twos(n / 2) + 1);
        if n % pow2(twos(n) + 1) == 0 {
            lemma_half_multiple(n, pow2(twos(n / 2) + 1));
        }
        let k = twos(n / 2);
        lemma_pow2_unfold(k + 1);
        lemma_pow2_pos(k);
        let q = (n / 2) / pow2(k);
        vstd::arithmetic::div_mod::lemma_fundamental_div_mod((n / 2) as int, pow2(k) as int);
        assert(n == q * (2 * pow2(k))) by (nonlinear_arith)
            requires
                n == 2 * (n / 2),
                n / 2 == pow2(k) * q,
        ;
        vstd::arithmetic::div_mod::lemma_mod_multiples_basic(q as int, (2 * pow2(k)) as int);
    }
}

} // verus!
