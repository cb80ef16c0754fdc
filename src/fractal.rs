use vstd::prelude::*;
use vstd::arithmetic::div_mod::lemma_fundamental_div_mod_converse;
use crate::fixed::ONE;

verus! {

/// The largest accepted frequency of any octave, in millionths.
pub const MAX_FREQUENCY: u64 = 0x100_0000_0000;

/// The weight of octave `k` for a persistence `p`: starting at one, each
/// octave keeps `p` of the previous weight, rounded down to a millionth.
pub open spec fn amplitude(p: int, k: nat) -> int
    decreases k,
{
    if k == 0 {
        ONE as int
    } else {
        amplitude(p, (k - 1) as nat) * p / (ONE as int)
    }
}

/// The frequency of octave `k` for a lacunarity `l`: starting at one, each
/// octave multiplies the previous frequency by `l`, rounded down to a
/// millionth.
pub open spec fn frequency(l: int, k: nat) -> int
    decreases k,
{
    if k == 0 {
        ONE as int
    } else {
        frequency(l, (k - 1) as nat) * l / (ONE as int)
    }
}

/// The noise samples of one point, octave by octave, each times its
/// octave's weight, summed (in millionths of millionths).
pub open spec fn weighted_sum(samples: Seq<i64>, p: int) -> int
    decreases samples.len(),
{
    if samples.len() == 0 {
        0
    } else {
        weighted_sum(samples.drop_last(), p) + samples.last() * amplitude(p, (samples.len() - 1) as nat)
    }
}

/// A weighted sum mapped from `[-1, 1]` onto `[0, 1]`, in millionths,
/// rounded down; values outside the range are kept as they are.
pub open spec fn normalized_height(total: int) -> int {
    (total + (ONE as int) * (ONE as int)) / (2 * (ONE as int))
}

/// Each octave's weight is at most the one before it, and strictly less
/// while it is positive and the persistence is below one.
pub proof fn lemma_amplitude_decays(p: int, k: nat)
    requires
        0 <= p < ONE,
    ensures
        0 <= amplitude(p, k + 1) <= amplitude(p, k) <= ONE,
        amplitude(p, k) > 0 ==> amplitude(p, k + 1) < amplitude(p, k),
    decreases k,
{
    lemma_amplitude_bounded(p, k);
    let a = amplitude(p, k);
    assert(amplitude(p, k + 1) == a * p / (ONE as int));
    assert(0 <= a * p / (ONE as int) <= a) by (nonlinear_arith)
        requires
            0 <= a,
            0 <= p < 1_000_000,
    ;
    if a > 0 {
        assert(a * p / (ONE as int) < a) by (nonlinear_arith)
            requires
                0 < a,
                0 <= p < 1_000_000,
        ;
    }
}

/// The weight of octave `k` never exceeds `p^k` (in millionths): rounding
/// only ever takes away.
pub proof fn lemma_amplitude_below_power(p: int, k: nat)
    requires
        0 <= p <= ONE,
    ensures
        amplitude(p, k) * vstd::arithmetic::power::pow(ONE as int, k) <= (ONE as int) * vstd::arithmetic::power::pow(p, k),
    decreases k,
{
    vstd::arithmetic::power::lemma_pow0(ONE as int);
    vstd::arithmetic::power::lemma_pow0(p);
    if k > 0 {
        let j = (k - 1) as nat;
        lemma_amplitude_below_power(p, j);
        lemma_amplitude_bounded(p, j);
        vstd::arithmetic::power::lemma_pow_adds(ONE as int, j, 1);
        vstd::arithmetic::power::lemma_pow_adds(p, j, 1);
        vstd::arithmetic::power::lemma_pow1(ONE as int);
        vstd::arithmetic::power::lemma_pow1(p);
        vstd::arithmetic::power::lemma_pow_positive(ONE as int, j);
        let a = amplitude(p, j);
        let po = vstd::arithmetic::power::pow(ONE as int, j);
        let pp = vstd::arithmetic::power::pow(p, j);
        assert(amplitude(p, k) == a * p / (ONE as int));
        assert((a * p / (ONE as int)) * (po * (ONE as int)) <= (ONE as int) * (pp * p)) by (nonlinear_arith)
            requires
                0 <= a,
                0 <= p,
                po > 0,
                a * po <= 1_000_000 * pp,
        ;
    }
}

/// For a persistence strictly between zero and one, every octave up to one
/// whose weight is still positive weighs strictly less than every earlier
/// octave. Weights are millionths rounded down, so past that octave they
/// may all be zero.
pub proof fn lemma_weights_decrease(p: int, k: nat, j: nat)
    requires
        0 < p < ONE,
        k < j,
        amplitude(p, j) > 0,
    ensures
        0 < amplitude(p, j) < amplitude(p, k),
{
    lemma_amplitude_falls(p, k + 1, j);
    lemma_amplitude_decays(p, k);
}

/// The weight of octave `k` falls short of `p^k` (in millionths) by less
/// than `k` millionths: each octave's rounding takes away under one unit.
pub proof fn lemma_amplitude_above_power(p: int, k: nat)
    requires
        0 <= p <= ONE,
    ensures
        (ONE as int) * vstd::arithmetic::power::pow(p, k) - (k as int) * vstd::arithmetic::power::pow(ONE as int, k)
            <= amplitude(p, k) * vstd::arithmetic::power::pow(ONE as int, k),
    decreases k,
{
    vstd::arithmetic::power::lemma_pow0(ONE as int);
    vstd::arithmetic::power::lemma_pow0(p);
    if k > 0 {
        let j = (k - 1) as nat;
        lemma_amplitude_above_power(p, j);
        lemma_amplitude_bounded(p, j);
        vstd::arithmetic::power::lemma_pow_adds(ONE as int, j, 1);
        vstd::arithmetic::power::lemma_pow_adds(p, j, 1);
        vstd::arithmetic::power::lemma_pow1(ONE as int);
        vstd::arithmetic::power::lemma_pow1(p);
        vstd::arithmetic::power::lemma_pow_positive(ONE as int, j);
        let a = amplitude(p, j);
        let na = amplitude(p, k);
        let po = vstd::arithmetic::power::pow(ONE as int, j);
        let pp = vstd::arithmetic::power::pow(p, j);
        assert(na == a * p / (ONE as int));
        assert(na * 1_000_000 > a * p - 1_000_000) by (nonlinear_arith)
            requires
                na == a * p / 1_000_000,
        ;
        assert(na * (po * 1_000_000) >= (a * p - 1_000_000) * po) by (nonlinear_arith)
            requires
                na * 1_000_000 > a * p - 1_000_000,
                po > 0,
        ;
        assert((a * p - 1_000_000) * po >= 1_000_000 * (pp * p) - (k as int) * (po * 1_000_000)) by (nonlinear_arith)
            requires
                1_000_000 * pp - (j as int) * po <= a * po,
                0 <= p <= 1_000_000,
                po > 0,
                j >= 0,
                k == j + 1,
        ;
    }
}

/// Weights never rise from one octave to a later one, for a persistence
/// in `[0, 1]`.
pub proof fn lemma_amplitude_falls(p: int, i: nat, j: nat)
    requires
        0 <= p <= ONE,
        i <= j,
    ensures
        amplitude(p, j) <= amplitude(p, i),
    decreases j - i,
{
    if i < j {
        lemma_amplitude_falls(p, i, (j - 1) as nat);
        lemma_amplitude_bounded(p, (j - 1) as nat);
        let a = amplitude(p, (j - 1) as nat);
        assert(a * p / (ONE as int) <= a) by (nonlinear_arith)
            requires
                0 <= a,
                0 <= p <= 1_000_000,
        ;
    }
}

/// Weights stay between zero and one for a persistence in `[0, 1]`.
pub proof fn lemma_amplitude_bounded(p: int, k: nat)
    requires
        0 <= p <= ONE,
    ensures
        0 <= amplitude(p, k) <= ONE,
    decreases k,
{
    if k > 0 {
        lemma_amplitude_bounded(p, (k - 1) as nat);
        let a = amplitude(p, (k - 1) as nat);
        assert(0 <= a * p / (ONE as int) <= a) by (nonlinear_arith)
            requires
                0 <= a,
                0 <= p <= 1_000_000,
        ;
    }
}

/// With a lacunarity of at least one, frequencies never fall.
pub proof fn lemma_frequency_grows(l: int, i: nat, j: nat)
    requires
        l >= ONE,
        i <= j,
    ensures
        ONE <= frequency(l, i) <= frequency(l, j),
    decreases j,
{
    if j > 0 {
        let i2: nat = if i < j { i } else { (j - 1) as nat };
        lemma_frequency_grows(l, i2, (j - 1) as nat);
        let f = frequency(l, (j - 1) as nat);
        assert(f <= f * l / (ONE as int)) by (nonlinear_arith)
            requires
                f >= 1_000_000,
                l >= 1_000_000,
        ;
    }
}

/// The weight of octave `k`, for a persistence of at most one.
pub fn octave_amplitude(p: u64, k: u32) -> (a: u64)
    requires
        p <= ONE,
    ensures
        a == amplitude(p as int, k as nat),
{
    let mut a: u64 = ONE;
    let mut i: u32 = 0;
    while i < k
        invariant
            i <= k,
            p <= ONE,
            a == amplitude(p as int, i as nat),
        decreases k - i,
    {
        proof {
            lemma_amplitude_bounded(p as int, i as nat);
            assert(a * p <= ONE * ONE) by (nonlinear_arith)
                requires
                    a <= 1_000_000,
                    p <= 1_000_000,
            ;
        }
        a = ((a as u128) * (p as u128) / (ONE as u128)) as u64;
        proof {
            lemma_amplitude_bounded(p as int, (i + 1) as nat);
        }
        i = i + 1;
    }
    a
}

/// The frequency of octave `k`, for a lacunarity of at least one.
pub fn octave_frequency(l: u64, k: u32) -> (f: u64)
    requires
        l >= ONE,
        frequency(l as int, k as nat) <= MAX_FREQUENCY,
    ensures
        f == frequency(l as int, k as nat),
{
    let mut f: u64 = ONE;
    let mut i: u32 = 0;
    while i < k
        invariant
            i <= k,
            l >= ONE,
            frequency(l as int, k as nat) <= MAX_FREQUENCY,
            f == frequency(l as int, i as nat),
        decreases k - i,
    {
        proof {
            lemma_frequency_grows(l as int, i as nat, k as nat);
            lemma_frequency_grows(l as int, (i + 1) as nat, k as nat);
            assert(f * l <= 0x100_0000_0000 * 0x1_0000_0000_0000_0000) by (nonlinear_arith)
                requires
                    f <= 0x100_0000_0000,
                    l < 0x1_0000_0000_0000_0000,
            ;
        }
        f = ((f as u128) * (l as u128) / (ONE as u128)) as u64;
        i = i + 1;
    }
    f
}

/// Floor division of a signed value by a positive one.
fn floor_div(n: i128, d: i128) -> (q: i128)
    requires
        d > 0,
        n > i128::MIN,
    ensures
        q == n / d,
{
    if n >= 0 {
        let q = ((n as u128) / (d as u128)) as i128;
        q
    } else {
        let m: u128 = (-n) as u128;
        let c: u128 = (m + (d as u128) - 1) / (d as u128);
        proof {
            let mi = m as int;
            let di = d as int;
            let ci = c as int;
            assert(ci * di <= mi + di - 1 && (ci + 1) * di > mi + di - 1) by (nonlinear_arith)
                requires
                    di > 0,
                    mi >= 0,
                    ci == (mi + di - 1) / di,
            ;
            assert(ci <= mi) by (nonlinear_arith)
                requires
                    di > 0,
                    mi >= 1,
                    ci * di <= mi + di - 1,
            ;
            let r = ci * di - mi;
            assert(0 <= r < di) by (nonlinear_arith)
                requires
                    r == ci * di - mi,
                    ci * di <= mi + di - 1,
                    (ci + 1) * di > mi + di - 1,
            ;
            assert(n as int == (-ci) * di + r) by (nonlinear_arith)
                requires
                    r == ci * di - mi,
                    n as int == -mi,
            ;
            lemma_fundamental_div_mod_converse(n as int, di, -ci, r);
        }
        -(c as i128)
    }
}

/// The largest sample magnitude times the largest weight.
pub open spec fn term_bound() -> int {
    0x8000_0000_0000_0000 * (ONE as int)
}

/// The weighted sum of `count` octave samples that start at `start`.
pub fn weighted_sum_of(samples: &Vec<i64>, start: usize, count: u32, p: u64) -> (t: i128)
    requires
        p <= ONE,
        start + count <= samples@.len(),
    ensures
        t == weighted_sum(samples@.subrange(start as int, start + count), p as int),
        -(count as int) * term_bound() <= t <= (count as int) * term_bound(),
{
    let mut t: i128 = 0;
    let mut a: u64 = ONE;
    let mut j: u32 = 0;
    let len = samples.len();
    proof {
        assert(samples@.subrange(start as int, start as int) =~= Seq::<i64>::empty());
    }
    while j < count
        invariant
            j <= count,
            p <= ONE,
            start + count <= samples@.len(),
            len == samples@.len(),
            a == amplitude(p as int, j as nat),
            t == weighted_sum(samples@.subrange(start as int, start + j), p as int),
            -(j as int) * term_bound() <= t <= (j as int) * term_bound(),
        decreases count - j,
    {
        proof {
            lemma_amplitude_bounded(p as int, j as nat);
        }
        let idx: usize = start + j as usize;
        let s = samples[idx];
        proof {
            assert(-term_bound() <= (s as int) * (a as int) <= term_bound()) by (nonlinear_arith)
                requires
                    -0x8000_0000_0000_0000 <= s < 0x8000_0000_0000_0000,
                    0 <= a <= 1_000_000,
            ;
        }
        let term: i128 = (s as i128) * (a as i128);
        proof {
            let next = samples@.subrange(start as int, start + j + 1);
            assert(next.drop_last() =~= samples@.subrange(start as int, start + j));
            assert(next.last() == s);
            assert(0x1_0000_0000 * term_bound() < 0x7fff_ffff_ffff_ffff_ffff_ffff_ffff_ffff);
            assert((j as int) * term_bound() + term_bound() == ((j + 1) as int) * term_bound()) by (nonlinear_arith);
            assert(-(j as int) * term_bound() - term_bound() == -((j + 1) as int) * term_bound()) by (nonlinear_arith);
            assert(((j + 1) as int) * term_bound() <= 0x1_0000_0000 * term_bound()) by (nonlinear_arith)
                requires
                    j + 1 <= 0x1_0000_0000,
                    term_bound() > 0,
            ;
        }
        t = t + term;
        proof {
            assert(a * p <= ONE * ONE) by (nonlinear_arith)
                requires
                    a <= 1_000_000,
                    p <= 1_000_000,
            ;
        }
        a = ((a as u128) * (p as u128) / (ONE as u128)) as u64;
        j = j + 1;
    }
    t
}

/// The normalised height, in millionths, of a point whose octave samples
/// are `samples`, for a persistence of at most one.
pub fn fractal_height(samples: &Vec<i64>, p: u64) -> (h: i128)
    requires
        p <= ONE,
        samples@.len() <= u32::MAX,
    ensures
        h == normalized_height(weighted_sum(samples@, p as int)),
{
    let t = weighted_sum_of(samples, 0, samples.len() as u32, p);
    proof {
        assert(samples@.subrange(0, samples@.len() as int) =~= samples@);
        assert((samples@.len() as int) * term_bound() <= 0x1_0000_0000 * term_bound()) by (nonlinear_arith)
            requires
                samples@.len() <= 0xffff_ffff,
                term_bound() > 0,
        ;
    }
    height_of_sum(t, samples.len() as u32)
}

/// Normalises a weighted sum of at most `count` octaves.
pub fn height_of_sum(t: i128, count: u32) -> (h: i128)
    requires
        -(count as int) * term_bound() <= t <= (count as int) * term_bound(),
    ensures
        h == normalized_height(t as int),
{
    proof {
        assert((count as int) * term_bound() <= 0x1_0000_0000 * term_bound()) by (nonlinear_arith)
            requires
                count <= 0xffff_ffff,
                term_bound() > 0,
        ;
    }
    let one = ONE as i128;
    floor_div(t + one * one, 2 * one)
}

} // verus!
