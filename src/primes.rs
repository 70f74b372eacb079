use vstd::arithmetic::power::*;
use vstd::arithmetic::power2::*;
use vstd::prelude::*;

use crate::bignat::{
    bit_len, bits, eq, from_u64, is_even, le, lemma_bit_len_bounds, lemma_pow2_zero, mod_pow, one, random_bits,
    random_range, set_bit, shr, subtract, BigNat,
};
use crate::error::VdfError;

verus! {

/// `x` squared `k` times in a row, each time reduced modulo `n`.
pub open spec fn square_chain(x: nat, n: nat, k: nat) -> nat
    decreases k,
{
    if k == 0 {
        x
    } else {
        let p = square_chain(x, n, (k - 1) as nat);
        (p * p) % n
    }
}

/// `m` with every factor two taken out.
pub open spec fn odd_part(m: nat) -> nat
    decreases m,
{
    if m > 0 && m % 2 == 0 {
        odd_part(m / 2)
    } else {
        m
    }
}

/// How many times two divides `m` (for `m > 0`).
pub open spec fn two_exponent(m: nat) -> nat
    decreases m,
{
    if m > 0 && m % 2 == 0 {
        1 + two_exponent(m / 2)
    } else {
        0
    }
}

/// Whether `n` passes the Miller-Rabin test for base `a`: with
/// `n - 1 = 2^s * d` and `d` odd, `a^d` is 1 or `n - 1` modulo `n`, or one
/// of its next `s - 1` squarings modulo `n` is `n - 1`.
pub open spec fn passes_base(n: nat, a: nat) -> bool {
    let m = (n - 1) as nat;
    let x = (pow(a as int, odd_part(m)) % (n as int)) as nat;
    x == 1 || exists|j: nat| j < two_exponent(m) && #[trigger] square_chain(x, n, j) == m
}

/// Whether some base in `[2, n - 2)` passes for `n`.
pub open spec fn has_passing_base(n: nat) -> bool {
    exists|a: nat| 2 <= a < n - 2 && #[trigger] passes_base(n, a)
}

/// The test of one base, `n - 1 = 2^s * d` already known.
fn base_passes(n: &BigNat, n_minus_1: &BigNat, d: &BigNat, s: u64, a: &BigNat) -> (r: bool)
    requires
        n@ > 3,
        n@ % 2 == 1,
        n_minus_1@ == n@ - 1,
        d@ == odd_part(n_minus_1@),
        s == two_exponent(n_minus_1@),
    ensures
        r == passes_base(n@, a@),
{
    let one = one();
    let two = from_u64(2);
    let mut x = mod_pow(a, d, n);
    let ghost x0 = x@;
    if eq(&x, &one) || eq(&x, n_minus_1) {
        proof {
            if x@ != 1 {
                assert(two_exponent(n_minus_1@) >= 1);
                assert(square_chain(x0, n@, 0) == n_minus_1@);
            }
        }
        return true;
    }
    let mut j: u64 = 1;
    while j < s
        invariant
            1 <= j,
            j <= s || s == 0,
            n@ > 3,
            n_minus_1@ == n@ - 1,
            s == two_exponent(n_minus_1@),
            two@ == 2,
            x0 == (pow(a@ as int, odd_part(n_minus_1@)) % (n@ as int)) as nat,
            x0 != 1,
            x@ == square_chain(x0, n@, (j - 1) as nat),
            forall|i: nat| i < j ==> #[trigger] square_chain(x0, n@, i) != n_minus_1@,
        decreases s - j,
    {
        let ghost prev = x@;
        x = mod_pow(&x, &two, n);
        proof {
            lemma_square_is_pow2(prev as int);
            assert(x@ == square_chain(x0, n@, j as nat));
        }
        if eq(&x, n_minus_1) {
            return true;
        }
        j = j + 1;
    }
    false
}

/// Splits `m > 0` into `2^s * d` with `d` odd.
fn decompose(m: &BigNat) -> (r: (BigNat, u64))
    requires
        m@ > 0,
    ensures
        r.0@ == odd_part(m@),
        r.1 == two_exponent(m@),
{
    let width = bits(m);
    proof {
        lemma_bit_len_bounds(m@);
    }
    let mut d = BigNat::from_be_bytes(m.to_be_bytes());
    let mut s: u64 = 0;
    proof {
        lemma_pow2_zero();
    }
    while is_even(&d)
        invariant
            d@ > 0,
            odd_part(d@) == odd_part(m@),
            two_exponent(m@) == s + two_exponent(d@),
            pow2(s as nat) * d@ == m@,
            m@ < pow2(width as nat),
        decreases d@,
    {
        proof {
            lemma_pow2_unfold((s + 1) as nat);
            assert(pow2((s + 1) as nat) * (d@ / 2) == m@) by (nonlinear_arith)
                requires
                    pow2((s + 1) as nat) == 2 * pow2(s as nat),
                    pow2(s as nat) * d@ == m@,
                    d@ % 2 == 0,
            ;
            assert(pow2((s + 1) as nat) <= m@) by (nonlinear_arith)
                requires
                    pow2((s + 1) as nat) * (d@ / 2) == m@,
                    d@ / 2 >= 1,
            ;
            if s + 1 > width {
                lemma_pow2_strictly_increases(width as nat, (s + 1) as nat);
            }
        }
        d = shr(&d, 1);
        s = s + 1;
        proof {
            lemma_pow2_unfold(1);
            lemma_pow2_zero();
        }
    }
    (d, s)
}

/// Whether `n` passes the Miller-Rabin test for base `a` (false for `n`
/// below four or even).
pub fn passes_base_for(n: &BigNat, a: &BigNat) -> (r: bool)
    ensures
        r == (n@ > 3 && n@ % 2 == 1 && passes_base(n@, a@)),
{
    let three = from_u64(3);
    if le(n, &three) || is_even(n) {
        return false;
    }
    let n_minus_1 = subtract(n, &one());
    let (d, s) = decompose(&n_minus_1);
    base_passes(n, &n_minus_1, &d, s, a)
}

/// Miller-Rabin test of `n` with `k` bases drawn at random from `[2, n - 2)`.
///
/// A `false` for an odd `n` above three is certain: some base shows `n`
/// composite. A `true` means that every drawn base (at least one) passed; it
/// is probable only, as a composite passes with probability at most `4^-k`.
pub fn is_probable_prime(n: &BigNat, k: usize) -> (r: bool)
    requires
        k >= 1,
    ensures
        n@ <= 1 ==> !r,
        n@ == 2 || n@ == 3 ==> r,
        n@ > 3 && n@ % 2 == 0 ==> !r,
        n@ > 3 && n@ % 2 == 1 && !r ==> exists|a: nat| 2 <= a < n@ - 2 && !passes_base(n@, a),
        n@ > 3 && n@ % 2 == 1 && r ==> has_passing_base(n@),
{
    let one = one();
    if le(n, &one) {
        return false;
    }
    if eq(n, &from_u64(2)) || eq(n, &from_u64(3)) {
        return true;
    }
    if is_even(n) {
        return false;
    }
    let two = from_u64(2);
    let n_minus_1 = subtract(n, &one);
    let n_minus_2 = subtract(n, &two);
    let (d, s) = decompose(&n_minus_1);
    let mut i: usize = 0;
    while i < k
        invariant
            n@ > 3,
            n@ % 2 == 1,
            two@ == 2,
            n_minus_1@ == n@ - 1,
            n_minus_2@ == n@ - 2,
            d@ == odd_part(n_minus_1@),
            s == two_exponent(n_minus_1@),
            k >= 1,
            i > 0 ==> has_passing_base(n@),
        decreases k - i,
    {
        let a = random_range(&two, &n_minus_2);
        if !base_passes(n, &n_minus_1, &d, s, &a) {
            return false;
        }
        assert(passes_base(n@, a@));
        i = i + 1;
    }
    true
}

/// Most draws of a candidate that `generate_prime` makes.
pub const PRIME_ATTEMPTS: u32 = 1000;

/// Miller-Rabin rounds that a freshly drawn challenge prime must pass.
pub const GENERATION_ROUNDS: usize = 20;

/// A random probable prime of exactly `bits` binary digits: odd numbers with
/// the top bit set are drawn until one passes `is_probable_prime` with
/// `GENERATION_ROUNDS` bases, at most `PRIME_ATTEMPTS` times.
pub fn generate_prime(bits: u64) -> (r: Result<BigNat, VdfError>)
    requires
        bits >= 2,
    ensures
        r is Ok ==> pow2((bits - 1) as nat) <= r->Ok_0@ < pow2(bits as nat),
        r is Ok ==> r->Ok_0@ % 2 == 1,
        r is Ok ==> r->Ok_0.is_minimal(),
        r is Ok ==> r->Ok_0@ == 3 || has_passing_base(r->Ok_0@),
        bits == 2 ==> r is Ok && r->Ok_0@ == 3,
        r is Err ==> r == Err::<BigNat, VdfError>(VdfError::PrimeGenerationExhausted),
{
    let mut attempt: u32 = 0;
    while attempt < PRIME_ATTEMPTS
        invariant
            bits >= 2,
            bits == 2 ==> attempt == 0,
        decreases PRIME_ATTEMPTS - attempt,
    {
        let mut candidate = random_bits(bits);
        let ghost c0 = candidate@;
        let ghost top = pow2((bits - 1) as nat);
        proof {
            lemma_pow2_zero();
            lemma_pow2_unfold(bits as nat);
            lemma_pow2_unfold((bits - 1) as nat);
        }
        set_bit(&mut candidate, 0);
        let ghost c1 = candidate@;
        proof {
            assert(c0 / 1 == c0);
            assert(c1 % 2 == 1);
            assert(c1 < 2 * top);
        }
        set_bit(&mut candidate, bits - 1);
        proof {
            if (c1 / top) % 2 == 1 {
                assert(c1 >= top) by (nonlinear_arith)
                    requires
                        (c1 / top) % 2 == 1,
                        top > 0,
                ;
            } else {
                assert(c1 / top < 2) by (nonlinear_arith)
                    requires
                        c1 < 2 * top,
                        top > 0,
                ;
                assert(c1 < top) by (nonlinear_arith)
                    requires
                        c1 / top == 0,
                        top > 0,
                ;
            }
        }
        proof {
            if bits == 2 {
                lemma_pow2_unfold(1);
                assert(candidate@ == 3);
            }
        }
        if is_probable_prime(&candidate, GENERATION_ROUNDS) {
            return Ok(candidate);
        }
        attempt = attempt + 1;
    }
    Err(VdfError::PrimeGenerationExhausted)
}

} // verus!
