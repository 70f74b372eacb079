use vstd::arithmetic::power::*;
use vstd::arithmetic::power2::*;
use vstd::prelude::*;

use num_bigint::{BigUint, RandBigInt};
use num_integer::Integer;

verus! {

/// The natural number written by `s` in base 256, most significant byte first.
pub open spec fn be_value(s: Seq<u8>) -> nat
    decreases s.len(),
{
    if s.len() == 0 {
        0
    } else {
        be_value(s.drop_last()) * 256 + s.last() as nat
    }
}

/// The shortest big-endian byte string of `v`: one byte for every value below
/// 256 (zero is the single byte 0), and no leading zero byte otherwise.
pub open spec fn min_be(v: nat) -> Seq<u8>
    decreases v,
{
    if v < 256 {
        seq![v as u8]
    } else {
        min_be(v / 256).push((v % 256) as u8)
    }
}

/// Number of binary digits of `v`; zero has none.
pub open spec fn bit_len(v: nat) -> nat
    decreases v,
{
    if v == 0 {
        0
    } else {
        1 + bit_len(v / 2)
    }
}

pub proof fn lemma_min_be_value(v: nat)
    ensures
        be_value(min_be(v)) == v,
        min_be(v).len() >= 1,
    decreases v,
{
    if v >= 256 {
        lemma_min_be_value(v / 256);
        let s = min_be(v);
        assert(s.drop_last() == min_be(v / 256));
        assert(s.last() as nat == v % 256);
        assert(be_value(s) == be_value(min_be(v / 256)) * 256 + v % 256);
        assert(v == (v / 256) * 256 + v % 256);
    } else {
        let s = seq![v as u8];
        assert(s.drop_last().len() == 0);
        assert(be_value(s.drop_last()) == 0);
        assert(be_value(s) == be_value(s.drop_last()) * 256 + s.last() as nat);
    }
}

/// `v` lies below the power of two given by its bit length, and at or above
/// the one just beneath it.
pub proof fn lemma_bit_len_bounds(v: nat)
    ensures
        v < pow2(bit_len(v)),
        v > 0 ==> pow2((bit_len(v) - 1) as nat) <= v,
    decreases v,
{
    if v > 0 {
        let h = v / 2;
        let k = bit_len(h);
        lemma_bit_len_bounds(h);
        lemma_pow2_unfold(k + 1);
        assert(bit_len(v) == k + 1);
        assert(pow2(k + 1) == 2 * pow2(k));
        if h > 0 {
            lemma_pow2_unfold(k);
            assert(pow2(k) == 2 * pow2((k - 1) as nat));
        } else {
            lemma_pow2_zero();
        }
    } else {
        lemma_pow2_zero();
    }
}

/// A byte string is worth at least its first byte times `256^(len - 1)`,
/// and less than `256^len`.
pub proof fn lemma_be_value_bounds(s: Seq<u8>)
    requires
        s.len() >= 1,
    ensures
        be_value(s) >= s[0] * pow2((8 * (s.len() - 1)) as nat),
        be_value(s) < pow2((8 * s.len()) as nat),
    decreases s.len(),
{
    lemma2_to64();
    if s.len() == 1 {
        lemma_pow2_zero();
        assert(s.drop_last().len() == 0);
        assert(be_value(s.drop_last()) == 0);
        assert(s.last() == s[0]);
        assert(be_value(s) == be_value(s.drop_last()) * 256 + s.last() as nat);
    } else {
        let t = s.drop_last();
        assert(t[0] == s[0]);
        lemma_be_value_bounds(t);
        let k = (8 * (t.len() - 1)) as nat;
        let m = (8 * t.len()) as nat;
        lemma_pow2_adds(k, 8);
        lemma_pow2_adds(m, 8);
        assert(be_value(s) == be_value(t) * 256 + s.last() as nat);
        assert(be_value(t) * 256 >= s[0] * pow2(k) * 256) by (nonlinear_arith)
            requires
                be_value(t) >= s[0] * pow2(k),
        ;
        assert(be_value(t) * 256 + 256 <= pow2(m) * 256) by (nonlinear_arith)
            requires
                be_value(t) < pow2(m),
        ;
        assert((8 * (s.len() - 1)) as nat == k + 8);
        assert((8 * s.len()) as nat == m + 8);
        assert(s[0] * pow2(k) * 256 == s[0] * pow2(k + 8)) by (nonlinear_arith)
            requires
                pow2(k + 8) == pow2(k) * pow2(8),
                pow2(8) == 256,
        ;
    }
}

pub proof fn lemma_pow2_zero()
    ensures
        pow2(0) == 1,
{
    reveal(pow);
}

/// A natural number, held as big-endian bytes.
pub struct BigNat {
    pub bytes: Vec<u8>,
}

impl View for BigNat {
    type V = nat;

    open spec fn view(&self) -> nat {
        be_value(self.bytes@)
    }
}

impl BigNat {
    /// Whether the bytes are the shortest form of the value.
    pub open spec fn is_minimal(&self) -> bool {
        self.bytes@ == min_be(self@)
    }

    /// The number whose big-endian bytes are `bytes`; leading zeros and the
    /// empty string are allowed (the latter is zero).
    pub fn from_be_bytes(bytes: Vec<u8>) -> (r: BigNat)
        ensures
            r@ == be_value(bytes@),
            r.bytes@ == bytes@,
    {
        BigNat { bytes }
    }

    /// The big-endian bytes of the number, as held.
    pub fn to_be_bytes(&self) -> (r: Vec<u8>)
        ensures
            r@ == self.bytes@,
    {
        self.bytes.clone()
    }
}

/// The number one.
pub(crate) fn one() -> (r: BigNat)
    ensures
        r@ == 1,
        r.bytes@ == min_be(1),
{
    let r = BigNat { bytes: vec![1u8] };
    assert(r.bytes@.drop_last().len() == 0);
    assert(be_value(r.bytes@.drop_last()) == 0);
    assert(be_value(r.bytes@) == be_value(r.bytes@.drop_last()) * 256 + r.bytes@.last() as nat);
    assert(r.bytes@ =~= min_be(1));
    r
}

/// Relies on `<BigUint as From<u64>>::from`.
#[verifier::external_body]
pub(crate) fn from_u64(v: u64) -> (r: BigNat)
    ensures
        r@ == v,
        r.bytes@ == min_be(v as nat),
{
    BigNat { bytes: BigUint::from(v).to_bytes_be() }
}

/// Relies on `BigUint * BigUint`: the exact product.
#[verifier::external_body]
pub(crate) fn multiply(a: &BigNat, b: &BigNat) -> (r: BigNat)
    ensures
        r@ == a@ * b@,
        r.bytes@ == min_be(a@ * b@),
{
    BigNat { bytes: (BigUint::from_bytes_be(&a.bytes) * BigUint::from_bytes_be(&b.bytes)).to_bytes_be() }
}

/// Relies on `BigUint % BigUint`, which panics on a zero divisor.
#[verifier::external_body]
pub(crate) fn rem(a: &BigNat, b: &BigNat) -> (r: BigNat)
    requires
        b@ > 0,
    ensures
        r@ == a@ % b@,
        r.bytes@ == min_be(a@ % b@),
{
    BigNat { bytes: (BigUint::from_bytes_be(&a.bytes) % BigUint::from_bytes_be(&b.bytes)).to_bytes_be() }
}

/// Relies on `BigUint / BigUint`: the quotient rounded down; panics on a zero
/// divisor.
#[verifier::external_body]
pub(crate) fn div(a: &BigNat, b: &BigNat) -> (r: BigNat)
    requires
        b@ > 0,
    ensures
        r@ == a@ / b@,
        r.bytes@ == min_be(a@ / b@),
{
    BigNat { bytes: (BigUint::from_bytes_be(&a.bytes) / BigUint::from_bytes_be(&b.bytes)).to_bytes_be() }
}

/// Relies on `BigUint - BigUint`, which panics when the result would be
/// negative.
#[verifier::external_body]
pub(crate) fn subtract(a: &BigNat, b: &BigNat) -> (r: BigNat)
    requires
        a@ >= b@,
    ensures
        r@ == a@ - b@,
        r.bytes@ == min_be((a@ - b@) as nat),
{
    BigNat { bytes: (BigUint::from_bytes_be(&a.bytes) - BigUint::from_bytes_be(&b.bytes)).to_bytes_be() }
}

/// Relies on `BigUint >> usize`: division by a power of two.
#[verifier::external_body]
pub(crate) fn shr(a: &BigNat, k: usize) -> (r: BigNat)
    ensures
        r@ == a@ / pow2(k as nat),
        r.bytes@ == min_be(a@ / pow2(k as nat)),
{
    BigNat { bytes: (BigUint::from_bytes_be(&a.bytes) >> k).to_bytes_be() }
}

/// Relies on `BigUint::modpow`: `a` to the power `e`, reduced modulo `m`;
/// it panics on a zero modulus.
#[verifier::external_body]
pub(crate) fn mod_pow(a: &BigNat, e: &BigNat, m: &BigNat) -> (r: BigNat)
    requires
        m@ > 0,
    ensures
        r@ == pow(a@ as int, e@) % (m@ as int),
        r.bytes@ == min_be((pow(a@ as int, e@) % (m@ as int)) as nat),
{
    let m = BigUint::from_bytes_be(&m.bytes);
    BigNat { bytes: BigUint::from_bytes_be(&a.bytes).modpow(&BigUint::from_bytes_be(&e.bytes), &m).to_bytes_be() }
}

/// Relies on `BigUint::bits`: the number of binary digits.
#[verifier::external_body]
pub(crate) fn bits(a: &BigNat) -> (r: u64)
    ensures
        r == bit_len(a@),
{
    BigUint::from_bytes_be(&a.bytes).bits()
}

/// Relies on `<BigUint as Integer>::is_even`.
#[verifier::external_body]
pub(crate) fn is_even(a: &BigNat) -> (r: bool)
    ensures
        r == (a@ % 2 == 0),
{
    BigUint::from_bytes_be(&a.bytes).is_even()
}

/// Relies on `<BigUint as PartialEq>::eq`: equality of the numbers.
#[verifier::external_body]
pub(crate) fn eq(a: &BigNat, b: &BigNat) -> (r: bool)
    ensures
        r == (a@ == b@),
{
    BigUint::from_bytes_be(&a.bytes) == BigUint::from_bytes_be(&b.bytes)
}

/// Relies on `<BigUint as PartialOrd>::le`: the order of the numbers.
#[verifier::external_body]
pub(crate) fn le(a: &BigNat, b: &BigNat) -> (r: bool)
    ensures
        r == (a@ <= b@),
{
    BigUint::from_bytes_be(&a.bytes) <= BigUint::from_bytes_be(&b.bytes)
}

/// Relies on `BigUint::set_bit` with `true`: bit `bit` becomes one and the
/// others stay.
#[verifier::external_body]
pub(crate) fn set_bit(a: &mut BigNat, bit: u64)
    ensures
        final(a)@ == if (old(a)@ / pow2(bit as nat)) % 2 == 1 {
            old(a)@
        } else {
            old(a)@ + pow2(bit as nat)
        },
        final(a).bytes@ == min_be(final(a)@),
{
    let mut v = BigUint::from_bytes_be(&a.bytes);
    v.set_bit(bit, true);
    a.bytes = v.to_bytes_be();
}

/// Relies on `RandBigInt::gen_biguint` on the thread-local generator: a
/// number of at most `bits` binary digits, drawn at random.
#[verifier::external_body]
pub(crate) fn random_bits(bits: u64) -> (r: BigNat)
    ensures
        r@ < pow2(bits as nat),
        r.bytes@ == min_be(r@),
{
    BigNat { bytes: rand::thread_rng().gen_biguint(bits).to_bytes_be() }
}

/// Relies on `RandBigInt::gen_biguint_range` on the thread-local generator:
/// a number drawn from `lo` (inclusive) to `hi` (exclusive); it panics on an
/// empty range.
#[verifier::external_body]
pub(crate) fn random_range(lo: &BigNat, hi: &BigNat) -> (r: BigNat)
    requires
        lo@ < hi@,
    ensures
        lo@ <= r@ < hi@,
        r.bytes@ == min_be(r@),
{
    let lo = BigUint::from_bytes_be(&lo.bytes);
    BigNat { bytes: rand::thread_rng().gen_biguint_range(&lo, &BigUint::from_bytes_be(&hi.bytes)).to_bytes_be() }
}

} // verus!
