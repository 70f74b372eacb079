use vstd::arithmetic::div_mod::*;
use vstd::arithmetic::power::*;
use vstd::arithmetic::power2::*;
use vstd::prelude::*;

use crate::bignat::{
    be_value, bit_len, bits, div, eq, from_u64, lemma_be_value_bounds, lemma_bit_len_bounds,
    lemma_min_be_value, lemma_pow2_zero, min_be, mod_pow, multiply, one, rem, subtract, BigNat,
};
use crate::codec::{base64_decoded, base64_of, decode_base64, encode_base64, sha256, sha256_of};
use crate::error::VdfError;
use crate::primes::{generate_prime, has_passing_base, is_probable_prime, square_chain};

verus! {

/// Squarings done between two progress reports.
pub const CHUNK_SIZE: u64 = 1000;

/// Fewest iterations that a proof may claim.
pub const MIN_ITERATIONS: u64 = 1000;

/// Most iterations that a proof may claim.
pub const MAX_ITERATIONS: u64 = 10_000_000;

pub open spec fn iterations_in_range(t: u64) -> bool {
    MIN_ITERATIONS <= t <= MAX_ITERATIONS
}

/// The percentages reported while `t` squarings are done: after each full
/// chunk the share of chunks done, rounded down, and then 100.
pub open spec fn progress_schedule(t: u64) -> Seq<u64> {
    let chunks = t / CHUNK_SIZE;
    Seq::new(chunks as nat, |i: int| ((i + 1) * 100 / chunks as int) as u64).push(100)
}

/// Repeated squaring modulo `n` agrees, modulo `n`, with raising to a power
/// of two.
pub proof fn lemma_square_chain_pow(x: nat, n: nat, k: nat)
    requires
        n > 0,
    ensures
        square_chain(x, n, k) % n == pow(x as int, pow2(k)) % (n as int),
        k > 0 ==> square_chain(x, n, k) < n,
    decreases k,
{
    if k == 0 {
        lemma_pow2_zero();
        lemma_pow1(x as int);
    } else {
        let c = square_chain(x, n, (k - 1) as nat);
        let p = pow(x as int, pow2((k - 1) as nat));
        lemma_square_chain_pow(x, n, (k - 1) as nat);
        lemma_mul_mod_noop(c as int, c as int, n as int);
        lemma_mul_mod_noop(p, p, n as int);
        lemma_pow2_unfold(k);
        lemma_pow_adds(x as int, pow2((k - 1) as nat), pow2((k - 1) as nat));
        lemma_mod_bound((c * c) as int, n as int);
        lemma_small_mod(square_chain(x, n, k), n);
    }
}

/// The verification identity: `y == pi^l * x^r (mod n)`.
pub open spec fn equation_holds(n: nat, x: nat, y: nat, pi: nat, l: nat, r: nat) -> bool {
    y == ((pow(pi as int, l) % (n as int)) * (pow(x as int, r) % (n as int))) % (n as int)
}

/// The witness `pi = x^q mod n` with `q = (2^t - r) / l` and `r = 2^t mod l`
/// meets the identity together with `y`, the result of `t >= 1` squarings.
pub proof fn lemma_witness_meets_equation(x: nat, n: nat, t: nat, l: nat)
    requires
        n > 0,
        l > 0,
        t >= 1,
    ensures
        equation_holds(
            n,
            x,
            square_chain(x, n, t),
            (pow(x as int, ((pow2(t) - pow2(t) % l) / l as int) as nat) % (n as int)) as nat,
            l,
            pow2(t) % l,
        ),
{
    let r = pow2(t) % l;
    let q = ((pow2(t) - r) / l as int) as nat;
    lemma_fundamental_div_mod(pow2(t) as int, l as int);
    assert(q * l + r == pow2(t)) by (nonlinear_arith)
        requires
            pow2(t) == l * (pow2(t) / l) + pow2(t) % l,
            r == pow2(t) % l,
            q == (pow2(t) - r) / l as int,
            l > 0,
    {
        assert((pow2(t) - r) == l * (pow2(t) / l));
    }
    let a = pow(x as int, q);
    lemma_pow_mod_noop(a, l, n as int);
    lemma_pow_multiplies(x as int, q, l);
    lemma_pow_adds(x as int, q * l, r);
    lemma_mul_mod_noop(pow(x as int, q * l), pow(x as int, r), n as int);
    lemma_square_chain_pow(x, n, t);
    lemma_small_mod(square_chain(x, n, t), n);
    assert(a % (n as int) >= 0);
}

/// Binary digits of a freshly drawn challenge prime.
pub const CHALLENGE_BITS: u64 = 128;

/// Fewest binary digits that a proof's challenge prime may have.
pub const MIN_CHALLENGE_BITS: u64 = 120;

/// Miller-Rabin rounds that a proof's challenge prime must pass. A composite
/// passes with probability at most `4^-5`, far weaker than the rounds used
/// when the prime is drawn: verification trades soundness for speed here.
pub const VERIFICATION_ROUNDS: usize = 5;

/// The challenge value of an input: its SHA-256 digest read as a big-endian
/// number.
pub open spec fn challenge_of(input: Seq<char>) -> nat {
    be_value(sha256_of(input))
}

/// What a challenge prime drawn by `compute_proof` looks like.
pub open spec fn challenge_prime_shape(l: nat) -> bool {
    pow2((CHALLENGE_BITS - 1) as nat) <= l < pow2(CHALLENGE_BITS as nat) && l % 2 == 1
}

/// `q = (2^t - r) / l` with `r = 2^t mod l`.
pub open spec fn witness_exponent(t: nat, l: nat) -> nat {
    ((pow2(t) - pow2(t) % l) / l as int) as nat
}

/// `text` is the standard base64 of the shortest big-endian bytes of `v`, and
/// decodes back to them.
pub open spec fn encodes_number(text: Seq<char>, v: nat) -> bool {
    text == base64_of(min_be(v)) && base64_decoded(text) == Some(min_be(v))
}

/// `p` is the proof for challenge `x`, modulus `n`, `t` squarings and
/// challenge prime `l`.
pub open spec fn encodes(p: VDFProof, x: nat, n: nat, t: u64, l: nat) -> bool {
    &&& p.iterations == t
    &&& encodes_number(p.y@, square_chain(x, n, t as nat))
    &&& encodes_number(
        p.pi@,
        (pow(x as int, witness_exponent(t as nat, l)) % (n as int)) as nat,
    )
    &&& encodes_number(p.l@, l)
    &&& encodes_number(p.r@, pow2(t as nat) % l)
}

/// Whether a proof field is valid base64 of at least one byte.
pub open spec fn field_decodes(text: Seq<char>) -> bool {
    base64_decoded(text) is Some && base64_decoded(text)->Some_0.len() > 0
}

/// The number that a proof field stands for.
pub open spec fn field_value(text: Seq<char>) -> nat {
    be_value(base64_decoded(text)->Some_0)
}

pub open spec fn all_fields_decode(p: VDFProof) -> bool {
    field_decodes(p.y@) && field_decodes(p.pi@) && field_decodes(p.l@) && field_decodes(p.r@)
}

/// The outcome of checking decoded numbers, once `prime_ok` tells whether `l`
/// passed the primality test.
pub open spec fn outcome(
    n: nat,
    x: nat,
    y: nat,
    pi: nat,
    l: nat,
    r: nat,
    prime_ok: bool,
) -> Result<bool, VdfError> {
    if bit_len(l) < MIN_CHALLENGE_BITS || !prime_ok {
        Err(VdfError::InvalidProofPrime)
    } else {
        Ok(equation_holds(n, x, y, pi, l, r))
    }
}

/// The outcome for a whole proof, given the primality test's answer on its
/// `l`.
pub open spec fn proof_outcome(n: nat, input: Seq<char>, p: VDFProof, prime_ok: bool) -> Result<
    bool,
    VdfError,
> {
    if !iterations_in_range(p.iterations) {
        Err(VdfError::InvalidIterationCount)
    } else if !all_fields_decode(p) {
        Err(VdfError::DecodeError)
    } else {
        outcome(
            n,
            challenge_of(input),
            field_value(p.y@),
            field_value(p.pi@),
            field_value(p.l@),
            field_value(p.r@),
            prime_ok,
        )
    }
}

/// Reads one proof field: base64 of a non-empty big-endian byte string.
pub fn decode_field(text: &str) -> (r: Result<BigNat, VdfError>)
    ensures
        r is Ok <==> field_decodes(text@),
        r is Ok ==> r->Ok_0@ == field_value(text@),
        r is Err ==> r == Err::<BigNat, VdfError>(VdfError::DecodeError),
{
    match decode_base64(text) {
        Ok(bytes) => {
            if bytes.len() == 0 {
                Err(VdfError::DecodeError)
            } else {
                Ok(BigNat::from_be_bytes(bytes))
            }
        },
        Err(_) => Err(VdfError::DecodeError),
    }
}

/// Receives the progress of a running computation, in percent.
pub trait ProgressSink {
    /// The percentages received so far, in order.
    spec fn reports(&self) -> Seq<u64>;

    fn report(&mut self, percent: u64)
        ensures
            final(self).reports() == old(self).reports().push(percent),
    ;
}

/// Where progress finally goes: a host callback, a display. Its answer is not
/// awaited and it cannot fail the computation.
pub trait ProgressOutput {
    fn emit(&mut self, percent: u64);
}

/// A progress sink that hands every report on to a `ProgressOutput`, and
/// keeps a ghost record of what it handed on.
pub struct Forwarder<O: ProgressOutput> {
    pub out: O,
    pub sent: Ghost<Seq<u64>>,
}

impl<O: ProgressOutput> Forwarder<O> {
    pub fn new(out: O) -> (r: Forwarder<O>)
        ensures
            r.sent@ == Seq::<u64>::empty(),
    {
        Forwarder { out, sent: Ghost(Seq::empty()) }
    }
}

impl<O: ProgressOutput> ProgressSink for Forwarder<O> {
    open spec fn reports(&self) -> Seq<u64> {
        self.sent@
    }

    fn report(&mut self, percent: u64) {
        self.out.emit(percent);
        self.sent = Ghost(self.sent@.push(percent));
    }
}

/// A progress sink that keeps every report in order.
pub struct ProgressLog {
    pub values: Vec<u64>,
}

impl ProgressLog {
    pub fn new() -> (r: ProgressLog)
        ensures
            r.values@ == Seq::<u64>::empty(),
    {
        ProgressLog { values: Vec::new() }
    }
}

impl ProgressSink for ProgressLog {
    open spec fn reports(&self) -> Seq<u64> {
        self.values@
    }

    fn report(&mut self, percent: u64) {
        self.values.push(percent);
    }
}

/// A proof: `y` and `pi` are group elements, `l` the challenge prime and
/// `r = 2^iterations mod l`, each as standard base64 of its shortest
/// big-endian bytes.
pub struct VDFProof {
    pub y: String,
    pub pi: String,
    pub l: String,
    pub r: String,
    pub iterations: u64,
}

impl VDFProof {
    pub fn new(y: String, pi: String, l: String, r: String, iterations: u64) -> (p: VDFProof)
        ensures
            p.y@ == y@,
            p.pi@ == pi@,
            p.l@ == l@,
            p.r@ == r@,
            p.iterations == iterations,
    {
        VDFProof { y, pi, l, r, iterations }
    }

    pub fn y(&self) -> (s: String)
        ensures
            s@ == self.y@,
    {
        self.y.clone()
    }

    pub fn pi(&self) -> (s: String)
        ensures
            s@ == self.pi@,
    {
        self.pi.clone()
    }

    pub fn l(&self) -> (s: String)
        ensures
            s@ == self.l@,
    {
        self.l.clone()
    }

    pub fn r(&self) -> (s: String)
        ensures
            s@ == self.r@,
    {
        self.r.clone()
    }

    pub fn iterations(&self) -> (t: u64)
        ensures
            t == self.iterations,
    {
        self.iterations
    }
}

/// The fixed group modulus, a 2048-bit odd composite of unknown
/// factorisation, as its big-endian bytes.
pub open spec fn group_modulus_bytes() -> Seq<u8> {
    seq![
        0xc7, 0x97, 0x0c, 0xee, 0xdc, 0xc3, 0xb0, 0x75, 0x44, 0x90, 0x20, 0x1a,
        0x7a, 0xa6, 0x13, 0xcd, 0x73, 0x91, 0x10, 0x81, 0xc7, 0x90, 0xf5, 0xf1,
        0xa8, 0x72, 0x6f, 0x46, 0x35, 0x50, 0xbb, 0x5b, 0x7f, 0xf0, 0xdb, 0x8e,
        0x1e, 0xa1, 0x18, 0x9e, 0xc7, 0x2f, 0x93, 0xd1, 0x65, 0x00, 0x11, 0xbd,
        0x72, 0x1a, 0xee, 0xac, 0xc2, 0xac, 0xde, 0x32, 0xa0, 0x41, 0x07, 0xf0,
        0x64, 0x8c, 0x28, 0x13, 0xa3, 0x1f, 0x5b, 0x0b, 0x77, 0x65, 0xff, 0x8b,
        0x44, 0xb4, 0xb6, 0xff, 0xc9, 0x33, 0x84, 0xb6, 0x46, 0xeb, 0x09, 0xc7,
        0xcf, 0x5e, 0x85, 0x92, 0xd4, 0x0e, 0xa3, 0x3c, 0x80, 0x03, 0x9f, 0x35,
        0xb4, 0xf1, 0x4a, 0x04, 0xb5, 0x1f, 0x7b, 0xfd, 0x78, 0x1b, 0xe4, 0xd1,
        0x67, 0x31, 0x64, 0xba, 0x8e, 0xb9, 0x91, 0xc2, 0xc4, 0xd7, 0x30, 0xbb,
        0xbe, 0x35, 0xf5, 0x92, 0xbd, 0xef, 0x52, 0x4a, 0xf7, 0xe8, 0xda, 0xef,
        0xd2, 0x6c, 0x66, 0xfc, 0x02, 0xc4, 0x79, 0xaf, 0x89, 0xd6, 0x4d, 0x37,
        0x3f, 0x44, 0x27, 0x09, 0x43, 0x9d, 0xe6, 0x6c, 0xeb, 0x95, 0x5f, 0x3e,
        0xa3, 0x7d, 0x51, 0x59, 0xf6, 0x13, 0x58, 0x09, 0xf8, 0x53, 0x34, 0xb5,
        0xcb, 0x18, 0x13, 0xad, 0xdc, 0x80, 0xcd, 0x05, 0x60, 0x9f, 0x10, 0xac,
        0x6a, 0x95, 0xad, 0x65, 0x87, 0x2c, 0x90, 0x95, 0x25, 0xbd, 0xad, 0x32,
        0xbc, 0x72, 0x95, 0x92, 0x64, 0x29, 0x20, 0xf2, 0x4c, 0x61, 0xdc, 0x5b,
        0x3c, 0x3b, 0x79, 0x23, 0xe5, 0x6b, 0x16, 0xa4, 0xd9, 0xd3, 0x73, 0xd8,
        0x72, 0x1f, 0x24, 0xa3, 0xfc, 0x0f, 0x1b, 0x31, 0x31, 0xf5, 0x56, 0x15,
        0x17, 0x28, 0x66, 0xbc, 0xcc, 0x30, 0xf9, 0x50, 0x54, 0xc8, 0x24, 0xe7,
        0x33, 0xa5, 0xeb, 0x68, 0x17, 0xf7, 0xbc, 0x16, 0x39, 0x9d, 0x48, 0xc6,
        0x36, 0x1c, 0xc7, 0xe5,
    ]
}

/// Computes and checks proofs in the group of integers modulo a fixed
/// modulus of unknown factorisation.
pub struct VDFComputer {
    pub modulus: BigNat,
}

impl VDFComputer {
    /// A usable group: an odd modulus wider than a SHA-256 digest, so that
    /// every challenge value lies below it.
    pub open spec fn wf(&self) -> bool {
        self.modulus@ >= pow2(256) && self.modulus@ % 2 == 1
    }

    /// The computer over the fixed 2048-bit group modulus.
    pub fn new() -> (c: VDFComputer)
        ensures
            c.wf(),
            c.modulus.bytes@ == group_modulus_bytes(),
            bit_len(c.modulus@) == 2048,
    {
        let bytes: Vec<u8> = vec![
            0xc7, 0x97, 0x0c, 0xee, 0xdc, 0xc3, 0xb0, 0x75, 0x44, 0x90, 0x20, 0x1a,
            0x7a, 0xa6, 0x13, 0xcd, 0x73, 0x91, 0x10, 0x81, 0xc7, 0x90, 0xf5, 0xf1,
            0xa8, 0x72, 0x6f, 0x46, 0x35, 0x50, 0xbb, 0x5b, 0x7f, 0xf0, 0xdb, 0x8e,
            0x1e, 0xa1, 0x18, 0x9e, 0xc7, 0x2f, 0x93, 0xd1, 0x65, 0x00, 0x11, 0xbd,
            0x72, 0x1a, 0xee, 0xac, 0xc2, 0xac, 0xde, 0x32, 0xa0, 0x41, 0x07, 0xf0,
            0x64, 0x8c, 0x28, 0x13, 0xa3, 0x1f, 0x5b, 0x0b, 0x77, 0x65, 0xff, 0x8b,
            0x44, 0xb4, 0xb6, 0xff, 0xc9, 0x33, 0x84, 0xb6, 0x46, 0xeb, 0x09, 0xc7,
            0xcf, 0x5e, 0x85, 0x92, 0xd4, 0x0e, 0xa3, 0x3c, 0x80, 0x03, 0x9f, 0x35,
            0xb4, 0xf1, 0x4a, 0x04, 0xb5, 0x1f, 0x7b, 0xfd, 0x78, 0x1b, 0xe4, 0xd1,
            0x67, 0x31, 0x64, 0xba, 0x8e, 0xb9, 0x91, 0xc2, 0xc4, 0xd7, 0x30, 0xbb,
            0xbe, 0x35, 0xf5, 0x92, 0xbd, 0xef, 0x52, 0x4a, 0xf7, 0xe8, 0xda, 0xef,
            0xd2, 0x6c, 0x66, 0xfc, 0x02, 0xc4, 0x79, 0xaf, 0x89, 0xd6, 0x4d, 0x37,
            0x3f, 0x44, 0x27, 0x09, 0x43, 0x9d, 0xe6, 0x6c, 0xeb, 0x95, 0x5f, 0x3e,
            0xa3, 0x7d, 0x51, 0x59, 0xf6, 0x13, 0x58, 0x09, 0xf8, 0x53, 0x34, 0xb5,
            0xcb, 0x18, 0x13, 0xad, 0xdc, 0x80, 0xcd, 0x05, 0x60, 0x9f, 0x10, 0xac,
            0x6a, 0x95, 0xad, 0x65, 0x87, 0x2c, 0x90, 0x95, 0x25, 0xbd, 0xad, 0x32,
            0xbc, 0x72, 0x95, 0x92, 0x64, 0x29, 0x20, 0xf2, 0x4c, 0x61, 0xdc, 0x5b,
            0x3c, 0x3b, 0x79, 0x23, 0xe5, 0x6b, 0x16, 0xa4, 0xd9, 0xd3, 0x73, 0xd8,
            0x72, 0x1f, 0x24, 0xa3, 0xfc, 0x0f, 0x1b, 0x31, 0x31, 0xf5, 0x56, 0x15,
            0x17, 0x28, 0x66, 0xbc, 0xcc, 0x30, 0xf9, 0x50, 0x54, 0xc8, 0x24, 0xe7,
            0x33, 0xa5, 0xeb, 0x68, 0x17, 0xf7, 0xbc, 0x16, 0x39, 0x9d, 0x48, 0xc6,
            0x36, 0x1c, 0xc7, 0xe5,
        ];
        let modulus = BigNat::from_be_bytes(bytes);
        proof {
            let s = modulus.bytes@;
            assert(s.last() == 0xe5u8);
            let h = be_value(s.drop_last());
            assert(modulus@ == h * 256 + 0xe5);
            assert((h * 256 + 0xe5) % 2 == 1) by (nonlinear_arith);
            assert(s.len() == 256 && s[0] == 0xc7u8);
            assert(s =~= group_modulus_bytes());
            lemma_be_value_bounds(s);
            lemma2_to64();
            lemma_pow2_adds(7, 2040);
            assert(modulus@ >= 0xc7 * pow2(2040));
            assert(0xc7 * pow2(2040) >= pow2(7) * pow2(2040)) by (nonlinear_arith)
                requires
                    pow2(7) == 128,
            ;
            lemma_pow2_strictly_increases(256, 2047);
            lemma_bit_len_bounds(modulus@);
            let b = bit_len(modulus@);
            if b < 2048 {
                lemma_pow2_strictly_increases(b, 2047);
            }
            if b > 2048 {
                lemma_pow2_strictly_increases(2048, (b - 1) as nat);
            }
        }
        VDFComputer { modulus }
    }

    /// `t` squarings of `x` modulo the group modulus, reporting progress to
    /// `sink` after each chunk of `CHUNK_SIZE` squarings and once more at the
    /// end: the sink receives exactly `progress_schedule(t)`.
    pub fn evaluate_delay<P: ProgressSink>(&self, x: &BigNat, t: u64, sink: &mut P) -> (r: BigNat)
        requires
            self.wf(),
        ensures
            r@ == square_chain(x@, self.modulus@, t as nat),
            t > 0 ==> r.is_minimal(),
            final(sink).reports() == old(sink).reports() + progress_schedule(t),
    {
        let chunks = t / CHUNK_SIZE;
        let remainder = t % CHUNK_SIZE;
        let ghost n = self.modulus@;
        let mut y = BigNat::from_be_bytes(x.to_be_bytes());
        let ghost start = sink.reports();
        let mut i: u64 = 0;
        while i < chunks
            invariant
                self.wf(),
                n == self.modulus@,
                chunks == t / CHUNK_SIZE,
                i <= chunks,
                y@ == square_chain(x@, n, (i * CHUNK_SIZE) as nat),
                i > 0 ==> y.is_minimal(),
                sink.reports() == start + Seq::new(
                    i as nat,
                    |k: int| ((k + 1) * 100 / chunks as int) as u64,
                ),
            decreases chunks - i,
        {
            let mut j: u64 = 0;
            while j < CHUNK_SIZE
                invariant
                    self.wf(),
                    n == self.modulus@,
                    chunks == t / CHUNK_SIZE,
                    i < chunks,
                    j <= CHUNK_SIZE,
                    y@ == square_chain(x@, n, (i * CHUNK_SIZE + j) as nat),
                    i > 0 || j > 0 ==> y.is_minimal(),
                decreases CHUNK_SIZE - j,
            {
                y = rem(&multiply(&y, &y), &self.modulus);
                j = j + 1;
            }
            let percent = ((i + 1) * 100) / chunks;
            sink.report(percent);
            proof {
                assert(sink.reports() =~= start + Seq::new(
                    (i + 1) as nat,
                    |k: int| ((k + 1) * 100 / chunks as int) as u64,
                ));
            }
            i = i + 1;
        }
        let mut j: u64 = 0;
        while j < remainder
            invariant
                self.wf(),
                n == self.modulus@,
                chunks == t / CHUNK_SIZE,
                remainder == t % CHUNK_SIZE,
                j <= remainder,
                y@ == square_chain(x@, n, (chunks * CHUNK_SIZE + j) as nat),
                chunks > 0 || j > 0 ==> y.is_minimal(),
            decreases remainder - j,
        {
            y = rem(&multiply(&y, &y), &self.modulus);
            j = j + 1;
        }
        sink.report(100);
        proof {
            assert(chunks * CHUNK_SIZE + remainder == t);
            assert(sink.reports() =~= start + progress_schedule(t));
        }
        y
    }
}

impl VDFComputer {
    /// Whether `y == pi^l * x^r` modulo the group modulus.
    pub fn check_equation(&self, x: &BigNat, y: &BigNat, pi: &BigNat, l: &BigNat, r: &BigNat) -> (b:
        bool)
        requires
            self.wf(),
        ensures
            b == equation_holds(self.modulus@, x@, y@, pi@, l@, r@),
    {
        let pi_l = mod_pow(pi, l, &self.modulus);
        let x_r = mod_pow(x, r, &self.modulus);
        let right = rem(&multiply(&pi_l, &x_r), &self.modulus);
        eq(y, &right)
    }

    /// The check of decoded numbers, once the primality test has answered
    /// `prime_ok` on `l`.
    pub fn check_values(
        &self,
        x: &BigNat,
        y: &BigNat,
        pi: &BigNat,
        l: &BigNat,
        r: &BigNat,
        prime_ok: bool,
    ) -> (b: Result<bool, VdfError>)
        requires
            self.wf(),
        ensures
            b == outcome(self.modulus@, x@, y@, pi@, l@, r@, prime_ok),
    {
        if bits(l) < MIN_CHALLENGE_BITS || !prime_ok {
            return Err(VdfError::InvalidProofPrime);
        }
        Ok(self.check_equation(x, y, pi, l, r))
    }

    /// Builds a proof that `iterations` squarings of the input's challenge
    /// were done, reporting progress to `on_progress`.
    pub fn compute_proof<P: ProgressSink>(
        &self,
        input: &str,
        iterations: u64,
        on_progress: &mut P,
    ) -> (r: Result<VDFProof, VdfError>)
        requires
            self.wf(),
        ensures
            !iterations_in_range(iterations) ==> r == Err::<VDFProof, VdfError>(
                VdfError::InvalidIterationCount,
            ),
            iterations_in_range(iterations) ==> (r is Ok || r == Err::<VDFProof, VdfError>(
                VdfError::PrimeGenerationExhausted,
            )),
            r is Ok ==> exists|l: nat|
                challenge_prime_shape(l) && encodes(
                    r->Ok_0,
                    challenge_of(input@),
                    self.modulus@,
                    iterations,
                    l,
                ),
            r is Ok ==> final(on_progress).reports() == old(on_progress).reports()
                + progress_schedule(iterations),
            r is Err ==> final(on_progress).reports() == old(on_progress).reports(),
    {
        if iterations < MIN_ITERATIONS || iterations > MAX_ITERATIONS {
            return Err(VdfError::InvalidIterationCount);
        }
        let x = BigNat::from_be_bytes(sha256(input));
        let l = match generate_prime(CHALLENGE_BITS) {
            Ok(l) => l,
            Err(e) => {
                return Err(e);
            },
        };
        let r = mod_pow(&from_u64(2), &from_u64(iterations), &l);
        let y = self.evaluate_delay(&x, iterations, on_progress);
        let power = calculate_power_safely(iterations);
        proof {
            lemma_pow2(iterations as nat);
            lemma_mod_decreases(pow2(iterations as nat), l@);
        }
        let q = div(&subtract(&power, &r), &l);
        let pi = mod_pow(&x, &q, &self.modulus);
        proof {
            lemma_square_chain_pow(x@, self.modulus@, iterations as nat);
            lemma_small_mod(y@, self.modulus@);
        }
        let proof = VDFProof {
            y: encode_base64(&y.bytes),
            pi: encode_base64(&pi.bytes),
            l: encode_base64(&l.bytes),
            r: encode_base64(&r.bytes),
            iterations,
        };
        proof {
            assert(encodes(proof, x@, self.modulus@, iterations, l@));
            assert(challenge_prime_shape(l@));
        }
        Ok(proof)
    }

    /// Checks a proof for `input`. `Ok(false)` means the proof is rejected;
    /// the errors mean that it could not be checked.
    pub fn verify_proof(&self, input: &str, proof: &VDFProof) -> (r: Result<bool, VdfError>)
        requires
            self.wf(),
        ensures
            r == proof_outcome(self.modulus@, input@, *proof, true) || r == proof_outcome(
                self.modulus@,
                input@,
                *proof,
                false,
            ),
            !iterations_in_range(proof.iterations) ==> r == Err::<bool, VdfError>(
                VdfError::InvalidIterationCount,
            ),
            iterations_in_range(proof.iterations) && !all_fields_decode(*proof) ==> r == Err::<
                bool,
                VdfError,
            >(VdfError::DecodeError),
            iterations_in_range(proof.iterations) && all_fields_decode(*proof) && field_value(
                proof.l@,
            ) % 2 == 0 ==> r == Err::<bool, VdfError>(VdfError::InvalidProofPrime),
            r is Ok ==> field_value(proof.l@) % 2 == 1 && has_passing_base(field_value(proof.l@)),
    {
        if proof.iterations < MIN_ITERATIONS || proof.iterations > MAX_ITERATIONS {
            return Err(VdfError::InvalidIterationCount);
        }
        let x = BigNat::from_be_bytes(sha256(input));
        let y = match decode_field(&proof.y) {
            Ok(v) => v,
            Err(e) => {
                return Err(e);
            },
        };
        let pi = match decode_field(&proof.pi) {
            Ok(v) => v,
            Err(e) => {
                return Err(e);
            },
        };
        let l = match decode_field(&proof.l) {
            Ok(v) => v,
            Err(e) => {
                return Err(e);
            },
        };
        let r = match decode_field(&proof.r) {
            Ok(v) => v,
            Err(e) => {
                return Err(e);
            },
        };
        let prime_ok = bits(&l) >= MIN_CHALLENGE_BITS && is_probable_prime(&l, VERIFICATION_ROUNDS);
        proof {
            if bit_len(l@) >= MIN_CHALLENGE_BITS {
                lemma_bit_len_bounds(l@);
                lemma2_to64();
                lemma_pow2_strictly_increases(2, (bit_len(l@) - 1) as nat);
            }
        }
        self.check_values(&x, &y, &pi, &l, &r, prime_ok)
    }
}

/// A proof built by `compute_proof` is accepted by `verify_proof` whenever the
/// primality test passes its challenge prime: every field decodes, and the
/// verification identity holds. Otherwise the only other outcome is
/// `InvalidProofPrime`; it is never `Ok(false)`.
pub proof fn lemma_computed_proof_accepted(n: nat, input: Seq<char>, p: VDFProof, l: nat)
    requires
        n > 1,
        iterations_in_range(p.iterations),
        challenge_prime_shape(l),
        encodes(p, challenge_of(input), n, p.iterations, l),
    ensures
        all_fields_decode(p),
        proof_outcome(n, input, p, true) == Ok::<bool, VdfError>(true),
        proof_outcome(n, input, p, false) == Err::<bool, VdfError>(VdfError::InvalidProofPrime),
{
    let x = challenge_of(input);
    let t = p.iterations as nat;
    let y = square_chain(x, n, t);
    let pi = (pow(x as int, witness_exponent(t, l)) % (n as int)) as nat;
    let r = pow2(t) % l;
    lemma_min_be_value(y);
    lemma_min_be_value(pi);
    lemma_min_be_value(l);
    lemma_min_be_value(r);
    lemma_bit_len_bounds(l);
    if bit_len(l) < CHALLENGE_BITS {
        lemma_pow2_strictly_increases(bit_len(l), (CHALLENGE_BITS - 1) as nat);
    }
    lemma_witness_meets_equation(x, n, t, l);
}

/// For every challenge prime `l`, `r = 2^t mod l` lies in `[0, l)` and
/// `2^t - r` is a multiple of `l`.
pub proof fn lemma_challenge_remainder(t: nat, l: nat)
    requires
        l > 0,
    ensures
        0 <= pow2(t) % l < l,
        (pow2(t) - pow2(t) % l) % (l as int) == 0,
{
    let p = pow2(t) as int;
    let q = p / (l as int);
    lemma_fundamental_div_mod(p, l as int);
    lemma_mod_multiples_basic(q, l as int);
    assert(p - p % (l as int) == q * l);
}

/// Two proofs built for the same input and iteration count carry the same
/// `y`, whichever challenge primes were drawn.
pub proof fn lemma_output_independent_of_challenge(
    n: nat,
    input: Seq<char>,
    p1: VDFProof,
    l1: nat,
    p2: VDFProof,
    l2: nat,
)
    requires
        p1.iterations == p2.iterations,
        encodes(p1, challenge_of(input), n, p1.iterations, l1),
        encodes(p2, challenge_of(input), n, p2.iterations, l2),
    ensures
        p1.y@ == p2.y@,
{
}

/// The progress reported for an iteration count in range never goes down,
/// never exceeds 100, and ends with exactly 100.
pub proof fn lemma_progress_schedule_ordered(t: u64)
    requires
        t >= MIN_ITERATIONS,
    ensures
        progress_schedule(t).len() >= 2,
        progress_schedule(t).last() == 100,
        forall|i: int| 0 <= i < progress_schedule(t).len() ==> #[trigger] progress_schedule(t)[i] <= 100,
        forall|i: int, j: int|
            0 <= i <= j < progress_schedule(t).len() ==> #[trigger] progress_schedule(t)[i]
                <= #[trigger] progress_schedule(t)[j],
{
    let s = progress_schedule(t);
    let chunks = (t / CHUNK_SIZE) as int;
    assert(chunks >= 1);
    assert forall|i: int| 0 <= i < s.len() implies #[trigger] s[i] <= 100 by {
        if i < chunks {
            assert((i + 1) * 100 <= chunks * 100) by (nonlinear_arith)
                requires
                    i + 1 <= chunks,
            ;
            lemma_div_is_ordered((i + 1) * 100, chunks * 100, chunks);
            lemma_div_by_multiple(100, chunks);
            assert(s[i] == ((i + 1) * 100 / chunks) as u64);
        }
    }
    assert forall|i: int, j: int| 0 <= i <= j < s.len() implies #[trigger] s[i] <= #[trigger] s[j] by {
        if j < chunks {
            assert((i + 1) * 100 <= (j + 1) * 100);
            lemma_div_is_ordered((i + 1) * 100, (j + 1) * 100, chunks);
        }
    }
}

/// An iteration count brought into the accepted range.
pub fn clamp_iterations(estimate: u64) -> (r: u64)
    ensures
        iterations_in_range(r),
        iterations_in_range(estimate) ==> r == estimate,
        estimate < MIN_ITERATIONS ==> r == MIN_ITERATIONS,
        estimate > MAX_ITERATIONS ==> r == MAX_ITERATIONS,
{
    if estimate < MIN_ITERATIONS {
        MIN_ITERATIONS
    } else if estimate > MAX_ITERATIONS {
        MAX_ITERATIONS
    } else {
        estimate
    }
}

/// `2^t`, in full, by square-and-multiply.
pub fn calculate_power_safely(t: u64) -> (r: BigNat)
    ensures
        r@ == pow2(t as nat),
{
    let mut result = one();
    let mut base = from_u64(2);
    let mut e: u64 = t;
    proof {
        lemma_pow2(t as nat);
        lemma_pow1(2);
    }
    while e > 0
        invariant
            result@ * pow(base@ as int, e as nat) == pow(2, t as nat),
        decreases e,
    {
        let ghost b = base@ as int;
        let ghost e0 = e as nat;
        let ghost h = (e0 / 2) as nat;
        let ghost o = (e0 % 2) as nat;
        let ghost r0 = result@ as int;
        proof {
            lemma_fundamental_div_mod(e0 as int, 2);
            assert(e0 == 2 * h + o);
            lemma_pow_multiplies(b, 2, h);
            lemma_square_is_pow2(b);
            lemma_pow_adds(b, 2 * h, o);
            lemma_pow1(b);
            lemma_pow0(b);
            assert(pow(b, e0) == pow(b * b, h) * pow(b, o));
        }
        if e % 2 == 1 {
            result = multiply(&result, &base);
            proof {
                assert(result@ * pow(b * b, h) == pow(2, t as nat)) by (nonlinear_arith)
                    requires
                        result@ == r0 * b,
                        r0 * (pow(b * b, h) * b) == pow(2, t as nat),
                ;
            }
        }
        base = multiply(&base, &base);
        e = e / 2;
    }
    proof {
        lemma_pow0(base@ as int);
        lemma_pow2(t as nat);
    }
    result
}

} // verus!
