//! The tag of a residual stream: a linear combination of its residuals with secret coefficients, in
//! four prime fields.

use vstd::arithmetic::div_mod::{
    lemma_add_mod_noop, lemma_mod_bound, lemma_mod_twice, lemma_mul_mod_noop_right,
};
use vstd::prelude::*;
use vstd::utf8::encode_utf8;

use crate::bytes::{le_bytes, le_value, push_bytes, push_u32_le, push_u64_le, u64_le_at};
use crate::digest::{sha256, sha256_32};
use crate::hexadecimal::{
    hex_decode, hex_decoded, hex_encode, hex_encoded, trim, trimmed, HexError,
};
use crate::known_primes::{
    lemma_prime_18446744069414584321, lemma_prime_18446744073709551521,
    lemma_prime_18446744073709551533, lemma_prime_18446744073709551557,
};
use crate::machine::{shrink_chips, shrink_chips_model};
use crate::modular::{mod_add, mod_mul};
use crate::number_theory::is_prime;
use crate::primality::{is_prime_u64, law_primes_pass, passes_primality_test};
use crate::residuals::{values_of, ResidualLog};
use crate::rows::{RowProvider, TableModel};
use crate::walk::{are_tables_canonical, shrink_outcome, tables_canonical, walk_shrink_residuals};
use crate::walk_error::{WalkError, WalkErrorView};

verus! {

/// The primes of the four fields.
pub const P64_CANDIDATES: [u64; 4] = [
    18446744069414584321,
    18446744073709551557,
    18446744073709551533,
    18446744073709551521,
];

/// What a tag is computed from, besides the residuals.
#[derive(Clone, Copy, Debug)]
pub struct ShrinkTagParams<'a> {
    /// Statement bytes, in hexadecimal digits.
    pub statement_hex: &'a str,
    pub armer_id: u32,
    /// The secret seed of the coefficients: 32 bytes, in hexadecimal digits.
    pub tag_seed_hex: &'a str,
    /// Separates the domains of derived targets.
    pub shape_id: &'a str,
    /// The target: 32 bytes, in hexadecimal digits.
    pub alpha_hex: Option<&'a str>,
    /// A secret seed to derive the target from, where no target is given.
    pub alpha_seed_hex: Option<&'a str>,
    /// Asks for the target to be shown.
    pub print_alpha: bool,
}

/// The mathematical reading of [`ShrinkTagParams`].
pub struct TagParamsView {
    pub statement_hex: Seq<char>,
    pub armer_id: u32,
    pub tag_seed_hex: Seq<char>,
    pub shape_id: Seq<char>,
    pub alpha_hex: Option<Seq<char>>,
    pub alpha_seed_hex: Option<Seq<char>>,
    pub print_alpha: bool,
}

impl<'a> View for ShrinkTagParams<'a> {
    type V = TagParamsView;

    open spec fn view(&self) -> TagParamsView {
        TagParamsView {
            statement_hex: self.statement_hex@,
            armer_id: self.armer_id,
            tag_seed_hex: self.tag_seed_hex@,
            shape_id: self.shape_id@,
            alpha_hex: match self.alpha_hex {
                Some(a) => Some(a@),
                None => None,
            },
            alpha_seed_hex: match self.alpha_seed_hex {
                Some(s) => Some(s@),
                None => None,
            },
            print_alpha: self.print_alpha,
        }
    }
}

/// A tag, and how it compares with the target where there is one.
#[derive(Clone, Copy, Debug)]
pub struct ShrinkTagResult {
    pub residuals_emitted: u64,
    pub tag_mod_p: [u64; 4],
    pub alpha_mod_p: Option<[u64; 4]>,
    pub unlock: Option<bool>,
}

/// The mathematical reading of a [`ShrinkTagResult`].
#[verifier::ext_equal]
pub struct TagResultView {
    pub residuals_emitted: nat,
    pub tag_mod_p: Seq<u64>,
    pub alpha_mod_p: Option<Seq<u64>>,
    pub unlock: Option<bool>,
}

impl View for ShrinkTagResult {
    type V = TagResultView;

    open spec fn view(&self) -> TagResultView {
        TagResultView {
            residuals_emitted: self.residuals_emitted as nat,
            tag_mod_p: self.tag_mod_p@,
            alpha_mod_p: match self.alpha_mod_p {
                Some(a) => Some(a@),
                None => None,
            },
            unlock: self.unlock,
        }
    }
}

/// Why a text is no key of 32 bytes.
#[derive(Clone, Copy, Debug, PartialEq, Eq, Structural)]
pub enum KeyError {
    /// It is not hexadecimal.
    Hex(HexError),
    /// It spells another number of bytes than 32.
    Length,
}

/// Why no tag was computed.
#[derive(Debug)]
pub enum TagError {
    /// The statement is not hexadecimal.
    Statement(HexError),
    /// The seed of the coefficients is no key.
    TagSeed(KeyError),
    /// The modulus of that number failed the primality test.
    NotPrime(usize),
    /// The residuals could not be walked to the end.
    Walk(WalkError),
    /// The target is no key.
    Alpha(KeyError),
    /// The seed of the target is no key.
    AlphaSeed(KeyError),
}

/// The mathematical reading of a [`TagError`].
pub enum TagErrorView {
    Statement(HexError),
    TagSeed(KeyError),
    NotPrime(nat),
    Walk(WalkErrorView),
    Alpha(KeyError),
    AlphaSeed(KeyError),
}

impl View for TagError {
    type V = TagErrorView;

    open spec fn view(&self) -> TagErrorView {
        match *self {
            TagError::Statement(e) => TagErrorView::Statement(e),
            TagError::TagSeed(e) => TagErrorView::TagSeed(e),
            TagError::NotPrime(i) => TagErrorView::NotPrime(i as nat),
            TagError::Walk(e) => TagErrorView::Walk(e@),
            TagError::Alpha(e) => TagErrorView::Alpha(e),
            TagError::AlphaSeed(e) => TagErrorView::AlphaSeed(e),
        }
    }
}

/// The bytes that a text spells, white space around it aside.
pub open spec fn text_bytes(text: Seq<char>) -> Result<Seq<u8>, HexError> {
    hex_decoded(encode_utf8(trimmed(text)))
}

/// The key that a text spells.
pub open spec fn key_of(text: Seq<char>) -> Result<Seq<u8>, KeyError> {
    match text_bytes(text) {
        Ok(b) => if b.len() == 32 {
            Ok(b)
        } else {
            Err(KeyError::Length)
        },
        Err(e) => Err(KeyError::Hex(e)),
    }
}

/// What the digest of a coefficient is taken of.
pub open spec fn coefficient_input(
    seed: Seq<u8>,
    sh: Seq<u8>,
    armer_id: u32,
    idx: nat,
    limb: u32,
) -> Seq<u8> {
    seed + sh + le_bytes(armer_id as nat, 4) + le_bytes(idx, 8) + le_bytes(limb as nat, 4)
}

/// The number that the first 8 bytes of a digest spell, modulo `p`.
pub open spec fn reduced(digest: Seq<u8>, p: u64) -> int {
    le_value(digest.take(8)) as int % p as int
}

/// The coefficient of residual number `idx` in the field of number `limb`.
pub open spec fn coefficient(
    seed: Seq<u8>,
    sh: Seq<u8>,
    armer_id: u32,
    idx: nat,
    limb: u32,
    p: u64,
) -> int {
    reduced(sha256(coefficient_input(seed, sh, armer_id, idx, limb)), p)
}

/// The sum of the first `n` residuals, each with its coefficient.
pub open spec fn weighted_sum(
    seed: Seq<u8>,
    sh: Seq<u8>,
    armer_id: u32,
    residuals: Seq<u32>,
    limb: u32,
    p: u64,
    n: nat,
) -> int
    decreases n,
{
    if n == 0 {
        0
    } else {
        weighted_sum(seed, sh, armer_id, residuals, limb, p, (n - 1) as nat) + coefficient(
            seed,
            sh,
            armer_id,
            (n - 1) as nat,
            limb,
            p,
        ) * residuals[n - 1]
    }
}

/// The tag of the first `n` residuals in one field.
pub open spec fn tag_limb(
    seed: Seq<u8>,
    sh: Seq<u8>,
    armer_id: u32,
    residuals: Seq<u32>,
    limb: int,
    n: nat,
) -> u64 {
    let p = P64_CANDIDATES[limb];
    (weighted_sum(seed, sh, armer_id, residuals, limb as u32, p, n) % p as int) as u64
}

/// The tag of a residual stream.
pub open spec fn tag_of(seed: Seq<u8>, sh: Seq<u8>, armer_id: u32, residuals: Seq<u32>) -> Seq<
    u64,
> {
    Seq::new(4, |i: int| tag_limb(seed, sh, armer_id, residuals, i, residuals.len()))
}

/// What the digest of a derived target is taken of.
pub open spec fn alpha_input(
    alpha_seed: Seq<u8>,
    shape_id: Seq<char>,
    sh: Seq<u8>,
    armer_id: u32,
) -> Seq<u8> {
    encode_utf8("pvugc.alpha.v0"@) + alpha_seed + encode_utf8(shape_id) + sh + le_bytes(
        armer_id as nat,
        4,
    )
}

/// Four numbers of 8 bytes each, modulo the four primes.
pub open spec fn alpha_limbs_of(alpha: Seq<u8>) -> Seq<u64> {
    Seq::new(
        4,
        |i: int|
            (le_value(alpha.subrange(8 * i, 8 * i + 8)) as int % P64_CANDIDATES[i] as int) as u64,
    )
}

/// The target, where one is given or can be derived.
pub open spec fn alpha_of(params: TagParamsView, sh: Seq<u8>) -> Option<
    Result<Seq<u8>, TagErrorView>,
> {
    if let Some(a) = params.alpha_hex {
        Some(
            match key_of(a) {
                Ok(b) => Ok(b),
                Err(e) => Err(TagErrorView::Alpha(e)),
            },
        )
    } else if let Some(s) = params.alpha_seed_hex {
        Some(
            match key_of(s) {
                Ok(b) => Ok(sha256(alpha_input(b, params.shape_id, sh, params.armer_id))),
                Err(e) => Err(TagErrorView::AlphaSeed(e)),
            },
        )
    } else {
        None
    }
}

/// The first of the first `n` moduli that fails the primality test.
pub open spec fn first_composite(n: nat) -> Option<nat>
    decreases n,
{
    if n == 0 {
        None
    } else {
        let before = first_composite((n - 1) as nat);
        if before is Some {
            before
        } else if !passes_primality_test(P64_CANDIDATES[n - 1]) {
            Some((n - 1) as nat)
        } else {
            None
        }
    }
}

/// The four moduli are primes, and so they all pass the test.
pub proof fn law_moduli_are_primes()
    ensures
        forall|i: int| 0 <= i < 4 ==> is_prime(#[trigger] P64_CANDIDATES[i] as int),
        first_composite(4) is None,
{
    lemma_prime_18446744069414584321();
    lemma_prime_18446744073709551557();
    lemma_prime_18446744073709551533();
    lemma_prime_18446744073709551521();
    assert forall|i: int| 0 <= i < 4 implies is_prime(#[trigger] P64_CANDIDATES[i] as int)
        && passes_primality_test(P64_CANDIDATES[i]) by {
        assert(i == 0 || i == 1 || i == 2 || i == 3);
        law_primes_pass(P64_CANDIDATES[i]);
    }
    reveal_with_fuel(first_composite, 5);
}

/// The statement digest and the seed, or what stands in the way of walking the residuals.
pub open spec fn tag_keys(params: TagParamsView) -> Result<(Seq<u8>, Seq<u8>), TagErrorView> {
    match text_bytes(params.statement_hex) {
        Err(e) => Err(TagErrorView::Statement(e)),
        Ok(statement) => match key_of(params.tag_seed_hex) {
            Err(e) => Err(TagErrorView::TagSeed(e)),
            Ok(seed) => match first_composite(4) {
                Some(i) => Err(TagErrorView::NotPrime(i)),
                None => Ok((sha256(statement), seed)),
            },
        },
    }
}

/// A tag and its target.
pub open spec fn tag_and_target(
    residuals: Seq<u32>,
    params: TagParamsView,
    sh: Seq<u8>,
    seed: Seq<u8>,
) -> Result<TagResultView, TagErrorView> {
    let tag = tag_of(seed, sh, params.armer_id, residuals);
    match alpha_of(params, sh) {
        None => Ok(
            TagResultView {
                residuals_emitted: residuals.len(),
                tag_mod_p: tag,
                alpha_mod_p: None,
                unlock: None,
            },
        ),
        Some(Err(e)) => Err(e),
        Some(Ok(alpha)) => Ok(
            TagResultView {
                residuals_emitted: residuals.len(),
                tag_mod_p: tag,
                alpha_mod_p: Some(alpha_limbs_of(alpha)),
                unlock: Some(tag == alpha_limbs_of(alpha)),
            },
        ),
    }
}

/// What computing the tag of tables comes to.
pub open spec fn tag_result(tables: Map<Seq<char>, TableModel>, params: TagParamsView) -> Result<
    TagResultView,
    TagErrorView,
> {
    match tag_keys(params) {
        Err(e) => Err(e),
        Ok((sh, seed)) => match shrink_outcome(tables).error {
            Some(e) => Err(TagErrorView::Walk(e)),
            None => tag_and_target(values_of(shrink_outcome(tables).trace), params, sh, seed),
        },
    }
}

/// A result is the expected one.
pub open spec fn is_answer(
    r: Result<ShrinkTagResult, TagError>,
    expected: Result<TagResultView, TagErrorView>,
) -> bool {
    match r {
        Ok(t) => expected == Ok::<TagResultView, TagErrorView>(t@),
        Err(e) => expected == Err::<TagResultView, TagErrorView>(e@),
    }
}

/// Reads the number at the start of a digest and reduces it.
pub fn reduce_digest(digest: &[u8; 32], p: u64) -> (r: u64)
    requires
        p > 0,
    ensures
        r == reduced(digest@, p),
{
    assert(digest@.subrange(0, 8) =~= digest@.take(8));
    u64_le_at(digest, 0) % p
}

fn coeff_for(
    seed: &[u8; 32],
    sh: &[u8; 32],
    armer_id: u32,
    idx: u64,
    limb: u32,
    p: u64,
) -> (r: u64)
    requires
        p > 0,
    ensures
        r == coefficient(seed@, sh@, armer_id, idx as nat, limb, p),
{
    let mut input: Vec<u8> = Vec::new();
    push_bytes(&mut input, seed);
    push_bytes(&mut input, sh);
    push_u32_le(&mut input, armer_id);
    push_u64_le(&mut input, idx);
    push_u32_le(&mut input, limb);
    assert(input@ =~= coefficient_input(seed@, sh@, armer_id, idx as nat, limb));
    reduce_digest(&sha256_32(&input), p)
}

/// The coefficients of one residual in the four fields.
pub fn coeff_vec(
    seed: &[u8; 32],
    sh: &[u8; 32],
    armer_id: u32,
    idx: u64,
    primes: &[u64; 4],
) -> (r: [u64; 4])
    requires
        forall|i: int| 0 <= i < 4 ==> #[trigger] primes[i] > 0,
    ensures
        forall|i: int|
            0 <= i < 4 ==> #[trigger] r[i] == coefficient(
                seed@,
                sh@,
                armer_id,
                idx as nat,
                i as u32,
                primes[i],
            ),
{
    [
        coeff_for(seed, sh, armer_id, idx, 0, primes[0]),
        coeff_for(seed, sh, armer_id, idx, 1, primes[1]),
        coeff_for(seed, sh, armer_id, idx, 2, primes[2]),
        coeff_for(seed, sh, armer_id, idx, 3, primes[3]),
    ]
}

/// Adds one residual with its coefficient to a tag in one field.
pub fn accumulate(p: u64, tag: u64, coeff: u64, residual: u32) -> (r: u64)
    requires
        p > 0,
    ensures
        r == (tag + coeff * residual) % (p as int),
{
    let term: u64 = mod_mul(p, coeff, residual as u64 % p);
    proof {
        lemma_mul_mod_noop_right(coeff as int, residual as int, p as int);
        lemma_add_mod_noop(tag as int, coeff * residual, p as int);
        lemma_add_mod_noop(tag as int, term as int, p as int);
        lemma_mod_twice(coeff * residual, p as int);
    }
    mod_add(p, tag, term)
}

/// The tag of a residual stream.
pub fn residual_tag(seed: &[u8; 32], sh: &[u8; 32], armer_id: u32, residuals: &[u32]) -> (r: [u64; 4])
    ensures
        r@ == tag_of(seed@, sh@, armer_id, residuals@),
{
    let primes = P64_CANDIDATES;
    let mut t0: u64 = 0;
    let mut t1: u64 = 0;
    let mut t2: u64 = 0;
    let mut t3: u64 = 0;
    let mut k: usize = 0;
    proof {
        lemma_primes_positive();
    }
    while k < residuals.len()
        invariant
            k <= residuals@.len(),
            primes == P64_CANDIDATES,
            forall|i: int| 0 <= i < 4 ==> #[trigger] primes[i] > 0,
            t0 == tag_limb(seed@, sh@, armer_id, residuals@, 0, k as nat),
            t1 == tag_limb(seed@, sh@, armer_id, residuals@, 1, k as nat),
            t2 == tag_limb(seed@, sh@, armer_id, residuals@, 2, k as nat),
            t3 == tag_limb(seed@, sh@, armer_id, residuals@, 3, k as nat),
        decreases residuals@.len() - k,
    {
        let coeff = coeff_vec(seed, sh, armer_id, k as u64, &primes);
        let v: u32 = residuals[k];
        proof {
            lemma_tag_step(seed@, sh@, armer_id, residuals@, 0, k as nat, coeff[0]);
            lemma_tag_step(seed@, sh@, armer_id, residuals@, 1, k as nat, coeff[1]);
            lemma_tag_step(seed@, sh@, armer_id, residuals@, 2, k as nat, coeff[2]);
            lemma_tag_step(seed@, sh@, armer_id, residuals@, 3, k as nat, coeff[3]);
        }
        t0 = accumulate(primes[0], t0, coeff[0], v);
        t1 = accumulate(primes[1], t1, coeff[1], v);
        t2 = accumulate(primes[2], t2, coeff[2], v);
        t3 = accumulate(primes[3], t3, coeff[3], v);
        k += 1;
    }
    let r = [t0, t1, t2, t3];
    assert(r@ =~= tag_of(seed@, sh@, armer_id, residuals@));
    r
}

/// The moduli are positive.
pub proof fn lemma_primes_positive()
    ensures
        forall|i: int| 0 <= i < 4 ==> #[trigger] P64_CANDIDATES[i] > 0,
{
    assert(P64_CANDIDATES[0] > 0);
    assert(P64_CANDIDATES[1] > 0);
    assert(P64_CANDIDATES[2] > 0);
    assert(P64_CANDIDATES[3] > 0);
}

/// One more residual in the tag of one field.
proof fn lemma_tag_step(
    seed: Seq<u8>,
    sh: Seq<u8>,
    armer_id: u32,
    residuals: Seq<u32>,
    limb: int,
    k: nat,
    c: u64,
)
    requires
        0 <= limb < 4,
        k < residuals.len(),
        c == coefficient(seed, sh, armer_id, k, limb as u32, P64_CANDIDATES[limb]),
    ensures
        tag_limb(seed, sh, armer_id, residuals, limb, k + 1) == (tag_limb(
            seed,
            sh,
            armer_id,
            residuals,
            limb,
            k,
        ) + c * residuals[k as int]) % (P64_CANDIDATES[limb] as int),
{
    lemma_primes_positive();
    let p = P64_CANDIDATES[limb] as int;
    let s = weighted_sum(seed, sh, armer_id, residuals, limb as u32, P64_CANDIDATES[limb], k);
    lemma_mod_bound(s, p);
    lemma_mod_bound(s + c * residuals[k as int], p);
    lemma_add_mod_noop(s, c * residuals[k as int], p);
    lemma_add_mod_noop(s % p, c * residuals[k as int], p);
    lemma_mod_twice(s, p);
}

/// Derives a target from a seed.
fn alpha_from_seed(alpha_seed: &[u8; 32], shape_id: &str, sh: &[u8; 32], armer_id: u32) -> (r: [u8;
    32])
    ensures
        r@ == sha256(alpha_input(alpha_seed@, shape_id@, sh@, armer_id)),
{
    let mut input: Vec<u8> = Vec::new();
    push_bytes(&mut input, "pvugc.alpha.v0".as_bytes());
    push_bytes(&mut input, alpha_seed);
    push_bytes(&mut input, shape_id.as_bytes());
    push_bytes(&mut input, sh);
    push_u32_le(&mut input, armer_id);
    assert(input@ =~= alpha_input(alpha_seed@, shape_id@, sh@, armer_id));
    sha256_32(&input)
}

/// Reduces a target to its four limbs.
pub fn alpha_limbs(alpha: &[u8; 32]) -> (r: [u64; 4])
    ensures
        r@ == alpha_limbs_of(alpha@),
{
    let primes = P64_CANDIDATES;
    let a: u64 = u64_le_at(alpha, 0);
    let b: u64 = u64_le_at(alpha, 8);
    let c: u64 = u64_le_at(alpha, 16);
    let d: u64 = u64_le_at(alpha, 24);
    proof {
        lemma_primes_positive();
    }
    let r = [a % primes[0], b % primes[1], c % primes[2], d % primes[3]];
    assert(r@ =~= alpha_limbs_of(alpha@));
    r
}

/// Reads a key of 32 bytes in hexadecimal digits, white space around it aside.
pub fn parse_hex_32(text: &str) -> (r: Result<[u8; 32], KeyError>)
    ensures
        match r {
            Ok(k) => key_of(text@) == Ok::<Seq<u8>, KeyError>(k@),
            Err(e) => key_of(text@) == Err::<Seq<u8>, KeyError>(e),
        },
{
    let b = match hex_decode(trim(text)) {
        Ok(b) => b,
        Err(e) => {
            return Err(KeyError::Hex(e));
        },
    };
    if b.len() != 32 {
        return Err(KeyError::Length);
    }
    let mut r: [u8; 32] = [0u8;32];
    let mut i: usize = 0;
    while i < 32
        invariant
            i <= 32,
            b@.len() == 32,
            forall|k: int| 0 <= k < i ==> r[k] == b@[k],
        decreases 32 - i,
    {
        r[i] = b[i];
        i += 1;
    }
    assert(r@ =~= b@);
    Ok(r)
}

/// Finds the target, where one is given or can be derived.
fn find_alpha(params: &ShrinkTagParams<'_>, sh: &[u8; 32]) -> (r: Result<Option<[u8; 32]>, TagError>)
    ensures
        match r {
            Ok(None) => alpha_of(params@, sh@) is None,
            Ok(Some(a)) => alpha_of(params@, sh@) == Some(Ok::<Seq<u8>, TagErrorView>(a@)),
            Err(e) => alpha_of(params@, sh@) == Some(Err::<Seq<u8>, TagErrorView>(e@)),
        },
{
    if let Some(a) = params.alpha_hex {
        match parse_hex_32(a) {
            Ok(k) => Ok(Some(k)),
            Err(e) => Err(TagError::Alpha(e)),
        }
    } else if let Some(s) = params.alpha_seed_hex {
        match parse_hex_32(s) {
            Ok(k) => Ok(Some(alpha_from_seed(&k, params.shape_id, sh, params.armer_id))),
            Err(e) => Err(TagError::AlphaSeed(e)),
        }
    } else {
        Ok(None)
    }
}

fn limbs_eq(a: &[u64; 4], b: &[u64; 4]) -> (r: bool)
    ensures
        r == (a@ == b@),
{
    let r = a[0] == b[0] && a[1] == b[1] && a[2] == b[2] && a[3] == b[3];
    proof {
        if r {
            assert(a@ =~= b@);
        }
    }
    r
}

/// Looks for a modulus that fails the primality test. There is none.
fn find_composite() -> (r: Option<usize>)
    ensures
        r is None,
        first_composite(4) is None,
{
    let primes = P64_CANDIDATES;
    let mut i: usize = 0;
    while i < 4
        invariant
            i <= 4,
            primes == P64_CANDIDATES,
            first_composite(i as nat) is None,
        decreases 4 - i,
    {
        if !is_prime_u64(primes[i]) {
            proof {
                law_moduli_are_primes();
                lemma_first_composite((i + 1) as nat, 4);
            }
            return Some(i);
        }
        i += 1;
    }
    None
}

proof fn lemma_first_composite(i: nat, n: nat)
    requires
        i <= n,
    ensures
        first_composite(i) is Some ==> first_composite(n) == first_composite(i),
    decreases n - i,
{
    if i < n {
        lemma_first_composite(i, (n - 1) as nat);
    }
}

/// Reads the statement digest and the seed of the coefficients, and checks the moduli.
fn read_keys(params: &ShrinkTagParams<'_>) -> (r: Result<([u8; 32], [u8; 32]), TagError>)
    ensures
        match r {
            Ok((sh, seed)) => tag_keys(params@) == Ok::<(Seq<u8>, Seq<u8>), TagErrorView>(
                (sh@, seed@),
            ),
            Err(e) => {
                &&& tag_keys(params@) == Err::<(Seq<u8>, Seq<u8>), TagErrorView>(e@)
                &&& e !is Walk
                &&& e !is NotPrime
            },
        },
{
    let statement = match hex_decode(trim(params.statement_hex)) {
        Ok(b) => b,
        Err(e) => {
            return Err(TagError::Statement(e));
        },
    };
    let sh = sha256_32(&statement);
    let seed = match parse_hex_32(params.tag_seed_hex) {
        Ok(k) => k,
        Err(e) => {
            return Err(TagError::TagSeed(e));
        },
    };
    if let Some(i) = find_composite() {
        return Err(TagError::NotPrime(i));
    }
    Ok((sh, seed))
}

/// Computes the tag of a residual stream and compares it with the target.
pub fn compare_tag(
    residuals: &[u32],
    params: &ShrinkTagParams<'_>,
    sh: &[u8; 32],
    seed: &[u8; 32],
) -> (r: Result<ShrinkTagResult, TagError>)
    ensures
        is_answer(r, tag_and_target(residuals@, params@, sh@, seed@)),
        !(r matches Err(TagError::NotPrime(_))),
{
    let tag = residual_tag(seed, sh, params.armer_id, residuals);
    let mut alpha_mod_p: Option<[u64; 4]> = None;
    let mut unlock: Option<bool> = None;
    match find_alpha(params, sh) {
        Err(e) => {
            return Err(e);
        },
        Ok(Some(alpha)) => {
            let limbs = alpha_limbs(&alpha);
            unlock = Some(limbs_eq(&tag, &limbs));
            alpha_mod_p = Some(limbs);
        },
        Ok(None) => {},
    }
    Ok(
        ShrinkTagResult {
            residuals_emitted: residuals.len() as u64,
            tag_mod_p: tag,
            alpha_mod_p,
            unlock,
        },
    )
}

/// Walks the constraints and computes the tag of the residuals. The lock opens where the tag is the
/// target. Nothing is read where the statement or the seed is malformed.
pub fn compute_shrink_tag<P: RowProvider>(p: &mut P, params: ShrinkTagParams<'_>) -> (r: Result<
    ShrinkTagResult,
    TagError,
>)
    requires
        tag_keys(params@) is Ok ==> tables_canonical(old(p).tables(), shrink_chips_model()),
    ensures
        final(p).tables() == old(p).tables(),
        tag_keys(params@) is Err ==> *final(p) == *old(p),
        is_answer(r, tag_result(old(p).tables(), params@)),
        !(r matches Err(TagError::NotPrime(_))),
{
    let (sh, seed) = match read_keys(&params) {
        Ok(k) => k,
        Err(e) => {
            return Err(e);
        },
    };
    let mut log = ResidualLog::new();
    let ghost trace = shrink_outcome(p.tables()).trace;
    if let Err(e) = walk_shrink_residuals(p, &mut log) {
        return Err(TagError::Walk(e));
    }
    assert(log@.residuals =~= values_of(trace));
    compare_tag(&log.residuals, &params, &sh, &seed)
}

/// Computes the tag where the tables hold canonical field elements, and gives `None` otherwise. A
/// malformed statement or seed is reported in any case, and nothing is read.
pub fn try_compute_shrink_tag<P: RowProvider>(p: &mut P, params: ShrinkTagParams<'_>) -> (r: Option<
    Result<ShrinkTagResult, TagError>,
>)
    ensures
        final(p).tables() == old(p).tables(),
        tag_keys(params@) is Err ==> *final(p) == *old(p),
        r is None <==> tag_keys(params@) is Ok && !tables_canonical(
            old(p).tables(),
            shrink_chips_model(),
        ),
        r matches Some(answer) ==> is_answer(answer, tag_result(old(p).tables(), params@)),
{
    if let Err(e) = read_keys(&params) {
        return Some(Err(e));
    }
    if !are_tables_canonical(p, &shrink_chips()) {
        return None;
    }
    Some(compute_shrink_tag(p, params))
}

/// The target in hexadecimal digits, where it is asked for and there is one.
pub open spec fn shown_alpha(params: TagParamsView, sh: Seq<u8>) -> Option<Seq<char>> {
    match alpha_of(params, sh) {
        Some(Ok(alpha)) => if params.print_alpha {
            Some(hex_encoded(alpha))
        } else {
            None
        },
        _ => None,
    }
}

/// Writes the target in hexadecimal digits, where it is asked for and there is one.
pub fn show_alpha(params: &ShrinkTagParams<'_>) -> (r: Option<String>)
    ensures
        match text_bytes(params@.statement_hex) {
            Ok(statement) => match r {
                Some(s) => shown_alpha(params@, sha256(statement)) == Some(s@),
                None => shown_alpha(params@, sha256(statement)) is None,
            },
            Err(_) => r is None,
        },
{
    let statement = match hex_decode(trim(params.statement_hex)) {
        Ok(b) => b,
        Err(_) => {
            return None;
        },
    };
    match find_alpha(params, &sha256_32(&statement)) {
        Ok(Some(alpha)) => if params.print_alpha {
            Some(hex_encode(&alpha))
        } else {
            None
        },
        _ => None,
    }
}

} // verus!
