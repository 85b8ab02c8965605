//! Poseidon over the BN254 scalar field.
//!
//! - Width t = 3 (2 inputs + 1 capacity element)
//! - x^5 S-box
//! - 8 full rounds + 57 partial rounds
//! - Circulant MDS matrix [[3,1,1],[1,3,1],[1,1,3]]
//! - Round constants drawn deterministically from a fixed seed by rejection
//!   sampling of 256-bit strings against the field modulus.
//!
//! Besides the off-circuit hash, this module yields the per-round witness
//! that the on-circuit chip assigns, and states the gates that the chip
//! enforces on it.

use vstd::prelude::*;

use crate::field::{fadd, fmul, le_nat, modulus, Fe};

verus! {

// --- Poseidon parameters ---

pub const WIDTH: usize = 3;

pub const FULL_ROUNDS: usize = 8;

pub const PARTIAL_ROUNDS: usize = 57;

/// Full rounds before the partial ones.
pub const FIRST_FULL: usize = FULL_ROUNDS / 2;

/// Total number of rounds.
pub const ROUNDS: usize = FULL_ROUNDS + PARTIAL_ROUNDS;

/// MDS matrix (circulant, MDS over BN254).
pub const MDS: [[u64; WIDTH]; WIDTH] = [[3, 1, 1], [1, 3, 1], [1, 1, 3]];

/// Entry `(i, j)` of the MDS matrix.
pub open spec fn mds_entry(i: int, j: int) -> nat {
    if i == j {
        3
    } else {
        1
    }
}

/// A Poseidon state as values.
pub open spec fn st(a: [Fe; 3]) -> (nat, nat, nat) {
    (a@[0]@, a@[1]@, a@[2]@)
}

/// The x^5 S-box on values, as computed: `x² · x² · x`.
pub open spec fn spec_sbox(x: nat) -> nat {
    fmul(fmul(fmul(x, x), fmul(x, x)), x)
}

/// Row `i` of the MDS product, accumulated from zero.
pub open spec fn mds_row(s: (nat, nat, nat), i: int) -> nat {
    fadd(
        fadd(fadd(0, fmul(s.0, mds_entry(i, 0))), fmul(s.1, mds_entry(i, 1))),
        fmul(s.2, mds_entry(i, 2)),
    )
}

/// The MDS product on values.
pub open spec fn spec_mds(s: (nat, nat, nat)) -> (nat, nat, nat) {
    (mds_row(s, 0), mds_row(s, 1), mds_row(s, 2))
}

/// Whether round `r` is a full round (all three S-boxes).
pub open spec fn spec_is_full(r: nat) -> bool {
    !(FIRST_FULL <= r < FIRST_FULL + PARTIAL_ROUNDS)
}

/// Adding the round constants.
pub open spec fn spec_arc(s: (nat, nat, nat), c: (nat, nat, nat)) -> (nat, nat, nat) {
    (fadd(s.0, c.0), fadd(s.1, c.1), fadd(s.2, c.2))
}

/// The S-box layer: all three elements in a full round, the first alone in
/// a partial round.
pub open spec fn spec_sbox_layer(a: (nat, nat, nat), full: bool) -> (nat, nat, nat) {
    if full {
        (spec_sbox(a.0), spec_sbox(a.1), spec_sbox(a.2))
    } else {
        (spec_sbox(a.0), a.1, a.2)
    }
}

/// One round: round constants, S-boxes, MDS.
#[verifier::opaque]
pub open spec fn spec_round(s: (nat, nat, nat), c: (nat, nat, nat), full: bool) -> (nat, nat, nat) {
    spec_mds(spec_sbox_layer(spec_arc(s, c), full))
}

/// The state after the first `r` rounds with constants `cs`.
pub open spec fn spec_rounds(s: (nat, nat, nat), cs: Seq<(nat, nat, nat)>, r: nat) -> (nat, nat, nat)
    decreases r,
{
    if r == 0 {
        s
    } else {
        spec_round(spec_rounds(s, cs, (r - 1) as nat), cs[r - 1], spec_is_full((r - 1) as nat))
    }
}

/// Poseidon of `(a, b)` with constants `cs`: the first element of the state
/// after all rounds from `[a, b, 0]`.
#[verifier::opaque]
pub open spec fn spec_poseidon(cs: Seq<(nat, nat, nat)>, a: nat, b: nat) -> nat {
    spec_rounds((a, b, 0), cs, ROUNDS as nat).0
}

/// The S-box is the fifth power in the field.
pub proof fn lemma_sbox_is_fifth_power(x: nat)
    ensures
        spec_sbox(x) == (x * x * x * x * x) % modulus(),
{
    let p = modulus() as int;
    let x2 = (x * x) as int;
    vstd::arithmetic::div_mod::lemma_mul_mod_noop(x2, x2, p);
    let x4 = (x2 * x2) as int;
    vstd::arithmetic::div_mod::lemma_mul_mod_noop(x4, x as int, p);
    vstd::arithmetic::div_mod::lemma_mod_twice(x4, p);
    vstd::arithmetic::div_mod::lemma_mul_mod_noop((x4 % p) as int, x as int, p);
    vstd::arithmetic::div_mod::lemma_mod_twice(x as int, p);
    assert(x4 * x == x * x * x * x * x) by (nonlinear_arith)
        requires
            x2 == x * x,
            x4 == x2 * x2,
    ;
}

/// The x^5 S-box.
pub fn sbox(x: Fe) -> (r: Fe)
    ensures
        r@ == spec_sbox(x@),
{
    let x2 = x.mul(x);
    let x4 = x2.mul(x2);
    x4.mul(x)
}

/// Multiplication by the MDS matrix.
pub fn mds_mul(state: [Fe; 3]) -> (r: [Fe; 3])
    ensures
        st(r) == spec_mds(st(state)),
{
    let mut result = [Fe::zero(), Fe::zero(), Fe::zero()];
    for i in 0..WIDTH
        invariant
            forall|k: int| 0 <= k < i ==> (#[trigger] result@[k])@ == mds_row(st(state), k),
            forall|k: int| i <= k < 3 ==> (#[trigger] result@[k])@ == 0,
    {
        for j in 0..WIDTH
            invariant
                0 <= i < 3,
                forall|k: int| 0 <= k < i ==> (#[trigger] result@[k])@ == mds_row(st(state), k),
                forall|k: int| i < k < 3 ==> (#[trigger] result@[k])@ == 0,
                result@[i as int]@ == (if j == 0 {
                    0
                } else if j == 1 {
                    fadd(0, fmul(state@[0]@, mds_entry(i as int, 0)))
                } else if j == 2 {
                    fadd(fadd(0, fmul(state@[0]@, mds_entry(i as int, 0))), fmul(state@[1]@, mds_entry(i as int, 1)))
                } else {
                    mds_row(st(state), i as int)
                }),
        {
            let m = Fe::from_u64(MDS[i][j]);
            assert(m@ == mds_entry(i as int, j as int));
            result[i] = result[i].add(state[j].mul(m));
        }
    }
    result
}


// --- Round constant generation ---

/// Multiplier of the seed absorption.
pub const SEED_MUL: u64 = 0x517cc1b727220a95;

/// Multiplier of the state mixing.
pub const MIX_MUL: u64 = 0x9e3779b97f4a7c15;

/// Most rejected samples tolerated before one constant is accepted.
pub const SAMPLE_LIMIT: u32 = 0xffff_ffff;

/// Number of round constants.
pub const NUM_CONSTANTS: usize = ROUNDS * WIDTH;

/// The seed `b"zk-ballot-poseidon-bn254-v1"`.
pub open spec fn seed_bytes() -> Seq<u8> {
    seq![
        122u8, 107, 45, 98, 97, 108, 108, 111, 116, 45, 112, 111, 115, 101, 105, 100, 111, 110,
        45, 98, 110, 50, 53, 52, 45, 118, 49,
    ]
}

/// The generator's starting words.
pub open spec fn initial_words() -> Seq<u64> {
    seq![0x6a09e667f3bcc908u64, 0xbb67ae8584caa73b, 0x3c6ef372fe94f82b, 0xa54ff53a5f1d36f1]
}

/// Absorbing seed byte `i`.
pub open spec fn absorb(s: Seq<u64>, i: nat, b: u8) -> Seq<u64> {
    let w = (i % 4) as int;
    s.update(w, (s[w] ^ (b as u64)).wrapping_mul(SEED_MUL))
}

/// The words after absorbing the first `n` seed bytes.
pub open spec fn seeded(n: nat) -> Seq<u64>
    decreases n,
{
    if n == 0 {
        initial_words()
    } else {
        absorb(seeded((n - 1) as nat), (n - 1) as nat, seed_bytes()[n - 1])
    }
}

/// One mixing step of the four words.
#[verifier::opaque]
pub open spec fn mix_once(s: Seq<u64>) -> Seq<u64> {
    let s0 = s[0].wrapping_add(s[1]) ^ s[2].wrapping_mul(MIX_MUL);
    let s1 = s[1].wrapping_add(s[2]) ^ s[3].wrapping_mul(MIX_MUL);
    let s2 = s[2].wrapping_add(s[3]) ^ s0.wrapping_mul(MIX_MUL);
    let s3 = s[3].wrapping_add(s0) ^ s1.wrapping_mul(MIX_MUL);
    seq![
        s0.wrapping_mul(MIX_MUL),
        s1.wrapping_mul(MIX_MUL),
        s2.wrapping_mul(MIX_MUL),
        s3.wrapping_mul(MIX_MUL),
    ]
}

/// `n` mixing steps.
#[verifier::opaque]
pub open spec fn mix_n(s: Seq<u64>, n: nat) -> Seq<u64>
    decreases n,
{
    if n == 0 {
        s
    } else {
        mix_once(mix_n(s, (n - 1) as nat))
    }
}

/// Byte `i` of the little-endian encoding of the four words.
pub open spec fn word_byte(s: Seq<u64>, i: int) -> u8 {
    (s[i / 8] >> ((8 * (i % 8)) as u64)) as u8
}

/// The 32-byte little-endian encoding of the four words.
#[verifier::opaque]
pub open spec fn words_bytes(s: Seq<u64>) -> Seq<u8> {
    Seq::new(32, |i: int| word_byte(s, i))
}

/// Draws one constant: mixes four times and accepts the encoding when it
/// is a canonical field element, else draws again, at most `fuel` more
/// times. Gives the constant's value and the words after it.
#[verifier::opaque]
pub open spec fn sample(s: Seq<u64>, fuel: nat) -> Option<(nat, Seq<u64>)>
    decreases fuel,
{
    let s2 = mix_n(s, 4);
    let v = le_nat(words_bytes(s2));
    if v < modulus() {
        Some((v, s2))
    } else if fuel == 0 {
        None
    } else {
        sample(s2, (fuel - 1) as nat)
    }
}

/// The first `n` constants, in order, with the words after them; `None`
/// when some draw exceeds the sample limit.
#[verifier::opaque]
pub open spec fn generated(n: nat) -> Option<(Seq<nat>, Seq<u64>)>
    decreases n,
{
    if n == 0 {
        Some((Seq::empty(), seeded(27)))
    } else {
        match generated((n - 1) as nat) {
            None => None,
            Some((vs, s)) => match sample(s, SAMPLE_LIMIT as nat) {
                None => None,
                Some((v, s2)) => Some((vs.push(v), s2)),
            },
        }
    }
}

/// The round constants: constant `j` of round `r` is the `3r + j`-th drawn.
pub open spec fn spec_round_constants() -> Option<Seq<(nat, nat, nat)>> {
    match generated(NUM_CONSTANTS as nat) {
        None => None,
        Some((vs, _)) => Some(
            Seq::new(ROUNDS as nat, |r: int| (vs[3 * r], vs[3 * r + 1], vs[3 * r + 2])),
        ),
    }
}

/// The round constants, where they can be drawn.
pub open spec fn spec_constants() -> Seq<(nat, nat, nat)> {
    spec_round_constants().unwrap()
}

/// The Poseidon hash with constants `cs`, as a two-argument function.
pub open spec fn poseidon_fn(cs: Seq<(nat, nat, nat)>) -> spec_fn(nat, nat) -> nat {
    |x: nat, y: nat| spec_poseidon(cs, x, y)
}

/// Once a draw fails, every longer run fails.
proof fn lemma_generated_none(n: nat, m: nat)
    requires
        n <= m,
        generated(n) is None,
    ensures
        generated(m) is None,
    decreases m - n,
{
    if n < m {
        lemma_generated_none(n, (m - 1) as nat);
        reveal(generated);
    }
}

/// The values of a table of round constants.
pub open spec fn cvals(v: Seq<[Fe; 3]>) -> Seq<(nat, nat, nat)> {
    v.map_values(|c: [Fe; 3]| st(c))
}

/// One mixing step of the four words.
fn mix_step(state: &mut [u64; 4])
    ensures
        final(state)@ == mix_once(old(state)@),
{
    let s0 = state[0].wrapping_add(state[1]) ^ state[2].wrapping_mul(MIX_MUL);
    let s1 = state[1].wrapping_add(state[2]) ^ state[3].wrapping_mul(MIX_MUL);
    let s2 = state[2].wrapping_add(state[3]) ^ s0.wrapping_mul(MIX_MUL);
    let s3 = state[3].wrapping_add(s0) ^ s1.wrapping_mul(MIX_MUL);
    let ghost before = state@;
    reveal(mix_once);
    *state = [
        s0.wrapping_mul(MIX_MUL),
        s1.wrapping_mul(MIX_MUL),
        s2.wrapping_mul(MIX_MUL),
        s3.wrapping_mul(MIX_MUL),
    ];
    assert(state@ =~= mix_once(before));
}

/// Mixes the four words four times.
fn mix4(state: &mut [u64; 4])
    ensures
        final(state)@ == mix_n(old(state)@, 4),
{
    let ghost start = state@;
    reveal(mix_n);
    for k in 0..4usize
        invariant
            state@ == mix_n(start, k as nat),
    {
        reveal(mix_n);
        mix_step(state);
    }
}

/// The 32-byte little-endian encoding of the four words.
fn encode_words(state: &[u64; 4]) -> (bytes: [u8; 32])
    ensures
        bytes@ == words_bytes(state@),
{
    let mut bytes = [0u8; 32];
    for i in 0..32usize
        invariant
            forall|k: int| 0 <= k < i ==> #[trigger] bytes@[k] == word_byte(state@, k),
    {
        let shift: u64 = (8 * (i % 8)) as u64;
        bytes[i] = (state[i / 8] >> shift) as u8;
    }
    reveal(words_bytes);
    assert(bytes@ =~= words_bytes(state@));
    bytes
}

/// Draws one round constant by rejection sampling (see `sample`).
fn sample_constant(state: &mut [u64; 4]) -> (r: Option<Fe>)
    ensures
        match sample(old(state)@, SAMPLE_LIMIT as nat) {
            None => r is None,
            Some((v, s2)) => r matches Some(f) && f@ == v && final(state)@ == s2,
        },
{
    let ghost start = state@;
    let mut attempts: u32 = 0;
    loop
        invariant
            start == old(state)@,
            attempts <= SAMPLE_LIMIT,
            sample(state@, (SAMPLE_LIMIT - attempts) as nat) == sample(start, SAMPLE_LIMIT as nat),
        decreases SAMPLE_LIMIT - attempts,
    {
        mix4(state);
        let bytes = encode_words(state);
        proof {
            reveal(sample);
        }
        match Fe::from_bytes(&bytes) {
            Some(fe) => {
                return Some(fe);
            },
            None => {
                if attempts == SAMPLE_LIMIT {
                    return None;
                }
                attempts += 1;
            },
        }
    }
}

/// Generate the deterministic round constants from the fixed seed:
/// `(FULL_ROUNDS + PARTIAL_ROUNDS) * WIDTH = 65 * 3 = 195` constants, each
/// drawn by rejection sampling so that none falls back to zero. `None`
/// only when a draw is rejected more than `SAMPLE_LIMIT` times in a row.
pub fn round_constants() -> (r: Option<Vec<[Fe; 3]>>)
    ensures
        r is Some <==> spec_round_constants() is Some,
        r matches Some(v) ==> v@.len() == ROUNDS && cvals(v@) == spec_round_constants().unwrap(),
{
    let mut constants: Vec<[Fe; 3]> = Vec::new();
    let mut state: [u64; 4] = [
        0x6a09e667f3bcc908,
        0xbb67ae8584caa73b,
        0x3c6ef372fe94f82b,
        0xa54ff53a5f1d36f1,
    ];
    let seed: [u8; 27] = [
        122, 107, 45, 98, 97, 108, 108, 111, 116, 45, 112, 111, 115, 101, 105, 100, 111, 110, 45,
        98, 110, 50, 53, 52, 45, 118, 49,
    ];
    assert(state@ =~= initial_words());
    assert(seed@ =~= seed_bytes());
    for i in 0..27usize
        invariant
            seed@ == seed_bytes(),
            state@ == seeded(i as nat),
    {
        let b = seed[i];
        let w = i % 4;
        state[w] = (state[w] ^ (b as u64)).wrapping_mul(SEED_MUL);
        assert(state@ =~= absorb(seeded(i as nat), i as nat, b));
    }

    let ghost mut drawn: Seq<nat> = Seq::empty();
    proof {
        reveal(generated);
    }
    for r in 0..ROUNDS
        invariant
            generated((3 * r) as nat) == Some((drawn, state@)),
            drawn.len() == 3 * r,
            constants@.len() == r,
            forall|k: int, j: int|
                0 <= k < r && 0 <= j < 3 ==> (#[trigger] constants@[k]@[j])@ == drawn[3 * k + j],
    {
        let mut round_c = [Fe::zero(), Fe::zero(), Fe::zero()];
        for j in 0..WIDTH
            invariant
                r < ROUNDS,
                generated((3 * r + j) as nat) == Some((drawn, state@)),
                drawn.len() == 3 * r + j,
                constants@.len() == r,
                forall|k: int, jj: int|
                    0 <= k < r && 0 <= jj < 3 ==> (#[trigger] constants@[k]@[jj])@ == drawn[3 * k
                        + jj],
                forall|jj: int| 0 <= jj < j ==> (#[trigger] round_c@[jj])@ == drawn[3 * r + jj],
        {
            proof {
                reveal(generated);
            }
            match sample_constant(&mut state) {
                Some(fe) => {
                    round_c[j] = fe;
                    proof {
                        drawn = drawn.push(fe@);
                    }
                },
                None => {
                    proof {
                        lemma_generated_none((3 * r + j + 1) as nat, NUM_CONSTANTS as nat);
                    }
                    return None;
                },
            }
        }
        constants.push(round_c);
    }
    proof {
        reveal(generated);
        let spec = spec_round_constants().unwrap();
        assert(cvals(constants@) =~= spec);
    }
    Some(constants)
}


// --- Off-circuit Poseidon ---

/// Whether round `round` is a full round (all three S-boxes).
pub fn is_full_round(round: usize) -> (r: bool)
    ensures
        r == spec_is_full(round as nat),
{
    !(FIRST_FULL <= round && round < FIRST_FULL + PARTIAL_ROUNDS)
}

/// Adds the round constants to the state (ARC).
pub fn add_round_constants(state: [Fe; 3], c: [Fe; 3]) -> (r: [Fe; 3])
    ensures
        st(r) == spec_arc(st(state), st(c)),
{
    [state[0].add(c[0]), state[1].add(c[1]), state[2].add(c[2])]
}

/// The S-box layer: every element in a full round, the first alone in a
/// partial round.
pub fn sbox_layer(state: [Fe; 3], full: bool) -> (r: [Fe; 3])
    ensures
        st(r) == spec_sbox_layer(st(state), full),
{
    if full {
        [sbox(state[0]), sbox(state[1]), sbox(state[2])]
    } else {
        [sbox(state[0]), state[1], state[2]]
    }
}

/// The Poseidon permutation of `[a, b, 0]` with the given constants; the
/// first element of the final state.
pub(crate) fn permute(constants: &Vec<[Fe; 3]>, a: Fe, b: Fe) -> (r: Fe)
    requires
        constants@.len() == ROUNDS,
    ensures
        r@ == spec_poseidon(cvals(constants@), a@, b@),
{
    reveal(spec_poseidon);
    let ghost cs = cvals(constants@);
    let mut state = [a, b, Fe::zero()];
    for round in 0..ROUNDS
        invariant
            constants@.len() == ROUNDS,
            cs == cvals(constants@),
            st(state) == spec_rounds((a@, b@, 0), cs, round as nat),
    {
        proof {
            reveal(spec_round);
        }
        let is_full = is_full_round(round);
        let after_arc = add_round_constants(state, constants[round]);
        let after_sbox = sbox_layer(after_arc, is_full);
        state = mds_mul(after_sbox);
    }
    state[0]
}

/// Off-circuit Poseidon hash matching the on-circuit chip.
/// Takes 2 field elements, outputs state[0] after the permutation of
/// `[a, b, 0]`. `None` exactly when the round constants cannot be drawn.
pub fn hash(a: Fe, b: Fe) -> (r: Option<Fe>)
    ensures
        r is Some <==> spec_round_constants() is Some,
        r matches Some(h) ==> h@ == spec_poseidon(spec_round_constants().unwrap(), a@, b@),
{
    match round_constants() {
        Some(constants) => Some(permute(&constants, a, b)),
        None => None,
    }
}

// --- Gates of the on-circuit chip ---

/// The S-box gate: `t0 = in + rc`, `t1 = t0²`, `t2 = t1²`, `out = t2·t0`.
pub open spec fn sbox_gate(s_in: nat, rc: nat, t0: nat, t1: nat, t2: nat, s_out: nat) -> bool {
    &&& t0 == (s_in + rc) % modulus()
    &&& t1 == (t0 * t0) % modulus()
    &&& t2 == (t1 * t1) % modulus()
    &&& s_out == (t2 * t0) % modulus()
}

/// Some intermediates make the S-box gate hold.
pub open spec fn sbox_constrained(s_in: nat, rc: nat, s_out: nat) -> bool {
    exists|t0: nat, t1: nat, t2: nat| sbox_gate(s_in, rc, t0, t1, t2, s_out)
}

/// The ARC gate of a partial round on one element: `out = in + rc`.
pub open spec fn arc_gate(s_in: nat, rc: nat, s_out: nat) -> bool {
    s_out == (s_in + rc) % modulus()
}

/// The MDS gate: `out[i] = Σ_j MDS[i][j] · in[j]`.
pub open spec fn mds_gate(s: (nat, nat, nat), o: (nat, nat, nat)) -> bool {
    &&& o.0 == (3 * s.0 + s.1 + s.2) % modulus()
    &&& o.1 == (s.0 + 3 * s.1 + s.2) % modulus()
    &&& o.2 == (s.0 + s.1 + 3 * s.2) % modulus()
}

/// The gates of one round, between the state before the round constants
/// (`pre`), after the S-boxes (`post`) and after the MDS (`out`).
#[verifier::opaque]
pub open spec fn round_gates(
    pre: (nat, nat, nat),
    c: (nat, nat, nat),
    full: bool,
    post: (nat, nat, nat),
    out: (nat, nat, nat),
) -> bool {
    &&& sbox_constrained(pre.0, c.0, post.0)
    &&& if full {
        sbox_constrained(pre.1, c.1, post.1) && sbox_constrained(pre.2, c.2, post.2)
    } else {
        arc_gate(pre.1, c.1, post.1) && arc_gate(pre.2, c.2, post.2)
    }
    &&& mds_gate(post, out)
}

/// `((0 + x·m0) + y·m1) + z·m2` in the field is the linear combination
/// reduced once.
proof fn lemma_mds_row_combination(x: nat, y: nat, z: nat, m0: nat, m1: nat, m2: nat)
    ensures
        fadd(fadd(fadd(0, fmul(x, m0)), fmul(y, m1)), fmul(z, m2)) == (m0 * x + m1 * y + m2 * z)
            % modulus(),
{
    let p = modulus() as int;
    let a = (x * m0) as int;
    let b = (y * m1) as int;
    let c = (z * m2) as int;
    vstd::arithmetic::div_mod::lemma_add_mod_noop(0, a, p);
    vstd::arithmetic::div_mod::lemma_mod_twice(a, p);
    vstd::arithmetic::div_mod::lemma_add_mod_noop(a, b, p);
    vstd::arithmetic::div_mod::lemma_mod_twice(a + b, p);
    vstd::arithmetic::div_mod::lemma_add_mod_noop(a + b, c, p);
    assert(a + b + c == m0 * x + m1 * y + m2 * z) by (nonlinear_arith)
        requires
            a == x * m0,
            b == y * m1,
            c == z * m2,
    ;
}

/// `c · a` is `p · (c · (a / p)) + c · (a % p)`.
proof fn lemma_scaled_div_mod(p: int, c: int, a: int)
    requires
        p > 0,
    ensures
        c * a == p * (c * (a / p)) + c * (a % p),
{
    vstd::arithmetic::div_mod::lemma_fundamental_div_mod(a, p);
    let q = a / p;
    let r = a % p;
    assert(c * a == p * (c * q) + c * r) by (nonlinear_arith)
        requires
            a == p * q + r,
    ;
}

/// Reducing the terms of a linear combination before combining does not
/// change the combination modulo `p`.
proof fn lemma_mod_lin3(p: int, c0: int, c1: int, c2: int, a0: int, a1: int, a2: int)
    requires
        p > 0,
    ensures
        (c0 * (a0 % p) + c1 * (a1 % p) + c2 * (a2 % p)) % p == (c0 * a0 + c1 * a1 + c2 * a2) % p,
{
    lemma_scaled_div_mod(p, c0, a0);
    lemma_scaled_div_mod(p, c1, a1);
    lemma_scaled_div_mod(p, c2, a2);
    let r = c0 * (a0 % p) + c1 * (a1 % p) + c2 * (a2 % p);
    let k = c0 * (a0 / p) + c1 * (a1 / p) + c2 * (a2 / p);
    vstd::arithmetic::mul::lemma_mul_is_distributive_add(p, c0 * (a0 / p), c1 * (a1 / p));
    vstd::arithmetic::mul::lemma_mul_is_distributive_add(p, c0 * (a0 / p) + c1 * (a1 / p), c2 * (a2 / p));
    assert(c0 * a0 + c1 * a1 + c2 * a2 == p * k + r);
    vstd::arithmetic::div_mod::lemma_mod_multiples_vanish(k, r, p);
}

/// Spells out the components of the MDS product.
proof fn lemma_mds_values(x: (nat, nat, nat))
    ensures
        spec_mds(x).0 == (3 * x.0 + x.1 + x.2) % modulus(),
        spec_mds(x).1 == (x.0 + 3 * x.1 + x.2) % modulus(),
        spec_mds(x).2 == (x.0 + x.1 + 3 * x.2) % modulus(),
{
    lemma_mds_gate(x, spec_mds(x));
}

/// A row of coefficients maps field sums to field sums.
proof fn lemma_row_additive(c0: nat, c1: nat, c2: nat, x: (nat, nat, nat), y: (nat, nat, nat))
    ensures
        (c0 * fadd(x.0, y.0) + c1 * fadd(x.1, y.1) + c2 * fadd(x.2, y.2)) % modulus() == fadd(
            (c0 * x.0 + c1 * x.1 + c2 * x.2) % modulus(),
            (c0 * y.0 + c1 * y.1 + c2 * y.2) % modulus(),
        ),
{
    let p = modulus() as int;
    let (x0, x1, x2) = (x.0 as int, x.1 as int, x.2 as int);
    let (y0, y1, y2) = (y.0 as int, y.1 as int, y.2 as int);
    let (d0, d1, d2) = (c0 as int, c1 as int, c2 as int);
    lemma_mod_lin3(p, d0, d1, d2, x0 + y0, x1 + y1, x2 + y2);
    lemma_mod_lin3(p, 1, 1, 0, d0 * x0 + d1 * x1 + d2 * x2, d0 * y0 + d1 * y1 + d2 * y2, 0);
    vstd::arithmetic::mul::lemma_mul_is_distributive_add(d0, x0, y0);
    vstd::arithmetic::mul::lemma_mul_is_distributive_add(d1, x1, y1);
    vstd::arithmetic::mul::lemma_mul_is_distributive_add(d2, x2, y2);
}

/// The MDS product maps sums to sums.
pub proof fn lemma_mds_additive(x: (nat, nat, nat), y: (nat, nat, nat))
    ensures
        spec_mds((fadd(x.0, y.0), fadd(x.1, y.1), fadd(x.2, y.2))) == (
            fadd(spec_mds(x).0, spec_mds(y).0),
            fadd(spec_mds(x).1, spec_mds(y).1),
            fadd(spec_mds(x).2, spec_mds(y).2),
        ),
{
    let s = (fadd(x.0, y.0), fadd(x.1, y.1), fadd(x.2, y.2));
    lemma_mds_values(x);
    lemma_mds_values(y);
    lemma_mds_values(s);
    lemma_row_additive(3, 1, 1, x, y);
    lemma_row_additive(1, 3, 1, x, y);
    lemma_row_additive(1, 1, 3, x, y);
}

/// A row of coefficients maps field multiples to field multiples.
proof fn lemma_row_homogeneous(c0: nat, c1: nat, c2: nat, x: (nat, nat, nat), k: nat)
    ensures
        (c0 * fmul(k, x.0) + c1 * fmul(k, x.1) + c2 * fmul(k, x.2)) % modulus() == fmul(
            k,
            (c0 * x.0 + c1 * x.1 + c2 * x.2) % modulus(),
        ),
{
    let p = modulus() as int;
    let (x0, x1, x2) = (x.0 as int, x.1 as int, x.2 as int);
    let (d0, d1, d2) = (c0 as int, c1 as int, c2 as int);
    let ki = k as int;
    lemma_mod_lin3(p, d0, d1, d2, ki * x0, ki * x1, ki * x2);
    lemma_mod_lin3(p, ki, 0, 0, d0 * x0 + d1 * x1 + d2 * x2, 0, 0);
    vstd::arithmetic::mul::lemma_mul_is_associative(d0, ki, x0);
    vstd::arithmetic::mul::lemma_mul_is_associative(d1, ki, x1);
    vstd::arithmetic::mul::lemma_mul_is_associative(d2, ki, x2);
    vstd::arithmetic::mul::lemma_mul_is_associative(ki, d0, x0);
    vstd::arithmetic::mul::lemma_mul_is_associative(ki, d1, x1);
    vstd::arithmetic::mul::lemma_mul_is_associative(ki, d2, x2);
    vstd::arithmetic::mul::lemma_mul_is_commutative(d0, ki);
    vstd::arithmetic::mul::lemma_mul_is_commutative(d1, ki);
    vstd::arithmetic::mul::lemma_mul_is_commutative(d2, ki);
    vstd::arithmetic::mul::lemma_mul_is_distributive_add(ki, d0 * x0, d1 * x1);
    vstd::arithmetic::mul::lemma_mul_is_distributive_add(ki, d0 * x0 + d1 * x1, d2 * x2);
    assert(d0 * (ki * x0) + d1 * (ki * x1) + d2 * (ki * x2) == ki * (d0 * x0 + d1 * x1 + d2 * x2));
}

/// The MDS product maps multiples to multiples.
pub proof fn lemma_mds_homogeneous(x: (nat, nat, nat), k: nat)
    ensures
        spec_mds((fmul(k, x.0), fmul(k, x.1), fmul(k, x.2))) == (
            fmul(k, spec_mds(x).0),
            fmul(k, spec_mds(x).1),
            fmul(k, spec_mds(x).2),
        ),
{
    let t = (fmul(k, x.0), fmul(k, x.1), fmul(k, x.2));
    lemma_mds_values(x);
    lemma_mds_values(t);
    lemma_row_homogeneous(3, 1, 1, x, k);
    lemma_row_homogeneous(1, 3, 1, x, k);
    lemma_row_homogeneous(1, 1, 3, x, k);
}

/// The outputs of the MDS product sum to five times the sum of its inputs.
pub proof fn lemma_mds_sum(x: (nat, nat, nat))
    ensures
        fadd(fadd(spec_mds(x).0, spec_mds(x).1), spec_mds(x).2) == fmul(5, fadd(fadd(x.0, x.1), x.2)),
{
    let p = modulus() as int;
    lemma_mds_values(x);
    let (x0, x1, x2) = (x.0 as int, x.1 as int, x.2 as int);
    let a = 3 * x0 + x1 + x2;
    let b = x0 + 3 * x1 + x2;
    let c = x0 + x1 + 3 * x2;
    lemma_mod_lin3(p, 1, 1, 0, a, b, 0);
    lemma_mod_lin3(p, 1, 1, 0, (a + b) % p, c, 0);
    lemma_mod_lin3(p, 1, 1, 0, a + b, c, 0);
    vstd::arithmetic::div_mod::lemma_mod_twice(a + b, p);
    lemma_mod_lin3(p, 1, 1, 0, x0, x1, 0);
    lemma_mod_lin3(p, 1, 1, 0, (x0 + x1) % p, x2, 0);
    lemma_mod_lin3(p, 1, 1, 0, x0 + x1, x2, 0);
    vstd::arithmetic::div_mod::lemma_mod_twice(x0 + x1, p);
    lemma_mod_lin3(p, 5, 0, 0, x0 + x1 + x2, 0, 0);
    assert(a + b + c == 5 * (x0 + x1 + x2));
}

/// The MDS gate holds between a state and its MDS product, and only there.
pub proof fn lemma_mds_gate(s: (nat, nat, nat), o: (nat, nat, nat))
    ensures
        mds_gate(s, o) <==> o == spec_mds(s),
{
    lemma_mds_row_combination(s.0, s.1, s.2, 3, 1, 1);
    lemma_mds_row_combination(s.0, s.1, s.2, 1, 3, 1);
    lemma_mds_row_combination(s.0, s.1, s.2, 1, 1, 3);
    assert(mds_row(s, 0) == (3 * s.0 + 1 * s.1 + 1 * s.2) % modulus());
    assert(mds_row(s, 1) == (1 * s.0 + 3 * s.1 + 1 * s.2) % modulus());
    assert(mds_row(s, 2) == (1 * s.0 + 1 * s.1 + 3 * s.2) % modulus());
}

/// Whatever intermediates make the S-box gate hold, its output is the
/// S-box of `in + rc`; and the S-box of `in + rc` satisfies it.
pub proof fn lemma_sbox_gate(s_in: nat, rc: nat, s_out: nat)
    ensures
        sbox_constrained(s_in, rc, s_out) <==> s_out == spec_sbox(fadd(s_in, rc)),
{
    let t0 = fadd(s_in, rc);
    let t1 = fmul(t0, t0);
    let t2 = fmul(t1, t1);
    if s_out == spec_sbox(t0) {
        assert(sbox_gate(s_in, rc, t0, t1, t2, s_out));
    }
}

/// The round gates hold exactly for the values of the Poseidon round.
pub proof fn lemma_round_gates(
    pre: (nat, nat, nat),
    c: (nat, nat, nat),
    full: bool,
    post: (nat, nat, nat),
    out: (nat, nat, nat),
)
    ensures
        round_gates(pre, c, full, post, out) <==> (post == spec_sbox_layer(spec_arc(pre, c), full)
            && out == spec_mds(post)),
        round_gates(pre, c, full, post, out) ==> out == spec_round(pre, c, full),
{
    reveal(round_gates);
    reveal(spec_round);
    lemma_sbox_gate(pre.0, c.0, post.0);
    lemma_sbox_gate(pre.1, c.1, post.1);
    lemma_sbox_gate(pre.2, c.2, post.2);
    lemma_mds_gate(post, out);
}

/// The chained round gates of the first `r` rounds fix their outcome.
proof fn lemma_gates_prefix(
    cs: Seq<(nat, nat, nat)>,
    pre: Seq<(nat, nat, nat)>,
    post: Seq<(nat, nat, nat)>,
    out: Seq<(nat, nat, nat)>,
    a: nat,
    b: nat,
    r: nat,
)
    requires
        1 <= r <= ROUNDS,
        cs.len() == ROUNDS,
        pre.len() == ROUNDS,
        post.len() == ROUNDS,
        out.len() == ROUNDS,
        pre[0] == (a, b, 0nat),
        forall|k: int| 0 < k < ROUNDS ==> #[trigger] pre[k] == out[k - 1],
        forall|k: int|
            0 <= k < ROUNDS ==> #[trigger] round_gates(pre[k], cs[k], spec_is_full(k as nat), post[k], out[k]),
    ensures
        out[r - 1] == spec_rounds((a, b, 0), cs, r),
    decreases r,
{
    let k = (r - 1) as int;
    assert(round_gates(pre[k], cs[k], spec_is_full(k as nat), post[k], out[k]));
    lemma_round_gates(pre[k], cs[k], spec_is_full(k as nat), post[k], out[k]);
    assert(out[k] == spec_round(pre[k], cs[k], spec_is_full(k as nat)));
    if r > 1 {
        lemma_gates_prefix(cs, pre, post, out, a, b, (r - 1) as nat);
        assert(pre[k] == out[k - 1]);
    }
    assert(pre[k] == spec_rounds((a, b, 0), cs, (r - 1) as nat));
    assert(spec_rounds((a, b, 0), cs, r) == spec_round(
        spec_rounds((a, b, 0), cs, (r - 1) as nat),
        cs[r - 1],
        spec_is_full((r - 1) as nat),
    ));
}

/// Soundness of the round gates: if the assigned states of every round
/// satisfy the round gates, each round starts where the previous one ended,
/// and the first round starts from `[a, b, 0]`, then the last round ends in
/// the Poseidon state, whose first element is the hash. The start state is
/// an assumption here: the chip copies `a` and `b` into the first row but
/// no gate forces its third element to be zero.
pub proof fn lemma_gates_determine_hash(
    cs: Seq<(nat, nat, nat)>,
    pre: Seq<(nat, nat, nat)>,
    post: Seq<(nat, nat, nat)>,
    out: Seq<(nat, nat, nat)>,
    a: nat,
    b: nat,
)
    requires
        cs.len() == ROUNDS,
        pre.len() == ROUNDS,
        post.len() == ROUNDS,
        out.len() == ROUNDS,
        pre[0] == (a, b, 0nat),
        forall|r: int| 0 < r < ROUNDS ==> #[trigger] pre[r] == out[r - 1],
        forall|r: int|
            0 <= r < ROUNDS ==> #[trigger] round_gates(pre[r], cs[r], spec_is_full(r as nat), post[r], out[r]),
    ensures
        out[ROUNDS - 1] == spec_rounds((a, b, 0), cs, ROUNDS as nat),
        out[ROUNDS - 1].0 == spec_poseidon(cs, a, b),
{
    reveal(spec_poseidon);
    lemma_gates_prefix(cs, pre, post, out, a, b, ROUNDS as nat);
}


// --- Witness of the on-circuit chip ---

/// The intermediates of one S-box row of the chip.
#[derive(Clone, Copy, Debug)]
pub struct SboxWitness {
    /// `in + rc`
    pub t0: Fe,
    /// `t0²`
    pub t1: Fe,
    /// `t1²`
    pub t2: Fe,
    /// `t2 · t0`, the S-box output
    pub out: Fe,
}

/// The S-box intermediates for input `input` and round constant `rc`.
pub fn sbox_witness(input: Fe, rc: Fe) -> (w: SboxWitness)
    ensures
        sbox_gate(input@, rc@, w.t0@, w.t1@, w.t2@, w.out@),
        w.out@ == spec_sbox(fadd(input@, rc@)),
{
    let t0 = input.add(rc);
    let t1 = t0.mul(t0);
    let t2 = t1.mul(t1);
    let out = t2.mul(t0);
    SboxWitness { t0, t1, t2, out }
}

/// The values one round of the chip assigns.
#[derive(Clone, Copy, Debug)]
pub struct RoundWitness {
    /// Whether all three elements pass an S-box.
    pub full: bool,
    /// The round constants.
    pub constants: [Fe; 3],
    /// The state entering the round.
    pub pre_arc: [Fe; 3],
    /// The state after round constants and S-boxes.
    pub post_sbox: [Fe; 3],
    /// The state after the MDS, leaving the round.
    pub out: [Fe; 3],
}

/// The per-round values of the chip hashing `(a, b)` with constants `cs`:
/// each round starts where the previous ended, from `[a, b, 0]`, uses its
/// constants, and satisfies the round gates.
pub open spec fn valid_trace(t: Seq<RoundWitness>, cs: Seq<(nat, nat, nat)>, a: nat, b: nat) -> bool {
    &&& t.len() == ROUNDS
    &&& cs.len() == ROUNDS
    &&& st(t[0].pre_arc) == (a, b, 0nat)
    &&& forall|r: int| 0 < r < ROUNDS ==> st(#[trigger] t[r].pre_arc) == st(t[r - 1].out)
    &&& forall|r: int|
        0 <= r < ROUNDS ==> {
            &&& (#[trigger] t[r]).full == spec_is_full(r as nat)
            &&& st(t[r].constants) == cs[r]
            &&& round_gates(st(t[r].pre_arc), cs[r], t[r].full, st(t[r].post_sbox), st(t[r].out))
        }
}

/// The witness that the chip assigns when hashing `(a, b)`: the state of
/// every round. `None` exactly when the round constants cannot be drawn.
/// The last round ends with the hash of `(a, b)` in its first element.
pub fn poseidon_trace(a: Fe, b: Fe) -> (r: Option<Vec<RoundWitness>>)
    ensures
        r is Some <==> spec_round_constants() is Some,
        r matches Some(t) ==> {
            &&& valid_trace(t@, spec_round_constants().unwrap(), a@, b@)
            &&& t@[ROUNDS - 1].out@[0]@ == spec_poseidon(spec_round_constants().unwrap(), a@, b@)
        },
{
    let constants = match round_constants() {
        Some(c) => c,
        None => {
            return None;
        },
    };
    let ghost cs = cvals(constants@);
    let mut trace: Vec<RoundWitness> = Vec::new();
    let mut state = [a, b, Fe::zero()];
    for round in 0..ROUNDS
        invariant
            constants@.len() == ROUNDS,
            cs == cvals(constants@),
            trace@.len() == round,
            st(state) == spec_rounds((a@, b@, 0), cs, round as nat),
            round == 0 ==> st(state) == (a@, b@, 0nat),
            round > 0 ==> st(state) == st(trace@[round - 1].out),
            st(trace@[0].pre_arc) == (a@, b@, 0nat) || round == 0,
            forall|r: int| 0 < r < round ==> st(#[trigger] trace@[r].pre_arc) == st(trace@[r - 1].out),
            forall|r: int|
                0 <= r < round ==> {
                    &&& (#[trigger] trace@[r]).full == spec_is_full(r as nat)
                    &&& st(trace@[r].constants) == cs[r]
                    &&& round_gates(st(trace@[r].pre_arc), cs[r], trace@[r].full, st(trace@[r].post_sbox), st(trace@[r].out))
                },
    {
        proof {
            reveal(spec_round);
        }
        let is_full = is_full_round(round);
        let pre_arc = state;
        let after_arc = add_round_constants(state, constants[round]);
        let post_sbox = sbox_layer(after_arc, is_full);
        state = mds_mul(post_sbox);
        proof {
            lemma_round_gates(st(pre_arc), cs[round as int], is_full, st(post_sbox), st(state));
        }
        trace.push(RoundWitness { full: is_full, constants: constants[round], pre_arc, post_sbox, out: state });
    }
    proof {
        reveal(spec_poseidon);
        assert(cs.len() == ROUNDS);
    }
    Some(trace)
}

} // verus!
