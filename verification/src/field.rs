//! Elements of the BN254 scalar field.
//!
//! A field element is held as its canonical little-endian encoding; its
//! mathematical value is the integer that encoding denotes. Arithmetic is
//! carried out by `halo2curves::bn256::Fr`.

use vstd::prelude::*;

verus! {

/// The order of the BN254 scalar field.
pub open spec fn modulus() -> nat {
    21888242871839275222246405745257275088548364400416034343698204186575808495617nat
}

/// The integer that a little-endian byte string denotes.
pub open spec fn le_nat(s: Seq<u8>) -> nat
    decreases s.len(),
{
    if s.len() == 0 {
        0
    } else {
        s[0] as nat + 256 * le_nat(s.drop_first())
    }
}

/// Field addition on values.
pub open spec fn fadd(x: nat, y: nat) -> nat {
    (x + y) % modulus()
}

/// Field multiplication on values.
pub open spec fn fmul(x: nat, y: nat) -> nat {
    (x * y) % modulus()
}

/// Field negation on values.
pub open spec fn fneg(x: nat) -> nat {
    ((modulus() - x % modulus()) as nat) % modulus()
}

/// Field subtraction on values.
pub open spec fn fsub(x: nat, y: nat) -> nat {
    fadd(x, fneg(y))
}

/// An element of the BN254 scalar field, kept in canonical form.
#[derive(Clone, Copy, PartialEq, Eq, Debug)]
pub struct Fe {
    bytes: [u8; 32],
}

impl Fe {
    /// The encoding is canonical: it denotes an integer below the modulus.
    #[verifier::type_invariant]
    pub closed spec fn canonical(self) -> bool {
        le_nat(self.bytes@) < modulus()
    }
}

impl View for Fe {
    type V = nat;

    closed spec fn view(&self) -> nat {
        le_nat(self.bytes@) % modulus()
    }
}

impl Fe {
    /// Every value lies below the modulus.
    pub proof fn lemma_lt_modulus(self)
        ensures
            self@ < modulus(),
    {
    }

    /// The canonical little-endian encoding of this element.
    pub fn to_bytes(&self) -> (r: [u8; 32])
        ensures
            le_nat(r@) == self@,
            le_nat(r@) < modulus(),
    {
        proof {
            use_type_invariant(self);
            vstd::arithmetic::div_mod::lemma_small_mod(le_nat(self.bytes@), modulus());
        }
        self.bytes
    }

    /// Decodes a canonical little-endian encoding: `Some` exactly when the
    /// encoded integer is below the modulus.
    pub fn from_bytes(bytes: &[u8; 32]) -> (r: Option<Fe>)
        ensures
            r is Some <==> le_nat(bytes@) < modulus(),
            r matches Some(f) ==> f@ == le_nat(bytes@),
    {
        fr_from_bytes(bytes)
    }

    /// The element with value `v`.
    pub fn from_u64(v: u64) -> (r: Fe)
        ensures
            r@ == v as nat,
    {
        fr_from_u64(v)
    }

    /// Field addition.
    pub fn add(self, other: Fe) -> (r: Fe)
        ensures
            r@ == fadd(self@, other@),
    {
        fr_add(self, other)
    }

    /// Field multiplication.
    pub fn mul(self, other: Fe) -> (r: Fe)
        ensures
            r@ == fmul(self@, other@),
    {
        fr_mul(self, other)
    }

    /// The additive identity.
    pub fn zero() -> (r: Fe)
        ensures
            r@ == 0,
    {
        Fe::from_u64(0)
    }

    /// The multiplicative identity.
    pub fn one() -> (r: Fe)
        ensures
            r@ == 1,
    {
        Fe::from_u64(1)
    }
}


/// `halo2curves::bn256::Fr::from_bytes`: decodes 32 little-endian bytes,
/// succeeding exactly when they encode an integer below the modulus, which
/// is then the element's value. The element is kept as `Fr::to_bytes`,
/// its canonical little-endian encoding.
#[verifier::external_body]
fn fr_from_bytes(bytes: &[u8; 32]) -> (r: Option<Fe>)
    ensures
        r is Some <==> le_nat(bytes@) < modulus(),
        r matches Some(f) ==> f@ == le_nat(bytes@),
{
    let fr: Option<halo2curves::bn256::Fr> = halo2curves::bn256::Fr::from_bytes(bytes).into();
    fr.map(|f| Fe { bytes: f.to_bytes() })
}

/// `From<u64> for halo2curves::bn256::Fr`: the element whose value is `v`
/// (every `u64` is below the modulus).
#[verifier::external_body]
fn fr_from_u64(v: u64) -> (r: Fe)
    ensures
        r@ == v as nat,
{
    Fe { bytes: halo2curves::bn256::Fr::from(v).to_bytes() }
}

/// `Add for halo2curves::bn256::Fr`: the sum of the values modulo the field
/// order.
#[verifier::external_body]
fn fr_add(a: Fe, b: Fe) -> (r: Fe)
    ensures
        r@ == fadd(a@, b@),
{
    let x = halo2curves::bn256::Fr::from_bytes(&a.bytes).unwrap();
    let y = halo2curves::bn256::Fr::from_bytes(&b.bytes).unwrap();
    Fe { bytes: (x + y).to_bytes() }
}

/// `Mul for halo2curves::bn256::Fr`: the product of the values modulo the
/// field order.
#[verifier::external_body]
fn fr_mul(a: Fe, b: Fe) -> (r: Fe)
    ensures
        r@ == fmul(a@, b@),
{
    let x = halo2curves::bn256::Fr::from_bytes(&a.bytes).unwrap();
    let y = halo2curves::bn256::Fr::from_bytes(&b.bytes).unwrap();
    Fe { bytes: (x * y).to_bytes() }
}

} // verus!
