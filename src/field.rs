//! Elements of the BLS12-381 base field, held as six little-endian 64-bit
//! limbs of their canonical integer representative.
use vstd::prelude::*;
use vstd::arithmetic::div_mod::*;
use ark_bls12_381::Fq;
use ark_ff::{BigInt, Field, PrimeField};
use ark_serialize::CanonicalSerialize;
use ark_std::rand::rngs::StdRng;
use ark_std::rand::SeedableRng;
use ark_std::UniformRand;

verus! {

/// 2^64, the weight of one limb.
pub open spec fn limb_base() -> int {
    0x1_0000_0000_0000_0000
}

/// The integer whose little-endian limbs are `l0 .. l5`.
pub open spec fn limbs_value(l0: u64, l1: u64, l2: u64, l3: u64, l4: u64, l5: u64) -> int {
    l0 + limb_base() * (l1 + limb_base() * (l2 + limb_base() * (l3 + limb_base() * (l4
        + limb_base() * l5))))
}

/// The characteristic of the BLS12-381 base field.
pub open spec fn modulus() -> int {
    limbs_value(
        0xb9feffffffffaaab,
        0x1eabfffeb153ffff,
        0x6730d2a0f6b0f624,
        0x64774b84f38512bf,
        0x4b1ba7b6434bacd7,
        0x1a0111ea397fe69a,
    )
}

/// The canonical uncompressed encoding of a field element with integer
/// value `v`: its 48 little-endian bytes.
pub open spec fn le_bytes(v: int) -> Seq<u8> {
    Seq::new(48, |k: int| ((v / vstd::arithmetic::power::pow(256, k as nat)) % 256) as u8)
}

/// A field element: the canonical representative as six limbs.
#[derive(Clone, Copy, Debug, PartialEq, Eq, Structural)]
pub struct Fe {
    pub l0: u64,
    pub l1: u64,
    pub l2: u64,
    pub l3: u64,
    pub l4: u64,
    pub l5: u64,
}

impl Fe {
    /// The integer this element stands for.
    pub open spec fn val(&self) -> int {
        limbs_value(self.l0, self.l1, self.l2, self.l3, self.l4, self.l5)
    }

    /// A canonical representative lies below the modulus.
    pub open spec fn wf(&self) -> bool {
        self.val() < modulus()
    }

    /// The additive identity.
    pub fn zero() -> (r: Fe)
        ensures
            r.wf(),
            r.val() == 0,
    {
        proof {
            lemma_modulus_large();
        }
        Fe { l0: 0, l1: 0, l2: 0, l3: 0, l4: 0, l5: 0 }
    }

    /// The multiplicative identity.
    pub fn one() -> (r: Fe)
        ensures
            r.wf(),
            r.val() == 1,
    {
        proof {
            lemma_modulus_large();
        }
        Fe { l0: 1, l1: 0, l2: 0, l3: 0, l4: 0, l5: 0 }
    }

    /// The field element `x`; every `u64` lies below the modulus.
    pub fn from_u64(x: u64) -> (r: Fe)
        ensures
            r.wf(),
            r.val() == x as int,
    {
        proof {
            lemma_modulus_large();
        }
        Fe { l0: x, l1: 0, l2: 0, l3: 0, l4: 0, l5: 0 }
    }

    /// Whether this is the additive identity.
    pub fn is_zero(&self) -> (r: bool)
        ensures
            r == (self.val() == 0),
    {
        proof {
            let z = Fe { l0: 0, l1: 0, l2: 0, l3: 0, l4: 0, l5: 0 };
            if self.val() == 0 {
                lemma_val_injective(*self, z);
            }
        }
        self.l0 == 0 && self.l1 == 0 && self.l2 == 0 && self.l3 == 0 && self.l4 == 0 && self.l5
            == 0
    }

    /// Equality of field elements, which is equality of their values.
    pub fn same(&self, o: &Fe) -> (r: bool)
        ensures
            r == (self.val() == o.val()),
    {
        proof {
            if self.val() == o.val() {
                lemma_val_injective(*self, *o);
            }
        }
        *self == *o
    }
}

/// The modulus is larger than every `u64`.
pub proof fn lemma_modulus_large()
    ensures
        modulus() > limb_base(),
        limb_base() > 0,
{
    assert(modulus() > limb_base()) by (nonlinear_arith);
}

proof fn lemma_limb_split(x: int, l: u64, rest: int)
    requires
        x == l + limb_base() * rest,
    ensures
        l == x % limb_base(),
        rest == x / limb_base(),
{
    lemma_fundamental_div_mod_converse(x, limb_base(), rest, l as int);
}

/// Two limb vectors with the same value are the same vector.
pub proof fn lemma_val_injective(a: Fe, b: Fe)
    requires
        a.val() == b.val(),
    ensures
        a == b,
{
    let b64 = limb_base();
    let a4 = a.l4 + b64 * a.l5;
    let a3 = a.l3 + b64 * a4;
    let a2 = a.l2 + b64 * a3;
    let a1 = a.l1 + b64 * a2;
    let b4 = b.l4 + b64 * b.l5;
    let b3 = b.l3 + b64 * b4;
    let b2 = b.l2 + b64 * b3;
    let b1 = b.l1 + b64 * b2;
    lemma_limb_split(a.val(), a.l0, a1);
    lemma_limb_split(b.val(), b.l0, b1);
    lemma_limb_split(a1, a.l1, a2);
    lemma_limb_split(b1, b.l1, b2);
    lemma_limb_split(a2, a.l2, a3);
    lemma_limb_split(b2, b.l2, b3);
    lemma_limb_split(a3, a.l3, a4);
    lemma_limb_split(b3, b.l3, b4);
    lemma_limb_split(a4, a.l4, a.l5 as int);
    lemma_limb_split(b4, b.l4, b.l5 as int);
}

/// Relies on ark-ff's `Add` for `Fp`: addition modulo the characteristic.
#[verifier::external_body]
pub(crate) fn fe_add(a: &Fe, b: &Fe) -> (r: Fe)
    requires
        a.wf(),
        b.wf(),
    ensures
        r.wf(),
        r.val() == (a.val() + b.val()) % modulus(),
{
    let x = Fq::from_bigint(BigInt::new([a.l0, a.l1, a.l2, a.l3, a.l4, a.l5])).unwrap();
    let y = Fq::from_bigint(BigInt::new([b.l0, b.l1, b.l2, b.l3, b.l4, b.l5])).unwrap();
    let l = (x + y).into_bigint().0;
    Fe { l0: l[0], l1: l[1], l2: l[2], l3: l[3], l4: l[4], l5: l[5] }
}

/// Relies on ark-ff's `Sub` for `Fp`: subtraction modulo the characteristic.
#[verifier::external_body]
pub(crate) fn fe_sub(a: &Fe, b: &Fe) -> (r: Fe)
    requires
        a.wf(),
        b.wf(),
    ensures
        r.wf(),
        r.val() == (a.val() - b.val()) % modulus(),
{
    let x = Fq::from_bigint(BigInt::new([a.l0, a.l1, a.l2, a.l3, a.l4, a.l5])).unwrap();
    let y = Fq::from_bigint(BigInt::new([b.l0, b.l1, b.l2, b.l3, b.l4, b.l5])).unwrap();
    let l = (x - y).into_bigint().0;
    Fe { l0: l[0], l1: l[1], l2: l[2], l3: l[3], l4: l[4], l5: l[5] }
}

/// Relies on ark-ff's `Mul` for `Fp`: multiplication modulo the characteristic.
#[verifier::external_body]
pub(crate) fn fe_mul(a: &Fe, b: &Fe) -> (r: Fe)
    requires
        a.wf(),
        b.wf(),
    ensures
        r.wf(),
        r.val() == (a.val() * b.val()) % modulus(),
{
    let x = Fq::from_bigint(BigInt::new([a.l0, a.l1, a.l2, a.l3, a.l4, a.l5])).unwrap();
    let y = Fq::from_bigint(BigInt::new([b.l0, b.l1, b.l2, b.l3, b.l4, b.l5])).unwrap();
    let l = (x * y).into_bigint().0;
    Fe { l0: l[0], l1: l[1], l2: l[2], l3: l[3], l4: l[4], l5: l[5] }
}

/// Relies on ark-ff's `Field::pow`: repeated multiplication modulo the characteristic.
#[verifier::external_body]
pub(crate) fn fe_pow(a: &Fe, e: u64) -> (r: Fe)
    requires
        a.wf(),
    ensures
        r.wf(),
        r.val() == vstd::arithmetic::power::pow(a.val(), e as nat) % modulus(),
{
    let x = Fq::from_bigint(BigInt::new([a.l0, a.l1, a.l2, a.l3, a.l4, a.l5])).unwrap();
    let l = x.pow([e]).into_bigint().0;
    Fe { l0: l[0], l1: l[1], l2: l[2], l3: l[3], l4: l[4], l5: l[5] }
}

/// Relies on ark-ff's `Field::inverse`: `None` exactly for zero, else the
/// multiplicative inverse modulo the (prime) characteristic.
#[verifier::external_body]
pub(crate) fn fe_inverse(a: &Fe) -> (r: Option<Fe>)
    requires
        a.wf(),
    ensures
        r.is_none() == (a.val() == 0),
        r matches Some(b) ==> b.wf() && (a.val() * b.val()) % modulus() == 1,
{
    let x = Fq::from_bigint(BigInt::new([a.l0, a.l1, a.l2, a.l3, a.l4, a.l5])).unwrap();
    match x.inverse() {
        Some(y) => {
            let l = y.into_bigint().0;
            Some(Fe { l0: l[0], l1: l[1], l2: l[2], l3: l[3], l4: l[4], l5: l[5] })
        },
        None => None,
    }
}

/// Relies on ark-serialize's `serialize_uncompressed` for `Fp`: the
/// canonical integer written as 48 little-endian bytes.
#[verifier::external_body]
pub(crate) fn fe_to_bytes(a: &Fe) -> (r: Vec<u8>)
    requires
        a.wf(),
    ensures
        r@ == le_bytes(a.val()),
{
    let x = Fq::from_bigint(BigInt::new([a.l0, a.l1, a.l2, a.l3, a.l4, a.l5])).unwrap();
    let mut bytes = Vec::new();
    x.serialize_uncompressed(&mut bytes).unwrap();
    bytes
}

/// Relies on ark-std's `UniformRand` for `Fp`: a canonical element drawn from `rng`.
#[verifier::external_body]
pub(crate) fn fe_rand(rng: &mut StdRng) -> (r: Fe)
    ensures
        r.wf(),
{
    let l = Fq::rand(rng).into_bigint().0;
    Fe { l0: l[0], l1: l[1], l2: l[2], l3: l[3], l4: l[4], l5: l[5] }
}

/// The integer values of the first `count` field elements that ark-std's
/// `UniformRand` draws from rand's `StdRng` seeded with `seed`.
pub uninterp spec fn seeded_draws(seed: u64, count: nat) -> Seq<int>;

/// Relies on rand's `SeedableRng::seed_from_u64` for `StdRng`, whose stream
/// depends on the seed alone, and on ark-std's `UniformRand` for `Fp`:
/// `count` canonical elements drawn in turn from that stream.
#[verifier::external_body]
pub(crate) fn seeded_field_elements(seed: u64, count: usize) -> (r: Vec<Fe>)
    ensures
        r@.len() == count,
        forall|k: int| 0 <= k < count ==> (#[trigger] r@[k]).wf() && r@[k].val() == seeded_draws(
            seed,
            count as nat,
        )[k],
{
    let mut rng = StdRng::seed_from_u64(seed);
    (0..count).map(|_| {
        let l = Fq::rand(&mut rng).into_bigint().0;
        Fe { l0: l[0], l1: l[1], l2: l[2], l3: l[3], l4: l[4], l5: l[5] }
    }).collect()
}

#[verifier::external_type_specification]
#[verifier::external_body]
pub struct ExStdRng(StdRng);

} // verus!

