use vstd::prelude::*;

verus! {

/// The prime modulus of the scalar field over which circuit coefficients live
/// (the BN254 scalar field).
pub open spec fn field_modulus() -> nat {
    21888242871839275222246405745257275088548364400416034343698204186575808495617nat
}

/// The integer a little-endian byte string stands for.
pub open spec fn le_bytes_val(s: Seq<u8>) -> nat
    decreases s.len(),
{
    if s.len() == 0 {
        0
    } else {
        s[0] as nat + 256 * le_bytes_val(s.drop_first())
    }
}

/// A coefficient of the field, carried as a little-endian byte encoding of an
/// integer; the value it stands for is that integer reduced by the modulus.
#[derive(Debug)]
pub struct Fe {
    pub bytes: Vec<u8>,
}

impl Fe {
    /// The field value this encoding stands for.
    pub open spec fn value(self) -> nat {
        le_bytes_val(self.bytes@) % field_modulus()
    }

    /// Whether the encoding is the canonical 32-byte form of its value.
    pub open spec fn canonical(self) -> bool {
        self.bytes@.len() == 32 && le_bytes_val(self.bytes@) < field_modulus()
    }

    /// The zero element, in canonical form.
    pub fn zero() -> (r: Fe)
        ensures
            r.value() == 0,
            r.canonical(),
    {
        let mut bytes: Vec<u8> = Vec::new();
        let mut i: usize = 0;
        while i < 32
            invariant
                i <= 32,
                bytes@.len() == i,
                le_bytes_val(bytes@) == 0,
            decreases 32 - i,
        {
            proof {
                lemma_le_bytes_val_push(bytes@, 0);
            }
            bytes.push(0u8);
            i = i + 1;
        }
        Fe { bytes }
    }

    /// A copy of this coefficient.
    pub fn dup(&self) -> (r: Fe)
        ensures
            r.bytes@ == self.bytes@,
    {
        let mut bytes: Vec<u8> = Vec::new();
        let mut i: usize = 0;
        while i < self.bytes.len()
            invariant
                i <= self.bytes@.len(),
                bytes@ == self.bytes@.take(i as int),
            decreases self.bytes@.len() - i,
        {
            bytes.push(self.bytes[i]);
            proof {
                assert(bytes@ =~= self.bytes@.take(i + 1));
            }
            i = i + 1;
        }
        proof {
            assert(bytes@ =~= self.bytes@);
        }
        Fe { bytes }
    }
}

/// Appending a byte multiplies nothing away: the value grows by the byte times
/// the weight of its position.
pub proof fn lemma_le_bytes_val_push(s: Seq<u8>, b: u8)
    ensures
        le_bytes_val(s.push(b)) == le_bytes_val(s) + (b as nat) * pow256(s.len()),
    decreases s.len(),
{
    if s.len() == 0 {
        assert(s.push(b).drop_first() =~= Seq::<u8>::empty());
        assert(le_bytes_val(s.push(b)) == b as nat + 256 * le_bytes_val(Seq::<u8>::empty()));
    } else {
        let t = s.drop_first();
        let m = (s.len() - 1) as nat;
        assert(s.push(b).drop_first() =~= t.push(b));
        lemma_le_bytes_val_push(t, b);
        assert(le_bytes_val(s.push(b)) == s.push(b)[0] as nat + 256 * le_bytes_val(t.push(b)));
        assert(s.push(b)[0] == s[0]);
        assert(le_bytes_val(s) == s[0] as nat + 256 * le_bytes_val(t));
        assert(256 * (le_bytes_val(t) + (b as nat) * pow256(m)) == 256 * le_bytes_val(t) + 256 * (
        (b as nat) * pow256(m))) by (nonlinear_arith);
        assert(pow256(s.len()) == 256 * pow256(m));
        assert(256 * ((b as nat) * pow256(m)) == (b as nat) * (256 * pow256(m)))
            by (nonlinear_arith);
    }
}

/// Powers of 256, the weight of each byte position.
pub open spec fn pow256(n: nat) -> nat
    decreases n,
{
    if n == 0 {
        1
    } else {
        256 * pow256((n - 1) as nat)
    }
}

/// Adds two coefficients in the field.
///
/// Relies on ark_ff::PrimeField::from_le_bytes_mod_order (reads little-endian
/// bytes and reduces them by the field modulus), on addition of
/// ark_bn254::Fr (integers modulo that same prime), and on
/// ark_serialize::CanonicalSerialize::serialize_compressed for Fr (writes the
/// canonical value as exactly 32 little-endian bytes).
#[verifier::external_body]
pub fn fe_add(a: &Fe, b: &Fe) -> (r: Fe)
    ensures
        r.value() == (a.value() + b.value()) % field_modulus(),
        r.canonical(),
{
    let x = <ark_bn254::Fr as ark_ff::PrimeField>::from_le_bytes_mod_order(&a.bytes)
        + <ark_bn254::Fr as ark_ff::PrimeField>::from_le_bytes_mod_order(&b.bytes);
    let mut out: Vec<u8> = Vec::new();
    ark_serialize::CanonicalSerialize::serialize_compressed(&x, &mut out).expect("field encoding");
    Fe { bytes: out }
}

/// Multiplies two coefficients in the field.
///
/// Relies on ark_ff::PrimeField::from_le_bytes_mod_order (reads little-endian
/// bytes and reduces them by the field modulus), on multiplication of
/// ark_bn254::Fr (integers modulo that same prime), and on
/// ark_serialize::CanonicalSerialize::serialize_compressed for Fr (writes the
/// canonical value as exactly 32 little-endian bytes).
#[verifier::external_body]
pub fn fe_mul(a: &Fe, b: &Fe) -> (r: Fe)
    ensures
        r.value() == (a.value() * b.value()) % field_modulus(),
        r.canonical(),
{
    let x = <ark_bn254::Fr as ark_ff::PrimeField>::from_le_bytes_mod_order(&a.bytes)
        * <ark_bn254::Fr as ark_ff::PrimeField>::from_le_bytes_mod_order(&b.bytes);
    let mut out: Vec<u8> = Vec::new();
    ark_serialize::CanonicalSerialize::serialize_compressed(&x, &mut out).expect("field encoding");
    Fe { bytes: out }
}

/// Negates a coefficient in the field.
///
/// Relies on ark_ff::PrimeField::from_le_bytes_mod_order (reads little-endian
/// bytes and reduces them by the field modulus), on negation of
/// ark_bn254::Fr (integers modulo that same prime), and on
/// ark_serialize::CanonicalSerialize::serialize_compressed for Fr (writes the
/// canonical value as exactly 32 little-endian bytes).
#[verifier::external_body]
pub fn fe_neg(a: &Fe) -> (r: Fe)
    ensures
        r.value() == neg_mod(a.value()),
        r.canonical(),
{
    let x = -<ark_bn254::Fr as ark_ff::PrimeField>::from_le_bytes_mod_order(&a.bytes);
    let mut out: Vec<u8> = Vec::new();
    ark_serialize::CanonicalSerialize::serialize_compressed(&x, &mut out).expect("field encoding");
    Fe { bytes: out }
}

/// The additive inverse of a value, reduced by the modulus.
pub open spec fn neg_mod(x: nat) -> nat {
    ((field_modulus() - x % field_modulus()) % field_modulus() as int) as nat
}

} // verus!
