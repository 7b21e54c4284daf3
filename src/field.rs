//! Elements of the scalar field of BN256, with the arithmetic delegated to
//! `halo2curves`.
use halo2curves::bn256::Fr;
use vstd::prelude::*;

verus! {

/// The order of the field.
pub open spec fn modulus() -> int {
    let w = 0x1_0000_0000_0000_0000int;
    ((0x30644e72e131a029int * w + 0xb85045b68181585dint) * w + 0x2833e84879b97091int) * w
        + 0x43e1f593f0000001int
}

/// The integer whose little-endian base-256 digits are `s`.
pub open spec fn le_value(s: Seq<u8>) -> int
    decreases s.len(),
{
    if s.len() == 0 {
        0
    } else {
        s[0] as int + 256 * le_value(s.drop_first())
    }
}

pub open spec fn add_mod(a: int, b: int) -> int {
    (a + b) % modulus()
}

pub open spec fn mul_mod(a: int, b: int) -> int {
    (a * b) % modulus()
}

pub open spec fn neg_mod(a: int) -> int {
    (modulus() - a) % modulus()
}

/// The product of two values that may be unknown.
pub open spec fn mul_opt(x: Option<int>, y: Option<int>) -> Option<int> {
    match (x, y) {
        (Some(u), Some(v)) => Some(mul_mod(u, v)),
        _ => None,
    }
}

/// The sum of two values that may be unknown.
pub open spec fn add_opt(x: Option<int>, y: Option<int>) -> Option<int> {
    match (x, y) {
        (Some(u), Some(v)) => Some(add_mod(u, v)),
        _ => None,
    }
}

/// Relies on `Fr::from_bytes`, `Fr + Fr` and `Fr::to_bytes`: the canonical
/// little-endian encoding of the sum modulo the field order.
#[verifier::external_body]
fn fr_add(a: &[u8; 32], b: &[u8; 32]) -> (r: [u8; 32])
    requires
        le_value(a@) < modulus(),
        le_value(b@) < modulus(),
    ensures
        le_value(r@) == add_mod(le_value(a@), le_value(b@)),
{
    (Fr::from_bytes(a).unwrap() + Fr::from_bytes(b).unwrap()).to_bytes()
}

/// Relies on `Fr::from_bytes`, `Fr * Fr` and `Fr::to_bytes`: the canonical
/// little-endian encoding of the product modulo the field order.
#[verifier::external_body]
fn fr_mul(a: &[u8; 32], b: &[u8; 32]) -> (r: [u8; 32])
    requires
        le_value(a@) < modulus(),
        le_value(b@) < modulus(),
    ensures
        le_value(r@) == mul_mod(le_value(a@), le_value(b@)),
{
    (Fr::from_bytes(a).unwrap() * Fr::from_bytes(b).unwrap()).to_bytes()
}

/// Relies on `Fr::from_bytes`, `-Fr` and `Fr::to_bytes`: the canonical
/// little-endian encoding of the additive inverse.
#[verifier::external_body]
fn fr_neg(a: &[u8; 32]) -> (r: [u8; 32])
    requires
        le_value(a@) < modulus(),
    ensures
        le_value(r@) == neg_mod(le_value(a@)),
{
    (-Fr::from_bytes(a).unwrap()).to_bytes()
}

/// Relies on `Fr::from(u64)` and `Fr::to_bytes`: the field element with the
/// integer's value, which is below the field order.
#[verifier::external_body]
fn fr_from_u64(v: u64) -> (r: [u8; 32])
    ensures
        le_value(r@) == v as int,
{
    Fr::from(v).to_bytes()
}

proof fn lemma_le_value_nonneg(s: Seq<u8>)
    ensures
        le_value(s) >= 0,
    decreases s.len(),
{
    if s.len() > 0 {
        lemma_le_value_nonneg(s.drop_first());
    }
}

proof fn lemma_le_value_injective(s: Seq<u8>, t: Seq<u8>)
    requires
        s.len() == t.len(),
        le_value(s) == le_value(t),
    ensures
        s == t,
    decreases s.len(),
{
    if s.len() > 0 {
        let rs = le_value(s.drop_first());
        let rt = le_value(t.drop_first());
        lemma_le_value_nonneg(s.drop_first());
        lemma_le_value_nonneg(t.drop_first());
        let a = s[0] as int;
        let b = t[0] as int;
        assert(a + 256 * rs == b + 256 * rt);
        assert(a == b && rs == rt) by (nonlinear_arith)
            requires
                a + 256 * rs == b + 256 * rt,
                0 <= a < 256,
                0 <= b < 256,
                rs >= 0,
                rt >= 0,
        ;
        lemma_le_value_injective(s.drop_first(), t.drop_first());
        assert(s =~= t.drop_first().insert(0, t[0]));
        assert(t =~= t.drop_first().insert(0, t[0]));
    }
}

/// A field element, held as its canonical little-endian encoding.
#[derive(Clone, Copy, Debug)]
pub struct Fe {
    bytes: [u8; 32],
}

impl Fe {
    #[verifier::type_invariant]
    closed spec fn canonical(self) -> bool {
        le_value(self.bytes@) < modulus()
    }

    /// The element as an integer in `[0, modulus())`.
    pub closed spec fn val(self) -> int {
        le_value(self.bytes@)
    }

    pub fn from_u64(v: u64) -> (r: Fe)
        ensures
            r.val() == v as int,
    {
        let bytes = fr_from_u64(v);
        assert(v as int <= 0xffff_ffff_ffff_ffff);
        Fe { bytes }
    }

    pub fn zero() -> (r: Fe)
        ensures
            r.val() == 0,
    {
        Fe::from_u64(0)
    }

    pub fn one() -> (r: Fe)
        ensures
            r.val() == 1,
    {
        Fe::from_u64(1)
    }

    pub fn add(&self, o: &Fe) -> (r: Fe)
        ensures
            r.val() == add_mod(self.val(), o.val()),
    {
        proof {
            use_type_invariant(self);
            use_type_invariant(o);
        }
        let bytes = fr_add(&self.bytes, &o.bytes);
        Fe { bytes }
    }

    pub fn mul(&self, o: &Fe) -> (r: Fe)
        ensures
            r.val() == mul_mod(self.val(), o.val()),
    {
        proof {
            use_type_invariant(self);
            use_type_invariant(o);
        }
        let bytes = fr_mul(&self.bytes, &o.bytes);
        Fe { bytes }
    }

    pub fn neg(&self) -> (r: Fe)
        ensures
            r.val() == neg_mod(self.val()),
    {
        proof {
            use_type_invariant(self);
        }
        let bytes = fr_neg(&self.bytes);
        Fe { bytes }
    }

    /// `self - o`.
    pub fn sub(&self, o: &Fe) -> (r: Fe)
        ensures
            r.val() == add_mod(self.val(), neg_mod(o.val())),
    {
        let n = o.neg();
        self.add(&n)
    }

    pub fn equals(&self, o: &Fe) -> (r: bool)
        ensures
            r == (self.val() == o.val()),
    {
        let mut i: usize = 0;
        while i < 32
            invariant
                i <= 32,
                forall|j: int| 0 <= j < i ==> self.bytes@[j] == o.bytes@[j],
            decreases 32 - i,
        {
            if self.bytes[i] != o.bytes[i] {
                proof {
                    if self.val() == o.val() {
                        lemma_le_value_injective(self.bytes@, o.bytes@);
                    }
                }
                return false;
            }
            i = i + 1;
        }
        proof {
            assert(self.bytes@ =~= o.bytes@);
        }
        true
    }

    pub fn is_zero(&self) -> (r: bool)
        ensures
            r == (self.val() == 0),
    {
        let z = Fe::zero();
        self.equals(&z)
    }

    /// The canonical little-endian encoding.
    pub fn to_bytes(&self) -> (r: [u8; 32])
        ensures
            le_value(r@) == self.val(),
    {
        self.bytes
    }
}

} // verus!
