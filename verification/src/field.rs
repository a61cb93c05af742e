//! Elements of the Pallas base field and their arithmetic.
//!
//! A [`FieldElement`] stores the canonical 32-byte little-endian encoding of a
//! residue modulo [`modulus`]. Its view is that residue as a natural number, and
//! every contract in this crate speaks of field elements through that view and
//! the spec functions [`fadd`], [`fsub`], [`fmul`] and [`fpow`].
//!
//! The arithmetic itself is done by `pasta_curves`. The private functions at
//! the end of this file call it; their contracts are believed, not proved. A
//! field element always holds a canonical encoding, so the decoding in those
//! functions cannot fail.
use ff::PrimeField;
use pasta_curves::arithmetic::FieldExt;
use vstd::prelude::*;
use vstd::std_specs::cmp::PartialEqSpecImpl;

verus! {

/// The order of the field: the Pallas base-field prime.
///
/// Proofs that need the number itself reveal it; the others go by
/// [`lemma_modulus_bounds`].
#[verifier::opaque]
pub open spec fn modulus() -> nat {
    0x40000000000000000000000000000000224698fc094cf91b992d30ed00000001nat
}

/// The canonical value of the generator of the subgroup of order `2^32`.
pub open spec fn root_of_unity_value() -> nat {
    0x2bce74deac30ebda362120830561f81aea322bf2b7bb7584bdad6fabd87ea32fnat
}

/// The two-adicity of the field: `2^32` divides `modulus() - 1`.
pub const TWO_ADICITY: u32 = 32;

/// The number that a byte string denotes, least significant byte first.
pub open spec fn le_nat(bytes: Seq<u8>) -> nat
    decreases bytes.len(),
{
    if bytes.len() == 0 {
        0
    } else {
        bytes[0] as nat + 256 * le_nat(bytes.drop_first())
    }
}

/// The `len` least significant bytes of a number, least significant first.
pub open spec fn le_bytes(v: nat, len: nat) -> Seq<u8>
    decreases len,
{
    if len == 0 {
        Seq::empty()
    } else {
        seq![(v % 256) as u8] + le_bytes(v / 256, (len - 1) as nat)
    }
}

/// Sum in the field.
pub open spec fn fadd(a: nat, b: nat) -> nat {
    (a + b) % modulus()
}

/// Difference in the field.
pub open spec fn fsub(a: nat, b: nat) -> nat {
    ((a as int - b as int) % (modulus() as int)) as nat
}

/// Product in the field.
pub open spec fn fmul(a: nat, b: nat) -> nat {
    (a * b) % modulus()
}

/// Additive inverse in the field.
pub open spec fn fneg(a: nat) -> nat {
    fsub(0, a)
}

/// `base` raised to `exp` in the field.
pub open spec fn fpow(base: nat, exp: nat) -> nat
    decreases exp,
{
    if exp == 0 {
        1
    } else {
        fmul(base, fpow(base, (exp - 1) as nat))
    }
}

/// Whether `r` is the multiplicative inverse of `a` in the field.
pub open spec fn is_inverse(a: nat, r: nat) -> bool {
    r < modulus() && fmul(a, r) == 1
}

/// The multiplicative inverse of `a` in the field, where it has one.
pub open spec fn finv(a: nat) -> nat {
    choose|r: nat| is_inverse(a, r)
}

/// The views of a sequence of field elements.
pub open spec fn values(s: Seq<FieldElement>) -> Seq<nat> {
    Seq::new(s.len(), |i: int| s[i]@)
}

/// An element of the Pallas base field, held as its canonical encoding.
#[derive(Clone, Copy, Debug)]
pub struct FieldElement {
    repr: [u8; 32],
}

impl View for FieldElement {
    type V = nat;

    closed spec fn view(&self) -> nat {
        le_nat(self.repr@)
    }
}

impl PartialEq for FieldElement {
    fn eq(&self, other: &FieldElement) -> (r: bool) {
        let mut i: usize = 0;
        while i < 32
            invariant
                i <= 32,
                self.repr@.subrange(0, i as int) == other.repr@.subrange(0, i as int),
            decreases 32 - i,
        {
            if self.repr[i] != other.repr[i] {
                proof {
                    lemma_le_nat_injective(self.repr@, other.repr@);
                }
                return false;
            }
            i += 1;
            assert(self.repr@.subrange(0, i as int) == self.repr@.subrange(0, i - 1).push(
                self.repr@[i - 1],
            ));
            assert(other.repr@.subrange(0, i as int) == other.repr@.subrange(0, i - 1).push(
                other.repr@[i - 1],
            ));
        }
        assert(self.repr@ == self.repr@.subrange(0, 32));
        assert(other.repr@ == other.repr@.subrange(0, 32));
        true
    }
}

impl Eq for FieldElement {

}

impl PartialEqSpecImpl for FieldElement {
    open spec fn obeys_eq_spec() -> bool {
        true
    }

    open spec fn eq_spec(&self, other: &FieldElement) -> bool {
        self@ == other@
    }
}

impl FieldElement {
    /// Every field element holds a canonical encoding, that of a number below
    /// the modulus.
    #[verifier::type_invariant]
    pub closed spec fn canonical(self) -> bool {
        le_nat(self.repr@) < modulus()
    }

    /// A canonical element's view is below the modulus.
    pub proof fn lemma_canonical(self)
        requires
            self.canonical(),
        ensures
            self@ < modulus(),
    {
    }

    /// Elements with the same view are the same element.
    pub proof fn lemma_view_injective(self, other: FieldElement)
        requires
            self@ == other@,
        ensures
            self == other,
    {
        lemma_le_nat_injective(self.repr@, other.repr@);
        assert(self.repr@ =~= other.repr@);
        assert(self.repr =~= other.repr);
    }

    /// The element `v mod p`.
    pub fn from_u64(v: u64) -> (r: FieldElement)
        ensures
            r@ == v,
    {
        fp_from_u64(v)
    }

    /// The additive identity.
    pub fn zero() -> (r: FieldElement)
        ensures
            r@ == 0,
    {
        fp_from_u64(0)
    }

    /// The multiplicative identity.
    pub fn one() -> (r: FieldElement)
        ensures
            r@ == 1,
    {
        fp_from_u64(1)
    }

    /// The element with the given encoding, if the encoding is canonical.
    pub fn from_repr(bytes: [u8; 32]) -> (r: Option<FieldElement>)
        ensures
            r is Some <==> le_nat(bytes@) < modulus(),
            r is Some ==> r->0@ == le_nat(bytes@),
    {
        fp_from_repr(&bytes)
    }

    /// The canonical 32-byte little-endian encoding.
    pub fn to_repr(&self) -> (r: [u8; 32])
        ensures
            r@ == le_bytes(self@, 32),
            le_nat(r@) == self@,
            self@ < modulus(),
    {
        proof {
            use_type_invariant(self);
            lemma_le_bytes_of_le_nat(self.repr@);
        }
        self.repr
    }

    /// The sum of two elements.
    pub fn add(&self, rhs: &FieldElement) -> (r: FieldElement)
        ensures
            r@ == fadd(self@, rhs@),
    {
        fp_add(self, rhs)
    }

    /// The difference of two elements.
    pub fn sub(&self, rhs: &FieldElement) -> (r: FieldElement)
        ensures
            r@ == fsub(self@, rhs@),
    {
        fp_sub(self, rhs)
    }

    /// The product of two elements.
    pub fn mul(&self, rhs: &FieldElement) -> (r: FieldElement)
        ensures
            r@ == fmul(self@, rhs@),
    {
        fp_mul(self, rhs)
    }

    /// The square of an element.
    pub fn square(&self) -> (r: FieldElement)
        ensures
            r@ == fmul(self@, self@),
    {
        fp_square(self)
    }

    /// The multiplicative inverse, which every element but zero has.
    pub fn invert(&self) -> (r: Option<FieldElement>)
        ensures
            r is Some <==> self@ != 0,
            r is Some ==> is_inverse(self@, r->0@),
    {
        let r = fp_invert(self);
        proof {
            if let Some(e) = r {
                use_type_invariant(&e);
            }
        }
        r
    }

    /// The element raised to the power `exp`.
    pub fn pow(&self, exp: u64) -> (r: FieldElement)
        ensures
            r@ == fpow(self@, exp as nat),
    {
        fp_pow(self, exp)
    }

    /// The fixed generator of the multiplicative subgroup of order `2^32`.
    pub fn root_of_unity() -> (r: FieldElement)
        ensures
            r@ == root_of_unity_value(),
    {
        fp_root_of_unity()
    }

    /// The element that 64 bytes denote, read least significant byte first and
    /// reduced modulo the field order.
    pub fn from_bytes_wide(bytes: &[u8; 64]) -> (r: FieldElement)
        ensures
            r@ == le_nat(bytes@) % modulus(),
    {
        fp_from_bytes_wide(bytes)
    }
}

/// The field order exceeds every `u64`, and two in particular.
pub proof fn lemma_modulus_bounds()
    ensures
        modulus() > 0xffff_ffff_ffff_ffff,
{
    reveal(modulus);
}

/// Sequences of field elements with the same views are the same sequence:
/// they hold the same encodings.
pub proof fn lemma_values_injective(a: Seq<FieldElement>, b: Seq<FieldElement>)
    requires
        values(a) == values(b),
    ensures
        a == b,
{
    assert(a.len() == values(a).len());
    assert(b.len() == values(b).len());
    assert forall|i: int| 0 <= i < a.len() implies a[i] == b[i] by {
        assert(values(a)[i] == a[i]@);
        assert(values(b)[i] == b[i]@);
        a[i].lemma_view_injective(b[i]);
    }
    assert(a =~= b);
}

/// The bytes of the number that a byte string denotes are that byte string.
pub proof fn lemma_le_bytes_of_le_nat(s: Seq<u8>)
    ensures
        le_bytes(le_nat(s), s.len()) == s,
    decreases s.len(),
{
    if s.len() == 0 {
        assert(le_bytes(le_nat(s), 0) =~= s);
    } else {
        lemma_le_bytes_of_le_nat(s.drop_first());
        assert(le_nat(s) % 256 == s[0] as nat);
        assert(le_nat(s) / 256 == le_nat(s.drop_first()));
        assert(s =~= seq![s[0]] + s.drop_first());
    }
}

/// Byte strings of one length that denote the same number are equal.
pub proof fn lemma_le_nat_injective(a: Seq<u8>, b: Seq<u8>)
    requires
        a.len() == b.len(),
    ensures
        le_nat(a) == le_nat(b) <==> a == b,
    decreases a.len(),
{
    if a.len() == 0 {
        assert(a =~= b);
    } else {
        lemma_le_nat_injective(a.drop_first(), b.drop_first());
        if le_nat(a) == le_nat(b) {
            assert(a[0] as nat == le_nat(a) % 256);
            assert(b[0] as nat == le_nat(b) % 256);
            assert(a.drop_first() == b.drop_first());
            assert(a =~= seq![a[0]] + a.drop_first());
            assert(b =~= seq![b[0]] + b.drop_first());
        }
    }
}

/// `From<u64>` of `pasta_curves::Fp`, then `to_repr`: the element whose
/// canonical value is `v`, every `u64` being below the modulus.
#[verifier::external_body]
fn fp_from_u64(v: u64) -> (r: FieldElement)
    ensures
        r@ == v,
        r.canonical(),
{
    FieldElement { repr: pasta_curves::Fp::from(v).to_repr() }
}

/// `PrimeField::from_repr` of `pasta_curves::Fp`: it accepts exactly the
/// encodings of numbers below the modulus, and `to_repr` gives the same bytes
/// back.
#[verifier::external_body]
fn fp_from_repr(bytes: &[u8; 32]) -> (r: Option<FieldElement>)
    ensures
        r is Some <==> le_nat(bytes@) < modulus(),
        r is Some ==> r->0@ == le_nat(bytes@) && r->0.canonical(),
{
    let parsed: Option<pasta_curves::Fp> = pasta_curves::Fp::from_repr(*bytes).into();
    match parsed {
        Some(x) => Some(FieldElement { repr: x.to_repr() }),
        None => None,
    }
}

/// `Add` of `pasta_curves::Fp`: addition modulo the field order.
#[verifier::external_body]
fn fp_add(a: &FieldElement, b: &FieldElement) -> (r: FieldElement)
    ensures
        r@ == fadd(a@, b@),
        r.canonical(),
{
    let x = pasta_curves::Fp::from_repr(a.repr).unwrap();
    let y = pasta_curves::Fp::from_repr(b.repr).unwrap();
    FieldElement { repr: (x + y).to_repr() }
}

/// `Sub` of `pasta_curves::Fp`: subtraction modulo the field order.
#[verifier::external_body]
fn fp_sub(a: &FieldElement, b: &FieldElement) -> (r: FieldElement)
    ensures
        r@ == fsub(a@, b@),
        r.canonical(),
{
    let x = pasta_curves::Fp::from_repr(a.repr).unwrap();
    let y = pasta_curves::Fp::from_repr(b.repr).unwrap();
    FieldElement { repr: (x - y).to_repr() }
}

/// `Mul` of `pasta_curves::Fp`: multiplication modulo the field order.
#[verifier::external_body]
fn fp_mul(a: &FieldElement, b: &FieldElement) -> (r: FieldElement)
    ensures
        r@ == fmul(a@, b@),
        r.canonical(),
{
    let x = pasta_curves::Fp::from_repr(a.repr).unwrap();
    let y = pasta_curves::Fp::from_repr(b.repr).unwrap();
    FieldElement { repr: (x * y).to_repr() }
}

/// `Field::square` of `pasta_curves::Fp`: the product of the element with
/// itself.
#[verifier::external_body]
fn fp_square(a: &FieldElement) -> (r: FieldElement)
    ensures
        r@ == fmul(a@, a@),
        r.canonical(),
{
    let x = pasta_curves::Fp::from_repr(a.repr).unwrap();
    FieldElement { repr: ff::Field::square(&x).to_repr() }
}

/// `Field::invert` of `pasta_curves::Fp`: it fails on zero and on nothing
/// else, and what it returns multiplies with the argument to one.
#[verifier::external_body]
fn fp_invert(a: &FieldElement) -> (r: Option<FieldElement>)
    ensures
        r is Some <==> a@ != 0,
        r is Some ==> fmul(a@, r->0@) == 1 && r->0.canonical(),
{
    let x = pasta_curves::Fp::from_repr(a.repr).unwrap();
    let inverse: Option<pasta_curves::Fp> = ff::Field::invert(&x).into();
    match inverse {
        Some(y) => Some(FieldElement { repr: y.to_repr() }),
        None => None,
    }
}

/// `FieldExt::pow` of `pasta_curves::Fp`, with the exponent in the lowest of
/// its four limbs: the element multiplied with itself `exp` times.
#[verifier::external_body]
fn fp_pow(a: &FieldElement, exp: u64) -> (r: FieldElement)
    ensures
        r@ == fpow(a@, exp as nat),
        r.canonical(),
{
    let x = pasta_curves::Fp::from_repr(a.repr).unwrap();
    FieldElement { repr: x.pow(&[exp, 0, 0, 0]).to_repr() }
}

/// `PrimeField::root_of_unity` of `pasta_curves::Fp`: the constant that the
/// crate's source gives for the generator of the subgroup of order `2^32`.
#[verifier::external_body]
fn fp_root_of_unity() -> (r: FieldElement)
    ensures
        r@ == root_of_unity_value(),
        r.canonical(),
{
    FieldElement { repr: pasta_curves::Fp::root_of_unity().to_repr() }
}

/// `FieldExt::from_bytes_wide` of `pasta_curves::Fp`: the 512-bit
/// little-endian number reduced modulo the field order.
#[verifier::external_body]
fn fp_from_bytes_wide(bytes: &[u8; 64]) -> (r: FieldElement)
    ensures
        r@ == le_nat(bytes@) % modulus(),
        r.canonical(),
{
    FieldElement { repr: pasta_curves::Fp::from_bytes_wide(bytes).to_repr() }
}

} // verus!
