//! Field elements as four little-endian 64-bit limbs, and the prime fields
//! whose arithmetic is delegated to arkworks.
use ark_ff::{Field, PrimeField, UniformRand};
use rand::SeedableRng;
use vstd::prelude::*;

verus! {

/// 2^64, the weight of one limb.
pub open spec fn limb_base() -> nat {
    0x1_0000_0000_0000_0000
}

/// A field element in canonical form: its value is below the modulus of the
/// field it is used with.
#[derive(Clone, Copy, Debug, PartialEq, Eq, Structural)]
pub struct Fe {
    pub l0: u64,
    pub l1: u64,
    pub l2: u64,
    pub l3: u64,
}

impl Fe {
    /// The integer that the limbs spell.
    pub open spec fn value(self) -> nat {
        self.l0 as nat + limb_base() * (self.l1 as nat + limb_base() * (self.l2 as nat
            + limb_base() * self.l3 as nat))
    }

    pub fn from_u64(v: u64) -> (r: Fe)
        ensures
            r.value() == v,
    {
        Fe { l0: v, l1: 0, l2: 0, l3: 0 }
    }

    pub fn zero() -> (r: Fe)
        ensures
            r.value() == 0,
    {
        Fe::from_u64(0)
    }

    pub fn is_zero(&self) -> (r: bool)
        ensures
            r == (self.value() == 0),
    {
        proof {
            assert(self.value() == 0 ==> self.l0 == 0 && self.l1 == 0 && self.l2 == 0 && self.l3
                == 0) by (nonlinear_arith)
                requires
                    self.value() == self.l0 as nat + limb_base() * (self.l1 as nat + limb_base() * (
                    self.l2 as nat + limb_base() * self.l3 as nat)),
                    limb_base() > 0,
            ;
        }
        self.l0 == 0 && self.l1 == 0 && self.l2 == 0 && self.l3 == 0
    }
}


/// A decimal digit.
pub open spec fn is_digit(c: char) -> bool {
    '0' <= c && c <= '9'
}

pub open spec fn digit_value(c: char) -> nat {
    (c as u32 - '0' as u32) as nat
}

/// The number that a string of decimal digits spells.
pub open spec fn digits_value(s: Seq<char>) -> nat
    decreases s.len(),
{
    if s.len() == 0 {
        0
    } else {
        digits_value(s.drop_last()) * 10 + digit_value(s.last())
    }
}

/// Decimal digits with no leading zero (a lone "0" aside).
pub open spec fn is_canonical_decimal(s: Seq<char>) -> bool {
    &&& s.len() > 0
    &&& forall|i: int| 0 <= i < s.len() ==> #[trigger] is_digit(s[i])
    &&& (s.len() == 1 || s[0] != '0')
}

/// A prime field whose elements are held as `Fe` values below `modulus()`.
pub trait ScalarField {
    /// The characteristic of the field.
    spec fn modulus() -> nat;

    /// The element at `index` in the sequence that a seed expands to.
    spec fn seed_value(seed: Seq<u8>, index: nat) -> nat;

    proof fn lemma_modulus_bounds()
        ensures
            limb_base() < Self::modulus(),
    ;

    /// The characteristic, as limbs.
    fn modulus_fe() -> (r: Fe)
        ensures
            r.value() == Self::modulus(),
    ;

    fn add(a: Fe, b: Fe) -> (r: Fe)
        requires
            a.value() < Self::modulus(),
            b.value() < Self::modulus(),
        ensures
            r.value() == (a.value() + b.value()) % Self::modulus(),
    ;

    fn sub(a: Fe, b: Fe) -> (r: Fe)
        requires
            a.value() < Self::modulus(),
            b.value() < Self::modulus(),
        ensures
            r.value() == (a.value() - b.value()) % (Self::modulus() as int),
    ;

    fn mul(a: Fe, b: Fe) -> (r: Fe)
        requires
            a.value() < Self::modulus(),
            b.value() < Self::modulus(),
        ensures
            r.value() == (a.value() * b.value()) % Self::modulus(),
    ;

    /// The multiplicative inverse; `None` for zero.
    fn inverse(a: Fe) -> (r: Option<Fe>)
        requires
            a.value() < Self::modulus(),
        ensures
            r is None <==> a.value() == 0,
            r matches Some(x) ==> x.value() < Self::modulus() && (a.value() * x.value())
                % Self::modulus() == 1,
    ;

    /// Reads a decimal literal without leading zeros, reduced modulo the
    /// characteristic.
    fn from_decimal(s: &str) -> (r: Option<Fe>)
        ensures
            r is Some <==> is_canonical_decimal(s@),
            r matches Some(x) ==> x.value() == digits_value(s@) % Self::modulus(),
    ;

    /// Writes an element in decimal; zero comes out empty.
    fn to_decimal(a: Fe) -> (r: String)
        requires
            a.value() < Self::modulus(),
        ensures
            a.value() == 0 ==> r@.len() == 0,
            a.value() != 0 ==> is_canonical_decimal(r@) && digits_value(r@) == a.value(),
    ;

    /// The first `len` elements that a seed expands to, the same ones for
    /// the same seed.
    fn expand_seed(seed: [u8; 32], len: usize) -> (r: Vec<Fe>)
        ensures
            r.len() == len,
            forall|i: int|
                0 <= i < len ==> r[i].value() < Self::modulus() && #[trigger] r[i].value()
                    == Self::seed_value(seed@, i as nat),
    ;
}

/// The characteristic of the Bn254 scalar field.
pub open spec fn bn254_modulus() -> nat {
    0x43e1f593f0000001 + limb_base() * (0x2833e84879b97091 + limb_base() * (0xb85045b68181585d + limb_base() * 0x30644e72e131a029))
}

/// The element that `ark_bn254::Fr::rand` draws at position `index` from a
/// `StdRng` seeded with `seed`.
pub uninterp spec fn bn254_seed_stream(seed: Seq<u8>, index: nat) -> nat;

/// Relies on `ark_bn254::Fr` addition, modulo the characteristic.
#[verifier::external_body]
fn bn254_add(a: Fe, b: Fe) -> (r: Fe)
    requires
        a.value() < bn254_modulus(),
        b.value() < bn254_modulus(),
    ensures
        r.value() == (a.value() + b.value()) % bn254_modulus(),
{
    let x = ark_bn254::Fr::from_bigint(ark_ff::BigInt([a.l0, a.l1, a.l2, a.l3])).unwrap();
    let y = ark_bn254::Fr::from_bigint(ark_ff::BigInt([b.l0, b.l1, b.l2, b.l3])).unwrap();
    let z = (x + y).into_bigint().0;
    Fe { l0: z[0], l1: z[1], l2: z[2], l3: z[3] }
}

/// Relies on `ark_bn254::Fr` subtraction, modulo the characteristic.
#[verifier::external_body]
fn bn254_sub(a: Fe, b: Fe) -> (r: Fe)
    requires
        a.value() < bn254_modulus(),
        b.value() < bn254_modulus(),
    ensures
        r.value() == (a.value() - b.value()) % (bn254_modulus() as int),
{
    let x = ark_bn254::Fr::from_bigint(ark_ff::BigInt([a.l0, a.l1, a.l2, a.l3])).unwrap();
    let y = ark_bn254::Fr::from_bigint(ark_ff::BigInt([b.l0, b.l1, b.l2, b.l3])).unwrap();
    let z = (x - y).into_bigint().0;
    Fe { l0: z[0], l1: z[1], l2: z[2], l3: z[3] }
}

/// Relies on `ark_bn254::Fr` multiplication, modulo the characteristic.
#[verifier::external_body]
fn bn254_mul(a: Fe, b: Fe) -> (r: Fe)
    requires
        a.value() < bn254_modulus(),
        b.value() < bn254_modulus(),
    ensures
        r.value() == (a.value() * b.value()) % bn254_modulus(),
{
    let x = ark_bn254::Fr::from_bigint(ark_ff::BigInt([a.l0, a.l1, a.l2, a.l3])).unwrap();
    let y = ark_bn254::Fr::from_bigint(ark_ff::BigInt([b.l0, b.l1, b.l2, b.l3])).unwrap();
    let z = (x * y).into_bigint().0;
    Fe { l0: z[0], l1: z[1], l2: z[2], l3: z[3] }
}

/// Relies on `Field::inverse` of `ark_bn254::Fr`: `None` exactly for zero.
#[verifier::external_body]
fn bn254_inverse(a: Fe) -> (r: Option<Fe>)
    requires
        a.value() < bn254_modulus(),
    ensures
        r is None <==> a.value() == 0,
        r matches Some(x) ==> x.value() < bn254_modulus() && (a.value() * x.value())
            % bn254_modulus() == 1,
{
    let x = ark_bn254::Fr::from_bigint(ark_ff::BigInt([a.l0, a.l1, a.l2, a.l3])).unwrap();
    x.inverse().map(|y| {
        let z = y.into_bigint().0;
        Fe { l0: z[0], l1: z[1], l2: z[2], l3: z[3] }
    })
}

/// Relies on `FromStr` of `ark_bn254::Fr`: decimal digits without a leading
/// zero, folded as `10 * acc + digit` in the field.
#[verifier::external_body]
fn bn254_from_decimal(s: &str) -> (r: Option<Fe>)
    ensures
        r is Some <==> is_canonical_decimal(s@),
        r matches Some(x) ==> x.value() == digits_value(s@) % bn254_modulus(),
{
    s.parse::<ark_bn254::Fr>().ok().map(|y| {
        let z = y.into_bigint().0;
        Fe { l0: z[0], l1: z[1], l2: z[2], l3: z[3] }
    })
}

/// Relies on `Display` of `ark_bn254::Fr`: decimal without leading zeros,
/// which leaves zero empty.
#[verifier::external_body]
fn bn254_to_decimal(a: Fe) -> (r: String)
    requires
        a.value() < bn254_modulus(),
    ensures
        a.value() == 0 ==> r@.len() == 0,
        a.value() != 0 ==> is_canonical_decimal(r@) && digits_value(r@) == a.value(),
{
    let x = ark_bn254::Fr::from_bigint(ark_ff::BigInt([a.l0, a.l1, a.l2, a.l3])).unwrap();
    x.to_string()
}

/// Relies on `UniformRand` of `ark_bn254::Fr`, drawn in turn from a
/// `rand::rngs::StdRng` seeded with `seed`: each draw depends on the seed and
/// its position alone, and is canonical.
#[verifier::external_body]
fn bn254_expand_seed(seed: [u8; 32], len: usize) -> (r: Vec<Fe>)
    ensures
        r.len() == len,
        forall|i: int|
            0 <= i < len ==> r[i].value() < bn254_modulus() && #[trigger] r[i].value()
                == bn254_seed_stream(seed@, i as nat),
{
    let mut rng = rand::rngs::StdRng::from_seed(seed);
    let mut r = Vec::with_capacity(len);
    for _ in 0..len {
        let z = ark_bn254::Fr::rand(&mut rng).into_bigint().0;
        r.push(Fe { l0: z[0], l1: z[1], l2: z[2], l3: z[3] });
    }
    r
}

/// The scalar field of Bn254.
pub struct Bn254;

impl ScalarField for Bn254 {
    open spec fn modulus() -> nat {
        bn254_modulus()
    }

    open spec fn seed_value(seed: Seq<u8>, index: nat) -> nat {
        bn254_seed_stream(seed, index)
    }

    proof fn lemma_modulus_bounds() {
    }

    fn modulus_fe() -> (r: Fe) {
        Fe { l0: 0x43e1f593f0000001, l1: 0x2833e84879b97091, l2: 0xb85045b68181585d, l3: 0x30644e72e131a029 }
    }

    fn add(a: Fe, b: Fe) -> (r: Fe) {
        bn254_add(a, b)
    }

    fn sub(a: Fe, b: Fe) -> (r: Fe) {
        bn254_sub(a, b)
    }

    fn mul(a: Fe, b: Fe) -> (r: Fe) {
        bn254_mul(a, b)
    }

    fn inverse(a: Fe) -> (r: Option<Fe>) {
        bn254_inverse(a)
    }

    fn from_decimal(s: &str) -> (r: Option<Fe>) {
        bn254_from_decimal(s)
    }

    fn to_decimal(a: Fe) -> (r: String) {
        bn254_to_decimal(a)
    }

    fn expand_seed(seed: [u8; 32], len: usize) -> (r: Vec<Fe>) {
        bn254_expand_seed(seed, len)
    }
}

/// The characteristic of the Bls12_381 scalar field.
pub open spec fn bls12_381_modulus() -> nat {
    0xffffffff00000001 + limb_base() * (0x53bda402fffe5bfe + limb_base() * (0x3339d80809a1d805 + limb_base() * 0x73eda753299d7d48))
}

/// The element that `ark_bls12_381::Fr::rand` draws at position `index` from a
/// `StdRng` seeded with `seed`.
pub uninterp spec fn bls12_381_seed_stream(seed: Seq<u8>, index: nat) -> nat;

/// Relies on `ark_bls12_381::Fr` addition, modulo the characteristic.
#[verifier::external_body]
fn bls12_381_add(a: Fe, b: Fe) -> (r: Fe)
    requires
        a.value() < bls12_381_modulus(),
        b.value() < bls12_381_modulus(),
    ensures
        r.value() == (a.value() + b.value()) % bls12_381_modulus(),
{
    let x = ark_bls12_381::Fr::from_bigint(ark_ff::BigInt([a.l0, a.l1, a.l2, a.l3])).unwrap();
    let y = ark_bls12_381::Fr::from_bigint(ark_ff::BigInt([b.l0, b.l1, b.l2, b.l3])).unwrap();
    let z = (x + y).into_bigint().0;
    Fe { l0: z[0], l1: z[1], l2: z[2], l3: z[3] }
}

/// Relies on `ark_bls12_381::Fr` subtraction, modulo the characteristic.
#[verifier::external_body]
fn bls12_381_sub(a: Fe, b: Fe) -> (r: Fe)
    requires
        a.value() < bls12_381_modulus(),
        b.value() < bls12_381_modulus(),
    ensures
        r.value() == (a.value() - b.value()) % (bls12_381_modulus() as int),
{
    let x = ark_bls12_381::Fr::from_bigint(ark_ff::BigInt([a.l0, a.l1, a.l2, a.l3])).unwrap();
    let y = ark_bls12_381::Fr::from_bigint(ark_ff::BigInt([b.l0, b.l1, b.l2, b.l3])).unwrap();
    let z = (x - y).into_bigint().0;
    Fe { l0: z[0], l1: z[1], l2: z[2], l3: z[3] }
}

/// Relies on `ark_bls12_381::Fr` multiplication, modulo the characteristic.
#[verifier::external_body]
fn bls12_381_mul(a: Fe, b: Fe) -> (r: Fe)
    requires
        a.value() < bls12_381_modulus(),
        b.value() < bls12_381_modulus(),
    ensures
        r.value() == (a.value() * b.value()) % bls12_381_modulus(),
{
    let x = ark_bls12_381::Fr::from_bigint(ark_ff::BigInt([a.l0, a.l1, a.l2, a.l3])).unwrap();
    let y = ark_bls12_381::Fr::from_bigint(ark_ff::BigInt([b.l0, b.l1, b.l2, b.l3])).unwrap();
    let z = (x * y).into_bigint().0;
    Fe { l0: z[0], l1: z[1], l2: z[2], l3: z[3] }
}

/// Relies on `Field::inverse` of `ark_bls12_381::Fr`: `None` exactly for zero.
#[verifier::external_body]
fn bls12_381_inverse(a: Fe) -> (r: Option<Fe>)
    requires
        a.value() < bls12_381_modulus(),
    ensures
        r is None <==> a.value() == 0,
        r matches Some(x) ==> x.value() < bls12_381_modulus() && (a.value() * x.value())
            % bls12_381_modulus() == 1,
{
    let x = ark_bls12_381::Fr::from_bigint(ark_ff::BigInt([a.l0, a.l1, a.l2, a.l3])).unwrap();
    x.inverse().map(|y| {
        let z = y.into_bigint().0;
        Fe { l0: z[0], l1: z[1], l2: z[2], l3: z[3] }
    })
}

/// Relies on `FromStr` of `ark_bls12_381::Fr`: decimal digits without a leading
/// zero, folded as `10 * acc + digit` in the field.
#[verifier::external_body]
fn bls12_381_from_decimal(s: &str) -> (r: Option<Fe>)
    ensures
        r is Some <==> is_canonical_decimal(s@),
        r matches Some(x) ==> x.value() == digits_value(s@) % bls12_381_modulus(),
{
    s.parse::<ark_bls12_381::Fr>().ok().map(|y| {
        let z = y.into_bigint().0;
        Fe { l0: z[0], l1: z[1], l2: z[2], l3: z[3] }
    })
}

/// Relies on `Display` of `ark_bls12_381::Fr`: decimal without leading zeros,
/// which leaves zero empty.
#[verifier::external_body]
fn bls12_381_to_decimal(a: Fe) -> (r: String)
    requires
        a.value() < bls12_381_modulus(),
    ensures
        a.value() == 0 ==> r@.len() == 0,
        a.value() != 0 ==> is_canonical_decimal(r@) && digits_value(r@) == a.value(),
{
    let x = ark_bls12_381::Fr::from_bigint(ark_ff::BigInt([a.l0, a.l1, a.l2, a.l3])).unwrap();
    x.to_string()
}

/// Relies on `UniformRand` of `ark_bls12_381::Fr`, drawn in turn from a
/// `rand::rngs::StdRng` seeded with `seed`: each draw depends on the seed and
/// its position alone, and is canonical.
#[verifier::external_body]
fn bls12_381_expand_seed(seed: [u8; 32], len: usize) -> (r: Vec<Fe>)
    ensures
        r.len() == len,
        forall|i: int|
            0 <= i < len ==> r[i].value() < bls12_381_modulus() && #[trigger] r[i].value()
                == bls12_381_seed_stream(seed@, i as nat),
{
    let mut rng = rand::rngs::StdRng::from_seed(seed);
    let mut r = Vec::with_capacity(len);
    for _ in 0..len {
        let z = ark_bls12_381::Fr::rand(&mut rng).into_bigint().0;
        r.push(Fe { l0: z[0], l1: z[1], l2: z[2], l3: z[3] });
    }
    r
}

/// The scalar field of Bls12_381.
pub struct Bls12_381;

impl ScalarField for Bls12_381 {
    open spec fn modulus() -> nat {
        bls12_381_modulus()
    }

    open spec fn seed_value(seed: Seq<u8>, index: nat) -> nat {
        bls12_381_seed_stream(seed, index)
    }

    proof fn lemma_modulus_bounds() {
    }

    fn modulus_fe() -> (r: Fe) {
        Fe { l0: 0xffffffff00000001, l1: 0x53bda402fffe5bfe, l2: 0x3339d80809a1d805, l3: 0x73eda753299d7d48 }
    }

    fn add(a: Fe, b: Fe) -> (r: Fe) {
        bls12_381_add(a, b)
    }

    fn sub(a: Fe, b: Fe) -> (r: Fe) {
        bls12_381_sub(a, b)
    }

    fn mul(a: Fe, b: Fe) -> (r: Fe) {
        bls12_381_mul(a, b)
    }

    fn inverse(a: Fe) -> (r: Option<Fe>) {
        bls12_381_inverse(a)
    }

    fn from_decimal(s: &str) -> (r: Option<Fe>) {
        bls12_381_from_decimal(s)
    }

    fn to_decimal(a: Fe) -> (r: String) {
        bls12_381_to_decimal(a)
    }

    fn expand_seed(seed: [u8; 32], len: usize) -> (r: Vec<Fe>) {
        bls12_381_expand_seed(seed, len)
    }
}

/// Comparing `lo + B hi` numbers: by the high part first.
proof fn lemma_lex(lo_a: nat, hi_a: nat, lo_b: nat, hi_b: nat)
    requires
        lo_a < limb_base(),
        lo_b < limb_base(),
    ensures
        (lo_a + limb_base() * hi_a < lo_b + limb_base() * hi_b) == (hi_a < hi_b || (hi_a == hi_b
            && lo_a < lo_b)),
{
    let ghost b = limb_base();
    if hi_a < hi_b {
        assert(lo_a + b * hi_a < lo_b + b * hi_b) by (nonlinear_arith)
            requires
                lo_a < b,
                hi_a < hi_b,
        ;
    } else if hi_a > hi_b {
        assert(lo_a + b * hi_a >= lo_b + b * hi_b) by (nonlinear_arith)
            requires
                lo_b < b,
                hi_a > hi_b,
        ;
    }
}

/// Whether `x` is below the characteristic of `F`, the form every operation
/// expects.
pub fn is_canonical<F: ScalarField>(x: &Fe) -> (r: bool)
    ensures
        r == (x.value() < F::modulus()),
{
    let m = F::modulus_fe();
    let ghost b = limb_base();
    let ghost xa = x.l2 as nat + b * x.l3 as nat;
    let ghost ma = m.l2 as nat + b * m.l3 as nat;
    let ghost xb = x.l1 as nat + b * xa;
    let ghost mb = m.l1 as nat + b * ma;
    proof {
        lemma_lex(x.l2 as nat, x.l3 as nat, m.l2 as nat, m.l3 as nat);
        lemma_lex(x.l1 as nat, xa, m.l1 as nat, ma);
        lemma_lex(x.l0 as nat, xb, m.l0 as nat, mb);
    }
    if x.l3 != m.l3 {
        proof {
            assert((xa == ma) ==> x.l3 == m.l3) by (nonlinear_arith)
                requires
                    xa == x.l2 as nat + b * x.l3 as nat,
                    ma == m.l2 as nat + b * m.l3 as nat,
                    x.l2 < b,
                    m.l2 < b,
            ;
            assert((xb == mb) ==> xa == ma) by (nonlinear_arith)
                requires
                    xb == x.l1 as nat + b * xa,
                    mb == m.l1 as nat + b * ma,
                    x.l1 < b,
                    m.l1 < b,
            ;
            lemma_lex(x.l2 as nat, x.l3 as nat, m.l2 as nat, m.l3 as nat);
        }
        return x.l3 < m.l3;
    }
    if x.l2 != m.l2 {
        proof {
            assert((xb == mb) ==> xa == ma) by (nonlinear_arith)
                requires
                    xb == x.l1 as nat + b * xa,
                    mb == m.l1 as nat + b * ma,
                    x.l1 < b,
                    m.l1 < b,
            ;
        }
        return x.l2 < m.l2;
    }
    if x.l1 != m.l1 {
        return x.l1 < m.l1;
    }
    x.l0 < m.l0
}

} // verus!
