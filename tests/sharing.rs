use ark_ff::{PrimeField, UniformRand};
use co_circom::container::{merge_all, SharedInput};
use co_circom::error::{ErrorKind, ShareError};
use co_circom::field::{is_canonical, Bls12_381, Bn254, Fe, ScalarField};
use co_circom::parse::{parse_array, parse_field, parse_literal, JsonLiteral};
use co_circom::rep3::{self, Component, Rep3Share};
use co_circom::shamir::{self, ShamirShare};
use co_circom::translate::{self, Protocol};
use co_circom::witness::{
    check_rep3_config, check_shamir_config, public_inputs_to_strings, split_witness_rep3,
    split_witness_shamir,
};
use rand::Rng;

fn fe(v: u64) -> Fe {
    Fe::from_u64(v)
}

fn random_fe<R: Rng>(rng: &mut R) -> Fe {
    let z = ark_bn254::Fr::rand(rng).into_bigint().0;
    Fe { l0: z[0], l1: z[1], l2: z[2], l3: z[3] }
}

fn random_vec<R: Rng>(rng: &mut R, len: usize) -> Vec<Fe> {
    (0..len).map(|_| random_fe(rng)).collect()
}

fn component<R: Rng>(rng: &mut R, seeded: bool, len: usize) -> Component {
    if seeded {
        Component::Seed(rng.gen())
    } else {
        Component::Values(random_vec(rng, len))
    }
}

fn bn_minus_one() -> Fe {
    Fe { l0: 0x43e1f593f0000000, l1: 0x2833e84879b97091, l2: 0xb85045b68181585d, l3: 0x30644e72e131a029 }
}

#[test]
fn rep3_round_trip_all_pairs() {
    let mut rng = rand::thread_rng();
    for seeded in [false, true] {
        let secrets = vec![fe(0), fe(1), fe(42), random_fe(&mut rng), bn_minus_one()];
        let c0 = component(&mut rng, seeded, secrets.len());
        let c1 = component(&mut rng, seeded, secrets.len());
        let (a, b, c) = rep3::split::<Bn254>(&secrets, c0, c1, false);
        let shares = [&a, &b, &c];
        for i in 0..3 {
            for j in 0..3 {
                if i != j {
                    let opened = rep3::reconstruct::<Bn254>(shares[i], shares[j]).unwrap();
                    assert_eq!(opened, secrets);
                }
            }
        }
    }
}

#[test]
fn rep3_additive_round_trip() {
    let mut rng = rand::thread_rng();
    for seeded in [false, true] {
        let secrets = random_vec(&mut rng, 4);
        let c0 = component(&mut rng, seeded, secrets.len());
        let c1 = component(&mut rng, seeded, secrets.len());
        let (a, b, c) = rep3::split::<Bn254>(&secrets, c0, c1, true);
        assert!(a.next.is_none() && b.next.is_none() && c.next.is_none());
        assert_eq!(rep3::reconstruct_additive::<Bn254>(&a, &b, &c).unwrap(), secrets);
        assert_eq!(rep3::reconstruct_additive::<Bn254>(&c, &a, &b).unwrap(), secrets);
        // two additive shares are not enough
        assert_eq!(rep3::reconstruct::<Bn254>(&a, &b).unwrap_err(), ShareError::InsufficientShares);
    }
}

#[test]
fn rep3_same_party_is_insufficient() {
    let mut rng = rand::thread_rng();
    let secrets = vec![fe(5)];
    let (a, _, _) = rep3::split::<Bn254>(
        &secrets,
        component(&mut rng, false, 1),
        component(&mut rng, false, 1),
        false,
    );
    let err = rep3::reconstruct::<Bn254>(&a, &a).unwrap_err();
    assert_eq!(err, ShareError::InsufficientShares);
    assert_eq!(err.kind(), ErrorKind::Protocol);
}

#[test]
fn rep3_shares_differ_from_secret() {
    // the random components really mask the secret
    let secrets = vec![fe(42)];
    let c0 = Component::Values(vec![fe(10)]);
    let c1 = Component::Values(vec![fe(20)]);
    let (_, _, c) = rep3::split::<Bn254>(&secrets, c0, c1, false);
    match &c.own {
        Component::Values(v) => assert_eq!(v, &vec![fe(12)]),
        Component::Seed(_) => panic!("third component is never a seed"),
    }
}

#[test]
fn rep3_seeded_shares_hold_seeds() {
    let secrets = vec![fe(7), fe(8)];
    let (a, b, c) = rep3::split::<Bn254>(&secrets, Component::Seed([1; 32]), Component::Seed([2; 32]), false);
    assert!(matches!(a.own, Component::Seed(_)));
    assert!(matches!(b.own, Component::Seed(_)));
    assert!(matches!(c.own, Component::Values(_)));
    assert_eq!(rep3::reconstruct::<Bn254>(&b, &c).unwrap(), secrets);
}

#[test]
fn seed_expansion_is_deterministic() {
    let x = Bn254::expand_seed([9; 32], 5);
    let y = Bn254::expand_seed([9; 32], 3);
    assert_eq!(&x[..3], &y[..]);
    let z = Bn254::expand_seed([10; 32], 5);
    assert_ne!(x, z);
}

fn shamir_shares(t: usize, n: usize, secrets: &Vec<Fe>) -> Vec<ShamirShare> {
    let mut rng = rand::thread_rng();
    let coeffs: Vec<Vec<Fe>> = secrets.iter().map(|_| random_vec(&mut rng, t)).collect();
    shamir::split::<Bn254>(secrets, &coeffs, t, n).unwrap()
}

#[test]
fn shamir_round_trip_subsets() {
    let mut rng = rand::thread_rng();
    for (t, n) in [(1, 2), (1, 3), (2, 5), (3, 7)] {
        let secrets = random_vec(&mut rng, 3);
        let shares = shamir_shares(t, n, &secrets);
        assert_eq!(shares.len(), n);
        // exactly t + 1 shares, from the front and from the back
        let front: Vec<ShamirShare> = shares[..t + 1].to_vec();
        assert_eq!(shamir::reconstruct::<Bn254>(&front, t).unwrap(), secrets);
        let back: Vec<ShamirShare> = shares[n - t - 1..].to_vec();
        assert_eq!(shamir::reconstruct::<Bn254>(&back, t).unwrap(), secrets);
        // all of them, in reverse order
        let mut all = shares.clone();
        all.reverse();
        assert_eq!(shamir::reconstruct::<Bn254>(&all, t).unwrap(), secrets);
        // t shares are not enough
        let few: Vec<ShamirShare> = shares[..t].to_vec();
        assert_eq!(shamir::reconstruct::<Bn254>(&few, t).unwrap_err(), ShareError::InsufficientShares);
    }
}

#[test]
fn shamir_round_trip_on_bls12_381() {
    let secrets = vec![fe(7), fe(0)];
    let coeffs = vec![vec![fe(3)], vec![fe(11)]];
    let shares = shamir::split::<Bls12_381>(&secrets, &coeffs, 1, 3).unwrap();
    // 7 + 3x at x = 1, 2, 3
    assert_eq!(shares[0].values[0], fe(10));
    assert_eq!(shares[1].values[0], fe(13));
    assert_eq!(shares[2].values[0], fe(16));
    assert_eq!(shares[2].values[1], fe(33));
    assert_eq!(shamir::reconstruct::<Bls12_381>(&shares[1..].to_vec(), 1).unwrap(), secrets);
}

#[test]
fn shamir_rejects_bad_threshold() {
    let secrets = vec![fe(1)];
    for (t, n) in [(0, 3), (3, 3), (4, 3)] {
        let coeffs = vec![vec![fe(1); t]];
        let err = shamir::split::<Bn254>(&secrets, &coeffs, t, n).unwrap_err();
        assert_eq!(err, ShareError::ShamirThreshold);
        assert_eq!(err.kind(), ErrorKind::Configuration);
    }
}

#[test]
fn shamir_rejects_repeated_points() {
    let shares = shamir_shares(1, 3, &vec![fe(9)]);
    let twice = vec![shares[0].clone(), shares[0].clone()];
    assert_eq!(shamir::reconstruct::<Bn254>(&twice, 1).unwrap_err(), ShareError::MismatchedShares);
}

#[test]
fn end_to_end_scenario() {
    let mut rng = rand::thread_rng();
    let secrets = vec![fe(42)];
    let (a, b, c) = rep3::split::<Bn254>(
        &secrets,
        component(&mut rng, false, 1),
        component(&mut rng, false, 1),
        false,
    );
    assert_eq!(rep3::reconstruct::<Bn254>(&a, &b).unwrap(), vec![fe(42)]);
    assert_eq!(rep3::reconstruct::<Bn254>(&b, &c).unwrap(), vec![fe(42)]);
    let shares = shamir_shares(1, 3, &vec![fe(7)]);
    assert_eq!(shares.iter().map(|s| s.index).collect::<Vec<_>>(), vec![1, 2, 3]);
    assert_eq!(shamir::reconstruct::<Bn254>(&shares[..2].to_vec(), 1).unwrap(), vec![fe(7)]);
    assert_eq!(shamir::reconstruct::<Bn254>(&shares, 1).unwrap(), vec![fe(7)]);
}

fn translate_once<R: Rng>(rng: &mut R, secrets: &Vec<Fe>) -> Vec<ShamirShare> {
    let len = secrets.len();
    let (a, b, c) = rep3::split::<Bn254>(secrets, component(rng, false, len), component(rng, true, len), true);
    let subs: Vec<Vec<ShamirShare>> = [a, b, c]
        .iter()
        .map(|share| {
            let own = translate::additive_component::<Bn254>(share);
            let coeffs: Vec<Vec<Fe>> = (0..len).map(|_| random_vec(rng, 1)).collect();
            translate::reshare::<Bn254>(&own, &coeffs)
        })
        .collect();
    (0..3)
        .map(|j| translate::combine::<Bn254>(&subs[0][j], &subs[1][j], &subs[2][j]).unwrap())
        .collect()
}

#[test]
fn translation_preserves_secret() {
    let mut rng = rand::thread_rng();
    for _ in 0..100 {
        let secrets = random_vec(&mut rng, 3);
        let shares = translate_once(&mut rng, &secrets);
        assert_eq!(shamir::reconstruct::<Bn254>(&shares, 1).unwrap(), secrets);
        assert_eq!(shamir::reconstruct::<Bn254>(&shares[1..].to_vec(), 1).unwrap(), secrets);
        let pair = vec![shares[2].clone(), shares[0].clone()];
        assert_eq!(shamir::reconstruct::<Bn254>(&pair, 1).unwrap(), secrets);
    }
}

#[test]
fn translation_combine_rejects_mixed_parties() {
    let shares = shamir_shares(1, 3, &vec![fe(1)]);
    let err = translate::combine::<Bn254>(&shares[0], &shares[1], &shares[0]).unwrap_err();
    assert_eq!(err, ShareError::MalformedMessage);
}

#[test]
fn translation_pairs() {
    assert!(translate::check_translation(Protocol::Rep3, Protocol::Shamir).is_ok());
    for (s, t) in [(Protocol::Shamir, Protocol::Rep3), (Protocol::Rep3, Protocol::Rep3), (Protocol::Shamir, Protocol::Shamir)] {
        let err = translate::check_translation(s, t).unwrap_err();
        assert_eq!(err, ShareError::UnsupportedTranslation);
        assert_eq!(err.kind(), ErrorKind::Configuration);
    }
}

#[test]
fn scheme_selection_guard() {
    assert!(check_rep3_config(1, 3).is_ok());
    assert_eq!(check_rep3_config(2, 3).unwrap_err(), ShareError::Rep3Threshold);
    assert_eq!(check_rep3_config(1, 4).unwrap_err(), ShareError::Rep3PartyCount);
    assert_eq!(check_rep3_config(2, 3).unwrap_err().kind(), ErrorKind::Configuration);
    assert_eq!(check_rep3_config(1, 4).unwrap_err().kind(), ErrorKind::Configuration);
    assert!(check_shamir_config(1, 3).is_ok());
    assert_eq!(check_shamir_config(3, 3).unwrap_err().kind(), ErrorKind::Configuration);
}

#[test]
fn split_witness_rep3_keeps_public_part() {
    let witness = vec![fe(1), fe(33), fe(3), fe(11)];
    let c0 = Component::Values(vec![fe(5), fe(6)]);
    let c1 = Component::Values(vec![fe(7), fe(8)]);
    let (a, b, c) = split_witness_rep3::<Bn254>(&witness, 2, 1, 3, c0, c1, false).unwrap();
    assert_eq!(a.public_inputs, vec![fe(1), fe(33)]);
    assert_eq!(c.public_inputs, vec![fe(1), fe(33)]);
    assert_eq!(rep3::reconstruct::<Bn254>(&a.witness, &c.witness).unwrap(), vec![fe(3), fe(11)]);
    let _ = b;
    let err = split_witness_rep3::<Bn254>(&witness, 2, 2, 3, Component::Seed([0; 32]), Component::Seed([1; 32]), false);
    assert_eq!(err.err(), Some(ShareError::Rep3Threshold));
    let err = split_witness_rep3::<Bn254>(&witness, 2, 1, 4, Component::Seed([0; 32]), Component::Seed([1; 32]), false);
    assert_eq!(err.err(), Some(ShareError::Rep3PartyCount));
}

#[test]
fn split_witness_shamir_round_trip() {
    let witness = vec![fe(1), fe(12), fe(13)];
    let coeffs = vec![vec![fe(2), fe(4)], vec![fe(6), fe(8)]];
    let shares = split_witness_shamir::<Bn254>(&witness, 1, 2, 4, &coeffs).unwrap();
    assert_eq!(shares.len(), 4);
    assert_eq!(shares[3].public_inputs, vec![fe(1)]);
    let parts: Vec<ShamirShare> = shares.iter().map(|w| w.witness.clone()).collect();
    assert_eq!(shamir::reconstruct::<Bn254>(&parts[1..].to_vec(), 2).unwrap(), vec![fe(12), fe(13)]);
}

#[test]
fn public_inputs_written_in_decimal() {
    let public = vec![fe(1), fe(0), fe(42), fe(1234567890123)];
    let out = public_inputs_to_strings::<Bn254>(&public);
    assert_eq!(out, vec!["0".to_string(), "42".to_string(), "1234567890123".to_string()]);
    assert!(public_inputs_to_strings::<Bn254>(&vec![]).is_empty());
}

#[test]
fn literal_parsing() {
    assert_eq!(parse_literal::<Bn254>("0x2a"), Some(fe(42)));
    assert_eq!(parse_literal::<Bn254>("0x2A"), Some(fe(42)));
    assert_eq!(parse_literal::<Bn254>("42"), Some(fe(42)));
    assert_eq!(parse_literal::<Bn254>("0"), Some(fe(0)));
    assert_eq!(parse_literal::<Bn254>("-1"), Some(bn_minus_one()));
    assert_eq!(parse_literal::<Bn254>("-0x1"), Some(bn_minus_one()));
    assert_eq!(parse_literal::<Bn254>("-0"), Some(fe(0)));
    for bad in ["", "-", "0x", "0xg", "4a", "042", "--1", "1.5", "\u{e9}"] {
        assert_eq!(parse_literal::<Bn254>(bad), None, "{bad}");
    }
}

#[test]
fn literal_parsing_reduces_modulo_characteristic() {
    // the characteristic itself reads as zero, one more as one
    let p = "21888242871839275222246405745257275088548364400416034343698204186575808495617";
    let p1 = "21888242871839275222246405745257275088548364400416034343698204186575808495618";
    assert_eq!(parse_literal::<Bn254>(p), Some(fe(0)));
    assert_eq!(parse_literal::<Bn254>(p1), Some(fe(1)));
    let hex_p1 = "0x30644e72e131a029b85045b68181585d2833e84879b9709143e1f593f0000002";
    assert_eq!(parse_literal::<Bn254>(hex_p1), Some(fe(1)));
}

#[test]
fn parse_field_and_array() {
    let s = |x: &str| JsonLiteral::Str(x.to_string());
    assert_eq!(parse_field::<Bn254>(&s("0x2a")).unwrap(), fe(42));
    let arr = JsonLiteral::Array(vec![s("1"), s("2")]);
    assert_eq!(parse_array::<Bn254>(&arr).unwrap(), vec![fe(1), fe(2)]);
    let nested = JsonLiteral::Array(vec![JsonLiteral::Array(vec![s("1"), s("2")]), s("3"), JsonLiteral::Array(vec![])]);
    assert_eq!(parse_array::<Bn254>(&nested).unwrap(), vec![fe(1), fe(2), fe(3)]);
    let err = parse_field::<Bn254>(&JsonLiteral::Other("17".to_string())).unwrap_err();
    assert_eq!(err, ShareError::Parse("17".to_string()));
    assert_eq!(err.kind(), ErrorKind::Parse);
    let bad = JsonLiteral::Array(vec![s("1"), JsonLiteral::Other("true".to_string())]);
    assert_eq!(parse_array::<Bn254>(&bad).unwrap_err(), ShareError::Parse("true".to_string()));
    assert_eq!(parse_field::<Bn254>(&s("zz")).unwrap_err(), ShareError::Parse("zz".to_string()));
}

fn input(public: &[(&str, u64)], shared: &[(&str, u64)]) -> SharedInput<Rep3Share> {
    let mut x = SharedInput::new();
    for (k, v) in public {
        x.public_inputs.push((k.to_string(), vec![fe(*v)]));
    }
    for (k, v) in shared {
        let (a, _, _) = rep3::split::<Bn254>(&vec![fe(*v)], Component::Seed([1; 32]), Component::Seed([2; 32]), false);
        x.shared_inputs.push((k.to_string(), a));
    }
    x
}

fn keys<V>(e: &[(String, V)]) -> Vec<String> {
    let mut k: Vec<String> = e.iter().map(|(k, _)| k.clone()).collect();
    k.sort();
    k
}

#[test]
fn merge_is_associative_and_commutative() {
    let a = || input(&[("p", 1)], &[("a", 1)]);
    let b = || input(&[("p", 1), ("q", 2)], &[("b", 2)]);
    let c = || input(&[("r", 3)], &[("c", 3)]);
    let left = a().merge(b()).unwrap().merge(c()).unwrap();
    let right = a().merge(b().merge(c()).unwrap()).unwrap();
    assert_eq!(keys(&left.shared_inputs), keys(&right.shared_inputs));
    assert_eq!(keys(&left.public_inputs), keys(&right.public_inputs));
    assert_eq!(keys(&left.shared_inputs), vec!["a", "b", "c"]);
    assert_eq!(keys(&left.public_inputs), vec!["p", "q", "r"]);
    let swapped = b().merge(a()).unwrap();
    let straight = a().merge(b()).unwrap();
    assert_eq!(keys(&swapped.shared_inputs), keys(&straight.shared_inputs));
    assert_eq!(keys(&swapped.public_inputs), keys(&straight.public_inputs));
    let all = merge_all(vec![a(), b(), c()]).unwrap();
    assert_eq!(keys(&all.shared_inputs), vec!["a", "b", "c"]);
}

#[test]
fn merge_duplicate_key() {
    let err = input(&[], &[("x", 1)]).merge(input(&[], &[("x", 2)])).err().unwrap();
    assert_eq!(err, ShareError::DuplicateKey("x".to_string()));
    assert_eq!(err.kind(), ErrorKind::Merge);
}

#[test]
fn merge_conflicting_public_value() {
    let err = input(&[("p", 1)], &[]).merge(input(&[("p", 2)], &[])).err().unwrap();
    assert_eq!(err, ShareError::Conflict("p".to_string()));
}

#[test]
fn merge_needs_two_inputs() {
    assert_eq!(merge_all::<Rep3Share>(vec![]).err(), Some(ShareError::TooFewInputs));
    assert_eq!(merge_all(vec![input(&[], &[("a", 1)])]).err(), Some(ShareError::TooFewInputs));
    assert_eq!(merge_all(vec![input(&[], &[("a", 1)]), input(&[], &[("a", 1)])]).err().map(|e| e.kind()), Some(ErrorKind::Merge));
}

#[test]
fn field_wrappers_compute() {
    let x = Bn254::add(fe(40), fe(2));
    assert_eq!(x, fe(42));
    assert_eq!(Bn254::sub(fe(0), fe(1)), bn_minus_one());
    assert_eq!(Bn254::mul(fe(6), fe(7)), fe(42));
    let inv = Bn254::inverse(fe(2)).unwrap();
    assert_eq!(Bn254::mul(inv, fe(2)), fe(1));
    assert_eq!(Bn254::inverse(fe(0)), None);
    assert_eq!(Bn254::from_decimal("123"), Some(fe(123)));
    assert_eq!(Bn254::from_decimal("0123"), None);
    assert_eq!(Bn254::to_decimal(fe(123)), "123");
    assert_eq!(Bn254::to_decimal(fe(0)), "");
    assert_eq!(Bls12_381::add(fe(1), fe(2)), fe(3));
    assert_eq!(Bls12_381::to_decimal(Bls12_381::sub(fe(0), fe(1))), "52435875175126190479447740508185965837690552500527637822603658699938581184512");
}

#[test]
fn canonical_form() {
    assert!(is_canonical::<Bn254>(&fe(0)));
    assert!(is_canonical::<Bn254>(&bn_minus_one()));
    let p = Bn254::add(bn_minus_one(), fe(0));
    assert!(is_canonical::<Bn254>(&p));
    let modulus = Fe { l0: 0x43e1f593f0000001, ..bn_minus_one() };
    assert!(!is_canonical::<Bn254>(&modulus));
    assert!(!is_canonical::<Bn254>(&Fe { l0: 0, l1: 0, l2: 0, l3: u64::MAX }));
    // below the larger characteristic of BLS12-381
    assert!(is_canonical::<Bls12_381>(&modulus));
}
