use co_circom::codec::{decode_witness, encode_witness};
use co_circom::container::{share_input, SharedWitness};
use co_circom::error::ShareError;
use co_circom::field::{Bn254, Fe};
use co_circom::rep3::{self, Component};
use co_circom::shamir::{self, ShamirShare};
use co_circom::translate::{combine, ShamirSession};

fn fe(v: u64) -> Fe {
    Fe::from_u64(v)
}

fn sample() -> SharedWitness<ShamirShare> {
    SharedWitness {
        public_inputs: vec![fe(1), Fe { l0: u64::MAX, l1: 2, l2: 3, l3: 4 }],
        witness: ShamirShare { index: 2, values: vec![fe(7), fe(0), Fe { l0: 5, l1: 6, l2: 7, l3: 8 }] },
    }
}

#[test]
fn share_file_round_trip() {
    let w = sample();
    let bytes = encode_witness(&w);
    assert_eq!(bytes.len(), 8 + 2 * 32 + 8 + 8 + 3 * 32);
    // lengths and the index are little-endian
    assert_eq!(&bytes[..8], &[2, 0, 0, 0, 0, 0, 0, 0]);
    assert_eq!(&bytes[8 + 64..8 + 64 + 8], &[2, 0, 0, 0, 0, 0, 0, 0]);
    let back = decode_witness(&bytes).unwrap();
    assert_eq!(back.public_inputs, w.public_inputs);
    assert_eq!(back.witness.index, w.witness.index);
    assert_eq!(back.witness.values, w.witness.values);
}

#[test]
fn share_file_empty_vectors() {
    let w = SharedWitness { public_inputs: vec![], witness: ShamirShare { index: 0, values: vec![] } };
    let bytes = encode_witness(&w);
    assert_eq!(bytes, vec![0u8; 24]);
    let back = decode_witness(&bytes).unwrap();
    assert!(back.public_inputs.is_empty() && back.witness.values.is_empty());
}

#[test]
fn share_file_rejects_bad_bytes() {
    let bytes = encode_witness(&sample());
    assert!(decode_witness(&bytes[..bytes.len() - 1].to_vec()).is_none());
    let mut longer = bytes.clone();
    longer.push(0);
    assert!(decode_witness(&longer).is_none());
    assert!(decode_witness(&vec![]).is_none());
    let mut huge = bytes.clone();
    huge[0] = 0xff;
    assert!(decode_witness(&huge).is_none());
}

#[test]
fn share_input_splits_secret_and_copies_public() {
    let signals = vec![
        ("a".to_string(), vec![fe(1), fe(2)]),
        ("pub".to_string(), vec![fe(9)]),
        ("b".to_string(), vec![fe(3)]),
    ];
    let public = vec!["pub".to_string()];
    let masks = vec![
        (Component::Seed([1; 32]), Component::Values(vec![fe(4), fe(5)])),
        (Component::Seed([2; 32]), Component::Seed([3; 32])),
        (Component::Values(vec![fe(6)]), Component::Seed([4; 32])),
    ];
    let (x, y, z) = share_input::<Bn254>(&signals, &public, masks, false);
    for party in [&x, &y, &z] {
        assert_eq!(party.public_inputs, vec![("pub".to_string(), vec![fe(9)])]);
        let names: Vec<&str> = party.shared_inputs.iter().map(|(k, _)| k.as_str()).collect();
        assert_eq!(names, vec!["a", "b"]);
    }
    assert_eq!(rep3::reconstruct::<Bn254>(&x.shared_inputs[0].1, &z.shared_inputs[0].1).unwrap(), vec![fe(1), fe(2)]);
    assert_eq!(rep3::reconstruct::<Bn254>(&y.shared_inputs[1].1, &z.shared_inputs[1].1).unwrap(), vec![fe(3)]);
    let merged = x.merge(co_circom::container::SharedInput::new()).ok().unwrap();
    assert_eq!(merged.shared_inputs.len(), 2);
}

#[test]
fn session_hands_out_randomness_once() {
    let mut s = ShamirSession::new(1, 3, 0, vec![fe(1), fe(2), fe(3)]).ok().unwrap();
    assert_eq!(s.take(2).unwrap(), vec![fe(1), fe(2)]);
    assert_eq!(s.take(2).unwrap_err(), ShareError::RandomnessExhausted);
    assert_eq!(s.take(1).unwrap(), vec![fe(3)]);
    assert_eq!(s.take(1).unwrap_err(), ShareError::RandomnessExhausted);
    assert_eq!(s.take(0).unwrap(), vec![]);
    assert_eq!(ShamirSession::new(0, 3, 0, vec![]).err(), Some(ShareError::ShamirThreshold));
    assert_eq!(ShamirSession::new(1, 3, 3, vec![]).err(), Some(ShareError::MismatchedShares));
}

#[test]
fn translation_with_session_randomness() {
    let secrets = vec![fe(100), fe(200)];
    let (a, b, c) = rep3::split::<Bn254>(&secrets, Component::Seed([5; 32]), Component::Seed([6; 32]), true);
    let mut subs = Vec::new();
    for (party, share) in [a, b, c].iter().enumerate() {
        let mut session = ShamirSession::new(1, 3, party, vec![fe(11 + party as u64), fe(21 + party as u64)]).ok().unwrap();
        let own = co_circom::translate::additive_component::<Bn254>(share);
        subs.push(co_circom::translate::reshare_from_session::<Bn254>(&mut session, &own).unwrap());
        // the randomness is used up now
        assert_eq!(co_circom::translate::reshare_from_session::<Bn254>(&mut session, &own).unwrap_err(), ShareError::RandomnessExhausted);
    }
    let shares: Vec<ShamirShare> = (0..3).map(|j| combine::<Bn254>(&subs[0][j], &subs[1][j], &subs[2][j]).unwrap()).collect();
    assert_eq!(shamir::reconstruct::<Bn254>(&shares[..2].to_vec(), 1).unwrap(), secrets);
    // the linear coefficients add up: 11 + 12 + 13 = 36, so party 1 holds 100 + 36
    assert_eq!(shares[0].values[0], fe(136));
}

#[test]
fn rep3_share_file_round_trip() {
    let secrets = vec![fe(3), fe(4)];
    let (a, b, c) = rep3::split::<Bn254>(&secrets, Component::Seed([7; 32]), Component::Values(vec![fe(1), fe(2)]), false);
    for share in [a, b, c] {
        let w = SharedWitness { public_inputs: vec![fe(1), fe(5)], witness: share };
        let bytes = co_circom::codec::encode_rep3_witness(&w);
        let back = co_circom::codec::decode_rep3_witness(&bytes).unwrap();
        assert_eq!(back.public_inputs, w.public_inputs);
        assert_eq!(back.witness.party, w.witness.party);
        assert_eq!(back.witness.len, w.witness.len);
        assert_eq!(format!("{:?}", back.witness.own), format!("{:?}", w.witness.own));
        assert_eq!(format!("{:?}", back.witness.next), format!("{:?}", w.witness.next));
        assert!(co_circom::codec::decode_rep3_witness(&bytes[..bytes.len() - 1].to_vec()).is_none());
    }
    let (x, _, _) = rep3::split::<Bn254>(&secrets, Component::Seed([7; 32]), Component::Seed([8; 32]), true);
    let w = SharedWitness { public_inputs: vec![], witness: x };
    let bytes = co_circom::codec::encode_rep3_witness(&w);
    // empty public part, party, length, seed tag and seed, no second component
    assert_eq!(bytes.len(), 8 + 8 + 8 + 1 + 32 + 1);
    let back = co_circom::codec::decode_rep3_witness(&bytes).unwrap();
    assert!(back.witness.next.is_none());
    let mut bad = bytes.clone();
    bad[24] = 2;
    assert!(co_circom::codec::decode_rep3_witness(&bad).is_none());
}
