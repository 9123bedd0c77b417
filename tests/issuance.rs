use mint_client::amount::{Amount, Coins, Keys};
use mint_client::issuance::{
    AggregatePublicKey, BlindSignature, BlindedMessage, BlindingKey, CoinFinalizationError,
    CoinRequest, IssuanceRequest, SecKey, SigResponse, Signature, SignRequest, UnblindedSig,
};
use mint_client::keys::CoinNonce;

fn tiers(values: &[u64]) -> Keys<()> {
    let mut keys = Keys::new();
    for v in values {
        assert!(keys.insert(Amount { milli_sat: *v }, ()));
    }
    keys
}

fn pub_keys(values: &[u64]) -> Keys<AggregatePublicKey> {
    let mut keys = Keys::new();
    for v in values {
        assert!(keys.insert(Amount { milli_sat: *v }, AggregatePublicKey { bytes: vec![*v as u8] }));
    }
    keys
}

fn material(n: usize) -> Vec<(CoinRequest, BlindedMessage)> {
    (0..n)
        .map(|i| {
            let req = CoinRequest::new(
                SecKey { bytes: vec![i as u8, 1] },
                CoinNonce { bytes: vec![i as u8, 2] },
                BlindingKey { bytes: vec![i as u8, 3] },
            );
            (req, BlindedMessage { bytes: vec![i as u8, 4] })
        })
        .collect()
}

fn tiers_of<T>(c: &Coins<T>) -> Vec<u64> {
    c.items.iter().map(|(a, _)| a.milli_sat).collect()
}

fn response(shape: &[u64]) -> SigResponse {
    let mut c = Coins::new();
    for (i, t) in shape.iter().enumerate() {
        c.insert(Amount { milli_sat: *t }, BlindSignature { bytes: vec![i as u8] });
    }
    SigResponse(c)
}

fn sigs(valid: &[bool]) -> Vec<UnblindedSig> {
    valid
        .iter()
        .enumerate()
        .map(|(i, v)| UnblindedSig { signature: Signature { bytes: vec![i as u8, 5] }, valid: *v })
        .collect()
}

/// Request of tiers {1: 2 items, 3: 1 item}.
fn request_a2_b1() -> (IssuanceRequest, SignRequest) {
    let keys = tiers(&[1, 3]);
    IssuanceRequest::new(Amount { milli_sat: 5 }, &keys, material(3)).unwrap()
}

#[test]
fn represent_amount_greedy() {
    let keys = tiers(&[1, 2, 5, 10]);
    let c = Coins::represent_amount(Amount { milli_sat: 28 }, &keys).unwrap();
    assert_eq!(tiers_of(&c), vec![1, 2, 5, 10, 10]);
    assert_eq!(c.coin_count(), 5);
}

#[test]
fn represent_amount_fails_on_remainder() {
    let keys = tiers(&[2, 5]);
    let err = Coins::represent_amount(Amount { milli_sat: 13 }, &keys).err().unwrap();
    assert_eq!(err.0.milli_sat, 1);
    let c = Coins::represent_amount(Amount { milli_sat: 12 }, &keys).unwrap();
    assert_eq!(tiers_of(&c), vec![2, 5, 5]);
    let empty = Coins::represent_amount(Amount { milli_sat: 0 }, &keys).unwrap();
    assert_eq!(empty.coin_count(), 0);
    let greedy_short = Coins::represent_amount(Amount { milli_sat: 6 }, &tiers(&[3, 4]));
    assert_eq!(greedy_short.err().unwrap().0.milli_sat, 2);
}

#[test]
fn represent_amount_powers_of_two_sum() {
    let keys = tiers(&[1, 2, 4, 8, 16]);
    for amount in 0..100u64 {
        let c = Coins::represent_amount(Amount { milli_sat: amount }, &keys).unwrap();
        assert_eq!(tiers_of(&c).iter().sum::<u64>(), amount);
    }
    let even = tiers(&[2, 4, 8]);
    assert!(Coins::represent_amount(Amount { milli_sat: 14 }, &even).is_ok());
    assert!(Coins::represent_amount(Amount { milli_sat: 15 }, &even).is_err());
}

#[test]
fn new_fails_on_unrepresentable_amount() {
    let r = IssuanceRequest::new(Amount { milli_sat: 7 }, &tiers(&[2, 4]), material(2));
    assert_eq!(r.err().unwrap().0.milli_sat, 1);
}

#[test]
fn keys_refuse_zero_tier_and_replace() {
    let mut keys: Keys<u8> = Keys::new();
    assert!(!keys.insert(Amount { milli_sat: 0 }, 1));
    assert!(keys.insert(Amount { milli_sat: 5 }, 1));
    assert!(keys.insert(Amount { milli_sat: 3 }, 2));
    assert!(keys.insert(Amount { milli_sat: 5 }, 3));
    assert_eq!(keys.entries.len(), 2);
    assert_eq!(*keys.tier(&Amount { milli_sat: 5 }).unwrap(), 3);
    assert_eq!(*keys.tier(&Amount { milli_sat: 3 }).unwrap(), 2);
    assert_eq!(keys.tier(&Amount { milli_sat: 4 }).err().unwrap().0.milli_sat, 4);
}

#[test]
fn coins_insert_keeps_tier_order() {
    let mut c = Coins::new();
    c.insert(Amount { milli_sat: 5 }, 'a');
    c.insert(Amount { milli_sat: 1 }, 'b');
    c.insert(Amount { milli_sat: 5 }, 'c');
    c.insert(Amount { milli_sat: 2 }, 'd');
    let items: Vec<(u64, char)> = c.items.iter().map(|(a, x)| (a.milli_sat, *x)).collect();
    assert_eq!(items, vec![(1, 'b'), (2, 'd'), (5, 'a'), (5, 'c')]);
}

#[test]
fn new_pairs_material_positionally() {
    let (req, sign) = request_a2_b1();
    assert_eq!(req.coin_count(), 3);
    assert_eq!(tiers_of(&req.coins), vec![1, 1, 3]);
    assert!(req.coins.structural_eq(&sign.0));
    for (i, ((_, r), (_, b))) in req.coins.items.iter().zip(sign.0.items.iter()).enumerate() {
        assert_eq!(r.nonce.bytes, vec![i as u8, 2]);
        assert_eq!(b.bytes, vec![i as u8, 4]);
    }
}

#[test]
fn structural_equality_shapes() {
    let (req, _) = request_a2_b1();
    assert!(req.coins.structural_eq(&response(&[1, 1, 3]).0));
    assert!(!req.coins.structural_eq(&response(&[1, 3]).0));
    assert!(!req.coins.structural_eq(&response(&[1, 3, 3]).0));
    assert!(!req.coins.structural_eq(&response(&[1, 1, 3, 3]).0));
    assert!(!req.coins.structural_eq(&response(&[1, 1, 2]).0));
}

#[test]
fn finalize_wrong_shape() {
    let (req, _) = request_a2_b1();
    let keys = pub_keys(&[1, 3]);
    for shape in [&[1u64, 3][..], &[1, 3, 3], &[3, 3, 3], &[1, 1, 2], &[]] {
        let r = req.finalize(&response(shape), &keys, &sigs(&vec![true; shape.len()]));
        assert!(matches!(r, Err(CoinFinalizationError::WrongMintAnswer)));
    }
    let r = req.finalize(&response(&[1, 1, 3]), &keys, &sigs(&[true, true]));
    assert!(matches!(r, Err(CoinFinalizationError::WrongMintAnswer)));
}

#[test]
fn finalize_success() {
    let (req, _) = request_a2_b1();
    let keys = pub_keys(&[1, 3]);
    let coins = req.finalize(&response(&[1, 1, 3]), &keys, &sigs(&[true, true, true])).unwrap();
    assert_eq!(tiers_of(&coins), vec![1, 1, 3]);
    for (i, (_, c)) in coins.items.iter().enumerate() {
        assert_eq!(c.coin.0.bytes, vec![i as u8, 2]);
        assert_eq!(c.coin.1.bytes, vec![i as u8, 5]);
        assert_eq!(c.spend_key.bytes, vec![i as u8, 1]);
    }
}

#[test]
fn finalize_fails_fast_at_each_position() {
    let (req, _) = request_a2_b1();
    let keys = pub_keys(&[1, 3]);
    for k in 0..3 {
        let mut valid = vec![true; 3];
        valid[k] = false;
        let r = req.finalize(&response(&[1, 1, 3]), &keys, &sigs(&valid));
        assert!(matches!(r, Err(CoinFinalizationError::InvalidSignature(i)) if i == k));
    }
    let r = req.finalize(&response(&[1, 1, 3]), &keys, &sigs(&[true, false, false]));
    assert!(matches!(r, Err(CoinFinalizationError::InvalidSignature(1))));
}

#[test]
fn finalize_missing_tier() {
    let (req, _) = request_a2_b1();
    let keys = pub_keys(&[1]);
    let r = req.finalize(&response(&[1, 1, 3]), &keys, &sigs(&[true, true, true]));
    assert!(matches!(r, Err(CoinFinalizationError::InvalidAmountTier(a)) if a.milli_sat == 3));
    let r = req.finalize(&response(&[1, 1, 3]), &keys, &sigs(&[true, false, true]));
    assert!(matches!(r, Err(CoinFinalizationError::InvalidSignature(1))));
}

#[test]
fn sign_request_id_is_sha256_of_its_bytes() {
    let (_, sign) = request_a2_b1();
    let bytes = sign.to_bytes();
    assert_eq!(bytes.len(), 3 * (8 + 8 + 2));
    assert_eq!(&bytes[..18], &[0, 0, 0, 0, 0, 0, 0, 1, 0, 0, 0, 0, 0, 0, 0, 2, 0, 4]);
    assert_eq!(&bytes[36..54], &[0, 0, 0, 0, 0, 0, 0, 3, 0, 0, 0, 0, 0, 0, 0, 2, 2, 4]);
    let expected = <bitcoin_hashes::sha256::Hash as bitcoin_hashes::Hash>::hash(&bytes);
    let id = sign.id().to_vec();
    assert_eq!(id.len(), 32);
    assert_eq!(id, bitcoin_hashes::Hash::into_inner(expected).to_vec());
    let (_, other) = IssuanceRequest::new(Amount { milli_sat: 3 }, &tiers(&[1, 3]), material(1)).unwrap();
    assert_ne!(other.id().to_vec(), id);
}

#[test]
fn keys_well_formedness() {
    assert!(tiers(&[1, 2, 5]).is_wf());
    assert!(Keys::<()>::new().is_wf());
    let unordered: Keys<()> = Keys { entries: vec![(Amount { milli_sat: 5 }, ()), (Amount { milli_sat: 2 }, ())] };
    assert!(!unordered.is_wf());
    let repeated: Keys<()> = Keys { entries: vec![(Amount { milli_sat: 2 }, ()), (Amount { milli_sat: 2 }, ())] };
    assert!(!repeated.is_wf());
    let zero: Keys<()> = Keys { entries: vec![(Amount { milli_sat: 0 }, ())] };
    assert!(!zero.is_wf());
}
