use mint_client::amount::Amount;
use mint_client::keys::{
    CoinKey, CoinKeyPrefix, CoinNonce, DecodingError, IssuanceKey, IssuanceKeyPrefix, TransactionId,
};

fn id(fill: u8) -> TransactionId {
    TransactionId::from_slice(&[fill; 32]).unwrap()
}

#[test]
fn issuance_key_layout() {
    let bytes = IssuanceKey { issuance_id: id(7) }.to_bytes();
    assert_eq!(bytes.len(), 33);
    assert_eq!(bytes[0], 0x21);
    assert!(bytes[1..].iter().all(|b| *b == 7));
}

#[test]
fn issuance_key_round_trip() {
    let mut raw = [0u8; 32];
    for (i, b) in raw.iter_mut().enumerate() {
        *b = i as u8 * 3;
    }
    let key = IssuanceKey { issuance_id: TransactionId::from_slice(&raw).unwrap() };
    let decoded = IssuanceKey::from_bytes(&key.to_bytes()).unwrap();
    assert_eq!(decoded.issuance_id.to_vec(), raw.to_vec());
}

#[test]
fn issuance_key_wrong_length() {
    assert_eq!(IssuanceKey::from_bytes(&[0x21; 32]).err(), Some(DecodingError::WrongLength));
    assert_eq!(IssuanceKey::from_bytes(&[0x21; 34]).err(), Some(DecodingError::WrongLength));
    assert_eq!(IssuanceKey::from_bytes(&[]).err(), Some(DecodingError::WrongLength));
}

#[test]
fn issuance_key_wrong_prefix() {
    let mut bytes = vec![0u8; 33];
    bytes[0] = 0x20;
    assert_eq!(IssuanceKey::from_bytes(&bytes).err(), Some(DecodingError::WrongPrefix));
}

#[test]
fn coin_key_layout() {
    let key = CoinKey { amount: Amount { milli_sat: 0x0102030405060708 }, nonce: CoinNonce { bytes: vec![9, 9] } };
    assert_eq!(key.to_bytes(), vec![0x20, 1, 2, 3, 4, 5, 6, 7, 8, 9, 9]);
}

#[test]
fn coin_key_round_trip() {
    for (amount, nonce) in [(0u64, vec![]), (1000, vec![1, 2, 3]), (u64::MAX, vec![0xff; 33])] {
        let key = CoinKey { amount: Amount { milli_sat: amount }, nonce: CoinNonce { bytes: nonce.clone() } };
        let decoded = CoinKey::from_bytes(&key.to_bytes()).unwrap();
        assert_eq!(decoded.amount.milli_sat, amount);
        assert_eq!(decoded.nonce.bytes, nonce);
    }
}

#[test]
fn coin_key_errors() {
    assert_eq!(CoinKey::from_bytes(&[0x20; 8]).err(), Some(DecodingError::WrongLength));
    assert_eq!(CoinKey::from_bytes(&[0x21; 9]).err(), Some(DecodingError::WrongPrefix));
    assert!(CoinKey::from_bytes(&[0x20; 9]).is_ok());
}

#[test]
fn coin_keys_sort_by_amount() {
    let small = CoinKey { amount: Amount { milli_sat: 255 }, nonce: CoinNonce { bytes: vec![0xff; 4] } };
    let large = CoinKey { amount: Amount { milli_sat: 256 }, nonce: CoinNonce { bytes: vec![0] } };
    assert!(small.to_bytes() < large.to_bytes());
    let a = CoinKey { amount: Amount { milli_sat: 1 << 40 }, nonce: CoinNonce { bytes: vec![] } };
    let b = CoinKey { amount: Amount { milli_sat: (1 << 40) + 1 }, nonce: CoinNonce { bytes: vec![] } };
    assert!(a.to_bytes() < b.to_bytes());
}

#[test]
fn prefixes() {
    assert_eq!(IssuanceKeyPrefix.to_bytes(), vec![0x21]);
    assert_eq!(CoinKeyPrefix.to_bytes(), vec![0x20]);
}

#[test]
fn transaction_id_length() {
    assert_eq!(TransactionId::from_slice(&[1; 31]).err(), Some(DecodingError::WrongLength));
    assert_eq!(id(4).to_vec(), vec![4; 32]);
}
