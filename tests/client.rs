use mint_client::amount::{Amount, Coins, Keys};
use mint_client::client::{ClientConfig, MintClient};
use mint_client::gateway::{choose_mint, random_order, Broadcast, BroadcastStep};
use mint_client::issuance::{
    AggregatePublicKey, BlindedMessage, BlindingKey, ClientError, Coin, CoinFinalizationError,
    CoinRequest, SecKey, Signature, SpendableCoin,
};
use mint_client::keys::{CoinKey, CoinNonce, IssuanceKey, TransactionId};
use mint_client::store::{BatchItem, MemDb, Record};
use rand::SeedableRng;

fn rng(seed: u64) -> rand::rngs::StdRng {
    rand::rngs::StdRng::seed_from_u64(seed)
}

/// Runs a broadcast where mint `i` accepts when `accepts[i]`; returns the outcome and the mints contacted.
fn run(accepts: &[bool], quorum: usize, order: Vec<usize>) -> (Result<(), ClientError>, Vec<usize>) {
    let mut b = Broadcast::new(order, quorum);
    let mut contacted = Vec::new();
    loop {
        match b.next_step() {
            BroadcastStep::Send(i) => {
                contacted.push(i);
                b.record(accepts[i]);
            }
            BroadcastStep::Done(r) => return (r, contacted),
        }
    }
}

#[test]
fn broadcast_stops_at_quorum() {
    let accepts = [true, false, true, false, true];
    let (r, contacted) = run(&accepts, 2, vec![0, 1, 2, 3, 4]);
    assert!(r.is_ok());
    assert_eq!(contacted, vec![0, 1, 2]);
    for seed in 0..20 {
        let order = random_order(5, &mut rng(seed));
        let (r, contacted) = run(&accepts, 2, order.clone());
        assert!(r.is_ok());
        let accepted = contacted.iter().filter(|i| accepts[**i]).count();
        assert_eq!(accepted, 2);
        assert!(accepts[*contacted.last().unwrap()]);
        assert!(contacted.len() <= 4);
    }
}

#[test]
fn broadcast_all_fail() {
    let (r, contacted) = run(&[false; 5], 2, random_order(5, &mut rng(3)));
    assert!(matches!(r, Err(ClientError::MintError)));
    assert_eq!(contacted.len(), 5);
}

#[test]
fn broadcast_one_acceptance_is_success() {
    let (r, contacted) = run(&[false, false, true], 2, vec![0, 1, 2]);
    assert!(r.is_ok());
    assert_eq!(contacted.len(), 3);
    let (r, contacted) = run(&[], 2, vec![]);
    assert!(matches!(r, Err(ClientError::MintError)));
    assert!(contacted.is_empty());
}

#[test]
fn random_order_is_permutation() {
    for seed in 0..10 {
        let mut order = random_order(7, &mut rng(seed));
        order.sort();
        assert_eq!(order, (0..7).collect::<Vec<_>>());
    }
    assert!(random_order(0, &mut rng(1)).is_empty());
}

#[test]
fn choose_mint_in_range() {
    assert!(matches!(choose_mint(0, &mut rng(1)), Err(ClientError::MintError)));
    for seed in 0..10 {
        assert!(choose_mint(3, &mut rng(seed)).unwrap() < 3);
    }
}

fn config() -> ClientConfig {
    let mut mint_pk = Keys::new();
    mint_pk.insert(Amount { milli_sat: 1 }, AggregatePublicKey { bytes: vec![1] });
    mint_pk.insert(Amount { milli_sat: 2 }, AggregatePublicKey { bytes: vec![2] });
    ClientConfig { mints: (0..5).map(|i| format!("http://mint{}", i)).collect(), mint_pk, quorum: 2 }
}

fn material(n: usize, salt: u8) -> Vec<(CoinRequest, BlindedMessage)> {
    (0..n)
        .map(|i| {
            let req = CoinRequest::new(
                SecKey { bytes: vec![salt, i as u8, 1] },
                CoinNonce { bytes: vec![salt, i as u8, 2] },
                BlindingKey { bytes: vec![salt, i as u8, 3] },
            );
            (req, BlindedMessage { bytes: vec![salt, i as u8, 4] })
        })
        .collect()
}

fn spendable(tier: u64, salt: u8) -> (Amount, SpendableCoin) {
    let coin = Coin(CoinNonce { bytes: vec![salt, 2] }, Signature { bytes: vec![salt, 5] });
    (Amount { milli_sat: tier }, SpendableCoin { coin, spend_key: SecKey { bytes: vec![salt, 1] } })
}

fn coins_of(items: Vec<(Amount, SpendableCoin)>) -> Coins<SpendableCoin> {
    let mut c = Coins::new();
    for (a, x) in items {
        c.insert(a, x);
    }
    c
}

fn client_with_two_pending() -> (MintClient, TransactionId, TransactionId) {
    let mut client = MintClient::new(config(), MemDb::new());
    let (id1, _, _) = client.peg_in(Amount { milli_sat: 3 }, material(2, 1), &mut rng(1)).unwrap();
    let (id2, _, _) = client.peg_in(Amount { milli_sat: 2 }, material(1, 2), &mut rng(2)).unwrap();
    (client, id1, id2)
}

#[test]
fn peg_in_records_pending_first() {
    let mut client = MintClient::new(config(), MemDb::new());
    let (id, sign, plan) = client.peg_in(Amount { milli_sat: 3 }, material(2, 1), &mut rng(9)).unwrap();
    assert_eq!(sign.0.coin_count(), 2);
    assert_eq!(id.to_vec(), sign.id().to_vec());
    assert_eq!(plan.contacted_so_far(), 0);
    let ids = client.pending_ids();
    assert_eq!(ids.len(), 1);
    assert_eq!(ids[0].to_vec(), id.to_vec());
    let req = client.pending_request(&id).unwrap();
    assert_eq!(req.coin_count(), 2);
    assert!(req.coins.structural_eq(&sign.0));
    assert!(matches!(plan.next_step(), BroadcastStep::Send(i) if i < 5));
}

#[test]
fn fetch_commits_all_redeemed() {
    let (mut client, id1, id2) = client_with_two_pending();
    let results = vec![
        Ok((id1.clone(), coins_of(vec![spendable(1, 10), spendable(2, 11)]))),
        Ok((id2.clone(), coins_of(vec![spendable(2, 12)]))),
    ];
    let ids = client.fetch_all(results).unwrap();
    assert_eq!(ids.iter().map(|i| i.to_vec()).collect::<Vec<_>>(), vec![id1.to_vec(), id2.to_vec()]);
    assert!(client.pending_ids().is_empty());
    assert!(client.pending_request(&id1).is_none());
    let owned = client.coins();
    let tiers: Vec<u64> = owned.items.iter().map(|(a, _)| a.milli_sat).collect();
    assert_eq!(tiers, vec![1, 2, 2]);
    let mut nonces: Vec<Vec<u8>> = owned.items.iter().map(|(_, c)| c.coin.0.bytes.clone()).collect();
    nonces.sort();
    assert_eq!(nonces, vec![vec![10, 2], vec![11, 2], vec![12, 2]]);
}

#[test]
fn fetch_is_all_or_nothing() {
    let (mut client, id1, id2) = client_with_two_pending();
    let results = vec![
        Ok((id1.clone(), coins_of(vec![spendable(1, 10)]))),
        Err(ClientError::FinalizationError(CoinFinalizationError::InvalidSignature(0))),
    ];
    let r = client.fetch_all(results);
    assert!(matches!(r, Err(ClientError::FinalizationError(CoinFinalizationError::InvalidSignature(0)))));
    assert_eq!(client.pending_ids().len(), 2);
    assert!(client.pending_request(&id1).is_some());
    assert!(client.pending_request(&id2).is_some());
    assert_eq!(client.coins().coin_count(), 0);
}

#[test]
fn fetch_reports_first_error() {
    let (mut client, _, _) = client_with_two_pending();
    let results = vec![
        Err(ClientError::MintError),
        Err(ClientError::FinalizationError(CoinFinalizationError::WrongMintAnswer)),
    ];
    assert!(matches!(client.fetch_all(results), Err(ClientError::MintError)));
    assert_eq!(client.pending_ids().len(), 2);
}

#[test]
fn spend_removes_exactly_given_coins() {
    let (mut client, id1, id2) = client_with_two_pending();
    let results = vec![
        Ok((id1, coins_of(vec![spendable(1, 10), spendable(2, 11)]))),
        Ok((id2, coins_of(vec![spendable(2, 12)]))),
    ];
    client.fetch_all(results).unwrap();
    client.spend_coins(&coins_of(vec![spendable(2, 11)]));
    let owned = client.coins();
    let mut nonces: Vec<Vec<u8>> = owned.items.iter().map(|(_, c)| c.coin.0.bytes.clone()).collect();
    nonces.sort();
    assert_eq!(nonces, vec![vec![10, 2], vec![12, 2]]);
}

#[test]
fn store_batch_and_lookup() {
    let mut db = MemDb::new();
    let key = CoinKey { amount: Amount { milli_sat: 4 }, nonce: CoinNonce { bytes: vec![1] } }.to_bytes();
    let id = TransactionId::from_slice(&[3; 32]).unwrap();
    let pending = IssuanceKey { issuance_id: id }.to_bytes();
    db.apply_batch(vec![
        BatchItem::InsertNewElement(key.clone(), Record::Coin(spendable(4, 1).1)),
        BatchItem::InsertNewElement(pending.clone(), Record::Coin(spendable(4, 2).1)),
        BatchItem::DeleteElement(pending.clone()),
    ]);
    assert!(matches!(db.get(&key), Some(Record::Coin(c)) if c.coin.0.bytes == vec![1, 2]));
    assert!(db.get(&pending).is_none());
    assert_eq!(db.keys_with_prefix(0x20), vec![key.clone()]);
    assert!(db.keys_with_prefix(0x21).is_empty());
    db.delete(&key);
    assert!(db.get(&key).is_none());
}

#[test]
fn peg_in_unrepresentable_records_nothing() {
    let mut client = MintClient::new(config(), MemDb::new());
    let mut cfg = config();
    cfg.mint_pk = Keys::new();
    cfg.mint_pk.insert(Amount { milli_sat: 2 }, AggregatePublicKey { bytes: vec![2] });
    client.cfg = cfg;
    let r = client.peg_in(Amount { milli_sat: 3 }, material(1, 1), &mut rng(1));
    assert!(matches!(r, Err(ClientError::FinalizationError(CoinFinalizationError::InvalidAmountTier(a))) if a.milli_sat == 1));
    assert!(client.pending_ids().is_empty());
}

#[test]
fn broadcast_quorum_zero_counts_as_one() {
    let (r, contacted) = run(&[false, true, true], 0, vec![0, 1, 2]);
    assert!(r.is_ok());
    assert_eq!(contacted, vec![0, 1]);
    let (r, contacted) = run(&[false, false], 0, vec![1, 0]);
    assert!(matches!(r, Err(ClientError::MintError)));
    assert_eq!(contacted, vec![1, 0]);
}

#[test]
fn coins_lists_each_record_once() {
    let mut db = MemDb::new();
    let (a, c) = spendable(4, 7);
    let key = CoinKey { amount: a, nonce: c.coin.0.clone() }.to_bytes();
    db.insert(key.clone(), Record::Coin(c));
    db.insert(key, Record::Coin(spendable(4, 7).1));
    let stray = CoinKey { amount: Amount { milli_sat: 8 }, nonce: CoinNonce { bytes: vec![99] } }.to_bytes();
    db.insert(stray, Record::Coin(spendable(8, 8).1));
    let client = MintClient::new(config(), db);
    let owned = client.coins();
    assert_eq!(owned.coin_count(), 1);
    assert_eq!(owned.items[0].0.milli_sat, 4);
    assert_eq!(owned.items[0].1.coin.0.bytes, vec![7, 2]);
}
