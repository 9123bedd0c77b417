use vstd::prelude::*;
use crate::amount::{greedy, greedy_rest, sum_tiers, tiers_of, Amount, Coins, Keys};
use crate::gateway::{choose_mint, is_permutation, random_order, Broadcast};
use crate::issuance::{
    sha256_of, sign_request_bytes, AggregatePublicKey, BlindedMessage, ClientError,
    CoinFinalizationError, CoinRequest,
    IssuanceRequest, SignRequest, SpendableCoin,
};
use crate::keys::{
    coin_key_bytes, from_be, issuance_key_bytes, lemma_coin_key_round_trip, lemma_issuance_key_round_trip, CoinKey, IssuanceKey,
    TransactionId, DB_PREFIX_COIN, DB_PREFIX_ISSUANCE,
};
use crate::store::{
    collect_fetched, redeem_batch, redeem_effect, spend_batch, spend_effect, MemDb, Record,
};

verus! {

/// The federation as the client sees it.
pub struct ClientConfig {
    /// Base URLs of the mints.
    pub mints: Vec<String>,
    /// The federation's aggregate public key of each tier.
    pub mint_pk: Keys<AggregatePublicKey>,
    /// Number of acceptances after which a broadcast stops.
    pub quorum: usize,
}

/// The values of the successful results, in order.
pub open spec fn ok_values(results: Seq<Result<(TransactionId, Coins<SpendableCoin>), ClientError>>) -> Seq<
    (TransactionId, Coins<SpendableCoin>),
> {
    results.map_values(|x: Result<(TransactionId, Coins<SpendableCoin>), ClientError>| x->Ok_0)
}

/// The record key of a listed coin: its tier and its nonce.
pub open spec fn item_key(e: (Amount, SpendableCoin)) -> Seq<u8> {
    coin_key_bytes(e.0.milli_sat, e.1.coin.0.bytes@)
}

/// The key `k` names the coin stored under it: its amount bytes and nonce are the coin's.
pub open spec fn names_its_coin(store: Map<Seq<u8>, Record>, k: Seq<u8>) -> bool {
    exists|a: u64| k == coin_key_bytes(a, #[trigger] store[k]->Coin_0.coin.0.bytes@) && a == from_be(k.subrange(1, 9))
}

/// `k` is a coin key under which the store holds a coin.
pub open spec fn holds_coin(store: Map<Seq<u8>, Record>, k: Seq<u8>) -> bool {
    store.contains_key(k) && k.len() >= 9 && k[0] == DB_PREFIX_COIN && store[k] is Coin
}

/// A client of a federation of mints, with its store of pending issuances and owned coins.
pub struct MintClient {
    pub cfg: ClientConfig,
    pub db: MemDb,
}

impl MintClient {
    pub open spec fn wf(&self) -> bool {
        self.db.wf()
    }

    /// What the store holds.
    pub open spec fn store(&self) -> Map<Seq<u8>, Record> {
        self.db@
    }

    pub fn new(cfg: ClientConfig, db: MemDb) -> (r: MintClient)
        requires
            db.wf(),
        ensures
            r.wf(),
            r.cfg == cfg,
            r.store() == db@,
    {
        MintClient { cfg, db }
    }

    /// Starts a peg-in of `peg_in_proof`: builds the issuance from the decomposition of the
    /// amount and the given coin material, records it as pending under its identifier before
    /// any mint is contacted, and plans a broadcast over all mints in random order. The caller
    /// sends the signing request as the broadcast directs. When the tiers cannot make up the
    /// amount, nothing is recorded and the part they leave over is reported.
    pub fn peg_in(
        &mut self,
        peg_in_proof: Amount,
        material: Vec<(CoinRequest, BlindedMessage)>,
        rng: &mut rand::rngs::StdRng,
    ) -> (r: Result<(TransactionId, SignRequest, Broadcast), ClientError>)
        requires
            old(self).wf(),
            old(self).cfg.mint_pk.wf(),
            old(self).cfg.mints@.len() <= 0xffff_ffff,
            material@.len() == greedy(peg_in_proof.milli_sat as nat, old(self).cfg.mint_pk.entries@).len(),
        ensures
            final(self).wf(),
            final(self).cfg == old(self).cfg,
            r is Ok <==> greedy_rest(peg_in_proof.milli_sat as nat, old(self).cfg.mint_pk.entries@) == 0,
            r is Err ==> final(self).store() == old(self).store(),
            r matches Err(e) ==> (e matches ClientError::FinalizationError(CoinFinalizationError::InvalidAmountTier(a))
                && a.milli_sat == greedy_rest(peg_in_proof.milli_sat as nat, old(self).cfg.mint_pk.entries@)),
            r matches Ok(p) ==> {
                &&& p.0@ == sha256_of(sign_request_bytes(p.1.0.items@))
                &&& tiers_of(p.1.0.items@) == greedy(peg_in_proof.milli_sat as nat, old(self).cfg.mint_pk.entries@)
                &&& sum_tiers(tiers_of(p.1.0.items@)) == peg_in_proof.milli_sat
                &&& forall|k: int| 0 <= k < p.1.0.items@.len() ==> old(self).cfg.mint_pk.has_tier(#[trigger] p.1.0.items@[k].0.milli_sat)
                &&& forall|i: int| 0 <= i < material@.len() ==> (#[trigger] p.1.0.items@[i]).1 == material@[i].1
                &&& final(self).store() == old(self).store().insert(
                    issuance_key_bytes(p.0@),
                    final(self).store()[issuance_key_bytes(p.0@)],
                )
                &&& final(self).store()[issuance_key_bytes(p.0@)] is Issuance
                &&& final(self).store()[issuance_key_bytes(p.0@)]->Issuance_0.coins.same_shape(&p.1.0)
                &&& forall|i: int| 0 <= i < material@.len() ==> (#[trigger] final(self).store()[issuance_key_bytes(
                    p.0@,
                )]->Issuance_0.coins.items@[i]).1 == material@[i].0
                &&& p.2.wf()
                &&& is_permutation(p.2.order(), old(self).cfg.mints@.len())
                &&& p.2.quorum() == if old(self).cfg.quorum == 0 { 1 } else { old(self).cfg.quorum as nat }
                &&& p.2.contacted() == 0
                &&& p.2.successes() == 0
            },
    {
        let ghost mat = material@;
        let (issuance_request, sig_req) = match IssuanceRequest::new(peg_in_proof, &self.cfg.mint_pk, material) {
            Ok(p) => p,
            Err(e) => return Err(ClientError::FinalizationError(CoinFinalizationError::InvalidAmountTier(e.0))),
        };
        let req_id = sig_req.id();
        let key = IssuanceKey { issuance_id: req_id.clone() }.to_bytes();
        let ghost req = issuance_request;
        self.db.insert(key, Record::Issuance(issuance_request));
        let order = random_order(self.cfg.mints.len(), rng);
        let plan = Broadcast::new(order, self.cfg.quorum);
        assert forall|i: int| 0 <= i < mat.len() implies (#[trigger] sig_req.0.items@[i]).1 == mat[i].1 by {
            assert(req.coins.items@[i].1 == mat[i].0);
        }
        assert forall|k: int| 0 <= k < sig_req.0.items@.len() implies self.cfg.mint_pk.has_tier(#[trigger] sig_req.0.items@[k].0.milli_sat) by {
            assert(tiers_of(req.coins.items@)[k] == tiers_of(sig_req.0.items@)[k]);
            assert(self.cfg.mint_pk.has_tier(req.coins.items@[k].0.milli_sat));
        }
        assert(self.store() == old(self).store().insert(issuance_key_bytes(req_id@), Record::Issuance(req)));
        assert(req.coins.same_shape(&sig_req.0));
        Ok((req_id, sig_req, plan))
    }

    /// The mint to ask for the signatures of every pending issuance, chosen at random.
    pub fn choose_fetch_mint(&self, rng: &mut rand::rngs::StdRng) -> (r: Result<usize, ClientError>)
        ensures
            self.cfg.mints@.len() == 0 <==> r matches Err(ClientError::MintError),
            r matches Ok(i) ==> i < self.cfg.mints@.len(),
    {
        choose_mint(self.cfg.mints.len(), rng)
    }

    /// The identifiers of all pending issuances, each once.
    pub fn pending_ids(&self) -> (r: Vec<TransactionId>)
        requires
            self.wf(),
        ensures
            forall|i: int| 0 <= i < r@.len() ==> self.store().contains_key(issuance_key_bytes((#[trigger] r@[i])@)),
            forall|id: Seq<u8>| id.len() == 32 && #[trigger] self.store().contains_key(issuance_key_bytes(id)) ==> exists|i: int|
                0 <= i < r@.len() && (#[trigger] r@[i])@ == id,
            forall|i: int, j: int| 0 <= i < j < r@.len() ==> (#[trigger] r@[i])@ != (#[trigger] r@[j])@,
    {
        let keys = self.db.keys_with_prefix(DB_PREFIX_ISSUANCE);
        let mut ids: Vec<TransactionId> = Vec::new();
        let ghost mut src: Seq<int> = Seq::empty();
        let mut i: usize = 0;
        while i < keys.len()
            invariant
                self.wf(),
                i <= keys@.len(),
                forall|j: int| 0 <= j < keys@.len() ==> self.store().contains_key((#[trigger] keys@[j])@),
                forall|a: int, b: int| 0 <= a < b < keys@.len() ==> (#[trigger] keys@[a])@ != (#[trigger] keys@[b])@,
                forall|j: int| 0 <= j < keys@.len() ==> (#[trigger] keys@[j])@.len() > 0 && keys@[j]@[0] == DB_PREFIX_ISSUANCE,
                src.len() == ids@.len(),
                forall|j: int| 0 <= j < ids@.len() ==> 0 <= #[trigger] src[j] < i && issuance_key_bytes(ids@[j]@) == keys@[src[j]]@,
                forall|a: int, b: int| 0 <= a < b < src.len() ==> #[trigger] src[a] < #[trigger] src[b],
                forall|m: int| 0 <= m < i && (#[trigger] keys@[m])@.len() == 33 ==> exists|j: int|
                    0 <= j < src.len() && #[trigger] src[j] == m,
            decreases keys@.len() - i,
        {
            match IssuanceKey::from_bytes(keys[i].as_slice()) {
                Ok(k) => {
                    ids.push(k.issuance_id);
                    proof {
                        let old_src = src;
                        src = src.push(i as int);
                        assert forall|m: int| 0 <= m < i + 1 && (#[trigger] keys@[m])@.len() == 33 implies exists|j: int|
                            0 <= j < src.len() && #[trigger] src[j] == m by {
                            if m < i {
                                let j = choose|j: int| 0 <= j < old_src.len() && #[trigger] old_src[j] == m;
                                assert(src[j] == m);
                            } else {
                                assert(src[old_src.len() as int] == m);
                            }
                        }
                    }
                },
                Err(_) => {
                    assert(keys@[i as int]@.len() != 33);
                },
            }
            i = i + 1;
        }
        proof {
            assert forall|a: int, b: int| 0 <= a < b < ids@.len() implies (#[trigger] ids@[a])@ != (#[trigger] ids@[b])@ by {
                assert(src[a] < src[b]);
                assert(keys@[src[a]]@ != keys@[src[b]]@);
            }
            assert forall|id: Seq<u8>| id.len() == 32 && #[trigger] self.store().contains_key(issuance_key_bytes(id)) implies exists|i: int|
                0 <= i < ids@.len() && (#[trigger] ids@[i])@ == id by {
                lemma_issuance_key_round_trip(id, id);
                let k = issuance_key_bytes(id);
                let m = choose|m: int| 0 <= m < keys@.len() && (#[trigger] keys@[m])@ == k;
                assert(keys@[m]@.len() == 33);
                let j = choose|j: int| 0 <= j < src.len() && #[trigger] src[j] == m;
                lemma_issuance_key_round_trip(id, ids@[j]@);
            }
            assert forall|j: int| 0 <= j < ids@.len() implies self.store().contains_key(issuance_key_bytes((#[trigger] ids@[j])@)) by {
                assert(0 <= src[j] < keys@.len());
            }
        }
        ids
    }

    /// The pending issuance recorded under `id`.
    pub fn pending_request(&self, id: &TransactionId) -> (r: Option<&IssuanceRequest>)
        requires
            self.wf(),
        ensures
            r matches Some(req) ==> self.store().contains_key(issuance_key_bytes(id@)) && self.store()[issuance_key_bytes(id@)]
                == Record::Issuance(*req),
            r is None ==> !self.store().contains_key(issuance_key_bytes(id@)) || !(self.store()[issuance_key_bytes(
                id@,
            )] is Issuance),
    {
        let key = IssuanceKey { issuance_id: id.clone() }.to_bytes();
        match self.db.get(&key) {
            Some(Record::Issuance(req)) => Some(req),
            _ => None,
        }
    }

    /// Commits the outcome of querying one mint for every pending issuance, all or nothing:
    /// when every query and finalization succeeded, one batch installs all the new coins and
    /// deletes the pending records, and the redeemed identifiers come back in order; when any
    /// failed, the first error comes back and the store is left as it was.
    pub fn fetch_all(&mut self, results: Vec<Result<(TransactionId, Coins<SpendableCoin>), ClientError>>) -> (r: Result<
        Vec<TransactionId>,
        ClientError,
    >)
        requires
            old(self).wf(),
        ensures
            final(self).wf(),
            final(self).cfg == old(self).cfg,
            r is Ok <==> forall|i: int| 0 <= i < results@.len() ==> (#[trigger] results@[i]) is Ok,
            r is Err ==> final(self).store() == old(self).store(),
            r matches Err(e) ==> exists|k: int|
                0 <= k < results@.len() && (forall|j: int| 0 <= j < k ==> (#[trigger] results@[j]) is Ok)
                    && #[trigger] results@[k] == Err::<(TransactionId, Coins<SpendableCoin>), ClientError>(e),
            r matches Ok(ids) ==> {
                &&& final(self).store() == redeem_effect(old(self).store(), ok_values(results@))
                &&& ids@.len() == results@.len()
                &&& forall|i: int| 0 <= i < ids@.len() ==> (#[trigger] ids@[i])@ == results@[i]->Ok_0.0@
            },
    {
        let ghost orig = results@;
        match collect_fetched(results) {
            Err(e) => Err(e),
            Ok(fetched) => {
                proof {
                    assert(fetched@ =~= ok_values(orig));
                }
                let (ids, batch) = redeem_batch(fetched);
                self.db.apply_batch(batch);
                Ok(ids)
            },
        }
    }

    /// Every owned coin, grouped by tier, each once: the coin of every record whose key names
    /// its tier and nonce.
    pub fn coins(&self) -> (r: Coins<SpendableCoin>)
        requires
            self.wf(),
        ensures
            r.wf(),
            forall|i: int| 0 <= i < r.items@.len() ==> holds_coin(self.store(), item_key(#[trigger] r.items@[i]))
                && self.store()[item_key(r.items@[i])]->Coin_0.same_bytes(&r.items@[i].1),
            forall|i: int, j: int| 0 <= i < j < r.items@.len() ==> item_key(#[trigger] r.items@[i]) != item_key(#[trigger] r.items@[j]),
            forall|k: Seq<u8>| #[trigger] holds_coin(self.store(), k) && names_its_coin(self.store(), k) ==> exists|i: int|
                0 <= i < r.items@.len() && item_key(#[trigger] r.items@[i]) == k,
    {
        let keys = self.db.keys_with_prefix(DB_PREFIX_COIN);
        let mut out: Coins<SpendableCoin> = Coins::new();
        let ghost mut seen: Set<Seq<u8>> = Set::empty();
        let mut i: usize = 0;
        while i < keys.len()
            invariant
                self.wf(),
                out.wf(),
                i <= keys@.len(),
                forall|j: int| 0 <= j < keys@.len() ==> self.store().contains_key((#[trigger] keys@[j])@),
                forall|j: int| 0 <= j < keys@.len() ==> (#[trigger] keys@[j])@.len() > 0 && keys@[j]@[0] == DB_PREFIX_COIN,
                forall|a: int, b: int| 0 <= a < b < keys@.len() ==> (#[trigger] keys@[a])@ != (#[trigger] keys@[b])@,
                forall|k: Seq<u8>| #[trigger] holds_coin(self.store(), k) ==> exists|m: int| 0 <= m < keys@.len() && (#[trigger] keys@[m])@ == k,
                forall|j: int| 0 <= j < out.items@.len() ==> holds_coin(self.store(), item_key(#[trigger] out.items@[j]))
                    && self.store()[item_key(out.items@[j])]->Coin_0.same_bytes(&out.items@[j].1)
                    && seen.contains(item_key(out.items@[j])),
                forall|m: int| i <= m < keys@.len() ==> !seen.contains((#[trigger] keys@[m])@),
                forall|a: int, b: int| 0 <= a < b < out.items@.len() ==> item_key(#[trigger] out.items@[a]) != item_key(#[trigger] out.items@[b]),
                forall|m: int| 0 <= m < i && #[trigger] holds_coin(self.store(), keys@[m]@) && names_its_coin(self.store(), keys@[m]@)
                    ==> exists|j: int| 0 <= j < out.items@.len() && item_key(#[trigger] out.items@[j]) == keys@[m]@,
            decreases keys@.len() - i,
        {
            let ghost k = keys@[i as int]@;
            let mut listed_here = false;
            match CoinKey::from_bytes(keys[i].as_slice()) {
                Ok(key) => {
                    match self.db.get(&keys[i]) {
                        Some(Record::Coin(c)) => {
                            if crate::store::bytes_eq(&key.nonce.bytes, &c.coin.0.bytes) {
                                let ghost stored = *c;
                                let ghost before = out.items@;
                                let coin = c.clone();
                                let ghost added = coin;
                                out.insert(key.amount, coin);
                                listed_here = true;
                                proof {
                                    assert(item_key((key.amount, added)) == k);
                                    let p = choose|p: int|
                                        0 <= p <= before.len() && out.items@ == before.insert(p, (key.amount, added))
                                        && (forall|q: int| 0 <= q < p ==> #[trigger] before[q].0.milli_sat <= key.amount.milli_sat)
                                        && (forall|q: int| p <= q < before.len() ==> #[trigger] before[q].0.milli_sat > key.amount.milli_sat);
                                    let old_seen = seen;
                                    seen = seen.insert(k);
                                    assert(!old_seen.contains(k));
                                    assert forall|j: int| 0 <= j < out.items@.len() implies holds_coin(self.store(), item_key(#[trigger] out.items@[j]))
                                        && self.store()[item_key(out.items@[j])]->Coin_0.same_bytes(&out.items@[j].1)
                                        && seen.contains(item_key(out.items@[j])) by {
                                        if j < p {
                                            assert(out.items@[j] == before[j]);
                                        } else if j > p {
                                            assert(out.items@[j] == before[j - 1]);
                                        } else {
                                            assert(out.items@[j] == (key.amount, added));
                                            assert(self.store()[k] == Record::Coin(stored));
                                        }
                                    }
                                    assert forall|m: int| i + 1 <= m < keys@.len() implies !seen.contains((#[trigger] keys@[m])@) by {
                                        assert(keys@[m]@ != keys@[i as int]@);
                                    }
                                    assert forall|a: int, b: int| 0 <= a < b < out.items@.len() implies item_key(#[trigger] out.items@[a]) != item_key(#[trigger] out.items@[b]) by {
                                        let oa = if a < p { a } else { a - 1 };
                                        let ob = if b < p { b } else { b - 1 };
                                        if a == p {
                                            assert(out.items@[b] == before[ob]);
                                            assert(old_seen.contains(item_key(before[ob])));
                                        } else if b == p {
                                            assert(out.items@[a] == before[oa]);
                                            assert(old_seen.contains(item_key(before[oa])));
                                        } else {
                                            assert(out.items@[a] == before[oa]);
                                            assert(out.items@[b] == before[ob]);
                                        }
                                    }
                                    assert forall|m: int| 0 <= m < i + 1 && #[trigger] holds_coin(self.store(), keys@[m]@) && names_its_coin(self.store(), keys@[m]@)
                                        implies exists|j: int| 0 <= j < out.items@.len() && item_key(#[trigger] out.items@[j]) == keys@[m]@ by {
                                        if m < i {
                                            let j = choose|j: int| 0 <= j < before.len() && item_key(#[trigger] before[j]) == keys@[m]@;
                                            if j < p {
                                                assert(out.items@[j] == before[j]);
                                            } else {
                                                assert(out.items@[j + 1] == before[j]);
                                            }
                                        } else {
                                            assert(item_key(out.items@[p]) == keys@[m]@);
                                        }
                                    }
                                }
                            }
                        },
                        _ => {},
                    }
                },
                Err(_) => {},
            }
            proof {
                if !listed_here {
                    assert(!(holds_coin(self.store(), k) && names_its_coin(self.store(), k))) by {
                        if holds_coin(self.store(), k) && names_its_coin(self.store(), k) {
                            lemma_coin_key_round_trip(from_be(k.subrange(1, 9)) as u64, self.store()[k]->Coin_0.coin.0.bytes@);
                        }
                    }
                    assert forall|m: int| i + 1 <= m < keys@.len() implies !seen.contains((#[trigger] keys@[m])@) by {
                        assert(m > i);
                    }
                }
            }
            i = i + 1;
        }
        assert forall|k: Seq<u8>| #[trigger] holds_coin(self.store(), k) && names_its_coin(self.store(), k) implies exists|i: int|
            0 <= i < out.items@.len() && item_key(#[trigger] out.items@[i]) == k by {
            let m = choose|m: int| 0 <= m < keys@.len() && (#[trigger] keys@[m])@ == k;
            assert(holds_coin(self.store(), keys@[m]@));
        }
        out
    }

    /// Deletes the given coins from the store, as one batch.
    pub fn spend_coins(&mut self, coins: &Coins<SpendableCoin>)
        requires
            old(self).wf(),
        ensures
            final(self).wf(),
            final(self).cfg == old(self).cfg,
            final(self).store() == spend_effect(old(self).store(), coins.items@),
    {
        let batch = spend_batch(coins);
        self.db.apply_batch(batch);
    }
}

} // verus!
