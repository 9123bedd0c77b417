use vstd::prelude::*;
use crate::amount::{tiers_of, greedy, greedy_rest, sum_tiers, Amount, Coins, InvalidAmountTierError, Keys};
use crate::keys::{be_bytes, CoinNonce, TransactionId};

verus! {

/// A secret key from which a coin's nonce is derived; its owner can spend the coin.
#[derive(Debug)]
pub struct SecKey {
    pub bytes: Vec<u8>,
}

impl Clone for SecKey {
    fn clone(&self) -> (r: SecKey)
        ensures
            r.bytes@ == self.bytes@,
    {
        SecKey { bytes: self.bytes.clone() }
    }
}

/// The secret that undoes the blinding of one message.
#[derive(Debug, Clone)]
pub struct BlindingKey {
    pub bytes: Vec<u8>,
}

/// A nonce in blinded form, as sent to the mints.
#[derive(Debug, Clone)]
pub struct BlindedMessage {
    pub bytes: Vec<u8>,
}

/// A mint's signature over a blinded message.
#[derive(Debug, Clone)]
pub struct BlindSignature {
    pub bytes: Vec<u8>,
}

/// A signature over a nonce, once unblinded.
#[derive(Debug)]
pub struct Signature {
    pub bytes: Vec<u8>,
}

impl Clone for Signature {
    fn clone(&self) -> (r: Signature)
        ensures
            r.bytes@ == self.bytes@,
    {
        Signature { bytes: self.bytes.clone() }
    }
}

/// The federation's aggregate public key of one tier.
#[derive(Debug, Clone)]
pub struct AggregatePublicKey {
    pub bytes: Vec<u8>,
}

/// A public coin: its nonce and the unblinded signature over it.
#[derive(Debug)]
pub struct Coin(pub CoinNonce, pub Signature);

impl Clone for Coin {
    fn clone(&self) -> (r: Coin)
        ensures
            r.0.bytes@ == self.0.bytes@,
            r.1.bytes@ == self.1.bytes@,
    {
        Coin(self.0.clone(), self.1.clone())
    }
}

/// A coin together with the key that spends it.
#[derive(Debug)]
pub struct SpendableCoin {
    pub coin: Coin,
    pub spend_key: SecKey,
}

impl SpendableCoin {
    /// The two coins hold the same bytes.
    pub open spec fn same_bytes(&self, other: &SpendableCoin) -> bool {
        &&& self.coin.0.bytes@ == other.coin.0.bytes@
        &&& self.coin.1.bytes@ == other.coin.1.bytes@
        &&& self.spend_key.bytes@ == other.spend_key.bytes@
    }
}

impl Clone for SpendableCoin {
    fn clone(&self) -> (r: SpendableCoin)
        ensures
            r.same_bytes(self),
    {
        SpendableCoin { coin: self.coin.clone(), spend_key: self.spend_key.clone() }
    }
}

/// What the client keeps of one coin while it waits for its signature.
#[derive(Debug, Clone)]
pub struct CoinRequest {
    /// Spend key from which the nonce is derived.
    pub spend_key: SecKey,
    /// Nonce belonging to the spend key.
    pub nonce: CoinNonce,
    /// Key that unblinds the mint's signature on this coin.
    pub blinding_key: BlindingKey,
}

impl CoinRequest {
    pub fn new(spend_key: SecKey, nonce: CoinNonce, blinding_key: BlindingKey) -> (r: CoinRequest)
        ensures
            r == (CoinRequest { spend_key, nonce, blinding_key }),
    {
        CoinRequest { spend_key, nonce, blinding_key }
    }
}

/// The blinded nonces of one issuance, as sent to the mints.
#[derive(Debug)]
pub struct SignRequest(pub Coins<BlindedMessage>);

/// A mint's blind signatures, one for each blinded nonce of a request.
#[derive(Debug)]
pub struct SigResponse(pub Coins<BlindSignature>);

/// The outcome of unblinding one blind signature and checking it against its tier's key.
#[derive(Debug)]
pub struct UnblindedSig {
    pub signature: Signature,
    pub valid: bool,
}

/// What the client keeps of one issuance until the signatures arrive.
#[derive(Debug)]
pub struct IssuanceRequest {
    pub coins: Coins<CoinRequest>,
}

#[derive(Debug)]
pub enum CoinFinalizationError {
    /// The answer does not fit the request.
    WrongMintAnswer,
    /// The signature at this position is invalid.
    InvalidSignature(usize),
    /// Signatures for another issuance than the one expected (expected, received).
    InvalidIssuanceId(TransactionId, TransactionId),
    /// The table of public keys lacks this tier.
    InvalidAmountTier(Amount),
}

#[derive(Debug)]
pub enum ClientError {
    /// The mints could not be reached or refused the request.
    MintError,
    /// An issuance could not be finalized.
    FinalizationError(CoinFinalizationError),
}

impl From<InvalidAmountTierError> for CoinFinalizationError {
    fn from(e: InvalidAmountTierError) -> (r: CoinFinalizationError)
        ensures
            r == CoinFinalizationError::InvalidAmountTier(e.0),
    {
        CoinFinalizationError::InvalidAmountTier(e.0)
    }
}

impl vstd::std_specs::convert::FromSpecImpl<InvalidAmountTierError> for CoinFinalizationError {
    open spec fn obeys_from_spec() -> bool {
        true
    }

    open spec fn from_spec(e: InvalidAmountTierError) -> CoinFinalizationError {
        CoinFinalizationError::InvalidAmountTier(e.0)
    }
}

impl From<CoinFinalizationError> for ClientError {
    fn from(e: CoinFinalizationError) -> (r: ClientError)
        ensures
            r == ClientError::FinalizationError(e),
    {
        ClientError::FinalizationError(e)
    }
}

impl vstd::std_specs::convert::FromSpecImpl<CoinFinalizationError> for ClientError {
    open spec fn obeys_from_spec() -> bool {
        true
    }

    open spec fn from_spec(e: CoinFinalizationError) -> ClientError {
        ClientError::FinalizationError(e)
    }
}

impl IssuanceRequest {
    /// Pairs the greedy decomposition of `amount` with fresh coin material, one item per draw
    /// and in the same order: the private request keeps each coin request, the public signing
    /// request its blinded nonce. Fails as the decomposition does when the draws cannot add up
    /// to the amount.
    pub fn new<K>(amount: Amount, amount_tiers: &Keys<K>, material: Vec<(CoinRequest, BlindedMessage)>) -> (r: Result<
        (IssuanceRequest, SignRequest),
        InvalidAmountTierError,
    >)
        requires
            amount_tiers.wf(),
            material@.len() == greedy(amount.milli_sat as nat, amount_tiers.entries@).len(),
        ensures
            r is Ok <==> greedy_rest(amount.milli_sat as nat, amount_tiers.entries@) == 0,
            r matches Err(e) ==> e.0.milli_sat == greedy_rest(amount.milli_sat as nat, amount_tiers.entries@),
            r matches Ok(p) ==> {
                &&& p.0.coins.wf()
                &&& p.1.0.wf()
                &&& tiers_of(p.0.coins.items@) == greedy(amount.milli_sat as nat, amount_tiers.entries@)
                &&& sum_tiers(tiers_of(p.0.coins.items@)) == amount.milli_sat
                &&& forall|k: int| 0 <= k < p.0.coins.items@.len() ==> amount_tiers.has_tier(#[trigger] p.0.coins.items@[k].0.milli_sat)
                &&& p.0.coins.same_shape(&p.1.0)
                &&& forall|i: int| 0 <= i < material@.len() ==> #[trigger] p.0.coins.items@[i].1 == material@[i].0
                    && p.1.0.items@[i].1 == material@[i].1
            },
    {
        let draws = match Coins::represent_amount(amount, amount_tiers) {
            Ok(d) => d,
            Err(e) => return Err(e),
        };
        let ghost orig = material@;
        let mut material = material;
        let mut requests: Vec<(Amount, CoinRequest)> = Vec::new();
        let mut blinded: Vec<(Amount, BlindedMessage)> = Vec::new();
        let n = draws.items.len();
        let mut i: usize = 0;
        while i < n
            invariant
                n == draws.items@.len() == orig.len(),
                i <= n,
                material@ == orig.subrange(i as int, n as int),
                requests@.len() == i,
                blinded@.len() == i,
                forall|k: int| 0 <= k < i ==> #[trigger] requests@[k] == (draws.items@[k].0, orig[k].0),
                forall|k: int| 0 <= k < i ==> #[trigger] blinded@[k] == (draws.items@[k].0, orig[k].1),
            decreases n - i,
        {
            let (request, message) = material.remove(0);
            let tier = draws.items[i].0;
            requests.push((tier, request));
            blinded.push((tier, message));
            i = i + 1;
            assert(material@ =~= orig.subrange(i as int, n as int));
        }
        let ghost dt = tiers_of(draws.items@);
        assert(tiers_of(requests@) =~= dt);
        assert(tiers_of(blinded@) =~= dt);
        let issuance = IssuanceRequest { coins: Coins { items: requests } };
        let sign = SignRequest(Coins { items: blinded });
        assert(issuance.coins.wf()) by {
            assert forall|a: int, b: int| 0 <= a <= b < issuance.coins.items@.len() implies
                #[trigger] issuance.coins.items@[a].0.milli_sat <= #[trigger] issuance.coins.items@[b].0.milli_sat by {
                assert(draws.items@[a].0.milli_sat <= draws.items@[b].0.milli_sat);
            }
        }
        assert(sign.0.wf()) by {
            assert forall|a: int, b: int| 0 <= a <= b < sign.0.items@.len() implies
                #[trigger] sign.0.items@[a].0.milli_sat <= #[trigger] sign.0.items@[b].0.milli_sat by {
                assert(draws.items@[a].0.milli_sat <= draws.items@[b].0.milli_sat);
            }
        }
        assert forall|k: int| 0 <= k < issuance.coins.items@.len() implies amount_tiers.has_tier(
            #[trigger] issuance.coins.items@[k].0.milli_sat) by {
            assert(issuance.coins.items@[k].0 == draws.items@[k].0);
        }
        Ok((issuance, sign))
    }

    /// Number of coins requested over all tiers.
    pub fn coin_count(&self) -> (r: usize)
        ensures
            r == self.coins.items@.len(),
    {
        self.coins.coin_count()
    }

    /// Position `i` cannot become a coin: its tier has no key, or its signature is invalid.
    pub open spec fn fails_at(&self, keys: &Keys<AggregatePublicKey>, unblinded: Seq<UnblindedSig>, i: int) -> bool {
        !keys.has_tier(self.coins.items@[i].0.milli_sat) || !unblinded[i].valid
    }

    /// `k` is the first position that fails.
    pub open spec fn first_failure(&self, keys: &Keys<AggregatePublicKey>, unblinded: Seq<UnblindedSig>, k: int) -> bool {
        &&& 0 <= k < self.coins.items@.len()
        &&& forall|j: int| 0 <= j < k ==> !self.fails_at(keys, unblinded, j)
        &&& self.fails_at(keys, unblinded, k)
    }

    proof fn lemma_first_failure_unique(&self, keys: &Keys<AggregatePublicKey>, unblinded: Seq<UnblindedSig>, k: int)
        requires
            self.first_failure(keys, unblinded, k),
        ensures
            forall|m: int| #[trigger] self.first_failure(keys, unblinded, m) ==> m == k,
    {
        assert forall|m: int| #[trigger] self.first_failure(keys, unblinded, m) implies m == k by {
            if m < k {
                assert(!self.fails_at(keys, unblinded, m));
            } else if m > k {
                assert(!self.fails_at(keys, unblinded, k));
            }
        }
    }

    /// The answer fits the request: same shape, and one unblinded signature per coin.
    pub open spec fn fits(&self, bsigs: &SigResponse, unblinded: Seq<UnblindedSig>) -> bool {
        self.coins.same_shape(&bsigs.0) && unblinded.len() == self.coins.items@.len()
    }

    /// Turns a mint's answer into spendable coins. `unblinded[i]` is the signature at position
    /// `i` of `bsigs` unblinded with the blinding key of coin `i`, and whether it verifies
    /// against the key of that coin's tier. Either every coin comes out, or none: the first
    /// position that fails gives the error.
    pub fn finalize(&self, bsigs: &SigResponse, mint_pub_key: &Keys<AggregatePublicKey>, unblinded: &Vec<UnblindedSig>) -> (r: Result<
        Coins<SpendableCoin>,
        CoinFinalizationError,
    >)
        ensures
            !self.fits(bsigs, unblinded@) ==> r matches Err(CoinFinalizationError::WrongMintAnswer),
            forall|k: int| #[trigger] self.first_failure(mint_pub_key, unblinded@, k) && self.fits(bsigs, unblinded@)
                && mint_pub_key.has_tier(self.coins.items@[k].0.milli_sat)
                ==> (r matches Err(CoinFinalizationError::InvalidSignature(e)) && e == k),
            forall|k: int| #[trigger] self.first_failure(mint_pub_key, unblinded@, k) && self.fits(bsigs, unblinded@)
                && !mint_pub_key.has_tier(self.coins.items@[k].0.milli_sat)
                ==> (r matches Err(CoinFinalizationError::InvalidAmountTier(a)) && a == self.coins.items@[k].0),
            r is Ok <==> self.fits(bsigs, unblinded@) && forall|j: int|
                0 <= j < self.coins.items@.len() ==> !self.fails_at(mint_pub_key, unblinded@, j),
            r matches Ok(c) ==> {
                &&& self.coins.wf() ==> c.wf()
                &&& c.same_shape(&self.coins)
                &&& forall|i: int| 0 <= i < c.items@.len() ==> {
                    &&& (#[trigger] c.items@[i]).1.coin.0.bytes@ == self.coins.items@[i].1.nonce.bytes@
                    &&& c.items@[i].1.coin.1.bytes@ == unblinded@[i].signature.bytes@
                    &&& c.items@[i].1.spend_key.bytes@ == self.coins.items@[i].1.spend_key.bytes@
                }
            },
    {
        if !self.coins.structural_eq(&bsigs.0) || unblinded.len() != self.coins.items.len() {
            return Err(CoinFinalizationError::WrongMintAnswer);
        }
        let n = self.coins.items.len();
        let mut out: Vec<(Amount, SpendableCoin)> = Vec::new();
        let mut i: usize = 0;
        while i < n
            invariant
                n == self.coins.items@.len() == unblinded@.len(),
                self.fits(bsigs, unblinded@),
                i <= n,
                out@.len() == i,
                forall|j: int| 0 <= j < i ==> !self.fails_at(mint_pub_key, unblinded@, j),
                forall|j: int| 0 <= j < i ==> {
                    &&& (#[trigger] out@[j]).0 == self.coins.items@[j].0
                    &&& out@[j].1.coin.0.bytes@ == self.coins.items@[j].1.nonce.bytes@
                    &&& out@[j].1.coin.1.bytes@ == unblinded@[j].signature.bytes@
                    &&& out@[j].1.spend_key.bytes@ == self.coins.items@[j].1.spend_key.bytes@
                },
            decreases n - i,
        {
            let amt = self.coins.items[i].0;
            let coin_req = &self.coins.items[i].1;
            match mint_pub_key.tier(&amt) {
                Err(e) => {
                    proof {
                        assert(self.first_failure(mint_pub_key, unblinded@, i as int));
                        self.lemma_first_failure_unique(mint_pub_key, unblinded@, i as int);
                    }
                    return Err(CoinFinalizationError::from(e));
                },
                Ok(_key) => {},
            }
            if !unblinded[i].valid {
                proof {
                    assert(self.first_failure(mint_pub_key, unblinded@, i as int));
                    self.lemma_first_failure_unique(mint_pub_key, unblinded@, i as int);
                }
                return Err(CoinFinalizationError::InvalidSignature(i));
            }
            let coin = Coin(coin_req.nonce.clone(), unblinded[i].signature.clone());
            let spendable = SpendableCoin { coin, spend_key: coin_req.spend_key.clone() };
            out.push((amt, spendable));
            i = i + 1;
        }
        let result = Coins { items: out };
        proof {
            assert(tiers_of(result.items@) =~= tiers_of(self.coins.items@));
            assert forall|a: int, b: int| self.coins.wf() && 0 <= a <= b < result.items@.len() implies
                #[trigger] result.items@[a].0.milli_sat <= #[trigger] result.items@[b].0.milli_sat by {
                assert(result.items@[a].0 == self.coins.items@[a].0);
                assert(result.items@[b].0 == self.coins.items@[b].0);
                assert(self.coins.items@[a].0.milli_sat <= self.coins.items@[b].0.milli_sat);
            }
        }
        Ok(result)
    }
}

/// The SHA-256 digest of a byte string.
pub uninterp spec fn sha256_of(data: Seq<u8>) -> Seq<u8>;

/// Relies on bitcoin_hashes::sha256::Hash::hash: the SHA-256 digest of the bytes, which is
/// 32 bytes long and depends on the bytes alone.
#[verifier::external_body]
fn sha256(data: &[u8]) -> (r: Vec<u8>)
    ensures
        r@ == sha256_of(data@),
        r@.len() == 32,
{
    bitcoin_hashes::Hash::into_inner(<bitcoin_hashes::sha256::Hash as bitcoin_hashes::Hash>::hash(data)).to_vec()
}

/// The canonical bytes of blinded nonces: for each, its tier and its length as eight
/// big-endian bytes each, then its bytes.
pub open spec fn sign_request_bytes(items: Seq<(Amount, BlindedMessage)>) -> Seq<u8>
    decreases items.len(),
{
    if items.len() == 0 {
        Seq::empty()
    } else {
        let last = items.last();
        sign_request_bytes(items.drop_last()) + be_bytes(last.0.milli_sat as nat, 8) + be_bytes(
            last.1.bytes@.len(),
            8,
        ) + last.1.bytes@
    }
}

impl SignRequest {
    /// The canonical bytes of this request.
    pub fn to_bytes(&self) -> (r: Vec<u8>)
        ensures
            r@ == sign_request_bytes(self.0.items@),
    {
        let items = &self.0.items;
        let mut out: Vec<u8> = Vec::new();
        let mut i: usize = 0;
        while i < items.len()
            invariant
                i <= items@.len(),
                out@ == sign_request_bytes(items@.subrange(0, i as int)),
            decreases items@.len() - i,
        {
            let ghost before = out@;
            crate::keys::push_be(items[i].0.milli_sat, 8, &mut out);
            crate::keys::push_be(items[i].1.bytes.len() as u64, 8, &mut out);
            crate::keys::append(&mut out, &items[i].1.bytes);
            proof {
                assert(items@.subrange(0, i + 1).drop_last() =~= items@.subrange(0, i as int));
            }
            i = i + 1;
        }
        assert(items@.subrange(0, items@.len() as int) =~= items@);
        out
    }

    /// The identifier of the issuance that this request asks for: the SHA-256 digest of its
    /// canonical bytes. These bytes are this library's own encoding, so the identifier need
    /// not match one that a mint derives from its own encoding of the request.
    pub fn id(&self) -> (r: TransactionId)
        ensures
            r@ == sha256_of(sign_request_bytes(self.0.items@)),
    {
        let bytes = self.to_bytes();
        let digest = sha256(bytes.as_slice());
        TransactionId::from_vec(digest)
    }
}

} // verus!
