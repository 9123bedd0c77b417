use vstd::prelude::*;
use crate::amount::Amount;

verus! {

/// Leading byte of every owned-coin record key.
pub const DB_PREFIX_COIN: u8 = 0x20;

/// Leading byte of every pending-issuance record key.
pub const DB_PREFIX_ISSUANCE: u8 = 0x21;

/// `256^n`.
pub open spec fn pow256(n: nat) -> nat
    decreases n,
{
    if n == 0 {
        1
    } else {
        256 * pow256((n - 1) as nat)
    }
}

/// The `n` least significant base-256 digits of `v`, most significant first.
pub open spec fn be_bytes(v: nat, n: nat) -> Seq<u8>
    decreases n,
{
    if n == 0 {
        Seq::empty()
    } else {
        be_bytes(v / 256, (n - 1) as nat).push((v % 256) as u8)
    }
}

/// The number whose base-256 digits, most significant first, are `s`.
pub open spec fn from_be(s: Seq<u8>) -> nat
    decreases s.len(),
{
    if s.len() == 0 {
        0
    } else {
        from_be(s.drop_last()) * 256 + s.last() as nat
    }
}

pub proof fn lemma_be_bytes_len(v: nat, n: nat)
    ensures
        be_bytes(v, n).len() == n,
    decreases n,
{
    if n > 0 {
        lemma_be_bytes_len(v / 256, (n - 1) as nat);
    }
}

pub proof fn lemma_from_be_be_bytes(v: nat, n: nat)
    requires
        v < pow256(n),
    ensures
        from_be(be_bytes(v, n)) == v,
    decreases n,
{
    if n > 0 {
        assert(v / 256 < pow256((n - 1) as nat)) by (nonlinear_arith)
            requires v < 256 * pow256((n - 1) as nat);
        lemma_from_be_be_bytes(v / 256, (n - 1) as nat);
        let s = be_bytes(v, n);
        assert(s.drop_last() =~= be_bytes(v / 256, (n - 1) as nat));
    }
}

pub proof fn lemma_from_be_bound(s: Seq<u8>)
    ensures
        from_be(s) < pow256(s.len()),
    decreases s.len(),
{
    if s.len() > 0 {
        lemma_from_be_bound(s.drop_last());
        let p = pow256((s.len() - 1) as nat);
        let a = from_be(s.drop_last());
        let b = s.last() as nat;
        assert(a * 256 + b < 256 * p) by (nonlinear_arith)
            requires a < p, b < 256;
    }
}

/// Appends the `n` least significant base-256 digits of `v` to `out`, most significant first.
pub(crate) fn push_be(v: u64, n: usize, out: &mut Vec<u8>)
    ensures
        final(out)@ == old(out)@ + be_bytes(v as nat, n as nat),
    decreases n,
{
    if n == 0 {
        assert(old(out)@ + be_bytes(v as nat, 0) =~= old(out)@);
    } else {
        push_be(v / 256, n - 1, out);
        out.push((v % 256) as u8);
        assert(old(out)@ + be_bytes(v as nat, n as nat) =~= old(out)@ + be_bytes((v / 256) as nat, (n - 1) as nat) + seq![(v % 256) as u8]);
    }
}


pub proof fn lemma_pow256_mono(a: nat, b: nat)
    requires
        a <= b,
    ensures
        pow256(a) <= pow256(b),
    decreases b,
{
    if a < b {
        lemma_pow256_mono(a, (b - 1) as nat);
    }
}

/// Why a byte string is not a record key of the expected kind.
#[derive(Debug, Clone, Copy, PartialEq, Eq, Structural)]
pub enum DecodingError {
    /// The byte string has a length that no key of this kind has.
    WrongLength,
    /// The leading byte is not this kind's prefix.
    WrongPrefix,
}

/// The identifier of an issuance: 32 bytes derived from its public signing request.
#[derive(Debug)]
pub struct TransactionId {
    bytes: Vec<u8>,
}

impl View for TransactionId {
    type V = Seq<u8>;

    closed spec fn view(&self) -> Seq<u8> {
        self.bytes@
    }
}

impl TransactionId {
    #[verifier::type_invariant]
    spec fn inv(self) -> bool {
        self.bytes@.len() == 32
    }

    /// The identifier made of exactly the 32 bytes given.
    pub fn from_slice(data: &[u8]) -> (r: Result<TransactionId, DecodingError>)
        ensures
            data@.len() == 32 <==> r is Ok,
            data@.len() != 32 ==> r == Err::<TransactionId, DecodingError>(DecodingError::WrongLength),
            r matches Ok(id) ==> id@ == data@,
    {
        if data.len() != 32 {
            Err(DecodingError::WrongLength)
        } else {
            let bytes = copy_from(data, 0);
            Ok(TransactionId { bytes })
        }
    }

    /// The identifier made of exactly the 32 bytes given.
    pub fn from_vec(bytes: Vec<u8>) -> (r: TransactionId)
        requires
            bytes@.len() == 32,
        ensures
            r@ == bytes@,
    {
        TransactionId { bytes }
    }

    pub fn to_vec(&self) -> (r: Vec<u8>)
        ensures
            r@ == self@,
            r@.len() == 32,
    {
        proof {
            use_type_invariant(self);
        }
        self.bytes.clone()
    }
}

impl Clone for TransactionId {
    fn clone(&self) -> (r: TransactionId)
        ensures
            r@ == self@,
    {
        proof {
            use_type_invariant(self);
        }
        TransactionId { bytes: self.bytes.clone() }
    }
}

/// The public identifier of a coin, as the bytes of its public key.
#[derive(Debug)]
pub struct CoinNonce {
    pub bytes: Vec<u8>,
}

impl Clone for CoinNonce {
    fn clone(&self) -> (r: CoinNonce)
        ensures
            r.bytes@ == self.bytes@,
    {
        CoinNonce { bytes: self.bytes.clone() }
    }
}

/// Copies `data[start..]`.
fn copy_from(data: &[u8], start: usize) -> (r: Vec<u8>)
    requires
        start <= data@.len(),
    ensures
        r@ == data@.subrange(start as int, data@.len() as int),
{
    let mut r: Vec<u8> = Vec::new();
    let mut i: usize = start;
    while i < data.len()
        invariant
            start <= i <= data@.len(),
            r@ == data@.subrange(start as int, i as int),
        decreases data@.len() - i,
    {
        r.push(data[i]);
        i = i + 1;
        assert(r@ =~= data@.subrange(start as int, i as int));
    }
    r
}

/// Appends every byte of `data` to `out`.
pub(crate) fn append(out: &mut Vec<u8>, data: &Vec<u8>)
    ensures
        final(out)@ == old(out)@ + data@,
{
    let mut i: usize = 0;
    while i < data.len()
        invariant
            i <= data@.len(),
            out@ == old(out)@ + data@.subrange(0, i as int),
        decreases data@.len() - i,
    {
        out.push(data[i]);
        i = i + 1;
        assert(out@ =~= old(out)@ + data@.subrange(0, i as int));
    }
    assert(data@.subrange(0, data@.len() as int) =~= data@);
}

/// The record key of a pending issuance.
pub open spec fn issuance_key_bytes(id: Seq<u8>) -> Seq<u8> {
    seq![DB_PREFIX_ISSUANCE] + id
}

/// The record key of an owned coin: the amount in eight big-endian bytes, then the nonce.
pub open spec fn coin_key_bytes(amount: u64, nonce: Seq<u8>) -> Seq<u8> {
    seq![DB_PREFIX_COIN] + be_bytes(amount as nat, 8) + nonce
}

/// Key of a pending-issuance record.
pub struct IssuanceKey {
    pub issuance_id: TransactionId,
}

/// Key prefix shared by all pending-issuance records.
pub struct IssuanceKeyPrefix;

/// Key of an owned-coin record.
pub struct CoinKey {
    pub amount: Amount,
    pub nonce: CoinNonce,
}

/// Key prefix shared by all owned-coin records.
pub struct CoinKeyPrefix;

impl IssuanceKey {
    pub fn to_bytes(&self) -> (r: Vec<u8>)
        ensures
            r@ == issuance_key_bytes(self.issuance_id@),
            r@.len() == 33,
    {
        let mut bytes: Vec<u8> = Vec::new();
        bytes.push(DB_PREFIX_ISSUANCE);
        let id = self.issuance_id.to_vec();
        append(&mut bytes, &id);
        bytes
    }

    pub fn from_bytes(data: &[u8]) -> (r: Result<IssuanceKey, DecodingError>)
        ensures
            data@.len() != 33 <==> r == Err::<IssuanceKey, DecodingError>(DecodingError::WrongLength),
            data@.len() == 33 && data@[0] != DB_PREFIX_ISSUANCE <==> r == Err::<IssuanceKey, DecodingError>(DecodingError::WrongPrefix),
            r is Ok <==> data@.len() == 33 && data@[0] == DB_PREFIX_ISSUANCE,
            r matches Ok(k) ==> issuance_key_bytes(k.issuance_id@) == data@,
    {
        if data.len() != 33 {
            Err(DecodingError::WrongLength)
        } else if data[0] != DB_PREFIX_ISSUANCE {
            Err(DecodingError::WrongPrefix)
        } else {
            let id_bytes = copy_from(data, 1);
            match TransactionId::from_slice(id_bytes.as_slice()) {
                Ok(issuance_id) => {
                    assert(issuance_key_bytes(issuance_id@) =~= data@);
                    Ok(IssuanceKey { issuance_id })
                },
                Err(e) => Err(e),
            }
        }
    }
}

impl IssuanceKeyPrefix {
    pub fn to_bytes(&self) -> (r: Vec<u8>)
        ensures
            r@ == seq![DB_PREFIX_ISSUANCE],
    {
        let r = vec![DB_PREFIX_ISSUANCE];
        assert(r@ =~= seq![DB_PREFIX_ISSUANCE]);
        r
    }
}

impl CoinKey {
    pub fn to_bytes(&self) -> (r: Vec<u8>)
        ensures
            r@ == coin_key_bytes(self.amount.milli_sat, self.nonce.bytes@),
    {
        let mut bytes: Vec<u8> = Vec::new();
        bytes.push(DB_PREFIX_COIN);
        push_be(self.amount.milli_sat, 8, &mut bytes);
        append(&mut bytes, &self.nonce.bytes);
        assert(bytes@ =~= coin_key_bytes(self.amount.milli_sat, self.nonce.bytes@));
        bytes
    }

    pub fn from_bytes(data: &[u8]) -> (r: Result<CoinKey, DecodingError>)
        ensures
            data@.len() < 9 <==> r == Err::<CoinKey, DecodingError>(DecodingError::WrongLength),
            data@.len() >= 9 && data@[0] != DB_PREFIX_COIN <==> r == Err::<CoinKey, DecodingError>(DecodingError::WrongPrefix),
            r is Ok <==> data@.len() >= 9 && data@[0] == DB_PREFIX_COIN,
            r matches Ok(k) ==> {
                &&& k.amount.milli_sat == from_be(data@.subrange(1, 9))
                &&& k.nonce.bytes@ == data@.subrange(9, data@.len() as int)
                &&& coin_key_bytes(k.amount.milli_sat, k.nonce.bytes@) == data@
            },
    {
        if data.len() < 9 {
            Err(DecodingError::WrongLength)
        } else if data[0] != DB_PREFIX_COIN {
            Err(DecodingError::WrongPrefix)
        } else {
            let mut acc: u64 = 0;
            let mut i: usize = 1;
            proof {
                reveal_with_fuel(pow256, 8);
            }
            while i < 9
                invariant
                    1 <= i <= 9,
                    data@.len() >= 9,
                    acc as nat == from_be(data@.subrange(1, i as int)),
                    pow256(7) == 72057594037927936,
                decreases 9 - i,
            {
                proof {
                    lemma_from_be_bound(data@.subrange(1, i as int));
                    lemma_pow256_mono((i - 1) as nat, 7);
                    assert(data@.subrange(1, i + 1).drop_last() =~= data@.subrange(1, i as int));
                }
                acc = acc * 256 + data[i] as u64;
                i = i + 1;
            }
            let nonce = CoinNonce { bytes: copy_from(data, 9) };
            proof {
                let s = data@.subrange(1, 9);
                lemma_from_be_bound(s);
                be_bytes_from_be(s);
                assert(coin_key_bytes(acc, nonce.bytes@) =~= data@);
            }
            Ok(CoinKey { amount: Amount { milli_sat: acc }, nonce })
        }
    }
}

impl CoinKeyPrefix {
    pub fn to_bytes(&self) -> (r: Vec<u8>)
        ensures
            r@ == seq![DB_PREFIX_COIN],
    {
        let r = vec![DB_PREFIX_COIN];
        assert(r@ =~= seq![DB_PREFIX_COIN]);
        r
    }
}

/// Encoding the number that a digit string denotes gives the digit string back.
pub proof fn be_bytes_from_be(s: Seq<u8>)
    ensures
        be_bytes(from_be(s), s.len()) == s,
    decreases s.len(),
{
    if s.len() > 0 {
        let p = s.drop_last();
        be_bytes_from_be(p);
        let v = from_be(p) * 256 + s.last() as nat;
        assert(v / 256 == from_be(p)) by (nonlinear_arith)
            requires v == from_be(p) * 256 + s.last() as nat, s.last() < 256;
        assert(v % 256 == s.last() as nat) by (nonlinear_arith)
            requires v == from_be(p) * 256 + s.last() as nat, s.last() < 256;
        assert(be_bytes(v, s.len()) =~= s);
    }
}

/// `a` sorts before `b` byte by byte: they first differ at a position where `a` holds the
/// smaller byte, or `a` is a proper prefix of `b`.
pub open spec fn lex_lt(a: Seq<u8>, b: Seq<u8>) -> bool {
    (exists|i: int|
        0 <= i < a.len() && i < b.len() && a.subrange(0, i) == b.subrange(0, i) && a[i] < b[i])
        || (a.len() < b.len() && a == b.subrange(0, a.len() as int))
}

/// The first position at which the big-endian digits of two smaller numbers differ.
proof fn lemma_be_bytes_lt(v1: nat, v2: nat, n: nat) -> (i: int)
    requires
        v1 < v2 < pow256(n),
    ensures
        0 <= i < n,
        be_bytes(v1, n).subrange(0, i) == be_bytes(v2, n).subrange(0, i),
        be_bytes(v1, n)[i] < be_bytes(v2, n)[i],
    decreases n,
{
    lemma_be_bytes_len(v1, n);
    lemma_be_bytes_len(v2, n);
    let m = (n - 1) as nat;
    let q1 = v1 / 256;
    let q2 = v2 / 256;
    assert(n > 0);
    let p = pow256(m);
    assert(v1 / 256 <= v2 / 256) by (nonlinear_arith)
        requires v1 < v2;
    assert(v2 / 256 < p) by (nonlinear_arith)
        requires v2 < 256 * p;
    lemma_be_bytes_len(q1, m);
    lemma_be_bytes_len(q2, m);
    if q1 < q2 {
        let j = lemma_be_bytes_lt(q1, q2, m);
        assert(be_bytes(v1, n).subrange(0, j) =~= be_bytes(q1, m).subrange(0, j));
        assert(be_bytes(v2, n).subrange(0, j) =~= be_bytes(q2, m).subrange(0, j));
        j
    } else {
        assert(v1 % 256 < v2 % 256) by (nonlinear_arith)
            requires v1 < v2, v1 / 256 == v2 / 256;
        assert(be_bytes(v1, n).subrange(0, m as int) =~= be_bytes(q1, m));
        assert(be_bytes(v2, n).subrange(0, m as int) =~= be_bytes(q2, m));
        m as int
    }
}

/// Decoding the key of a pending issuance gives back its identifier.
pub proof fn lemma_issuance_key_round_trip(id: Seq<u8>, other: Seq<u8>)
    requires
        id.len() == 32,
    ensures
        issuance_key_bytes(id).len() == 33,
        issuance_key_bytes(id)[0] == DB_PREFIX_ISSUANCE,
        issuance_key_bytes(id).subrange(1, 33) == id,
        issuance_key_bytes(other) == issuance_key_bytes(id) ==> other == id,
{
    assert(issuance_key_bytes(id).subrange(1, 33) =~= id);
    if issuance_key_bytes(other) == issuance_key_bytes(id) {
        assert(other =~= issuance_key_bytes(other).subrange(1, issuance_key_bytes(other).len() as int));
    }
}

/// Decoding the key of an owned coin gives back its amount and nonce.
pub proof fn lemma_coin_key_round_trip(amount: u64, nonce: Seq<u8>)
    ensures
        coin_key_bytes(amount, nonce).len() == 9 + nonce.len(),
        coin_key_bytes(amount, nonce)[0] == DB_PREFIX_COIN,
        from_be(coin_key_bytes(amount, nonce).subrange(1, 9)) == amount,
        coin_key_bytes(amount, nonce).subrange(9, 9 + nonce.len() as int) == nonce,
{
    let k = coin_key_bytes(amount, nonce);
    lemma_be_bytes_len(amount as nat, 8);
    reveal_with_fuel(pow256, 9);
    lemma_from_be_be_bytes(amount as nat, 8);
    assert(k.subrange(1, 9) =~= be_bytes(amount as nat, 8));
    assert(k.subrange(9, 9 + nonce.len() as int) =~= nonce);
}

/// Owned-coin keys sort by amount: the key of a smaller amount is smaller byte by byte,
/// whatever the nonces.
pub proof fn lemma_coin_key_order(a1: u64, n1: Seq<u8>, a2: u64, n2: Seq<u8>)
    requires
        a1 < a2,
    ensures
        lex_lt(coin_key_bytes(a1, n1), coin_key_bytes(a2, n2)),
{
    reveal_with_fuel(pow256, 9);
    let i = lemma_be_bytes_lt(a1 as nat, a2 as nat, 8);
    let b1 = be_bytes(a1 as nat, 8);
    let b2 = be_bytes(a2 as nat, 8);
    lemma_be_bytes_len(a1 as nat, 8);
    lemma_be_bytes_len(a2 as nat, 8);
    let k1 = coin_key_bytes(a1, n1);
    let k2 = coin_key_bytes(a2, n2);
    let j = i + 1;
    assert(k1.subrange(0, j) =~= seq![DB_PREFIX_COIN] + b1.subrange(0, i));
    assert(k2.subrange(0, j) =~= seq![DB_PREFIX_COIN] + b2.subrange(0, i));
    assert(k1[j] == b1[i]);
    assert(k2[j] == b2[i]);
    assert(0 <= j < k1.len() && j < k2.len() && k1.subrange(0, j) == k2.subrange(0, j) && k1[j] < k2[j]);
}

} // verus!
