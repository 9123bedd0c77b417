use vstd::prelude::*;
use crate::amount::{Amount, Coins};
use crate::issuance::{ClientError, IssuanceRequest, SpendableCoin};
use crate::keys::{coin_key_bytes, issuance_key_bytes, CoinKey, IssuanceKey, TransactionId};

verus! {

/// A stored value: a pending issuance or an owned coin.
#[derive(Debug)]
pub enum Record {
    Issuance(IssuanceRequest),
    Coin(SpendableCoin),
}

/// One operation of an atomic batch.
#[derive(Debug)]
pub enum BatchItem {
    InsertNewElement(Vec<u8>, Record),
    DeleteElement(Vec<u8>),
}

/// The store after one operation.
pub open spec fn apply_op(m: Map<Seq<u8>, Record>, op: BatchItem) -> Map<Seq<u8>, Record> {
    match op {
        BatchItem::InsertNewElement(k, v) => m.insert(k@, v),
        BatchItem::DeleteElement(k) => m.remove(k@),
    }
}

/// The store after a batch of operations, applied in order.
pub open spec fn apply_ops(m: Map<Seq<u8>, Record>, ops: Seq<BatchItem>) -> Map<Seq<u8>, Record>
    decreases ops.len(),
{
    if ops.len() == 0 {
        m
    } else {
        apply_op(apply_ops(m, ops.drop_last()), ops.last())
    }
}

/// Whether two byte strings are equal.
pub(crate) fn bytes_eq(a: &Vec<u8>, b: &Vec<u8>) -> (r: bool)
    ensures
        r == (a@ == b@),
{
    if a.len() != b.len() {
        return false;
    }
    let mut i: usize = 0;
    while i < a.len()
        invariant
            i <= a@.len() == b@.len(),
            forall|k: int| 0 <= k < i ==> a@[k] == b@[k],
        decreases a@.len() - i,
    {
        if a[i] != b[i] {
            return false;
        }
        i = i + 1;
    }
    assert(a@ =~= b@);
    true
}

/// An in-memory key-value store whose batches apply all or nothing.
pub struct MemDb {
    entries: Vec<(Vec<u8>, Record)>,
    contents: Ghost<Map<Seq<u8>, Record>>,
}

impl View for MemDb {
    type V = Map<Seq<u8>, Record>;

    closed spec fn view(&self) -> Map<Seq<u8>, Record> {
        self.contents@
    }
}

impl MemDb {
    /// Keys unique, and the entries are exactly the contents.
    pub closed spec fn wf(&self) -> bool {
        &&& forall|i: int, j: int|
            0 <= i < j < self.entries@.len() ==> #[trigger] self.entries@[i].0@ != #[trigger] self.entries@[j].0@
        &&& forall|i: int|
            0 <= i < self.entries@.len() ==> self.contents@.contains_key(#[trigger] self.entries@[i].0@)
                && self.contents@[self.entries@[i].0@] == self.entries@[i].1
        &&& forall|k: Seq<u8>|
            #[trigger] self.contents@.contains_key(k) ==> exists|i: int|
                0 <= i < self.entries@.len() && #[trigger] self.entries@[i].0@ == k
    }

    pub fn new() -> (r: MemDb)
        ensures
            r.wf(),
            r@ == Map::<Seq<u8>, Record>::empty(),
    {
        MemDb { entries: Vec::new(), contents: Ghost(Map::empty()) }
    }

    /// The position of `key`, if stored.
    fn position(&self, key: &Vec<u8>) -> (r: Option<usize>)
        requires
            self.wf(),
        ensures
            r matches Some(i) ==> i < self.entries@.len() && self.entries@[i as int].0@ == key@,
            r is None ==> !self@.contains_key(key@),
    {
        let mut i: usize = 0;
        while i < self.entries.len()
            invariant
                i <= self.entries@.len(),
                forall|k: int| 0 <= k < i ==> #[trigger] self.entries@[k].0@ != key@,
            decreases self.entries@.len() - i,
        {
            if bytes_eq(&self.entries[i].0, key) {
                return Some(i);
            }
            i = i + 1;
        }
        None
    }

    /// What is stored under `key`.
    pub fn get(&self, key: &Vec<u8>) -> (r: Option<&Record>)
        requires
            self.wf(),
        ensures
            r is Some <==> self@.contains_key(key@),
            r matches Some(v) ==> *v == self@[key@],
    {
        match self.position(key) {
            Some(i) => Some(&self.entries[i].1),
            None => None,
        }
    }

    /// Every stored key whose first byte is `prefix`, each once.
    pub fn keys_with_prefix(&self, prefix: u8) -> (r: Vec<Vec<u8>>)
        requires
            self.wf(),
        ensures
            forall|i: int| 0 <= i < r@.len() ==> self@.contains_key((#[trigger] r@[i])@) && r@[i]@.len() > 0
                && r@[i]@[0] == prefix,
            forall|k: Seq<u8>| #[trigger] self@.contains_key(k) && k.len() > 0 && k[0] == prefix ==> exists|i: int|
                0 <= i < r@.len() && (#[trigger] r@[i])@ == k,
            forall|i: int, j: int| 0 <= i < j < r@.len() ==> (#[trigger] r@[i])@ != (#[trigger] r@[j])@,
    {
        let mut r: Vec<Vec<u8>> = Vec::new();
        let mut i: usize = 0;
        while i < self.entries.len()
            invariant
                self.wf(),
                i <= self.entries@.len(),
                forall|j: int| 0 <= j < r@.len() ==> self@.contains_key((#[trigger] r@[j])@) && r@[j]@.len() > 0
                    && r@[j]@[0] == prefix,
                forall|j: int| 0 <= j < i && (#[trigger] self.entries@[j]).0@.len() > 0 && self.entries@[j].0@[0] == prefix
                    ==> exists|m: int| 0 <= m < r@.len() && (#[trigger] r@[m])@ == self.entries@[j].0@,
                forall|m: int| 0 <= m < r@.len() ==> exists|j: int| 0 <= j < i && (#[trigger] r@[m])@ == (#[trigger] self.entries@[j]).0@,
                forall|a: int, b: int| 0 <= a < b < r@.len() ==> (#[trigger] r@[a])@ != (#[trigger] r@[b])@,
            decreases self.entries@.len() - i,
        {
            let key = &self.entries[i].0;
            if key.len() > 0 && key[0] == prefix {
                let ghost before = r@;
                r.push(key.clone());
                proof {
                    assert(r@[before.len() as int]@ == self.entries@[i as int].0@);
                    assert(self@.contains_key(self.entries@[i as int].0@));
                    assert forall|m: int| 0 <= m < r@.len() implies exists|j: int| 0 <= j < i + 1 && (#[trigger] r@[m])@
                        == (#[trigger] self.entries@[j]).0@ by {
                        if m < before.len() {
                            assert(r@[m] == before[m]);
                            let j = choose|j: int| 0 <= j < i && (#[trigger] before[m])@ == (#[trigger] self.entries@[j]).0@;
                            assert(r@[m]@ == self.entries@[j].0@);
                        } else {
                            assert(r@[m]@ == self.entries@[i as int].0@);
                        }
                    }
                    assert forall|a: int, b: int| 0 <= a < b < r@.len() implies (#[trigger] r@[a])@ != (#[trigger] r@[b])@ by {
                        if b == before.len() {
                            assert(r@[a] == before[a]);
                            let j = choose|j: int| 0 <= j < i && (#[trigger] before[a])@ == (#[trigger] self.entries@[j]).0@;
                            assert(self.entries@[j].0@ != self.entries@[i as int].0@);
                        } else {
                            assert(r@[a] == before[a]);
                            assert(r@[b] == before[b]);
                        }
                    }
                    assert forall|j: int| 0 <= j < i + 1 && (#[trigger] self.entries@[j]).0@.len() > 0
                        && self.entries@[j].0@[0] == prefix implies exists|m: int|
                        0 <= m < r@.len() && (#[trigger] r@[m])@ == self.entries@[j].0@ by {
                        if j < i {
                            let m = choose|m: int| 0 <= m < before.len() && (#[trigger] before[m])@ == self.entries@[j].0@;
                            assert(r@[m] == before[m]);
                        } else {
                            assert(r@[before.len() as int]@ == self.entries@[j].0@);
                        }
                    }
                }
            }
            i = i + 1;
        }
        assert forall|k: Seq<u8>| #[trigger] self@.contains_key(k) && k.len() > 0 && k[0] == prefix implies exists|m: int|
            0 <= m < r@.len() && (#[trigger] r@[m])@ == k by {
            let j = choose|j: int| 0 <= j < self.entries@.len() && #[trigger] self.entries@[j].0@ == k;
            assert(self.entries@[j].0@ == k);
        }
        r
    }

    /// Stores `value` under `key`, replacing what was there.
    pub fn insert(&mut self, key: Vec<u8>, value: Record)
        requires
            old(self).wf(),
        ensures
            final(self).wf(),
            final(self)@ == old(self)@.insert(key@, value),
    {
        let ghost k = key@;
        let ghost v = value;
        match self.position(&key) {
            Some(i) => {
                self.entries.set(i, (key, value));
                self.contents = Ghost(self.contents@.insert(k, v));
                assert forall|q: Seq<u8>| #[trigger] self.contents@.contains_key(q) implies exists|j: int|
                    0 <= j < self.entries@.len() && #[trigger] self.entries@[j].0@ == q by {
                    if q == k {
                        assert(self.entries@[i as int].0@ == q);
                    } else {
                        let j = choose|j: int| 0 <= j < old(self).entries@.len() && #[trigger] old(self).entries@[j].0@ == q;
                        assert(self.entries@[j].0@ == q);
                    }
                }
            },
            None => {
                self.entries.push((key, value));
                self.contents = Ghost(self.contents@.insert(k, v));
                let ghost n = old(self).entries@.len() as int;
                assert forall|q: Seq<u8>| #[trigger] self.contents@.contains_key(q) implies exists|j: int|
                    0 <= j < self.entries@.len() && #[trigger] self.entries@[j].0@ == q by {
                    if q == k {
                        assert(self.entries@[n].0@ == q);
                    } else {
                        let j = choose|j: int| 0 <= j < old(self).entries@.len() && #[trigger] old(self).entries@[j].0@ == q;
                        assert(self.entries@[j].0@ == q);
                    }
                }
                assert forall|a: int, b: int| 0 <= a < b < self.entries@.len() implies
                    #[trigger] self.entries@[a].0@ != #[trigger] self.entries@[b].0@ by {
                    if b == n {
                        assert(old(self).contents@.contains_key(old(self).entries@[a].0@));
                    }
                }
            },
        }
    }

    /// Removes what is stored under `key`, if anything.
    pub fn delete(&mut self, key: &Vec<u8>)
        requires
            old(self).wf(),
        ensures
            final(self).wf(),
            final(self)@ == old(self)@.remove(key@),
    {
        match self.position(key) {
            Some(i) => {
                let _ = self.entries.remove(i);
                self.contents = Ghost(self.contents@.remove(key@));
                assert forall|a: int| 0 <= a < self.entries@.len() implies self.contents@.contains_key(
                    #[trigger] self.entries@[a].0@) && self.contents@[self.entries@[a].0@] == self.entries@[a].1 by {
                    if a < i {
                        assert(old(self).entries@[a] == self.entries@[a]);
                    } else {
                        assert(old(self).entries@[a + 1] == self.entries@[a]);
                    }
                }
                assert forall|q: Seq<u8>| #[trigger] self.contents@.contains_key(q) implies exists|j: int|
                    0 <= j < self.entries@.len() && #[trigger] self.entries@[j].0@ == q by {
                    let j = choose|j: int| 0 <= j < old(self).entries@.len() && #[trigger] old(self).entries@[j].0@ == q;
                    if j < i {
                        assert(self.entries@[j].0@ == q);
                    } else {
                        assert(self.entries@[j - 1].0@ == q);
                    }
                }
                assert forall|a: int, b: int| 0 <= a < b < self.entries@.len() implies
                    #[trigger] self.entries@[a].0@ != #[trigger] self.entries@[b].0@ by {
                    let oa = if a < i { a } else { a + 1 };
                    let ob = if b < i { b } else { b + 1 };
                    assert(old(self).entries@[oa] == self.entries@[a]);
                    assert(old(self).entries@[ob] == self.entries@[b]);
                }
            },
            None => {
                assert(self.contents@.remove(key@) =~= self.contents@);
            },
        }
    }

    /// Applies every operation of `batch`, in order, as one step.
    pub fn apply_batch(&mut self, batch: Vec<BatchItem>)
        requires
            old(self).wf(),
        ensures
            final(self).wf(),
            final(self)@ == apply_ops(old(self)@, batch@),
    {
        let ghost ops = batch@;
        let mut batch = batch;
        let ghost start = self@;
        let mut done: usize = 0;
        let n = batch.len();
        while batch.len() > 0
            invariant
                self.wf(),
                n == ops.len(),
                batch@.len() + done == n,
                batch@ == ops.subrange(done as int, n as int),
                self@ == apply_ops(start, ops.subrange(0, done as int)),
            decreases batch@.len(),
        {
            let op = batch.remove(0);
            assert(op == ops[done as int]);
            match op {
                BatchItem::InsertNewElement(k, v) => self.insert(k, v),
                BatchItem::DeleteElement(k) => self.delete(&k),
            }
            done = done + 1;
            assert(ops.subrange(0, done as int).drop_last() =~= ops.subrange(0, done - 1));
            assert(batch@ =~= ops.subrange(done as int, n as int));
        }
        assert(ops.subrange(0, n as int) =~= ops);
    }
}

/// The store after inserting each coin under its key, in order.
pub open spec fn coins_effect(m: Map<Seq<u8>, Record>, coins: Seq<(Amount, SpendableCoin)>) -> Map<Seq<u8>, Record>
    decreases coins.len(),
{
    if coins.len() == 0 {
        m
    } else {
        let (a, c) = coins.last();
        coins_effect(m, coins.drop_last()).insert(coin_key_bytes(a.milli_sat, c.coin.0.bytes@), Record::Coin(c))
    }
}

/// The store after redeeming each finalized issuance in order: its coins are inserted and its
/// pending record is deleted.
pub open spec fn redeem_effect(m: Map<Seq<u8>, Record>, fetched: Seq<(TransactionId, Coins<SpendableCoin>)>) -> Map<
    Seq<u8>,
    Record,
>
    decreases fetched.len(),
{
    if fetched.len() == 0 {
        m
    } else {
        let (id, coins) = fetched.last();
        coins_effect(redeem_effect(m, fetched.drop_last()), coins.items@).remove(issuance_key_bytes(id@))
    }
}

/// The store after deleting the key of each coin in order.
pub open spec fn spend_effect(m: Map<Seq<u8>, Record>, coins: Seq<(Amount, SpendableCoin)>) -> Map<Seq<u8>, Record>
    decreases coins.len(),
{
    if coins.len() == 0 {
        m
    } else {
        let (a, c) = coins.last();
        spend_effect(m, coins.drop_last()).remove(coin_key_bytes(a.milli_sat, c.coin.0.bytes@))
    }
}

/// The batch that installs the coins of each finalized issuance and deletes its pending
/// record, together with the identifiers of those issuances in order.
pub fn redeem_batch(fetched: Vec<(TransactionId, Coins<SpendableCoin>)>) -> (r: (Vec<TransactionId>, Vec<BatchItem>))
    ensures
        r.0@.len() == fetched@.len(),
        forall|i: int| 0 <= i < fetched@.len() ==> (#[trigger] r.0@[i])@ == fetched@[i].0@,
        forall|m: Map<Seq<u8>, Record>| #[trigger] apply_ops(m, r.1@) == redeem_effect(m, fetched@),
{
    let ghost orig = fetched@;
    let mut fetched = fetched;
    let mut ids: Vec<TransactionId> = Vec::new();
    let mut batch: Vec<BatchItem> = Vec::new();
    let n = fetched.len();
    let mut i: usize = 0;
    while i < n
        invariant
            n == orig.len(),
            i <= n,
            fetched@ == orig.subrange(i as int, n as int),
            ids@.len() == i,
            forall|k: int| 0 <= k < i ==> (#[trigger] ids@[k])@ == orig[k].0@,
            forall|m: Map<Seq<u8>, Record>| #[trigger] apply_ops(m, batch@) == redeem_effect(m, orig.subrange(0, i as int)),
        decreases n - i,
    {
        let (id, coins) = fetched.remove(0);
        assert(fetched@ =~= orig.subrange(i + 1, n as int));
        let ghost citems = coins.items@;
        let mut items = coins.items;
        let ghost base = batch@;
        let cn = items.len();
        let mut j: usize = 0;
        while j < cn
            invariant
                cn == citems.len(),
                j <= cn,
                items@ == citems.subrange(j as int, cn as int),
                batch@.len() >= base.len(),
                forall|m: Map<Seq<u8>, Record>| #[trigger] apply_ops(m, batch@) == coins_effect(apply_ops(m, base), citems.subrange(0, j as int)),
            decreases cn - j,
        {
            let (amount, coin) = items.remove(0);
            let key = CoinKey { amount, nonce: coin.coin.0.clone() }.to_bytes();
            let ghost before = batch@;
            batch.push(BatchItem::InsertNewElement(key, Record::Coin(coin)));
            j = j + 1;
            proof {
                assert(items@ =~= citems.subrange(j as int, cn as int));
                assert(citems.subrange(0, j as int).drop_last() =~= citems.subrange(0, j - 1));
                assert(batch@.drop_last() =~= before);
                assert forall|m: Map<Seq<u8>, Record>| #[trigger] apply_ops(m, batch@) == coins_effect(apply_ops(m, base), citems.subrange(0, j as int)) by {
                    assert(apply_ops(m, before) == coins_effect(apply_ops(m, base), citems.subrange(0, j - 1)));
                }
            }
        }
        let ghost before = batch@;
        let id_key = IssuanceKey { issuance_id: id.clone() }.to_bytes();
        batch.push(BatchItem::DeleteElement(id_key));
        ids.push(id);
        i = i + 1;
        proof {
            assert(citems.subrange(0, cn as int) =~= citems);
            assert(orig.subrange(0, i as int).drop_last() =~= orig.subrange(0, i - 1));
            assert(batch@.drop_last() =~= before);
            assert forall|m: Map<Seq<u8>, Record>| #[trigger] apply_ops(m, batch@) == redeem_effect(m, orig.subrange(0, i as int)) by {
                assert(apply_ops(m, before) == coins_effect(apply_ops(m, base), citems));
                assert(apply_ops(m, base) == redeem_effect(m, orig.subrange(0, i - 1)));
            }
        }
    }
    assert(orig.subrange(0, n as int) =~= orig);
    (ids, batch)
}

/// The batch that deletes the key of each coin given.
pub fn spend_batch(coins: &Coins<SpendableCoin>) -> (r: Vec<BatchItem>)
    ensures
        forall|m: Map<Seq<u8>, Record>| #[trigger] apply_ops(m, r@) == spend_effect(m, coins.items@),
{
    let items = &coins.items;
    let mut batch: Vec<BatchItem> = Vec::new();
    let mut i: usize = 0;
    while i < items.len()
        invariant
            i <= items@.len(),
            forall|m: Map<Seq<u8>, Record>| #[trigger] apply_ops(m, batch@) == spend_effect(m, items@.subrange(0, i as int)),
        decreases items@.len() - i,
    {
        let key = CoinKey { amount: items[i].0, nonce: items[i].1.coin.0.clone() }.to_bytes();
        let ghost before = batch@;
        batch.push(BatchItem::DeleteElement(key));
        i = i + 1;
        proof {
            assert(items@.subrange(0, i as int).drop_last() =~= items@.subrange(0, i - 1));
            assert(batch@.drop_last() =~= before);
            assert forall|m: Map<Seq<u8>, Record>| #[trigger] apply_ops(m, batch@) == spend_effect(m, items@.subrange(0, i as int)) by {
                assert(apply_ops(m, before) == spend_effect(m, items@.subrange(0, i - 1)));
            }
        }
    }
    assert(items@.subrange(0, items@.len() as int) =~= items@);
    batch
}

/// The finalized issuances when every query succeeded, else the first error in order.
pub fn collect_fetched(results: Vec<Result<(TransactionId, Coins<SpendableCoin>), ClientError>>) -> (r: Result<
    Vec<(TransactionId, Coins<SpendableCoin>)>,
    ClientError,
>)
    ensures
        r is Ok <==> forall|i: int| 0 <= i < results@.len() ==> (#[trigger] results@[i]) is Ok,
        r matches Ok(v) ==> v@.len() == results@.len() && forall|i: int|
            0 <= i < v@.len() ==> results@[i] == Ok::<(TransactionId, Coins<SpendableCoin>), ClientError>(#[trigger] v@[i]),
        r matches Err(e) ==> exists|k: int|
            0 <= k < results@.len() && (forall|j: int| 0 <= j < k ==> (#[trigger] results@[j]) is Ok)
                && #[trigger] results@[k] == Err::<(TransactionId, Coins<SpendableCoin>), ClientError>(e),
{
    let ghost orig = results@;
    let mut rest = results;
    let mut out: Vec<(TransactionId, Coins<SpendableCoin>)> = Vec::new();
    let n = rest.len();
    let mut i: usize = 0;
    while i < n
        invariant
            n == orig.len(),
            orig == results@,
            i <= n,
            rest@ == orig.subrange(i as int, n as int),
            out@.len() == i,
            forall|k: int| 0 <= k < i ==> orig[k] == Ok::<(TransactionId, Coins<SpendableCoin>), ClientError>(#[trigger] out@[k]),
            forall|k: int| 0 <= k < i ==> (#[trigger] orig[k]) is Ok,
        decreases n - i,
    {
        let item = rest.remove(0);
        assert(item == orig[i as int]);
        assert(rest@ =~= orig.subrange(i + 1, n as int));
        match item {
            Ok(v) => {
                out.push(v);
            },
            Err(e) => {
                assert(orig[i as int] == Err::<(TransactionId, Coins<SpendableCoin>), ClientError>(e));
                assert(!(orig[i as int] is Ok));
                assert(forall|j: int| 0 <= j < i ==> (#[trigger] orig[j]) is Ok);
                return Err(e);
            },
        }
        i = i + 1;
    }
    assert(forall|k: int| 0 <= k < orig.len() ==> (#[trigger] orig[k]) is Ok);
    Ok(out)
}

} // verus!
