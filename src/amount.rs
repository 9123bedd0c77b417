use vstd::prelude::*;

verus! {

/// A quantity of the smallest currency unit; also names a denomination tier.
#[derive(Debug, Clone, Copy, PartialEq, Eq, Structural)]
pub struct Amount {
    pub milli_sat: u64,
}

impl Amount {
    pub fn from_msat(milli_sat: u64) -> (r: Amount)
        ensures
            r.milli_sat == milli_sat,
    {
        Amount { milli_sat }
    }
}

/// A tier that the table of keys lacks.
#[derive(Debug, Clone, Copy, PartialEq, Eq, Structural)]
pub struct InvalidAmountTierError(pub Amount);

/// The tiers of a sequence of entries, in order.
pub open spec fn tiers_of<T>(s: Seq<(Amount, T)>) -> Seq<u64> {
    s.map_values(|e: (Amount, T)| e.0.milli_sat)
}

/// `n` draws of tier `t`.
pub open spec fn repeat_tier(t: u64, n: nat) -> Seq<u64> {
    Seq::new(n, |i: int| t)
}

/// The greedy decomposition of `a` over the tiers of `es` (ascending): as many draws of the
/// largest tier as fit, then the rest over the smaller tiers. The result is ascending.
pub open spec fn greedy<K>(a: nat, es: Seq<(Amount, K)>) -> Seq<u64>
    decreases es.len(),
{
    if es.len() == 0 {
        Seq::empty()
    } else {
        let t = es.last().0.milli_sat as nat;
        if t == 0 {
            greedy(a, es.drop_last())
        } else {
            greedy(a % t, es.drop_last()) + repeat_tier(t as u64, a / t)
        }
    }
}

/// What the greedy decomposition of `a` over `es` leaves over.
pub open spec fn greedy_rest<K>(a: nat, es: Seq<(Amount, K)>) -> nat
    decreases es.len(),
{
    if es.len() == 0 {
        a
    } else {
        let t = es.last().0.milli_sat as nat;
        if t == 0 {
            greedy_rest(a, es.drop_last())
        } else {
            greedy_rest(a % t, es.drop_last())
        }
    }
}

/// The sum of a sequence of tiers.
pub open spec fn sum_tiers(s: Seq<u64>) -> nat
    decreases s.len(),
{
    if s.len() == 0 {
        0
    } else {
        sum_tiers(s.drop_last()) + s.last() as nat
    }
}

/// Each tier divides every larger one (as powers of two do).
pub open spec fn tier_chain<K>(es: Seq<(Amount, K)>) -> bool {
    forall|i: int, j: int|
        0 <= i < j < es.len() ==> (#[trigger] es[j].0.milli_sat) % (#[trigger] es[i].0.milli_sat) == 0
}

proof fn lemma_sum_append(s1: Seq<u64>, s2: Seq<u64>)
    ensures
        sum_tiers(s1 + s2) == sum_tiers(s1) + sum_tiers(s2),
    decreases s2.len(),
{
    if s2.len() > 0 {
        lemma_sum_append(s1, s2.drop_last());
        assert((s1 + s2).drop_last() =~= s1 + s2.drop_last());
    } else {
        assert(s1 + s2 =~= s1);
    }
}

proof fn lemma_sum_repeat(t: u64, n: nat)
    ensures
        sum_tiers(repeat_tier(t, n)) == t * n,
    decreases n,
{
    if n > 0 {
        lemma_sum_repeat(t, (n - 1) as nat);
        assert(repeat_tier(t, n).drop_last() =~= repeat_tier(t, (n - 1) as nat));
        assert(repeat_tier(t, n).last() == t);
        assert(t * n == t * (n - 1) + t) by (nonlinear_arith);
    } else {
        assert(repeat_tier(t, n) =~= Seq::<u64>::empty());
        assert(t * n == 0) by (nonlinear_arith)
            requires n == 0;
    }
}

/// The greedy draws and what is left over add up to the amount.
pub proof fn lemma_greedy_total<K>(a: nat, es: Seq<(Amount, K)>)
    ensures
        sum_tiers(greedy(a, es)) + greedy_rest(a, es) == a,
    decreases es.len(),
{
    if es.len() > 0 {
        let t = es.last().0.milli_sat as nat;
        if t == 0 {
            lemma_greedy_total(a, es.drop_last());
        } else {
            lemma_greedy_total(a % t, es.drop_last());
            lemma_sum_append(greedy(a % t, es.drop_last()), repeat_tier(t as u64, a / t));
            lemma_sum_repeat(t as u64, a / t);
            assert(a == t * (a / t) + a % t) by (nonlinear_arith)
                requires t > 0;
        }
    }
}

/// When each tier divides every larger one, the greedy decomposition leaves over exactly what
/// the smallest tier does not divide.
pub proof fn lemma_greedy_rest_chain<K>(a: nat, es: Seq<(Amount, K)>)
    requires
        es.len() > 0,
        tier_chain(es),
        forall|i: int| 0 <= i < es.len() ==> #[trigger] es[i].0.milli_sat > 0,
    ensures
        greedy_rest(a, es) == a % (es[0].0.milli_sat as nat),
    decreases es.len(),
{
    let t = es.last().0.milli_sat as nat;
    let t0 = es[0].0.milli_sat as nat;
    assert(es[es.len() - 1].0.milli_sat > 0);
    let d = es.drop_last();
    assert(t > 0);
    assert(greedy_rest(a, es) == greedy_rest(a % t, d));
    if es.len() == 1 {
        assert(d.len() == 0);
        assert(greedy_rest(a % t, d) == a % t);
        assert(es.last() == es[0]);
    } else {
        assert(tier_chain(d)) by {
            assert forall|i: int, j: int| 0 <= i < j < d.len() implies (#[trigger] d[j].0.milli_sat) % (#[trigger] d[i].0.milli_sat) == 0 by {
                assert(es[j].0.milli_sat % es[i].0.milli_sat == 0);
            }
        }
        assert(forall|i: int| 0 <= i < d.len() ==> #[trigger] d[i].0.milli_sat > 0) by {
            assert forall|i: int| 0 <= i < d.len() implies #[trigger] d[i].0.milli_sat > 0 by {
                assert(es[i].0.milli_sat > 0);
            }
        }
        lemma_greedy_rest_chain(a % t, d);
        assert(d[0] == es[0]);
        assert(es[es.len() - 1].0.milli_sat % es[0].0.milli_sat == 0);
        let q = t / t0;
        assert(t0 > 0);
        assert(t == t0 * q) by (nonlinear_arith)
            requires t % t0 == 0, t0 > 0, q == t / t0;
        assert(q > 0) by (nonlinear_arith)
            requires t == t0 * q, t > 0, q >= 0;
        vstd::arithmetic::div_mod::lemma_mod_mod(a as int, t0 as int, q as int);
        assert((a as int % (t0 as int * q as int)) % t0 as int == a as int % t0 as int);
        assert(a % t == (a as int % (t0 as int * q as int)));
        assert(greedy_rest(a % t, d) == (a % t) % t0);
    }
}

/// A table from tier to key material, tiers ascending and unique.
#[derive(Debug)]
pub struct Keys<K> {
    pub entries: Vec<(Amount, K)>,
}

impl<K> Keys<K> {
    /// Tiers strictly ascending and all positive.
    pub open spec fn wf(&self) -> bool {
        &&& forall|i: int, j: int|
            0 <= i < j < self.entries@.len() ==> #[trigger] self.entries@[i].0.milli_sat
                < #[trigger] self.entries@[j].0.milli_sat
        &&& forall|i: int| 0 <= i < self.entries@.len() ==> #[trigger] self.entries@[i].0.milli_sat > 0
    }

    pub open spec fn has_tier(&self, t: u64) -> bool {
        exists|i: int| 0 <= i < self.entries@.len() && #[trigger] self.entries@[i].0.milli_sat == t
    }

    pub fn new() -> (r: Keys<K>)
        ensures
            r.wf(),
            r.entries@.len() == 0,
    {
        Keys { entries: Vec::new() }
    }

    /// Sets the key of tier `tier`. A zero tier is refused and leaves the table as it was.
    pub fn insert(&mut self, tier: Amount, key: K) -> (r: bool)
        requires
            old(self).wf(),
        ensures
            final(self).wf(),
            r == (tier.milli_sat > 0),
            !r ==> final(self).entries@ == old(self).entries@,
            r ==> final(self).has_tier(tier.milli_sat),
            r ==> forall|t: u64| #[trigger] final(self).has_tier(t) <==> (old(self).has_tier(t) || t == tier.milli_sat),
            r ==> forall|i: int| 0 <= i < final(self).entries@.len() ==> (if final(self).entries@[i].0 == tier {
                final(self).entries@[i].1 == key
            } else {
                old(self).entries@.contains(#[trigger] final(self).entries@[i])
            }),
    {
        if tier.milli_sat == 0 {
            return false;
        }
        let mut i: usize = 0;
        while i < self.entries.len() && self.entries[i].0.milli_sat < tier.milli_sat
            invariant
                self == old(self),
                i <= self.entries@.len(),
                forall|k: int| 0 <= k < i ==> #[trigger] self.entries@[k].0.milli_sat < tier.milli_sat,
            decreases self.entries@.len() - i,
        {
            i = i + 1;
        }
        let ghost old_entries = self.entries@;
        if i < self.entries.len() && self.entries[i].0.milli_sat == tier.milli_sat {
            self.entries.set(i, (tier, key));
            assert(self.entries@[i as int].0.milli_sat == tier.milli_sat);
            assert forall|t: u64| #[trigger] self.has_tier(t) <==> (old(self).has_tier(t) || t == tier.milli_sat) by {
                if old(self).has_tier(t) {
                    let j = choose|j: int| 0 <= j < old_entries.len() && #[trigger] old_entries[j].0.milli_sat == t;
                    assert(self.entries@[j].0.milli_sat == t);
                }
                if self.has_tier(t) {
                    let j = choose|j: int| 0 <= j < self.entries@.len() && #[trigger] self.entries@[j].0.milli_sat == t;
                    assert(old_entries[j].0.milli_sat == t);
                }
            }
            assert forall|k: int| 0 <= k < self.entries@.len() && self.entries@[k].0 != tier implies
                old_entries.contains(#[trigger] self.entries@[k]) by {
                assert(old_entries[k] == self.entries@[k]);
            }
            assert(self.entries@[i as int].1 == key);
        } else {
            self.entries.insert(i, (tier, key));
            assert(self.entries@[i as int].0.milli_sat == tier.milli_sat);
            assert forall|t: u64| #[trigger] self.has_tier(t) <==> (old(self).has_tier(t) || t == tier.milli_sat) by {
                if old(self).has_tier(t) {
                    let j = choose|j: int| 0 <= j < old_entries.len() && #[trigger] old_entries[j].0.milli_sat == t;
                    if j < i {
                        assert(self.entries@[j].0.milli_sat == t);
                    } else {
                        assert(self.entries@[j + 1].0.milli_sat == t);
                    }
                }
                if self.has_tier(t) {
                    let j = choose|j: int| 0 <= j < self.entries@.len() && #[trigger] self.entries@[j].0.milli_sat == t;
                    if j < i {
                        assert(old_entries[j].0.milli_sat == t);
                    } else if j > i {
                        assert(old_entries[j - 1].0.milli_sat == t);
                    }
                }
            }
            assert forall|k: int| 0 <= k < self.entries@.len() && self.entries@[k].0 != tier implies
                old_entries.contains(#[trigger] self.entries@[k]) by {
                if k < i {
                    assert(old_entries[k] == self.entries@[k]);
                } else {
                    assert(old_entries[k - 1] == self.entries@[k]);
                }
            }
        }
        true
    }

    /// Whether the tiers are strictly ascending and all positive.
    pub fn is_wf(&self) -> (r: bool)
        ensures
            r == self.wf(),
    {
        let n = self.entries.len();
        let mut i: usize = 0;
        while i < n
            invariant
                n == self.entries@.len(),
                i <= n,
                forall|a: int, b: int| 0 <= a < b < i ==> #[trigger] self.entries@[a].0.milli_sat
                    < #[trigger] self.entries@[b].0.milli_sat,
                forall|a: int| 0 <= a < i ==> #[trigger] self.entries@[a].0.milli_sat > 0,
            decreases n - i,
        {
            if self.entries[i].0.milli_sat == 0 {
                return false;
            }
            if i > 0 && self.entries[i - 1].0.milli_sat >= self.entries[i].0.milli_sat {
                assert(!(self.entries@[i - 1].0.milli_sat < self.entries@[i as int].0.milli_sat));
                return false;
            }
            proof {
                assert forall|a: int, b: int| 0 <= a < b < i + 1 implies #[trigger] self.entries@[a].0.milli_sat
                    < #[trigger] self.entries@[b].0.milli_sat by {
                    if b == i && a < i - 1 {
                        assert(self.entries@[a].0.milli_sat < self.entries@[i - 1].0.milli_sat);
                    }
                }
            }
            i = i + 1;
        }
        true
    }

    /// The key of tier `amount`.
    pub fn tier(&self, amount: &Amount) -> (r: Result<&K, InvalidAmountTierError>)
        ensures
            r is Ok <==> self.has_tier(amount.milli_sat),
            r matches Err(e) ==> e.0 == *amount,
            r matches Ok(k) ==> exists|i: int|
                0 <= i < self.entries@.len() && #[trigger] self.entries@[i].0 == *amount && self.entries@[i].1 == *k,
    {
        let mut i: usize = 0;
        while i < self.entries.len()
            invariant
                i <= self.entries@.len(),
                forall|k: int| 0 <= k < i ==> #[trigger] self.entries@[k].0.milli_sat != amount.milli_sat,
            decreases self.entries@.len() - i,
        {
            if self.entries[i].0.milli_sat == amount.milli_sat {
                assert(self.entries@[i as int].0 == *amount);
                return Ok(&self.entries[i].1);
            }
            i = i + 1;
        }
        Err(InvalidAmountTierError(*amount))
    }
}

/// Items grouped by tier: a flat sequence of `(tier, item)`, tiers ascending, items of one tier
/// in the order they were added.
#[derive(Debug)]
pub struct Coins<T> {
    pub items: Vec<(Amount, T)>,
}

impl<T> Coins<T> {
    /// Tiers never descend along the sequence.
    pub open spec fn wf(&self) -> bool {
        forall|i: int, j: int|
            0 <= i <= j < self.items@.len() ==> #[trigger] self.items@[i].0.milli_sat
                <= #[trigger] self.items@[j].0.milli_sat
    }

    /// Same tiers with the same number of items each, in the same order.
    pub open spec fn same_shape<U>(&self, other: &Coins<U>) -> bool {
        tiers_of(self.items@) == tiers_of(other.items@)
    }

    pub fn new() -> (r: Coins<T>)
        ensures
            r.wf(),
            r.items@.len() == 0,
    {
        Coins { items: Vec::new() }
    }

    /// Adds `item` after every item of a tier up to `amount`.
    pub fn insert(&mut self, amount: Amount, item: T)
        requires
            old(self).wf(),
        ensures
            final(self).wf(),
            exists|p: int|
                0 <= p <= old(self).items@.len()
                && final(self).items@ == old(self).items@.insert(p, (amount, item))
                && (forall|k: int| 0 <= k < p ==> #[trigger] old(self).items@[k].0.milli_sat <= amount.milli_sat)
                && (forall|k: int| p <= k < old(self).items@.len() ==> #[trigger] old(self).items@[k].0.milli_sat > amount.milli_sat),
    {
        let mut i: usize = 0;
        while i < self.items.len() && self.items[i].0.milli_sat <= amount.milli_sat
            invariant
                self == old(self),
                i <= self.items@.len(),
                forall|k: int| 0 <= k < i ==> #[trigger] self.items@[k].0.milli_sat <= amount.milli_sat,
            decreases self.items@.len() - i,
        {
            i = i + 1;
        }
        let ghost old_items = self.items@;
        assert(forall|k: int| i <= k < old_items.len() ==> #[trigger] old_items[k].0.milli_sat > amount.milli_sat) by {
            assert forall|k: int| i <= k < old_items.len() implies #[trigger] old_items[k].0.milli_sat > amount.milli_sat by {
                assert(old_items[i as int].0.milli_sat <= old_items[k].0.milli_sat);
            }
        }
        self.items.insert(i, (amount, item));
        assert(self.items@ == old_items.insert(i as int, (amount, item)));
    }

    /// Number of items over all tiers.
    pub fn coin_count(&self) -> (r: usize)
        ensures
            r == self.items@.len(),
    {
        self.items.len()
    }

    /// Whether `other` has the same tiers with the same number of items each, in the same
    /// order.
    pub fn structural_eq<U>(&self, other: &Coins<U>) -> (r: bool)
        ensures
            r == self.same_shape(other),
    {
        if self.items.len() != other.items.len() {
            proof {
                assert(tiers_of(self.items@).len() != tiers_of(other.items@).len());
            }
            return false;
        }
        let mut i: usize = 0;
        while i < self.items.len()
            invariant
                i <= self.items@.len(),
                self.items@.len() == other.items@.len(),
                forall|k: int| 0 <= k < i ==> #[trigger] self.items@[k].0.milli_sat == other.items@[k].0.milli_sat,
            decreases self.items@.len() - i,
        {
            if self.items[i].0.milli_sat != other.items[i].0.milli_sat {
                proof {
                    assert(tiers_of(self.items@)[i as int] != tiers_of(other.items@)[i as int]);
                }
                return false;
            }
            i = i + 1;
        }
        proof {
            assert(tiers_of(self.items@) =~= tiers_of(other.items@));
        }
        true
    }
}

impl Coins<()> {
    /// Decomposes `amount` greedily over the tiers of `tiers`, largest tier first. Fails with
    /// the part that no tier covers when the draws do not add up to the amount; succeeds
    /// whenever each tier divides every larger one and the smallest tier divides the amount.
    pub fn represent_amount<K>(amount: Amount, tiers: &Keys<K>) -> (r: Result<Coins<()>, InvalidAmountTierError>)
        requires
            tiers.wf(),
        ensures
            r is Ok <==> greedy_rest(amount.milli_sat as nat, tiers.entries@) == 0,
            r matches Err(e) ==> e.0.milli_sat == greedy_rest(amount.milli_sat as nat, tiers.entries@),
            r matches Ok(c) ==> {
                &&& c.wf()
                &&& tiers_of(c.items@) == greedy(amount.milli_sat as nat, tiers.entries@)
                &&& sum_tiers(tiers_of(c.items@)) == amount.milli_sat
                &&& forall|k: int| 0 <= k < c.items@.len() ==> tiers.has_tier(#[trigger] c.items@[k].0.milli_sat)
            },
            tier_chain(tiers.entries@) && tiers.entries@.len() > 0
                && amount.milli_sat % tiers.entries@[0].0.milli_sat == 0 ==> r is Ok,
    {
        let (r, rest) = greedy_draws(amount.milli_sat, tiers, tiers.entries.len());
        assert(tiers.entries@.subrange(0, tiers.entries@.len() as int) =~= tiers.entries@);
        proof {
            lemma_greedy_total(amount.milli_sat as nat, tiers.entries@);
            if tier_chain(tiers.entries@) && tiers.entries@.len() > 0 {
                lemma_greedy_rest_chain(amount.milli_sat as nat, tiers.entries@);
            }
        }
        if rest != 0 {
            return Err(InvalidAmountTierError(Amount { milli_sat: rest }));
        }
        assert forall|k: int| 0 <= k < r@.len() implies tiers.has_tier(#[trigger] r@[k].0.milli_sat) by {
            assert(in_first(tiers.entries@, tiers.entries@.len() as int, r@[k].0));
            let j = choose|j: int| 0 <= j < tiers.entries@.len() && #[trigger] tiers.entries@[j].0 == r@[k].0;
            assert(tiers.entries@[j].0.milli_sat == r@[k].0.milli_sat);
        }
        Ok(Coins { items: r })
    }
}

/// `a` is one of the first `n` tiers of `es`.
pub open spec fn in_first<K>(es: Seq<(Amount, K)>, n: int, a: Amount) -> bool {
    exists|j: int| 0 <= j < n && #[trigger] es[j].0 == a
}

/// The greedy decomposition of `a` over the first `n` tiers of `tiers`.
fn greedy_draws<K>(a: u64, tiers: &Keys<K>, n: usize) -> (res: (Vec<(Amount, ())>, u64))
    requires
        tiers.wf(),
        n <= tiers.entries@.len(),
    ensures
        ({
            let r = res.0;
            &&& tiers_of(r@) == greedy(a as nat, tiers.entries@.subrange(0, n as int))
            &&& forall|k: int| 0 <= k < r@.len() ==> in_first(tiers.entries@, n as int, #[trigger] r@[k].0)
            &&& forall|i: int, j: int| 0 <= i <= j < r@.len() ==> #[trigger] r@[i].0.milli_sat <= #[trigger] r@[j].0.milli_sat
        }),
        res.1 == greedy_rest(a as nat, tiers.entries@.subrange(0, n as int)),
    decreases n,
{
    if n == 0 {
        assert(tiers_of(Seq::<(Amount, ())>::empty()) =~= Seq::<u64>::empty());
        return (Vec::new(), a);
    }
    assert(tiers.entries@.subrange(0, n as int).drop_last() =~= tiers.entries@.subrange(0, n - 1));
    let t = tiers.entries[n - 1].0;
    let (mut r, rest) = greedy_draws(a % t.milli_sat, tiers, n - 1);
    let count: u64 = a / t.milli_sat;
    let ghost base = r@;
    let mut c: u64 = 0;
    while c < count
        invariant
            c <= count,
            base.len() + c == r@.len(),
            r@.subrange(0, base.len() as int) == base,
            forall|k: int| base.len() <= k < r@.len() ==> #[trigger] r@[k].0 == t,
            forall|k: int| 0 <= k < base.len() ==> in_first(tiers.entries@, n - 1, #[trigger] base[k].0),
            forall|i: int, j: int| 0 <= i <= j < base.len() ==> #[trigger] base[i].0.milli_sat <= #[trigger] base[j].0.milli_sat,
            tiers.wf(),
            0 < n <= tiers.entries@.len(),
            t == tiers.entries@[n - 1].0,
        decreases count - c,
    {
        r.push((t, ()));
        c = c + 1;
    }
    proof {
        assert(tiers_of(r@) =~= tiers_of(base) + repeat_tier(t.milli_sat, (a / t.milli_sat) as nat));
        assert forall|k: int| 0 <= k < r@.len() implies in_first(tiers.entries@, n as int, #[trigger] r@[k].0) by {
            if k < base.len() {
                assert(r@[k] == base[k]);
                assert(in_first(tiers.entries@, n - 1, base[k].0));
                let j = choose|j: int| 0 <= j < n - 1 && #[trigger] tiers.entries@[j].0 == base[k].0;
                assert(tiers.entries@[j].0 == r@[k].0);
            } else {
                assert(tiers.entries@[n - 1].0 == r@[k].0);
            }
        }
        assert forall|i: int, j: int| 0 <= i <= j < r@.len() implies #[trigger] r@[i].0.milli_sat <= #[trigger] r@[j].0.milli_sat by {
            if j < base.len() {
                assert(r@[i] == base[i]);
                assert(r@[j] == base[j]);
            } else if i < base.len() {
                assert(r@[i] == base[i]);
                assert(in_first(tiers.entries@, n - 1, base[i].0));
                let m = choose|m: int| 0 <= m < n - 1 && #[trigger] tiers.entries@[m].0 == base[i].0;
                assert(tiers.entries@[m].0.milli_sat < tiers.entries@[n - 1].0.milli_sat);
            }
        }
    }
    (r, rest)
}

} // verus!
