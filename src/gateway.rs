use vstd::prelude::*;
use crate::issuance::ClientError;

verus! {

#[verifier::external_type_specification]
#[verifier::external_body]
pub struct ExStdRng(rand::rngs::StdRng);

/// Relies on rand::seq::index::sample, which draws exactly `count` distinct indices below
/// `count` in random order; above `u32::MAX` indices it takes a path that only debug-asserts
/// its bounds, so those counts are left out.
#[verifier::external_body]
fn sample_all(count: usize, rng: &mut rand::rngs::StdRng) -> (r: Vec<usize>)
    requires
        count <= 0xffff_ffff,
    ensures
        r@.len() == count,
        forall|i: int| 0 <= i < r@.len() ==> #[trigger] r@[i] < count,
        forall|i: int, j: int| 0 <= i < j < r@.len() ==> #[trigger] r@[i] != #[trigger] r@[j],
{
    rand::seq::index::sample(rng, count, count).into_vec()
}

/// Relies on rand::Rng::gen_range, which draws a value of the given range; it panics on an
/// empty range.
#[verifier::external_body]
fn random_below(count: usize, rng: &mut rand::rngs::StdRng) -> (r: usize)
    requires
        count > 0,
    ensures
        r < count,
{
    rand::Rng::gen_range(rng, 0..count)
}

/// Every index below `n` occurs exactly once in `order`.
pub open spec fn is_permutation(order: Seq<usize>, n: nat) -> bool {
    &&& order.len() == n
    &&& forall|i: int| 0 <= i < order.len() ==> #[trigger] order[i] < n
    &&& forall|i: int, j: int| 0 <= i < j < order.len() ==> #[trigger] order[i] != #[trigger] order[j]
}

/// A uniformly random order in which to contact `count` mints.
pub fn random_order(count: usize, rng: &mut rand::rngs::StdRng) -> (r: Vec<usize>)
    requires
        count <= 0xffff_ffff,
    ensures
        is_permutation(r@, count as nat),
{
    sample_all(count, rng)
}

/// The mint to ask, chosen at random among `count`; none when there is no mint.
pub fn choose_mint(count: usize, rng: &mut rand::rngs::StdRng) -> (r: Result<usize, ClientError>)
    ensures
        count == 0 <==> r matches Err(ClientError::MintError),
        r matches Ok(i) ==> i < count,
{
    if count == 0 {
        Err(ClientError::MintError)
    } else {
        Ok(random_below(count, rng))
    }
}

/// What a broadcast does next.
#[derive(Debug)]
pub enum BroadcastStep {
    /// Send the signing request to the mint with this index.
    Send(usize),
    /// The broadcast is over: some mint accepted, or none did.
    Done(Result<(), ClientError>),
}

/// The decisions of a peg-in broadcast: mints are contacted one at a time in `order`,
/// until `quorum` of them have accepted or all have been tried.
#[derive(Debug)]
pub struct Broadcast {
    order: Vec<usize>,
    contacted: usize,
    successes: usize,
    quorum: usize,
}

impl Broadcast {
    pub closed spec fn order(&self) -> Seq<usize> {
        self.order@
    }

    pub closed spec fn contacted(&self) -> nat {
        self.contacted as nat
    }

    pub closed spec fn successes(&self) -> nat {
        self.successes as nat
    }

    pub closed spec fn quorum(&self) -> nat {
        self.quorum as nat
    }

    pub closed spec fn wf(&self) -> bool {
        &&& self.contacted <= self.order@.len()
        &&& self.successes <= self.contacted
        &&& self.quorum >= 1
    }

    /// No further mint is to be contacted.
    pub open spec fn finished(&self) -> bool {
        self.successes() >= self.quorum() || self.contacted() >= self.order().len()
    }

    /// A broadcast over the mints in `order` that stops after `quorum` acceptances; a quorum
    /// of 0 counts as 1, so that a failed broadcast has tried every mint.
    pub fn new(order: Vec<usize>, quorum: usize) -> (r: Broadcast)
        ensures
            r.wf(),
            r.order() == order@,
            r.quorum() == if quorum == 0 { 1 } else { quorum as nat },
            r.quorum() >= 1,
            r.contacted() == 0,
            r.successes() == 0,
    {
        let quorum = if quorum == 0 { 1 } else { quorum };
        Broadcast { order, contacted: 0, successes: 0, quorum }
    }

    /// Contact the next mint in order, or report the outcome: success when at least one mint
    /// accepted.
    pub fn next_step(&self) -> (r: BroadcastStep)
        requires
            self.wf(),
        ensures
            !self.finished() ==> (r matches BroadcastStep::Send(i) && i == self.order()[self.contacted() as int]),
            self.finished() && self.successes() > 0 ==> r matches BroadcastStep::Done(Ok(())),
            self.finished() && self.successes() == 0 ==> r matches BroadcastStep::Done(Err(ClientError::MintError)),
    {
        if self.successes >= self.quorum || self.contacted >= self.order.len() {
            if self.successes > 0 {
                BroadcastStep::Done(Ok(()))
            } else {
                BroadcastStep::Done(Err(ClientError::MintError))
            }
        } else {
            BroadcastStep::Send(self.order[self.contacted])
        }
    }

    /// Records the answer of the mint just contacted.
    pub fn record(&mut self, accepted: bool)
        requires
            old(self).wf(),
            !old(self).finished(),
        ensures
            final(self).wf(),
            final(self).quorum() >= 1,
            final(self).order() == old(self).order(),
            final(self).quorum() == old(self).quorum(),
            final(self).contacted() == old(self).contacted() + 1,
            final(self).successes() == old(self).successes() + if accepted { 1nat } else { 0nat },
    {
        let n = self.order.len();
        assert(self.contacted < n);
        self.contacted = self.contacted + 1;
        if accepted {
            self.successes = self.successes + 1;
        }
    }

    /// Number of acceptances so far.
    pub fn successes_so_far(&self) -> (r: usize)
        ensures
            r == self.successes(),
    {
        self.successes
    }

    /// Number of mints contacted so far.
    pub fn contacted_so_far(&self) -> (r: usize)
        ensures
            r == self.contacted(),
    {
        self.contacted
    }
}

/// How a broadcast ends: it stops early only once its quorum of acceptances is reached, and
/// when no mint accepted it has contacted every mint of its order (each once, the order being
/// a permutation of the mints), so it reports an error only after trying them all.
pub proof fn lemma_broadcast_end(b: &Broadcast)
    requires
        b.wf(),
        b.finished(),
    ensures
        b.quorum() >= 1,
        b.contacted() < b.order().len() ==> b.successes() >= b.quorum(),
        b.successes() == 0 ==> b.contacted() == b.order().len(),
{
}

} // verus!
