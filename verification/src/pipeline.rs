//! The orchestrator: the order in which domains are processed, the check
//! that skips those already classified, and the batches that bound how many
//! are in progress at once.

use crate::sink::{not_mentioned, ResultLog};
use crate::text::string_views;
use rand::seq::SliceRandom;
use vstd::prelude::*;

verus! {

/// The largest number of domains in progress at once.
pub const BATCH_SIZE: usize = 32;

/// Puts `domains` into a random order.
///
/// Wraps `SliceRandom::shuffle` of the crate `rand`, with the generator of
/// `rand::thread_rng`. It swaps entries of the slice, so what comes out
/// holds the same strings, each as often as before; the order is left to
/// chance.
#[verifier::external_body]
fn shuffle(domains: &mut Vec<String>)
    ensures
        string_views(final(domains)@).to_multiset() == string_views(old(domains)@).to_multiset(),
{
    domains.shuffle(&mut rand::thread_rng());
}

/// The domains to process in this run: `domains` in a random order, without
/// those that the log of successes mentions.
pub fn processing_order(domains: Vec<String>, done: &ResultLog) -> (pending: Vec<String>)
    ensures
        exists|order: Seq<Seq<char>>|
            order.to_multiset() == string_views(domains@).to_multiset() && string_views(pending@)
                == #[trigger] not_mentioned(order, done@),
{
    let mut order = domains;
    shuffle(&mut order);
    let ghost shuffled = string_views(order@);
    let pending = done.unseen(order);
    proof {
        assert(string_views(pending@) == not_mentioned(shuffled, done@));
    }
    pending
}

/// The number of domains in the next batch, when `waiting` domains are
/// left.
pub open spec fn batch_len(waiting: nat) -> nat {
    if waiting <= BATCH_SIZE {
        waiting
    } else {
        BATCH_SIZE as nat
    }
}

/// The state of a run: the domains that wait for their turn, and the
/// number of those in progress. A batch is started only when nothing is in
/// progress, and holds at most `BATCH_SIZE` domains.
pub struct Orchestrator {
    queue: Vec<String>,
    next: usize,
    running: usize,
}

impl Orchestrator {
    #[verifier::type_invariant]
    spec fn well_formed(self) -> bool {
        self.next <= self.queue.len() && self.running <= BATCH_SIZE
    }

    /// The domains that wait for their turn, in the order of their turn.
    pub closed spec fn waiting(&self) -> Seq<Seq<char>> {
        string_views(self.queue@).skip(self.next as int)
    }

    /// The number of domains in progress.
    pub closed spec fn in_flight(&self) -> nat {
        self.running as nat
    }

    /// A run in which `pending` wait and nothing is in progress.
    pub fn new(pending: Vec<String>) -> (run: Orchestrator)
        ensures
            run.waiting() == string_views(pending@),
            run.in_flight() == 0,
    {
        proof {
            assert(string_views(pending@).skip(0) == string_views(pending@));
        }
        Orchestrator { queue: pending, next: 0, running: 0 }
    }

    /// The number of domains in progress. It never exceeds `BATCH_SIZE`.
    pub fn running(&self) -> (n: usize)
        ensures
            n == self.in_flight(),
            n <= BATCH_SIZE,
    {
        proof {
            use_type_invariant(self);
        }
        self.running
    }

    /// Whether nothing waits and nothing is in progress.
    pub fn is_done(&self) -> (done: bool)
        ensures
            done == (self.waiting().len() == 0 && self.in_flight() == 0),
    {
        proof {
            use_type_invariant(self);
        }
        self.next == self.queue.len() && self.running == 0
    }

    /// Starts the next batch: the first `BATCH_SIZE` of the domains that
    /// wait, or all of them if there are no more. While a domain is in
    /// progress no batch is started, and what comes back is empty.
    pub fn start_batch(&mut self) -> (batch: Vec<String>)
        ensures
            old(self).in_flight() > 0 ==> batch.len() == 0 && final(self).waiting() == old(
                self,
            ).waiting() && final(self).in_flight() == old(self).in_flight(),
            old(self).in_flight() == 0 ==> string_views(batch@) == old(self).waiting().take(
                batch_len(old(self).waiting().len()) as int,
            ) && final(self).waiting() == old(self).waiting().skip(
                batch_len(old(self).waiting().len()) as int,
            ) && final(self).in_flight() == batch.len(),
            old(self).in_flight() == 0 ==> batch.len() == batch_len(old(self).waiting().len()),
            string_views(batch@) + final(self).waiting() == old(self).waiting(),
            final(self).in_flight() <= BATCH_SIZE,
    {
        proof {
            use_type_invariant(&*self);
        }
        let mut batch: Vec<String> = Vec::new();
        if self.running > 0 {
            proof {
                assert(string_views(batch@) + self.waiting() == self.waiting());
            }
            return batch;
        }
        let left: usize = self.queue.len() - self.next;
        let n: usize = if left <= BATCH_SIZE {
            left
        } else {
            BATCH_SIZE
        };
        let first: usize = self.next;
        let ghost all = string_views(self.queue@);
        let mut k: usize = 0;
        while k < n
            invariant
                all == string_views(self.queue@),
                first + n <= self.queue.len(),
                k <= n,
                batch.len() == k,
                forall|m: int| 0 <= m < k ==> (#[trigger] batch@[m])@ == all[first + m],
            decreases n - k,
        {
            batch.push(self.queue[first + k].clone());
            k = k + 1;
        }
        self.next = first + n;
        self.running = n;
        proof {
            let waiting = all.skip(first as int);
            assert(string_views(batch@) == waiting.take(n as int));
            assert(all.skip(first + n) == waiting.skip(n as int));
            assert(waiting.take(n as int) + waiting.skip(n as int) == waiting);
        }
        batch
    }

    /// Notes that one domain in progress has reached its end. Where
    /// nothing is in progress, nothing changes.
    pub fn finish_one(&mut self)
        ensures
            final(self).waiting() == old(self).waiting(),
            final(self).in_flight() == if old(self).in_flight() > 0 {
                old(self).in_flight() - 1
            } else {
                0
            },
            final(self).in_flight() <= BATCH_SIZE,
    {
        proof {
            use_type_invariant(&*self);
        }
        if self.running > 0 {
            self.running = self.running - 1;
        }
    }
}

} // verus!
