//! The append-only event store.
//!
//! The store is an unbounded, volatile log of [`Event`] records. It only ever
//! grows: there is no deletion, truncation or compaction. Identity of an
//! event is positional (its append index), duplicates are legal. Callers that
//! share one store across threads wrap it in a reader/writer lock; every
//! operation here takes either `&self` (readers) or `&mut self` (the one
//! writer), so a lock that hands out shared and exclusive access accordingly
//! makes each whole-batch append atomic with respect to readers.

use vstd::prelude::*;

use crate::event::Event;

verus! {

/// The subsequence of `evs` whose `host` field equals `h`, in append order.
pub open spec fn events_with_host(evs: Seq<Event>, h: Seq<char>) -> Seq<Event>
    decreases evs.len(),
{
    if evs.len() == 0 {
        Seq::empty()
    } else {
        let rest = events_with_host(evs.drop_last(), h);
        if evs.last().host@ == h {
            rest.push(evs.last())
        } else {
            rest
        }
    }
}

/// The concatenation, in order, of a sequence of batches.
pub open spec fn concat_batches(batches: Seq<Seq<Event>>) -> Seq<Event>
    decreases batches.len(),
{
    if batches.len() == 0 {
        Seq::empty()
    } else {
        concat_batches(batches.drop_last()) + batches.last()
    }
}

/// The total number of events over a sequence of batches.
pub open spec fn sum_batch_lens(batches: Seq<Seq<Event>>) -> nat
    decreases batches.len(),
{
    if batches.len() == 0 {
        0
    } else {
        sum_batch_lens(batches.drop_last()) + batches.last().len()
    }
}

/// The contents of a store that started at `init` after the batches in
/// `batches` have been appended, one `append` call each, in order.
pub open spec fn store_after(init: Seq<Event>, batches: Seq<Seq<Event>>) -> Seq<Event> {
    init + concat_batches(batches)
}

/// Thread-safe (under an outer reader/writer lock), append-only, unbounded
/// sequence of events. The view of a store is the full event sequence in
/// append order.
pub struct EventStore {
    events: Vec<Event>,
}

impl View for EventStore {
    type V = Seq<Event>;

    closed spec fn view(&self) -> Seq<Event> {
        self.events@
    }
}

impl EventStore {
    /// An empty store.
    pub fn new() -> (r: EventStore)
        ensures
            r@ == Seq::<Event>::empty(),
    {
        EventStore { events: Vec::new() }
    }

    /// Appends the whole batch, in the order given, and returns how many
    /// events were appended. Always succeeds: there is no validation and no
    /// capacity limit.
    pub fn append(&mut self, batch: &Vec<Event>) -> (n: usize)
        ensures
            final(self)@ == old(self)@ + batch@,
            n == batch@.len(),
    {
        let mut i: usize = 0;
        while i < batch.len()
            invariant
                i <= batch.len(),
                self@ == old(self)@ + batch@.take(i as int),
            decreases batch.len() - i,
        {
            self.events.push(batch[i].clone());
            proof {
                assert(batch@.take(i + 1 as int) =~= batch@.take(i as int).push(batch@[i as int]));
                assert(self@ =~= old(self)@ + batch@.take(i + 1 as int));
            }
            i = i + 1;
        }
        proof {
            assert(batch@.take(batch@.len() as int) =~= batch@);
        }
        batch.len()
    }

    /// The number of events currently stored.
    pub fn len(&self) -> (n: usize)
        ensures
            n == self@.len(),
    {
        self.events.len()
    }

    /// A read-only view of all events in append order.
    pub fn snapshot(&self) -> (r: &Vec<Event>)
        ensures
            r@ == self@,
    {
        &self.events
    }

    /// Exactly the events whose `host` field equals `host` (exact,
    /// case-sensitive string equality; `host_ipv4` plays no part), returned
    /// latest-first: the reverse of their append order. All fields of each
    /// returned event are unchanged. An unknown host yields an empty vector.
    pub fn filter_by_host(&self, host: &String) -> (r: Vec<Event>)
        ensures
            r@ == events_with_host(self@, host@).reverse(),
    {
        let mut matches: Vec<Event> = Vec::new();
        let mut i: usize = 0;
        while i < self.events.len()
            invariant
                i <= self.events.len(),
                matches@ == events_with_host(self@.take(i as int), host@),
            decreases self.events.len() - i,
        {
            proof {
                assert(self@.take(i + 1 as int).drop_last() =~= self@.take(i as int));
                assert(self@.take(i + 1 as int).last() == self@[i as int]);
            }
            if self.events[i].host == *host {
                matches.push(self.events[i].clone());
            }
            i = i + 1;
        }
        proof {
            assert(self@.take(self@.len() as int) =~= self@);
        }
        let ghost all_matches = matches@;
        let mut r: Vec<Event> = Vec::new();
        proof {
            assert(all_matches.take(all_matches.len() as int) =~= all_matches);
            assert(all_matches.skip(all_matches.len() as int).reverse() =~= Seq::<
                Event,
            >::empty());
        }
        while matches.len() > 0
            invariant
                matches@.len() <= all_matches.len(),
                matches@ == all_matches.take(matches@.len() as int),
                r@ == all_matches.skip(matches@.len() as int).reverse(),
            decreases matches.len(),
        {
            let ghost k = matches@.len() as int;
            let e = matches.pop().unwrap();
            proof {
                assert(e == all_matches[k - 1]);
                assert(matches@ =~= all_matches.take(k - 1));
                assert(all_matches.skip(k - 1).reverse() =~= all_matches.skip(k).reverse().push(
                    all_matches[k - 1]));
            }
            r.push(e);
        }
        proof {
            assert(all_matches.skip(0).reverse() =~= all_matches.reverse());
        }
        r
    }
}

/// Append count invariant: after any run of sequential `append` calls, the
/// store holds exactly the concatenation of the initial contents and the
/// batches in call order, so its length is the initial length plus the sum of
/// the batch lengths. Each `append` contributes its whole batch.
pub proof fn lemma_append_count(init: Seq<Event>, batches: Seq<Seq<Event>>)
    ensures
        store_after(init, batches).len() == init.len() + sum_batch_lens(batches),
    decreases batches.len(),
{
    if batches.len() == 0 {
    } else {
        lemma_append_count(init, batches.drop_last());
    }
}

/// Whole-batch atomicity of the lengths a reader can observe: a store view
/// taken between appends is always `store_after` of the fully applied
/// batches, so a length strictly inside a batch is never seen. In
/// particular, with two appends of sizes `a.len()` and `b.len()` the only
/// reachable lengths are the initial one, the initial plus one whole batch,
/// and the initial plus both.
pub proof fn lemma_append_atomic(init: Seq<Event>, a: Seq<Event>, b: Seq<Event>)
    ensures
        store_after(init, seq![a]).len() == init.len() + a.len(),
        store_after(init, seq![b]).len() == init.len() + b.len(),
        store_after(init, seq![a, b]).len() == init.len() + a.len() + b.len(),
        store_after(init, seq![b, a]).len() == init.len() + a.len() + b.len(),
{
    assert(seq![a].drop_last() =~= Seq::<Seq<Event>>::empty());
    assert(seq![b].drop_last() =~= Seq::<Seq<Event>>::empty());
    assert(seq![a, b].drop_last() =~= seq![a]);
    assert(seq![b, a].drop_last() =~= seq![b]);
    assert(sum_batch_lens(Seq::<Seq<Event>>::empty()) == 0);
    assert(sum_batch_lens(seq![a]) == a.len());
    assert(sum_batch_lens(seq![b]) == b.len());
    assert(sum_batch_lens(seq![a, b]) == a.len() + b.len());
    assert(sum_batch_lens(seq![b, a]) == a.len() + b.len());
    lemma_append_count(init, seq![a]);
    lemma_append_count(init, seq![b]);
    lemma_append_count(init, seq![a, b]);
    lemma_append_count(init, seq![b, a]);
}

} // verus!
