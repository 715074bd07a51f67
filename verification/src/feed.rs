//! The change feed: publish/subscribe with per-subscriber bounded queues.
//!
//! Publication is decoupled from index mutation and never fails: a full
//! queue drops its oldest event, for that subscriber only. Filtering happens
//! at delivery time; an owner filter resolves the event's key back to its
//! current record through the index.

use vstd::prelude::*;
use crate::account::{AccountKey, key_eq};
use crate::index::ShardedIndex;

verus! {

/// A change event. `AccountUpdated` does not carry the owner: an owner
/// filter must resolve the key at delivery time.
#[derive(Clone, Copy, Debug, PartialEq, Eq)]
pub enum Event {
    AccountUpdated { key: AccountKey, balance: u64, slot: u64 },
    SlotUpdated { slot: u64 },
}

/// A subscription filter: by the record's current owner, by exact key, or
/// none.
#[derive(Clone, Copy, Debug)]
pub enum SubFilter {
    ByOwner(AccountKey),
    ByKey(AccountKey),
    Unfiltered,
}

/// Whether an event passes a filter against the index as it stands now.
/// Slot events always pass; an owner filter passes exactly when the key
/// currently resolves to a record with that owner.
pub open spec fn spec_event_passes(idx: ShardedIndex, f: SubFilter, e: Event) -> bool {
    match e {
        Event::SlotUpdated { .. } => true,
        Event::AccountUpdated { key, .. } => match f {
            SubFilter::Unfiltered => true,
            SubFilter::ByKey(k) => key@ == k@,
            SubFilter::ByOwner(o) => match idx.spec_get(key@) {
                Some(rec) => rec.owner == o@,
                None => false,
            },
        },
    }
}

/// Evaluate a delivery-time filter.
pub fn event_passes(index: &ShardedIndex, f: &SubFilter, e: &Event) -> (r: bool)
    requires
        index.wf(),
    ensures
        r == spec_event_passes(*index, *f, *e),
{
    match e {
        Event::SlotUpdated { .. } => true,
        Event::AccountUpdated { key, .. } => match f {
            SubFilter::Unfiltered => true,
            SubFilter::ByKey(k) => key_eq(key, k),
            SubFilter::ByOwner(o) => match index.get(key) {
                Some(rec) => key_eq(&rec.owner, o),
                None => false,
            },
        },
    }
}

/// One subscriber: a bounded FIFO queue plus its delivery-time filter.
pub struct Subscriber {
    queue: Vec<Event>,
    cap: usize,
    filter: SubFilter,
}

impl Subscriber {
    /// Queues never outgrow their capacity, which is positive.
    pub closed spec fn wf(self) -> bool {
        1 <= self.cap && self.queue@.len() <= self.cap
    }

    /// The pending events, oldest first.
    pub closed spec fn spec_queue(self) -> Seq<Event> {
        self.queue@
    }

    /// The fixed queue bound.
    pub closed spec fn spec_cap(self) -> nat {
        self.cap as nat
    }

    /// The delivery-time filter.
    pub closed spec fn spec_filter(self) -> SubFilter {
        self.filter
    }
}

/// What one publication does to one subscriber's queue: append, dropping
/// the oldest event first when the queue is full.
pub open spec fn publish_one_spec(q: Seq<Event>, cap: nat, e: Event) -> Seq<Event> {
    if q.len() < cap {
        q.push(e)
    } else {
        q.drop_first().push(e)
    }
}

/// The next event of a queue that passes the filter, with what is left
/// after it; events that do not pass are consumed silently.
pub open spec fn deliver_spec(idx: ShardedIndex, f: SubFilter, q: Seq<Event>) -> (Option<Event>,
    Seq<Event>)
    decreases q.len(),
{
    if q.len() == 0 {
        (None, q)
    } else if spec_event_passes(idx, f, q.first()) {
        (Some(q.first()), q.drop_first())
    } else {
        deliver_spec(idx, f, q.drop_first())
    }
}

/// The broadcast bus: every subscriber owns an independent queue.
pub struct ChangeFeed {
    subs: Vec<Subscriber>,
}

impl ChangeFeed {
    /// All subscriber queues are well-formed.
    pub closed spec fn wf(self) -> bool {
        forall|i: int| 0 <= i < self.subs@.len() ==> (#[trigger] self.subs@[i]).wf()
    }

    /// Number of subscribers.
    pub closed spec fn spec_len(self) -> nat {
        self.subs@.len()
    }

    /// The queue of subscriber `i`.
    pub closed spec fn spec_queue_of(self, i: int) -> Seq<Event> {
        self.subs@[i].spec_queue()
    }

    /// The capacity of subscriber `i`.
    pub closed spec fn spec_cap_of(self, i: int) -> nat {
        self.subs@[i].spec_cap()
    }

    /// The filter of subscriber `i`.
    pub closed spec fn spec_filter_of(self, i: int) -> SubFilter {
        self.subs@[i].spec_filter()
    }

    /// A bus with no subscribers.
    pub fn new() -> (r: ChangeFeed)
        ensures
            r.wf(),
            r.spec_len() == 0,
    {
        ChangeFeed { subs: Vec::new() }
    }

    /// Register a subscriber with its own bounded queue and filter; returns
    /// its handle.
    pub fn subscribe(&mut self, cap: usize, filter: SubFilter) -> (r: usize)
        requires
            old(self).wf(),
            cap >= 1,
        ensures
            final(self).wf(),
            final(self).spec_len() == old(self).spec_len() + 1,
            r == old(self).spec_len(),
            final(self).spec_queue_of(r as int) == Seq::<Event>::empty(),
            final(self).spec_cap_of(r as int) == cap as nat,
            final(self).spec_filter_of(r as int) == filter,
            forall|i: int|
                0 <= i < old(self).spec_len() ==> final(self).spec_queue_of(i)
                    == old(self).spec_queue_of(i)
                    && final(self).spec_cap_of(i) == old(self).spec_cap_of(i)
                    && final(self).spec_filter_of(i) == old(self).spec_filter_of(i),
    {
        let id = self.subs.len();
        self.subs.push(Subscriber { queue: Vec::new(), cap, filter });
        id
    }

    /// Publish an event to every subscriber. A full queue drops its oldest
    /// event, for that subscriber only; publication never fails and no
    /// other subscriber is affected.
    pub fn publish(&mut self, e: Event)
        requires
            old(self).wf(),
        ensures
            final(self).wf(),
            final(self).spec_len() == old(self).spec_len(),
            forall|i: int|
                0 <= i < old(self).spec_len() ==> final(self).spec_queue_of(i)
                    == publish_one_spec(
                    old(self).spec_queue_of(i),
                    old(self).spec_cap_of(i),
                    e,
                ) && final(self).spec_cap_of(i) == old(self).spec_cap_of(i)
                    && final(self).spec_filter_of(i) == old(self).spec_filter_of(i),
    {
        let ghost pre = *self;
        let mut i: usize = 0;
        while i < self.subs.len()
            invariant
                self.subs@.len() == pre.subs@.len(),
                i <= self.subs@.len(),
                pre.wf(),
                forall|j: int|
                    i <= j < self.subs@.len() ==> self.subs@[j] == pre.subs@[j],
                forall|j: int|
                    0 <= j < i ==> (#[trigger] self.subs@[j]).wf() && self.subs@[j].spec_queue()
                        == publish_one_spec(
                        pre.subs@[j].spec_queue(),
                        pre.subs@[j].spec_cap(),
                        e,
                    ) && self.subs@[j].spec_cap() == pre.subs@[j].spec_cap()
                        && self.subs@[j].spec_filter() == pre.subs@[j].spec_filter(),
            decreases self.subs@.len() - i,
        {
            let mut sub = Subscriber { queue: Vec::new(), cap: 1, filter: SubFilter::Unfiltered };
            core::mem::swap(&mut sub, &mut self.subs[i]);
            let ghost old_sub = sub;
            if sub.queue.len() >= sub.cap {
                sub.queue.remove(0);
                proof {
                    assert(sub.queue@ =~= old_sub.queue@.drop_first());
                }
            }
            sub.queue.push(e);
            self.subs[i] = sub;
            proof {
                assert(self.subs@[i as int].spec_queue() == publish_one_spec(
                    pre.subs@[i as int].spec_queue(),
                    pre.subs@[i as int].spec_cap(),
                    e,
                ));
            }
            i += 1;
        }
    }

    /// Deliver the next event for subscriber `id` that passes its filter,
    /// consuming everything up to and including it; `None` once the queue
    /// holds nothing deliverable.
    pub fn poll(&mut self, index: &ShardedIndex, id: usize) -> (r: Option<Event>)
        requires
            old(self).wf(),
            index.wf(),
            id < old(self).spec_len(),
        ensures
            final(self).wf(),
            final(self).spec_len() == old(self).spec_len(),
            ({
                let d = deliver_spec(
                    *index,
                    old(self).spec_filter_of(id as int),
                    old(self).spec_queue_of(id as int),
                );
                r == d.0 && final(self).spec_queue_of(id as int) == d.1
            }),
            final(self).spec_cap_of(id as int) == old(self).spec_cap_of(id as int),
            final(self).spec_filter_of(id as int) == old(self).spec_filter_of(id as int),
            forall|i: int|
                0 <= i < old(self).spec_len() && i != id ==> final(self).spec_queue_of(i) == old(
                    self,
                ).spec_queue_of(i) && final(self).spec_cap_of(i) == old(self).spec_cap_of(i)
                    && final(self).spec_filter_of(i) == old(self).spec_filter_of(i),
    {
        let ghost pre = *self;
        let mut sub = Subscriber { queue: Vec::new(), cap: 1, filter: SubFilter::Unfiltered };
        core::mem::swap(&mut sub, &mut self.subs[id]);
        let ghost origq = sub.queue@;
        let ghost f = sub.filter;
        let mut result: Option<Event> = None;
        while result.is_none() && sub.queue.len() > 0
            invariant
                index.wf(),
                sub.cap == pre.subs@[id as int].cap,
                sub.filter == f,
                sub.queue@.len() <= sub.cap,
                1 <= sub.cap,
                match result {
                    None => deliver_spec(*index, f, origq) == deliver_spec(
                        *index,
                        f,
                        sub.queue@,
                    ),
                    Some(ev) => deliver_spec(*index, f, origq) == (Some(ev), sub.queue@),
                },
            decreases sub.queue@.len() + (if result is None { 1int } else { 0int }),
        {
            let ghost qbefore = sub.queue@;
            let ev = sub.queue.remove(0);
            proof {
                assert(ev == qbefore.first());
                assert(sub.queue@ =~= qbefore.drop_first());
            }
            if event_passes(index, &sub.filter, &ev) {
                result = Some(ev);
            }
        }
        self.subs[id] = sub;
        proof {
            assert(self.subs@ =~= pre.subs@.update(id as int, self.subs@[id as int]));
        }
        result
    }
}

} // verus!
