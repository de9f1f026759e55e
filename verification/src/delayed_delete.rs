use crate::combine_maintenance::{lemma_present_wakes_push, present_wakes, MaintenanceTask};
use crate::item::Item;
use crate::state::{
    deadline_among, delete_reached, deletes_due_from, deletes_of, interp, lemma_interp_push,
    still_pending, wake_no_later, without_key, OpKind, ScenarioEvent, Write,
};
use vstd::prelude::*;

verus! {

/// Deadlines never decrease from the front of the queue to the back.
pub open spec fn deadlines_sorted(q: Seq<(Item, u64)>) -> bool {
    forall|i: int, j: int|
        #![trigger q[i], q[j]]
        0 <= i <= j < q.len() ==> q[i].1 <= q[j].1
}

/// How many entries at the front of the queue have fallen due by `now`.
pub open spec fn due_count(q: Seq<(Item, u64)>, now: u64) -> int
    decreases q.len(),
{
    if q.len() == 0 {
        0
    } else if q[0].1 <= now {
        1 + due_count(q.drop_first(), now)
    } else {
        0
    }
}

/// Withdrawing a key keeps every other entry, in order: the survivors carry
/// no entry of that key, each survivor is one of the original entries, and
/// deadline order is preserved.
pub proof fn lemma_without_key(q: Seq<(Item, u64)>, key: u64)
    ensures
        forall|j: int|
            0 <= j < without_key(q, key).len() ==> (#[trigger] without_key(q, key)[j]).0.key
                != key,
        forall|j: int|
            #![trigger without_key(q, key)[j]]
            0 <= j < without_key(q, key).len() ==> exists|i: int|
                0 <= i < q.len() && q[i] == without_key(q, key)[j],
        deadlines_sorted(q) ==> deadlines_sorted(without_key(q, key)),
    decreases q.len(),
{
    if q.len() > 0 {
        let prefix = q.drop_last();
        let wk = without_key(q, key);
        let wkp = without_key(prefix, key);
        lemma_without_key(prefix, key);
        assert forall|j: int|
            #![trigger wk[j]]
            0 <= j < wk.len() implies exists|i: int| 0 <= i < q.len() && q[i] == wk[j] by {
            if j < wkp.len() {
                let i = choose|i: int| 0 <= i < prefix.len() && prefix[i] == wkp[j];
                assert(q[i] == wk[j]);
            } else {
                assert(q[q.len() - 1] == wk[j]);
            }
        }
        if deadlines_sorted(q) {
            assert forall|i: int, j: int|
                #![trigger prefix[i], prefix[j]]
                0 <= i <= j < prefix.len() implies prefix[i].1 <= prefix[j].1 by {
                assert(prefix[i] == q[i] && prefix[j] == q[j]);
            }
            assert forall|i: int, j: int|
                #![trigger wk[i], wk[j]]
                0 <= i <= j < wk.len() implies wk[i].1 <= wk[j].1 by {
                if j < wkp.len() {
                    assert(wkp[i].1 <= wkp[j].1);
                } else if i < wkp.len() {
                    let i0 = choose|i0: int| 0 <= i0 < prefix.len() && prefix[i0] == wkp[i];
                    assert(q[i0].1 <= q[q.len() - 1].1);
                }
            }
        }
    }
}

/// Withdrawing a key distributes over the layering's concatenated pending
/// work.
pub proof fn lemma_without_key_concat(a: Seq<(Item, u64)>, b: Seq<(Item, u64)>, key: u64)
    ensures
        without_key(a + b, key) == without_key(a, key) + without_key(b, key),
    decreases b.len(),
{
    if b.len() == 0 {
        assert(a + b =~= a);
        assert(without_key(b, key) =~= Seq::<(Item, u64)>::empty());
        assert(without_key(a, key) + without_key(b, key) =~= without_key(a, key));
    } else {
        lemma_without_key_concat(a, b.drop_last(), key);
        assert((a + b).drop_last() =~= a + b.drop_last());
        assert((a + b).last() == b.last());
        if b.last().0.key != key {
            assert(without_key(a, key) + without_key(b.drop_last(), key).push(b.last()) =~= (
            without_key(a, key) + without_key(b.drop_last(), key)).push(b.last()));
        }
    }
}

/// The entries counted as due have indeed fallen due, and the first entry
/// past them has not.
pub proof fn lemma_due_count(q: Seq<(Item, u64)>, now: u64)
    ensures
        0 <= due_count(q, now) <= q.len(),
        forall|i: int| 0 <= i < due_count(q, now) ==> (#[trigger] q[i]).1 <= now,
        due_count(q, now) < q.len() ==> q[due_count(q, now)].1 > now,
    decreases q.len(),
{
    if q.len() > 0 && q[0].1 <= now {
        let rest = q.drop_first();
        lemma_due_count(rest, now);
        assert forall|i: int| 0 <= i < due_count(q, now) implies (#[trigger] q[i]).1 <= now by {
            if i > 0 {
                assert(rest[i - 1] == q[i]);
            }
        }
        if due_count(q, now) < q.len() {
            assert(rest[due_count(q, now) - 1] == q[due_count(q, now)]);
        }
    }
}

/// Law: appending an entry whose deadline is no earlier than every queued
/// deadline keeps the queue in deadline order.  With a constant grace period
/// and a clock that only moves forward, every scheduled entry is such an
/// append.
pub proof fn lemma_schedule_keeps_order(q: Seq<(Item, u64)>, item: Item, deadline: u64)
    requires
        deadlines_sorted(q),
        forall|i: int| 0 <= i < q.len() ==> (#[trigger] q[i]).1 <= deadline,
    ensures
        deadlines_sorted(q.push((item, deadline))),
{
    let q2 = q.push((item, deadline));
    assert forall|i: int, j: int|
        #![trigger q2[i], q2[j]]
        0 <= i <= j < q2.len() implies q2[i].1 <= q2[j].1 by {
        if j < q.len() {
            assert(q2[i] == q[i] && q2[j] == q[j]);
        } else if i < q.len() {
            assert(q2[i] == q[i]);
        }
    }
}

/// Law: in a queue in deadline order, the front entry carries the minimum
/// deadline among all pending entries.
pub proof fn lemma_front_deadline_is_min(q: Seq<(Item, u64)>)
    requires
        deadlines_sorted(q),
        q.len() > 0,
    ensures
        forall|i: int| 0 <= i < q.len() ==> q[0].1 <= (#[trigger] q[i]).1,
{
    assert forall|i: int| 0 <= i < q.len() implies q[0].1 <= (#[trigger] q[i]).1 by {
        assert(q[0].1 <= q[i].1);
    }
}

/// A state sink decorator that defers deletions by a fixed grace period, so
/// that a delete racing with a near-simultaneous re-add of the same key does
/// not cause a spurious visible removal.
///
/// Deletes are queued with a deadline and forwarded to the wrapped sink only
/// once the deadline has passed.  Because the grace period is constant and
/// the clock only moves forward, the queue is appended in deadline order and
/// is never sorted.  A later add or update of a key withdraws every pending
/// delete of that key, so a stale delete can never remove a re-added object;
/// a resync discards the whole queue, since the world is about to be rebuilt
/// from a fresh authoritative list.
pub struct DelayedDelete<T> {
    pub inner: T,
    pub queue: Vec<(Item, u64)>,
    pub delay_for: u64,
    pub hist: Ghost<Seq<ScenarioEvent>>,
}

impl<T: Write> DelayedDelete<T> {
    /// Create a new [`DelayedDelete`] around `inner`, deferring deletes by
    /// `delay_for`.
    pub fn new(inner: T, delay_for: u64) -> (r: Self)
        ensures
            r.inner == inner,
            r.delay_for == delay_for,
            r.queue@ == Seq::<(Item, u64)>::empty(),
            r.history() == inner.history(),
            inner.wf() ==> r.wf(),
            forall|m: u64| inner.admits(m) && m + delay_for <= u64::MAX ==> r.admits(m),
    {
        let ghost h = inner.history();
        let queue: Vec<(Item, u64)> = Vec::new();
        DelayedDelete { inner, queue, delay_for, hist: Ghost(h) }
    }

    /// Queue a delete of `item`, due one grace period from `now`.
    pub fn schedule_delete(&mut self, item: Item, now: u64)
        requires
            old(self).wf(),
            old(self).admits(now),
        ensures
            final(self).wf(),
            final(self).queue@ == old(self).queue@.push(
                (item, (now + old(self).delay_for) as u64),
            ),
            final(self).inner == old(self).inner,
            final(self).delay_for == old(self).delay_for,
            final(self).hist == old(self).hist,
            forall|m: u64| now <= m && old(self).admits(m) ==> final(self).admits(m),
    {
        let deadline: u64 = now + self.delay_for;
        proof {
            lemma_schedule_keeps_order(self.queue@, item, deadline);
        }
        self.queue.push((item, deadline));
        proof {
            assert forall|m: u64| now <= m && old(self).admits(m) implies self.admits(m) by {
                assert forall|i: int|
                    0 <= i < self.queue@.len() implies (#[trigger] self.queue@[i]).1 <= m
                    + self.delay_for by {
                    if i < old(self).queue@.len() {
                        assert(self.queue@[i] == old(self).queue@[i]);
                    }
                }
            }
        }
    }

    /// The deadline of the front entry, which the queue order makes the
    /// earliest among all queued entries; nothing when the queue is empty.
    pub fn next_deadline(&self) -> (r: Option<u64>)
        ensures
            r == (if self.queue@.len() == 0 {
                Option::<u64>::None
            } else {
                Option::Some(self.queue@[0].1)
            }),
    {
        if self.queue.len() == 0 {
            Option::None
        } else {
            Option::Some(self.queue[0].1)
        }
    }

    /// Pop and forward to the wrapped sink every entry due by `now`,
    /// stopping at the first entry still in the future; the front-of-queue
    /// check suffices because of the deadline order.  What the wrapped sink
    /// does with each forwarded delete is its own contract's business:
    /// either it applies the delete at once or it re-defers it, and the
    /// accounting clauses below track both.
    pub fn perform(&mut self, now: u64)
        requires
            old(self).wf(),
            old(self).inner.admits(now),
        ensures
            final(self).wf(),
            final(self).queue@ == old(self).queue@.subrange(
                due_count(old(self).queue@, now),
                old(self).queue@.len() as int,
            ),
            final(self).inner.history() == old(self).inner.history() + deletes_of(
                old(self).queue@.subrange(0, due_count(old(self).queue@, now)),
            ),
            final(self).delay_for == old(self).delay_for,
            final(self).hist == old(self).hist,
            forall|m: u64| now <= m && old(self).inner.admits(m) ==> final(self).inner.admits(m),
            exists|flushed: Seq<(Item, u64)>|
                final(self).inner.applied() == old(self).inner.applied() + #[trigger] deletes_of(
                    flushed,
                ) && deletes_due_from(flushed, old(self).pending(), now),
            forall|i: int|
                #![trigger old(self).inner.pending()[i]]
                0 <= i < old(self).inner.pending().len() ==> final(self).inner.pending().contains(
                    old(self).inner.pending()[i],
                ),
            forall|i: int|
                #![trigger old(self).queue@[i]]
                0 <= i < due_count(old(self).queue@, now) ==> still_pending(
                    old(self).queue@[i].0,
                    final(self).inner.pending(),
                ) || delete_reached(
                    old(self).queue@[i].0,
                    old(self).inner.applied(),
                    final(self).inner.applied(),
                ),
            forall|j: int|
                #![trigger final(self).inner.pending()[j]]
                0 <= j < final(self).inner.pending().len() ==> old(self).inner.pending().contains(
                    final(self).inner.pending()[j],
                ) || (exists|i: int|
                    0 <= i < due_count(old(self).queue@, now) && (#[trigger] old(self).queue@[i]).0
                        == final(self).inner.pending()[j].0 && final(self).inner.pending()[j].1
                        >= now),
    {
        let ghost q0 = self.queue@;
        let ghost h0 = self.inner.history();
        let ghost inner0 = self.inner;
        let ghost ia0 = self.inner.applied();
        let ghost ip0 = self.inner.pending();
        let ghost pending0 = self.pending();
        let ghost mut k: int = 0;
        let ghost mut fl: Seq<(Item, u64)> = Seq::empty();
        proof {
            lemma_due_count(q0, now);
            assert(q0.subrange(0, q0.len() as int) =~= q0);
            assert(deletes_of(q0.subrange(0, 0)) =~= Seq::<ScenarioEvent>::empty());
            assert(h0 + deletes_of(q0.subrange(0, 0)) =~= h0);
            assert(deletes_of(fl) =~= Seq::<ScenarioEvent>::empty());
            assert(ia0 + deletes_of(fl) =~= ia0);
        }
        while self.queue.len() > 0 && self.queue[0].1 <= now
            invariant
                0 <= k <= due_count(q0, now),
                due_count(q0, now) <= q0.len(),
                deadlines_sorted(q0),
                pending0 == ip0 + q0,
                self.queue@ == q0.subrange(k, q0.len() as int),
                due_count(self.queue@, now) == due_count(q0, now) - k,
                self.inner.wf(),
                self.inner.history() == h0 + deletes_of(q0.subrange(0, k)),
                self.delay_for == old(self).delay_for,
                self.hist == old(self).hist,
                inner0 == old(self).inner,
                ia0 == inner0.applied(),
                ip0 == inner0.pending(),
                inner0.admits(now),
                forall|m: u64| now <= m && inner0.admits(m) ==> self.inner.admits(m),
                self.inner.applied() == ia0 + deletes_of(fl),
                deletes_due_from(fl, pending0, now),
                forall|i: int|
                    #![trigger ip0[i]]
                    0 <= i < ip0.len() ==> self.inner.pending().contains(ip0[i]),
                forall|i: int|
                    #![trigger q0[i]]
                    0 <= i < k ==> still_pending(q0[i].0, self.inner.pending()) || delete_reached(
                        q0[i].0,
                        ia0,
                        self.inner.applied(),
                    ),
                forall|j: int|
                    #![trigger self.inner.pending()[j]]
                    0 <= j < self.inner.pending().len() ==> ip0.contains(self.inner.pending()[j])
                        || (exists|i: int|
                        0 <= i < k && (#[trigger] q0[i]).0 == self.inner.pending()[j].0
                            && self.inner.pending()[j].1 >= now),
            decreases self.queue.len(),
        {
            let ghost cur = self.queue@;
            proof {
                assert(cur[0] == q0[k]);
                assert(due_count(cur, now) == 1 + due_count(cur.drop_first(), now));
                lemma_due_count(cur.drop_first(), now);
            }
            let entry = self.queue.remove(0);
            proof {
                assert(self.queue@ =~= q0.subrange(k + 1, q0.len() as int));
                assert(self.queue@ =~= cur.drop_first());
            }
            let ghost pre_ia = self.inner.applied();
            let ghost pre_ip = self.inner.pending();
            let ghost pre_d = self.inner.delay();
            self.inner.delete(entry.0, now);
            proof {
                let e = q0[k];
                k = k + 1;
                assert(deletes_of(q0.subrange(0, k)) =~= deletes_of(
                    q0.subrange(0, k - 1),
                ).push(ScenarioEvent::Op(q0[k - 1].0, OpKind::Delete)));
                assert(self.inner.history() =~= h0 + deletes_of(q0.subrange(0, k)));
                assert(pending0[ip0.len() + (k - 1)] == e);
                if T::defers() {
                    let d = (now + pre_d) as u64;
                    assert(now <= d && self.inner.pending() == pre_ip.push((e.0, d)));
                    assert forall|i: int|
                        #![trigger ip0[i]]
                        0 <= i < ip0.len() implies self.inner.pending().contains(ip0[i]) by {
                        let j = choose|j: int| 0 <= j < pre_ip.len() && pre_ip[j] == ip0[i];
                        assert(self.inner.pending()[j] == ip0[i]);
                    }
                    assert forall|i: int|
                        #![trigger q0[i]]
                        0 <= i < k implies still_pending(q0[i].0, self.inner.pending())
                        || delete_reached(q0[i].0, ia0, self.inner.applied()) by {
                        if i < k - 1 {
                            if still_pending(q0[i].0, pre_ip) {
                                let j = choose|j: int|
                                    0 <= j < pre_ip.len() && (#[trigger] pre_ip[j]).0 == q0[i].0;
                                assert((#[trigger] self.inner.pending()[j]).0 == q0[i].0);
                            }
                        } else {
                            assert((#[trigger] self.inner.pending()[pre_ip.len() as int]).0
                                == e.0);
                        }
                    }
                } else {
                    assert(self.inner.applied() == pre_ia.push(
                        ScenarioEvent::Op(e.0, OpKind::Delete),
                    ));
                    fl = fl.push(e);
                    assert(deletes_of(fl) =~= deletes_of(fl.drop_last()).push(
                        ScenarioEvent::Op(e.0, OpKind::Delete),
                    ));
                    assert(fl.drop_last() =~= fl.subrange(0, fl.len() - 1));
                    assert(self.inner.applied() =~= ia0 + deletes_of(fl));
                    assert forall|j: int|
                        #![trigger fl[j]]
                        0 <= j < fl.len() implies fl[j].1 <= now && (exists|i: int|
                            0 <= i < pending0.len() && (#[trigger] pending0[i]).0 == fl[j].0
                                && pending0[i].1 <= now) by {
                        if j == fl.len() - 1 {
                            assert(fl[j] == e);
                            assert(pending0[ip0.len() + (k - 1)].0 == e.0);
                        } else {
                            assert(fl[j] == fl.drop_last()[j]);
                        }
                    }
                    assert forall|i: int|
                        #![trigger q0[i]]
                        0 <= i < k implies still_pending(q0[i].0, self.inner.pending())
                        || delete_reached(q0[i].0, ia0, self.inner.applied()) by {
                        if i < k - 1 {
                            if delete_reached(q0[i].0, ia0, pre_ia) {
                                let j = choose|j: int|
                                    ia0.len() <= j < pre_ia.len() && #[trigger] pre_ia[j]
                                        == ScenarioEvent::Op(q0[i].0, OpKind::Delete);
                                assert(#[trigger] self.inner.applied()[j] == ScenarioEvent::Op(
                                    q0[i].0,
                                    OpKind::Delete,
                                ));
                            }
                        } else {
                            assert(#[trigger] self.inner.applied()[self.inner.applied().len() - 1]
                                == ScenarioEvent::Op(e.0, OpKind::Delete));
                        }
                    }
                }
            }
        }
        proof {
            assert(due_count(self.queue@, now) == 0);
            assert(k == due_count(q0, now));
            assert forall|i: int, j: int|
                #![trigger self.queue@[i], self.queue@[j]]
                0 <= i <= j < self.queue@.len() implies self.queue@[i].1 <= self.queue@[j].1 by {
                assert(self.queue@[i] == q0[k + i] && self.queue@[j] == q0[k + j]);
            }
        }
    }
}

impl<T: Write> Write for DelayedDelete<T> {
    open spec fn wf(&self) -> bool {
        &&& self.inner.wf()
        &&& deadlines_sorted(self.queue@)
    }

    open spec fn history(&self) -> Seq<ScenarioEvent> {
        self.hist@
    }

    open spec fn applied(&self) -> Seq<ScenarioEvent> {
        self.inner.applied()
    }

    open spec fn defers() -> bool {
        true
    }

    open spec fn delay(&self) -> u64 {
        self.delay_for
    }

    open spec fn pending(&self) -> Seq<(Item, u64)> {
        self.inner.pending() + self.queue@
    }

    open spec fn admits(&self, now: u64) -> bool {
        &&& self.inner.admits(now)
        &&& now + self.delay_for <= u64::MAX
        &&& forall|i: int|
            0 <= i < self.queue@.len() ==> (#[trigger] self.queue@[i]).1 <= now + self.delay_for
    }

    fn add(&mut self, item: Item) {
        let ghost q0 = self.queue@;
        let ghost ip0 = self.inner.pending();
        self.cancel_pending(item.key);
        proof {
            lemma_without_key(q0, item.key);
        }
        self.inner.add(item);
        self.hist = Ghost(self.hist@.push(ScenarioEvent::Op(item, OpKind::Add)));
        proof {
            lemma_without_key_concat(ip0, q0, item.key);
            assert(self.pending() =~= without_key(ip0 + q0, item.key));
            self.lemma_cancel_admits(q0, item.key, *old(self));
        }
    }

    fn update(&mut self, item: Item) {
        let ghost q0 = self.queue@;
        let ghost ip0 = self.inner.pending();
        self.cancel_pending(item.key);
        proof {
            lemma_without_key(q0, item.key);
        }
        self.inner.update(item);
        self.hist = Ghost(self.hist@.push(ScenarioEvent::Op(item, OpKind::Update)));
        proof {
            lemma_without_key_concat(ip0, q0, item.key);
            assert(self.pending() =~= without_key(ip0 + q0, item.key));
            self.lemma_cancel_admits(q0, item.key, *old(self));
        }
    }

    fn delete(&mut self, item: Item, now: u64) {
        let ghost ip0 = self.inner.pending();
        let ghost q0 = self.queue@;
        self.schedule_delete(item, now);
        self.hist = Ghost(self.hist@.push(ScenarioEvent::Op(item, OpKind::Delete)));
        proof {
            let dl = (now + self.delay_for) as u64;
            assert(ip0 + q0.push((item, dl)) =~= (ip0 + q0).push((item, dl)));
            assert(now <= dl && self.pending() == old(self).pending().push((item, dl)));
        }
    }

    fn resync(&mut self) {
        self.queue = Vec::new();
        self.inner.resync();
        self.hist = Ghost(self.hist@.push(ScenarioEvent::Resync));
    }

    fn maintenance(&self) -> (r: Vec<Option<MaintenanceTask>>) {
        let mut tasks = self.inner.maintenance();
        let ghost inner_tasks = tasks@;
        match self.next_deadline() {
            Option::Some(d) => {
                proof {
                    lemma_present_wakes_push(
                        inner_tasks,
                        Option::Some(MaintenanceTask { wake_at: d }),
                    );
                }
                tasks.push(Option::Some(MaintenanceTask { wake_at: d }));
                proof {
                    let pw = present_wakes(tasks@);
                    let pwi = present_wakes(inner_tasks);
                    let ip = self.inner.pending();
                    assert(pw == pwi.push(d));
                    assert(self.queue@.len() > 0);
                    assert(self.pending()[ip.len() as int] == self.queue@[0]);
                    assert forall|j: int|
                        #![trigger pw[j]]
                        0 <= j < pw.len() implies deadline_among(self.pending(), pw[j]) by {
                        if j < pwi.len() {
                            assert(deadline_among(ip, pwi[j]));
                            let i = choose|i: int|
                                0 <= i < ip.len() && (#[trigger] ip[i]).1 == pwi[j];
                            assert(self.pending()[i].1 == pw[j]);
                        } else {
                            assert(pw[j] == d);
                            assert(self.pending()[ip.len() as int].1 == pw[j]);
                        }
                    }
                    if ip.len() == 0 {
                        assert forall|i: int|
                            0 <= i < self.pending().len() implies d <= (
                            #[trigger] self.pending()[i]).1 by {
                            assert(self.pending()[i] == self.queue@[i]);
                            assert(self.queue@[0].1 <= self.queue@[i].1);
                        }
                        assert(0 <= pw.len() - 1 < pw.len() && wake_no_later(
                            pw[pw.len() - 1],
                            self.pending(),
                        ));
                    } else {
                        let ji = choose|j: int|
                            0 <= j < present_wakes(inner_tasks).len() && wake_no_later(
                                #[trigger] present_wakes(inner_tasks)[j],
                                ip,
                            );
                        let wi = pwi[ji];
                        if wi <= d {
                            assert forall|i: int|
                                0 <= i < self.pending().len() implies wi <= (
                                #[trigger] self.pending()[i]).1 by {
                                if i < ip.len() {
                                    assert(self.pending()[i] == ip[i]);
                                    assert(wi <= ip[i].1);
                                } else {
                                    assert(self.pending()[i] == self.queue@[i - ip.len()]);
                                    assert(self.queue@[0].1 <= self.queue@[i - ip.len()].1);
                                }
                            }
                            assert(pw[ji] == pwi[ji]);
                            assert(0 <= ji < pw.len() && wake_no_later(pw[ji], self.pending()));
                        } else {
                            assert forall|i: int|
                                0 <= i < self.pending().len() implies d <= (
                                #[trigger] self.pending()[i]).1 by {
                                if i < ip.len() {
                                    assert(self.pending()[i] == ip[i]);
                                    assert(wi <= ip[i].1);
                                } else {
                                    assert(self.pending()[i] == self.queue@[i - ip.len()]);
                                    assert(self.queue@[0].1 <= self.queue@[i - ip.len()].1);
                                }
                            }
                            assert(0 <= pw.len() - 1 < pw.len() && wake_no_later(
                                pw[pw.len() - 1],
                                self.pending(),
                            ));
                        }
                    }
                }
            },
            Option::None => {
                proof {
                    let pw = present_wakes(tasks@);
                    let ip = self.inner.pending();
                    assert(self.queue@.len() == 0);
                    assert(self.pending() =~= ip);
                    assert forall|j: int|
                        #![trigger pw[j]]
                        0 <= j < pw.len() implies deadline_among(self.pending(), pw[j]) by {
                        assert(deadline_among(ip, pw[j]));
                        let i = choose|i: int| 0 <= i < ip.len() && (#[trigger] ip[i]).1 == pw[j];
                        assert(self.pending()[i].1 == pw[j]);
                    }
                    if self.pending().len() > 0 {
                        let ji = choose|j: int|
                            0 <= j < present_wakes(inner_tasks).len() && wake_no_later(
                                #[trigger] present_wakes(inner_tasks)[j],
                                ip,
                            );
                        assert(0 <= ji < pw.len() && wake_no_later(pw[ji], self.pending()));
                    }
                }
            },
        }
        tasks
    }

    fn perform_maintenance(&mut self, now: u64) {
        let ghost pending0 = self.pending();
        let ghost q0 = self.queue@;
        let ghost ip0 = self.inner.pending();
        let ghost ia0 = self.inner.applied();
        proof {
            lemma_due_count(q0, now);
        }
        self.perform(now);
        let ghost ipm = self.inner.pending();
        let ghost iam = self.inner.applied();
        self.inner.perform_maintenance(now);
        proof {
            let dc = due_count(q0, now);
            let d1 = choose|fl: Seq<(Item, u64)>|
                iam == ia0 + #[trigger] deletes_of(fl) && deletes_due_from(fl, pending0, now);
            let d2 = choose|fl: Seq<(Item, u64)>|
                self.inner.applied() == iam + #[trigger] deletes_of(fl) && deletes_due_from(
                    fl,
                    ipm,
                    now,
                );
            assert(deletes_of(d1 + d2) =~= deletes_of(d1) + deletes_of(d2));
            assert(self.inner.applied() =~= ia0 + deletes_of(d1 + d2));
            assert forall|j: int|
                #![trigger (d1 + d2)[j]]
                0 <= j < (d1 + d2).len() implies (d1 + d2)[j].1 <= now && (exists|i: int|
                0 <= i < pending0.len() && (#[trigger] pending0[i]).0 == (d1 + d2)[j].0
                    && pending0[i].1 <= now) by {
                if j < d1.len() {
                    assert((d1 + d2)[j] == d1[j]);
                } else {
                    let e = d2[j - d1.len()];
                    assert((d1 + d2)[j] == e);
                    let im = choose|i: int|
                        0 <= i < ipm.len() && (#[trigger] ipm[i]).0 == e.0 && ipm[i].1 <= now;
                    if ip0.contains(ipm[im]) {
                        let i0 = choose|i: int| 0 <= i < ip0.len() && ip0[i] == ipm[im];
                        assert(pending0[i0] == ip0[i0]);
                    } else {
                        let iq = choose|i: int|
                            0 <= i < dc && (#[trigger] q0[i]).0 == ipm[im].0 && ipm[im].1 >= now;
                        assert(pending0[ip0.len() + iq] == q0[iq]);
                        assert(q0[iq].1 <= now);
                    }
                }
            }
            assert(deletes_due_from(d1 + d2, pending0, now));
            assert forall|i: int|
                #![trigger pending0[i]]
                0 <= i < pending0.len() implies (pending0[i].1 > now ==> self.pending().contains(
                pending0[i])) && (still_pending(pending0[i].0, self.pending()) || delete_reached(
                pending0[i].0,
                ia0,
                self.inner.applied(),
            )) by {
                let e = pending0[i];
                if i < ip0.len() {
                    assert(e == ip0[i]);
                    assert(ipm.contains(e));
                    let jm = choose|j: int| 0 <= j < ipm.len() && ipm[j] == e;
                    assert(ipm[jm] == e);
                    self.lemma_inner_entry_settles(e, ipm, iam, ia0, now);
                } else {
                    let iq = i - ip0.len();
                    assert(e == q0[iq]);
                    if e.1 > now {
                        assert(iq >= dc) by {
                            if iq < dc {
                                assert(q0[iq].1 <= now);
                            }
                        }
                        assert(self.queue@[iq - dc] == e);
                        assert(self.pending()[self.inner.pending().len() + (iq - dc)] == e);
                        assert(self.pending().contains(e));
                        assert(still_pending(e.0, self.pending()));
                    } else {
                        assert(iq < dc) by {
                            if iq >= dc {
                                assert(q0[dc].1 > now);
                                assert(q0[dc].1 <= q0[iq].1);
                            }
                        }
                        if still_pending(e.0, ipm) {
                            let jm = choose|j: int|
                                0 <= j < ipm.len() && (#[trigger] ipm[j]).0 == e.0;
                            self.lemma_inner_entry_settles(ipm[jm], ipm, iam, ia0, now);
                        } else {
                            let jr = choose|j: int|
                                ia0.len() <= j < iam.len() && #[trigger] iam[j] == ScenarioEvent::Op(
                                    e.0,
                                    OpKind::Delete,
                                );
                            assert(#[trigger] self.inner.applied()[jr] == iam[jr]);
                            assert(delete_reached(e.0, ia0, self.inner.applied()));
                        }
                    }
                }
            }
            assert forall|j: int|
                0 <= j < self.pending().len() implies (#[trigger] self.pending()[j]).1 > now by {
                if j < self.inner.pending().len() {
                    assert(self.pending()[j] == self.inner.pending()[j]);
                    assert(self.inner.pending()[j].1 > now);
                } else {
                    assert(self.pending()[j] == self.queue@[j - self.inner.pending().len()]);
                    assert(self.queue@[j - self.inner.pending().len()] == q0[dc + (j
                        - self.inner.pending().len())]);
                }
            }
            assert forall|m: u64| now <= m && old(self).admits(m) implies self.admits(m) by {
                assert forall|i: int|
                    0 <= i < self.queue@.len() implies (#[trigger] self.queue@[i]).1 <= m
                    + self.delay_for by {
                    assert(self.queue@[i] == q0[dc + i]);
                }
            }
        }
    }
}

impl<T: Write> DelayedDelete<T> {
    /// Withdraw every queued delete of `key`.
    fn cancel_pending(&mut self, key: u64)
        ensures
            final(self).queue@ == without_key(old(self).queue@, key),
            final(self).inner == old(self).inner,
            final(self).delay_for == old(self).delay_for,
            final(self).hist == old(self).hist,
    {
        let mut kept: Vec<(Item, u64)> = Vec::new();
        let ghost q0 = self.queue@;
        let mut i: usize = 0;
        proof {
            assert(without_key(q0.subrange(0, 0), key) =~= Seq::<(Item, u64)>::empty());
        }
        while i < self.queue.len()
            invariant
                i <= self.queue@.len(),
                self.queue@ == q0,
                kept@ == without_key(q0.subrange(0, i as int), key),
                self.inner == old(self).inner,
                self.delay_for == old(self).delay_for,
                self.hist == old(self).hist,
            decreases self.queue@.len() - i,
        {
            proof {
                assert(q0.subrange(0, i + 1).drop_last() =~= q0.subrange(0, i as int));
                assert(q0.subrange(0, i + 1).last() == q0[i as int]);
            }
            let entry = self.queue[i];
            if entry.0.key != key {
                kept.push(entry);
            }
            i = i + 1;
        }
        proof {
            assert(q0.subrange(0, q0.len() as int) =~= q0);
        }
        self.queue = kept;
    }

    /// The withdrawal in `cancel_pending` only removes entries, so every
    /// instant the decorator admitted before, it still admits.
    proof fn lemma_cancel_admits(&self, q0: Seq<(Item, u64)>, key: u64, pre: Self)
        requires
            self.queue@ == without_key(q0, key),
            pre.queue@ == q0,
            pre.delay_for == self.delay_for,
            forall|m: u64| pre.admits(m) ==> self.inner.admits(m),
        ensures
            forall|m: u64| pre.admits(m) ==> self.admits(m),
    {
        lemma_without_key(q0, key);
        assert forall|m: u64| pre.admits(m) implies self.admits(m) by {
            assert forall|i: int|
                0 <= i < self.queue@.len() implies (#[trigger] self.queue@[i]).1 <= m
                + self.delay_for by {
                let i0 = choose|i0: int| 0 <= i0 < q0.len() && q0[i0] == self.queue@[i];
                assert(q0[i0].1 <= m + pre.delay_for);
            }
        }
    }

    /// An entry that the wrapped layer held pending before its own flush is
    /// settled afterwards: still pending below, or its delete applied — and
    /// either way settled for the whole decorator.
    proof fn lemma_inner_entry_settles(
        &self,
        e: (Item, u64),
        ipm: Seq<(Item, u64)>,
        iam: Seq<ScenarioEvent>,
        ia0: Seq<ScenarioEvent>,
        now: u64,
    )
        requires
            ipm.contains(e),
            ia0.len() <= iam.len(),
            forall|i: int|
                #![trigger ipm[i]]
                0 <= i < ipm.len() ==> (ipm[i].1 > now ==> self.inner.pending().contains(ipm[i]))
                    && (still_pending(ipm[i].0, self.inner.pending()) || delete_reached(
                    ipm[i].0,
                    iam,
                    self.inner.applied(),
                )),
        ensures
            e.1 > now ==> self.pending().contains(e),
            still_pending(e.0, self.pending()) || delete_reached(
                e.0,
                ia0,
                self.inner.applied(),
            ),
    {
        let jm = choose|j: int| 0 <= j < ipm.len() && ipm[j] == e;
        assert(ipm[jm] == e);
        if e.1 > now {
            assert(self.inner.pending().contains(e));
            let jf = choose|j: int|
                0 <= j < self.inner.pending().len() && self.inner.pending()[j] == e;
            assert(self.pending()[jf] == e);
            assert(self.pending().contains(e));
        }
        if still_pending(e.0, self.inner.pending()) {
            let jf = choose|j: int|
                0 <= j < self.inner.pending().len() && (#[trigger] self.inner.pending()[j]).0
                    == e.0;
            assert((#[trigger] self.pending()[jf]).0 == e.0);
            assert(still_pending(e.0, self.pending()));
        } else {
            assert(delete_reached(e.0, iam, self.inner.applied()));
            let jr = choose|j: int|
                iam.len() <= j < self.inner.applied().len() && #[trigger] self.inner.applied()[j]
                    == ScenarioEvent::Op(e.0, OpKind::Delete);
            assert(ia0.len() <= jr);
            assert(delete_reached(e.0, ia0, self.inner.applied()));
        }
    }
}

/// Deleting keys other than `key` leaves `key`'s binding untouched.
pub proof fn lemma_interp_deletes_other_keys(
    h: Seq<ScenarioEvent>,
    entries: Seq<(Item, u64)>,
    key: u64,
)
    requires
        forall|i: int| 0 <= i < entries.len() ==> (#[trigger] entries[i]).0.key != key,
    ensures
        interp(h + deletes_of(entries)).contains_key(key) == interp(h).contains_key(key),
        interp(h).contains_key(key) ==> interp(h + deletes_of(entries))[key] == interp(h)[key],
    decreases entries.len(),
{
    if entries.len() == 0 {
        assert(h + deletes_of(entries) =~= h);
    } else {
        let prefix = entries.drop_last();
        lemma_interp_deletes_other_keys(h, prefix, key);
        let last = entries.last();
        assert(h + deletes_of(entries) =~= (h + deletes_of(prefix)).push(
            ScenarioEvent::Op(last.0, OpKind::Delete),
        ));
        lemma_interp_push(h + deletes_of(prefix), ScenarioEvent::Op(last.0, OpKind::Delete));
    }
}

/// Law: a deferred delete cannot retroactively remove a re-added key.  If a
/// delete of a key was queued (on top of any queue contents) and the same
/// key is added again before the flush, the scheduling policy withdraws the
/// stale entries, so after a flush at any instant the wrapped sink still
/// holds the re-added object.
pub proof fn lemma_readded_key_survives_flush(
    h: Seq<ScenarioEvent>,
    q: Seq<(Item, u64)>,
    stale: Item,
    fresh: Item,
    deadline: u64,
    now: u64,
)
    requires
        stale.key == fresh.key,
    ensures
        ({
            let cancelled = without_key(q.push((stale, deadline)), fresh.key);
            let after_add = h.push(ScenarioEvent::Op(fresh, OpKind::Add));
            let flushed = after_add + deletes_of(
                cancelled.subrange(0, due_count(cancelled, now)),
            );
            interp(flushed).contains_key(fresh.key) && interp(flushed)[fresh.key] == fresh
        }),
{
    let queued = q.push((stale, deadline));
    let cancelled = without_key(queued, fresh.key);
    let after_add = h.push(ScenarioEvent::Op(fresh, OpKind::Add));
    lemma_without_key(queued, fresh.key);
    lemma_due_count(cancelled, now);
    let due = cancelled.subrange(0, due_count(cancelled, now));
    assert forall|i: int|
        0 <= i < due.len() implies (#[trigger] due[i]).0.key != fresh.key by {
        assert(due[i] == cancelled[i]);
    }
    lemma_interp_push(h, ScenarioEvent::Op(fresh, OpKind::Add));
    lemma_interp_deletes_other_keys(after_add, due, fresh.key);
}

} // verus!
