use crate::combine_maintenance::{present_wakes, MaintenanceTask};
use crate::item::Item;
use vstd::prelude::*;

verus! {

/// The kind of one mutating operation on a state sink.
#[derive(Clone, Copy, Debug, PartialEq, Eq, Structural)]
pub enum OpKind {
    Add,
    Update,
    Delete,
}

/// One notification accepted by a state sink: a mutating operation on one
/// object, or the announcement that a full replacement of the collection
/// follows.  A sink's behaviour is specified by the sequence of these it has
/// accepted, and the scripted test sink records them verbatim.
#[derive(Clone, Copy, Debug, PartialEq, Eq, Structural)]
pub enum ScenarioEvent {
    Op(Item, OpKind),
    Resync,
}

impl ScenarioEvent {
    /// The item and kind of an operation event.
    pub fn unwrap_op(self) -> (r: (Item, OpKind))
        requires
            self is Op,
        ensures
            self == ScenarioEvent::Op(r.0, r.1),
    {
        match self {
            ScenarioEvent::Op(val, op) => (val, op),
            ScenarioEvent::Resync => vstd::pervasive::unreached(),
        }
    }
}

/// The mapping from keys to objects that a history of notifications denotes:
/// adds and updates upsert by key, deletes remove by key, and a resync
/// discards everything, so that after a resync and its accompanying adds the
/// sink holds exactly the resynced list.
pub open spec fn interp(h: Seq<ScenarioEvent>) -> Map<u64, Item>
    decreases h.len(),
{
    if h.len() == 0 {
        Map::empty()
    } else {
        let m = interp(h.drop_last());
        match h.last() {
            ScenarioEvent::Op(item, OpKind::Add) => m.insert(item.key, item),
            ScenarioEvent::Op(item, OpKind::Update) => m.insert(item.key, item),
            ScenarioEvent::Op(item, OpKind::Delete) => m.remove(item.key),
            ScenarioEvent::Resync => Map::empty(),
        }
    }
}

/// One more notification refines the denoted mapping in the expected way.
pub proof fn lemma_interp_push(h: Seq<ScenarioEvent>, ev: ScenarioEvent)
    ensures
        interp(h.push(ev)) == (match ev {
            ScenarioEvent::Op(item, OpKind::Add) => interp(h).insert(item.key, item),
            ScenarioEvent::Op(item, OpKind::Update) => interp(h).insert(item.key, item),
            ScenarioEvent::Op(item, OpKind::Delete) => interp(h).remove(item.key),
            ScenarioEvent::Resync => Map::<u64, Item>::empty(),
        }),
{
    assert(h.push(ev).drop_last() =~= h);
    assert(h.push(ev).last() == ev);
}

/// Histories that denote the same mapping keep denoting the same mapping
/// under any common continuation.
pub proof fn lemma_interp_extends(
    h1: Seq<ScenarioEvent>,
    h2: Seq<ScenarioEvent>,
    t: Seq<ScenarioEvent>,
)
    requires
        interp(h1) == interp(h2),
    ensures
        interp(h1 + t) == interp(h2 + t),
    decreases t.len(),
{
    if t.len() == 0 {
        assert(h1 + t =~= h1);
        assert(h2 + t =~= h2);
    } else {
        lemma_interp_extends(h1, h2, t.drop_last());
        assert(h1 + t =~= (h1 + t.drop_last()).push(t.last()));
        assert(h2 + t =~= (h2 + t.drop_last()).push(t.last()));
        lemma_interp_push(h1 + t.drop_last(), t.last());
        lemma_interp_push(h2 + t.drop_last(), t.last());
    }
}

/// Some pending entry falls due exactly at instant `w`.
pub open spec fn deadline_among(pending: Seq<(Item, u64)>, w: u64) -> bool {
    exists|i: int| 0 <= i < pending.len() && (#[trigger] pending[i]).1 == w
}

/// `w` is no later than every pending deadline.
pub open spec fn wake_no_later(w: u64, pending: Seq<(Item, u64)>) -> bool {
    forall|i: int| 0 <= i < pending.len() ==> w <= (#[trigger] pending[i]).1
}

/// The pending entries that survive a fresh write of `key`: a later add or
/// update of a key withdraws every entry of that key.
pub open spec fn without_key(q: Seq<(Item, u64)>, key: u64) -> Seq<(Item, u64)>
    decreases q.len(),
{
    if q.len() == 0 {
        Seq::empty()
    } else {
        let rest = without_key(q.drop_last(), key);
        if q.last().0.key == key {
            rest
        } else {
            rest.push(q.last())
        }
    }
}

/// The delete notifications that flushing these entries applies.
pub open spec fn deletes_of(entries: Seq<(Item, u64)>) -> Seq<ScenarioEvent> {
    entries.map_values(|e: (Item, u64)| ScenarioEvent::Op(e.0, OpKind::Delete))
}

/// Every flushed entry was due, and its item was pending and due.
pub open spec fn deletes_due_from(
    flushed: Seq<(Item, u64)>,
    pending: Seq<(Item, u64)>,
    now: u64,
) -> bool {
    forall|j: int|
        #![trigger flushed[j]]
        0 <= j < flushed.len() ==> flushed[j].1 <= now && (exists|i: int|
            0 <= i < pending.len() && (#[trigger] pending[i]).0 == flushed[j].0 && pending[i].1
                <= now)
}

/// Some pending entry holds this item.
pub open spec fn still_pending(item: Item, pending: Seq<(Item, u64)>) -> bool {
    exists|j: int| 0 <= j < pending.len() && (#[trigger] pending[j]).0 == item
}

/// A delete of this item stands among the notifications applied since `a0`.
pub open spec fn delete_reached(item: Item, a0: Seq<ScenarioEvent>, a1: Seq<ScenarioEvent>) -> bool {
    exists|j: int|
        a0.len() <= j < a1.len() && #[trigger] a1[j] == ScenarioEvent::Op(item, OpKind::Delete)
}

/// Write access to a layer of the cached state, as used by the driving loop.
///
/// The abstraction lets storage behaviour be stacked without the loop
/// knowing the layering: a layer is described by the history of
/// notifications it has accepted (`history`), by the deferred work it has
/// not yet applied downward (`pending`, each entry with its deadline), and
/// by which instants it is prepared to be driven at (`admits`) — deadlines
/// only ever move forward, so a layer that defers work accepts a given
/// instant only if no instant after it has already been seen.
pub trait Write: Sized {
    /// The layer's internal invariant.
    spec fn wf(&self) -> bool;

    /// The notifications this layer has accepted, oldest first.
    spec fn history(&self) -> Seq<ScenarioEvent>;

    /// The notifications actually applied at the base of the layering,
    /// oldest first.  For the base sink this is its accepted history, pinned
    /// to its real map by its invariant; a decorator's applied notifications
    /// are those of the layer it wraps, so a call that must reach the bottom
    /// cannot be absorbed on the way down.
    spec fn applied(&self) -> Seq<ScenarioEvent>;

    /// Whether this layer defers deletes instead of applying them at once.
    spec fn defers() -> bool;

    /// The grace period this layer defers deletes by; meaningful only for a
    /// layer that defers.
    spec fn delay(&self) -> u64;

    /// Deferred work scheduled inside the layering but not yet applied, each
    /// entry paired with the instant at which it falls due; entries of
    /// deeper layers come first.
    spec fn pending(&self) -> Seq<(Item, u64)>;

    /// Whether the layer may be driven at instant `now`.
    spec fn admits(&self, now: u64) -> bool;

    /// Add an object to the state.  The add is applied downward
    /// unconditionally, and it withdraws whatever deferred delete of the
    /// same key the layering still held.
    fn add(&mut self, item: Item)
        requires
            old(self).wf(),
        ensures
            final(self).wf(),
            final(self).history() == old(self).history().push(ScenarioEvent::Op(item, OpKind::Add)),
            final(self).applied() == old(self).applied().push(ScenarioEvent::Op(item, OpKind::Add)),
            final(self).pending() == without_key(old(self).pending(), item.key),
            final(self).delay() == old(self).delay(),
            forall|m: u64| old(self).admits(m) ==> final(self).admits(m),
    ;

    /// Update an object at the state; overwrites unconditionally.  Applied
    /// downward and withdrawing deferred deletes of the key, like `add`.
    fn update(&mut self, item: Item)
        requires
            old(self).wf(),
        ensures
            final(self).wf(),
            final(self).history() == old(self).history().push(
                ScenarioEvent::Op(item, OpKind::Update),
            ),
            final(self).applied() == old(self).applied().push(
                ScenarioEvent::Op(item, OpKind::Update),
            ),
            final(self).pending() == without_key(old(self).pending(), item.key),
            final(self).delay() == old(self).delay(),
            forall|m: u64| old(self).admits(m) ==> final(self).admits(m),
    ;

    /// Delete an object from the state.  A layer that defers removal applies
    /// nothing now and appends exactly one entry, due one grace period from
    /// `now`, at the tail of the pending work; a layer that does not defer
    /// applies the delete at once and leaves the pending work alone.
    fn delete(&mut self, item: Item, now: u64)
        requires
            old(self).wf(),
            old(self).admits(now),
        ensures
            final(self).wf(),
            final(self).history() == old(self).history().push(
                ScenarioEvent::Op(item, OpKind::Delete),
            ),
            Self::defers() ==> final(self).applied() == old(self).applied() && now + old(self).delay()
                <= u64::MAX && final(self).pending() == old(self).pending().push(
                (item, (now + old(self).delay()) as u64),
            ),
            !Self::defers() ==> final(self).applied() == old(self).applied().push(
                ScenarioEvent::Op(item, OpKind::Delete),
            ) && final(self).pending() == old(self).pending(),
            final(self).delay() == old(self).delay(),
            forall|m: u64| now <= m && old(self).admits(m) ==> final(self).admits(m),
    ;

    /// Notify the state that a full replacement of the collection follows.
    /// The announcement is applied downward, and whatever work the layering
    /// still held pending is discarded — never applied: the world is about
    /// to be rebuilt from a fresh authoritative list.
    fn resync(&mut self)
        requires
            old(self).wf(),
        ensures
            final(self).wf(),
            final(self).history() == old(self).history().push(ScenarioEvent::Resync),
            final(self).applied() == old(self).applied().push(ScenarioEvent::Resync),
            final(self).pending().len() == 0,
            final(self).delay() == old(self).delay(),
            forall|m: u64| old(self).admits(m) ==> final(self).admits(m),
    ;

    /// The layer's current background work, one optional task per layer of
    /// the stack.  Some task is present exactly when some work is pending,
    /// every wakeup time is a pending deadline, and some present wakeup time
    /// is no later than every pending deadline — so a host that sleeps until
    /// the earliest wakeup never oversleeps a due flush.
    fn maintenance(&self) -> (r: Vec<Option<MaintenanceTask>>)
        requires
            self.wf(),
        ensures
            (present_wakes(r@).len() == 0) <==> (self.pending().len() == 0),
            forall|j: int|
                #![trigger present_wakes(r@)[j]]
                0 <= j < present_wakes(r@).len() ==> deadline_among(
                    self.pending(),
                    present_wakes(r@)[j],
                ),
            self.pending().len() > 0 ==> exists|j: int|
                0 <= j < present_wakes(r@).len() && wake_no_later(
                    #[trigger] present_wakes(r@)[j],
                    self.pending(),
                ),
    ;

    /// Apply every piece of pending work that has fallen due by `now`.  The
    /// history of accepted notifications is untouched; what is applied at
    /// the base grows by exactly the deletes of due pending items; every
    /// entry that was pending is either still pending (a deferring layer
    /// below re-deferred it) or had its delete applied, entries not yet due
    /// survive unchanged, and nothing due is left due.
    fn perform_maintenance(&mut self, now: u64)
        requires
            old(self).wf(),
            old(self).admits(now),
        ensures
            final(self).wf(),
            final(self).history() == old(self).history(),
            exists|flushed: Seq<(Item, u64)>|
                final(self).applied() == old(self).applied() + #[trigger] deletes_of(flushed)
                    && deletes_due_from(flushed, old(self).pending(), now),
            forall|i: int|
                #![trigger old(self).pending()[i]]
                0 <= i < old(self).pending().len() ==> (old(self).pending()[i].1 > now
                    ==> final(self).pending().contains(old(self).pending()[i])) && (still_pending(
                    old(self).pending()[i].0,
                    final(self).pending(),
                ) || delete_reached(
                    old(self).pending()[i].0,
                    old(self).applied(),
                    final(self).applied(),
                )),
            forall|j: int|
                0 <= j < final(self).pending().len() ==> #[trigger] final(self).pending()[j].1
                    > now,
            final(self).delay() == old(self).delay(),
            forall|m: u64| now <= m && old(self).admits(m) ==> final(self).admits(m),
    ;
}

} // verus!
