use crate::combine_maintenance::MaintenanceTask;
use crate::item::Item;
use crate::state::{
    deletes_due_from, deletes_of, interp, lemma_interp_push, OpKind, ScenarioEvent, Write,
};
use std::collections::HashMap;
use vstd::prelude::*;

verus! {

/// The base state sink: an in-process key-to-object map, the bottom of the
/// layering.  It applies every notification immediately, so the map it holds
/// is exactly the mapping its accepted history denotes, and consumers read
/// it through point lookups while the driving loop writes.
pub struct Store {
    pub map: HashMap<u64, Item>,
    pub hist: Ghost<Seq<ScenarioEvent>>,
}

impl Store {
    /// Create an empty [`Store`].
    pub fn new() -> (r: Store)
        ensures
            r.wf(),
            r.history() == Seq::<ScenarioEvent>::empty(),
            r.map@ == Map::<u64, Item>::empty(),
    {
        Store { map: HashMap::new(), hist: Ghost(Seq::empty()) }
    }

    /// Point lookup by key, against the mapping the accepted history
    /// denotes.
    pub fn get(&self, key: u64) -> (r: Option<&Item>)
        requires
            self.wf(),
        ensures
            (match r {
                Option::Some(item) => interp(self.history()).contains_key(key) && *item == interp(
                    self.history(),
                )[key],
                Option::None => !interp(self.history()).contains_key(key),
            }),
    {
        self.map.get(&key)
    }

    /// How many objects the store currently holds.
    pub fn len(&self) -> (r: usize)
        requires
            self.wf(),
        ensures
            r == interp(self.history()).len(),
    {
        self.map.len()
    }
}

impl Write for Store {
    open spec fn wf(&self) -> bool {
        self.map@ == interp(self.hist@)
    }

    open spec fn history(&self) -> Seq<ScenarioEvent> {
        self.hist@
    }

    open spec fn applied(&self) -> Seq<ScenarioEvent> {
        self.hist@
    }

    open spec fn defers() -> bool {
        false
    }

    open spec fn delay(&self) -> u64 {
        0
    }

    open spec fn pending(&self) -> Seq<(Item, u64)> {
        Seq::empty()
    }

    open spec fn admits(&self, now: u64) -> bool {
        true
    }

    fn add(&mut self, item: Item) {
        proof {
            lemma_interp_push(self.hist@, ScenarioEvent::Op(item, OpKind::Add));
        }
        self.map.insert(item.key, item);
        self.hist = Ghost(self.hist@.push(ScenarioEvent::Op(item, OpKind::Add)));
    }

    fn update(&mut self, item: Item) {
        proof {
            lemma_interp_push(self.hist@, ScenarioEvent::Op(item, OpKind::Update));
        }
        self.map.insert(item.key, item);
        self.hist = Ghost(self.hist@.push(ScenarioEvent::Op(item, OpKind::Update)));
    }

    fn delete(&mut self, item: Item, now: u64) {
        proof {
            lemma_interp_push(self.hist@, ScenarioEvent::Op(item, OpKind::Delete));
        }
        self.map.remove(&item.key);
        self.hist = Ghost(self.hist@.push(ScenarioEvent::Op(item, OpKind::Delete)));
    }

    fn resync(&mut self) {
        proof {
            lemma_interp_push(self.hist@, ScenarioEvent::Resync);
        }
        self.map.clear();
        self.hist = Ghost(self.hist@.push(ScenarioEvent::Resync));
    }

    fn maintenance(&self) -> (r: Vec<Option<MaintenanceTask>>) {
        Vec::new()
    }

    fn perform_maintenance(&mut self, now: u64) {
        proof {
            assert(self.hist@ + deletes_of(Seq::<(Item, u64)>::empty()) =~= self.hist@);
            assert(deletes_due_from(
                Seq::<(Item, u64)>::empty(),
                Seq::<(Item, u64)>::empty(),
                now,
            ));
        }
    }
}

} // verus!
