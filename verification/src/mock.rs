use crate::combine_maintenance::MaintenanceTask;
use crate::item::Item;
use crate::state::{deletes_due_from, deletes_of, OpKind, ScenarioEvent, Write};
use vstd::prelude::*;

verus! {

/// A scripted state sink for driving the [`Write`] contract in tests: it
/// applies nothing and records every notification verbatim, in order, so a
/// scenario can check exactly what the layers above it asked for.
pub struct Writer {
    pub events: Vec<ScenarioEvent>,
}

impl Writer {
    /// Create a new [`Writer`] with an empty record.
    pub fn new() -> (r: Writer)
        ensures
            r.wf(),
            r.events@ == Seq::<ScenarioEvent>::empty(),
    {
        Writer { events: Vec::new() }
    }
}

impl Write for Writer {
    open spec fn wf(&self) -> bool {
        true
    }

    open spec fn history(&self) -> Seq<ScenarioEvent> {
        self.events@
    }

    open spec fn applied(&self) -> Seq<ScenarioEvent> {
        self.events@
    }

    open spec fn defers() -> bool {
        false
    }

    open spec fn delay(&self) -> u64 {
        0
    }

    open spec fn pending(&self) -> Seq<(Item, u64)> {
        Seq::empty()
    }

    open spec fn admits(&self, now: u64) -> bool {
        true
    }

    fn add(&mut self, item: Item) {
        self.events.push(ScenarioEvent::Op(item, OpKind::Add));
    }

    fn update(&mut self, item: Item) {
        self.events.push(ScenarioEvent::Op(item, OpKind::Update));
    }

    fn delete(&mut self, item: Item, now: u64) {
        self.events.push(ScenarioEvent::Op(item, OpKind::Delete));
    }

    fn resync(&mut self) {
        self.events.push(ScenarioEvent::Resync);
    }

    fn maintenance(&self) -> (r: Vec<Option<MaintenanceTask>>) {
        Vec::new()
    }

    fn perform_maintenance(&mut self, now: u64) {
        proof {
            assert(self.events@ + deletes_of(Seq::<(Item, u64)>::empty()) =~= self.events@);
            assert(deletes_due_from(
                Seq::<(Item, u64)>::empty(),
                Seq::<(Item, u64)>::empty(),
                now,
            ));
        }
    }
}

} // verus!
