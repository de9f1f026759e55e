use crate::combine_maintenance::{present_wakes, MaintenanceTask};
use crate::item::Item;
use crate::state::{
    deadline_among, delete_reached, deletes_due_from, deletes_of, interp, lemma_interp_extends,
    lemma_interp_push, still_pending, wake_no_later, without_key, OpKind, ScenarioEvent, Write,
};
use crate::watcher::{InvocationError, InvocationErrorKind, StreamItem, WatchEvent, WatchOptions};
use vstd::prelude::*;

verus! {

/// The driving loop's control state.  Invoking calls the watcher; Streaming
/// consumes events; Resyncing performs a full list and replace; every
/// recoverable failure loops back to Invoking.
#[derive(Clone, Copy, Debug, PartialEq, Eq, Structural)]
pub enum Phase {
    Invoking,
    Streaming,
    Resyncing,
}

/// The phase that follows a watch invocation: success starts streaming, a
/// desync-classified rejection forces the resync path, and any other
/// rejection stays in Invoking for a retry after backoff.
pub open spec fn invocation_phase(outcome: Result<(), InvocationError>) -> Phase {
    match outcome {
        Result::Ok(_) => Phase::Streaming,
        Result::Err(e) => match e.kind {
            InvocationErrorKind::Desync => Phase::Resyncing,
            InvocationErrorKind::Other => Phase::Invoking,
        },
    }
}

/// The phase that follows one stream step: events keep streaming, except an
/// in-band error payload, a stream failure, or the end of the stream, each
/// of which sends the loop back to Invoking.
pub open spec fn stream_phase(item: StreamItem) -> Phase {
    match item {
        StreamItem::Event(ev) => match ev {
            WatchEvent::Added(_) => Phase::Streaming,
            WatchEvent::Modified(_) => Phase::Streaming,
            WatchEvent::Deleted(_) => Phase::Streaming,
            WatchEvent::Bookmark(_) => Phase::Streaming,
            WatchEvent::Status(_) => Phase::Invoking,
        },
        StreamItem::Failed(_) => Phase::Invoking,
        StreamItem::End => Phase::Invoking,
    }
}

/// The notifications one stream step sends to the state sink: an object
/// event becomes the write of the same kind, everything else writes nothing.
pub open spec fn stream_ops(item: StreamItem) -> Seq<ScenarioEvent> {
    match item {
        StreamItem::Event(ev) => match ev {
            WatchEvent::Added(x) => seq![ScenarioEvent::Op(x, OpKind::Add)],
            WatchEvent::Modified(x) => seq![ScenarioEvent::Op(x, OpKind::Update)],
            WatchEvent::Deleted(x) => seq![ScenarioEvent::Op(x, OpKind::Delete)],
            WatchEvent::Bookmark(_) => Seq::empty(),
            WatchEvent::Status(_) => Seq::empty(),
        },
        StreamItem::Failed(_) => Seq::empty(),
        StreamItem::End => Seq::empty(),
    }
}

/// The resume position after one stream step: an object event or a bookmark
/// advances it to the version it carries, everything else keeps it.
pub open spec fn stream_resume(item: StreamItem, prev: Option<u64>) -> Option<u64> {
    match item {
        StreamItem::Event(ev) => match ev {
            WatchEvent::Added(x) => Option::Some(x.resource_version),
            WatchEvent::Modified(x) => Option::Some(x.resource_version),
            WatchEvent::Deleted(x) => Option::Some(x.resource_version),
            WatchEvent::Bookmark(v) => Option::Some(v),
            WatchEvent::Status(_) => prev,
        },
        StreamItem::Failed(_) => prev,
        StreamItem::End => prev,
    }
}

/// The add notifications for a replacement list, in list order.
pub open spec fn add_ops(list: Seq<Item>) -> Seq<ScenarioEvent> {
    list.map_values(|it: Item| ScenarioEvent::Op(it, OpKind::Add))
}

/// The notifications a resync sends to the sink: the resync announcement,
/// then an add for every listed object.
pub open spec fn resync_ops(list: Seq<Item>) -> Seq<ScenarioEvent> {
    seq![ScenarioEvent::Resync] + add_ops(list)
}

/// The driving loop's state: the layered state sink it writes to, the
/// control phase, and the resume position for the next invocation.
///
/// The reflector makes the loop's decisions; performing the watch call,
/// awaiting the stream, and sleeping until a maintenance wakeup are the
/// host's business, which hands the outcomes back to the handlers here.
pub struct Reflector<W> {
    pub sink: W,
    pub phase: Phase,
    pub resume_version: Option<u64>,
}

impl<W: Write> Reflector<W> {
    /// The reflector is healthy when its sink is.
    pub open spec fn wf(&self) -> bool {
        self.sink.wf()
    }

    /// Create a new [`Reflector`] that starts from now, with no resume
    /// position.
    pub fn new(sink: W) -> (r: Self)
        ensures
            r.sink == sink,
            r.phase == Phase::Invoking,
            r.resume_version == Option::<u64>::None,
            sink.wf() ==> r.wf(),
    {
        Reflector { sink, phase: Phase::Invoking, resume_version: Option::None }
    }

    /// The parameters for the next watch invocation, carrying the resume
    /// position.
    pub fn watch_options(&self) -> (r: WatchOptions)
        ensures
            r.resume_version == self.resume_version,
    {
        WatchOptions { resume_version: self.resume_version }
    }

    /// Record the outcome of a watch invocation.  The desync classification
    /// is the one fact that steers control flow: it forces the resync path,
    /// while any other rejection loops back for a retry.
    pub fn handle_invocation(&mut self, outcome: Result<(), InvocationError>)
        requires
            old(self).phase == Phase::Invoking,
        ensures
            final(self).phase == invocation_phase(outcome),
            final(self).sink == old(self).sink,
            final(self).resume_version == old(self).resume_version,
    {
        match outcome {
            Result::Ok(_) => {
                self.phase = Phase::Streaming;
            },
            Result::Err(e) => {
                match e.kind {
                    InvocationErrorKind::Desync => {
                        self.phase = Phase::Resyncing;
                    },
                    InvocationErrorKind::Other => {
                        self.phase = Phase::Invoking;
                    },
                }
            },
        }
    }

    /// Consume one step of the established stream: translate an object event
    /// into the write of the same kind, advance the resume position, and
    /// fall back to Invoking when the stream ends or fails.
    pub fn handle_stream_item(&mut self, item: StreamItem, now: u64)
        requires
            old(self).phase == Phase::Streaming,
            old(self).wf(),
            old(self).sink.admits(now),
        ensures
            final(self).wf(),
            final(self).phase == stream_phase(item),
            final(self).sink.history() == old(self).sink.history() + stream_ops(item),
            final(self).resume_version == stream_resume(item, old(self).resume_version),
            (item matches StreamItem::Event(WatchEvent::Added(x))
                ==> final(self).sink.applied() == old(self).sink.applied().push(
                ScenarioEvent::Op(x, OpKind::Add),
            ) && final(self).sink.pending() == without_key(old(self).sink.pending(), x.key)),
            (item matches StreamItem::Event(WatchEvent::Modified(x))
                ==> final(self).sink.applied() == old(self).sink.applied().push(
                ScenarioEvent::Op(x, OpKind::Update),
            ) && final(self).sink.pending() == without_key(old(self).sink.pending(), x.key)),
            (item matches StreamItem::Event(WatchEvent::Deleted(x)) ==> (W::defers()
                ==> final(self).sink.applied() == old(self).sink.applied() && now + old(self).sink.delay()
                <= u64::MAX && final(self).sink.pending() == old(self).sink.pending().push(
                (x, (now + old(self).sink.delay()) as u64),
            )) && (!W::defers() ==> final(self).sink.applied() == old(self).sink.applied().push(
                ScenarioEvent::Op(x, OpKind::Delete),
            ) && final(self).sink.pending() == old(self).sink.pending())),
            stream_ops(item).len() == 0 ==> final(self).sink.applied() == old(self).sink.applied()
                && final(self).sink.pending() == old(self).sink.pending(),
            forall|m: u64| now <= m && old(self).sink.admits(m) ==> final(self).sink.admits(m),
    {
        let ghost h0 = self.sink.history();
        match item {
            StreamItem::Event(ev) => {
                match ev {
                    WatchEvent::Added(x) => {
                        self.sink.add(x);
                        self.resume_version = Option::Some(x.resource_version);
                        proof {
                            assert(self.sink.history() =~= h0 + stream_ops(item));
                        }
                    },
                    WatchEvent::Modified(x) => {
                        self.sink.update(x);
                        self.resume_version = Option::Some(x.resource_version);
                        proof {
                            assert(self.sink.history() =~= h0 + stream_ops(item));
                        }
                    },
                    WatchEvent::Deleted(x) => {
                        self.sink.delete(x, now);
                        self.resume_version = Option::Some(x.resource_version);
                        proof {
                            assert(self.sink.history() =~= h0 + stream_ops(item));
                        }
                    },
                    WatchEvent::Bookmark(v) => {
                        self.resume_version = Option::Some(v);
                        proof {
                            assert(self.sink.history() =~= h0 + stream_ops(item));
                        }
                    },
                    WatchEvent::Status(_) => {
                        self.phase = Phase::Invoking;
                        proof {
                            assert(self.sink.history() =~= h0 + stream_ops(item));
                        }
                    },
                }
            },
            StreamItem::Failed(_) => {
                self.phase = Phase::Invoking;
                proof {
                    assert(self.sink.history() =~= h0 + stream_ops(item));
                }
            },
            StreamItem::End => {
                self.phase = Phase::Invoking;
                proof {
                    assert(self.sink.history() =~= h0 + stream_ops(item));
                }
            },
        }
    }

    /// Perform the resync: announce the replacement to the sink, add every
    /// listed object, and return to Invoking with the new resource version.
    pub fn handle_resync(&mut self, list: &Vec<Item>, new_version: u64)
        requires
            old(self).phase == Phase::Resyncing,
            old(self).wf(),
        ensures
            final(self).wf(),
            final(self).phase == Phase::Invoking,
            final(self).resume_version == Option::Some(new_version),
            final(self).sink.history() == old(self).sink.history() + resync_ops(list@),
            final(self).sink.applied() == old(self).sink.applied() + resync_ops(list@),
            final(self).sink.pending().len() == 0,
            forall|m: u64| old(self).sink.admits(m) ==> final(self).sink.admits(m),
    {
        let ghost sink0 = self.sink;
        let ghost h0 = self.sink.history();
        let ghost a0 = self.sink.applied();
        self.sink.resync();
        proof {
            assert(self.sink.history() =~= h0 + seq![ScenarioEvent::Resync]);
            assert(self.sink.applied() =~= a0 + seq![ScenarioEvent::Resync]);
        }
        let ghost h1 = self.sink.history();
        let ghost a1 = self.sink.applied();
        let mut i: usize = 0;
        proof {
            assert(add_ops(list@.subrange(0, 0)) =~= Seq::<ScenarioEvent>::empty());
            assert(h1 + add_ops(list@.subrange(0, 0)) =~= h1);
            assert(a1 + add_ops(list@.subrange(0, 0)) =~= a1);
        }
        while i < list.len()
            invariant
                i <= list@.len(),
                self.sink.wf(),
                self.sink.history() == h1 + add_ops(list@.subrange(0, i as int)),
                self.sink.applied() == a1 + add_ops(list@.subrange(0, i as int)),
                self.sink.pending().len() == 0,
                forall|m: u64| sink0.admits(m) ==> self.sink.admits(m),
            decreases list@.len() - i,
        {
            let ghost before = add_ops(list@.subrange(0, i as int));
            self.sink.add(list[i]);
            i = i + 1;
            proof {
                assert(add_ops(list@.subrange(0, i as int)) =~= before.push(
                    ScenarioEvent::Op(list@[i - 1], OpKind::Add),
                ));
                assert(self.sink.history() =~= h1 + add_ops(list@.subrange(0, i as int)));
                assert(self.sink.applied() =~= a1 + add_ops(list@.subrange(0, i as int)));
            }
        }
        proof {
            assert(list@.subrange(0, list@.len() as int) =~= list@);
            assert(h1 + add_ops(list@) =~= h0 + resync_ops(list@));
            assert(a1 + add_ops(list@) =~= a0 + resync_ops(list@));
        }
        self.phase = Phase::Invoking;
        self.resume_version = Option::Some(new_version);
    }

    /// The sink's current background work, to be merged and awaited by the
    /// host alongside the stream.
    pub fn maintenance(&self) -> (r: Vec<Option<MaintenanceTask>>)
        requires
            self.wf(),
        ensures
            (present_wakes(r@).len() == 0) <==> (self.sink.pending().len() == 0),
            forall|j: int|
                #![trigger present_wakes(r@)[j]]
                0 <= j < present_wakes(r@).len() ==> deadline_among(
                    self.sink.pending(),
                    present_wakes(r@)[j],
                ),
            self.sink.pending().len() > 0 ==> exists|j: int|
                0 <= j < present_wakes(r@).len() && wake_no_later(
                    #[trigger] present_wakes(r@)[j],
                    self.sink.pending(),
                ),
    {
        self.sink.maintenance()
    }

    /// Service the due maintenance: flush everything in the sink's layering
    /// that has fallen due by `now`.  The loop's control state and the
    /// accepted history are untouched.
    pub fn handle_maintenance(&mut self, now: u64)
        requires
            old(self).wf(),
            old(self).sink.admits(now),
        ensures
            final(self).wf(),
            final(self).phase == old(self).phase,
            final(self).resume_version == old(self).resume_version,
            final(self).sink.history() == old(self).sink.history(),
            exists|flushed: Seq<(Item, u64)>|
                final(self).sink.applied() == old(self).sink.applied() + #[trigger] deletes_of(
                    flushed,
                ) && deletes_due_from(flushed, old(self).sink.pending(), now),
            forall|i: int|
                #![trigger old(self).sink.pending()[i]]
                0 <= i < old(self).sink.pending().len() ==> (old(self).sink.pending()[i].1 > now
                    ==> final(self).sink.pending().contains(old(self).sink.pending()[i])) && (
                still_pending(old(self).sink.pending()[i].0, final(self).sink.pending())
                    || delete_reached(
                    old(self).sink.pending()[i].0,
                    old(self).sink.applied(),
                    final(self).sink.applied(),
                )),
            forall|j: int|
                #![trigger final(self).sink.pending()[j]]
                0 <= j < final(self).sink.pending().len() ==> final(self).sink.pending()[j].1
                    > now,
            forall|m: u64| now <= m && old(self).sink.admits(m) ==> final(self).sink.admits(m),
    {
        self.sink.perform_maintenance(now);
    }
}

/// A key is denoted after a pure sequence of adds exactly when the list
/// carries an object with that key.
pub proof fn lemma_add_ops_keys(list: Seq<Item>, k: u64)
    ensures
        interp(add_ops(list)).contains_key(k) <==> exists|i: int|
            0 <= i < list.len() && (#[trigger] list[i]).key == k,
    decreases list.len(),
{
    if list.len() > 0 {
        let prefix = list.drop_last();
        lemma_add_ops_keys(prefix, k);
        assert(add_ops(list) =~= add_ops(prefix).push(
            ScenarioEvent::Op(list.last(), OpKind::Add),
        ));
        lemma_interp_push(add_ops(prefix), ScenarioEvent::Op(list.last(), OpKind::Add));
        if interp(add_ops(list)).contains_key(k) {
            if k != list.last().key {
                let i = choose|i: int| 0 <= i < prefix.len() && (#[trigger] prefix[i]).key == k;
                assert(list[i].key == k);
            } else {
                assert(list[list.len() - 1].key == k);
            }
        }
        if exists|i: int| 0 <= i < list.len() && (#[trigger] list[i]).key == k {
            let i = choose|i: int| 0 <= i < list.len() && (#[trigger] list[i]).key == k;
            if i < prefix.len() {
                assert(prefix[i].key == k);
                assert(interp(add_ops(prefix)).contains_key(k));
            }
        }
    }
}

/// Law: a resync rebuilds the denoted state from the replacement list alone.
/// Whatever the history held before the resync is erased, and afterwards a
/// key is present exactly when the replacement list carries an object with
/// that key: no stale entry survives, and nothing listed is missing.
pub proof fn lemma_resync_rebuilds(h: Seq<ScenarioEvent>, list: Seq<Item>)
    ensures
        interp(h + resync_ops(list)) == interp(add_ops(list)),
        forall|k: u64|
            #![trigger interp(h + resync_ops(list)).contains_key(k)]
            interp(h + resync_ops(list)).contains_key(k) <==> exists|i: int|
                0 <= i < list.len() && (#[trigger] list[i]).key == k,
{
    let r = seq![ScenarioEvent::Resync];
    lemma_interp_push(h, ScenarioEvent::Resync);
    assert(h.push(ScenarioEvent::Resync) =~= h + r);
    assert(interp(h + r) == Map::<u64, Item>::empty());
    assert(interp(Seq::<ScenarioEvent>::empty()) == Map::<u64, Item>::empty());
    lemma_interp_extends(h + r, Seq::empty(), add_ops(list));
    assert((h + r) + add_ops(list) =~= h + resync_ops(list));
    assert(Seq::<ScenarioEvent>::empty() + add_ops(list) =~= add_ops(list));
    assert forall|k: u64|
        interp(h + resync_ops(list)).contains_key(k) <==> exists|i: int|
            0 <= i < list.len() && (#[trigger] list[i]).key == k by {
        lemma_add_ops_keys(list, k);
    }
}

/// Law: a desync-classified invocation failure sends the loop to the resync
/// path, and the resync itself first announces the replacement and then only
/// adds: for any replacement list, the notifications it sends the sink are
/// the resync announcement followed by an add per listed object, with never
/// a delete among them.
pub proof fn lemma_desync_forces_resync(e: InvocationError, list: Seq<Item>)
    requires
        e.kind == InvocationErrorKind::Desync,
    ensures
        invocation_phase(Result::<(), InvocationError>::Err(e)) == Phase::Resyncing,
        resync_ops(list).len() == 1 + list.len(),
        resync_ops(list)[0] == ScenarioEvent::Resync,
        forall|i: int|
            1 <= i < resync_ops(list).len() ==> #[trigger] resync_ops(list)[i]
                == ScenarioEvent::Op(list[i - 1], OpKind::Add),
        forall|i: int|
            0 <= i < resync_ops(list).len() ==> !((#[trigger] resync_ops(list)[i]) matches
            ScenarioEvent::Op(_, OpKind::Delete)),
{
    assert forall|i: int|
        1 <= i < resync_ops(list).len() implies #[trigger] resync_ops(list)[i]
        == ScenarioEvent::Op(list[i - 1], OpKind::Add) by {
        assert(resync_ops(list)[i] == add_ops(list)[i - 1]);
    }
    assert forall|i: int|
        0 <= i < resync_ops(list).len() implies !((#[trigger] resync_ops(list)[i]) matches
        ScenarioEvent::Op(_, OpKind::Delete)) by {
        if i >= 1 {
            assert(resync_ops(list)[i] == ScenarioEvent::Op(list[i - 1], OpKind::Add));
        }
    }
}

} // verus!
