use vstd::prelude::*;

verus! {

/// One unit of deferred background work surfaced by a state layer: at most
/// one pending wakeup time.  A task handle is created fresh each time the
/// driving loop asks the layers for their current pending work, and is
/// discarded once serviced, because the underlying queue keeps changing.
#[derive(Clone, Copy, Debug, PartialEq, Eq, Structural)]
pub struct MaintenanceTask {
    pub wake_at: u64,
}

/// A set of maintenance tasks merged into one schedulable unit.  The unit
/// first has work to do at the earliest of its wakeup times and is fully
/// resolved once every one of them has passed.
#[derive(Debug, PartialEq, Eq)]
pub struct CombinedMaintenance {
    pub wakes: Vec<u64>,
}

/// The wakeup times of the tasks that are present, in order.
pub open spec fn present_wakes(tasks: Seq<Option<MaintenanceTask>>) -> Seq<u64>
    decreases tasks.len(),
{
    if tasks.len() == 0 {
        Seq::empty()
    } else {
        let rest = present_wakes(tasks.drop_last());
        match tasks.last() {
            Option::Some(t) => rest.push(t.wake_at),
            Option::None => rest,
        }
    }
}

/// The combined unit has no work left at `t`: every wakeup time has passed.
pub open spec fn resolved_by(c: CombinedMaintenance, t: u64) -> bool {
    forall|i: int| 0 <= i < c.wakes@.len() ==> #[trigger] c.wakes@[i] <= t
}

/// Appending one more optional task extends the present wakeup times by that
/// task's wakeup time, if it has one.
pub proof fn lemma_present_wakes_push(tasks: Seq<Option<MaintenanceTask>>, t: Option<MaintenanceTask>)
    ensures
        present_wakes(tasks.push(t)) == (match t {
            Option::Some(task) => present_wakes(tasks).push(task.wake_at),
            Option::None => present_wakes(tasks),
        }),
{
    assert(tasks.push(t).drop_last() =~= tasks);
    assert(tasks.push(t).last() == t);
}

/// A wakeup time is present exactly for the tasks that are present.
pub proof fn lemma_present_wakes_correspond(tasks: Seq<Option<MaintenanceTask>>)
    ensures
        forall|j: int|
            #![trigger present_wakes(tasks)[j]]
            0 <= j < present_wakes(tasks).len() ==> exists|i: int|
                0 <= i < tasks.len() && tasks[i] == Option::Some(
                    MaintenanceTask { wake_at: present_wakes(tasks)[j] },
                ),
        forall|i: int|
            0 <= i < tasks.len() ==> (#[trigger] tasks[i] matches Option::Some(task)
                ==> present_wakes(tasks).contains(task.wake_at)),
    decreases tasks.len(),
{
    if tasks.len() > 0 {
        let prefix = tasks.drop_last();
        lemma_present_wakes_correspond(prefix);
        let pw = present_wakes(tasks);
        let pwp = present_wakes(prefix);
        assert forall|j: int| #![trigger pw[j]] 0 <= j < pw.len() implies exists|i: int|
            0 <= i < tasks.len() && tasks[i] == Option::Some(
                MaintenanceTask { wake_at: pw[j] },
            ) by {
            if j < pwp.len() {
                let i = choose|i: int|
                    0 <= i < prefix.len() && prefix[i] == Option::Some(
                        MaintenanceTask { wake_at: pwp[j] },
                    );
                assert(tasks[i] == Option::Some(MaintenanceTask { wake_at: pw[j] }));
            } else {
                assert(tasks[tasks.len() - 1] == Option::Some(
                    MaintenanceTask { wake_at: pw[j] },
                ));
            }
        }
        assert forall|i: int|
            0 <= i < tasks.len() && (#[trigger] tasks[i]) is Some implies pw.contains(
            tasks[i]->Some_0.wake_at,
        ) by {
            if i < prefix.len() {
                assert(prefix[i] == tasks[i]);
                assert(pwp.contains(tasks[i]->Some_0.wake_at));
                let j = choose|j: int| 0 <= j < pwp.len() && pwp[j] == tasks[i]->Some_0.wake_at;
                assert(pw[j] == pwp[j]);
            } else {
                assert(pw.last() == tasks[i]->Some_0.wake_at);
            }
        }
    }
}

/// Law: merging maintenance tasks yields no unit exactly when no task is
/// present, and a combined unit is resolved at a time exactly when every
/// constituent task's wakeup time has passed by that time.
pub proof fn lemma_combine_resolution(
    tasks: Seq<Option<MaintenanceTask>>,
    c: CombinedMaintenance,
    t: u64,
)
    requires
        c.wakes@ == present_wakes(tasks),
    ensures
        resolved_by(c, t) <==> (forall|i: int|
            0 <= i < tasks.len() ==> (#[trigger] tasks[i] matches Option::Some(task)
                ==> task.wake_at <= t)),
{
    lemma_present_wakes_correspond(tasks);
    if resolved_by(c, t) {
        assert forall|i: int|
            0 <= i < tasks.len() && (#[trigger] tasks[i]) is Some implies tasks[i]->Some_0.wake_at
            <= t by {
            let w = tasks[i]->Some_0.wake_at;
            assert(c.wakes@.contains(w));
            let j = choose|j: int| 0 <= j < c.wakes@.len() && c.wakes@[j] == w;
            assert(c.wakes@[j] <= t);
        }
    }
    if forall|i: int|
        0 <= i < tasks.len() ==> (#[trigger] tasks[i] matches Option::Some(task) ==> task.wake_at
            <= t) {
        assert forall|j: int| 0 <= j < c.wakes@.len() implies c.wakes@[j] <= t by {
            let i = choose|i: int|
                0 <= i < tasks.len() && tasks[i] == Option::Some(
                    MaintenanceTask { wake_at: c.wakes@[j] },
                );
            assert(tasks[i] matches Option::Some(task) && task.wake_at == c.wakes@[j]);
        }
    }
}

/// Merge a collection of optional maintenance tasks into a single
/// schedulable unit: no unit if the collection is empty or every entry is
/// absent, otherwise a unit holding every present wakeup time.
pub fn combine_maintenance(tasks: Vec<Option<MaintenanceTask>>) -> (r: Option<CombinedMaintenance>)
    ensures
        (match r {
            Option::Some(c) => c.wakes@ == present_wakes(tasks@) && c.wakes@.len() > 0,
            Option::None => present_wakes(tasks@).len() == 0,
        }),
{
    let mut wakes: Vec<u64> = Vec::new();
    let mut i: usize = 0;
    while i < tasks.len()
        invariant
            i <= tasks.len(),
            wakes@ == present_wakes(tasks@.subrange(0, i as int)),
        decreases tasks.len() - i,
    {
        proof {
            assert(tasks@.subrange(0, i + 1).drop_last() =~= tasks@.subrange(0, i as int));
            assert(tasks@.subrange(0, i + 1).last() == tasks@[i as int]);
        }
        match tasks[i] {
            Option::Some(task) => wakes.push(task.wake_at),
            Option::None => {},
        }
        i = i + 1;
    }
    proof {
        assert(tasks@.subrange(0, tasks@.len() as int) =~= tasks@);
    }
    if wakes.len() == 0 {
        Option::None
    } else {
        Option::Some(CombinedMaintenance { wakes })
    }
}

impl CombinedMaintenance {
    /// The earliest wakeup time: the first moment at which the combined unit
    /// has work to do.
    pub fn earliest(&self) -> (r: u64)
        requires
            self.wakes@.len() > 0,
        ensures
            self.wakes@.contains(r),
            forall|i: int| 0 <= i < self.wakes@.len() ==> r <= #[trigger] self.wakes@[i],
    {
        let mut best: u64 = self.wakes[0];
        let mut i: usize = 1;
        while i < self.wakes.len()
            invariant
                1 <= i <= self.wakes@.len(),
                self.wakes@.contains(best),
                forall|j: int| 0 <= j < i ==> best <= #[trigger] self.wakes@[j],
            decreases self.wakes@.len() - i,
        {
            if self.wakes[i] < best {
                best = self.wakes[i];
            }
            i = i + 1;
        }
        best
    }
}

} // verus!
