use reflector::combine_maintenance::{combine_maintenance, MaintenanceTask};
use reflector::delayed_delete::DelayedDelete;
use reflector::item::Item;
use reflector::mock::Writer;
use reflector::state::{OpKind, ScenarioEvent, Write};
use reflector::store::Store;

fn item(key: u64, resource_version: u64, payload: u64) -> Item {
    Item { key, resource_version, payload }
}

#[test]
fn store_upserts_by_key() {
    let mut store = Store::new();
    let a1 = item(1, 1, 10);
    let a2 = item(1, 2, 20);
    let b = item(2, 1, 30);
    store.add(a1);
    store.add(b);
    assert_eq!(store.len(), 2);
    assert_eq!(store.get(1), Some(&a1));
    store.update(a2);
    assert_eq!(store.len(), 2);
    assert_eq!(store.get(1), Some(&a2));
}

#[test]
fn store_delete_removes_by_key() {
    let mut store = Store::new();
    let a = item(1, 1, 10);
    let b = item(2, 1, 20);
    store.add(a);
    store.add(b);
    store.delete(a, 0);
    assert_eq!(store.get(1), None);
    assert_eq!(store.get(2), Some(&b));
    assert_eq!(store.len(), 1);
}

#[test]
fn store_resync_discards_previous_contents() {
    let mut store = Store::new();
    let a = item(1, 1, 10);
    let b = item(2, 1, 20);
    let c = item(3, 1, 30);
    store.add(a);
    store.add(b);
    store.resync();
    store.add(c);
    assert_eq!(store.get(1), None);
    assert_eq!(store.get(2), None);
    assert_eq!(store.get(3), Some(&c));
    assert_eq!(store.len(), 1);
}

#[test]
fn writer_records_notifications_in_order() {
    let mut writer = Writer::new();
    let a = item(1, 1, 10);
    let b = item(2, 1, 20);
    writer.add(a);
    writer.update(b);
    writer.delete(a, 5);
    writer.resync();
    assert_eq!(
        writer.events,
        vec![
            ScenarioEvent::Op(a, OpKind::Add),
            ScenarioEvent::Op(b, OpKind::Update),
            ScenarioEvent::Op(a, OpKind::Delete),
            ScenarioEvent::Resync,
        ]
    );
}

#[test]
fn unwrap_op_yields_item_and_kind() {
    let a = item(4, 2, 9);
    let (val, kind) = ScenarioEvent::Op(a, OpKind::Update).unwrap_op();
    assert_eq!(val, a);
    assert_eq!(kind, OpKind::Update);
}

#[test]
fn queue_front_has_minimum_deadline() {
    let mut dd = DelayedDelete::new(Writer::new(), 10);
    dd.schedule_delete(item(1, 1, 0), 0);
    dd.schedule_delete(item(2, 1, 0), 3);
    dd.schedule_delete(item(3, 1, 0), 7);
    assert_eq!(dd.next_deadline(), Some(10));
    for entry in &dd.queue {
        assert!(10 <= entry.1);
    }
    dd.perform(12);
    assert_eq!(dd.next_deadline(), Some(13));
    for entry in &dd.queue {
        assert!(13 <= entry.1);
    }
}

#[test]
fn perform_flushes_only_due_entries() {
    let mut dd = DelayedDelete::new(Writer::new(), 5);
    let a = item(1, 1, 0);
    let b = item(2, 1, 0);
    dd.schedule_delete(a, 0);
    dd.schedule_delete(b, 4);
    dd.perform(2);
    assert!(dd.inner.events.is_empty());
    dd.perform(5);
    assert_eq!(dd.inner.events, vec![ScenarioEvent::Op(a, OpKind::Delete)]);
    dd.perform(9);
    assert_eq!(
        dd.inner.events,
        vec![
            ScenarioEvent::Op(a, OpKind::Delete),
            ScenarioEvent::Op(b, OpKind::Delete),
        ]
    );
    assert_eq!(dd.next_deadline(), None);
}

#[test]
fn delayed_delete_forwards_adds_and_defers_deletes() {
    let mut dd = DelayedDelete::new(Store::new(), 5);
    let a = item(1, 1, 10);
    dd.add(a);
    dd.delete(a, 1);
    assert_eq!(dd.inner.get(1), Some(&a));
    dd.perform(6);
    assert_eq!(dd.inner.get(1), None);
}

#[test]
fn readded_key_survives_flush() {
    let mut dd = DelayedDelete::new(Store::new(), 5);
    let stale = item(1, 1, 10);
    let fresh = item(1, 2, 20);
    dd.add(stale);
    dd.delete(stale, 1);
    dd.add(fresh);
    dd.perform(7);
    assert_eq!(dd.inner.get(1), Some(&fresh));
}

#[test]
fn update_also_withdraws_pending_delete() {
    let mut dd = DelayedDelete::new(Store::new(), 5);
    let stale = item(1, 1, 10);
    let fresh = item(1, 2, 20);
    dd.add(stale);
    dd.delete(stale, 1);
    dd.update(fresh);
    dd.perform(7);
    assert_eq!(dd.inner.get(1), Some(&fresh));
}

#[test]
fn resync_clears_pending_deletes() {
    let mut dd = DelayedDelete::new(Writer::new(), 5);
    dd.delete(item(1, 1, 0), 0);
    dd.delete(item(2, 1, 0), 1);
    assert_eq!(dd.next_deadline(), Some(5));
    dd.resync();
    assert_eq!(dd.next_deadline(), None);
    assert!(dd.queue.is_empty());
    assert_eq!(dd.inner.events, vec![ScenarioEvent::Resync]);
}

#[test]
fn combine_of_no_tasks_is_no_task() {
    assert!(combine_maintenance(Vec::new()).is_none());
    assert!(combine_maintenance(vec![None, None, None]).is_none());
}

#[test]
fn combine_of_present_tasks_keeps_every_wakeup() {
    let tasks = vec![
        None,
        Some(MaintenanceTask { wake_at: 5 }),
        Some(MaintenanceTask { wake_at: 3 }),
    ];
    let combined = combine_maintenance(tasks).unwrap();
    assert_eq!(combined.wakes, vec![5, 3]);
    assert_eq!(combined.earliest(), 3);
}

#[test]
fn maintenance_task_tracks_queue_head() {
    let mut dd = DelayedDelete::new(Writer::new(), 5);
    assert!(combine_maintenance(dd.maintenance()).is_none());
    dd.delete(item(1, 1, 0), 2);
    let combined = combine_maintenance(dd.maintenance()).unwrap();
    assert_eq!(combined.earliest(), 7);
    dd.perform_maintenance(7);
    assert!(combine_maintenance(dd.maintenance()).is_none());
}

#[test]
fn combined_wakeup_is_never_later_than_a_pending_deadline() {
    let mut dd = DelayedDelete::new(DelayedDelete::new(Writer::new(), 3), 5);
    let a = item(1, 1, 0);
    let b = item(2, 1, 0);
    dd.delete(a, 0);
    dd.perform_maintenance(5);
    dd.delete(b, 6);
    // The inner layer now holds (a, due 8) and the outer layer (b, due 11):
    // the merged unit must wake for the earlier of the two.
    let combined = combine_maintenance(dd.maintenance()).unwrap();
    assert_eq!(combined.wakes, vec![8, 11]);
    assert_eq!(combined.earliest(), 8);
    dd.perform_maintenance(8);
    assert_eq!(
        dd.inner.inner.events,
        vec![ScenarioEvent::Op(a, OpKind::Delete)]
    );
    let combined = combine_maintenance(dd.maintenance()).unwrap();
    assert_eq!(combined.earliest(), 11);
}

#[test]
fn stacked_decorators_defer_twice() {
    let mut dd = DelayedDelete::new(DelayedDelete::new(Writer::new(), 3), 5);
    let a = item(1, 1, 0);
    dd.delete(a, 0);
    let combined = combine_maintenance(dd.maintenance()).unwrap();
    assert_eq!(combined.earliest(), 5);
    dd.perform_maintenance(5);
    assert!(dd.inner.inner.events.is_empty());
    let combined = combine_maintenance(dd.maintenance()).unwrap();
    assert_eq!(combined.earliest(), 8);
    dd.perform_maintenance(8);
    assert_eq!(
        dd.inner.inner.events,
        vec![ScenarioEvent::Op(a, OpKind::Delete)]
    );
}
