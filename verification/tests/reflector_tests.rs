use reflector::combine_maintenance::combine_maintenance;
use reflector::delayed_delete::DelayedDelete;
use reflector::item::Item;
use reflector::mock::Writer;
use reflector::mock_watcher::{AsyncMockWatcher, InvocationOutcome};
use reflector::reflector::{Phase, Reflector};
use reflector::state::{OpKind, ScenarioEvent};
use reflector::store::Store;
use reflector::watcher::{
    InvocationError, InvocationErrorKind, StreamError, StreamItem, WatchEvent,
};

fn item(key: u64, resource_version: u64, payload: u64) -> Item {
    Item { key, resource_version, payload }
}

#[test]
fn invocation_error_constructors_carry_classification() {
    let d = InvocationError::desync(4);
    assert_eq!(d.kind, InvocationErrorKind::Desync);
    assert_eq!(d.cause, 4);
    let o = InvocationError::other(9);
    assert_eq!(o.kind, InvocationErrorKind::Other);
    assert_eq!(o.cause, 9);
}

#[test]
fn mock_watcher_plays_back_script_and_then_rejects() {
    let a = item(1, 1, 0);
    let mut watcher = AsyncMockWatcher::new(vec![InvocationOutcome::Stream(vec![
        StreamItem::Event(WatchEvent::Added(a)),
    ])]);
    let r = Reflector::new(Writer::new());
    let opts = r.watch_options();
    let mut stream = match watcher.watch(&opts) {
        Ok(s) => s,
        Err(_) => panic!("scripted stream expected"),
    };
    assert_eq!(stream.next(), StreamItem::Event(WatchEvent::Added(a)));
    assert_eq!(stream.next(), StreamItem::End);
    assert_eq!(stream.next(), StreamItem::End);
    let exhausted = watcher.watch(&opts);
    match exhausted {
        Err(e) => assert_eq!(e.kind, InvocationErrorKind::Other),
        Ok(_) => panic!("exhausted script must reject"),
    }
}

#[test]
fn desync_reaches_resync_and_rebuilds_without_deletes() {
    let mut watcher = AsyncMockWatcher::new(vec![InvocationOutcome::Rejected(
        InvocationError::desync(1),
    )]);
    let mut r = Reflector::new(Writer::new());
    let outcome = watcher.watch(&r.watch_options());
    let err = match outcome {
        Err(e) => e,
        Ok(_) => panic!("scripted rejection expected"),
    };
    assert_eq!(err.kind, InvocationErrorKind::Desync);
    r.handle_invocation(Err(err));
    assert_eq!(r.phase, Phase::Resyncing);
    let a = item(1, 5, 10);
    let b = item(2, 5, 20);
    let list = vec![a, b];
    r.handle_resync(&list, 9);
    assert_eq!(r.phase, Phase::Invoking);
    assert_eq!(r.resume_version, Some(9));
    assert_eq!(
        r.sink.events,
        vec![
            ScenarioEvent::Resync,
            ScenarioEvent::Op(a, OpKind::Add),
            ScenarioEvent::Op(b, OpKind::Add),
        ]
    );
    for ev in &r.sink.events {
        assert!(!matches!(ev, ScenarioEvent::Op(_, OpKind::Delete)));
    }
    assert_eq!(r.sink.events[0], ScenarioEvent::Resync);
}

#[test]
fn delayed_delete_end_to_end() {
    let a = item(1, 1, 10);
    let a_deleted = item(1, 2, 10);
    let mut watcher = AsyncMockWatcher::new(vec![InvocationOutcome::Stream(vec![
        StreamItem::Event(WatchEvent::Added(a)),
        StreamItem::Event(WatchEvent::Deleted(a_deleted)),
    ])]);
    let mut r = Reflector::new(DelayedDelete::new(Store::new(), 5));
    let opts = r.watch_options();
    assert_eq!(opts.resume_version, None);
    let mut stream = match watcher.watch(&opts) {
        Ok(s) => s,
        Err(_) => panic!("scripted stream expected"),
    };
    r.handle_invocation(Ok(()));
    assert_eq!(r.phase, Phase::Streaming);
    let first = stream.next();
    r.handle_stream_item(first, 0);
    let second = stream.next();
    r.handle_stream_item(second, 1);
    // At t = 3 the grace period has not elapsed: the lookup still succeeds.
    assert_eq!(r.sink.inner.get(1), Some(&a));
    let combined = combine_maintenance(r.maintenance()).unwrap();
    assert_eq!(combined.earliest(), 6);
    // At t = 6 the deadline has passed and the flush removes the object.
    r.handle_maintenance(6);
    assert_eq!(r.sink.inner.get(1), None);
    assert!(combine_maintenance(r.maintenance()).is_none());
    r.handle_stream_item(stream.next(), 6);
    assert_eq!(r.phase, Phase::Invoking);
}

#[test]
fn transient_failure_is_retried_and_second_attempt_succeeds() {
    let b = item(7, 3, 42);
    let mut watcher = AsyncMockWatcher::new(vec![
        InvocationOutcome::Rejected(InvocationError::other(2)),
        InvocationOutcome::Stream(vec![StreamItem::Event(WatchEvent::Added(b))]),
    ]);
    let mut r = Reflector::new(Store::new());
    let first = watcher.watch(&r.watch_options());
    let err = match first {
        Err(e) => e,
        Ok(_) => panic!("scripted rejection expected"),
    };
    r.handle_invocation(Err(err));
    assert_eq!(r.phase, Phase::Invoking);
    let second = watcher.watch(&r.watch_options());
    let mut stream = match second {
        Ok(s) => s,
        Err(_) => panic!("scripted stream expected"),
    };
    r.handle_invocation(Ok(()));
    assert_eq!(r.phase, Phase::Streaming);
    r.handle_stream_item(stream.next(), 0);
    assert_eq!(r.sink.get(7), Some(&b));
    assert_eq!(r.resume_version, Some(3));
    r.handle_stream_item(stream.next(), 1);
    assert_eq!(r.phase, Phase::Invoking);
}

#[test]
fn resync_replaces_store_contents_last_entry_wins() {
    let mut r = Reflector::new(Store::new());
    r.handle_invocation(Ok(()));
    r.handle_stream_item(StreamItem::Event(WatchEvent::Added(item(1, 1, 10))), 0);
    r.handle_stream_item(StreamItem::Event(WatchEvent::Added(item(2, 1, 20))), 0);
    r.handle_stream_item(StreamItem::End, 0);
    r.handle_invocation(Err(InvocationError::desync(1)));
    let b = item(2, 4, 21);
    let c_old = item(3, 4, 30);
    let c_new = item(3, 4, 31);
    let list = vec![b, c_old, c_new];
    r.handle_resync(&list, 4);
    assert_eq!(r.sink.get(1), None);
    assert_eq!(r.sink.get(2), Some(&b));
    assert_eq!(r.sink.get(3), Some(&c_new));
    assert_eq!(r.sink.len(), 2);
}

#[test]
fn resync_with_empty_list_empties_the_store() {
    let mut r = Reflector::new(Store::new());
    r.handle_invocation(Ok(()));
    r.handle_stream_item(StreamItem::Event(WatchEvent::Added(item(1, 1, 10))), 0);
    r.handle_stream_item(StreamItem::End, 0);
    r.handle_invocation(Err(InvocationError::desync(1)));
    r.handle_resync(&Vec::new(), 2);
    assert_eq!(r.sink.get(1), None);
    assert_eq!(r.sink.len(), 0);
    assert_eq!(r.resume_version, Some(2));
}

#[test]
fn bookmark_advances_resume_position_without_writing() {
    let mut r = Reflector::new(Writer::new());
    r.handle_invocation(Ok(()));
    r.handle_stream_item(StreamItem::Event(WatchEvent::Bookmark(17)), 0);
    assert_eq!(r.phase, Phase::Streaming);
    assert_eq!(r.resume_version, Some(17));
    assert!(r.sink.events.is_empty());
    assert_eq!(r.watch_options().resume_version, Some(17));
}

#[test]
fn stream_failure_returns_to_invoking_without_writing() {
    let mut r = Reflector::new(Writer::new());
    r.handle_invocation(Ok(()));
    r.handle_stream_item(StreamItem::Failed(StreamError { cause: 8 }), 0);
    assert_eq!(r.phase, Phase::Invoking);
    assert!(r.sink.events.is_empty());
}

#[test]
fn status_event_ends_the_stream() {
    let mut r = Reflector::new(Writer::new());
    r.handle_invocation(Ok(()));
    r.handle_stream_item(StreamItem::Event(WatchEvent::Status(3)), 0);
    assert_eq!(r.phase, Phase::Invoking);
    assert!(r.sink.events.is_empty());
}

#[test]
fn modified_event_overwrites_unconditionally() {
    let a1 = item(1, 1, 10);
    let a2 = item(1, 2, 99);
    let mut r = Reflector::new(Store::new());
    r.handle_invocation(Ok(()));
    r.handle_stream_item(StreamItem::Event(WatchEvent::Added(a1)), 0);
    r.handle_stream_item(StreamItem::Event(WatchEvent::Modified(a2)), 1);
    assert_eq!(r.sink.get(1), Some(&a2));
    assert_eq!(r.resume_version, Some(2));
}
