use crate::watcher::{InvocationError, InvocationErrorKind, StreamItem, WatchOptions};
use vstd::prelude::*;

verus! {

/// One scripted outcome of a watch invocation: an established stream with
/// its items, or a classified rejection.
pub enum InvocationOutcome {
    Stream(Vec<StreamItem>),
    Rejected(InvocationError),
}

/// The event stream of one successful scripted invocation.  It hands its
/// items out in order and, once they run out, reports the server closing the
/// connection.
pub struct MockStream {
    pub items: Vec<StreamItem>,
    pub pos: usize,
}

impl MockStream {
    /// The next step of consuming this stream.
    pub fn next(&mut self) -> (r: StreamItem)
        ensures
            old(self).pos < old(self).items@.len() ==> (final(self).pos == old(self).pos + 1
                && final(self).items == old(self).items && r == old(self).items@[
                old(self).pos as int
            ]),
            old(self).pos >= old(self).items@.len() ==> (*final(self) == *old(self) && r
                == StreamItem::End),
    {
        if self.pos < self.items.len() {
            let it = self.items[self.pos];
            self.pos = self.pos + 1;
            it
        } else {
            StreamItem::End
        }
    }
}

/// A scripted watcher, useful for driving the reflector in tests: each
/// invocation consumes the next scripted outcome.  A watcher performs one
/// invocation attempt per call and holds no retry logic of its own; retrying
/// is the driving loop's business.
pub struct AsyncMockWatcher {
    pub script: Vec<InvocationOutcome>,
}

impl AsyncMockWatcher {
    /// Create a new [`AsyncMockWatcher`] that will play back `script`.
    pub fn new(script: Vec<InvocationOutcome>) -> (r: Self)
        ensures
            r.script == script,
    {
        AsyncMockWatcher { script }
    }

    /// One watch invocation attempt: yields the next scripted stream or
    /// rejection.  An exhausted script rejects with a transient error, as a
    /// closed transport would.
    pub fn watch(&mut self, _options: &WatchOptions) -> (r: Result<MockStream, InvocationError>)
        ensures
            old(self).script@.len() == 0 ==> (final(self).script@ == old(self).script@ && r
                == Result::<MockStream, InvocationError>::Err(
                (InvocationError { kind: InvocationErrorKind::Other, cause: 0 }),
            )),
            old(self).script@.len() > 0 ==> (final(self).script@ == old(self).script@.drop_first()
                && r == (match old(self).script@[0] {
                InvocationOutcome::Stream(items) => Result::<MockStream, InvocationError>::Ok(
                    (MockStream { items, pos: 0 }),
                ),
                InvocationOutcome::Rejected(e) => Result::<MockStream, InvocationError>::Err(e),
            })),
    {
        if self.script.len() == 0 {
            return Result::Err(InvocationError { kind: InvocationErrorKind::Other, cause: 0 });
        }
        let outcome = self.script.remove(0);
        match outcome {
            InvocationOutcome::Stream(items) => Result::Ok(MockStream { items, pos: 0 }),
            InvocationOutcome::Rejected(e) => Result::Err(e),
        }
    }
}

} // verus!
