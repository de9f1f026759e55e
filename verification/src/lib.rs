//! A local, eventually-consistent mirror of a remote resource collection.
//!
//! The crate follows the reflector pattern: a driving loop consumes a
//! resumable watch stream and applies each change event to a layered local
//! state sink.  The layers are a plain key-to-object map ([`store::Store`]),
//! a decorator that defers deletions by a fixed grace period
//! ([`delayed_delete::DelayedDelete`]), and a combinator that merges the
//! decorators' background work into one schedulable unit
//! ([`combine_maintenance::combine_maintenance`]).  The loop's decisions are
//! the state machine in [`reflector::Reflector`]; the transport that produces
//! the events is kept outside and is represented here by plain values and by
//! the scripted [`mock_watcher::AsyncMockWatcher`].

pub mod combine_maintenance;
pub mod delayed_delete;
pub mod item;
pub mod mock;
pub mod mock_watcher;
pub mod reflector;
pub mod state;
pub mod store;
pub mod watcher;
