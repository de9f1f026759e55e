use vstd::prelude::*;

verus! {

/// One mirrored object of the watched collection.
///
/// The driving loop and the state layers only ever read an object's stable
/// identity and its revision, so an object is carried as plain values: `key`
/// identifies it within the collection (the namespace-and-name pair collapsed
/// to one token), `resource_version` is the revision at which it was last
/// seen, and `payload` stands for the rest of its data.
#[derive(Clone, Copy, Debug, PartialEq, Eq, Structural)]
pub struct Item {
    pub key: u64,
    pub resource_version: u64,
    pub payload: u64,
}

} // verus!
