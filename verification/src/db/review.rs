//! Durable review choices belong to files, never to rebuildable group ids.
use vstd::prelude::*;

verus! {

#[derive(Clone, Debug)]
pub struct Choice {
    pub state: String,
    pub snapshot: String,
    pub operation: i64,
}

} // verus!
