use vstd::prelude::*;

pub mod addr;
pub mod cmd;
pub mod display;
pub mod pool;
pub mod swap;
pub mod mesh;
pub mod message;
pub mod util;

verus! {

/// The single pub/sub topic that every agent publishes to and subscribes on.
pub fn topic() -> (t: &'static str)
    ensures
        t@ == "v4-swap-agents"@,
{
    "v4-swap-agents"
}

} // verus!
