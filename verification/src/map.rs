//! How a table grows.

use vstd::prelude::*;

verus! {

/// How the entries move when a table grows.
#[derive(Clone, Copy, Debug, PartialEq, Eq, Structural)]
pub enum ResizeMode {
    /// The entries move a slice at a time: every operation that changes the
    /// table moves this many slots of the old array before it does its own
    /// work. A slice of fewer than two slots is taken as two: at that pace a
    /// migration is over before its successor fills up.
    Incremental(usize),
    /// The operation that starts the growth moves every entry before it
    /// returns.
    Blocking,
}

impl ResizeMode {
    /// The number of slots an operation moves while a migration is under
    /// way; `None` where it moves them all.
    pub open spec fn slice(self) -> Option<int> {
        match self {
            ResizeMode::Incremental(n) => Some(
                if n < 2 {
                    2
                } else {
                    n as int
                },
            ),
            ResizeMode::Blocking => None,
        }
    }
}

impl Default for ResizeMode {
    /// Incremental growth, sixty-four slots at a time.
    fn default() -> (r: Self)
        ensures
            r == ResizeMode::Incremental(64),
    {
        ResizeMode::Incremental(64)
    }
}

} // verus!
