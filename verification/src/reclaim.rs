//! The collector that a set can be configured with.

use vstd::prelude::*;

verus! {

/// `seize::Collector`, the memory reclamation domain of the `seize` crate.
/// Nothing is known of what is inside one.
#[verifier::external_type_specification]
#[verifier::external_body]
pub struct ExCollector(seize::Collector);

/// Calls `seize::Collector::new`, which makes a collector with the default
/// batch size for this machine. Nothing is claimed of the result.
#[verifier::external_body]
pub(crate) fn new_collector() -> (collector: seize::Collector) {
    seize::Collector::new()
}

} // verus!
