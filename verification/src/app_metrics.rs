//! The labels under which requests are counted.
use vstd::prelude::*;

pub mod metrics_labels;

verus! {

} // verus!
