pub mod builder;
pub mod dispatch;
pub mod names;
pub mod registry;

pub use builder::{BuildError, DispatcherBuilder};
pub use dispatch::{CompletionTracker, Dispatcher, TaskDispatch};
pub use registry::Dependencies;

use vstd::prelude::*;

verus! {

/// Opaque, stable identifier for one shared resource.
///
/// Two tasks touch the same resource exactly when their footprints hold
/// equal `ResourceId` values; the scheduler needs nothing more of it than
/// equality.
#[derive(Clone, Copy, PartialEq, Eq, Hash, Debug, Structural)]
pub struct ResourceId(pub u64);

} // verus!
