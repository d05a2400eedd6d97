pub mod listener;

use vstd::prelude::*;

verus! {

/// A value that can be held in notify-on-write state and shared between threads.
pub trait NotifiableValue: std::fmt::Debug + Send + Sync + 'static {}

impl<T: std::fmt::Debug + Send + Sync + 'static> NotifiableValue for T {}

} // verus!
