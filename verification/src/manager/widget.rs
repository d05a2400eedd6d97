use vstd::prelude::*;

verus! {

/// Identifies a widget in the widget tree, by the integer form of its tree key.
#[derive(Clone, Copy, PartialEq, Eq, Debug, Hash)]
pub struct WidgetId(pub u64);

/// Identifies a handler a widget registered, among that widget's handlers.
#[derive(Clone, Copy, PartialEq, Eq, Debug, Hash)]
pub struct HandlerId(pub u64);

#[verifier::external_type_specification]
#[verifier::external_body]
pub struct ExTypeId(std::any::TypeId);

} // verus!
