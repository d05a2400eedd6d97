use vstd::prelude::*;

verus! {

/// Identifies a surface the system compositor owns and the engine does not rasterize, such as a
/// video frame or an embedded view.
///
/// A driver mints one for a surface it manages and hands it to the widget that places the
/// surface; the composed frame reports where that surface belongs so the driver can position the
/// matching system visual.
#[derive(Clone, Copy, PartialEq, Eq, Hash, Debug)]
pub struct ExternalSurfaceId(pub u64);

} // verus!
