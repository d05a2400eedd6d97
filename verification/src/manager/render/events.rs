use vstd::prelude::*;

use super::LayerId;

verus! {

/// Used to indicate a change to layers in the tree.
#[derive(Debug, Clone, Copy, PartialEq, Eq, Hash)]
#[non_exhaustive]
pub enum RenderEvent {
    Flush,
    /// A layer has been spawned.
    Spawned { parent_id: Option<LayerId>, layer_id: LayerId },
    /// A layer has been resized.
    Resized { layer_id: LayerId },
    /// A layer has been redrawn.
    Redrawn { layer_id: LayerId },
    /// A layer has been reparented.
    Reparent { parent_id: Option<LayerId>, layer_id: LayerId },
    /// A layer has been destroyed.
    Destroyed { layer_id: LayerId },
}

/// The layer an event is about; a flush is about none.
pub open spec fn event_layer(event: RenderEvent) -> Option<LayerId> {
    match event {
        RenderEvent::Flush => None,
        RenderEvent::Spawned { layer_id, .. } => Some(layer_id),
        RenderEvent::Resized { layer_id } => Some(layer_id),
        RenderEvent::Redrawn { layer_id } => Some(layer_id),
        RenderEvent::Reparent { layer_id, .. } => Some(layer_id),
        RenderEvent::Destroyed { layer_id } => Some(layer_id),
    }
}

impl RenderEvent {
    /// The layer this event is about, or `None` for a flush.
    pub fn layer_id(&self) -> (layer: Option<&LayerId>)
        ensures
            match layer {
                Some(id) => event_layer(*self) == Some(*id),
                None => event_layer(*self).is_none(),
            },
    {
        match self {
            Self::Flush => None,
            Self::Spawned { layer_id, .. }
            | Self::Resized { layer_id, .. }
            | Self::Redrawn { layer_id, .. }
            | Self::Reparent { layer_id, .. }
            | Self::Destroyed { layer_id, .. } => Some(layer_id),
        }
    }
}

} // verus!
