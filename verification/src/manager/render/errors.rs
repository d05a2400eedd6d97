use vstd::prelude::*;

use super::LayerId;
use crate::manager::widget::WidgetId;

verus! {

/// Why the layer tree could not follow the widget events it was given.
#[derive(Debug, Clone, Copy)]
pub enum RenderError {
    MissingWidget { widget_id: WidgetId },
    MissingLayer { layer_id: LayerId },
    NoLayerTarget { parent_id: WidgetId, widget_id: WidgetId },
    /// The layer tree holds as many layers as it can number.
    Full,
}

} // verus!
