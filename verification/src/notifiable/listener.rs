use vstd::prelude::*;

use crate::manager::plugin::PluginId;
use crate::manager::widget::{HandlerId, WidgetId};

verus! {

/// A combined type for anything that can listen for events in the system.
#[derive(Debug, Copy, Clone, PartialEq, Eq, Hash)]
pub enum ListenerId {
    Widget(WidgetId),
    Handler(WidgetId, HandlerId),
    Plugin(PluginId),
}

/// The widget a listener is tied to, if any.
pub open spec fn listener_widget(listener: ListenerId) -> Option<WidgetId> {
    match listener {
        ListenerId::Widget(widget_id) => Some(widget_id),
        ListenerId::Handler(widget_id, _) => Some(widget_id),
        ListenerId::Plugin(_) => None,
    }
}

impl ListenerId {
    /// The widget this listener is tied to; `None` for a plugin.
    pub fn widget_id(&self) -> (widget: Option<WidgetId>)
        ensures
            widget == listener_widget(*self),
    {
        match self {
            Self::Widget(widget_id) | Self::Handler(widget_id, ..) => Some(*widget_id),
            Self::Plugin(..) => None,
        }
    }
}

} // verus!
