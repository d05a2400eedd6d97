use vstd::prelude::*;

use std::any::TypeId;

verus! {

/// Identifies a widget manager plugin by its type.
#[derive(Debug, Clone, Copy, PartialEq, Eq, PartialOrd, Ord, Hash)]
pub struct PluginId(TypeId);

/// The type id of `P`. Calls `TypeId::of`; nothing is promised of the value beyond its type.
#[verifier::external_body]
fn type_id_of<P: 'static>() -> TypeId {
    TypeId::of::<P>()
}

/// A plugin of the widget manager, with the state the manager keeps for it.
pub trait WidgetManagerPlugin: Sized + 'static {
    /// The state the manager keeps beside the plugin, starting from its default.
    type State: Default;
}

impl PluginId {
    /// The id of the plugin type `P`.
    pub fn of<P: WidgetManagerPlugin>() -> PluginId {
        PluginId(type_id_of::<P>())
    }
}

/// A plugin together with the state the widget manager keeps for it.
pub struct PluginElement<P: WidgetManagerPlugin> {
    plugin: P,
    state: P::State,
}

impl<P: WidgetManagerPlugin> PluginElement<P> {
    /// The plugin.
    pub closed spec fn plugin(&self) -> P {
        self.plugin
    }

    /// The state kept for the plugin.
    pub closed spec fn state(&self) -> P::State {
        self.state
    }

    /// Pairs `plugin` with its default state.
    pub fn new(plugin: P) -> (element: PluginElement<P>)
        ensures
            element.plugin() == plugin,
            call_ensures(P::State::default, (), element.state()),
    {
        PluginElement { plugin, state: P::State::default() }
    }

    /// The plugin.
    pub fn get_plugin(&self) -> (plugin: &P)
        ensures
            *plugin == self.plugin(),
    {
        &self.plugin
    }

    /// The state kept for the plugin.
    pub fn get_state(&self) -> (state: &P::State)
        ensures
            *state == self.state(),
    {
        &self.state
    }

    /// The state kept for the plugin, for updating it in place.
    pub fn get_state_mut(&mut self) -> (state: &mut P::State)
        ensures
            *state == old(self).state(),
            final(self).state() == *final(state),
            final(self).plugin() == old(self).plugin(),
    {
        &mut self.state
    }
}

} // verus!
