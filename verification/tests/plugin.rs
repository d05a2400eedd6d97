use agui_core::manager::plugin::{PluginElement, PluginId, WidgetManagerPlugin};

#[derive(Debug, PartialEq)]
struct Counter {
    step: u32,
}

impl WidgetManagerPlugin for Counter {
    type State = u32;
}

struct Other;

impl WidgetManagerPlugin for Other {
    type State = ();
}

#[test]
fn a_plugin_element_starts_from_the_default_state() {
    let element = PluginElement::new(Counter { step: 2 });
    assert_eq!(*element.get_state(), 0);
    assert_eq!(element.get_plugin(), &Counter { step: 2 });
}

#[test]
fn a_plugin_state_updates_in_place() {
    let mut element = PluginElement::new(Counter { step: 3 });
    let step = element.get_plugin().step;
    *element.get_state_mut() += step;
    *element.get_state_mut() += step;
    assert_eq!(*element.get_state(), 6);
    assert_eq!(element.get_plugin().step, 3);
}

#[test]
fn plugin_ids_tell_plugin_types_apart() {
    assert_eq!(PluginId::of::<Counter>(), PluginId::of::<Counter>());
    assert_ne!(PluginId::of::<Counter>(), PluginId::of::<Other>());
}
