use std::collections::HashMap;

use agui_core::manager::spawn::{BuildHost, ElementEvent, ElementUpdate};
use agui_core::manager::tree::WidgetRefId;
use agui_core::manager::widget::WidgetId;
use agui_core::manager::widgets::{CallbackHost, CallbackInvoke, WidgetManager};

/// The kinds of test widget: one whose children are fixed, two layout widgets, and a root
/// whose child the test swaps.
#[derive(Clone, Copy, PartialEq, Eq)]
enum Kind {
    Dummy1,
    Dummy2,
    Root,
}

/// Widgets by id, each with its kind and children; elements learn their widget when mounted
/// and when they take a new one.
struct Host {
    widgets: HashMap<u64, (Kind, Vec<u64>)>,
    root_child: Option<u64>,
    next_widget: u64,
    element_widget: HashMap<u64, u64>,
    built: Vec<u64>,
    changes: HashMap<u64, bool>,
    called: Vec<CallbackInvoke>,
}

impl Host {
    fn new() -> Host {
        Host {
            widgets: HashMap::new(),
            root_child: None,
            next_widget: 1,
            element_widget: HashMap::new(),
            built: Vec::new(),
            changes: HashMap::new(),
            called: Vec::new(),
        }
    }

    fn widget(&mut self, kind: Kind, children: Vec<u64>) -> u64 {
        let id = self.next_widget;
        self.next_widget += 1;
        self.widgets.insert(id, (kind, children));
        id
    }
}

impl BuildHost for Host {
    fn build(&mut self, element: WidgetId) -> Vec<WidgetRefId> {
        self.built.push(element.0);
        let widget = self.element_widget[&element.0];
        let (kind, children) = self.widgets[&widget].clone();
        match kind {
            Kind::Root => self.root_child.iter().map(|w| WidgetRefId(*w)).collect(),
            _ => children.iter().map(|w| WidgetRefId(*w)).collect(),
        }
    }

    fn update_widget(&mut self, element: WidgetId, widget: WidgetRefId) -> ElementUpdate {
        let current = self.element_widget[&element.0];
        if current == widget.0 {
            ElementUpdate::Noop
        } else if self.widgets[&current].0 == self.widgets[&widget.0].0 {
            self.element_widget.insert(element.0, widget.0);
            ElementUpdate::RebuildNecessary
        } else {
            ElementUpdate::Invalid
        }
    }

    fn mount(&mut self, _parent: Option<WidgetId>, element: WidgetId, widget: WidgetRefId) {
        self.element_widget.insert(element.0, widget.0);
    }

    fn remount(&mut self, _parent: Option<WidgetId>, _element: WidgetId) {}

    fn unmount(&mut self, _element: WidgetId) {}
}

impl CallbackHost for Host {
    fn call(&mut self, invoke: CallbackInvoke) -> bool {
        self.called.push(invoke);
        match invoke {
            CallbackInvoke::Func(id) | CallbackInvoke::Widget { callback_id: id, .. } => {
                self.changes.get(&id).copied().unwrap_or(false)
            }
        }
    }
}

fn update(manager: &mut WidgetManager, host: &mut Host) -> Vec<ElementEvent> {
    let (events, settled) = manager.update(host, 64).unwrap();
    assert!(settled);
    events
}

#[test]
fn root_is_not_set_immediately() {
    let mut manager = WidgetManager::new();
    let mut h = Host::new();
    let root = h.widget(Kind::Dummy1, vec![]);
    manager.set_root(WidgetRefId(root));
    assert_eq!(manager.get_root(), None, "should not have added the widget");
}

#[test]
fn mod_adding_a_root_widget() {
    let mut manager = WidgetManager::new();
    let mut h = Host::new();
    let root = h.widget(Kind::Dummy1, vec![]);
    manager.set_root(WidgetRefId(root));
    let events = update(&mut manager, &mut h);
    let root_id = manager.get_root();
    assert_ne!(root_id, None, "root widget should have been added");
    let root_id = root_id.unwrap();
    assert_ne!(events.len(), 0, "should generate events");
    assert_eq!(
        events[0],
        ElementEvent::Spawned { parent_id: None, element_id: root_id },
        "should have generated a spawn event"
    );
}

#[test]
fn mod_removing_a_root_widget() {
    let mut manager = WidgetManager::new();
    let mut h = Host::new();
    let root = h.widget(Kind::Dummy1, vec![]);
    manager.set_root(WidgetRefId(root));
    update(&mut manager, &mut h);
    let root_id = manager.get_root();
    assert_ne!(root_id, None, "root widget should have been added");
    let root_id = root_id.unwrap();
    manager.remove_root();
    let events = update(&mut manager, &mut h);
    assert_eq!(manager.get_root(), None, "root widget should have been removed");
    assert_ne!(events.len(), 0, "should generate events");
    assert_eq!(
        events[0],
        ElementEvent::Destroyed { element_id: root_id },
        "should have generated a destroyed event"
    );
    assert_eq!(events.get(1), None, "should have only generated one event");
}

#[test]
fn mod_rebuilding_widgets() {
    let mut manager = WidgetManager::new();
    let mut h = Host::new();
    let root = h.widget(Kind::Dummy1, vec![]);
    manager.set_root(WidgetRefId(root));
    update(&mut manager, &mut h);
    let root_id = manager.get_root();
    assert_ne!(root_id, None, "root widget should have been added");
    let root_id = root_id.unwrap();
    manager.mark_dirty(root_id);
    let events = update(&mut manager, &mut h);
    assert_ne!(events.len(), 0, "should generate events");
    assert_eq!(
        events[0],
        ElementEvent::Rebuilt { element_id: root_id },
        "should have generated rebuild event for the widget"
    );
}

#[test]
fn mod_spawns_children() {
    let mut manager = WidgetManager::new();
    let mut h = Host::new();
    let a = h.widget(Kind::Dummy1, vec![]);
    let b = h.widget(Kind::Dummy1, vec![]);
    let root = h.widget(Kind::Dummy1, vec![a, b]);
    manager.set_root(WidgetRefId(root));
    let events = update(&mut manager, &mut h);
    let root_id = manager.get_root().unwrap();
    assert_eq!(manager.get_tree().len(), 3, "children should have been added");
    assert_eq!(
        events[0],
        ElementEvent::Spawned { parent_id: None, element_id: root_id },
        "should have generated spawn event for the root widget"
    );
    let children = manager.get_tree().children_of(root_id);
    assert_eq!(children.len(), 2, "root should have two children");
    assert_eq!(
        events[1],
        ElementEvent::Spawned { parent_id: Some(root_id), element_id: children[0] },
        "should have generated spawn event for the first child"
    );
    assert_eq!(
        events[2],
        ElementEvent::Spawned { parent_id: Some(root_id), element_id: children[1] },
        "should have generated spawn event for the second child"
    );
}

#[test]
fn mod_removes_children() {
    let mut manager = WidgetManager::new();
    let mut h = Host::new();
    let mut children = Vec::new();
    for _ in 0..1000 {
        children.push(h.widget(Kind::Dummy1, vec![]));
    }
    let root = h.widget(Kind::Dummy1, children);
    manager.set_root(WidgetRefId(root));
    update(&mut manager, &mut h);
    let root_id = manager.get_root().unwrap();
    assert_eq!(manager.get_tree().len(), 1001, "children should have been added");
    let children = manager.get_tree().children_of(root_id);
    assert_eq!(children.len(), 1000, "root should have all children");
    manager.remove_root();
    let events = update(&mut manager, &mut h);
    assert_eq!(manager.get_root(), None, "root widget should have been removed");
    assert_eq!(manager.get_tree().len(), 0, "all children should have been removed");
    assert_ne!(events.len(), 0, "should generate events");
    assert_eq!(
        events[0],
        ElementEvent::Destroyed { element_id: root_id },
        "should have generated a destroyed event for the root widget"
    );
    for i in 0..1000 {
        assert_eq!(
            events[i + 1],
            ElementEvent::Destroyed { element_id: children[i] },
            "should have generated a destroyed event for all children"
        );
    }
}

#[test]
fn mod_rebuilds_children() {
    let mut manager = WidgetManager::new();
    let mut h = Host::new();
    let root = h.widget(Kind::Root, vec![]);
    manager.set_root(WidgetRefId(root));
    h.root_child = Some(h.widget(Kind::Dummy1, vec![]));
    update(&mut manager, &mut h);
    let root_id = manager.get_root().unwrap();
    manager.mark_dirty(root_id);
    h.root_child = Some(h.widget(Kind::Dummy1, vec![]));
    let events = update(&mut manager, &mut h);
    assert_eq!(
        events[0],
        ElementEvent::Rebuilt { element_id: root_id },
        "should have generated rebuild event for the root widget"
    );
    assert!(
        matches!(events[1], ElementEvent::Rebuilt { element_id } if element_id != root_id),
        "should have generated rebuild event for the child"
    );
}

#[test]
fn mod_reuses_unchanged_widgets() {
    let mut manager = WidgetManager::new();
    let mut h = Host::new();
    let root = h.widget(Kind::Root, vec![]);
    manager.set_root(WidgetRefId(root));
    let reparented_widget = WidgetRefId(h.widget(Kind::Dummy1, vec![]));
    h.root_child = Some(reparented_widget.0);
    update(&mut manager, &mut h);
    let root_id = manager.get_root().unwrap();
    let element_id = manager.get_widget_elements(reparented_widget);
    manager.mark_dirty(manager.get_root().unwrap());
    update(&mut manager, &mut h);
    assert_eq!(root_id, manager.get_root().unwrap(), "root widget should have remained unchanged");
    assert_eq!(
        element_id,
        manager.get_widget_elements(reparented_widget),
        "root widget should not have regenerated its child"
    );
}

#[test]
fn reparents_existing_widgets() {
    let mut manager = WidgetManager::new();
    let mut h = Host::new();
    let root = h.widget(Kind::Root, vec![]);
    manager.set_root(WidgetRefId(root));
    let reparented_widget = WidgetRefId(h.widget(Kind::Dummy1, vec![]));
    h.root_child = Some(h.widget(Kind::Dummy1, vec![reparented_widget.0]));
    update(&mut manager, &mut h);
    let element_id = manager.get_widget_elements(reparented_widget);
    h.root_child = Some(h.widget(Kind::Dummy2, vec![reparented_widget.0]));
    manager.mark_dirty(manager.get_root().unwrap());
    update(&mut manager, &mut h);
    assert_eq!(element_id, manager.get_widget_elements(reparented_widget), "should have reparented the widget");
}

#[test]
fn a_dirty_element_is_redrawn_once() {
    let mut manager = WidgetManager::new();
    let mut h = Host::new();
    let root = h.widget(Kind::Dummy1, vec![]);
    manager.set_root(WidgetRefId(root));
    update(&mut manager, &mut h);
    let root_id = manager.get_root().unwrap();
    manager.mark_dirty(root_id);
    manager.mark_dirty(root_id);
    assert!(manager.has_changes());
    let events = update(&mut manager, &mut h);
    assert!(!manager.has_changes());
    assert_eq!(events, vec![ElementEvent::Rebuilt { element_id: root_id }, ElementEvent::Draw { element_id: root_id }]);
    assert_eq!(h.built, vec![root_id.0, root_id.0]);
}

#[test]
fn a_callback_that_changes_its_element_queues_a_rebuild() {
    let mut manager = WidgetManager::new();
    let mut h = Host::new();
    let root = h.widget(Kind::Dummy1, vec![]);
    manager.set_root(WidgetRefId(root));
    update(&mut manager, &mut h);
    let root_id = manager.get_root().unwrap();
    h.changes.insert(5, true);
    manager.queue_callback(CallbackInvoke::Func(4));
    manager.queue_callback(CallbackInvoke::Widget { element_id: root_id, callback_id: 5 });
    manager.queue_callback(CallbackInvoke::Widget { element_id: WidgetId(40), callback_id: 6 });
    let events = update(&mut manager, &mut h);
    assert_eq!(
        h.called,
        vec![CallbackInvoke::Func(4), CallbackInvoke::Widget { element_id: root_id, callback_id: 5 }]
    );
    assert_eq!(events, vec![ElementEvent::Rebuilt { element_id: root_id }, ElementEvent::Draw { element_id: root_id }]);
}

#[test]
fn an_update_with_nothing_queued_reports_nothing() {
    let mut manager = WidgetManager::new();
    let mut h = Host::new();
    let (events, settled) = manager.update(&mut h, 4).unwrap();
    assert!(settled && events.is_empty());
}

#[test]
fn an_update_that_runs_out_of_rounds_says_so() {
    let mut manager = WidgetManager::new();
    let mut h = Host::new();
    let root = h.widget(Kind::Dummy1, vec![]);
    manager.set_root(WidgetRefId(root));
    let (_, settled) = manager.update(&mut h, 1).unwrap();
    assert!(!settled);
}
