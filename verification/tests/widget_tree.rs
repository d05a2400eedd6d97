use std::collections::HashMap;

use agui_core::manager::spawn::{
    process_build, process_destroy, process_modification, process_rebuild, process_reparent, process_spawn,
    push_draw_events, update_step, BuildError, BuildHost, ElementEvent, ElementUpdate, Modify, SpawnResult,
    UpdateAction, UpdateStage,
};
use agui_core::manager::tree::{WidgetRefId, WidgetTree};
use agui_core::manager::widget::WidgetId;

/// Builds each element from a fixed table keyed by the widget it was created from.
struct TableHost {
    children: HashMap<u64, Vec<u64>>,
    widget_of: HashMap<u64, u64>,
    built: Vec<u64>,
    answer: ElementUpdate,
    offered: Vec<(u64, u64)>,
    lifecycle: Vec<ElementEvent>,
}

impl BuildHost for TableHost {
    fn build(&mut self, element: WidgetId) -> Vec<WidgetRefId> {
        self.built.push(element.0);
        let widget = self.widget_of.get(&element.0).copied().unwrap_or(u64::MAX);
        self.children
            .get(&widget)
            .map(|ws| ws.iter().map(|w| WidgetRefId(*w)).collect())
            .unwrap_or_default()
    }

    fn update_widget(&mut self, element: WidgetId, widget: WidgetRefId) -> ElementUpdate {
        self.offered.push((element.0, widget.0));
        self.answer
    }

    fn mount(&mut self, parent: Option<WidgetId>, element: WidgetId, _widget: WidgetRefId) {
        self.lifecycle.push(ElementEvent::Spawned { parent_id: parent, element_id: element });
    }

    fn remount(&mut self, parent: Option<WidgetId>, element: WidgetId) {
        self.lifecycle.push(ElementEvent::Reparent { parent_id: parent, element_id: element });
    }

    fn unmount(&mut self, element: WidgetId) {
        self.lifecycle.push(ElementEvent::Destroyed { element_id: element });
    }
}

fn host(table: &[(u64, &[u64])]) -> TableHost {
    TableHost {
        children: table.iter().map(|(w, cs)| (*w, cs.to_vec())).collect(),
        widget_of: HashMap::new(),
        built: Vec::new(),
        answer: ElementUpdate::Invalid,
        offered: Vec::new(),
        lifecycle: Vec::new(),
    }
}

#[test]
fn adding_elements_links_them_under_their_parent() {
    let mut tree = WidgetTree::new();
    let root = tree.add(None, WidgetRefId(10));
    let a = tree.add(Some(root), WidgetRefId(11));
    let b = tree.add(Some(root), WidgetRefId(12));
    assert!(tree.contains(root) && tree.contains(a) && tree.contains(b));
    assert_eq!(tree.get_child(root, 0), Some(a));
    assert_eq!(tree.get_child(root, 1), Some(b));
    assert_eq!(tree.get_child(root, 2), None);
    assert_eq!(tree.find_widget(WidgetRefId(12)), Some(b));
    assert_eq!(tree.find_widget(WidgetRefId(99)), None);
    assert!(!tree.contains(WidgetId(b.0 + 1)));
}

#[test]
fn reparenting_moves_an_element_to_the_end_of_its_new_parent() {
    let mut tree = WidgetTree::new();
    let root = tree.add(None, WidgetRefId(1));
    let a = tree.add(Some(root), WidgetRefId(2));
    let b = tree.add(Some(root), WidgetRefId(3));
    let c = tree.add(Some(a), WidgetRefId(4));
    assert!(tree.reparent(Some(b), c));
    assert_eq!(tree.get_child(a, 0), None);
    assert_eq!(tree.get_child(b, 0), Some(c));
    assert!(!tree.reparent(Some(b), c));
    assert!(!tree.reparent(Some(root), a));
    assert!(tree.reparent(Some(b), a));
    assert_eq!(tree.get_child(root, 0), Some(b));
    assert_eq!(tree.get_child(root, 1), None);
    assert_eq!(tree.get_child(b, 1), Some(a));
}

#[test]
fn spawning_without_an_existing_element_creates_one() {
    let mut tree = WidgetTree::new();
    let mut events = Vec::new();
    let mut h = host(&[]);
    let result = process_spawn(&mut tree, &mut events, None, WidgetRefId(5), None, &mut h);
    let SpawnResult::Created(id) = result else { panic!("expected a new element") };
    assert!(tree.contains(id));
    assert_eq!(events, vec![ElementEvent::Spawned { parent_id: None, element_id: id }]);
    assert_eq!(h.lifecycle, events);
}

#[test]
fn spawning_over_an_element_that_accepts_the_widget_retains_it() {
    let mut tree = WidgetTree::new();
    let mut events = Vec::new();
    let mut h = host(&[]);
    let root = tree.add(None, WidgetRefId(1));
    let child = tree.add(Some(root), WidgetRefId(2));
    let kept = process_spawn(&mut tree, &mut events, Some(root), WidgetRefId(3), Some((child, ElementUpdate::Noop)), &mut h);
    assert_eq!(kept, SpawnResult::Retained { element_id: child, needs_rebuild: false });
    let rebuilt =
        process_spawn(&mut tree, &mut events, Some(root), WidgetRefId(3), Some((child, ElementUpdate::RebuildNecessary)), &mut h);
    assert_eq!(rebuilt, SpawnResult::Retained { element_id: child, needs_rebuild: true });
    assert!(events.is_empty());
    assert_eq!(tree.find_widget(WidgetRefId(3)), None);
    let replaced =
        process_spawn(&mut tree, &mut events, Some(root), WidgetRefId(3), Some((child, ElementUpdate::Invalid)), &mut h);
    let SpawnResult::Created(id) = replaced else { panic!("expected a new element") };
    assert_ne!(id, child);
    assert_eq!(tree.get_child(root, 1), Some(id));
    assert_eq!(events, vec![ElementEvent::Spawned { parent_id: Some(root), element_id: id }]);
}

#[test]
fn reparenting_a_retained_element_reports_the_move_once() {
    let mut tree = WidgetTree::new();
    let mut events = Vec::new();
    let mut h = host(&[]);
    let mut retained = Vec::new();
    let root = tree.add(None, WidgetRefId(1));
    let a = tree.add(Some(root), WidgetRefId(2));
    let b = tree.add(Some(a), WidgetRefId(3));
    process_reparent(&mut tree, &mut events, &mut retained, root, b, &mut h);
    assert_eq!(retained, vec![b]);
    assert_eq!(events, vec![ElementEvent::Reparent { parent_id: Some(root), element_id: b }]);
    assert_eq!(h.lifecycle, events);
    assert_eq!(tree.get_child(root, 1), Some(b));
    let mut retained_again = Vec::new();
    process_reparent(&mut tree, &mut events, &mut retained_again, root, b, &mut h);
    assert_eq!(events.len(), 1);
}

#[test]
fn a_build_spawns_and_builds_breadth_first() {
    let mut tree = WidgetTree::new();
    let mut events = Vec::new();
    let mut retained = Vec::new();
    let mut rebuilds = Vec::new();
    let root = tree.add(None, WidgetRefId(100));
    let mut h = host(&[(100, &[1, 2]), (1, &[3]), (2, &[]), (3, &[])]);
    h.widget_of.insert(root.0, 100);
    // Element ids follow one another, so the widget of each new element is known up front.
    h.widget_of.insert(root.0 + 1, 1);
    h.widget_of.insert(root.0 + 2, 2);
    h.widget_of.insert(root.0 + 3, 3);
    assert_eq!(process_build(&mut tree, &mut events, &mut retained, &mut rebuilds, root, &mut h), Ok(()));
    let (e1, e2, e3) = (WidgetId(root.0 + 1), WidgetId(root.0 + 2), WidgetId(root.0 + 3));
    assert_eq!(h.built, vec![root.0, e1.0, e2.0, e3.0]);
    assert_eq!(
        events,
        vec![
            ElementEvent::Spawned { parent_id: Some(root), element_id: e1 },
            ElementEvent::Spawned { parent_id: Some(root), element_id: e2 },
            ElementEvent::Spawned { parent_id: Some(e1), element_id: e3 },
        ]
    );
    assert_eq!(tree.get_child(e1, 0), Some(e3));
    assert!(retained.is_empty() && rebuilds.is_empty());
    assert_eq!(h.lifecycle, events);
}

#[test]
fn a_rebuild_retains_the_element_already_made_for_a_widget() {
    let mut tree = WidgetTree::new();
    let mut events = Vec::new();
    let mut retained = Vec::new();
    let mut rebuilds = Vec::new();
    let root = tree.add(None, WidgetRefId(100));
    let a = tree.add(Some(root), WidgetRefId(1));
    let b = tree.add(Some(a), WidgetRefId(2));
    let mut h = host(&[(100, &[2])]);
    h.widget_of.insert(root.0, 100);
    assert_eq!(process_build(&mut tree, &mut events, &mut retained, &mut rebuilds, root, &mut h), Ok(()));
    assert_eq!(h.built, vec![root.0]);
    assert_eq!(retained, vec![b]);
    assert_eq!(events, vec![ElementEvent::Reparent { parent_id: Some(root), element_id: b }]);
}

#[test]
fn a_child_that_must_rebuild_is_queued_for_it() {
    let mut tree = WidgetTree::new();
    let mut events = Vec::new();
    let mut retained = Vec::new();
    let mut rebuilds = Vec::new();
    let root = tree.add(None, WidgetRefId(100));
    let a = tree.add(Some(root), WidgetRefId(1));
    let mut h = host(&[(100, &[7])]);
    h.widget_of.insert(root.0, 100);
    h.answer = ElementUpdate::RebuildNecessary;
    assert_eq!(process_build(&mut tree, &mut events, &mut retained, &mut rebuilds, root, &mut h), Ok(()));
    assert_eq!(h.offered, vec![(a.0, 7)]);
    assert_eq!(retained, vec![a]);
    assert_eq!(rebuilds, vec![a]);
    assert!(events.is_empty());
}

#[test]
fn one_widget_cannot_be_retained_twice() {
    let mut tree = WidgetTree::new();
    let mut events = Vec::new();
    let mut retained = Vec::new();
    let mut rebuilds = Vec::new();
    let root = tree.add(None, WidgetRefId(100));
    let _a = tree.add(Some(root), WidgetRefId(1));
    let mut h = host(&[(100, &[1, 1])]);
    h.widget_of.insert(root.0, 100);
    assert_eq!(
        process_build(&mut tree, &mut events, &mut retained, &mut rebuilds, root, &mut h),
        Err(BuildError::DuplicateWidget(WidgetRefId(1)))
    );
}

#[test]
fn destroying_an_element_removes_everything_under_it_breadth_first() {
    let mut tree = WidgetTree::new();
    let mut events = Vec::new();
    let mut h = host(&[]);
    let root = tree.add(None, WidgetRefId(1));
    let a = tree.add(Some(root), WidgetRefId(2));
    let b = tree.add(Some(a), WidgetRefId(3));
    let c = tree.add(Some(a), WidgetRefId(4));
    let d = tree.add(Some(b), WidgetRefId(5));
    let keep = tree.add(Some(root), WidgetRefId(6));
    process_destroy(&mut tree, &mut events, a, &mut h);
    assert_eq!(
        events,
        vec![
            ElementEvent::Destroyed { element_id: a },
            ElementEvent::Destroyed { element_id: b },
            ElementEvent::Destroyed { element_id: c },
            ElementEvent::Destroyed { element_id: d },
        ]
    );
    assert_eq!(h.lifecycle, events);
    for gone in [a, b, c, d] {
        assert!(!tree.contains(gone));
    }
    assert!(tree.contains(root) && tree.contains(keep));
    assert_eq!(tree.get_child(root, 0), Some(keep));
    assert_eq!(tree.find_widget(WidgetRefId(3)), None);
}

#[test]
fn destroying_an_element_not_held_changes_nothing() {
    let mut tree = WidgetTree::new();
    let mut events = Vec::new();
    let mut h = host(&[]);
    let root = tree.add(None, WidgetRefId(1));
    process_destroy(&mut tree, &mut events, WidgetId(root.0 + 7), &mut h);
    assert!(events.is_empty());
    assert!(tree.contains(root));
}

#[test]
fn a_rebuild_removes_the_children_it_no_longer_builds() {
    let mut tree = WidgetTree::new();
    let mut events = Vec::new();
    let mut retained = Vec::new();
    let mut rebuilds = Vec::new();
    let root = tree.add(None, WidgetRefId(100));
    let a = tree.add(Some(root), WidgetRefId(1));
    let b = tree.add(Some(root), WidgetRefId(2));
    let mut h = host(&[(100, &[2])]);
    h.widget_of.insert(root.0, 100);
    assert_eq!(process_rebuild(&mut tree, &mut events, &mut retained, &mut rebuilds, root, &mut h), Ok(()));
    assert_eq!(h.built, vec![root.0]);
    assert_eq!(retained, vec![b]);
    assert_eq!(
        events,
        vec![ElementEvent::Rebuilt { element_id: root }, ElementEvent::Destroyed { element_id: a }]
    );
    assert!(!tree.contains(a));
    assert_eq!(tree.get_child(root, 0), Some(b));
}

#[test]
fn queued_modifications_spawn_rebuild_and_destroy() {
    let mut tree = WidgetTree::new();
    let mut events = Vec::new();
    let mut retained = Vec::new();
    let mut rebuilds = Vec::new();
    let mut redraw = Vec::new();
    let mut h = host(&[(100, &[1])]);
    h.widget_of.insert(0, 100);
    h.widget_of.insert(1, 1);
    let spawn = Modify::Spawn(None, WidgetRefId(100));
    assert_eq!(
        process_modification(&mut tree, &mut events, &mut retained, &mut rebuilds, &mut redraw, spawn, &mut h),
        Ok(())
    );
    let (root, child) = (WidgetId(0), WidgetId(1));
    assert_eq!(
        events,
        vec![
            ElementEvent::Spawned { parent_id: None, element_id: root },
            ElementEvent::Spawned { parent_id: Some(root), element_id: child },
        ]
    );
    assert_eq!(h.built, vec![0, 1]);
    assert!(redraw.is_empty());

    let again = Modify::Spawn(None, WidgetRefId(100));
    assert_eq!(
        process_modification(&mut tree, &mut events, &mut retained, &mut rebuilds, &mut redraw, again, &mut h),
        Err(BuildError::DuplicateWidget(WidgetRefId(100)))
    );
    let orphan = Modify::Spawn(Some(WidgetId(50)), WidgetRefId(7));
    assert_eq!(
        process_modification(&mut tree, &mut events, &mut retained, &mut rebuilds, &mut redraw, orphan, &mut h),
        Err(BuildError::MissingParent)
    );
    let missing = Modify::Rebuild(WidgetId(50));
    assert_eq!(
        process_modification(&mut tree, &mut events, &mut retained, &mut rebuilds, &mut redraw, missing, &mut h),
        Err(BuildError::MissingElement(WidgetId(50)))
    );
    assert_eq!(redraw, vec![WidgetId(50)]);
    assert_eq!(events.len(), 2);

    let destroy = Modify::Destroy(root);
    assert_eq!(
        process_modification(&mut tree, &mut events, &mut retained, &mut rebuilds, &mut redraw, destroy, &mut h),
        Ok(())
    );
    assert!(!tree.contains(root) && !tree.contains(child));
    assert_eq!(events[2..], [ElementEvent::Destroyed { element_id: root }, ElementEvent::Destroyed { element_id: child }]);
}

#[test]
fn an_update_flushes_changes_until_stable_then_lays_out() {
    assert_eq!(update_step(UpdateStage::Start, false), UpdateAction::Finish);
    assert_eq!(update_step(UpdateStage::Start, true), UpdateAction::FlushChanges);
    assert_eq!(update_step(UpdateStage::Changed, true), UpdateAction::FlushChanges);
    assert_eq!(update_step(UpdateStage::Changed, false), UpdateAction::FlushLayout);
    assert_eq!(update_step(UpdateStage::LaidOut, true), UpdateAction::FlushChanges);
    assert_eq!(update_step(UpdateStage::LaidOut, false), UpdateAction::Finish);
}

#[test]
fn draw_events_skip_elements_no_longer_held() {
    let mut tree = WidgetTree::new();
    let root = tree.add(None, WidgetRefId(1));
    let a = tree.add(Some(root), WidgetRefId(2));
    let mut events = vec![ElementEvent::Rebuilt { element_id: root }];
    push_draw_events(&tree, &vec![a, WidgetId(40), root], &mut events);
    assert_eq!(
        events,
        vec![
            ElementEvent::Rebuilt { element_id: root },
            ElementEvent::Draw { element_id: a },
            ElementEvent::Draw { element_id: root },
        ]
    );
}
