use agui_core::manager::render::errors::RenderError;
use agui_core::manager::render::events::RenderEvent;
use agui_core::manager::render::layers::LayerForest;
use agui_core::manager::render::update::{process_spawn, CanvasLayer, LayerCanvas, RenderHost, RenderManager};
use agui_core::manager::render::{LayerId, WidgetLayers};
use agui_core::manager::spawn::ElementEvent;
use agui_core::manager::tree::{WidgetRefId, WidgetTree};
use agui_core::manager::widget::WidgetId;

fn canvas(head: &[u32], children: Vec<CanvasLayer<u32, u8>>, tail: Option<CanvasLayer<u32, u8>>) -> LayerCanvas<u32, u8> {
    LayerCanvas { head: head.to_vec(), children, tail: tail.map(Box::new) }
}

fn layer(style: u8, inner: LayerCanvas<u32, u8>) -> CanvasLayer<u32, u8> {
    CanvasLayer { style, canvas: inner }
}

/// Draws each widget from a list of canvases handed out in order.
struct Painter {
    canvases: Vec<Option<LayerCanvas<u32, u8>>>,
    drawn: Vec<WidgetId>,
}

impl RenderHost<u32, u8> for Painter {
    fn render(&mut self, widget: WidgetId) -> Option<LayerCanvas<u32, u8>> {
        self.drawn.push(widget);
        if self.canvases.is_empty() {
            None
        } else {
            self.canvases.remove(0)
        }
    }
}

#[test]
fn a_canvas_without_a_target_opens_a_root_layer() {
    let mut forest: LayerForest<u32, u8> = LayerForest::new();
    let mut events = Vec::new();
    let mut owned = WidgetLayers::new();
    let widget = WidgetId(3);
    assert!(process_spawn(&mut forest, &mut events, widget, &mut owned, None, canvas(&[1, 2], vec![], None)).is_ok());
    let root = LayerId(0);
    assert!(forest.contains(root));
    assert_eq!(forest.widget_count(root), 1);
    assert!(forest.has_commands(root, widget));
    assert!(events.is_empty());
}

#[test]
fn child_and_tail_layers_are_spawned_under_the_target() {
    let mut forest: LayerForest<u32, u8> = LayerForest::new();
    let target = forest.add(None, None, Vec::new());
    let mut events = Vec::new();
    let mut owned = WidgetLayers::new();
    let widget = WidgetId(9);
    let drawing = canvas(
        &[7],
        vec![layer(1, canvas(&[8], vec![], None)), layer(2, canvas(&[], vec![], None))],
        Some(layer(3, canvas(&[5], vec![], None))),
    );
    assert!(process_spawn(&mut forest, &mut events, widget, &mut owned, Some(target), drawing).is_ok());
    let (a, b, t) = (LayerId(1), LayerId(2), LayerId(3));
    assert_eq!(
        events,
        vec![
            RenderEvent::Spawned { parent_id: Some(target), layer_id: a },
            RenderEvent::Spawned { parent_id: Some(target), layer_id: b },
            RenderEvent::Spawned { parent_id: Some(target), layer_id: t },
        ]
    );
    assert_eq!(owned.children, vec![a, b]);
    assert_eq!(owned.tail, Some(t));
    assert_eq!(owned.next(), Some(t));
    assert!(forest.has_commands(target, widget) && forest.has_commands(a, widget) && forest.has_commands(t, widget));
    assert!(!forest.has_commands(b, widget));
    assert_eq!(forest.widget_count(b), 1);
    assert_eq!(forest.children_of(target), vec![a, b, t]);
}

#[test]
fn spawning_into_a_missing_layer_fails_and_changes_nothing() {
    let mut forest: LayerForest<u32, u8> = LayerForest::new();
    let mut events = Vec::new();
    let mut owned = WidgetLayers::new();
    let result = process_spawn(&mut forest, &mut events, WidgetId(1), &mut owned, Some(LayerId(4)), canvas(&[1], vec![], None));
    assert!(matches!(result, Err(RenderError::MissingLayer { layer_id: LayerId(4) })));
    assert!(events.is_empty() && !forest.contains(LayerId(0)));
}

#[test]
fn element_events_build_and_tear_down_the_layer_tree() {
    let mut tree = WidgetTree::new();
    let root = tree.add(None, WidgetRefId(1));
    let child = tree.add(Some(root), WidgetRefId(2));
    let mut manager: RenderManager<u32, u8> = RenderManager::new();
    let mut painter = Painter {
        canvases: vec![Some(canvas(&[1], vec![layer(0, canvas(&[2], vec![], None))], None)), Some(canvas(&[3], vec![], None))],
        drawn: Vec::new(),
    };
    let spawned = vec![
        ElementEvent::Spawned { parent_id: None, element_id: root },
        ElementEvent::Spawned { parent_id: Some(root), element_id: child },
        ElementEvent::Draw { element_id: child },
    ];
    let out = manager.try_update(&tree, &spawned, &mut painter).ok().unwrap();
    assert_eq!(out, vec![RenderEvent::Spawned { parent_id: Some(LayerId(0)), layer_id: LayerId(1) }]);
    assert_eq!(painter.drawn, vec![root, child]);
    assert!(manager.owns_layers(root) && manager.owns_layers(child));
    // The root's own layer is not its recorded head, and it opened child layers but no tail,
    // so it hands its child no layer: the child's head commands open a root layer of their own.
    assert!(manager.get_layers().has_commands(LayerId(2), child));
    assert!(!manager.get_layers().has_commands(LayerId(0), child));

    let destroyed = vec![ElementEvent::Destroyed { element_id: root }];
    let out = manager.try_update(&tree, &destroyed, &mut painter).ok().unwrap();
    assert_eq!(out, vec![RenderEvent::Destroyed { layer_id: LayerId(1) }]);
    assert!(!manager.owns_layers(root));
    assert!(!manager.get_layers().contains(LayerId(1)));
    assert!(manager.get_layers().contains(LayerId(0)) && manager.get_layers().contains(LayerId(2)));
}

#[test]
fn events_for_unknown_elements_fail() {
    let tree = WidgetTree::new();
    let mut manager: RenderManager<u32, u8> = RenderManager::new();
    let mut painter = Painter { canvases: Vec::new(), drawn: Vec::new() };
    let ghost = vec![ElementEvent::Spawned { parent_id: None, element_id: WidgetId(5) }];
    assert!(matches!(
        manager.try_update(&tree, &ghost, &mut painter),
        Err(RenderError::MissingWidget { widget_id: WidgetId(5) })
    ));
    let gone = vec![ElementEvent::Destroyed { element_id: WidgetId(6) }];
    assert!(matches!(
        manager.try_update(&tree, &gone, &mut painter),
        Err(RenderError::MissingWidget { widget_id: WidgetId(6) })
    ));
    assert!(painter.drawn.is_empty());
}

#[test]
fn an_update_that_fails_rebuilds_the_layer_tree_from_scratch() {
    let mut tree = WidgetTree::new();
    let root = tree.add(None, WidgetRefId(1));
    let child = tree.add(Some(root), WidgetRefId(2));
    let mut manager: RenderManager<u32, u8> = RenderManager::new();
    let mut painter = Painter {
        canvases: vec![
            // The failed pass draws nothing; the rebuild draws the root with a tail and the child.
            Some(canvas(&[1], vec![], Some(layer(0, canvas(&[], vec![], None))))),
            Some(canvas(&[2], vec![], None)),
        ],
        drawn: Vec::new(),
    };
    // The child's parent owns no layers yet, so following this event alone fails.
    let events = vec![ElementEvent::Spawned { parent_id: Some(root), element_id: child }];
    let out = manager.update(&tree, &events, &mut painter).ok().unwrap();
    assert_eq!(painter.drawn, vec![root, child]);
    assert!(manager.owns_layers(root) && manager.owns_layers(child));
    // The root's canvas opened a root layer and a tail under it; the child draws into the tail.
    assert_eq!(out, vec![RenderEvent::Spawned { parent_id: Some(LayerId(0)), layer_id: LayerId(1) }]);
    assert!(manager.get_layers().has_commands(LayerId(1), child));
}

#[test]
fn clearing_drops_every_layer_and_owner() {
    let mut tree = WidgetTree::new();
    let root = tree.add(None, WidgetRefId(1));
    let mut manager: RenderManager<u32, u8> = RenderManager::new();
    let mut painter = Painter { canvases: vec![Some(canvas(&[1], vec![], None))], drawn: Vec::new() };
    let spawned = vec![ElementEvent::Spawned { parent_id: None, element_id: root }];
    manager.try_update(&tree, &spawned, &mut painter).ok().unwrap();
    assert!(manager.get_layers().contains(LayerId(0)));
    manager.clear();
    assert!(!manager.owns_layers(root));
    assert!(!manager.get_layers().contains(LayerId(0)));
}
