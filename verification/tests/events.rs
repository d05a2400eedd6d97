use std::any::TypeId;

use agui_core::manager::event::{sanitize_events, WidgetEvent};
use agui_core::manager::render::events::RenderEvent;
use agui_core::manager::render::{LayerId, WidgetLayers};
use agui_core::manager::widget::{HandlerId, WidgetId};
use agui_core::notifiable::listener::ListenerId;

struct Button;

fn spawned(id: u64) -> WidgetEvent {
    WidgetEvent::Spawned { type_id: TypeId::of::<Button>(), widget_id: WidgetId(id) }
}

fn rebuilt(id: u64) -> WidgetEvent {
    WidgetEvent::Rebuilt { type_id: TypeId::of::<Button>(), widget_id: WidgetId(id) }
}

fn layout(id: u64) -> WidgetEvent {
    WidgetEvent::Layout { type_id: TypeId::of::<Button>(), widget_id: WidgetId(id) }
}

fn destroyed(id: u64) -> WidgetEvent {
    WidgetEvent::Destroyed { type_id: TypeId::of::<Button>(), widget_id: WidgetId(id) }
}

fn widgets(events: &[WidgetEvent]) -> Vec<u64> {
    events.iter().map(|event| event.widget_id().0).collect()
}

#[test]
fn sanitizing_drops_every_event_of_a_widget_spawned_and_destroyed_in_the_batch() {
    let mut events = vec![spawned(1), spawned(2), layout(1), rebuilt(2), destroyed(1)];
    sanitize_events(&mut events);
    assert_eq!(widgets(&events), vec![2, 2]);
    assert_eq!(events.len(), 2);
}

#[test]
fn widgets_properly_sanitizes_events() {
    let (widget_id_1, widget_id_2, widget_id_3) = (1, 2, 3);
    let mut events = vec![
        spawned(widget_id_1),
        spawned(widget_id_2),
        spawned(widget_id_3),
        rebuilt(widget_id_2),
        rebuilt(widget_id_3),
        destroyed(widget_id_1),
        destroyed(widget_id_3),
    ];
    sanitize_events(&mut events);
    assert!(
        matches!(events[0], WidgetEvent::Spawned { widget_id: WidgetId(id), .. } if id == widget_id_2),
        "should have retained `widget_id_2`"
    );
    assert_eq!(events.len(), 2, "should only have 2 events");
}

#[test]
fn mod_properly_sanitizes_events() {
    let (widget_id_1, widget_id_2, widget_id_3) = (7, 8, 9);
    let mut events = vec![
        spawned(widget_id_1),
        spawned(widget_id_2),
        spawned(widget_id_3),
        rebuilt(widget_id_2),
        rebuilt(widget_id_3),
        destroyed(widget_id_1),
        destroyed(widget_id_3),
    ];
    sanitize_events(&mut events);
    assert!(
        matches!(events[0], WidgetEvent::Spawned { widget_id: WidgetId(id), .. } if id == widget_id_2),
        "should have retained `widget_id_2`"
    );
    assert_eq!(events.len(), 2, "should only have 2 events");
}

#[test]
fn sanitizing_keeps_a_widget_destroyed_before_it_is_spawned_again() {
    let mut events = vec![destroyed(3), spawned(3), layout(4)];
    sanitize_events(&mut events);
    assert_eq!(widgets(&events), vec![3, 3, 4]);
}

#[test]
fn sanitizing_twice_is_sanitizing_once() {
    let mut events = vec![spawned(1), rebuilt(5), destroyed(1), spawned(6), destroyed(5)];
    sanitize_events(&mut events);
    let once = widgets(&events);
    sanitize_events(&mut events);
    assert_eq!(widgets(&events), once);
    assert_eq!(once, vec![5, 6, 5]);
}

#[test]
fn sanitizing_nothing_leaves_nothing() {
    let mut events: Vec<WidgetEvent> = Vec::new();
    sanitize_events(&mut events);
    assert!(events.is_empty());
}

#[test]
fn a_render_event_names_its_layer() {
    assert_eq!(RenderEvent::Flush.layer_id(), None);
    assert_eq!(
        RenderEvent::Spawned { parent_id: None, layer_id: LayerId(7) }.layer_id(),
        Some(&LayerId(7))
    );
    assert_eq!(RenderEvent::Destroyed { layer_id: LayerId(9) }.layer_id(), Some(&LayerId(9)));
}

#[test]
fn children_draw_into_the_tail_once_child_layers_are_open() {
    let mut layers = WidgetLayers::new();
    assert_eq!(layers.next(), None);
    layers.head = Some(LayerId(1));
    assert_eq!(layers.next(), Some(LayerId(1)));
    layers.tail = Some(LayerId(2));
    assert_eq!(layers.next(), Some(LayerId(2)));
    layers.children.push(LayerId(3));
    layers.tail = None;
    assert_eq!(layers.next(), None, "with child layers open only the tail is drawn into");
}

#[test]
fn a_listener_names_its_widget() {
    assert_eq!(ListenerId::Widget(WidgetId(4)).widget_id(), Some(WidgetId(4)));
    assert_eq!(ListenerId::Handler(WidgetId(5), HandlerId(1)).widget_id(), Some(WidgetId(5)));
}
