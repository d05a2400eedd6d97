use std::cell::{Cell, RefCell};
use std::rc::Rc;

use agui_core::pointer::{PointerDispatcher, PointerEventKind, PointerId, PointerRoute};

/// A handler found under a pointer, placed at `offset` in the root space.
struct Entry {
    offset: (f32, f32),
    handler: Rc<dyn Fn(PointerEventKind, f32, f32)>,
}

/// The handlers a hit test found, outermost first.
type HitTestResult = Vec<Entry>;

/// Delivers an event at root-space `position` to every handler of `result`, localized into
/// each handler's space.
fn deliver(result: &HitTestResult, kind: PointerEventKind, position: (f32, f32)) {
    for entry in result {
        (entry.handler)(kind, position.0 - entry.offset.0, position.1 - entry.offset.1);
    }
}

/// Routes an event through the dispatcher and delivers it along the route.
fn handle(
    dispatcher: &mut PointerDispatcher<HitTestResult>,
    kind: PointerEventKind,
    position: (f32, f32),
    hit_test: impl FnOnce() -> HitTestResult,
) {
    match dispatcher.handle(PointerId(1), kind, hit_test) {
        PointerRoute::Held(result) => deliver(result, kind, position),
        PointerRoute::Fresh(result) | PointerRoute::Released(result) => {
            deliver(&result, kind, position)
        }
        PointerRoute::Nowhere => {}
    }
}

#[test]
fn a_pointer_is_hit_tested_once_and_its_path_reused() {
    let log: Rc<RefCell<Vec<(PointerEventKind, f32, f32)>>> = Rc::new(RefCell::new(Vec::new()));
    let hit_tests = Cell::new(0);

    // The child sits at (10, 20), so events localize by that offset.
    let make_result = || {
        let sink = Rc::clone(&log);
        vec![Entry {
            offset: (10.0, 20.0),
            handler: Rc::new(move |kind, x, y| sink.borrow_mut().push((kind, x, y))),
        }]
    };

    let mut dispatcher = PointerDispatcher::new();

    handle(&mut dispatcher, PointerEventKind::Down, (15.0, 25.0), || {
        hit_tests.set(hit_tests.get() + 1);
        make_result()
    });
    handle(&mut dispatcher, PointerEventKind::Move, (18.0, 30.0), || {
        hit_tests.set(hit_tests.get() + 1);
        make_result()
    });
    handle(&mut dispatcher, PointerEventKind::Up, (18.0, 30.0), || {
        hit_tests.set(hit_tests.get() + 1);
        make_result()
    });

    assert_eq!(hit_tests.get(), 1, "only the down event hit-tests");
    assert_eq!(
        *log.borrow(),
        vec![
            (PointerEventKind::Down, 5.0, 5.0),
            (PointerEventKind::Move, 8.0, 10.0),
            (PointerEventKind::Up, 8.0, 10.0),
        ],
        "every event is delivered, localized by the down-time path"
    );
}

#[test]
fn a_hover_move_hit_tests_fresh_and_fires() {
    let hits: Rc<RefCell<Vec<(f32, f32)>>> = Rc::new(RefCell::new(Vec::new()));

    let make_result = || {
        let sink = Rc::clone(&hits);
        vec![Entry {
            offset: (0.0, 0.0),
            handler: Rc::new(move |_kind, x, y| sink.borrow_mut().push((x, y))),
        }]
    };

    let mut dispatcher = PointerDispatcher::new();
    let hit_tested = Cell::new(false);

    // A move with no held gesture is a hover: it hit-tests and delivers.
    handle(&mut dispatcher, PointerEventKind::Move, (5.0, 7.0), || {
        hit_tested.set(true);
        make_result()
    });

    assert!(hit_tested.get(), "a hover move hit-tests fresh");
    assert_eq!(*hits.borrow(), vec![(5.0, 7.0)], "and the handler fires");
}

#[test]
fn after_up_a_move_is_a_fresh_hover() {
    let mut dispatcher = PointerDispatcher::new();
    handle(&mut dispatcher, PointerEventKind::Down, (0.0, 0.0), Vec::new);
    handle(&mut dispatcher, PointerEventKind::Up, (0.0, 0.0), Vec::new);

    let hit_tested = Cell::new(false);
    handle(&mut dispatcher, PointerEventKind::Move, (0.0, 0.0), || {
        hit_tested.set(true);
        Vec::new()
    });

    assert!(
        hit_tested.get(),
        "after up the path is discarded, so a move hit-tests fresh as a hover"
    );
}

#[test]
fn a_cancel_discards_the_held_path() {
    let mut dispatcher: PointerDispatcher<u32> = PointerDispatcher::new();
    assert!(matches!(
        dispatcher.handle(PointerId(4), PointerEventKind::Down, || 11),
        PointerRoute::Held(&11)
    ));
    assert!(matches!(
        dispatcher.handle(PointerId(4), PointerEventKind::Cancel, || 99),
        PointerRoute::Released(11)
    ));
    assert!(matches!(
        dispatcher.handle(PointerId(4), PointerEventKind::Cancel, || 99),
        PointerRoute::Nowhere
    ));
}

#[test]
fn pointers_are_routed_independently() {
    let mut dispatcher: PointerDispatcher<u32> = PointerDispatcher::new();
    dispatcher.handle(PointerId(1), PointerEventKind::Down, || 1);
    dispatcher.handle(PointerId(2), PointerEventKind::Down, || 2);
    assert!(matches!(
        dispatcher.handle(PointerId(1), PointerEventKind::Move, || 99),
        PointerRoute::Held(&1)
    ));
    assert!(matches!(
        dispatcher.handle(PointerId(2), PointerEventKind::Up, || 99),
        PointerRoute::Released(2)
    ));
    assert!(matches!(
        dispatcher.handle(PointerId(1), PointerEventKind::Move, || 99),
        PointerRoute::Held(&1)
    ));
    assert!(matches!(
        dispatcher.handle(PointerId(2), PointerEventKind::Move, || 99),
        PointerRoute::Fresh(99)
    ));
}

#[test]
fn an_up_without_a_held_pointer_reaches_nothing() {
    let mut dispatcher: PointerDispatcher<u32> = PointerDispatcher::new();
    let hit_tested = Cell::new(false);
    let route = dispatcher.handle(PointerId(3), PointerEventKind::Up, || {
        hit_tested.set(true);
        0
    });
    assert!(matches!(route, PointerRoute::Nowhere));
    assert!(!hit_tested.get(), "a release never hit-tests");
}
