use agui_core::paint::scene::SceneCapacity;
use agui_core::pipeline::layout::{LayoutPipeline, LayoutScope, RelayoutContent};
use agui_core::pipeline::paint::{PaintPipeline, PaintScope, RepaintContent};

/// Counts the boundaries it is asked to re-lay.
struct CountingLayout {
    relayouts: usize,
}

impl RelayoutContent for CountingLayout {
    fn layout(&mut self, _scope: LayoutScope) {
        self.relayouts += 1;
    }
}

/// Counts the boundaries it is asked to repaint or recompute.
struct CountingPaint {
    paints: usize,
    bits: usize,
}

impl RepaintContent for CountingPaint {
    fn update_compositing_bits(&mut self, _scope: PaintScope) -> bool {
        self.bits += 1;
        false
    }

    fn paint(&mut self, _scope: PaintScope, capacity: SceneCapacity) -> SceneCapacity {
        self.paints += 1;
        capacity
    }
}

fn settled_paint() -> (PaintPipeline, agui_core::pipeline::paint::PaintBoundaryHandle) {
    let (mut paint, root) = PaintPipeline::new();
    let mut content = CountingPaint { paints: 0, bits: 0 };
    paint.flush_compositing_bits(&mut content);
    paint.flush_paint(&mut content);
    assert!(paint.is_clean());
    (paint, root)
}

#[test]
fn flush_layout_skips_a_clean_frame_and_relays_out_when_marked_or_resized() {
    let (mut paint, paint_root) = settled_paint();
    let mut layout = LayoutPipeline::new();
    let root = layout.register_root(paint_root.scope());
    let mut content = CountingLayout { relayouts: 0 };

    // The view is sized from outside the tree.
    root.set_constraints(&mut layout);
    layout.drain_deferred();
    layout.flush(&mut paint, &mut content);
    assert_eq!(content.relayouts, 1, "the first frame lays the root out");

    layout.drain_deferred();
    layout.flush(&mut paint, &mut content);
    assert_eq!(content.relayouts, 1, "an unmarked frame reuses the layout");

    // The kind of out-of-band request a reconcile makes when a layout property changes.
    layout.deferred_scope(root.scope()).mark_needs_layout(&mut layout);

    layout.drain_deferred();
    layout.flush(&mut paint, &mut content);
    assert_eq!(content.relayouts, 2, "a relayout request re-enters the root");

    layout.drain_deferred();
    layout.flush(&mut paint, &mut content);
    assert_eq!(content.relayouts, 2, "the request is cleared by the relayout");
}

#[test]
fn a_relayout_request_schedules_a_frame_on_the_clean_to_dirty_edge() {
    let (mut paint, paint_root) = settled_paint();
    let mut layout = LayoutPipeline::new();
    let root = layout.register_root(paint_root.scope());
    let mut content = CountingLayout { relayouts: 0 };
    root.set_constraints(&mut layout);
    layout.flush(&mut paint, &mut content);

    // Count only the requests below.
    let mut frames = 0;
    for _ in 0..2 {
        if root.set_constraints(&mut layout) {
            frames += 1;
        }
    }
    assert_eq!(frames, 1, "only the clean-to-dirty edge schedules a frame");

    layout.flush(&mut paint, &mut content);
    if root.set_constraints(&mut layout) {
        frames += 1;
    }
    assert_eq!(frames, 2, "a request after the flush schedules another frame");
}

#[test]
fn marking_a_boundary_twice_relays_it_once() {
    let (mut paint, paint_root) = settled_paint();
    let mut layout = LayoutPipeline::new();
    let root = layout.register_root(paint_root.scope());
    let child = layout.register_under(root.scope(), paint_root.scope());
    root.set_constraints(&mut layout);
    child.set_constraints(&mut layout);
    let mut content = CountingLayout { relayouts: 0 };
    layout.flush(&mut paint, &mut content);
    assert_eq!(content.relayouts, 2);

    child.mark_needs_layout(&mut layout);
    layout.mark_needs_layout(child.scope());
    let mut content = CountingLayout { relayouts: 0 };
    layout.flush(&mut paint, &mut content);
    assert_eq!(content.relayouts, 1, "only the marked child re-laid, once");
}

#[test]
fn an_unmarked_frame_relays_nothing() {
    let (mut paint, paint_root) = settled_paint();
    let mut layout = LayoutPipeline::new();
    let root = layout.register_root(paint_root.scope());
    root.set_constraints(&mut layout);
    let mut content = CountingLayout { relayouts: 0 };
    layout.flush(&mut paint, &mut content);
    let mut content = CountingLayout { relayouts: 0 };
    assert!(!layout.flush(&mut paint, &mut content));
    assert_eq!(content.relayouts, 0);
}

#[test]
fn an_unconstrained_boundary_waits_for_its_constraints() {
    let (mut paint, paint_root) = settled_paint();
    let mut layout = LayoutPipeline::new();
    let root = layout.register_root(paint_root.scope());
    assert!(root.mark_needs_layout(&mut layout));
    let mut content = CountingLayout { relayouts: 0 };
    layout.flush(&mut paint, &mut content);
    assert_eq!(content.relayouts, 0, "a boundary never constrained is not re-laid on its own");
}

#[test]
fn marking_an_unregistered_boundary_is_ignored() {
    let (mut paint, paint_root) = settled_paint();
    let mut layout = LayoutPipeline::new();
    let root = layout.register_root(paint_root.scope());
    root.set_constraints(&mut layout);
    let scope = root.scope();
    layout.unregister(root);
    assert!(layout.is_clean(), "unregistering clears the pending re-layout");

    assert!(!layout.mark_needs_layout(scope));
    assert!(!layout.mark_needs_layout(LayoutScope::detached()));
    let mut content = CountingLayout { relayouts: 0 };
    layout.flush(&mut paint, &mut content);
    assert_eq!(content.relayouts, 0);
}

#[test]
fn a_relayout_marks_the_enclosing_repaint_boundary() {
    let (mut paint, paint_root) = settled_paint();
    let mut layout = LayoutPipeline::new();
    let root = layout.register_root(paint_root.scope());
    root.set_constraints(&mut layout);

    let mut content = CountingLayout { relayouts: 0 };
    assert!(layout.flush(&mut paint, &mut content), "the paint pipeline went from clean to dirty");
    assert!(!paint.is_clean());

    let mut repaint = CountingPaint { paints: 0, bits: 0 };
    paint.flush_paint(&mut repaint);
    assert_eq!(repaint.paints, 1);
    assert!(paint.is_clean());
}

#[test]
fn a_deferred_mark_applies_when_drained() {
    let (mut paint, paint_root) = settled_paint();
    let mut layout = LayoutPipeline::new();
    let root = layout.register_root(paint_root.scope());
    root.set_constraints(&mut layout);
    let mut content = CountingLayout { relayouts: 0 };
    layout.flush(&mut paint, &mut content);

    let marker = layout.deferred_scope(root.scope());
    marker.mark_needs_layout(&mut layout);
    assert!(layout.is_clean(), "a deferred mark waits for the drain");
    assert!(layout.drain_deferred(), "the drain takes the channel from clean to dirty");

    let mut content = CountingLayout { relayouts: 0 };
    layout.flush(&mut paint, &mut content);
    assert_eq!(content.relayouts, 1);
}

#[test]
fn a_detached_marker_marks_nothing() {
    let (mut paint, paint_root) = settled_paint();
    let mut layout = LayoutPipeline::new();
    let root = layout.register_root(paint_root.scope());
    root.set_constraints(&mut layout);
    let mut content = CountingLayout { relayouts: 0 };
    layout.flush(&mut paint, &mut content);

    agui_core::pipeline::layout::DeferredLayoutScope::detached().mark_needs_layout(&mut layout);
    assert!(!layout.drain_deferred());
    assert!(layout.is_clean());
}
