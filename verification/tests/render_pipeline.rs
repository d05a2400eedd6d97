use agui_core::pipeline::layout::LayoutScope;
use agui_core::pipeline::paint::PaintScope;
use agui_core::pipeline::render_pipeline::{LayoutHooks, PaintHooks, RenderPipeline};

#[derive(Default)]
struct Hooks {
    relayouts: usize,
    bit_updates: usize,
    repaints: usize,
    bits_change: bool,
}

impl LayoutHooks for Hooks {
    fn relayout(&mut self, _scope: LayoutScope) {
        self.relayouts += 1;
    }
}

impl PaintHooks for Hooks {
    fn update_compositing_bits(&mut self, _scope: PaintScope) -> bool {
        self.bit_updates += 1;
        self.bits_change
    }

    fn repaint(&mut self, _scope: PaintScope) {
        self.repaints += 1;
    }
}

#[test]
fn a_marked_boundary_relays_once_however_often_it_was_marked() {
    let mut pipeline = RenderPipeline::new();
    let root = pipeline.register_layout_boundary(LayoutScope::detached());
    let child = pipeline.register_layout_boundary(root.scope());

    pipeline.mark_needs_layout(child.scope());
    child.mark_needs_layout(&mut pipeline);
    pipeline.mark_needs_layout(child.scope());

    let mut hooks = Hooks::default();
    pipeline.flush_layout(&mut hooks);
    assert_eq!(hooks.relayouts, 1);

    let mut hooks = Hooks::default();
    pipeline.flush_layout(&mut hooks);
    assert_eq!(hooks.relayouts, 0, "the marks were cleared by the flush");
}

#[test]
fn a_relayout_repaints_the_enclosing_repaint_boundary() {
    let mut pipeline = RenderPipeline::new();
    let paint_root = pipeline.register_paint_boundary(PaintScope::detached());
    let mut layout_root = pipeline.register_layout_boundary(LayoutScope::detached());
    layout_root.set_paint_scope(&mut pipeline, paint_root.scope());

    layout_root.mark_needs_layout(&mut pipeline);
    let mut hooks = Hooks::default();
    pipeline.flush_layout(&mut hooks);
    pipeline.flush_paint(&mut hooks);
    assert_eq!(hooks.relayouts, 1);
    assert_eq!(hooks.repaints, 1, "the enclosing boundary repainted");
}

#[test]
fn a_relayout_with_no_enclosing_boundary_repaints_nothing() {
    let mut pipeline = RenderPipeline::new();
    let _paint_root = pipeline.register_paint_boundary(PaintScope::detached());
    let layout_root = pipeline.register_layout_boundary(LayoutScope::detached());
    layout_root.mark_needs_layout(&mut pipeline);
    let mut hooks = Hooks::default();
    pipeline.flush_layout(&mut hooks);
    pipeline.flush_paint(&mut hooks);
    assert_eq!(hooks.relayouts, 1);
    assert_eq!(hooks.repaints, 0);
}

#[test]
fn a_compositing_change_repaints_the_boundary() {
    let mut pipeline = RenderPipeline::new();
    let root = pipeline.register_paint_boundary(PaintScope::detached());

    root.mark_needs_compositing_bits_update(&mut pipeline);
    let mut hooks = Hooks { bits_change: false, ..Hooks::default() };
    pipeline.flush_paint(&mut hooks);
    assert_eq!(hooks.bit_updates, 1);
    assert_eq!(hooks.repaints, 0, "unchanged bits leave the painting as it is");

    root.mark_needs_compositing_bits_update(&mut pipeline);
    let mut hooks = Hooks { bits_change: true, ..Hooks::default() };
    pipeline.flush_paint(&mut hooks);
    assert_eq!(hooks.bit_updates, 1);
    assert_eq!(hooks.repaints, 1, "changed bits repaint the boundary");
}

#[test]
fn a_paint_mark_repaints_only_its_boundary() {
    let mut pipeline = RenderPipeline::new();
    let root = pipeline.register_paint_boundary(PaintScope::detached());
    let child = pipeline.register_paint_boundary(root.scope());
    child.set_enclosing(&mut pipeline, root.scope());

    child.mark_needs_paint(&mut pipeline);
    child.mark_needs_paint(&mut pipeline);
    let mut hooks = Hooks::default();
    pipeline.flush_paint(&mut hooks);
    assert_eq!(hooks.repaints, 1);
    assert_eq!(hooks.bit_updates, 0);

    root.mark_needs_composite(&mut pipeline);
    let mut hooks = Hooks::default();
    pipeline.flush_paint(&mut hooks);
    assert_eq!(hooks.repaints, 0, "a composite mark repaints no boundary");
}

#[test]
fn marks_of_an_unregistered_boundary_are_skipped() {
    let mut pipeline = RenderPipeline::new();
    let layout_root = pipeline.register_layout_boundary(LayoutScope::detached());
    let paint_root = pipeline.register_paint_boundary(PaintScope::detached());
    let layout_scope = layout_root.scope();
    let paint_scope = paint_root.scope();

    pipeline.mark_needs_layout(layout_scope);
    pipeline.mark_needs_paint(paint_scope);
    pipeline.unregister_layout_boundary(layout_root);
    pipeline.unregister_paint_boundary(paint_root);

    let mut hooks = Hooks::default();
    pipeline.flush_layout(&mut hooks);
    pipeline.flush_paint(&mut hooks);
    assert_eq!(hooks.relayouts, 0);
    assert_eq!(hooks.repaints, 0);
}

#[test]
fn deferred_marks_apply_at_the_next_flush() {
    let mut pipeline = RenderPipeline::new();
    let layout_root = pipeline.register_layout_boundary(LayoutScope::detached());
    let paint_root = pipeline.register_paint_boundary(PaintScope::detached());

    let layout_marker = pipeline.deferred_layout_scope(layout_root.scope());
    let paint_marker = pipeline.deferred_paint_scope(paint_root.scope());
    layout_marker.mark_needs_layout(&mut pipeline);
    paint_marker.mark_needs_paint(&mut pipeline);
    paint_marker.mark_needs_composite();

    let mut hooks = Hooks::default();
    pipeline.flush_layout(&mut hooks);
    pipeline.flush_paint(&mut hooks);
    assert_eq!(hooks.relayouts, 1);
    assert_eq!(hooks.repaints, 1);
}
