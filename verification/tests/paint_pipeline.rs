use agui_core::paint::scene::SceneCapacity;
use agui_core::pipeline::paint::{DeferredPaintScope, PaintPipeline, PaintScope, RepaintContent};

/// Repaints boundaries, telling them apart by the capacity their last recording reached: a
/// boundary's first paint is given a fresh tag as its recording's command count, which the
/// pipeline hands back on each later repaint.
struct Tagged {
    next_tag: usize,
    paints: Vec<usize>,
    bits: usize,
}

impl Tagged {
    fn new() -> Self {
        Tagged { next_tag: 1, paints: vec![0], bits: 0 }
    }

    fn paints_of(&self, tag: usize) -> usize {
        self.paints.get(tag).copied().unwrap_or(0)
    }

    fn total_paints(&self) -> usize {
        self.paints.iter().sum()
    }
}

impl RepaintContent for Tagged {
    fn update_compositing_bits(&mut self, _scope: PaintScope) -> bool {
        self.bits += 1;
        false
    }

    fn paint(&mut self, _scope: PaintScope, capacity: SceneCapacity) -> SceneCapacity {
        let tag = if capacity.commands == 0 {
            let tag = self.next_tag;
            self.next_tag += 1;
            self.paints.push(0);
            tag
        } else {
            capacity.commands
        };
        self.paints[tag] += 1;
        SceneCapacity { commands: tag, brushes: 1, strokes: 0 }
    }
}

/// Runs a frame: applies the out-of-band marks, then recomputes bits and repaints.
fn flush_paint(pipeline: &mut PaintPipeline, content: &mut Tagged) {
    pipeline.drain_deferred();
    pipeline.flush_compositing_bits(content);
    pipeline.flush_paint(content);
}

#[test]
fn marking_a_boundary_repaints_only_it() {
    let (mut pipeline, _root) = PaintPipeline::new();
    let child = pipeline.register();
    let mut content = Tagged::new();

    flush_paint(&mut pipeline, &mut content);
    // The root was registered first, so its first paint took the first tag.
    assert_eq!(content.paints_of(1), 1);
    assert_eq!(content.paints_of(2), 1);

    // The kind of out-of-band mark a per-frame animation callback would make.
    pipeline.deferred_scope(child.scope()).mark_needs_paint(&mut pipeline);

    flush_paint(&mut pipeline, &mut content);
    assert_eq!(content.paints_of(2), 2, "the marked boundary repainted");
    assert_eq!(content.paints_of(1), 1, "the clean parent boundary was not repainted");
}

#[test]
fn a_clean_frame_repaints_nothing() {
    let (mut pipeline, _root) = PaintPipeline::new();
    let mut content = Tagged::new();

    flush_paint(&mut pipeline, &mut content);
    flush_paint(&mut pipeline, &mut content);

    assert_eq!(content.total_paints(), 1, "an unmarked boundary paints once and is reused");
}

#[test]
fn marking_schedules_a_frame_on_the_clean_to_dirty_edge() {
    let (mut pipeline, scope) = PaintPipeline::new();
    let mut content = Tagged::new();
    let mut frames = 0;

    // Registration left the boundary dirty; the first frame clears it without a request.
    flush_paint(&mut pipeline, &mut content);
    assert_eq!(frames, 0, "registration alone schedules no frame");

    for _ in 0..2 {
        if scope.mark_needs_paint(&mut pipeline) {
            frames += 1;
        }
    }
    assert_eq!(frames, 1, "only the clean-to-dirty edge schedules a frame");

    flush_paint(&mut pipeline, &mut content);
    if scope.mark_needs_paint(&mut pipeline) {
        frames += 1;
    }
    assert_eq!(frames, 2, "a mark after the flush schedules another frame");
}

#[test]
fn compositing_update_is_a_separate_channel_from_paint() {
    let (mut pipeline, boundary) = PaintPipeline::new();
    let mut content = Tagged::new();

    flush_paint(&mut pipeline, &mut content);
    assert_eq!(content.total_paints(), 1);
    assert_eq!(content.bits, 1, "registration computes the bits for the first frame");

    boundary.mark_needs_paint(&mut pipeline);
    flush_paint(&mut pipeline, &mut content);
    assert_eq!(content.total_paints(), 2, "the boundary repainted");
    assert_eq!(content.bits, 1, "a paint mark does not recompute bits");

    boundary.mark_needs_compositing_bits_update(&mut pipeline);
    flush_paint(&mut pipeline, &mut content);
    assert_eq!(content.total_paints(), 3, "the boundary repainted");
    assert_eq!(content.bits, 2, "a compositing-bits mark recomputes bits");
}

#[test]
fn a_composite_mark_schedules_a_frame_without_repainting() {
    let (mut pipeline, boundary) = PaintPipeline::new();
    let mut content = Tagged::new();
    let mut frames = 0;

    flush_paint(&mut pipeline, &mut content);
    assert_eq!(content.total_paints(), 1);
    assert_eq!(frames, 0, "registration alone schedules no frame");

    for _ in 0..2 {
        if boundary.mark_needs_composite(&mut pipeline) {
            frames += 1;
        }
    }
    assert_eq!(frames, 1, "only the clean-to-dirty edge schedules a frame");

    flush_paint(&mut pipeline, &mut content);
    assert_eq!(
        content.total_paints(),
        1,
        "a composite mark recomposites without repainting the boundary"
    );

    if boundary.mark_needs_composite(&mut pipeline) {
        frames += 1;
    }
    assert_eq!(frames, 2, "a mark after the flush schedules another frame");
}

#[test]
fn an_animation_repaints_only_its_own_boundary() {
    let (mut pipeline, _root) = PaintPipeline::new();
    // Hold the static boundary's handle: it owns the registration.
    let _static = pipeline.register();
    let animated = pipeline.register();
    let mut content = Tagged::new();

    flush_paint(&mut pipeline, &mut content);
    // Tags: the root 1, the static boundary 2, the animated one 3.
    assert_eq!(content.paints_of(2), 1);
    assert_eq!(content.paints_of(3), 1);

    // The animation marks its own boundary each frame, as a driver would from its frame callback.
    let scope = pipeline.deferred_scope(animated.scope());
    for _ in 0..3 {
        scope.mark_needs_paint(&mut pipeline);
        flush_paint(&mut pipeline, &mut content);
    }

    assert_eq!(
        content.paints_of(3),
        4,
        "the animated boundary repainted on each of the three frames"
    );
    assert_eq!(
        content.paints_of(2),
        1,
        "the static boundary was painted once and reused throughout"
    );
}

#[test]
fn marks_of_an_unregistered_boundary_are_ignored() {
    let (mut pipeline, _root) = PaintPipeline::new();
    let child = pipeline.register();
    let mut content = Tagged::new();
    flush_paint(&mut pipeline, &mut content);

    let scope = child.scope();
    pipeline.unregister(child);
    assert!(!pipeline.mark_needs_paint(scope));
    assert!(!pipeline.mark_needs_compositing_bits_update(scope));
    assert!(pipeline.is_clean());
    flush_paint(&mut pipeline, &mut content);
    assert_eq!(content.total_paints(), 2);
}

#[test]
fn two_deferred_marks_repaint_once() {
    let (mut pipeline, root) = PaintPipeline::new();
    let mut content = Tagged::new();
    flush_paint(&mut pipeline, &mut content);

    let marker = pipeline.deferred_scope(root.scope());
    marker.mark_needs_paint(&mut pipeline);
    marker.mark_needs_paint(&mut pipeline);
    assert!(pipeline.is_clean(), "deferred marks wait for the drain");
    assert!(pipeline.drain_deferred());
    pipeline.flush_compositing_bits(&mut content);
    pipeline.flush_paint(&mut content);
    assert_eq!(content.paints_of(1), 2, "two deferred marks repaint the boundary once");
}

#[test]
fn a_detached_paint_marker_marks_nothing() {
    let (mut pipeline, _root) = PaintPipeline::new();
    let mut content = Tagged::new();
    flush_paint(&mut pipeline, &mut content);

    let marker = DeferredPaintScope::detached();
    marker.mark_needs_paint(&mut pipeline);
    marker.mark_needs_composite(&mut pipeline);
    assert!(!pipeline.drain_deferred());
    assert!(pipeline.is_clean());
}
