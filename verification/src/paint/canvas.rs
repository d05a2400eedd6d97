use vstd::prelude::*;

use std::marker::PhantomData;

use crate::paint::scene::{command_fits, PaintCommand, Scene};

verus! {

/// A handle to a brush registered on a [`Canvas`]. Valid only within the paint pass that
/// produced it.
#[derive(Clone, Copy)]
pub struct BrushId<'b> {
    index: u32,
    _phantom: PhantomData<&'b ()>,
}

/// A handle to a stroke style registered on a [`Canvas`]. Valid only within the paint pass that
/// produced it.
#[derive(Clone, Copy)]
pub struct StrokeId<'b> {
    index: u32,
    _phantom: PhantomData<&'b ()>,
}

impl BrushId<'_> {
    /// The index of the brush in the table of the scene being recorded.
    pub closed spec fn index(&self) -> u32 {
        self.index
    }
}

impl StrokeId<'_> {
    /// The index of the stroke style in the table of the scene being recorded.
    pub closed spec fn index(&self) -> u32 {
        self.index
    }
}

/// Records drawing operations into a scene during a paint pass.
///
/// A render object registers its brushes and stroke styles to get handles, then issues fills,
/// strokes and glyph runs, which accumulate into the scene instead of drawing immediately.
#[verifier::reject_recursive_types(B)]
#[verifier::reject_recursive_types(S)]
#[verifier::reject_recursive_types(D)]
pub struct Canvas<'b, B, S, D> {
    scene: &'b mut Scene<B, S, D>,
}

impl<'b, B, S, D> Canvas<'b, B, S, D> {
    /// The scene as recorded so far.
    pub closed spec fn scene(&self) -> Scene<B, S, D> {
        *self.scene
    }

    /// Records into `scene` directly; the caller owns the recording boundary.
    pub fn over(scene: &'b mut Scene<B, S, D>) -> (canvas: Canvas<'b, B, S, D>)
        ensures
            canvas.scene() == *old(scene),
    {
        Canvas { scene }
    }

    /// Registers `brush` and returns a handle to it for use in fills, strokes and glyph runs.
    pub fn brush(&mut self, brush: B) -> (id: BrushId<'b>)
        requires
            old(self).scene().wf(),
            old(self).scene().brush_seq().len() <= u32::MAX,
        ensures
            final(self).scene().wf(),
            id.index() == old(self).scene().brush_seq().len(),
            final(self).scene().brush_seq() == old(self).scene().brush_seq().push(brush),
            final(self).scene().stroke_seq() == old(self).scene().stroke_seq(),
            final(self).scene().command_seq() == old(self).scene().command_seq(),
    {
        let index = self.scene.intern_brush(brush);
        BrushId { index, _phantom: PhantomData }
    }

    /// Registers `stroke` and returns a handle to it for use in strokes.
    pub fn stroke_style(&mut self, stroke: S) -> (id: StrokeId<'b>)
        requires
            old(self).scene().wf(),
            old(self).scene().stroke_seq().len() <= u32::MAX,
        ensures
            final(self).scene().wf(),
            id.index() == old(self).scene().stroke_seq().len(),
            final(self).scene().stroke_seq() == old(self).scene().stroke_seq().push(stroke),
            final(self).scene().brush_seq() == old(self).scene().brush_seq(),
            final(self).scene().command_seq() == old(self).scene().command_seq(),
    {
        let index = self.scene.intern_stroke(stroke);
        StrokeId { index, _phantom: PhantomData }
    }

    /// Records `command`, which the scene's tables can resolve.
    fn record(&mut self, command: PaintCommand<B, S, D>)
        requires
            old(self).scene().wf(),
            command_fits(old(self).scene(), command),
        ensures
            final(self).scene().wf(),
            final(self).scene().command_seq() == old(self).scene().command_seq().push(command),
            final(self).scene().brush_seq() == old(self).scene().brush_seq(),
            final(self).scene().stroke_seq() == old(self).scene().stroke_seq(),
    {
        self.scene.push(command);
    }

    /// Fills a shape, described by `draw`, with `brush`.
    pub fn fill(&mut self, brush: BrushId<'b>, draw: D)
        requires
            old(self).scene().wf(),
            brush.index() < old(self).scene().brush_seq().len(),
        ensures
            final(self).scene().wf(),
            final(self).scene().command_seq() == old(self).scene().command_seq().push(
                PaintCommand::Fill { brush: brush.index(), draw },
            ),
            final(self).scene().brush_seq() == old(self).scene().brush_seq(),
            final(self).scene().stroke_seq() == old(self).scene().stroke_seq(),
    {
        self.record(PaintCommand::Fill { brush: brush.index, draw });
    }

    /// Strokes the outline of a shape, described by `draw`, with `brush` and the registered
    /// `style`.
    pub fn stroke(&mut self, style: StrokeId<'b>, brush: BrushId<'b>, draw: D)
        requires
            old(self).scene().wf(),
            style.index() < old(self).scene().stroke_seq().len(),
            brush.index() < old(self).scene().brush_seq().len(),
        ensures
            final(self).scene().wf(),
            final(self).scene().command_seq() == old(self).scene().command_seq().push(
                PaintCommand::Stroke { stroke: style.index(), brush: brush.index(), draw },
            ),
            final(self).scene().brush_seq() == old(self).scene().brush_seq(),
            final(self).scene().stroke_seq() == old(self).scene().stroke_seq(),
    {
        self.record(PaintCommand::Stroke { stroke: style.index, brush: brush.index, draw });
    }

    /// Draws the glyphs described by `draw`, filled with `brush`.
    pub fn draw_glyphs(&mut self, brush: BrushId<'b>, draw: D)
        requires
            old(self).scene().wf(),
            brush.index() < old(self).scene().brush_seq().len(),
        ensures
            final(self).scene().wf(),
            final(self).scene().command_seq() == old(self).scene().command_seq().push(
                PaintCommand::DrawGlyphs { brush: brush.index(), draw },
            ),
            final(self).scene().brush_seq() == old(self).scene().brush_seq(),
            final(self).scene().stroke_seq() == old(self).scene().stroke_seq(),
    {
        self.record(PaintCommand::DrawGlyphs { brush: brush.index, draw });
    }

    /// Records an operation that refers to no table entry, such as the push or the pop that
    /// brackets drawing under a transform or in a layer.
    pub fn plain(&mut self, draw: D)
        requires
            old(self).scene().wf(),
        ensures
            final(self).scene().wf(),
            final(self).scene().command_seq() == old(self).scene().command_seq().push(
                PaintCommand::Plain(draw),
            ),
            final(self).scene().brush_seq() == old(self).scene().brush_seq(),
            final(self).scene().stroke_seq() == old(self).scene().stroke_seq(),
    {
        self.record(PaintCommand::Plain(draw));
    }
}

} // verus!
