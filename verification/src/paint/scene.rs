use vstd::prelude::*;

use std::rc::Rc;

verus! {

/// The buffer lengths of a recorded scene.
///
/// A caller that repeats a recording passes the lengths reported by the previous one as the
/// capacity for the next, so a recording of similar size fills pre-sized buffers instead of
/// growing them.
#[derive(Debug, Clone, Copy, PartialEq, Eq)]
pub struct SceneCapacity {
    pub commands: usize,
    pub brushes: usize,
    pub strokes: usize,
}

impl SceneCapacity {
    /// No room reserved in any buffer.
    pub fn empty() -> (capacity: SceneCapacity)
        ensures
            capacity.commands == 0,
            capacity.brushes == 0,
            capacity.strokes == 0,
    {
        SceneCapacity { commands: 0, brushes: 0, strokes: 0 }
    }

    /// Grows each buffer length by the matching length of `other`. A sum past `usize::MAX`
    /// overflows, which `requires` rules out.
    pub fn add(&mut self, other: SceneCapacity)
        requires
            old(self).commands + other.commands <= usize::MAX,
            old(self).brushes + other.brushes <= usize::MAX,
            old(self).strokes + other.strokes <= usize::MAX,
        ensures
            final(self).commands == old(self).commands + other.commands,
            final(self).brushes == old(self).brushes + other.brushes,
            final(self).strokes == old(self).strokes + other.strokes,
    {
        self.commands = self.commands + other.commands;
        self.brushes = self.brushes + other.brushes;
        self.strokes = self.strokes + other.strokes;
    }

    /// The lengths left after taking `other` away, each floored at zero.
    pub fn saturating_sub(self, other: SceneCapacity) -> (rest: SceneCapacity)
        ensures
            rest.commands == saturating_difference(self.commands, other.commands),
            rest.brushes == saturating_difference(self.brushes, other.brushes),
            rest.strokes == saturating_difference(self.strokes, other.strokes),
    {
        SceneCapacity {
            commands: self.commands.saturating_sub(other.commands),
            brushes: self.brushes.saturating_sub(other.brushes),
            strokes: self.strokes.saturating_sub(other.strokes),
        }
    }
}

/// `a - b`, or zero when `b` exceeds `a`.
pub open spec fn saturating_difference(a: usize, b: usize) -> int {
    if a >= b {
        a - b
    } else {
        0
    }
}

/// Adding a capacity and then taking it away gives back the capacity started from.
pub proof fn lemma_add_then_saturating_sub(a: SceneCapacity, b: SceneCapacity)
    requires
        a.commands + b.commands <= usize::MAX,
        a.brushes + b.brushes <= usize::MAX,
        a.strokes + b.strokes <= usize::MAX,
    ensures
        saturating_difference((a.commands + b.commands) as usize, b.commands) == a.commands,
        saturating_difference((a.brushes + b.brushes) as usize, b.brushes) == a.brushes,
        saturating_difference((a.strokes + b.strokes) as usize, b.strokes) == a.strokes,
{
}

/// A recorded drawing operation.
///
/// Operations that draw refer to the scene's brush and stroke tables by index; `draw` is the rest
/// of the operation (its shape, fill style, glyphs or transform), which the scene carries without
/// reading it.
#[derive(Clone, Debug)]
#[verifier::reject_recursive_types(B)]
#[verifier::reject_recursive_types(S)]
#[verifier::reject_recursive_types(D)]
pub enum PaintCommand<B, S, D> {
    /// Fills a shape's interior with a brush of the table.
    Fill { brush: u32, draw: D },
    /// Strokes a shape's outline with a stroke style and a brush of the tables.
    Stroke { stroke: u32, brush: u32, draw: D },
    /// Draws glyphs filled with a brush of the table.
    DrawGlyphs { brush: u32, draw: D },
    /// An operation that refers to no table entry, such as pushing or popping a transform or a
    /// layer.
    Plain(D),
    /// Splices a sub-scene, which keeps its own brush and stroke tables, by reference.
    Embed(Rc<Scene<B, S, D>>),
}

/// A drawing operation with its table references replaced by the entries they name.
#[derive(Clone, Debug)]
pub enum ResolvedCommand<B, S, D> {
    Fill(B, D),
    Stroke(S, B, D),
    DrawGlyphs(B, D),
    Plain(D),
}

/// A complete description of what to draw: the recorded operations, and the brush and stroke
/// tables they refer to.
#[derive(Clone, Debug)]
#[verifier::reject_recursive_types(B)]
#[verifier::reject_recursive_types(S)]
#[verifier::reject_recursive_types(D)]
pub struct Scene<B, S, D> {
    commands: Vec<PaintCommand<B, S, D>>,
    brushes: Vec<B>,
    strokes: Vec<S>,
}

/// Whether the first `n` operations of `scene`, and every scene they embed, refer only to
/// entries their own tables hold.
pub closed spec fn commands_valid<B, S, D>(scene: Scene<B, S, D>, n: int) -> bool
    decreases scene, n,
{
    if n <= 0 || n > scene.commands@.len() {
        true
    } else {
        &&& commands_valid(scene, n - 1)
        &&& match scene.commands@[n - 1] {
            PaintCommand::Fill { brush, .. } => brush < scene.brushes@.len(),
            PaintCommand::Stroke { stroke, brush, .. } => stroke < scene.strokes@.len() && brush
                < scene.brushes@.len(),
            PaintCommand::DrawGlyphs { brush, .. } => brush < scene.brushes@.len(),
            PaintCommand::Plain(_) => true,
            PaintCommand::Embed(embedded) => commands_valid(
                *embedded,
                embedded.commands@.len() as int,
            ),
        }
    }
}

/// The first `n` operations of `scene` in drawing order, every embedded scene spliced in place
/// and every table reference replaced by the entry it names.
pub closed spec fn resolved_upto<B, S, D>(scene: Scene<B, S, D>, n: int) -> Seq<
    ResolvedCommand<B, S, D>,
>
    decreases scene, n,
{
    if n <= 0 || n > scene.commands@.len() {
        Seq::empty()
    } else {
        let before = resolved_upto(scene, n - 1);
        match scene.commands@[n - 1] {
            PaintCommand::Fill { brush, draw } => before.push(
                ResolvedCommand::Fill(scene.brushes@[brush as int], draw),
            ),
            PaintCommand::Stroke { stroke, brush, draw } => before.push(
                ResolvedCommand::Stroke(
                    scene.strokes@[stroke as int],
                    scene.brushes@[brush as int],
                    draw,
                ),
            ),
            PaintCommand::DrawGlyphs { brush, draw } => before.push(
                ResolvedCommand::DrawGlyphs(scene.brushes@[brush as int], draw),
            ),
            PaintCommand::Plain(draw) => before.push(ResolvedCommand::Plain(draw)),
            PaintCommand::Embed(embedded) => before + resolved_upto(
                *embedded,
                embedded.commands@.len() as int,
            ),
        }
    }
}

/// `b` is `a` with each entry and payload cloned.
pub open spec fn resolved_cloned<B: Clone, S: Clone, D: Clone>(
    a: ResolvedCommand<B, S, D>,
    b: ResolvedCommand<B, S, D>,
) -> bool {
    match (a, b) {
        (ResolvedCommand::Fill(b1, d1), ResolvedCommand::Fill(b2, d2)) => cloned(b1, b2) && cloned(
            d1,
            d2,
        ),
        (ResolvedCommand::Stroke(s1, b1, d1), ResolvedCommand::Stroke(s2, b2, d2)) => cloned(
            s1,
            s2,
        ) && cloned(b1, b2) && cloned(d1, d2),
        (ResolvedCommand::DrawGlyphs(b1, d1), ResolvedCommand::DrawGlyphs(b2, d2)) => cloned(
            b1,
            b2,
        ) && cloned(d1, d2),
        (ResolvedCommand::Plain(d1), ResolvedCommand::Plain(d2)) => cloned(d1, d2),
        _ => false,
    }
}

impl<B, S, D> Scene<B, S, D> {
    /// The recorded operations.
    pub closed spec fn command_seq(&self) -> Seq<PaintCommand<B, S, D>> {
        self.commands@
    }

    /// The brush table.
    pub closed spec fn brush_seq(&self) -> Seq<B> {
        self.brushes@
    }

    /// The stroke table.
    pub closed spec fn stroke_seq(&self) -> Seq<S> {
        self.strokes@
    }

    /// Every operation refers only to entries its scene's tables hold.
    pub closed spec fn wf(&self) -> bool {
        commands_valid(*self, self.commands@.len() as int)
    }

    /// What the scene draws, in order, with embedded scenes spliced in and table references
    /// resolved.
    pub closed spec fn resolved(&self) -> Seq<ResolvedCommand<B, S, D>> {
        resolved_upto(*self, self.commands@.len() as int)
    }

    /// No operation embeds another scene.
    pub closed spec fn is_flat(&self) -> bool {
        forall|i: int| 0 <= i < self.commands@.len() ==> !(#[trigger] self.commands@[i] is Embed)
    }
}

/// What one operation of `scene` resolves to: a single entry, or for an embedded scene all that
/// scene resolves to.
pub open spec fn command_resolution<B, S, D>(
    scene: Scene<B, S, D>,
    command: PaintCommand<B, S, D>,
) -> Seq<ResolvedCommand<B, S, D>> {
    match command {
        PaintCommand::Fill { brush, draw } => seq![
            ResolvedCommand::Fill(scene.brush_seq()[brush as int], draw),
        ],
        PaintCommand::Stroke { stroke, brush, draw } => seq![
            ResolvedCommand::Stroke(
                scene.stroke_seq()[stroke as int],
                scene.brush_seq()[brush as int],
                draw,
            ),
        ],
        PaintCommand::DrawGlyphs { brush, draw } => seq![
            ResolvedCommand::DrawGlyphs(scene.brush_seq()[brush as int], draw),
        ],
        PaintCommand::Plain(draw) => seq![ResolvedCommand::Plain(draw)],
        PaintCommand::Embed(embedded) => embedded.resolved(),
    }
}

/// Whether `command` may be recorded into `scene`: the entries it names are in the scene's
/// tables, and a scene it embeds is well formed.
pub open spec fn command_fits<B, S, D>(scene: Scene<B, S, D>, command: PaintCommand<B, S, D>) -> bool {
    match command {
        PaintCommand::Fill { brush, .. } => brush < scene.brush_seq().len(),
        PaintCommand::Stroke { stroke, brush, .. } => stroke < scene.stroke_seq().len() && brush
            < scene.brush_seq().len(),
        PaintCommand::DrawGlyphs { brush, .. } => brush < scene.brush_seq().len(),
        PaintCommand::Plain(_) => true,
        PaintCommand::Embed(embedded) => embedded.wf(),
    }
}

/// The index `intern_brush` hands out names the brush it interned: reading the brush table at
/// that index afterwards gives that brush back.
pub proof fn lemma_interned_brush_reads_back<B, S, D>(
    before: Scene<B, S, D>,
    after: Scene<B, S, D>,
    brush: B,
    index: u32,
)
    requires
        after.brush_seq() == before.brush_seq().push(brush),
        index == before.brush_seq().len(),
    ensures
        index < after.brush_seq().len(),
        after.brush_seq()[index as int] == brush,
{
}

/// A scene that keeps the first `n` operations of another and extends its tables resolves those
/// operations the same way.
proof fn lemma_extended_resolves_alike<B, S, D>(
    small: Scene<B, S, D>,
    large: Scene<B, S, D>,
    n: int,
)
    requires
        0 <= n <= small.commands@.len(),
        n <= large.commands@.len(),
        forall|i: int| 0 <= i < n ==> large.commands@[i] == small.commands@[i],
        small.brushes@.len() <= large.brushes@.len(),
        forall|i: int| 0 <= i < small.brushes@.len() ==> large.brushes@[i] == small.brushes@[i],
        small.strokes@.len() <= large.strokes@.len(),
        forall|i: int| 0 <= i < small.strokes@.len() ==> large.strokes@[i] == small.strokes@[i],
        commands_valid(small, n),
    ensures
        commands_valid(large, n),
        resolved_upto(large, n) == resolved_upto(small, n),
    decreases n,
{
    if n > 0 {
        lemma_extended_resolves_alike(small, large, n - 1);
    }
}

/// Operations valid up to `j` are valid up to any `i` before it.
proof fn lemma_valid_prefix<B, S, D>(scene: Scene<B, S, D>, i: int, j: int)
    requires
        0 <= i <= j <= scene.commands@.len(),
        commands_valid(scene, j),
    ensures
        commands_valid(scene, i),
    decreases j - i,
{
    if i < j {
        lemma_valid_prefix(scene, i, j - 1);
    }
}

/// Resolving more operations only adds to what the fewer resolve to.
proof fn lemma_resolved_grows<B, S, D>(scene: Scene<B, S, D>, i: int, j: int)
    requires
        0 <= i <= j <= scene.commands@.len(),
    ensures
        resolved_upto(scene, i).len() <= resolved_upto(scene, j).len(),
    decreases j - i,
{
    if i < j {
        lemma_resolved_grows(scene, i, j - 1);
    }
}

impl<B, S, D> Default for Scene<B, S, D> {
    /// An empty scene.
    fn default() -> (scene: Scene<B, S, D>)
        ensures
            scene.wf(),
            scene.command_seq() == Seq::<PaintCommand<B, S, D>>::empty(),
            scene.brush_seq() == Seq::<B>::empty(),
            scene.stroke_seq() == Seq::<S>::empty(),
    {
        Scene::new()
    }
}

impl<B, S, D> Scene<B, S, D> {
    /// An empty scene.
    pub fn new() -> (scene: Scene<B, S, D>)
        ensures
            scene.wf(),
            scene.is_flat(),
            scene.command_seq() == Seq::<PaintCommand<B, S, D>>::empty(),
            scene.brush_seq() == Seq::<B>::empty(),
            scene.stroke_seq() == Seq::<S>::empty(),
            scene.resolved() == Seq::<ResolvedCommand<B, S, D>>::empty(),
    {
        Scene { commands: Vec::new(), brushes: Vec::new(), strokes: Vec::new() }
    }

    /// The lengths of this scene's buffers, for sizing a later recording.
    pub fn lengths(&self) -> (capacity: SceneCapacity)
        ensures
            capacity.commands == self.command_seq().len(),
            capacity.brushes == self.brush_seq().len(),
            capacity.strokes == self.stroke_seq().len(),
    {
        SceneCapacity {
            commands: self.commands.len(),
            brushes: self.brushes.len(),
            strokes: self.strokes.len(),
        }
    }

    /// Makes room for at least the counts in `capacity` in each buffer; what the scene holds is
    /// unchanged.
    pub fn reserve(&mut self, capacity: SceneCapacity)
        ensures
            final(self).command_seq() == old(self).command_seq(),
            final(self).brush_seq() == old(self).brush_seq(),
            final(self).stroke_seq() == old(self).stroke_seq(),
    {
        let commands = capacity.commands.saturating_sub(self.commands.len());
        self.commands.reserve(commands);
        let brushes = capacity.brushes.saturating_sub(self.brushes.len());
        self.brushes.reserve(brushes);
        let strokes = capacity.strokes.saturating_sub(self.strokes.len());
        self.strokes.reserve(strokes);
    }

    /// Discards all recorded operations and table entries, leaving the scene empty for reuse.
    pub fn reset(&mut self)
        ensures
            final(self).wf(),
            final(self).is_flat(),
            final(self).command_seq() == Seq::<PaintCommand<B, S, D>>::empty(),
            final(self).brush_seq() == Seq::<B>::empty(),
            final(self).stroke_seq() == Seq::<S>::empty(),
    {
        self.commands.clear();
        self.brushes.clear();
        self.strokes.clear();
    }

    /// The recorded operations.
    pub fn commands(&self) -> (commands: &[PaintCommand<B, S, D>])
        ensures
            commands@ == self.command_seq(),
    {
        self.commands.as_slice()
    }

    /// The number of recorded operations.
    pub fn len(&self) -> (len: usize)
        ensures
            len == self.command_seq().len(),
    {
        self.commands.len()
    }

    /// Whether no operation is recorded.
    pub fn is_empty(&self) -> (empty: bool)
        ensures
            empty == (self.command_seq().len() == 0),
    {
        self.commands.len() == 0
    }

    /// The brush an operation refers to by `index`.
    pub fn brush(&self, index: u32) -> (brush: &B)
        requires
            index < self.brush_seq().len(),
        ensures
            *brush == self.brush_seq()[index as int],
    {
        &self.brushes[index as usize]
    }

    /// The stroke style an operation refers to by `index`.
    pub fn stroke(&self, index: u32) -> (stroke: &S)
        requires
            index < self.stroke_seq().len(),
        ensures
            *stroke == self.stroke_seq()[index as int],
    {
        &self.strokes[index as usize]
    }

    /// Records `command` after the operations already recorded.
    pub fn push(&mut self, command: PaintCommand<B, S, D>)
        requires
            old(self).wf(),
            command_fits(*old(self), command),
        ensures
            final(self).wf(),
            final(self).command_seq() == old(self).command_seq().push(command),
            final(self).brush_seq() == old(self).brush_seq(),
            final(self).stroke_seq() == old(self).stroke_seq(),
            final(self).resolved() == old(self).resolved() + command_resolution(*old(self), command),
    {
        let ghost before = *self;
        self.commands.push(command);
        proof {
            let n = before.commands@.len() as int;
            lemma_extended_resolves_alike(before, *self, n);
            assert(resolved_upto(*self, n + 1) =~= resolved_upto(*self, n) + command_resolution(
                before,
                command,
            ));
        }
    }

    /// Adds `brush` to the brush table and returns the index operations refer to it by.
    pub fn intern_brush(&mut self, brush: B) -> (index: u32)
        requires
            old(self).wf(),
            old(self).brush_seq().len() <= u32::MAX,
        ensures
            final(self).wf(),
            index == old(self).brush_seq().len(),
            final(self).brush_seq() == old(self).brush_seq().push(brush),
            final(self).command_seq() == old(self).command_seq(),
            final(self).stroke_seq() == old(self).stroke_seq(),
            final(self).resolved() == old(self).resolved(),
    {
        let ghost before = *self;
        let index = self.brushes.len() as u32;
        self.brushes.push(brush);
        proof {
            lemma_extended_resolves_alike(before, *self, before.commands@.len() as int);
        }
        index
    }

    /// Adds `stroke` to the stroke table and returns the index operations refer to it by.
    pub fn intern_stroke(&mut self, stroke: S) -> (index: u32)
        requires
            old(self).wf(),
            old(self).stroke_seq().len() <= u32::MAX,
        ensures
            final(self).wf(),
            index == old(self).stroke_seq().len(),
            final(self).stroke_seq() == old(self).stroke_seq().push(stroke),
            final(self).command_seq() == old(self).command_seq(),
            final(self).brush_seq() == old(self).brush_seq(),
            final(self).resolved() == old(self).resolved(),
    {
        let ghost before = *self;
        let index = self.strokes.len() as u32;
        self.strokes.push(stroke);
        proof {
            lemma_extended_resolves_alike(before, *self, before.commands@.len() as int);
        }
        index
    }
}

impl<B: Clone, S: Clone, D: Clone> Scene<B, S, D> {
    /// Resolves this scene to one without embedded scenes: every operation of this scene and of
    /// the scenes it embeds, in drawing order, each drawing operation given its own copy of the
    /// entries it refers to.
    ///
    /// The result draws what this scene draws. Its tables hold one entry per reference, so their
    /// indices, which are `u32`, bound what can be flattened.
    pub fn flatten(&self) -> (flat: Scene<B, S, D>)
        requires
            self.wf(),
            self.resolved().len() <= u32::MAX,
        ensures
            flat.wf(),
            flat.is_flat(),
            flat.resolved().len() == self.resolved().len(),
            forall|k: int|
                0 <= k < self.resolved().len() ==> resolved_cloned(
                    self.resolved()[k],
                    #[trigger] flat.resolved()[k],
                ),
    {
        let mut out = Scene::new();
        let ghost empty = out;
        self.inline_into(&mut out);
        proof {
            assert forall|k: int| 0 <= k < self.resolved().len() implies resolved_cloned(
                self.resolved()[k],
                #[trigger] out.resolved()[k],
            ) by {
                assert(out.resolved()[empty.resolved().len() + k] == out.resolved()[k]);
            }
        }
        out
    }

    /// Appends what this scene draws to `out`, resolved and without embedded scenes.
    fn inline_into(&self, out: &mut Scene<B, S, D>)
        requires
            self.wf(),
            old(out).wf(),
            old(out).is_flat(),
            old(out).brush_seq().len() + self.resolved().len() <= u32::MAX,
            old(out).stroke_seq().len() + self.resolved().len() <= u32::MAX,
        ensures
            final(out).wf(),
            final(out).is_flat(),
            final(out).resolved().len() == old(out).resolved().len() + self.resolved().len(),
            forall|k: int|
                0 <= k < old(out).resolved().len() ==> #[trigger] final(out).resolved()[k]
                    == old(out).resolved()[k],
            forall|k: int|
                0 <= k < self.resolved().len() ==> resolved_cloned(
                    self.resolved()[k],
                    #[trigger] final(out).resolved()[old(out).resolved().len() + k],
                ),
            final(out).brush_seq().len() <= old(out).brush_seq().len() + self.resolved().len(),
            final(out).stroke_seq().len() <= old(out).stroke_seq().len() + self.resolved().len(),
        decreases *self,
    {
        let ghost start = *out;
        let ghost start_len = start.resolved().len();
        let ghost total = self.resolved().len();
        let mut i: usize = 0;
        while i < self.commands.len()
            invariant
                0 <= i <= self.commands@.len(),
                self.wf(),
                out.wf(),
                out.is_flat(),
                start.brush_seq().len() + total <= u32::MAX,
                start.stroke_seq().len() + total <= u32::MAX,
                total == self.resolved().len(),
                out.resolved().len() == start_len + resolved_upto(*self, i as int).len(),
                forall|k: int|
                    0 <= k < start_len ==> #[trigger] out.resolved()[k] == start.resolved()[k],
                forall|k: int|
                    0 <= k < resolved_upto(*self, i as int).len() ==> resolved_cloned(
                        resolved_upto(*self, i as int)[k],
                        #[trigger] out.resolved()[start_len + k],
                    ),
                out.brush_seq().len() <= start.brush_seq().len() + resolved_upto(
                    *self,
                    i as int,
                ).len(),
                out.stroke_seq().len() <= start.stroke_seq().len() + resolved_upto(
                    *self,
                    i as int,
                ).len(),
            decreases self.commands@.len() - i,
        {
            let ghost before = *out;
            let ghost done = resolved_upto(*self, i as int);
            proof {
                lemma_resolved_grows(*self, i + 1, self.commands@.len() as int);
                lemma_valid_prefix(*self, i + 1, self.commands@.len() as int);
            }
            match &self.commands[i] {
                PaintCommand::Embed(embedded) => {
                    assert(decreases_to!(*self => self.commands));
                    (**embedded).inline_into(out);
                    proof {
                        let added = embedded.resolved();
                        assert(resolved_upto(*self, i + 1) =~= done + added);
                        assert forall|k: int|
                            0 <= k < done.len() + added.len() implies resolved_cloned(
                            (done + added)[k],
                            #[trigger] out.resolved()[start_len + k],
                        ) by {
                            if k >= done.len() {
                                assert(out.resolved()[before.resolved().len() + (k - done.len())]
                                    == out.resolved()[start_len + k]);
                            } else {
                                assert(out.resolved()[start_len + k] == before.resolved()[
                                    start_len + k]);
                            }
                        }
                    }
                },
                PaintCommand::Fill { brush, draw } => {
                    let copied = self.brushes[*brush as usize].clone();
                    let index = out.intern_brush(copied);
                    let copied_draw = draw.clone();
                    out.push(PaintCommand::Fill { brush: index, draw: copied_draw });
                    proof {
                        let upto_next = resolved_upto(*self, i + 1);
                        assert(upto_next =~= done.push(ResolvedCommand::Fill(self.brushes@[*brush as int], *draw)));
                        assert forall|k: int|
                            0 <= k < upto_next.len() implies resolved_cloned(
                            upto_next[k],
                            #[trigger] out.resolved()[start_len + k],
                        ) by {
                            if k < done.len() {
                                assert(out.resolved()[start_len + k] == before.resolved()[
                                    start_len + k]);
                            }
                        }
                    }
                },
                PaintCommand::Stroke { stroke, brush, draw } => {
                    let copied_stroke = self.strokes[*stroke as usize].clone();
                    let stroke_index = out.intern_stroke(copied_stroke);
                    let copied_brush = self.brushes[*brush as usize].clone();
                    let brush_index = out.intern_brush(copied_brush);
                    let copied_draw = draw.clone();
                    out.push(
                        PaintCommand::Stroke {
                            stroke: stroke_index,
                            brush: brush_index,
                            draw: copied_draw,
                        },
                    );
                    proof {
                        let upto_next = resolved_upto(*self, i + 1);
                        assert(upto_next =~= done.push(ResolvedCommand::Stroke(
                            self.strokes@[*stroke as int],
                            self.brushes@[*brush as int],
                            *draw,
                        )));
                        assert forall|k: int|
                            0 <= k < upto_next.len() implies resolved_cloned(
                            upto_next[k],
                            #[trigger] out.resolved()[start_len + k],
                        ) by {
                            if k < done.len() {
                                assert(out.resolved()[start_len + k] == before.resolved()[
                                    start_len + k]);
                            }
                        }
                    }
                },
                PaintCommand::DrawGlyphs { brush, draw } => {
                    let copied = self.brushes[*brush as usize].clone();
                    let index = out.intern_brush(copied);
                    let copied_draw = draw.clone();
                    out.push(PaintCommand::DrawGlyphs { brush: index, draw: copied_draw });
                    proof {
                        let upto_next = resolved_upto(*self, i + 1);
                        assert(upto_next =~= done.push(ResolvedCommand::DrawGlyphs(self.brushes@[*brush as int], *draw)));
                        assert forall|k: int|
                            0 <= k < upto_next.len() implies resolved_cloned(
                            upto_next[k],
                            #[trigger] out.resolved()[start_len + k],
                        ) by {
                            if k < done.len() {
                                assert(out.resolved()[start_len + k] == before.resolved()[
                                    start_len + k]);
                            }
                        }
                    }
                },
                PaintCommand::Plain(draw) => {
                    let copied_draw = draw.clone();
                    out.push(PaintCommand::Plain(copied_draw));
                    proof {
                        let upto_next = resolved_upto(*self, i + 1);
                        assert(upto_next =~= done.push(ResolvedCommand::Plain(*draw)));
                        assert forall|k: int|
                            0 <= k < upto_next.len() implies resolved_cloned(
                            upto_next[k],
                            #[trigger] out.resolved()[start_len + k],
                        ) by {
                            if k < done.len() {
                                assert(out.resolved()[start_len + k] == before.resolved()[
                                    start_len + k]);
                            }
                        }
                    }
                },
            }
            i = i + 1;
        }
    }
}

} // verus!
