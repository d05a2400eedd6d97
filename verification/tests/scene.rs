use std::rc::Rc;

use agui_core::paint::canvas::Canvas;
use agui_core::paint::scene::{PaintCommand, Scene, SceneCapacity};

type TestScene = Scene<&'static str, u32, &'static str>;

fn brush_of(scene: &TestScene, command: &PaintCommand<&'static str, u32, &'static str>) -> &'static str {
    match command {
        PaintCommand::Fill { brush, .. }
        | PaintCommand::Stroke { brush, .. }
        | PaintCommand::DrawGlyphs { brush, .. } => *scene.brush(*brush),
        _ => panic!("not a drawing operation"),
    }
}

fn draw_of(command: &PaintCommand<&'static str, u32, &'static str>) -> &'static str {
    match command {
        PaintCommand::Fill { draw, .. }
        | PaintCommand::Stroke { draw, .. }
        | PaintCommand::DrawGlyphs { draw, .. }
        | PaintCommand::Plain(draw) => draw,
        PaintCommand::Embed(_) => panic!("an embedded scene"),
    }
}

#[test]
fn interning_hands_out_consecutive_indices() {
    let mut scene = TestScene::new();
    assert_eq!(scene.intern_brush("red"), 0);
    assert_eq!(scene.intern_brush("blue"), 1);
    assert_eq!(scene.intern_stroke(3), 0);
    assert_eq!(*scene.brush(1), "blue");
    assert_eq!(*scene.stroke(0), 3);
    assert!(scene.is_empty());
}

#[test]
fn lengths_report_every_buffer() {
    let mut scene = TestScene::new();
    let red = scene.intern_brush("red");
    let thin = scene.intern_stroke(1);
    scene.push(PaintCommand::Fill { brush: red, draw: "rect" });
    scene.push(PaintCommand::Stroke { stroke: thin, brush: red, draw: "line" });
    scene.push(PaintCommand::Plain("push"));
    assert_eq!(scene.len(), 3);
    assert_eq!(scene.lengths(), SceneCapacity { commands: 3, brushes: 1, strokes: 1 });

    scene.reserve(SceneCapacity { commands: 10, brushes: 10, strokes: 10 });
    assert_eq!(scene.len(), 3, "reserving keeps what was recorded");

    scene.reset();
    assert!(scene.is_empty());
    assert_eq!(scene.lengths(), SceneCapacity::empty());
}

#[test]
fn flattening_splices_embedded_scenes_in_drawing_order() {
    let mut inner = TestScene::new();
    let green = inner.intern_brush("green");
    let dashed = inner.intern_stroke(7);
    inner.push(PaintCommand::Stroke { stroke: dashed, brush: green, draw: "outline" });
    inner.push(PaintCommand::Plain("pop"));

    let mut outer = TestScene::new();
    let red = outer.intern_brush("red");
    let blue = outer.intern_brush("blue");
    outer.push(PaintCommand::Fill { brush: red, draw: "background" });
    outer.push(PaintCommand::Embed(Rc::new(inner)));
    outer.push(PaintCommand::DrawGlyphs { brush: blue, draw: "label" });
    outer.push(PaintCommand::Fill { brush: red, draw: "border" });

    let flat = outer.flatten();
    let commands = flat.commands();
    assert_eq!(commands.len(), 5);
    assert!(commands.iter().all(|c| !matches!(c, PaintCommand::Embed(_))));

    let draws: Vec<&str> = commands.iter().map(draw_of).collect();
    assert_eq!(draws, vec!["background", "outline", "pop", "label", "border"]);

    assert_eq!(brush_of(&flat, &commands[0]), "red");
    assert_eq!(brush_of(&flat, &commands[1]), "green");
    assert_eq!(brush_of(&flat, &commands[3]), "blue");
    assert_eq!(brush_of(&flat, &commands[4]), "red");
    match &commands[1] {
        PaintCommand::Stroke { stroke, .. } => assert_eq!(*flat.stroke(*stroke), 7),
        _ => panic!("expected the embedded stroke"),
    }

    // One table entry per reference.
    assert_eq!(flat.lengths(), SceneCapacity { commands: 5, brushes: 4, strokes: 1 });
}

#[test]
fn flattening_a_flat_scene_copies_it() {
    let mut scene = TestScene::new();
    let red = scene.intern_brush("red");
    scene.push(PaintCommand::Plain("push"));
    scene.push(PaintCommand::Fill { brush: red, draw: "rect" });
    scene.push(PaintCommand::Plain("pop"));
    let flat = scene.flatten();
    let draws: Vec<&str> = flat.commands().iter().map(draw_of).collect();
    assert_eq!(draws, vec!["push", "rect", "pop"]);
    assert_eq!(brush_of(&flat, &flat.commands()[1]), "red");
}

#[test]
fn flattening_nested_embeds_reaches_every_level() {
    let mut leaf = TestScene::new();
    let white = leaf.intern_brush("white");
    leaf.push(PaintCommand::Fill { brush: white, draw: "dot" });

    let mut middle = TestScene::new();
    middle.push(PaintCommand::Plain("push"));
    middle.push(PaintCommand::Embed(Rc::new(leaf)));
    middle.push(PaintCommand::Plain("pop"));

    let mut top = TestScene::new();
    top.push(PaintCommand::Embed(Rc::new(middle)));

    let flat = top.flatten();
    let draws: Vec<&str> = flat.commands().iter().map(draw_of).collect();
    assert_eq!(draws, vec!["push", "dot", "pop"]);
    assert_eq!(brush_of(&flat, &flat.commands()[1]), "white");
}

#[test]
fn flattening_an_empty_scene_gives_an_empty_scene() {
    let empty = TestScene::new();
    let flat = empty.flatten();
    assert!(flat.is_empty());
    assert_eq!(flat.lengths(), SceneCapacity::empty());
}

#[test]
fn a_canvas_records_into_its_scene() {
    let mut scene = TestScene::new();
    {
        let mut canvas = Canvas::over(&mut scene);
        let red = canvas.brush("red");
        let thick = canvas.stroke_style(4);
        canvas.plain("push transform");
        canvas.fill(red, "rect");
        canvas.stroke(thick, red, "outline");
        canvas.draw_glyphs(red, "text");
        canvas.plain("pop transform");
    }
    let draws: Vec<&str> = scene.commands().iter().map(draw_of).collect();
    assert_eq!(draws, vec!["push transform", "rect", "outline", "text", "pop transform"]);
    assert_eq!(brush_of(&scene, &scene.commands()[1]), "red");
    assert_eq!(scene.lengths(), SceneCapacity { commands: 5, brushes: 1, strokes: 1 });
}

#[test]
fn capacities_add_and_take_away_saturating() {
    let mut total = SceneCapacity { commands: 3, brushes: 1, strokes: 0 };
    total.add(SceneCapacity { commands: 2, brushes: 2, strokes: 5 });
    assert_eq!(total, SceneCapacity { commands: 5, brushes: 3, strokes: 5 });

    let rest = total.saturating_sub(SceneCapacity { commands: 2, brushes: 7, strokes: 5 });
    assert_eq!(rest, SceneCapacity { commands: 3, brushes: 0, strokes: 0 });

    let back = total.saturating_sub(SceneCapacity { commands: 2, brushes: 2, strokes: 5 });
    assert_eq!(back, SceneCapacity { commands: 3, brushes: 1, strokes: 0 });
}
