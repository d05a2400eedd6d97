# agui_core

The core bookkeeping of the agui widget engine, verified with Verus.

- `src/pipeline` — frame phases, and the layout and paint pipelines that track which relayout
  and repaint boundaries must be re-laid or repainted, flush each marked boundary once
  (re-layout rootmost-first, and in the combined pipeline repaint too), and report when a
  mark takes a channel from clean to dirty. `render_pipeline` holds the combined
  pipeline with its frame scheduler.
- `src/paint` — recorded scenes with brush and stroke tables, their flattening into a scene
  without embedded sub-scenes, the recording canvas, and buffer capacities.
- `src/pointer.rs` — routing of pointer events along the hit-test path found at contact.
- `src/manager` — the element tree and how widgets become elements in it: spawning, building
  breadth-first with retained and reparented elements, rebuilding and destroying, and the
  widget manager that queues modifications, dirty elements and callbacks and runs updates
  until the tree settles; widget and render events, event sanitizing, plugin elements and type display names. `manager/render`
  keeps the layer tree that widgets draw into: layers opened by a widget's canvas, the layer
  each widget hands on to its children, and their removal.
- `src/notifier.rs`, `src/notifiable` — value notification and listener identities.
- `app/` — the floating-point drawing payloads and canvas brackets, function listeners and type
  display names, built on the library.
- `tests/` — scenarios and concrete checks of the library's contracts.
