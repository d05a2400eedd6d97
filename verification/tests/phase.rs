use agui_core::pipeline::phase::{FramePhase, PhaseTracker};

#[test]
fn a_pipeline_may_be_marked_at_idle_or_during_an_earlier_phase() {
    let mut phases = PhaseTracker::new();

    // At idle every pipeline may be marked.
    phases.assert_can_mark(FramePhase::Build);
    phases.assert_can_mark(FramePhase::Paint);

    let _phase = phases.enter_phase(FramePhase::Layout);
    phases.assert_can_mark(FramePhase::Layout);
    phases.assert_can_mark(FramePhase::CompositingBits);
    phases.assert_can_mark(FramePhase::Paint);
    phases.assert_can_mark(FramePhase::Composite);
}

#[test]
fn entering_a_phase_restores_the_previous_one_on_drop() {
    let mut phases = PhaseTracker::new();

    let _outer = phases.enter_phase(FramePhase::Build);
    {
        let inner = phases.enter_phase(FramePhase::Paint);
        phases.assert_can_mark(FramePhase::Paint);
        // The guard restores the previous phase when handed back; the library gives it no
        // destructor, so leaving the scope hands it back explicitly.
        phases.exit_phase(inner);
    }
    // Back in the build phase, layout may be marked again.
    phases.assert_can_mark(FramePhase::Layout);
    assert!(phases.can_mark(FramePhase::Layout));
    assert_eq!(phases.current(), FramePhase::Build);
}

#[test]
fn a_later_phase_refuses_marks_of_an_earlier_pipeline() {
    let mut phases = PhaseTracker::new();
    let guard = phases.enter_phase(FramePhase::Layout);
    assert!(!phases.can_mark(FramePhase::Build));
    phases.exit_phase(guard);

    let guard = phases.enter_phase(FramePhase::Paint);
    assert!(!phases.can_mark(FramePhase::Layout));
    assert!(!phases.can_mark(FramePhase::CompositingBits));
    assert!(phases.can_mark(FramePhase::Paint));
    assert!(phases.can_mark(FramePhase::Composite));
    phases.exit_phase(guard);
    assert_eq!(phases.current(), FramePhase::Idle);
}

#[test]
fn phases_are_ordered_as_a_frame_runs_them() {
    let order: Vec<u8> = [
        FramePhase::Idle,
        FramePhase::Build,
        FramePhase::Layout,
        FramePhase::CompositingBits,
        FramePhase::Paint,
        FramePhase::Composite,
    ]
    .iter()
    .map(|phase| phase.order())
    .collect();
    assert_eq!(order, vec![0, 1, 2, 3, 4, 5]);
}

#[test]
fn nested_phases_unwind_in_order() {
    let mut phases = PhaseTracker::new();
    let build = phases.enter_phase(FramePhase::Build);
    let layout = phases.enter_phase(FramePhase::Layout);
    let paint = phases.enter_phase(FramePhase::Paint);
    assert_eq!(phases.current(), FramePhase::Paint);
    phases.exit_phase(paint);
    assert_eq!(phases.current(), FramePhase::Layout);
    phases.exit_phase(layout);
    assert_eq!(phases.current(), FramePhase::Build);
    phases.exit_phase(build);
    assert_eq!(phases.current(), FramePhase::Idle);
}
