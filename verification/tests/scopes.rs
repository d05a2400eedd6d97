use agui_core::pipeline::layout::LayoutScope;
use agui_core::pipeline::paint::PaintScope;

/// A scope is stored on every node laid out under a boundary, so it stays a single key wide, an
/// inert id with no pointer or refcount.
#[test]
fn a_layout_scope_is_one_key() {
    assert_eq!(
        std::mem::size_of::<LayoutScope>(),
        std::mem::size_of::<u64>()
    );
}

/// A scope is stored on every node that paints into a boundary, so it stays a single key wide,
/// with no pointer or refcount.
#[test]
fn a_paint_scope_is_one_key() {
    assert_eq!(
        std::mem::size_of::<PaintScope>(),
        std::mem::size_of::<u64>()
    );
}

#[test]
fn a_detached_scope_reports_itself_detached() {
    assert!(LayoutScope::detached().is_detached());
    assert!(PaintScope::detached().is_detached());
}
