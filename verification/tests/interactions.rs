use geosketch::interact::{
    drag_free_point, drag_on_line_point, tool_for_key, update_selection, CreateLineData,
    DirtyFlags, DragAction, Key, Tool,
};
use geosketch::viewport::Viewport;
use geosketch::Vector2;

fn v(x: i64, y: i64) -> Vector2 {
    Vector2 { x, y }
}

#[test]
fn keys_change_tools() {
    assert_eq!(tool_for_key(Key::KeyS), Some(Tool::Select));
    assert_eq!(tool_for_key(Key::KeyP), Some(Tool::Point));
    assert_eq!(tool_for_key(Key::KeyL), Some(Tool::Line));
    assert_eq!(tool_for_key(Key::KeyC), Some(Tool::Circle));
    assert_eq!(tool_for_key(Key::Other), None);
}

#[test]
fn escape_aborts_pending_line() {
    let mut data = CreateLineData::new();
    data.maybe_first_point = Some(7);
    data.on_key(Key::KeyP);
    assert_eq!(data.maybe_first_point, Some(7));
    data.on_key(Key::Escape);
    assert_eq!(data.maybe_first_point, None);
}

#[test]
fn selection_toggles_and_clears() {
    let mut sel: Vec<u64> = Vec::new();
    update_selection(&mut sel, Some(3));
    assert_eq!(sel, vec![3]);
    update_selection(&mut sel, Some(5));
    assert!(sel.contains(&3) && sel.contains(&5));
    // clicking a selected object deselects it
    update_selection(&mut sel, Some(3));
    assert!(!sel.contains(&3) && sel.contains(&5));
    // clicking empty space clears the selection
    update_selection(&mut sel, None);
    assert!(sel.is_empty());
}

#[test]
fn drag_decisions() {
    let vp = Viewport::new(v(800, 600));
    assert_eq!(drag_free_point(&vp, v(12, 34)), DragAction::MoveFree(v(12, 34)));
    // the cursor at (7, 9) projects onto the horizontal axis at t = 7
    let act = drag_on_line_point(&vp, v(7, 9), Some((v(0, 0), v(1, 0))));
    assert_eq!(act, DragAction::MoveOnLine(7));
    assert_eq!(drag_on_line_point(&vp, v(7, 9), None), DragAction::NoMove);
}

#[test]
fn dirty_flag_lifecycle() {
    let mut flags = DirtyFlags::new();
    assert!(!flags.input_dirty && !flags.solver_dirty);
    flags.mark_input();
    flags.mark_solver();
    assert!(flags.input_dirty && flags.solver_dirty);
    flags.clear_solver();
    assert!(flags.input_dirty && !flags.solver_dirty);
    flags.clear();
    assert!(!flags.input_dirty && !flags.solver_dirty);
}
