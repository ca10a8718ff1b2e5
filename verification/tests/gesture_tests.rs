use hexencer::gesture::{
    arranger_status, deliver_drop, drag_step, take_dropped, hover_step, DragNotice, DragOutcome, DragState,
    PointerEvent, Status,
};

fn step(state: DragState, event: PointerEvent) -> DragOutcome {
    drag_step(state, event, true, true, true)
}

#[test]
fn press_move_release_drags_and_drops() {
    let o = step(DragState::Idle, PointerEvent::LeftPressed { over: true });
    assert_eq!(o, DragOutcome { next: DragState::Pressed, notice: DragNotice::Nothing, captured: true });
    let o = step(o.next, PointerEvent::CursorMoved { over: true });
    assert_eq!(o, DragOutcome { next: DragState::Dragged, notice: DragNotice::DragStarted, captured: true });
    let o = step(o.next, PointerEvent::CursorMoved { over: true });
    assert_eq!(o, DragOutcome { next: DragState::Dragged, notice: DragNotice::Nothing, captured: false });
    let o = step(o.next, PointerEvent::LeftReleased { cursor_known: true });
    assert_eq!(o, DragOutcome { next: DragState::Idle, notice: DragNotice::Dropped, captured: true });
}

#[test]
fn press_release_selects() {
    let o = step(DragState::Idle, PointerEvent::LeftPressed { over: true });
    let o = step(o.next, PointerEvent::LeftReleased { cursor_known: true });
    assert_eq!(o, DragOutcome { next: DragState::Idle, notice: DragNotice::Selected, captured: true });
    let quiet = drag_step(DragState::Pressed, PointerEvent::LeftReleased { cursor_known: true }, true, true, false);
    assert_eq!(quiet.notice, DragNotice::Nothing);
}

#[test]
fn drops_need_a_known_cursor_and_a_listener() {
    let o = step(DragState::Dragged, PointerEvent::LeftReleased { cursor_known: false });
    assert_eq!(o, DragOutcome { next: DragState::Idle, notice: DragNotice::Nothing, captured: true });
    let o = drag_step(DragState::Dragged, PointerEvent::LeftReleased { cursor_known: true }, true, false, true);
    assert_eq!(o.notice, DragNotice::Nothing);
    let o = drag_step(DragState::Pressed, PointerEvent::CursorMoved { over: true }, false, true, true);
    assert_eq!(o, DragOutcome { next: DragState::Dragged, notice: DragNotice::Nothing, captured: true });
}

#[test]
fn events_elsewhere_are_not_captured() {
    let o = step(DragState::Idle, PointerEvent::LeftPressed { over: false });
    assert_eq!(o, DragOutcome { next: DragState::Idle, notice: DragNotice::Nothing, captured: false });
    let o = step(DragState::Pressed, PointerEvent::CursorMoved { over: false });
    assert_eq!(o.next, DragState::Pressed);
    assert!(!o.captured);
    let o = step(DragState::Hovered, PointerEvent::LeftReleased { cursor_known: true });
    assert_eq!(o, DragOutcome { next: DragState::Hovered, notice: DragNotice::Nothing, captured: false });
    let o = step(DragState::Selected, PointerEvent::Other);
    assert_eq!(o, DragOutcome { next: DragState::Selected, notice: DragNotice::Nothing, captured: false });
}

#[test]
fn lanes_follow_the_pointer() {
    let o = hover_step(false, true);
    assert!(o.hovered && o.captured);
    let o = hover_step(true, true);
    assert!(o.hovered && !o.captured);
    let o = hover_step(true, false);
    assert!(!o.hovered && o.captured);
    let o = hover_step(false, false);
    assert!(!o.hovered && !o.captured);
    assert!(deliver_drop(true, true, true));
    assert!(!deliver_drop(false, true, true));
    assert!(!deliver_drop(true, false, true));
    assert!(!deliver_drop(true, true, false));
}

#[test]
fn arranger_status_prefers_dragging() {
    assert_eq!(arranger_status(true, true), Status::Dragged);
    assert_eq!(arranger_status(true, false), Status::Dragged);
    assert_eq!(arranger_status(false, true), Status::Hovered);
    assert_eq!(arranger_status(false, false), Status::Normal);
}

#[test]
fn a_delivered_drop_is_no_longer_pending() {
    let mut pending = Some(7u32);
    assert_eq!(take_dropped(false, true, &mut pending), None);
    assert_eq!(pending, Some(7));
    assert_eq!(take_dropped(true, false, &mut pending), None);
    assert_eq!(pending, Some(7));
    assert_eq!(take_dropped(true, true, &mut pending), Some(7));
    assert_eq!(pending, None);
    assert_eq!(take_dropped(true, true, &mut pending), None);
}
