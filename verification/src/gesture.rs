//! Pointer decisions of the arrangement widgets: dragging clips and event
//! segments, hovering and dropping on lanes, and the arranger's status.

use vstd::prelude::*;

verus! {

/// Interaction state of a draggable item (a clip or an event segment).
#[derive(Clone, Copy, Debug, PartialEq, Eq, Structural)]
pub enum DragState {
    /// Nothing is happening.
    Idle,
    /// The left button went down over the item.
    Pressed,
    /// The pointer rests over the item.
    Hovered,
    /// The item is being dragged.
    Dragged,
    /// The item is selected.
    Selected,
}

/// A pointer event, as a draggable item sees it.
#[derive(Clone, Copy, Debug, PartialEq, Eq, Structural)]
pub enum PointerEvent {
    /// The left button went down; `over` tells whether over the item.
    LeftPressed { over: bool },
    /// The left button went up; `cursor_known` tells whether the pointer's
    /// position is known.
    LeftReleased { cursor_known: bool },
    /// The pointer moved; `over` tells whether it is over the item.
    CursorMoved { over: bool },
    /// Any other event.
    Other,
}

/// What a draggable item reports to the application.
#[derive(Clone, Copy, Debug, PartialEq, Eq, Structural)]
pub enum DragNotice {
    /// Nothing.
    Nothing,
    /// A drag started.
    DragStarted,
    /// The dragged item was dropped.
    Dropped,
    /// The item was clicked and is now selected.
    Selected,
}

/// The outcome of one pointer event on a draggable item.
#[derive(Clone, Copy, Debug, PartialEq, Eq, Structural)]
pub struct DragOutcome {
    /// The state after the event.
    pub next: DragState,
    /// What to report, if anything.
    pub notice: DragNotice,
    /// True if the item consumed the event.
    pub captured: bool,
}

/// How a draggable item answers a pointer event. A press over the item
/// arms it; moving while armed and over it starts a drag; releasing a drag
/// drops it, releasing an armed item selects it, and both return it to
/// idle. `on_drag`, `on_drop` and `on_select` tell which reports the
/// application listens to; a drop is reported only where the pointer's
/// position is known.
pub fn drag_step(state: DragState, event: PointerEvent, on_drag: bool, on_drop: bool, on_select: bool) -> (out:
    DragOutcome)
    ensures
        out == match event {
            PointerEvent::LeftPressed { over } => if over {
                DragOutcome { next: DragState::Pressed, notice: DragNotice::Nothing, captured: true }
            } else {
                DragOutcome { next: state, notice: DragNotice::Nothing, captured: false }
            },
            PointerEvent::LeftReleased { cursor_known } => match state {
                DragState::Dragged => DragOutcome {
                    next: DragState::Idle,
                    notice: if on_drop && cursor_known {
                        DragNotice::Dropped
                    } else {
                        DragNotice::Nothing
                    },
                    captured: true,
                },
                DragState::Pressed => DragOutcome {
                    next: DragState::Idle,
                    notice: if on_select {
                        DragNotice::Selected
                    } else {
                        DragNotice::Nothing
                    },
                    captured: true,
                },
                _ => DragOutcome { next: state, notice: DragNotice::Nothing, captured: false },
            },
            PointerEvent::CursorMoved { over } => if state == DragState::Pressed && over {
                DragOutcome {
                    next: DragState::Dragged,
                    notice: if on_drag {
                        DragNotice::DragStarted
                    } else {
                        DragNotice::Nothing
                    },
                    captured: true,
                }
            } else {
                DragOutcome { next: state, notice: DragNotice::Nothing, captured: false }
            },
            PointerEvent::Other => DragOutcome {
                next: state,
                notice: DragNotice::Nothing,
                captured: false,
            },
        },
{
    let unchanged = DragOutcome { next: state, notice: DragNotice::Nothing, captured: false };
    match event {
        PointerEvent::LeftPressed { over } => {
            if over {
                DragOutcome { next: DragState::Pressed, notice: DragNotice::Nothing, captured: true }
            } else {
                unchanged
            }
        },
        PointerEvent::LeftReleased { cursor_known } => match state {
            DragState::Dragged => DragOutcome {
                next: DragState::Idle,
                notice: if on_drop && cursor_known {
                    DragNotice::Dropped
                } else {
                    DragNotice::Nothing
                },
                captured: true,
            },
            DragState::Pressed => DragOutcome {
                next: DragState::Idle,
                notice: if on_select {
                    DragNotice::Selected
                } else {
                    DragNotice::Nothing
                },
                captured: true,
            },
            _ => unchanged,
        },
        PointerEvent::CursorMoved { over } => {
            if state == DragState::Pressed && over {
                DragOutcome {
                    next: DragState::Dragged,
                    notice: if on_drag {
                        DragNotice::DragStarted
                    } else {
                        DragNotice::Nothing
                    },
                    captured: true,
                }
            } else {
                unchanged
            }
        },
        PointerEvent::Other => unchanged,
    }
}

/// The outcome of a pointer move on a lane (a track or an event track).
#[derive(Clone, Copy, Debug, PartialEq, Eq, Structural)]
pub struct HoverOutcome {
    /// Whether the lane is hovered after the move.
    pub hovered: bool,
    /// True if the hover changed, which consumes the event.
    pub captured: bool,
}

/// How a lane follows the pointer: it becomes hovered when the pointer
/// enters it and stops being hovered when it leaves; either change consumes
/// the event.
pub fn hover_step(hovered: bool, cursor_inside: bool) -> (out: HoverOutcome)
    ensures
        out.hovered == cursor_inside,
        out.captured == (hovered != cursor_inside),
{
    if cursor_inside {
        if !hovered {
            return HoverOutcome { hovered: true, captured: true };
        }
    } else if hovered {
        return HoverOutcome { hovered: false, captured: true };
    }
    HoverOutcome { hovered, captured: false }
}

/// Whether a lane hands a pending dropped item to the application now: the
/// pointer is inside the lane, the application listens to drops on it, and
/// an item is waiting.
pub fn deliver_drop(cursor_inside: bool, on_drop: bool, pending: bool) -> (deliver: bool)
    ensures
        deliver == (cursor_inside && on_drop && pending),
{
    cursor_inside && on_drop && pending
}

/// Takes the pending dropped item for a lane, as `deliver_drop` decides:
/// when it is delivered it is no longer pending.
pub fn take_dropped<T: Copy>(cursor_inside: bool, on_drop: bool, pending: &mut Option<T>) -> (taken:
    Option<T>)
    ensures
        taken == if cursor_inside && on_drop && old(pending).is_some() {
            *old(pending)
        } else {
            None::<T>
        },
        *final(pending) == if taken.is_some() {
            None::<T>
        } else {
            *old(pending)
        },
{
    if deliver_drop(cursor_inside, on_drop, pending.is_some()) {
        let taken = *pending;
        *pending = None;
        taken
    } else {
        None
    }
}

/// Status of the arranger, which picks its style.
#[derive(Clone, Copy, Debug, PartialEq, Eq, Structural)]
pub enum Status {
    /// Neither hovered nor dragged.
    Normal,
    /// The pointer is over the arranger.
    Hovered,
    /// The scroller is grabbed.
    Dragged,
}

/// The arranger's status: dragged while its scroller is grabbed, else
/// hovered while the pointer is over it, else normal.
pub fn arranger_status(scroller_grabbed: bool, cursor_over: bool) -> (s: Status)
    ensures
        s == if scroller_grabbed {
            Status::Dragged
        } else if cursor_over {
            Status::Hovered
        } else {
            Status::Normal
        },
{
    if scroller_grabbed {
        Status::Dragged
    } else if cursor_over {
        Status::Hovered
    } else {
        Status::Normal
    }
}

} // verus!
