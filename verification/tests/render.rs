use lgenerator::render::petals::petal_indices;
use lgenerator::render::renderer::{
    event_action, frame_action, AppEvent, FrameAction, FrameStatus, LoopAction, WindowSignal,
};
use lgenerator::render::state::accepts_resize;

#[test]
fn petal_indices_count_up() {
    assert_eq!(petal_indices(3), vec![0, 1, 2, 3, 4, 5, 6, 7, 8]);
    assert!(petal_indices(0).is_empty());
}

#[test]
fn events_of_own_window_are_answered() {
    let own = |signal| AppEvent::Window { ours: true, signal };
    assert_eq!(event_action(own(WindowSignal::CloseRequested)), LoopAction::Exit);
    assert_eq!(
        event_action(own(WindowSignal::Resized { width: 800, height: 600 })),
        LoopAction::Resize { width: 800, height: 600 }
    );
    assert_eq!(event_action(own(WindowSignal::RedrawRequested)), LoopAction::UpdateAndRender);
    assert_eq!(event_action(own(WindowSignal::Other)), LoopAction::Continue);
}

#[test]
fn events_of_other_windows_are_ignored() {
    let other = AppEvent::Window { ours: false, signal: WindowSignal::CloseRequested };
    assert_eq!(event_action(other), LoopAction::Continue);
    assert_eq!(event_action(AppEvent::Other), LoopAction::Continue);
}

#[test]
fn idle_loop_requests_redraw() {
    assert_eq!(event_action(AppEvent::AboutToWait), LoopAction::RequestRedraw);
}

#[test]
fn frame_outcomes_are_answered() {
    assert_eq!(frame_action(FrameStatus::Presented), FrameAction::Continue);
    assert_eq!(frame_action(FrameStatus::SurfaceLost), FrameAction::ResizeToWindow);
    assert_eq!(frame_action(FrameStatus::OutOfMemory), FrameAction::Exit);
    assert_eq!(frame_action(FrameStatus::OtherError), FrameAction::Report);
}

#[test]
fn zero_sized_window_is_not_resized() {
    assert!(accepts_resize(800, 600));
    assert!(!accepts_resize(0, 600));
    assert!(!accepts_resize(800, 0));
    assert!(!accepts_resize(0, 0));
}
