//! The decisions of the render loop: what to do with each event of the
//! window system, and with the outcome of drawing a frame.
use vstd::prelude::*;

verus! {

/// What happened to the window.
#[derive(Clone, Copy, Debug, PartialEq, Eq, Structural)]
pub enum WindowSignal {
    CloseRequested,
    Resized { width: u32, height: u32 },
    RedrawRequested,
    Other,
}

/// An event of the window system's loop.
#[derive(Clone, Copy, Debug, PartialEq, Eq, Structural)]
pub enum AppEvent {
    /// Something happened to a window; `ours` tells whether it is the app's window.
    Window { ours: bool, signal: WindowSignal },
    /// The loop has handled all pending events and is about to wait.
    AboutToWait,
    Other,
}

/// What the loop does in answer to an event.
#[derive(Clone, Copy, Debug, PartialEq, Eq, Structural)]
pub enum LoopAction {
    Exit,
    Resize { width: u32, height: u32 },
    UpdateAndRender,
    RequestRedraw,
    Continue,
}

/// How drawing a frame ended.
#[derive(Clone, Copy, Debug, PartialEq, Eq, Structural)]
pub enum FrameStatus {
    Presented,
    SurfaceLost,
    OutOfMemory,
    OtherError,
}

/// What the loop does after drawing a frame.
#[derive(Clone, Copy, Debug, PartialEq, Eq, Structural)]
pub enum FrameAction {
    Continue,
    ResizeToWindow,
    Exit,
    Report,
}

/// The answer to an event: close and resize requests of the app's window
/// exit and resize, a redraw request updates the scene and draws it, the
/// loop going idle asks for the next redraw, and all else is ignored.
pub open spec fn spec_event_action(event: AppEvent) -> LoopAction {
    match event {
        AppEvent::Window { ours, signal } => if !ours {
            LoopAction::Continue
        } else {
            match signal {
                WindowSignal::CloseRequested => LoopAction::Exit,
                WindowSignal::Resized { width, height } => LoopAction::Resize { width, height },
                WindowSignal::RedrawRequested => LoopAction::UpdateAndRender,
                WindowSignal::Other => LoopAction::Continue,
            }
        },
        AppEvent::AboutToWait => LoopAction::RequestRedraw,
        AppEvent::Other => LoopAction::Continue,
    }
}

/// Decides what the loop does in answer to `event`.
pub fn event_action(event: AppEvent) -> (action: LoopAction)
    ensures
        action == spec_event_action(event),
        event matches AppEvent::Window { ours, .. } && !ours ==> action == LoopAction::Continue,
        event == (AppEvent::Window { ours: true, signal: WindowSignal::CloseRequested })
            ==> action == LoopAction::Exit,
        forall|width: u32, height: u32|
            event == (AppEvent::Window {
                ours: true,
                signal: WindowSignal::Resized { width, height },
            }) ==> action == (LoopAction::Resize { width, height }),
        event == (AppEvent::Window { ours: true, signal: WindowSignal::RedrawRequested })
            ==> action == LoopAction::UpdateAndRender,
        event == (AppEvent::Window { ours: true, signal: WindowSignal::Other })
            ==> action == LoopAction::Continue,
        event == AppEvent::AboutToWait ==> action == LoopAction::RequestRedraw,
        event == AppEvent::Other ==> action == LoopAction::Continue,
{
    match event {
        AppEvent::Window { ours, signal } => {
            if !ours {
                LoopAction::Continue
            } else {
                match signal {
                    WindowSignal::CloseRequested => LoopAction::Exit,
                    WindowSignal::Resized { width, height } => LoopAction::Resize { width, height },
                    WindowSignal::RedrawRequested => LoopAction::UpdateAndRender,
                    WindowSignal::Other => LoopAction::Continue,
                }
            }
        },
        AppEvent::AboutToWait => LoopAction::RequestRedraw,
        AppEvent::Other => LoopAction::Continue,
    }
}

/// Decides what the loop does after a frame: a lost surface is configured
/// again at the window's size, running out of memory ends the app, any other
/// error is reported and the loop goes on.
pub fn frame_action(status: FrameStatus) -> (action: FrameAction)
    ensures
        status == FrameStatus::Presented ==> action == FrameAction::Continue,
        status == FrameStatus::SurfaceLost ==> action == FrameAction::ResizeToWindow,
        status == FrameStatus::OutOfMemory ==> action == FrameAction::Exit,
        status == FrameStatus::OtherError ==> action == FrameAction::Report,
{
    match status {
        FrameStatus::Presented => FrameAction::Continue,
        FrameStatus::SurfaceLost => FrameAction::ResizeToWindow,
        FrameStatus::OutOfMemory => FrameAction::Exit,
        FrameStatus::OtherError => FrameAction::Report,
    }
}

} // verus!
