//! The decisions of the application's event loop.
//!
//! The loop itself (the window, the surface, the clock) belongs to the
//! application; it reports what happened and carries out what is decided
//! here.

use vstd::prelude::*;

verus! {

/// How an application window is set up.
#[derive(Debug, Clone)]
pub struct AppConfig {
    pub title: String,
    pub width: u32,
    pub height: u32,
    pub vsync: bool,
    pub resizable: bool,
}

impl Default for AppConfig {
    /// "RustForge Application", 1024 by 768, with vsync, resizable.
    fn default() -> (c: Self)
        ensures
            c.title@ == "RustForge Application"@,
            c.width == 1024,
            c.height == 768,
            c.vsync,
            c.resizable,
    {
        AppConfig { title: String::from_str("RustForge Application"), width: 1024, height: 768, vsync: true, resizable: true }
    }
}

/// What happened to the application's window.
#[derive(Debug, Clone, Copy, PartialEq, Eq, Structural)]
pub enum WindowInput {
    CloseRequested,
    /// The Escape key went down.
    EscapePressed,
    /// The drawable area changed to this width and height.
    Resized(u32, u32),
    RedrawRequested,
    /// Anything else.
    Other,
}

/// What the loop does next.
#[derive(Debug, Clone, Copy, PartialEq, Eq, Structural)]
pub enum LoopAction {
    /// Leave the loop.
    Exit,
    /// Reconfigure the surface and depth buffer to this size and tell the
    /// application.
    Resize(u32, u32),
    /// Update the application and draw a frame.
    Redraw,
    /// Nothing.
    Wait,
}

/// How drawing a frame ended.
#[derive(Debug, Clone, Copy, PartialEq, Eq, Structural)]
pub enum FrameOutcome {
    Presented,
    /// The surface was lost.
    SurfaceLost,
    OutOfMemory,
    /// Any other surface error.
    Failed,
}

/// What the loop does after a frame.
#[derive(Debug, Clone, Copy, PartialEq, Eq, Structural)]
pub enum Recovery {
    /// Go on.
    Continue,
    /// Reconfigure the surface to this size.
    Reconfigure(u32, u32),
    /// Leave the loop.
    Exit,
    /// Report the error and go on.
    Report,
}

/// The window's last known size.
#[derive(Debug, Clone, Copy, PartialEq, Eq, Structural)]
pub struct LoopState {
    pub width: u32,
    pub height: u32,
}

impl LoopState {
    /// The decision for a window input that the application did not take
    /// (`handled` false): close and Escape leave; a resize is remembered,
    /// and acted on when both sides are positive; a redraw request draws.
    /// An input that the application took changes nothing.
    pub fn on_input(&mut self, input: WindowInput, handled: bool) -> (a: LoopAction)
        ensures
            handled ==> a == LoopAction::Wait && *final(self) == *old(self),
            !handled ==> match input {
                WindowInput::CloseRequested => a == LoopAction::Exit && *final(self) == *old(self),
                WindowInput::EscapePressed => a == LoopAction::Exit && *final(self) == *old(self),
                WindowInput::Resized(w, h) => final(self).width == w && final(self).height == h
                    && a == (if w > 0 && h > 0 { LoopAction::Resize(w, h) } else { LoopAction::Wait }),
                WindowInput::RedrawRequested => a == LoopAction::Redraw && *final(self) == *old(self),
                WindowInput::Other => a == LoopAction::Wait && *final(self) == *old(self),
            },
    {
        if handled {
            return LoopAction::Wait;
        }
        match input {
            WindowInput::CloseRequested => LoopAction::Exit,
            WindowInput::EscapePressed => LoopAction::Exit,
            WindowInput::Resized(w, h) => {
                self.width = w;
                self.height = h;
                if w > 0 && h > 0 {
                    LoopAction::Resize(w, h)
                } else {
                    LoopAction::Wait
                }
            },
            WindowInput::RedrawRequested => LoopAction::Redraw,
            WindowInput::Other => LoopAction::Wait,
        }
    }

    /// The decision after a frame: a lost surface is reconfigured to the last
    /// known size, running out of memory leaves, any other error is reported.
    pub fn after_frame(&self, outcome: FrameOutcome) -> (r: Recovery)
        ensures
            r == match outcome {
                FrameOutcome::Presented => Recovery::Continue,
                FrameOutcome::SurfaceLost => Recovery::Reconfigure(self.width, self.height),
                FrameOutcome::OutOfMemory => Recovery::Exit,
                FrameOutcome::Failed => Recovery::Report,
            },
    {
        match outcome {
            FrameOutcome::Presented => Recovery::Continue,
            FrameOutcome::SurfaceLost => Recovery::Reconfigure(self.width, self.height),
            FrameOutcome::OutOfMemory => Recovery::Exit,
            FrameOutcome::Failed => Recovery::Report,
        }
    }
}

/// The engine's run state: whether it still runs, and how many frames it has
/// drawn.
#[derive(Debug, Clone, Copy, PartialEq, Eq, Structural)]
pub struct EngineState {
    pub running: bool,
    pub frames: u64,
}

/// The engine reports progress every this many frames.
pub const REPORT_EVERY: u64 = 300;

impl EngineState {
    /// Running, no frame drawn.
    pub fn new() -> (e: Self)
        ensures
            e.running,
            e.frames == 0,
    {
        EngineState { running: true, frames: 0 }
    }

    /// Stops on a close request or the Escape key; anything else changes
    /// nothing.
    pub fn on_input(&mut self, input: WindowInput)
        ensures
            final(self).frames == old(self).frames,
            final(self).running == (old(self).running && input != WindowInput::CloseRequested
                && input != WindowInput::EscapePressed),
    {
        match input {
            WindowInput::CloseRequested => {
                self.running = false;
            },
            WindowInput::EscapePressed => {
                self.running = false;
            },
            _ => {},
        }
    }

    /// Counts a drawn frame; true when the count reaches a multiple of
    /// `REPORT_EVERY`.
    pub fn count_frame(&mut self) -> (report: bool)
        requires
            old(self).frames < u64::MAX,
        ensures
            final(self).frames == old(self).frames + 1,
            final(self).running == old(self).running,
            report == ((old(self).frames + 1) % (REPORT_EVERY as int) == 0),
    {
        self.frames = self.frames + 1;
        self.frames % REPORT_EVERY == 0
    }
}

} // verus!
