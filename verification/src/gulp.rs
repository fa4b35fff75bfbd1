//! The text-recognition capture tool: its capture modes, the bookkeeping of
//! one screencopy frame, and its upload interface.
use vstd::prelude::*;

use crate::capture::{parsed_mode, InvalidMode};
use crate::text::str_eq;

verus! {

/// What a capture takes: an image or a recording of an area, a window or a
/// screen.
#[derive(Debug, Clone, Copy, PartialEq, Eq, Structural)]
pub enum CaptureMode {
    ImageArea,
    ImageWindow,
    ImageScreen,
    VideoArea,
    VideoWindow,
    VideoScreen,
}

/// The capture mode of the screen-capture tool with the same name.
pub open spec fn as_capture_mode(m: CaptureMode) -> crate::capture::CaptureMode {
    match m {
        CaptureMode::ImageArea => crate::capture::CaptureMode::ImageArea,
        CaptureMode::ImageWindow => crate::capture::CaptureMode::ImageWindow,
        CaptureMode::ImageScreen => crate::capture::CaptureMode::ImageScreen,
        CaptureMode::VideoArea => crate::capture::CaptureMode::VideoArea,
        CaptureMode::VideoWindow => crate::capture::CaptureMode::VideoWindow,
        CaptureMode::VideoScreen => crate::capture::CaptureMode::VideoScreen,
    }
}

impl CaptureMode {
    /// Reads a command-line mode name; the names are those of the
    /// screen-capture tool.
    pub fn from_str(s: &str) -> (r: Result<CaptureMode, InvalidMode>)
        ensures
            r matches Ok(m) ==> parsed_mode(s@) == Some(as_capture_mode(m)),
            parsed_mode(s@) is None ==> (r matches Err(e) && e.given@ == s@),
    {
        if str_eq(s, "image-area") {
            Ok(CaptureMode::ImageArea)
        } else if str_eq(s, "image-window") {
            Ok(CaptureMode::ImageWindow)
        } else if str_eq(s, "image-screen") {
            Ok(CaptureMode::ImageScreen)
        } else if str_eq(s, "video-area") {
            Ok(CaptureMode::VideoArea)
        } else if str_eq(s, "video-window") {
            Ok(CaptureMode::VideoWindow)
        } else if str_eq(s, "video-screen") {
            Ok(CaptureMode::VideoScreen)
        } else {
            Err(InvalidMode { given: s.to_owned() })
        }
    }

    /// Whether the mode records video.
    pub fn is_video(&self) -> (b: bool)
        ensures
            b <==> (*self == CaptureMode::VideoArea || *self == CaptureMode::VideoWindow || *self
                == CaptureMode::VideoScreen),
    {
        match self {
            CaptureMode::VideoArea | CaptureMode::VideoWindow | CaptureMode::VideoScreen => true,
            _ => false,
        }
    }
}

/// How many times the event queue is polled for a frame before giving up.
pub const MAX_CAPTURE_ATTEMPTS: u32 = 100;

/// What the compositor reports about a screencopy frame.
#[derive(Debug, Clone, Copy, PartialEq, Eq, Structural)]
pub enum FrameEvent {
    /// The buffer the frame needs; `format` is the `wl_shm` format code, when
    /// the compositor sent one this side knows.
    Buffer { format: Option<u32>, width: u32, height: u32, stride: u32 },
    /// Flags of the frame, which change nothing here.
    Flags,
    /// The frame was copied.
    Ready,
    /// The compositor refused the copy.
    Failed,
    /// Anything else, which changes nothing here.
    Other,
}

/// What is known of a screencopy frame so far.
#[derive(Debug, Clone, Copy, PartialEq, Eq, Structural)]
pub struct CaptureState {
    pub width: Option<u32>,
    pub height: Option<u32>,
    pub stride: Option<u32>,
    pub format: Option<u32>,
    pub ready: bool,
    pub failed: bool,
}

/// Why a frame was not captured.
#[derive(Debug, Clone, Copy, PartialEq, Eq, Structural)]
pub enum CaptureError {
    /// The compositor refused the capture.
    Rejected,
    /// The frame was not ready after this many polls.
    TimedOut(u32),
}

/// The state after `event`.
pub open spec fn after_frame_event(s: CaptureState, event: FrameEvent) -> CaptureState {
    match event {
        FrameEvent::Buffer { format, width, height, stride } => CaptureState {
            width: Some(width),
            height: Some(height),
            stride: Some(stride),
            format: match format {
                Some(f) => Some(f),
                None => s.format,
            },
            ..s
        },
        FrameEvent::Ready => CaptureState { ready: true, ..s },
        FrameEvent::Failed => CaptureState { failed: true, ..s },
        _ => s,
    }
}

/// What polling for a frame does next.
#[derive(Debug, Clone, Copy, PartialEq, Eq)]
pub enum WaitStep {
    /// Stop with this outcome.
    Finish(Result<(), CaptureError>),
    /// Poll the event queue again, pausing a moment afterwards if the frame
    /// is still not done and this is later than the first few polls.
    Poll,
}

impl CaptureState {
    /// Nothing known yet.
    pub fn new() -> (s: Self)
        ensures
            s.width is None && s.height is None && s.stride is None && s.format is None,
            !s.ready && !s.failed,
    {
        CaptureState {
            width: None,
            height: None,
            stride: None,
            format: None,
            ready: false,
            failed: false,
        }
    }

    /// Whether the frame was copied or refused.
    pub fn is_complete(&self) -> (b: bool)
        ensures
            b == (self.ready || self.failed),
    {
        self.ready || self.failed
    }

    /// The outcome: refused, timed out when not ready, else captured.
    pub fn to_result(&self) -> (r: Result<(), CaptureError>)
        ensures
            self.failed ==> r == Err::<(), CaptureError>(CaptureError::Rejected),
            !self.failed && !self.ready ==> r == Err::<(), CaptureError>(
                CaptureError::TimedOut(MAX_CAPTURE_ATTEMPTS),
            ),
            !self.failed && self.ready ==> r == Ok::<(), CaptureError>(()),
    {
        if self.failed {
            Err(CaptureError::Rejected)
        } else if !self.ready {
            Err(CaptureError::TimedOut(MAX_CAPTURE_ATTEMPTS))
        } else {
            Ok(())
        }
    }

    /// Takes in what the compositor reported.
    pub fn event(&mut self, event: FrameEvent)
        ensures
            *final(self) == after_frame_event(*old(self), event),
    {
        match event {
            FrameEvent::Buffer { format, width, height, stride } => {
                self.width = Some(width);
                self.height = Some(height);
                self.stride = Some(stride);
                if let Some(f) = format {
                    self.format = Some(f);
                }
            },
            FrameEvent::Ready => {
                self.ready = true;
            },
            FrameEvent::Failed => {
                self.failed = true;
            },
            _ => {},
        }
    }

    /// What to do before poll number `attempt`: stop once the frame is done
    /// or every poll is spent, else poll.
    pub fn next_step(&self, attempt: u32) -> (step: WaitStep)
        ensures
            (self.ready || self.failed || attempt >= MAX_CAPTURE_ATTEMPTS) ==> step
                == WaitStep::Finish(
                if self.failed {
                    Err::<(), CaptureError>(CaptureError::Rejected)
                } else if !self.ready {
                    Err::<(), CaptureError>(CaptureError::TimedOut(MAX_CAPTURE_ATTEMPTS))
                } else {
                    Ok::<(), CaptureError>(())
                },
            ),
            !(self.ready || self.failed || attempt >= MAX_CAPTURE_ATTEMPTS) ==> step
                == WaitStep::Poll,
    {
        if self.is_complete() || attempt >= MAX_CAPTURE_ATTEMPTS {
            WaitStep::Finish(self.to_result())
        } else {
            WaitStep::Poll
        }
    }

    /// Whether to pause after poll number `attempt`: when the frame is still
    /// not done and the first few polls are over.
    pub fn pause_after_poll(&self, attempt: u32) -> (b: bool)
        ensures
            b == (!(self.ready || self.failed) && attempt > 5),
    {
        !self.is_complete() && attempt > 5
    }
}

/// A service that files are uploaded to.
pub trait UploadService {
    /// Uploads the file at `file_path`, giving its public address, or why it
    /// could not be uploaded.
    fn upload(&self, file_path: &str) -> Result<String, String>;
}

} // verus!
