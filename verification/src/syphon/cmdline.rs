//! The options of the syphon command.
//!
//! It decodes the camera stream and publishes it as a macOS Syphon server, so that
//! Syphon-aware applications can read the video frames directly without going
//! through RTSP.
use crate::camera::StreamKind;
use vstd::prelude::*;

verus! {

/// Messages to buffer when nothing else is asked
pub const DEFAULT_BUFFER: usize = 100;

/// The port of the control page when nothing else is asked
pub const DEFAULT_UI_PORT: u16 = 8080;

/// What to publish
#[derive(Debug)]
pub struct Opt {
    /// The name of the camera to publish. Must be a name in the config
    pub camera: String,
    /// Which stream to publish
    pub stream: Stream,
    /// Name to advertise the Syphon server under
    ///
    /// Defaults to the camera name
    pub name: Option<String>,
    /// Number of complete messages to buffer from the camera
    pub buffer: usize,
    /// Also serve the camera control page, so zoom and IR can be adjusted while
    /// the stream is running
    pub ui: bool,
    /// Port to serve the control page on
    pub ui_port: u16,
}

/// Which camera stream to pull
#[derive(Clone, Copy, Debug, PartialEq, Eq, Structural)]
pub enum Stream {
    /// The HD stream
    Main,
    /// The SD stream
    Sub,
    /// The balanced stream, if the camera supports it
    Extern,
}

impl From<Stream> for StreamKind {
    fn from(value: Stream) -> (kind: StreamKind) {
        match value {
            Stream::Main => StreamKind::Main,
            Stream::Sub => StreamKind::Sub,
            Stream::Extern => StreamKind::Extern,
        }
    }
}

impl vstd::std_specs::convert::FromSpecImpl<Stream> for StreamKind {
    open spec fn obeys_from_spec() -> bool {
        true
    }

    open spec fn from_spec(value: Stream) -> StreamKind {
        match value {
            Stream::Main => StreamKind::Main,
            Stream::Sub => StreamKind::Sub,
            Stream::Extern => StreamKind::Extern,
        }
    }
}

} // verus!
