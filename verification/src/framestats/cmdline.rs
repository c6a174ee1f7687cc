//! The options of the frame-stats command.
//!
//! It measures frame arrival timing directly from the camera, with no RTSP server
//! and no GStreamer in the pipeline. Use it to work out whether stream lag and
//! stalls originate in the camera connection itself or in the RTSP serving layer.
use crate::camera::StreamKind;
use vstd::prelude::*;

verus! {

/// How long to measure for when nothing else is asked, in seconds
pub const DEFAULT_DURATION: u64 = 30;

/// Seconds between progress reports when nothing else is asked
pub const DEFAULT_INTERVAL: u64 = 5;

/// The gap that counts as a stall when nothing else is asked, in milliseconds
pub const DEFAULT_STALL_MS: u64 = 250;

/// Messages to buffer when nothing else is asked
pub const DEFAULT_BUFFER: usize = 100;

/// What to measure
#[derive(Debug)]
pub struct Opt {
    /// The name of the camera to measure. Must be a name in the config
    pub camera: String,
    /// Which stream to measure
    pub stream: Stream,
    /// How long to measure for, in seconds
    pub duration: u64,
    /// Seconds between progress reports. Set to 0 to disable them
    pub interval: u64,
    /// A gap between frames longer than this many milliseconds counts as a stall
    pub stall_ms: u64,
    /// Number of complete messages to buffer from the camera
    pub buffer: usize,
}

/// Which camera stream to pull
#[derive(Clone, Copy, Debug, PartialEq, Eq, Structural)]
pub enum Stream {
    /// The HD stream
    Main,
    /// The SD stream
    Sub,
    /// The balanced stream, if the camera supports it
    Extern,
}

impl From<Stream> for StreamKind {
    fn from(value: Stream) -> (kind: StreamKind) {
        match value {
            Stream::Main => StreamKind::Main,
            Stream::Sub => StreamKind::Sub,
            Stream::Extern => StreamKind::Extern,
        }
    }
}

impl vstd::std_specs::convert::FromSpecImpl<Stream> for StreamKind {
    open spec fn obeys_from_spec() -> bool {
        true
    }

    open spec fn from_spec(value: Stream) -> StreamKind {
        match value {
            Stream::Main => StreamKind::Main,
            Stream::Sub => StreamKind::Sub,
            Stream::Extern => StreamKind::Extern,
        }
    }
}

} // verus!
