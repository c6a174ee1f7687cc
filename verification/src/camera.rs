//! What a camera sends and is told, as far as the rest of the library reads it.
use vstd::prelude::*;

verus! {

/// The streams a camera offers
#[derive(Clone, Copy, Debug, PartialEq, Eq, Structural)]
pub enum StreamKind {
    Main,
    Sub,
    Extern,
}

/// How a camera encodes its video
#[derive(Clone, Copy, Debug, PartialEq, Eq, Structural)]
pub enum VideoType {
    H264,
    H265,
}

/// What an infrared illuminator can be told to do
#[derive(Clone, Copy, Debug, PartialEq, Eq, Structural)]
pub enum LightState {
    On,
    Off,
    Auto,
}

/// One packet of a camera's stream: what it is, and how many bytes it carries
#[derive(Clone, Copy, Debug, PartialEq, Eq, Structural)]
pub enum Media {
    /// A key frame, with the camera's own timestamp
    Iframe { microseconds: u32, video_type: VideoType, len: usize },
    /// A frame that builds on the ones before it
    Pframe { microseconds: u32, video_type: VideoType, len: usize },
    /// Sound in either of the two formats
    Audio,
    /// What the camera says about the stream
    Info { width: u32, height: u32, fps: u8 },
}

} // verus!
