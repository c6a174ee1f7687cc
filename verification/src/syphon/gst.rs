//! The decode half of the syphon command.
//!
//! Takes the H264/H265 NAL units the camera sends and turns them into raw BGRA
//! frames, with hardware decoding where there is any. What the pipeline is made of
//! and what becomes of each frame is decided here.
//!
//! The buffering is deliberately minimal. Stale realtime video is worthless, so
//! nothing in this pipeline is allowed to queue up frames.
use crate::camera::VideoType;
use vstd::prelude::*;
use vstd::string::*;

verus! {

/// How much encoded video the source is allowed to hold.
///
/// Enough for a couple of key frames so a brief hiccup does not tear the stream,
/// but nowhere near seconds of backlog.
pub const SOURCE_MAX_BYTES: u64 = 4 * 1024 * 1024;

/// How many decoded frames the sink holds: only ever the newest
pub const SINK_MAX_BUFFERS: u32 = 1;

/// Human readable codec name for logging
pub open spec fn codec(format: VideoType) -> Seq<char> {
    match format {
        VideoType::H264 => "H264"@,
        VideoType::H265 => "H265"@,
    }
}

/// The element that parses a codec
pub open spec fn parser(format: VideoType) -> Seq<char> {
    match format {
        VideoType::H264 => "h264parse"@,
        VideoType::H265 => "h265parse"@,
    }
}

/// Human readable codec name for logging
pub fn format_name(format: VideoType) -> (name: &'static str)
    ensures
        name@ == codec(format),
{
    match format {
        VideoType::H264 => "H264",
        VideoType::H265 => "H265",
    }
}

/// The element that parses a codec
pub fn parser_name(format: VideoType) -> (name: &'static str)
    ensures
        name@ == parser(format),
{
    match format {
        VideoType::H264 => "h264parse",
        VideoType::H265 => "h265parse",
    }
}

/// The decoder to try once so many have failed, or none if all have
///
/// `vtdec_hw` is VideoToolbox hardware decoding. `decodebin` is a portable fallback
/// in case it is unavailable.
pub fn next_decoder(failed: usize) -> (decoder: Option<&'static str>)
    ensures
        match decoder {
            Some(name) => (failed == 0 && name@ == "vtdec_hw"@) || (failed == 1 && name@
                == "decodebin"@),
            None => failed >= 2,
        },
{
    if failed == 0 {
        Some("vtdec_hw")
    } else if failed == 1 {
        Some("decodebin")
    } else {
        None
    }
}

/// The description of the pipeline that decodes a codec with a decoder
pub open spec fn pipeline(format: VideoType, decoder: Seq<char>) -> Seq<char> {
    "appsrc name=thesource ! "@ + parser(format) + " ! "@ + decoder
        + " ! videoconvert ! appsink name=thesink"@
}

/// The description of the pipeline that decodes a codec with a decoder
pub fn launch_text(format: VideoType, decoder: &str) -> (text: String)
    ensures
        text@ == pipeline(format, decoder@),
        format is H264 ==> text@ == "appsrc name=thesource ! "@ + "h264parse"@ + " ! "@ + decoder@
            + " ! videoconvert ! appsink name=thesink"@,
        format is H265 ==> text@ == "appsrc name=thesource ! "@ + "h265parse"@ + " ! "@ + decoder@
            + " ! videoconvert ! appsink name=thesink"@,
{
    let mut text = "appsrc name=thesource ! ".to_owned();
    text.append(parser_name(format));
    text.append(" ! ");
    text.append(decoder);
    text.append(" ! videoconvert ! appsink name=thesink");
    text
}

/// Each codec goes by its own name and has its own parser
pub proof fn lemma_codecs_are_told_apart(a: VideoType, b: VideoType)
    ensures
        codec(VideoType::H264) == "H264"@,
        codec(VideoType::H265) == "H265"@,
        parser(VideoType::H264) == "h264parse"@,
        parser(VideoType::H265) == "h265parse"@,
        a != b ==> codec(a) != codec(b) && parser(a) != parser(b),
{
    reveal_strlit("H264");
    reveal_strlit("H265");
    reveal_strlit("h264parse");
    reveal_strlit("h265parse");
    assert("H264"@[3] == '4' && "H265"@[3] == '5');
    assert("h264parse"@[3] == '4' && "h265parse"@[3] == '5');
}

/// In a pipeline, what the camera sends goes through the parser of its codec, then the
/// decoder, and then to where it is picked up, whichever decoder that is
pub proof fn lemma_a_pipeline_runs_from_source_to_sink(format: VideoType, decoder: Seq<char>)
    ensures
        ({
            let (text, parse) = (pipeline(format, decoder), parser(format));
            let source = "appsrc name=thesource ! "@;
            let link = " ! "@;
            let sink = " ! videoconvert ! appsink name=thesink"@;
            &&& text.len() == source.len() + parse.len() + link.len() + decoder.len() + sink.len()
            &&& source.is_prefix_of(text)
            &&& parse.is_prefix_of(text.skip(source.len() as int))
            &&& link.is_prefix_of(text.skip((source.len() + parse.len()) as int))
            &&& decoder.is_prefix_of(text.skip((source.len() + parse.len() + link.len()) as int))
            &&& sink.is_suffix_of(text)
        }),
{
    let (text, parse) = (pipeline(format, decoder), parser(format));
    let source = "appsrc name=thesource ! "@;
    let link = " ! "@;
    let a = source.len() as int;
    let b = a + parse.len();
    let c = b + link.len();
    assert(text.take(a) =~= source);
    assert(text.skip(a).take(parse.len() as int) =~= parse);
    assert(text.skip(b).take(link.len() as int) =~= link);
    assert(text.skip(c).take(decoder.len() as int) =~= decoder);
}

/// What came of a frame that was meant for the pipeline
#[derive(Clone, Copy, Debug, PartialEq, Eq, Structural)]
pub enum Flow {
    /// There was no room for it, so it was dropped
    Dropped,
    /// It was taken
    Accepted,
    /// The pipeline is shutting down
    Flushing,
    /// The pipeline has reached its end
    Eos,
    /// It was refused for any other reason
    Failed,
}

/// A frame that the decoder refused
#[derive(Clone, Copy, Debug, PartialEq, Eq, Structural)]
pub struct PushError;

/// Whether the source has room for a frame
///
/// If the source is already full then the decoder is not keeping up. The frame is
/// to be dropped instead of stalling the camera reader behind it.
pub fn has_room(level_bytes: u64, max_bytes: u64) -> (room: bool)
    ensures
        room == (level_bytes < max_bytes),
{
    level_bytes < max_bytes
}

/// Whether more frames should be sent, given what came of the last one
///
/// Gives `false` if the pipeline has finished and no more frames should be sent. A
/// frame that was dropped is no reason to stop.
pub fn keep_sending(flow: Flow) -> (more: Result<bool, PushError>)
    ensures
        more == (match flow {
            Flow::Dropped => Ok(true),
            Flow::Accepted => Ok(true),
            Flow::Flushing => Ok(false),
            Flow::Eos => Ok(false),
            Flow::Failed => Err(PushError),
        }),
{
    match flow {
        Flow::Dropped => Ok(true),
        Flow::Accepted => Ok(true),
        Flow::Flushing => Ok(false),
        Flow::Eos => Ok(false),
        Flow::Failed => Err(PushError),
    }
}

} // verus!
