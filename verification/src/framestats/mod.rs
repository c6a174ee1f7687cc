//! Measuring the timing of video frames as they arrive from the camera.
//!
//! The intent is to bisect stream lag and stalls. Two clocks are compared:
//!
//! - the wall clock at the moment each frame lands here
//! - the camera's own timestamp carried in each frame
//!
//! If the camera's timestamps are evenly spaced but arrivals are not, the jitter is
//! being introduced between the camera and here. If both are even, the camera
//! connection is healthy and anything the user sees must come from further
//! downstream.
//!
//! The wall clock is counted in nanoseconds from a moment that the caller picks
//! before the first frame. Nothing is rounded here: means and rates are left to
//! whoever shows them, as a total and a count.
use crate::camera::Media;
use vstd::prelude::*;

pub mod cmdline;

verus! {

/// Nanoseconds in a second
pub const NANOS_PER_SECOND: u64 = 1_000_000_000;

/// Nanoseconds in a millisecond
pub const NANOS_PER_MILLI: u64 = 1_000_000;

/// Nanoseconds in a microsecond
pub const NANOS_PER_MICRO: u64 = 1_000;

/// How many stalls are worth listing one by one
pub const LISTED_STALLS: usize = 20;

/// A single video frame as it was received
#[derive(Clone, Copy, Debug, PartialEq, Eq, Structural)]
pub struct Frame {
    /// When the frame landed here, in nanoseconds
    pub at: u64,
    /// The camera's own timestamp in microseconds. This wraps roughly every 71
    /// minutes
    pub cam_us: u32,
    /// Size of the encoded frame
    pub len: usize,
    /// Whether this was a key frame
    pub iframe: bool,
}

/// What the camera said about the stream, if it told us
#[derive(Clone, Copy, Debug, PartialEq, Eq, Structural)]
pub struct StreamInfo {
    pub width: u32,
    pub height: u32,
    pub fps: u8,
}

/// How a measurement is getting on
#[derive(Clone, Copy, Debug, PartialEq, Eq, Structural)]
pub struct Progress {
    /// Nanoseconds since the measurement started
    pub elapsed: u64,
    /// Video frames so far
    pub frames: usize,
    /// Video frames since the report before this one
    pub window: usize,
}

/// A measurement under way
#[derive(Debug)]
pub struct Collector {
    /// The video frames so far, in the order in which they came
    pub frames: Vec<Frame>,
    /// How many packets of sound there were
    pub audio_packets: usize,
    /// What the camera last said about the stream
    pub info: Option<StreamInfo>,
    /// Seconds between progress reports, or 0 for none
    pub interval: u64,
    /// When the measurement started
    pub started: u64,
    /// When the last report was made
    pub next_report: u64,
    /// How many frames there were at the last report
    pub reported_frames: usize,
}

/// The time from one moment to a later one, or nothing if it is not later
pub open spec fn since(later: u64, earlier: u64) -> u64 {
    if later >= earlier {
        (later - earlier) as u64
    } else {
        0
    }
}

/// The time from one moment to a later one, or nothing if it is not later
fn time_since(later: u64, earlier: u64) -> (time: u64)
    ensures
        time == since(later, earlier),
{
    if later >= earlier {
        later - earlier
    } else {
        0
    }
}

/// The frames once one more packet has come
pub open spec fn with_packet(frames: Seq<Frame>, at: u64, media: Media) -> Seq<Frame> {
    match media {
        Media::Iframe { microseconds, len, .. } => frames.push(
            Frame { at, cam_us: microseconds, len, iframe: true },
        ),
        Media::Pframe { microseconds, len, .. } => frames.push(
            Frame { at, cam_us: microseconds, len, iframe: false },
        ),
        _ => frames,
    }
}

/// The frames of a run of packets, each with the moment it came
pub open spec fn frames_of(packets: Seq<(u64, Media)>) -> Seq<Frame>
    decreases packets.len(),
{
    if packets.len() == 0 {
        Seq::empty()
    } else {
        with_packet(frames_of(packets.drop_last()), packets.last().0, packets.last().1)
    }
}

/// Whether a packet is a video frame
pub open spec fn is_frame(packet: (u64, Media)) -> bool {
    packet.1 is Iframe || packet.1 is Pframe
}

/// What the camera last said about the stream in a run of packets
pub open spec fn last_info(packets: Seq<(u64, Media)>) -> Option<StreamInfo>
    decreases packets.len(),
{
    if packets.len() == 0 {
        None
    } else {
        match packets.last().1 {
            Media::Info { width, height, fps } => Some(StreamInfo { width, height, fps }),
            _ => last_info(packets.drop_last()),
        }
    }
}

impl Collector {
    /// No more frames have been reported than have come
    pub open spec fn wf(&self) -> bool {
        self.reported_frames <= self.frames@.len()
    }

    /// Whether these are the packets that the measurement has taken in: it has a frame
    /// for each that is video, counts those that are sound, and knows what the camera
    /// said last
    pub open spec fn has_seen(&self, packets: Seq<(u64, Media)>) -> bool {
        &&& self.frames@ == frames_of(packets)
        &&& self.audio_packets == packets.filter(|packet: (u64, Media)| packet.1 is Audio).len()
        &&& self.info == last_info(packets)
    }

    /// Whether a packet that comes now makes a progress report due
    pub open spec fn report_due(&self, at: u64) -> bool {
        self.interval > 0 && since(at, self.next_report) >= self.interval * NANOS_PER_SECOND
    }

    /// Start a measurement that reports its progress every `interval` seconds, or
    /// never if that is 0
    pub fn new(started: u64, interval: u64) -> (collector: Collector)
        ensures
            collector.wf(),
            collector.has_seen(Seq::empty()),
            collector.frames@ == Seq::<Frame>::empty(),
            collector.audio_packets == 0,
            collector.info is None,
            collector.interval == interval,
            collector.started == started,
            collector.next_report == started,
            collector.reported_frames == 0,
    {
        reveal(Seq::filter);
        Collector {
            frames: Vec::new(),
            audio_packets: 0,
            info: None,
            interval,
            started,
            next_report: started,
            reported_frames: 0,
        }
    }

    /// Take in one packet and say how the measurement is getting on, if a report is
    /// due
    pub fn record(&mut self, at: u64, media: Media) -> (progress: Option<Progress>)
        requires
            old(self).wf(),
            media is Audio ==> old(self).audio_packets < usize::MAX,
        ensures
            final(self).wf(),
            forall|packets: Seq<(u64, Media)>| #[trigger]
                old(self).has_seen(packets) ==> final(self).has_seen(packets.push((at, media))),
            final(self).frames@ == with_packet(old(self).frames@, at, media),
            match media {
                Media::Iframe { microseconds, len, .. } => final(self).frames@
                    == old(self).frames@.push(
                    (Frame { at, cam_us: microseconds, len, iframe: true }),
                ),
                Media::Pframe { microseconds, len, .. } => final(self).frames@
                    == old(self).frames@.push(
                    (Frame { at, cam_us: microseconds, len, iframe: false }),
                ),
                _ => final(self).frames@ == old(self).frames@,
            },
            final(self).audio_packets == (if media is Audio {
                old(self).audio_packets + 1
            } else {
                old(self).audio_packets as int
            }),
            match media {
                Media::Info { width, height, fps } => final(self).info == Some(
                    (StreamInfo { width, height, fps }),
                ),
                _ => final(self).info == old(self).info,
            },
            final(self).interval == old(self).interval,
            final(self).started == old(self).started,
            progress is Some <==> old(self).interval > 0 && at >= old(self).next_report
                + old(self).interval * 1_000_000_000,
            progress matches Some(report) ==> (at >= old(self).started ==> old(self).started
                + report.elapsed == at),
            match progress {
                Some(report) => {
                    &&& old(self).report_due(at)
                    &&& report.elapsed == since(at, old(self).started)
                    &&& report.frames == final(self).frames@.len()
                    &&& report.window == final(self).frames@.len() - old(self).reported_frames
                    &&& final(self).reported_frames == final(self).frames@.len()
                    &&& final(self).next_report == at
                },
                None => {
                    &&& !old(self).report_due(at)
                    &&& final(self).reported_frames == old(self).reported_frames
                    &&& final(self).next_report == old(self).next_report
                },
            },
    {
        match media {
            Media::Iframe { microseconds, len, .. } => {
                self.frames.push(Frame { at, cam_us: microseconds, len, iframe: true });
            },
            Media::Pframe { microseconds, len, .. } => {
                self.frames.push(Frame { at, cam_us: microseconds, len, iframe: false });
            },
            Media::Audio => {
                self.audio_packets = self.audio_packets + 1;
            },
            Media::Info { width, height, fps } => {
                self.info = Some(StreamInfo { width, height, fps });
            },
        }

        proof {
            assert forall|packets: Seq<(u64, Media)>| #[trigger]
                old(self).has_seen(packets) implies self.has_seen(packets.push((at, media))) by {
                reveal(Seq::filter);
                assert(packets.push((at, media)).drop_last() =~= packets);
            }
        }

        // Periodic progress so a long run is not a silent wait
        if self.interval > 0 && time_since(at, self.next_report) as u128 >= self.interval as u128
            * NANOS_PER_SECOND as u128 {
            let window: usize = self.frames.len() - self.reported_frames;
            self.reported_frames = self.frames.len();
            self.next_report = at;
            Some(
                Progress {
                    elapsed: time_since(at, self.started),
                    frames: self.frames.len(),
                    window,
                },
            )
        } else {
            None
        }
    }
}

/// Whether a frame is the one that a packet carries
pub open spec fn carries(packet: (u64, Media), frame: Frame) -> bool {
    match packet.1 {
        Media::Iframe { microseconds, len, .. } => {
            &&& frame.iframe
            &&& frame.cam_us == microseconds
            &&& frame.len == len
            &&& frame.at == packet.0
        },
        Media::Pframe { microseconds, len, .. } => {
            &&& !frame.iframe
            &&& frame.cam_us == microseconds
            &&& frame.len == len
            &&& frame.at == packet.0
        },
        _ => false,
    }
}

/// Every video packet becomes one frame, which has its moment, its timestamp and its
/// size, in the order in which they came. Nothing else becomes one.
pub proof fn lemma_every_video_packet_is_a_frame(packets: Seq<(u64, Media)>)
    ensures
        ({
            let video = packets.filter(
                |packet: (u64, Media)| packet.1 is Iframe || packet.1 is Pframe,
            );
            &&& frames_of(packets).len() == video.len()
            &&& forall|i: int|
                0 <= i < video.len() ==> carries(video[i], #[trigger] frames_of(packets)[i])
        }),
        frames_of(packets).len() == packets.filter(|packet: (u64, Media)| is_frame(packet)).len(),
    decreases packets.len(),
{
    reveal(Seq::filter);
    if packets.len() > 0 {
        lemma_every_video_packet_is_a_frame(packets.drop_last());
    }
}

/// One more packet leaves the frames that came before it as they are
pub proof fn lemma_frames_are_kept(packets: Seq<(u64, Media)>, packet: (u64, Media))
    ensures
        frames_of(packets).is_prefix_of(frames_of(packets.push(packet))),
{
    assert(packets.push(packet).drop_last() =~= packets);
}

/// What the camera last said about the stream stays known until it says something else
pub proof fn lemma_the_last_info_counts(packets: Seq<(u64, Media)>, i: int)
    requires
        0 <= i < packets.len(),
        forall|j: int| i < j < packets.len() ==> !(#[trigger] packets[j].1 is Info),
    ensures
        packets[i].1 matches Media::Info { width, height, fps } ==> last_info(packets) == Some(
            (StreamInfo { width, height, fps }),
        ),
    decreases packets.len(),
{
    if i < packets.len() - 1 {
        let rest = packets.drop_last();
        assert(forall|j: int| 0 <= j < rest.len() ==> rest[j] == packets[j]);
        assert(!(packets[packets.len() - 1].1 is Info));
        lemma_the_last_info_counts(rest, i);
    }
}

/// A report is due once the interval has passed since the last one, and never if there
/// is no interval
pub proof fn lemma_when_a_report_is_due(collector: Collector, at: u64)
    ensures
        collector.interval == 0 ==> !collector.report_due(at),
        collector.interval > 0 ==> (collector.report_due(at) <==> at >= collector.next_report
            + collector.interval * 1_000_000_000),
{
}

/// How far the camera's clock moved between two timestamps, which wrap
pub open spec fn clock_gap(from: u32, to: u32) -> u32 {
    if to >= from {
        (to - from) as u32
    } else {
        (to - from + 0x1_0000_0000) as u32
    }
}

/// The time between one frame and the next, as they landed here
pub open spec fn arrival_gaps(frames: Seq<Frame>) -> Seq<u64> {
    Seq::new(
        (frames.len() - 1) as nat,
        |i: int| since(frames[i + 1].at, frames[i].at),
    )
}

/// The microseconds between one frame and the next, as the camera stamped them
pub open spec fn camera_gaps(frames: Seq<Frame>) -> Seq<u64> {
    Seq::new(
        (frames.len() - 1) as nat,
        |i: int| clock_gap(frames[i].cam_us, frames[i + 1].cam_us) as u64,
    )
}

/// The sum of some values
pub open spec fn total(values: Seq<u64>) -> nat
    decreases values.len(),
{
    if values.len() == 0 {
        0
    } else {
        total(values.drop_last()) + values.last() as nat
    }
}

/// The size of some frames together
pub open spec fn bytes(frames: Seq<Frame>) -> nat
    decreases frames.len(),
{
    if frames.len() == 0 {
        0
    } else {
        bytes(frames.drop_last()) + frames.last().len as nat
    }
}

/// How many frames are key frames
pub open spec fn key_frames(frames: Seq<Frame>) -> nat
    decreases frames.len(),
{
    if frames.len() == 0 {
        0
    } else {
        key_frames(frames.drop_last()) + if frames.last().iframe {
            1nat
        } else {
            0nat
        }
    }
}

/// A gap between frames that was too long
#[derive(Clone, Copy, Debug, PartialEq, Eq, Structural)]
pub struct Stall {
    /// When it ended, in nanoseconds from the first frame
    pub at: u64,
    /// How long it was, in nanoseconds
    pub gap: u64,
}

/// Whether a gap is longer than the given number of milliseconds
pub open spec fn is_stall(gap: u64, stall_ms: u64) -> bool {
    gap > stall_ms * NANOS_PER_MILLI
}

/// The stalls among the first `n` gaps, in order
pub open spec fn stalls_among(frames: Seq<Frame>, stall_ms: u64, n: nat) -> Seq<Stall>
    decreases n,
{
    if n == 0 {
        Seq::empty()
    } else {
        let before = stalls_among(frames, stall_ms, (n - 1) as nat);
        let gap = arrival_gaps(frames)[n - 1];
        if is_stall(gap, stall_ms) {
            before.push(Stall { at: since(frames[n as int].at, frames[0].at), gap })
        } else {
            before
        }
    }
}

/// The stalls of a measurement, in order
pub open spec fn stalls_of(frames: Seq<Frame>, stall_ms: u64) -> Seq<Stall> {
    stalls_among(frames, stall_ms, arrival_gaps(frames).len())
}

/// Some values in rising order
pub open spec fn rising(values: Seq<u64>) -> Seq<u64> {
    values.sort_by(|a: u64, b: u64| a <= b)
}

/// Where the nearest-rank percentile stands among `n` values in rising order: the
/// rank is the given hundredths of them, rounded up, and counted from one
pub open spec fn percentile_index(percent: nat, n: nat) -> nat {
    let rank = (percent * n + 99) / 100;
    if rank == 0 {
        0
    } else if rank > n {
        (n - 1) as nat
    } else {
        (rank - 1) as nat
    }
}

/// The nearest-rank percentile of values in rising order, or 0 if there are none
pub open spec fn nearest_rank(sorted: Seq<u64>, percent: nat) -> u64 {
    if sorted.len() == 0 {
        0
    } else {
        sorted[percentile_index(percent, sorted.len()) as int]
    }
}

/// Nearest-rank percentile of an already sorted slice
pub fn percentile(sorted: &[u64], percent: u32) -> (value: u64)
    ensures
        value == nearest_rank(sorted@, percent as nat),
        sorted@.len() == 0 ==> value == 0,
{
    if sorted.len() == 0 {
        return 0;
    }
    let n: u128 = sorted.len() as u128;
    assert(percent * n <= u32::MAX * u64::MAX) by (nonlinear_arith)
        requires
            percent <= u32::MAX,
            0 <= n <= u64::MAX,
    ;
    let rank: u128 = (percent as u128 * n + 99) / 100;
    let index: usize = if rank == 0 {
        0
    } else if rank > n {
        sorted.len() - 1
    } else {
        (rank - 1) as usize
    };
    sorted[index]
}

/// `<[u64]>::sort`: the values are put in rising order, and they stay the same ones
#[verifier::external_body]
fn sort(values: &mut Vec<u64>)
    ensures
        final(values)@.to_multiset() == old(values)@.to_multiset(),
        forall|i: int, j: int|
            0 <= i <= j < final(values)@.len() ==> final(values)@[i] <= final(values)@[j],
{
    values.sort();
}

/// Values in rising order are the same ones in no other
proof fn lemma_rising(values: Seq<u64>, sorted: Seq<u64>)
    requires
        sorted.to_multiset() == values.to_multiset(),
        forall|i: int, j: int| 0 <= i <= j < sorted.len() ==> sorted[i] <= sorted[j],
    ensures
        sorted == rising(values),
        sorted.len() == values.len(),
{
    let leq = |a: u64, b: u64| a <= b;
    values.lemma_sort_by_ensures(leq);
    vstd::seq_lib::lemma_sorted_unique(sorted, rising(values), leq);
    values.to_multiset_ensures();
    sorted.to_multiset_ensures();
}

/// How a set of intervals is spread
#[derive(Clone, Copy, Debug, PartialEq, Eq, Structural)]
pub struct Intervals {
    /// How many there are
    pub count: usize,
    /// All of them together
    pub total: u128,
    pub min: u64,
    pub max: u64,
    pub p50: u64,
    pub p95: u64,
    pub p99: u64,
}

/// Whether a summary says how these intervals are spread
pub open spec fn describes(summary: Intervals, values: Seq<u64>) -> bool {
    let sorted = rising(values);
    &&& summary.count == values.len()
    &&& summary.total == total(values)
    &&& summary.min == sorted[0]
    &&& summary.max == sorted[values.len() - 1]
    &&& summary.p50 == nearest_rank(sorted, 50)
    &&& summary.p95 == nearest_rank(sorted, 95)
    &&& summary.p99 == nearest_rank(sorted, 99)
}

fn add_up(values: &Vec<u64>) -> (sum: u128)
    ensures
        sum == total(values@),
{
    let mut sum: u128 = 0;
    let mut i: usize = 0;
    assert(values@.take(0) =~= Seq::<u64>::empty());
    while i < values.len()
        invariant
            i <= values@.len(),
            sum == total(values@.take(i as int)),
            sum <= i * u64::MAX,
        decreases values@.len() - i,
    {
        assert(values@.take(i + 1).drop_last() =~= values@.take(i as int));
        assert((i + 1) * u64::MAX <= u64::MAX * u64::MAX) by (nonlinear_arith)
            requires
                i + 1 <= u64::MAX,
        ;
        sum = sum + values[i] as u128;
        i = i + 1;
    }
    assert(values@.take(i as int) =~= values@);
    sum
}

/// The count, total, extremes and percentiles of a set of intervals, if there are any
pub fn intervals(values: &Vec<u64>) -> (summary: Option<Intervals>)
    ensures
        match summary {
            Some(summary) => values@.len() > 0 && describes(summary, values@),
            None => values@.len() == 0,
        },
{
    if values.len() == 0 {
        return None;
    }
    let mut sorted: Vec<u64> = values.clone();
    assert(sorted@ =~= values@);
    sort(&mut sorted);
    proof {
        lemma_rising(values@, sorted@);
    }
    Some(
        Intervals {
            count: values.len(),
            total: add_up(values),
            min: sorted[0],
            max: sorted[sorted.len() - 1],
            p50: percentile(sorted.as_slice(), 50),
            p95: percentile(sorted.as_slice(), 95),
            p99: percentile(sorted.as_slice(), 99),
        },
    )
}

/// What was measured
#[derive(Debug)]
pub struct Summary {
    /// How many video frames came
    pub frames: usize,
    /// How many of them were key frames
    pub iframes: usize,
    /// Their size together
    pub total_bytes: u128,
    /// Nanoseconds from the first frame to the last
    pub wall_elapsed: u64,
    /// Microseconds from the first frame to the last by the camera's clock
    pub cam_elapsed: u32,
    /// The jitter as it is actually experienced here, in nanoseconds
    pub arrival: Intervals,
    /// The pacing the camera intended, in microseconds
    pub camera: Intervals,
    /// The gaps that were too long
    pub stalls: Vec<Stall>,
    /// How many nanoseconds more passed here than by the camera's clock. If frames
    /// are handled at the pace of the camera this stays near zero. If it grows,
    /// they are backing up. The camera's clock starts over about every 71 minutes, so
    /// this only holds of a measurement shorter than that: each time it starts over
    /// adds another 71 minutes
    pub drift: i128,
}

/// Whether a summary is that of some frames
pub open spec fn summarises(summary: Summary, frames: Seq<Frame>, stall_ms: u64) -> bool {
    let first = frames[0];
    let last = frames[frames.len() - 1];
    &&& summary.frames == frames.len()
    &&& summary.iframes == key_frames(frames)
    &&& summary.total_bytes == bytes(frames)
    &&& summary.wall_elapsed == since(last.at, first.at)
    &&& summary.cam_elapsed == clock_gap(first.cam_us, last.cam_us)
    &&& describes(summary.arrival, arrival_gaps(frames))
    &&& describes(summary.camera, camera_gaps(frames))
    &&& summary.stalls@ == stalls_of(frames, stall_ms)
    &&& summary.drift == summary.wall_elapsed - summary.cam_elapsed * NANOS_PER_MICRO
}

fn clock_since(from: u32, to: u32) -> (gap: u32)
    ensures
        gap == clock_gap(from, to),
{
    // Wrapping keeps this correct across the microsecond rollover
    to.wrapping_sub(from)
}

/// The gaps between the frames, by the wall clock and by the camera's
fn gaps(frames: &[Frame]) -> (gaps: (Vec<u64>, Vec<u64>))
    requires
        frames@.len() > 0,
    ensures
        gaps.0@ == arrival_gaps(frames@),
        gaps.1@ == camera_gaps(frames@),
        gaps.0@.len() == frames@.len() - 1,
        gaps.1@.len() == frames@.len() - 1,
        forall|i: int|
            0 <= i < frames@.len() - 1 ==> #[trigger] gaps.0@[i] == since(
                frames@[i + 1].at,
                frames@[i].at,
            ),
        forall|i: int|
            0 <= i < frames@.len() - 1 ==> #[trigger] gaps.1@[i] == clock_gap(
                frames@[i].cam_us,
                frames@[i + 1].cam_us,
            ),
{
    let mut arrival: Vec<u64> = Vec::with_capacity(frames.len());
    let mut camera: Vec<u64> = Vec::with_capacity(frames.len());
    let mut i: usize = 1;
    while i < frames.len()
        invariant
            1 <= i <= frames@.len(),
            arrival@ == arrival_gaps(frames@).take(i - 1),
            camera@ == camera_gaps(frames@).take(i - 1),
        decreases frames@.len() - i,
    {
        arrival.push(time_since(frames[i].at, frames[i - 1].at));
        camera.push(clock_since(frames[i - 1].cam_us, frames[i].cam_us) as u64);
        i = i + 1;
    }
    (arrival, camera)
}

/// How many key frames there are and how large the frames are together
fn totals(frames: &[Frame]) -> (totals: (usize, u128))
    ensures
        totals.0 == key_frames(frames@),
        totals.1 == bytes(frames@),
{
    let mut iframes: usize = 0;
    let mut size: u128 = 0;
    let mut i: usize = 0;
    assert(frames@.take(0) =~= Seq::<Frame>::empty());
    while i < frames.len()
        invariant
            i <= frames@.len(),
            iframes == key_frames(frames@.take(i as int)),
            iframes <= i,
            size == bytes(frames@.take(i as int)),
            size <= i * u64::MAX,
        decreases frames@.len() - i,
    {
        assert(frames@.take(i + 1).drop_last() =~= frames@.take(i as int));
        assert((i + 1) * u64::MAX <= u64::MAX * u64::MAX) by (nonlinear_arith)
            requires
                i + 1 <= u64::MAX,
        ;
        if frames[i].iframe {
            iframes = iframes + 1;
        }
        size = size + frames[i].len as u128;
        i = i + 1;
    }
    assert(frames@.take(i as int) =~= frames@);
    (iframes, size)
}

fn find_stalls(frames: &[Frame], arrival: &Vec<u64>, stall_ms: u64) -> (stalls: Vec<Stall>)
    requires
        frames@.len() > 0,
        arrival@ == arrival_gaps(frames@),
    ensures
        stalls@ == stalls_of(frames@, stall_ms),
{
    assert(stall_ms * NANOS_PER_MILLI <= u64::MAX * u64::MAX) by (nonlinear_arith)
        requires
            0 <= stall_ms <= u64::MAX,
            0 <= NANOS_PER_MILLI <= u64::MAX,
    ;
    let threshold: u128 = stall_ms as u128 * NANOS_PER_MILLI as u128;
    let mut stalls: Vec<Stall> = Vec::new();
    let mut i: usize = 0;
    while i < arrival.len()
        invariant
            frames@.len() > 0,
            i <= arrival@.len(),
            arrival@ == arrival_gaps(frames@),
            threshold == stall_ms * NANOS_PER_MILLI,
            stalls@ == stalls_among(frames@, stall_ms, i as nat),
        decreases arrival@.len() - i,
    {
        let gap: u64 = arrival[i];
        if gap as u128 > threshold {
            stalls.push(Stall { at: time_since(frames[i + 1].at, frames[0].at), gap });
        }
        i = i + 1;
    }
    stalls
}

/// What the frames of a measurement come to, if there are enough to measure
pub fn report(frames: &[Frame], stall_ms: u64) -> (summary: Option<Summary>)
    ensures
        match summary {
            Some(summary) => frames@.len() >= 2 && summarises(summary, frames@, stall_ms),
            None => frames@.len() < 2,
        },
{
    if frames.len() < 2 {
        return None;
    }
    let first = frames[0];
    let last = frames[frames.len() - 1];
    let wall_elapsed: u64 = time_since(last.at, first.at);
    let cam_elapsed: u32 = clock_since(first.cam_us, last.cam_us);
    let (iframes, total_bytes) = totals(frames);
    let (arrival, camera) = gaps(frames);
    let stalls = find_stalls(frames, &arrival, stall_ms);
    match (intervals(&arrival), intervals(&camera)) {
        (Some(arrival), Some(camera)) => Some(
            Summary {
                frames: frames.len(),
                iframes,
                total_bytes,
                wall_elapsed,
                cam_elapsed,
                arrival,
                camera,
                stalls,
                drift: wall_elapsed as i128 - cam_elapsed as i128 * NANOS_PER_MICRO as i128,
            },
        ),
        _ => None,
    }
}

/// How many of so many stalls are listed, and how many are only counted
pub fn listed(stalls: usize) -> (parts: (usize, usize))
    ensures
        parts.0 + parts.1 == stalls,
        parts.0 == (if stalls <= LISTED_STALLS {
            stalls
        } else {
            LISTED_STALLS
        }),
{
    if stalls <= LISTED_STALLS {
        (stalls, 0)
    } else {
        (LISTED_STALLS, stalls - LISTED_STALLS)
    }
}

/// The camera's clock is read correctly across its rollover: the gap between two of
/// its timestamps is the time that passed, if that is less than a full turn
pub proof fn lemma_the_clock_survives_its_rollover(start: u32, elapsed: nat)
    requires
        elapsed < 0x1_0000_0000,
    ensures
        clock_gap(start, ((start + elapsed) % 0x1_0000_0000) as u32) == elapsed,
{
}

/// Within a turn of the camera's clock, drift is how much longer the frames took to
/// come than to be sent, and so nothing at all at the camera's pace
pub proof fn lemma_drift_is_the_lag(
    summary: Summary,
    frames: Seq<Frame>,
    stall_ms: u64,
    sent_over: nat,
)
    requires
        frames.len() >= 1,
        summarises(summary, frames, stall_ms),
        sent_over < 0x1_0000_0000,
        frames.last().cam_us == (frames[0].cam_us + sent_over) % 0x1_0000_0000,
    ensures
        summary.drift == summary.wall_elapsed - sent_over * NANOS_PER_MICRO,
        summary.wall_elapsed == sent_over * NANOS_PER_MICRO <==> summary.drift == 0,
{
    lemma_the_clock_survives_its_rollover(frames[0].cam_us, sent_over);
}

/// A moment and the time since it make the later moment, and no time passes backwards
pub proof fn lemma_time_since(later: u64, earlier: u64)
    ensures
        later >= earlier ==> earlier + since(later, earlier) == later,
        later <= earlier ==> since(later, earlier) == 0,
{
}

/// Each arrival gap is the time between its own two frames
pub proof fn lemma_each_arrival_gap_is_its_own(frames: Seq<Frame>)
    requires
        frames.len() >= 1,
    ensures
        arrival_gaps(frames).len() == frames.len() - 1,
        forall|i: int|
            0 <= i < frames.len() - 1 && frames[i].at <= frames[i + 1].at ==> frames[i].at
                + #[trigger] arrival_gaps(frames)[i] == frames[i + 1].at,
        forall|i: int|
            0 <= i < frames.len() - 1 && frames[i].at > frames[i + 1].at
                ==> #[trigger] arrival_gaps(frames)[i] == 0,
{
}

/// Each camera gap is how far the camera's clock moved between its own two frames, if
/// that is less than a full turn
pub proof fn lemma_each_camera_gap_is_its_own(frames: Seq<Frame>, moved: Seq<nat>)
    requires
        frames.len() >= 1,
        moved.len() == frames.len() - 1,
        forall|i: int|
            0 <= i < moved.len() ==> #[trigger] moved[i] < 0x1_0000_0000 && frames[i + 1].cam_us
                == (frames[i].cam_us + moved[i]) % 0x1_0000_0000,
    ensures
        camera_gaps(frames).len() == moved.len(),
        forall|i: int| 0 <= i < moved.len() ==> #[trigger] camera_gaps(frames)[i] == moved[i],
{
    assert forall|i: int| 0 <= i < moved.len() implies #[trigger] camera_gaps(frames)[i]
        == moved[i] by {
        lemma_the_clock_survives_its_rollover(frames[i].cam_us, moved[i]);
    }
}

/// Where the camera's timestamps do not start over, the gaps between them add up to the
/// time from the first to the last
pub proof fn lemma_camera_gaps_add_up(frames: Seq<Frame>)
    requires
        frames.len() >= 1,
        forall|i: int, j: int|
            0 <= i <= j < frames.len() ==> frames[i].cam_us <= frames[j].cam_us,
    ensures
        frames[0].cam_us + total(camera_gaps(frames)) == frames.last().cam_us,
    decreases frames.len(),
{
    if frames.len() > 1 {
        let before = frames.drop_last();
        lemma_camera_gaps_add_up(before);
        assert(camera_gaps(frames).drop_last() =~= camera_gaps(before));
        assert(before.last() == frames[frames.len() - 2]);
    } else {
        assert(camera_gaps(frames) =~= Seq::<u64>::empty());
    }
}

/// The total of some values is their sum
pub proof fn lemma_total_is_the_sum(values: Seq<u64>)
    ensures
        total(values) == values.fold_left(0int, |sum: int, value: u64| sum + value),
    decreases values.len(),
{
    if values.len() > 0 {
        lemma_total_is_the_sum(values.drop_last());
    }
}

/// The size of some frames together is the sum of their sizes
pub proof fn lemma_bytes_are_the_sum(frames: Seq<Frame>)
    ensures
        bytes(frames) == frames.fold_left(0int, |sum: int, frame: Frame| sum + frame.len),
    decreases frames.len(),
{
    if frames.len() > 0 {
        lemma_bytes_are_the_sum(frames.drop_last());
    }
}

/// The key frames that are counted are those marked as such
pub proof fn lemma_key_frames_are_the_marked_ones(frames: Seq<Frame>)
    ensures
        key_frames(frames) == frames.filter(|frame: Frame| frame.iframe).len(),
    decreases frames.len(),
{
    reveal(Seq::filter);
    if frames.len() > 0 {
        lemma_key_frames_are_the_marked_ones(frames.drop_last());
    }
}

/// Where frames land in order, the gaps between them add up to the time from the
/// first to the last
pub proof fn lemma_arrival_gaps_add_up(frames: Seq<Frame>)
    requires
        frames.len() >= 1,
        forall|i: int, j: int| 0 <= i <= j < frames.len() ==> frames[i].at <= frames[j].at,
    ensures
        total(arrival_gaps(frames)) == since(frames.last().at, frames[0].at),
    decreases frames.len(),
{
    if frames.len() > 1 {
        let before = frames.drop_last();
        lemma_arrival_gaps_add_up(before);
        assert(arrival_gaps(frames).drop_last() =~= arrival_gaps(before));
        assert(before.last() == frames[frames.len() - 2]);
    } else {
        assert(arrival_gaps(frames) =~= Seq::<u64>::empty());
    }
}

/// The nearest rank is the smallest that covers the given hundredths of the values
pub proof fn lemma_the_rank_covers_its_share(percent: nat, n: nat)
    requires
        0 < percent <= 100,
        n > 0,
    ensures
        ({
            let i = percentile_index(percent, n);
            i < n && 100 * i < percent * n <= 100 * (i + 1)
        }),
{
    assert(0 < percent * n <= 100 * n) by (nonlinear_arith)
        requires
            0 < percent <= 100,
            n > 0,
    ;
}

/// A percentile of values in rising order is the first of them up to which there are at
/// least the given hundredths. Nothing at all is covered by the first value already, and
/// more than all by none but the last.
pub proof fn lemma_a_percentile_covers_its_share(sorted: Seq<u64>, percent: nat, i: int)
    requires
        0 <= i < sorted.len(),
        100 * i < percent * sorted.len() || i == 0,
        percent * sorted.len() <= 100 * (i + 1) || i == sorted.len() - 1,
    ensures
        nearest_rank(sorted, percent) == sorted[i],
{
    let n = sorted.len();
    let covered = percent * n;
    assert(covered >= 0);
}

/// A higher percentile never stands earlier
pub proof fn lemma_percentiles_rise(low: nat, high: nat, n: nat)
    requires
        low <= high,
        n > 0,
    ensures
        percentile_index(low, n) <= percentile_index(high, n) < n,
{
    assert(low * n <= high * n) by (nonlinear_arith)
        requires
            low <= high,
    ;
}

/// The summary of a set of intervals is in order, every interval lies between its
/// extremes, and so does their mean
pub proof fn lemma_intervals_are_in_order(summary: Intervals, values: Seq<u64>)
    requires
        values.len() > 0,
        describes(summary, values),
    ensures
        summary.min <= summary.p50 <= summary.p95 <= summary.p99 <= summary.max,
        forall|i: int| 0 <= i < values.len() ==> summary.min <= #[trigger] values[i] <= summary.max,
        summary.count * summary.min <= summary.total <= summary.count * summary.max,
{
    let leq = |a: u64, b: u64| a <= b;
    let sorted = rising(values);
    let n = values.len();
    values.lemma_sort_by_ensures(leq);
    values.to_multiset_ensures();
    sorted.to_multiset_ensures();
    assert(sorted.len() == n);
    lemma_percentiles_rise(50, 95, n);
    lemma_percentiles_rise(95, 99, n);
    assert(forall|i: int, j: int|
        0 <= i < j < n ==> leq(#[trigger] sorted[i], #[trigger] sorted[j]));
    assert forall|i: int| 0 <= i < n implies summary.min <= #[trigger] values[i]
        <= summary.max by {
        assert(values.contains(values[i]));
        assert(sorted.to_multiset().contains(values[i]));
        assert(sorted.contains(values[i]));
    }
    lemma_total_between(values, summary.min, summary.max);
}

/// What the summary of a set of intervals says of them once they are in rising order:
/// how many there are, their sum, the first, the last, and the first up to which there
/// are at least fifty, ninety-five and ninety-nine hundredths of them
pub proof fn lemma_what_intervals_say(
    summary: Intervals,
    values: Seq<u64>,
    sorted: Seq<u64>,
    i: int,
    j: int,
    k: int,
)
    requires
        values.len() > 0,
        describes(summary, values),
        sorted.to_multiset() == values.to_multiset(),
        forall|a: int, b: int| 0 <= a <= b < sorted.len() ==> sorted[a] <= sorted[b],
        0 <= i && 100 * i < 50 * values.len() <= 100 * (i + 1),
        0 <= j && 100 * j < 95 * values.len() <= 100 * (j + 1),
        0 <= k && 100 * k < 99 * values.len() <= 100 * (k + 1),
    ensures
        summary.count == values.len(),
        summary.total == values.fold_left(0int, |sum: int, value: u64| sum + value),
        summary.min == sorted[0],
        summary.max == sorted[sorted.len() - 1],
        summary.p50 == sorted[i],
        summary.p95 == sorted[j],
        summary.p99 == sorted[k],
{
    lemma_rising(values, sorted);
    lemma_total_is_the_sum(values);
    lemma_a_percentile_covers_its_share(sorted, 50, i);
    lemma_a_percentile_covers_its_share(sorted, 95, j);
    lemma_a_percentile_covers_its_share(sorted, 99, k);
}

/// What the summary of a measurement says of its frames: how many came, how many were
/// key frames, how large they were together, how long they took by either clock, and
/// how far the clocks have parted
pub proof fn lemma_what_a_report_says(summary: Summary, frames: Seq<Frame>, stall_ms: u64)
    requires
        frames.len() >= 2,
        summarises(summary, frames, stall_ms),
    ensures
        summary.frames == frames.len(),
        summary.iframes == frames.filter(|frame: Frame| frame.iframe).len(),
        summary.total_bytes == frames.fold_left(0int, |sum: int, frame: Frame| sum + frame.len),
        frames[0].at <= frames.last().at ==> frames[0].at + summary.wall_elapsed
            == frames.last().at,
        frames[0].at > frames.last().at ==> summary.wall_elapsed == 0,
        (frames[0].cam_us + summary.cam_elapsed) % 0x1_0000_0000 == frames.last().cam_us,
        summary.drift == summary.wall_elapsed - 1000 * summary.cam_elapsed,
        summary.arrival.count == frames.len() - 1,
        summary.camera.count == frames.len() - 1,
        describes(summary.arrival, arrival_gaps(frames)),
        describes(summary.camera, camera_gaps(frames)),
{
    lemma_key_frames_are_the_marked_ones(frames);
    lemma_bytes_are_the_sum(frames);
}

/// The arrival intervals of a measurement span the gaps between its frames: each lies
/// between the shortest and the longest, both of which occur, and where frames land in
/// order they add up to the time from the first to the last
pub proof fn lemma_arrival_intervals_span_the_gaps(
    summary: Summary,
    frames: Seq<Frame>,
    stall_ms: u64,
)
    requires
        frames.len() >= 2,
        summarises(summary, frames, stall_ms),
        forall|i: int, j: int| 0 <= i <= j < frames.len() ==> frames[i].at <= frames[j].at,
    ensures
        forall|i: int|
            0 <= i < frames.len() - 1 ==> summary.arrival.min <= (#[trigger] frames[i + 1]).at
                - frames[i].at <= summary.arrival.max,
        exists|i: int|
            0 <= i < frames.len() - 1 && (#[trigger] frames[i + 1]).at - frames[i].at
                == summary.arrival.min,
        exists|i: int|
            0 <= i < frames.len() - 1 && (#[trigger] frames[i + 1]).at - frames[i].at
                == summary.arrival.max,
        frames[0].at + summary.arrival.total == frames.last().at,
{
    let gaps = arrival_gaps(frames);
    lemma_intervals_are_in_order(summary.arrival, gaps);
    lemma_arrival_gaps_add_up(frames);
    let (a, b) = lemma_extremes_occur(summary.arrival, gaps);
    assert(frames[a + 1].at - frames[a].at == summary.arrival.min);
    assert(frames[b + 1].at - frames[b].at == summary.arrival.max);
    assert forall|i: int| 0 <= i < frames.len() - 1 implies summary.arrival.min <= (
    #[trigger] frames[i + 1]).at - frames[i].at <= summary.arrival.max by {
        assert(gaps[i] == frames[i + 1].at - frames[i].at);
    }
}

/// The camera intervals of a measurement span how far the camera's clock moved from each
/// frame to the next: each lies between the shortest and the longest, both of which
/// occur, and where the timestamps do not start over they add up to the time from the
/// first to the last
pub proof fn lemma_camera_intervals_span_the_gaps(
    summary: Summary,
    frames: Seq<Frame>,
    stall_ms: u64,
    moved: Seq<nat>,
)
    requires
        frames.len() >= 2,
        summarises(summary, frames, stall_ms),
        moved.len() == frames.len() - 1,
        forall|i: int|
            0 <= i < moved.len() ==> #[trigger] moved[i] < 0x1_0000_0000 && frames[i + 1].cam_us
                == (frames[i].cam_us + moved[i]) % 0x1_0000_0000,
    ensures
        forall|i: int|
            0 <= i < moved.len() ==> summary.camera.min <= #[trigger] moved[i]
                <= summary.camera.max,
        exists|i: int| 0 <= i < moved.len() && #[trigger] moved[i] == summary.camera.min,
        exists|i: int| 0 <= i < moved.len() && #[trigger] moved[i] == summary.camera.max,
        (forall|i: int, j: int|
            0 <= i <= j < frames.len() ==> frames[i].cam_us <= frames[j].cam_us)
            ==> frames[0].cam_us + summary.camera.total == frames.last().cam_us,
{
    let gaps = camera_gaps(frames);
    lemma_each_camera_gap_is_its_own(frames, moved);
    lemma_intervals_are_in_order(summary.camera, gaps);
    let (a, b) = lemma_extremes_occur(summary.camera, gaps);
    assert(moved[a] == summary.camera.min);
    assert(moved[b] == summary.camera.max);
    assert forall|i: int| 0 <= i < moved.len() implies summary.camera.min <= #[trigger] moved[i]
        <= summary.camera.max by {
        assert(gaps[i] == moved[i]);
    }
    if forall|i: int, j: int| 0 <= i <= j < frames.len() ==> frames[i].cam_us <= frames[j].cam_us {
        lemma_camera_gaps_add_up(frames);
    }
}

/// Where the shortest and the longest interval stand
proof fn lemma_extremes_occur(summary: Intervals, values: Seq<u64>) -> (at: (int, int))
    requires
        values.len() > 0,
        describes(summary, values),
    ensures
        0 <= at.0 < values.len(),
        0 <= at.1 < values.len(),
        values[at.0] == summary.min,
        values[at.1] == summary.max,
{
    let sorted = rising(values);
    values.lemma_sort_by_ensures(|a: u64, b: u64| a <= b);
    values.to_multiset_ensures();
    sorted.to_multiset_ensures();
    assert(sorted.len() == values.len());
    assert(sorted.contains(sorted[0]) && sorted.contains(sorted[values.len() - 1]));
    assert(values.to_multiset().contains(sorted[0]));
    assert(values.to_multiset().contains(sorted[values.len() - 1]));
    (values.index_of(sorted[0]), values.index_of(sorted[values.len() - 1]))
}

proof fn lemma_total_between(values: Seq<u64>, low: u64, high: u64)
    requires
        forall|i: int| 0 <= i < values.len() ==> low <= #[trigger] values[i] <= high,
    ensures
        values.len() * low <= total(values) <= values.len() * high,
    decreases values.len(),
{
    if values.len() > 0 {
        let rest = values.drop_last();
        assert forall|i: int| 0 <= i < rest.len() implies low <= #[trigger] rest[i] <= high by {
            assert(rest[i] == values[i]);
        }
        lemma_total_between(rest, low, high);
        assert(values.len() * low == rest.len() * low + low) by (nonlinear_arith)
            requires
                values.len() == rest.len() + 1,
        ;
        assert(values.len() * high == rest.len() * high + high) by (nonlinear_arith)
            requires
                values.len() == rest.len() + 1,
        ;
    }
}

/// The stalls are, in order, exactly the gaps that were longer than the threshold: their
/// lengths are those gaps, and the stall of a gap stands behind as many as came before
/// it, with its own length and the moment at which it ended, counted from the first frame
pub proof fn lemma_stalls_are_the_long_gaps(frames: Seq<Frame>, stall_ms: u64)
    requires
        frames.len() >= 1,
    ensures
        ({
            let long = |gap: u64| gap > stall_ms * 1_000_000;
            let stalls = stalls_of(frames, stall_ms);
            let gaps = arrival_gaps(frames);
            &&& stalls.map_values(|stall: Stall| stall.gap) == gaps.filter(long)
            &&& forall|i: int|
                0 <= i < gaps.len() && #[trigger] gaps[i] > stall_ms * 1_000_000 ==> {
                    let k = gaps.take(i).filter(long).len() as int;
                    &&& k < stalls.len()
                    &&& stalls[k].gap == gaps[i]
                    &&& frames[0].at <= frames[i + 1].at ==> frames[0].at + stalls[k].at
                        == frames[i + 1].at
                    &&& frames[0].at > frames[i + 1].at ==> stalls[k].at == 0
                }
        }),
        forall|k: int|
            0 <= k < stalls_of(frames, stall_ms).len() ==> is_stall(
                (#[trigger] stalls_of(frames, stall_ms)[k]).gap,
                stall_ms,
            ),
        stalls_of(frames, stall_ms).len() == arrival_gaps(frames).filter(
            |gap: u64| is_stall(gap, stall_ms),
        ).len(),
{
    let long = |gap: u64| gap > stall_ms * 1_000_000;
    assert(long =~= (|gap: u64| is_stall(gap, stall_ms)));
    let stalls = stalls_of(frames, stall_ms);
    let gaps = arrival_gaps(frames);
    let lengths = stalls.map_values(|stall: Stall| stall.gap);
    lemma_stalls_among(frames, stall_ms, gaps.len());
    assert(gaps.take(gaps.len() as int) =~= gaps);
    assert forall|k: int| 0 <= k < stalls.len() implies is_stall(
        (#[trigger] stalls[k]).gap,
        stall_ms,
    ) by {
        gaps.lemma_filter_pred(long, k);
        assert(lengths[k] == stalls[k].gap);
    }
}

/// A measurement lists a stall for each gap between its frames that was longer than the
/// threshold: behind the stalls of the gaps before it, with the time between its two
/// frames and the time from the first frame to the one that ended it
pub proof fn lemma_a_report_lists_the_stalls(summary: Summary, frames: Seq<Frame>, stall_ms: u64)
    requires
        frames.len() >= 2,
        summarises(summary, frames, stall_ms),
        forall|i: int, j: int| 0 <= i <= j < frames.len() ==> frames[i].at <= frames[j].at,
    ensures
        ({
            let gaps = arrival_gaps(frames);
            let long = |gap: u64| gap > stall_ms * 1_000_000;
            &&& summary.stalls@.map_values(|stall: Stall| stall.gap) == gaps.filter(long)
            &&& forall|i: int|
                0 <= i < frames.len() - 1 && (#[trigger] frames[i + 1]).at - frames[i].at > stall_ms
                    * 1_000_000 ==> {
                    let k = gaps.take(i).filter(long).len() as int;
                    &&& k < summary.stalls@.len()
                    &&& summary.stalls@[k].gap == frames[i + 1].at - frames[i].at
                    &&& summary.stalls@[k].at == frames[i + 1].at - frames[0].at
                }
        }),
{
    let gaps = arrival_gaps(frames);
    lemma_stalls_are_the_long_gaps(frames, stall_ms);
    assert(forall|i: int|
        0 <= i < frames.len() - 1 ==> gaps[i] == (#[trigger] frames[i + 1]).at - frames[i].at);
}

proof fn lemma_stalls_among(frames: Seq<Frame>, stall_ms: u64, n: nat)
    requires
        frames.len() >= 1,
        n <= arrival_gaps(frames).len(),
    ensures
        ({
            let long = |gap: u64| gap > stall_ms * 1_000_000;
            let stalls = stalls_among(frames, stall_ms, n);
            let gaps = arrival_gaps(frames);
            &&& stalls.map_values(|stall: Stall| stall.gap) == gaps.take(n as int).filter(long)
            &&& forall|i: int|
                0 <= i < n && #[trigger] gaps[i] > stall_ms * 1_000_000 ==> {
                    let k = gaps.take(i).filter(long).len() as int;
                    &&& k < stalls.len()
                    &&& stalls[k] == (Stall { at: since(frames[i + 1].at, frames[0].at), gap: gaps[i] })
                }
        }),
    decreases n,
{
    reveal(Seq::filter);
    let long = |gap: u64| gap > stall_ms * 1_000_000;
    let length = |stall: Stall| stall.gap;
    let gaps = arrival_gaps(frames);
    let stalls = stalls_among(frames, stall_ms, n);
    if n > 0 {
        let before = stalls_among(frames, stall_ms, (n - 1) as nat);
        lemma_stalls_among(frames, stall_ms, (n - 1) as nat);
        let taken = gaps.take(n as int);
        assert(taken.drop_last() =~= gaps.take(n - 1));
        assert(taken.last() == gaps[n - 1]);
        assert(before.map_values(length).len() == before.len());
        if is_stall(gaps[n - 1], stall_ms) {
            assert(stalls.map_values(length) =~= before.map_values(length).push(gaps[n - 1]));
        }
    } else {
        assert(gaps.take(0) =~= Seq::<u64>::empty());
        assert(stalls.map_values(length) =~= Seq::<u64>::empty());
    }
}

} // verus!
