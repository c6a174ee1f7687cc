use neolink::camera::{Media, StreamKind, VideoType};
use neolink::framestats::cmdline::Stream;
use neolink::framestats::{
    intervals, listed, percentile, report, Collector, Frame, Intervals, Progress, Stall,
    StreamInfo,
};

const MS: u64 = 1_000_000;

fn frame(at: u64, cam_us: u32, len: usize, iframe: bool) -> Frame {
    Frame {
        at,
        cam_us,
        len,
        iframe,
    }
}

fn key(microseconds: u32, len: usize) -> Media {
    Media::Iframe {
        microseconds,
        video_type: VideoType::H265,
        len,
    }
}

fn other(microseconds: u32, len: usize) -> Media {
    Media::Pframe {
        microseconds,
        video_type: VideoType::H265,
        len,
    }
}

#[test]
fn each_packet_is_counted_as_what_it_is() {
    let mut collector = Collector::new(5, 0);
    assert_eq!(collector.record(10, key(1, 100)), None);
    assert_eq!(collector.record(20, Media::Audio), None);
    assert_eq!(collector.record(30, other(2, 50)), None);
    assert_eq!(
        collector.record(
            40,
            Media::Info {
                width: 640,
                height: 480,
                fps: 15
            }
        ),
        None
    );
    assert_eq!(
        collector.frames,
        vec![frame(10, 1, 100, true), frame(30, 2, 50, false)]
    );
    assert_eq!(collector.audio_packets, 1);
    assert_eq!(
        collector.info,
        Some(StreamInfo {
            width: 640,
            height: 480,
            fps: 15
        })
    );
}

#[test]
fn progress_comes_once_an_interval_has_passed() {
    let second = 1000 * MS;
    let mut collector = Collector::new(second, 2);
    assert_eq!(collector.record(second, key(0, 1)), None);
    assert_eq!(collector.record(3 * second - 1, other(0, 1)), None);
    assert_eq!(
        collector.record(3 * second, other(0, 1)),
        Some(Progress {
            elapsed: 2 * second,
            frames: 3,
            window: 3
        })
    );
    assert_eq!(collector.record(4 * second, other(0, 1)), None);
    assert_eq!(
        collector.record(5 * second + 7, Media::Audio),
        Some(Progress {
            elapsed: 4 * second + 7,
            frames: 4,
            window: 1
        })
    );
    // A packet from before the measurement started is no reason for a report
    let mut early = Collector::new(10 * second, 1);
    assert_eq!(early.record(5 * second, key(0, 1)), None);
}

#[test]
fn no_interval_means_no_progress() {
    let mut collector = Collector::new(0, 0);
    assert_eq!(collector.record(u64::MAX, key(0, 1)), None);
}

#[test]
fn too_few_frames_cannot_be_measured() {
    assert!(report(&[], 250).is_none());
    assert!(report(&[frame(0, 0, 1, true)], 250).is_none());
    assert!(report(&[frame(0, 0, 1, true), frame(1, 1, 1, false)], 250).is_some());
}

#[test]
fn a_measurement_is_summed_up() {
    let frames = [
        frame(100 * MS, 1000, 5000, true),
        frame(140 * MS, 41_000, 700, false),
        frame(440 * MS, 81_000, 800, false),
        frame(460 * MS, 121_000, 6000, true),
    ];
    let summary = report(&frames, 250).unwrap();
    assert_eq!(summary.frames, 4);
    assert_eq!(summary.iframes, 2);
    assert_eq!(summary.total_bytes, 12_500);
    assert_eq!(summary.wall_elapsed, 360 * MS);
    assert_eq!(summary.cam_elapsed, 120_000);
    assert_eq!(summary.drift, 240 * MS as i128);
    assert_eq!(
        summary.arrival,
        Intervals {
            count: 3,
            total: 360 * MS as u128,
            min: 20 * MS,
            max: 300 * MS,
            p50: 40 * MS,
            p95: 300 * MS,
            p99: 300 * MS
        }
    );
    assert_eq!(
        summary.camera,
        Intervals {
            count: 3,
            total: 120_000,
            min: 40_000,
            max: 40_000,
            p50: 40_000,
            p95: 40_000,
            p99: 40_000
        }
    );
    assert_eq!(
        summary.stalls,
        vec![Stall {
            at: 340 * MS,
            gap: 300 * MS
        }]
    );
    // The gaps add up to the time from the first frame to the last
    assert_eq!(summary.arrival.total, summary.wall_elapsed as u128);
}

#[test]
fn the_camera_clock_may_roll_over() {
    let frames = [
        frame(0, u32::MAX - 9_999, 1, true),
        frame(30 * MS, 20_000, 1, false),
    ];
    let summary = report(&frames, 250).unwrap();
    assert_eq!(summary.cam_elapsed, 30_000);
    assert_eq!(summary.camera.max, 30_000);
    assert_eq!(summary.drift, 0);
}

#[test]
fn the_camera_clock_may_be_ahead() {
    let frames = [frame(0, 0, 1, true), frame(10 * MS, 25_000, 1, false)];
    assert_eq!(report(&frames, 250).unwrap().drift, -15 * MS as i128);
}

#[test]
fn frames_out_of_order_leave_no_gap() {
    let frames = [frame(10 * MS, 0, 1, true), frame(5 * MS, 1, 1, false)];
    let summary = report(&frames, 250).unwrap();
    assert_eq!(summary.wall_elapsed, 0);
    assert_eq!(summary.arrival.max, 0);
}

#[test]
fn a_stall_is_longer_than_the_threshold() {
    for ms in 1..600u64 {
        let at = [frame(0, 0, 1, true), frame(ms * MS, 0, 1, false)];
        assert_eq!(report(&at, ms).unwrap().stalls.len(), 0);
        let over = [frame(0, 0, 1, true), frame(ms * MS + 1, 0, 1, false)];
        assert_eq!(report(&over, ms).unwrap().stalls.len(), 1);
    }
    let none = [frame(0, 0, 1, true), frame(u64::MAX, 0, 1, false)];
    assert_eq!(report(&none, u64::MAX).unwrap().stalls.len(), 0);
}

#[test]
fn intervals_are_put_in_order() {
    assert_eq!(intervals(&vec![]), None);
    assert_eq!(
        intervals(&vec![5, 1, 4, 2, 3]),
        Some(Intervals {
            count: 5,
            total: 15,
            min: 1,
            max: 5,
            p50: 3,
            p95: 5,
            p99: 5
        })
    );
    let many: Vec<u64> = (1..=200).rev().collect();
    let summary = intervals(&many).unwrap();
    assert_eq!((summary.p50, summary.p95, summary.p99), (100, 190, 198));
    assert_eq!((summary.min, summary.max, summary.total), (1, 200, 20_100));
}

#[test]
fn the_percentile_is_the_nearest_rank() {
    assert_eq!(percentile(&[], 50), 0);
    assert_eq!(percentile(&[7], 50), 7);
    assert_eq!(percentile(&[1, 2], 50), 1);
    assert_eq!(percentile(&[1, 2, 3], 50), 2);
    assert_eq!(percentile(&[1, 2, 3], 0), 1);
    assert_eq!(percentile(&[1, 2, 3], 100), 3);
    assert_eq!(percentile(&[1, 2, 3], 250), 3);
}

#[test]
fn the_percentile_agrees_with_the_machine() {
    let sorted: Vec<u64> = (0..3000).collect();
    for n in 1..3000usize {
        for (percent, p) in [(50u32, 0.50f64), (95, 0.95), (99, 0.99)] {
            let rank = (p * n as f64).ceil() as usize;
            let idx = rank.saturating_sub(1).min(n - 1);
            assert_eq!(percentile(&sorted[..n], percent), sorted[idx]);
        }
    }
}

#[test]
fn a_long_list_of_stalls_is_cut() {
    assert_eq!(listed(0), (0, 0));
    assert_eq!(listed(20), (20, 0));
    assert_eq!(listed(21), (20, 1));
    assert_eq!(listed(100), (20, 80));
}

#[test]
fn the_streams_to_measure() {
    assert_eq!(StreamKind::from(Stream::Main), StreamKind::Main);
    assert_eq!(StreamKind::from(Stream::Sub), StreamKind::Sub);
    assert_eq!(StreamKind::from(Stream::Extern), StreamKind::Extern);
}
