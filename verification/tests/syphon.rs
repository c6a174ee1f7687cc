use neolink::camera::{Media, StreamKind, VideoType};
use neolink::syphon::cmdline::{Opt, Stream};
use neolink::syphon::gst::{
    format_name, has_room, keep_sending, launch_text, next_decoder, parser_name, Flow, PushError,
    SOURCE_MAX_BYTES,
};
use neolink::syphon::publisher::{part_of_frame, PublishError, Publisher, RING_SIZE};
use neolink::syphon::{
    server_for, server_name, thread_name, video_of, Action, Event, PublishCount, Rate, Sample,
    Server, Session, LOG_EVERY,
};

fn opt(name: Option<&str>) -> Opt {
    Opt {
        camera: "Driveway".to_string(),
        stream: Stream::Main,
        name: name.map(|n| n.to_string()),
        buffer: 100,
        ui: false,
        ui_port: 8080,
    }
}

#[test]
fn the_server_is_named_after_the_camera_unless_told_otherwise() {
    assert_eq!(server_name(&opt(None)), "Driveway");
    assert_eq!(server_name(&opt(Some("Front Door"))), "Front Door");
    assert_eq!(thread_name("Driveway"), "Driveway::syphon");
}

#[test]
fn the_streams_to_publish() {
    assert_eq!(StreamKind::from(Stream::Main), StreamKind::Main);
    assert_eq!(StreamKind::from(Stream::Sub), StreamKind::Sub);
    assert_eq!(StreamKind::from(Stream::Extern), StreamKind::Extern);
}

#[test]
fn only_video_is_decoded() {
    let iframe = Media::Iframe {
        microseconds: 0,
        video_type: VideoType::H264,
        len: 1,
    };
    let pframe = Media::Pframe {
        microseconds: 0,
        video_type: VideoType::H265,
        len: 1,
    };
    assert_eq!(video_of(iframe), Some(VideoType::H264));
    assert_eq!(video_of(pframe), Some(VideoType::H265));
    assert_eq!(video_of(Media::Audio), None);
    assert_eq!(
        video_of(Media::Info {
            width: 1,
            height: 1,
            fps: 1
        }),
        None
    );
}

#[test]
fn a_session_runs_from_its_first_frame_to_the_end() {
    let mut session = Session::AwaitingFirst;
    assert_eq!(
        session.step(Event::Frame(VideoType::H265)),
        Action::Start(VideoType::H265)
    );
    assert_eq!(session.step(Event::Pushed { more: true }), Action::Ignore);
    assert_eq!(session, Session::Streaming);
    assert_eq!(session.step(Event::Frame(VideoType::H265)), Action::Push);
    assert_eq!(session.step(Event::Pushed { more: true }), Action::Pump);
    assert_eq!(session.step(Event::Frame(VideoType::H264)), Action::Push);
    assert_eq!(session.step(Event::Pushed { more: false }), Action::Stop);
    assert_eq!(session, Session::Finished);
    assert_eq!(session.step(Event::Frame(VideoType::H265)), Action::Ignore);
}

#[test]
fn a_pipeline_that_finishes_at_the_first_frame_is_sent_no_more() {
    let mut session = Session::AwaitingFirst;
    assert_eq!(
        session.step(Event::Frame(VideoType::H264)),
        Action::Start(VideoType::H264)
    );
    assert_eq!(session.step(Event::Pushed { more: false }), Action::Stop);
    assert_eq!(session, Session::Finished);
    for event in [
        Event::Frame(VideoType::H264),
        Event::Pushed { more: true },
        Event::Closed,
    ] {
        assert_eq!(session.step(event), Action::Ignore);
    }
}

#[test]
fn a_session_ends_with_the_camera() {
    let mut silent = Session::AwaitingFirst;
    assert_eq!(silent.step(Event::Closed), Action::Fail);
    assert_eq!(silent, Session::Finished);

    for mut running in [Session::Starting, Session::Streaming] {
        assert_eq!(running.step(Event::Closed), Action::Stop);
        assert_eq!(running, Session::Finished);
    }
}

#[test]
fn the_rate_is_logged_every_ten_seconds() {
    let mut count = PublishCount::new();
    assert!(count.record(Sample::Published));
    assert!(count.record(Sample::Failed));
    assert!(count.record(Sample::Published));
    assert_eq!(count.rate(LOG_EVERY - 1), None);
    assert_eq!(
        count.rate(LOG_EVERY),
        Some(Rate {
            published: 2,
            frames: 2
        })
    );
    assert!(count.record(Sample::Published));
    assert_eq!(
        count.rate(LOG_EVERY + 5),
        Some(Rate {
            published: 3,
            frames: 1
        })
    );
    assert_eq!(LOG_EVERY, 10_000_000_000);
}

#[test]
fn only_the_end_of_the_frames_ends_publishing() {
    let mut count = PublishCount::new();
    for _ in 0..5 {
        assert!(count.record(Sample::Failed));
    }
    assert_eq!(count, PublishCount::new());
    assert!(count.record(Sample::Published));
    assert!(!count.record(Sample::Ended));
    assert_eq!((count.published, count.since_log), (1, 1));
}

#[test]
fn a_part_of_a_frame_is_found_in_its_bytes() {
    // 4x3 with rows of 20 bytes, the last without its padding
    assert_eq!(part_of_frame(4, 3, 56, 20, 0, 0), Ok(0));
    assert_eq!(part_of_frame(4, 3, 56, 20, 1, 2), Ok(44));
    assert_eq!(part_of_frame(4, 3, 56, 20, 4, 2), Ok(56));
    assert_eq!(
        part_of_frame(4, 3, 56, 15, 1, 2),
        Err(PublishError::SourceStride {
            stride: 15,
            width: 4
        })
    );
    assert_eq!(
        part_of_frame(4, 3, 55, 20, 1, 2),
        Err(PublishError::SourceSize {
            len: 55,
            width: 4,
            height: 3
        })
    );

    // What is left from there is enough for a publisher of that part
    let mut publisher = Publisher::new(3, 1);
    assert_eq!(publisher.begin(56 - 44, 20), Ok(0));
}

#[test]
fn the_server_has_the_size_of_the_video() {
    assert_eq!(server_for(None, 1920, 1080), Server::Start);
    assert_eq!(server_for(Some((1920, 1080)), 1920, 1080), Server::Keep);
    assert_eq!(server_for(Some((1920, 1080)), 1920, 1088), Server::Restart);
    assert_eq!(server_for(Some((1080, 1920)), 1920, 1080), Server::Restart);
}

#[test]
fn the_pipeline_is_described() {
    assert_eq!(
        launch_text(VideoType::H264, "vtdec_hw"),
        "appsrc name=thesource ! h264parse ! vtdec_hw ! videoconvert ! appsink name=thesink"
    );
    assert_eq!(
        launch_text(VideoType::H265, "decodebin"),
        "appsrc name=thesource ! h265parse ! decodebin ! videoconvert ! appsink name=thesink"
    );
    assert_eq!(parser_name(VideoType::H265), "h265parse");
    assert_eq!(format_name(VideoType::H264), "H264");
    assert_eq!(format_name(VideoType::H265), "H265");
}

#[test]
fn hardware_decoding_is_tried_first() {
    assert_eq!(next_decoder(0), Some("vtdec_hw"));
    assert_eq!(next_decoder(1), Some("decodebin"));
    assert_eq!(next_decoder(2), None);
}

#[test]
fn a_full_source_drops_the_frame() {
    assert!(has_room(0, SOURCE_MAX_BYTES));
    assert!(has_room(SOURCE_MAX_BYTES - 1, SOURCE_MAX_BYTES));
    assert!(!has_room(SOURCE_MAX_BYTES, SOURCE_MAX_BYTES));
    assert_eq!(SOURCE_MAX_BYTES, 4_194_304);
}

#[test]
fn sending_goes_on_until_the_pipeline_is_done() {
    assert_eq!(keep_sending(Flow::Dropped), Ok(true));
    assert_eq!(keep_sending(Flow::Accepted), Ok(true));
    assert_eq!(keep_sending(Flow::Flushing), Ok(false));
    assert_eq!(keep_sending(Flow::Eos), Ok(false));
    assert_eq!(keep_sending(Flow::Failed), Err(PushError));
}

#[test]
fn surfaces_take_turns() {
    let mut publisher = Publisher::new(2, 2);
    assert_eq!(publisher.dimensions(), (2, 2));
    let slots: Vec<usize> = (0..7).map(|_| publisher.begin(16, 8).unwrap()).collect();
    assert_eq!(slots, vec![0, 1, 2, 0, 1, 2, 0]);
    assert_eq!(RING_SIZE, 3);
}

#[test]
fn a_frame_that_does_not_fit_is_refused() {
    let mut publisher = Publisher::new(10, 4);
    let narrow = publisher.begin(1000, 39).unwrap_err();
    assert_eq!(
        narrow,
        PublishError::SourceStride {
            stride: 39,
            width: 10
        }
    );
    assert_eq!(
        narrow.describe(),
        "Source stride 39 is too small for a 10 pixel wide frame"
    );

    // The last row needs no padding
    let short = publisher.begin(3 * 50 + 39, 50).unwrap_err();
    assert_eq!(
        short,
        PublishError::SourceSize {
            len: 189,
            width: 10,
            height: 4
        }
    );
    assert_eq!(short.describe(), "Frame is 189 bytes, too small for 10x4");
    assert_eq!(publisher.begin(1, usize::MAX).is_err(), true);

    // A frame that is refused uses up no surface
    assert_eq!(publisher.begin(3 * 50 + 40, 50), Ok(0));

    let surface = publisher.check_surface(39).unwrap_err();
    assert_eq!(
        surface.describe(),
        "IOSurface stride 39 is too small for a 10 pixel wide frame"
    );
    assert_eq!(publisher.check_surface(40), Ok(()));
}

#[test]
fn rows_are_copied_upside_down() {
    let publisher = Publisher::new(1, 3);
    let src = [
        1, 2, 3, 4, 90, //
        5, 6, 7, 8, 91, //
        9, 10, 11, 12,
    ];
    let mut dst = [200u8; 20];
    publisher.copy(&src, 5, &mut dst, 6);
    assert_eq!(
        dst,
        [
            9, 10, 11, 12, 200, 200, //
            5, 6, 7, 8, 200, 200, //
            1, 2, 3, 4, 200, 200, //
            200, 200
        ]
    );
}

#[test]
fn copying_back_gives_the_picture_again() {
    let publisher = Publisher::new(3, 5);
    let src: Vec<u8> = (0..60).collect();
    let mut surface = vec![0u8; 5 * 64];
    publisher.copy(&src, 12, &mut surface, 64);
    let mut back = vec![0u8; 60];
    publisher.copy(&surface, 64, &mut back, 12);
    assert_eq!(back, src);
}
