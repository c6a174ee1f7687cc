//! Republishing a camera's decoded video as a macOS Syphon server, so Syphon-aware
//! applications can read raw frames without going through RTSP.
//!
//! H264/H265 frames are pulled straight off the camera connection, decoded, and each
//! decoded frame is copied into a surface and published. Buffering is kept to an
//! absolute minimum throughout: nothing here is allowed to queue frames up.
use crate::camera::{Media, VideoType};
use cmdline::Opt;
use vstd::prelude::*;
use vstd::string::*;

pub mod cmdline;
pub mod gst;
pub mod publisher;

verus! {

/// How often to log the publishing rate, in nanoseconds
pub const LOG_EVERY: u64 = 10_000_000_000;

/// The name that the server is advertised under: the one asked for, or the camera's
pub fn server_name(opt: &Opt) -> (name: String)
    ensures
        name@ == (match opt.name {
            Some(name) => name@,
            None => opt.camera@,
        }),
{
    match &opt.name {
        Some(name) => name.clone(),
        None => opt.camera.clone(),
    }
}

/// The name of the thread that publishes a camera's frames
pub fn thread_name(camera: &str) -> (name: String)
    ensures
        name@ == camera@ + "::syphon"@,
{
    let mut name = camera.to_owned();
    name.append("::syphon");
    name
}

/// The codec of a packet that is worth decoding, which every video frame is and
/// nothing else
pub fn video_of(media: Media) -> (video: Option<VideoType>)
    ensures
        video == (match media {
            Media::Iframe { video_type, .. } => Some(video_type),
            Media::Pframe { video_type, .. } => Some(video_type),
            _ => None,
        }),
{
    match media {
        Media::Iframe { video_type, .. } => Some(video_type),
        Media::Pframe { video_type, .. } => Some(video_type),
        _ => None,
    }
}

/// How far publishing a camera has got
#[derive(Clone, Copy, Debug, PartialEq, Eq, Structural)]
pub enum Session {
    /// The codec is only known once a frame turns up, and the pipeline needs it to
    /// pick a parser, so nothing is built before the first frame
    AwaitingFirst,
    /// The pipeline has been built and the first frame is on its way into it
    Starting,
    /// The pipeline is running
    Streaming,
    /// There is nothing more to do
    Finished,
}

/// What happens to a session
#[derive(Clone, Copy, Debug, PartialEq, Eq, Structural)]
pub enum Event {
    /// A video frame came from the camera
    Frame(VideoType),
    /// The camera will send no more
    Closed,
    /// A frame was handed to the pipeline; `more` is false if the pipeline has finished
    /// and no more frames should be sent
    Pushed { more: bool },
}

/// What is to be done about it
#[derive(Clone, Copy, Debug, PartialEq, Eq, Structural)]
pub enum Action {
    /// Build the pipeline, start the publisher and push the frame
    Start(VideoType),
    /// Push the frame
    Push,
    /// Let the run loop deliver Syphon's discovery notifications, and go on
    Pump,
    /// End the stream and stop the pipeline
    Stop,
    /// Fail, since the camera sent no video frames
    Fail,
    /// Nothing
    Ignore,
}

impl Session {
    /// What a session does about an event
    pub open spec fn reaction(self, event: Event) -> (Session, Action) {
        match self {
            Session::AwaitingFirst => match event {
                Event::Frame(video_type) => (Session::Starting, Action::Start(video_type)),
                Event::Closed => (Session::Finished, Action::Fail),
                Event::Pushed { .. } => (Session::AwaitingFirst, Action::Ignore),
            },
            Session::Starting => match event {
                Event::Frame(_) => (Session::Starting, Action::Push),
                Event::Closed => (Session::Finished, Action::Stop),
                Event::Pushed { more: true } => (Session::Streaming, Action::Ignore),
                Event::Pushed { more: false } => (Session::Finished, Action::Stop),
            },
            Session::Streaming => match event {
                Event::Frame(_) => (Session::Streaming, Action::Push),
                Event::Closed => (Session::Finished, Action::Stop),
                Event::Pushed { more: true } => (Session::Streaming, Action::Pump),
                Event::Pushed { more: false } => (Session::Finished, Action::Stop),
            },
            Session::Finished => (Session::Finished, Action::Ignore),
        }
    }

    /// The session once some events have happened to it
    pub open spec fn after(self, events: Seq<Event>) -> Session
        decreases events.len(),
    {
        if events.len() == 0 {
            self
        } else {
            self.after(events.drop_last()).reaction(events.last()).0
        }
    }

    /// Take in one event and say what is to be done about it
    pub fn step(&mut self, event: Event) -> (action: Action)
        ensures
            (*final(self), action) == old(self).reaction(event),
    {
        let (next, action) = match *self {
            Session::AwaitingFirst => match event {
                Event::Frame(video_type) => (Session::Starting, Action::Start(video_type)),
                Event::Closed => (Session::Finished, Action::Fail),
                Event::Pushed { .. } => (Session::AwaitingFirst, Action::Ignore),
            },
            Session::Starting => match event {
                Event::Frame(_) => (Session::Starting, Action::Push),
                Event::Closed => (Session::Finished, Action::Stop),
                Event::Pushed { more } => if more {
                    (Session::Streaming, Action::Ignore)
                } else {
                    (Session::Finished, Action::Stop)
                },
            },
            Session::Streaming => match event {
                Event::Frame(_) => (Session::Streaming, Action::Push),
                Event::Closed => (Session::Finished, Action::Stop),
                Event::Pushed { more } => if more {
                    (Session::Streaming, Action::Pump)
                } else {
                    (Session::Finished, Action::Stop)
                },
            },
            Session::Finished => (Session::Finished, Action::Ignore),
        };
        *self = next;
        action
    }
}

/// Once something has been pushed or the session is over, the pipeline is not built
/// again: nothing leads back to waiting for the first frame
pub proof fn lemma_the_pipeline_is_built_once(session: Session, events: Seq<Event>, event: Event)
    requires
        session != Session::AwaitingFirst,
    ensures
        session.after(events) != Session::AwaitingFirst,
        !(session.after(events).reaction(event).1 is Start),
    decreases events.len(),
{
    if events.len() > 0 {
        lemma_the_pipeline_is_built_once(session, events.drop_last(), event);
    }
}

/// Nothing is pushed before the pipeline is built, and nothing is done once the
/// session is over
pub proof fn lemma_frames_need_a_pipeline(event: Event)
    ensures
        Session::AwaitingFirst.reaction(event).1 != Action::Push,
        Session::AwaitingFirst.reaction(event).1 != Action::Pump,
        Session::Finished.reaction(event) == (Session::Finished, Action::Ignore),
{
}

/// Once the pipeline has answered a frame, be it the first or a later one, with having
/// finished, the session stops, and nothing more is pushed or done whatever happens
pub proof fn lemma_a_finished_pipeline_is_sent_no_more(
    session: Session,
    events: Seq<Event>,
    event: Event,
)
    requires
        session is Starting || session is Streaming,
    ensures
        ({
            let (ended, action) = session.reaction(Event::Pushed { more: false });
            &&& action == Action::Stop
            &&& ended.after(events) == Session::Finished
            &&& ended.after(events).reaction(event).1 == Action::Ignore
        }),
    decreases events.len(),
{
    if events.len() > 0 {
        lemma_a_finished_pipeline_is_sent_no_more(session, events.drop_last(), events.last());
    }
}

/// Whether nothing among some events ends a session
pub open spec fn goes_on(events: Seq<Event>) -> bool {
    forall|i: int|
        0 <= i < events.len() ==> !(#[trigger] events[i] is Closed) && events[i] != (
        Event::Pushed { more: false })
}

/// Whether a frame is among some events
pub open spec fn has_frame(events: Seq<Event>) -> bool {
    exists|i: int| 0 <= i < events.len() && #[trigger] events[i] is Frame
}

/// Whether a frame among some events has been answered for
pub open spec fn has_answer(events: Seq<Event>) -> bool {
    exists|i: int, j: int|
        0 <= i < j < events.len() && #[trigger] events[i] is Frame && #[trigger] events[j] is Pushed
}

proof fn lemma_how_far_a_session_is(events: Seq<Event>)
    requires
        goes_on(events),
    ensures
        Session::AwaitingFirst.after(events) == (if !has_frame(events) {
            Session::AwaitingFirst
        } else if !has_answer(events) {
            Session::Starting
        } else {
            Session::Streaming
        }),
    decreases events.len(),
{
    if events.len() > 0 {
        let before = events.drop_last();
        let last = events.last();
        let n = events.len() - 1;
        assert(forall|i: int| 0 <= i < n ==> before[i] == events[i]);
        assert(goes_on(before));
        lemma_how_far_a_session_is(before);
        assert(events[n] == last);
        if has_frame(before) {
            let i = choose|i: int| 0 <= i < before.len() && #[trigger] before[i] is Frame;
            assert(events[i] is Frame);
            if last is Pushed {
                assert(events[i] is Frame && events[n] is Pushed);
            }
        }
        if has_answer(before) {
            let (i, j) = choose|i: int, j: int|
                0 <= i < j < before.len() && #[trigger] before[i] is Frame
                    && #[trigger] before[j] is Pushed;
            assert(events[i] is Frame && events[j] is Pushed);
        }
        if has_frame(events) && !(last is Frame) {
            let i = choose|i: int| 0 <= i < events.len() && #[trigger] events[i] is Frame;
            assert(before[i] is Frame);
        }
        if has_answer(events) {
            let (i, j) = choose|i: int, j: int|
                0 <= i < j < events.len() && #[trigger] events[i] is Frame
                    && #[trigger] events[j] is Pushed;
            assert(before[i] is Frame);
            if j < n {
                assert(before[j] is Pushed);
            }
        }
    }
}

/// As long as nothing ends a session, every frame of the camera is pushed. The first one
/// has the pipeline built for its own codec.
pub proof fn lemma_every_frame_is_pushed(events: Seq<Event>, video_type: VideoType)
    requires
        goes_on(events),
    ensures
        Session::AwaitingFirst.after(events).reaction(Event::Frame(video_type)).1 == (
        if has_frame(events) {
            Action::Push
        } else {
            Action::Start(video_type)
        }),
{
    lemma_how_far_a_session_is(events);
}

/// When the camera sends no more, a session that got a frame stops, and one that got none
/// fails. Either way nothing happens to it after that.
pub proof fn lemma_a_session_ends_with_the_camera(events: Seq<Event>, later: Event)
    requires
        goes_on(events),
    ensures
        ({
            let (ended, action) = Session::AwaitingFirst.after(events).reaction(Event::Closed);
            &&& action == (if has_frame(events) {
                Action::Stop
            } else {
                Action::Fail
            })
            &&& ended.reaction(later) == (ended, Action::Ignore)
        }),
{
    lemma_how_far_a_session_is(events);
}

/// The run loop is let run after every frame that was taken but the first
pub proof fn lemma_the_run_loop_is_pumped(events: Seq<Event>)
    requires
        goes_on(events),
    ensures
        Session::AwaitingFirst.after(events).reaction(Event::Pushed { more: true }).1 == (
        if has_answer(events) {
            Action::Pump
        } else {
            Action::Ignore
        }),
{
    lemma_how_far_a_session_is(events);
}

/// What came of asking for the next decoded frame
#[derive(Clone, Copy, Debug, PartialEq, Eq, Structural)]
pub enum Sample {
    /// There was one and it was published
    Published,
    /// There was one but it could not be published
    Failed,
    /// There will be no more
    Ended,
}

/// What has been published so far
#[derive(Clone, Copy, Debug, PartialEq, Eq, Structural)]
pub struct PublishCount {
    /// Frames published in all
    pub published: u64,
    /// Frames published since the rate was last logged
    pub since_log: u64,
}

/// The rate to log
#[derive(Clone, Copy, Debug, PartialEq, Eq, Structural)]
pub struct Rate {
    /// Frames published in all
    pub published: u64,
    /// Frames published since the rate was last logged
    pub frames: u64,
}

impl PublishCount {
    /// No more can be waiting to be logged than have been published
    pub open spec fn wf(self) -> bool {
        self.since_log <= self.published
    }

    /// Nothing published yet
    pub open spec fn nothing() -> PublishCount {
        PublishCount { published: 0, since_log: 0 }
    }

    /// The count once one more sample has come to something
    pub open spec fn counting(self, sample: Sample) -> PublishCount {
        if sample is Published {
            PublishCount {
                published: (self.published + 1) as u64,
                since_log: (self.since_log + 1) as u64,
            }
        } else {
            self
        }
    }

    /// The count once the rate has been logged, if it is time to
    pub open spec fn logging(self, elapsed: u64) -> PublishCount {
        if elapsed >= LOG_EVERY {
            PublishCount { published: self.published, since_log: 0 }
        } else {
            self
        }
    }

    /// The frames that are logged, if it is time to log any
    pub open spec fn logged(self, elapsed: u64) -> nat {
        if elapsed >= LOG_EVERY {
            self.since_log as nat
        } else {
            0
        }
    }

    /// The count after some samples, each with the time since the rate was last logged,
    /// and how many frames have been logged by then
    pub open spec fn after(samples: Seq<(Sample, u64)>) -> (PublishCount, nat)
        decreases samples.len(),
    {
        if samples.len() == 0 {
            (PublishCount::nothing(), 0)
        } else {
            let (count, logged) = PublishCount::after(samples.drop_last());
            let (sample, elapsed) = samples.last();
            let counted = count.counting(sample);
            (counted.logging(elapsed), logged + counted.logged(elapsed))
        }
    }

    /// Nothing published yet
    pub fn new() -> (count: PublishCount)
        ensures
            count.wf(),
            count == PublishCount::nothing(),
            count.published == 0,
            count.since_log == 0,
    {
        PublishCount { published: 0, since_log: 0 }
    }

    /// Count one frame, if it was published, and say whether to go on to the next
    ///
    /// A bad frame should not take the whole stream down, so it is only left out. It
    /// is over once there are no more frames.
    pub fn record(&mut self, sample: Sample) -> (go_on: bool)
        requires
            old(self).wf(),
            sample is Published ==> old(self).published < u64::MAX,
        ensures
            final(self).wf(),
            *final(self) == old(self).counting(sample),
            final(self).published == old(self).published + (if sample is Published {
                1int
            } else {
                0
            }),
            final(self).since_log == old(self).since_log + (if sample is Published {
                1int
            } else {
                0
            }),
            go_on == (sample is Published || sample is Failed),
    {
        match sample {
            Sample::Published => {
                self.published = self.published + 1;
                self.since_log = self.since_log + 1;
                true
            },
            Sample::Failed => true,
            Sample::Ended => false,
        }
    }

    /// The rate to log, if it is time to, given how long ago it was last logged
    ///
    /// Counting for the next one then starts over.
    pub fn rate(&mut self, elapsed: u64) -> (rate: Option<Rate>)
        requires
            old(self).wf(),
        ensures
            final(self).wf(),
            *final(self) == old(self).logging(elapsed),
            (match rate {
                Some(rate) => rate.frames as nat,
                None => 0,
            }) == old(self).logged(elapsed),
            rate is Some <==> elapsed >= 10_000_000_000,
            final(self).published == old(self).published,
            match rate {
                Some(rate) => {
                    &&& elapsed >= LOG_EVERY
                    &&& rate.published == old(self).published
                    &&& rate.frames == old(self).since_log
                    &&& final(self).since_log == 0
                },
                None => elapsed < LOG_EVERY && final(self).since_log == old(self).since_log,
            },
    {
        if elapsed >= LOG_EVERY {
            let rate = Rate { published: self.published, frames: self.since_log };
            self.since_log = 0;
            Some(rate)
        } else {
            None
        }
    }
}

/// However often the rate is logged, what has been published is the number of frames
/// that could be, and each of them is logged once or still waits to be
pub proof fn lemma_every_published_frame_is_counted_once(samples: Seq<(Sample, u64)>)
    requires
        samples.len() <= u64::MAX,
    ensures
        ({
            let (count, logged) = PublishCount::after(samples);
            &&& count.published == samples.filter(|s: (Sample, u64)| s.0 is Published).len()
            &&& logged + count.since_log == count.published
            &&& samples.len() > 0 && samples.last().1 >= 10_000_000_000 ==> count.since_log == 0
        }),
        samples.filter(|s: (Sample, u64)| s.0 is Published).len() <= samples.len(),
    decreases samples.len(),
{
    reveal(Seq::filter);
    if samples.len() > 0 {
        lemma_every_published_frame_is_counted_once(samples.drop_last());
    }
}

/// What has to happen to the server before a frame can be published
#[derive(Clone, Copy, Debug, PartialEq, Eq, Structural)]
pub enum Server {
    /// It has the size of the frame
    Keep,
    /// There is none yet
    Start,
    /// It has another size, so it is stopped before a new one starts
    Restart,
}

/// What has to happen to a server of the given size, if there is one
///
/// The server is sized to the video, which is only known once the first frame has
/// been decoded. It is rebuilt if the camera changes resolution.
pub fn server_for(current: Option<(u32, u32)>, width: u32, height: u32) -> (server: Server)
    ensures
        server == (match current {
            Some(size) => if size == (width, height) {
                Server::Keep
            } else {
                Server::Restart
            },
            None => Server::Start,
        }),
{
    match current {
        Some((w, h)) => if w == width && h == height {
            Server::Keep
        } else {
            Server::Restart
        },
        None => Server::Start,
    }
}

} // verus!
