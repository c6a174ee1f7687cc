//! Adjusting the camera while it is streaming.
//!
//! What the requests of the control page mean, what they do to the crop that is
//! being published, and what they are answered. The page listens on localhost only:
//! the controls are unauthenticated, so they are deliberately not reachable from the
//! network.
use crate::camera::LightState;
use crate::crop::{
    lemma_no_crop_keeps_the_whole_frame, lemma_nothing_takes_nothing,
    lemma_saving_then_loading_gives_the_same_crop, lemma_the_first_thing_wrong,
    lemma_what_is_published, recalled, remembered, Crop, CropError, CropShared,
};
use crate::single::portion_of;
use crate::text::{append_decimal, decimal, same};
use vstd::prelude::*;
use vstd::string::*;

pub mod cmdline;

verus! {

/// How many seconds the camera keeps the floodlight on for before turning it off by
/// itself
pub const FLOODLIGHT_DURATION: u16 = 180;

/// Where the page is served
#[derive(Clone, Copy, Debug, PartialEq, Eq)]
pub struct Address {
    /// The four numbers of the address
    pub octets: (u8, u8, u8, u8),
    pub port: u16,
}

impl Address {
    /// The address in words
    pub open spec fn description(self) -> Seq<char> {
        decimal(self.octets.0 as nat) + "."@ + decimal(self.octets.1 as nat) + "."@ + decimal(
            self.octets.2 as nat,
        ) + "."@ + decimal(self.octets.3 as nat) + ":"@ + decimal(self.port as nat)
    }

    /// Whether only programs on the same machine can reach it
    pub open spec fn local(self) -> bool {
        self.octets.0 == 127
    }

    /// The address in words
    pub fn describe(&self) -> (text: String)
        ensures
            text@ == self.description(),
    {
        let mut text = String::new();
        append_decimal(&mut text, self.octets.0 as u64);
        assert(text@ =~= decimal(self.octets.0 as nat));
        text.append(".");
        append_decimal(&mut text, self.octets.1 as u64);
        text.append(".");
        append_decimal(&mut text, self.octets.2 as u64);
        text.append(".");
        append_decimal(&mut text, self.octets.3 as u64);
        text.append(":");
        append_decimal(&mut text, self.port as u64);
        text
    }
}

/// Where to listen
///
/// Localhost only. These controls have no authentication, so binding any other
/// interface would hand camera control to the whole network.
pub fn listen_address(port: u16) -> (address: Address)
    ensures
        address.octets == (127u8, 0u8, 0u8, 1u8),
        address.port == port,
        address.local(),
{
    Address { octets: (127, 0, 0, 1), port }
}

/// What is said of the place to listen names the local address and the port asked for
pub proof fn lemma_the_address_in_words(octets: (u8, u8, u8, u8), port: u16)
    ensures
        (Address { octets, port }).description() == decimal(octets.0 as nat) + "."@ + decimal(
            octets.1 as nat,
        ) + "."@ + decimal(octets.2 as nat) + "."@ + decimal(octets.3 as nat) + ":"@ + decimal(
            port as nat,
        ),
        (Address { octets, port }).local() <==> octets.0 == 127,
{
}

/// Why a request is refused
#[derive(Debug)]
pub enum UiError {
    /// There is nothing that a crop could apply to
    NoStream,
    /// Whoever held the crop last did not finish
    LeftLocked,
    /// The crop does not make sense
    Crop(CropError),
    /// The illuminator has no such state
    UnknownIr(String),
}

/// How a text is shown inside a message: in quotes, with what cannot be printed
/// written out
pub uninterp spec fn quoted(text: Seq<char>) -> Seq<char>;

/// `<str as std::fmt::Debug>::fmt`, by way of `format!`: a text in quotes, with the
/// characters that need it escaped. Which those are is not stated, only that the same
/// text is always shown the same way.
#[verifier::external_body]
fn quote(text: &str) -> (shown: String)
    ensures
        shown@ == quoted(text@),
{
    format!("{:?}", text)
}

/// What is said of a state that the illuminator does not have
pub open spec fn unknown_ir(shown: Seq<char>) -> Seq<char> {
    "Unknown ir state "@ + shown + ", expected on, off or auto"@
}

/// What is said of a state that the illuminator does not have, given how it is shown
pub fn unknown_ir_text(shown: &str) -> (text: String)
    ensures
        text@ == unknown_ir(shown@),
        text@ == "Unknown ir state "@ + shown@ + ", expected on, off or auto"@,
{
    let mut text = "Unknown ir state ".to_owned();
    text.append(shown);
    text.append(", expected on, off or auto");
    text
}

impl UiError {
    /// The reason in words. `shown` is the number at fault of a crop, as it is to be
    /// shown.
    pub open spec fn description(self, shown: Seq<char>) -> Seq<char> {
        match self {
            UiError::NoStream =>
                "There is no Syphon stream to crop. Run `neolink syphon --ui`"@,
            UiError::LeftLocked => "The crop was left locked by a panic"@,
            UiError::Crop(error) => error.description(shown),
            UiError::UnknownIr(state) => unknown_ir(quoted(state@)),
        }
    }

    /// The reason in words. `shown` is the number at fault of a crop, as it is to be
    /// shown.
    pub fn describe(&self, shown: &str) -> (text: String)
        ensures
            text@ == self.description(shown@),
    {
        match self {
            UiError::NoStream =>
                "There is no Syphon stream to crop. Run `neolink syphon --ui`".to_owned(),
            UiError::LeftLocked => "The crop was left locked by a panic".to_owned(),
            UiError::Crop(error) => error.describe(shown),
            UiError::UnknownIr(state) => {
                let shown = quote(state.as_str());
                unknown_ir_text(shown.as_str())
            },
        }
    }
}

/// Every reason is given in its own words, with what was asked for in it
pub proof fn lemma_the_reasons_in_words(error: CropError, state: String, shown: Seq<char>)
    ensures
        UiError::NoStream.description(shown)
            == "There is no Syphon stream to crop. Run `neolink syphon --ui`"@,
        UiError::LeftLocked.description(shown) == "The crop was left locked by a panic"@,
        UiError::Crop(error).description(shown) == error.description(shown),
        UiError::UnknownIr(state).description(shown) == "Unknown ir state "@ + quoted(state@)
            + ", expected on, off or auto"@,
{
}

/// What the infrared illuminator is asked to do
#[derive(Clone, Copy, Debug, PartialEq, Eq, Structural)]
pub enum Ir {
    On,
    Off,
    Auto,
}

impl Ir {
    /// What the camera is told
    pub fn light_state(self) -> (state: LightState)
        ensures
            state == (match self {
                Ir::On => LightState::On,
                Ir::Off => LightState::Off,
                Ir::Auto => LightState::Auto,
            }),
    {
        match self {
            Ir::On => LightState::On,
            Ir::Off => LightState::Off,
            Ir::Auto => LightState::Auto,
        }
    }
}

/// What a state of the illuminator is called in a request
pub open spec fn ir_name(ir: Ir) -> Seq<char> {
    match ir {
        Ir::On => "on"@,
        Ir::Off => "off"@,
        Ir::Auto => "auto"@,
    }
}

/// The state of the illuminator that a request asks for
pub fn requested_ir(state: &str) -> (ir: Result<Ir, UiError>)
    ensures
        match ir {
            Ok(ir) => {
                &&& state@ == ir_name(ir)
                &&& state@ == (match ir {
                    Ir::On => "on"@,
                    Ir::Off => "off"@,
                    Ir::Auto => "auto"@,
                })
            },
            Err(UiError::UnknownIr(other)) => {
                &&& other@ == state@
                &&& state@ != "on"@ && state@ != "off"@ && state@ != "auto"@
                &&& forall|ir: Ir| state@ != #[trigger] ir_name(ir)
            },
            Err(_) => false,
        },
{
    if same(state, "on") {
        Ok(Ir::On)
    } else if same(state, "off") {
        Ok(Ir::Off)
    } else if same(state, "auto") {
        Ok(Ir::Auto)
    } else {
        Err(UiError::UnknownIr(state.to_owned()))
    }
}

/// No two states of the illuminator are called the same, so what a request asks for
/// is never in doubt
pub proof fn lemma_ir_names_differ(a: Ir, b: Ir)
    ensures
        ir_name(a) == ir_name(b) ==> a == b,
        ir_name(Ir::On) == "on"@,
        ir_name(Ir::Off) == "off"@,
        ir_name(Ir::Auto) == "auto"@,
{
    reveal_strlit("on");
    reveal_strlit("off");
    reveal_strlit("auto");
    assert("on"@.len() == 2 && "off"@.len() == 3 && "auto"@.len() == 4);
}

/// How long the floodlight is to stay on: what was asked for, or the usual
pub fn floodlight_duration(asked: Option<u16>) -> (seconds: u16)
    ensures
        seconds == (match asked {
            Some(seconds) => seconds,
            None => FLOODLIGHT_DURATION,
        }),
{
    match asked {
        Some(seconds) => seconds,
        None => FLOODLIGHT_DURATION,
    }
}

/// How far a camera can zoom and where it is, in its own units
#[derive(Clone, Copy, Debug, PartialEq, Eq, Structural)]
pub struct ZoomState {
    pub min: u32,
    pub max: u32,
    pub cur: u32,
}

/// What a camera says of its lights
#[derive(Debug)]
pub struct LedState {
    /// The infrared illuminator
    pub state: String,
    /// The blue status light
    pub light_state: String,
}

/// Current zoom bounds, IR state and status light state
#[derive(Debug)]
pub struct CameraState {
    pub zoom: ZoomState,
    pub ir: String,
    pub status_light: String,
}

/// What the page is told of a camera
///
/// One answer covers both lights: `state` is the IR illuminator and `light_state` is
/// the blue status LED.
pub fn camera_state(zoom: ZoomState, leds: LedState) -> (state: CameraState)
    ensures
        state.zoom == zoom,
        state.ir@ == leds.state@,
        state.status_light@ == leds.light_state@,
{
    CameraState { zoom, ir: leds.state, status_light: leds.light_state }
}

/// What the page needs to draw and apply a crop
#[derive(Debug)]
pub struct CropState {
    /// False when there is no Syphon stream to crop, so the page hides it all
    pub supported: bool,
    /// The camera being published, which is not necessarily the one on screen
    pub camera: Option<String>,
    pub crop: Crop,
    /// The full frame size, so the page can show what a crop comes to in pixels
    pub source_width: Option<u32>,
    pub source_height: Option<u32>,
}

/// Whether this is what the page is told of a crop, or of there being none to tell of
pub open spec fn shows(state: CropState, shared: Option<CropShared>) -> bool {
    match shared {
        Some(shared) => {
            &&& state.supported
            &&& state.camera matches Some(camera) && camera@ == shared.camera@
            &&& state.crop == shared.crop
            &&& match shared.source {
                Some((width, height)) => state.source_width == Some(width) && state.source_height
                    == Some(height),
                None => state.source_width is None && state.source_height is None,
            }
        },
        None => {
            &&& !state.supported
            &&& state.camera is None
            &&& state.crop == Crop::nothing()
            &&& state.source_width is None
            &&& state.source_height is None
        },
    }
}

/// What the page is told of the crop, if there is a stream to crop
pub fn get_crop(shared: Option<&CropShared>) -> (state: CropState)
    ensures
        shows(
            state,
            match shared {
                Some(shared) => Some(*shared),
                None => None,
            },
        ),
        match shared {
            Some(shared) => {
                &&& state.supported
                &&& state.camera matches Some(camera) && camera@ == shared.camera@
                &&& state.crop == shared.crop
                &&& shared.source matches Some((width, height)) ==> state.source_width == Some(
                    width,
                ) && state.source_height == Some(height)
                &&& shared.source is None ==> state.source_width is None
                    && state.source_height is None
            },
            None => {
                &&& !state.supported
                &&& state.camera is None
                &&& state.crop == Crop::nothing()
                &&& state.source_width is None
                &&& state.source_height is None
            },
        },
{
    match shared {
        Some(shared) => {
            let (source_width, source_height) = match shared.source {
                Some((width, height)) => (Some(width), Some(height)),
                None => (None, None),
            };
            CropState {
                supported: true,
                camera: Some(shared.camera.clone()),
                crop: shared.crop,
                source_width,
                source_height,
            }
        },
        None => CropState {
            supported: false,
            camera: None,
            crop: Crop::default(),
            source_width: None,
            source_height: None,
        },
    }
}

/// Whether a crop may be applied: it makes sense and, if a frame has been seen, leaves
/// enough of it
pub open spec fn acceptable(crop: Crop, source: Option<(u32, u32)>) -> bool {
    &&& crop.checked() is Ok
    &&& source matches Some((width, height)) ==> crop.keeps_enough(width as nat, height as nat)
}

/// The same with another crop
pub open spec fn with_crop(shared: CropShared, crop: Crop) -> CropShared {
    CropShared {
        crop,
        source: shared.source,
        camera: shared.camera,
        state_file: shared.state_file,
    }
}

/// Whether this is what the request for a crop does to what is being published, and
/// what comes of it
///
/// A crop that may be applied takes the place of the one there was. One that may not
/// is refused for the first thing that is wrong with it, and nothing changes.
pub open spec fn changes(
    before: CropShared,
    after: CropShared,
    request: Crop,
    result: Result<(), UiError>,
) -> bool {
    match result {
        Ok(()) => {
            &&& acceptable(request, before.source)
            &&& after == with_crop(before, request)
        },
        Err(UiError::Crop(e)) => {
            &&& !acceptable(request, before.source)
            &&& after == before
            &&& match e {
                CropError::TooSmall { kept_width, kept_height, width, height } => {
                    &&& request.checked() is Ok
                    &&& before.source == Some((width, height))
                    &&& kept_width == request.cut(width as nat, height as nat).2
                    &&& kept_height == request.cut(width as nat, height as nat).3
                },
                _ => request.checked() == Err::<(), CropError>(e),
            }
        },
        Err(_) => false,
    }
}

/// Apply a crop to what is being published
///
/// It is checked against the real frame if one has arrived, so a crop that would
/// leave nothing is refused here rather than being quietly ignored later.
pub fn change_crop(shared: &mut CropShared, request: Crop) -> (result: Result<(), UiError>)
    ensures
        changes(*old(shared), *final(shared), request, result),
        result is Ok <==> request.checked() is Ok && (old(shared).source matches Some(
            (width, height),
        ) ==> request.keeps_enough(width as nat, height as nat)),
        result is Ok ==> final(shared).crop == request,
        result is Err ==> final(shared).crop == old(shared).crop,
        final(shared).source == old(shared).source,
        final(shared).camera == old(shared).camera,
        final(shared).state_file == old(shared).state_file,
{
    match shared.source {
        Some((width, height)) => match request.region(width, height) {
            Ok(_) => {},
            Err(e) => {
                return Err(UiError::Crop(e));
            },
        },
        None => match request.validate() {
            Ok(()) => {},
            Err(e) => {
                return Err(UiError::Crop(e));
            },
        },
    }
    shared.crop = request;
    Ok(())
}

/// Carry out the request for a crop, if there is a stream to crop
pub fn set_crop(shared: Option<&mut CropShared>, request: Crop) -> (result: Result<(), UiError>)
    ensures
        match shared {
            Some(shared) => {
                &&& changes(*shared, *final(shared), request, result)
                &&& result is Ok <==> request.checked() is Ok && (shared.source matches Some(
                    (width, height),
                ) ==> request.keeps_enough(width as nat, height as nat))
                &&& result is Ok ==> final(shared).crop == request
                &&& result is Err ==> final(shared).crop == shared.crop
                &&& final(shared).source == shared.source
                &&& final(shared).camera == shared.camera
                &&& final(shared).state_file == shared.state_file
            },
            None => result matches Err(UiError::NoStream),
        },
{
    match shared {
        Some(shared) => change_crop(shared, request),
        None => Err(UiError::NoStream),
    }
}

/// The page is shown the crop that was last applied, for the camera it was applied to
pub proof fn lemma_an_applied_crop_is_shown(shared: CropShared, request: Crop, state: CropState)
    requires
        shows(state, Some(with_crop(shared, request))),
    ensures
        state.supported,
        state.crop == request,
        state.camera matches Some(camera) && camera@ == shared.camera@,
{
}

/// A request for a crop that makes sense, and that leaves enough of the frame if one has
/// been seen, is always granted, and no other is. Once it is granted the crop is the one
/// that was requested, whichever that is, also if it takes nothing. Otherwise it is still
/// the one there was. Nothing else is touched.
pub proof fn lemma_a_granted_crop_is_the_requested_one(
    before: CropShared,
    after: CropShared,
    request: Crop,
    result: Result<(), UiError>,
)
    requires
        changes(before, after, request, result),
    ensures
        result is Ok <==> request.checked() is Ok && (before.source matches Some((width, height))
            ==> request.keeps_enough(width as nat, height as nat)),
        result is Ok ==> after.crop == request,
        result is Err ==> after.crop == before.crop,
        after.source == before.source,
        after.camera == before.camera,
        after.state_file == before.state_file,
{
}

/// Once a crop has been granted for a frame, that frame is published as far as the
/// requested crop keeps it: it starts as far from the left and the top as the request
/// takes off there, and ends as far from the right and the bottom
pub proof fn lemma_a_granted_crop_is_published(
    before: CropShared,
    after: CropShared,
    request: Crop,
    result: Result<(), UiError>,
    size: (u32, u32),
)
    requires
        changes(before, after, request, result),
        result is Ok,
        before.source == Some(size),
    ensures
        ({
            let (width, height) = (size.0 as nat, size.1 as nat);
            let (x, y, w, h) = after.published(width, height);
            &&& x == portion_of(request.left.magnitude(), width)
            &&& y == portion_of(request.top.magnitude(), height)
            &&& x + w + portion_of(request.right.magnitude(), width) == width
            &&& y + h + portion_of(request.bottom.magnitude(), height) == height
        }),
{
    lemma_what_is_published(after, size.0 as nat, size.1 as nat);
}

/// Asking for no crop takes off whatever crop there is, so that the whole frame is
/// published again, unless the frame itself is too small
pub proof fn lemma_a_crop_can_be_taken_off(
    before: CropShared,
    after: CropShared,
    result: Result<(), UiError>,
    width: u32,
    height: u32,
)
    requires
        changes(before, after, Crop::nothing(), result),
        before.source matches Some((w, h)) ==> w >= 128 && h >= 128,
    ensures
        result is Ok,
        after.crop == Crop::nothing(),
        after.published(width as nat, height as nat) == (0nat, 0nat, width as nat, height as nat),
{
    lemma_nothing_takes_nothing();
    lemma_no_crop_keeps_the_whole_frame(Crop::nothing(), width as nat, height as nat);
    if let Some((w, h)) = before.source {
        lemma_no_crop_keeps_the_whole_frame(Crop::nothing(), w as nat, h as nat);
    }
}

/// Once a crop has been granted, the page is shown the one that was requested, and if it
/// is saved, for the camera it was granted for, that is the one loaded on the next run
pub proof fn lemma_a_granted_crop_is_shown_and_kept(
    before: CropShared,
    after: CropShared,
    request: Crop,
    result: Result<(), UiError>,
    state: CropState,
    held: Option<Map<Seq<char>, Crop>>,
)
    requires
        changes(before, after, request, result),
        result is Ok,
        shows(state, Some(after)),
        held is Some,
    ensures
        state.crop == request,
        state.camera matches Some(camera) && camera@ == before.camera@,
        recalled(remembered(held, after.camera@, after.crop), before.camera@) == request,
{
    lemma_saving_then_loading_gives_the_same_crop(held, before.camera@, request);
}

/// A crop is refused for what is wrong with it: the first of its numbers that does not
/// make sense, or else for leaving too little of the frame, with what would be left
pub proof fn lemma_a_crop_is_refused_for_what_is_wrong(
    before: CropShared,
    after: CropShared,
    request: Crop,
    e: CropError,
)
    requires
        changes(before, after, request, Err(UiError::Crop(e))),
    ensures
        match e {
            CropError::TooSmall { kept_width, kept_height, width, height } => {
                &&& request.checked() is Ok
                &&& before.source == Some((width, height))
                &&& kept_width == request.cut(width as nat, height as nat).2
                &&& kept_height == request.cut(width as nat, height as nat).3
                &&& kept_width < 128 || kept_height < 128
            },
            _ => request.checked() == Err::<(), CropError>(e),
        },
        after == before,
{
    lemma_the_first_thing_wrong(request);
}

/// What the page is told of a stream is what is published of it, and that a crop is
/// supported exactly where there is one
pub proof fn lemma_what_the_page_is_told(state: CropState, shared: Option<CropShared>)
    requires
        shows(state, shared),
    ensures
        state.supported <==> shared is Some,
        state.camera is Some <==> shared is Some,
        shared matches Some(shared) ==> {
            &&& state.camera matches Some(camera) && camera@ == shared.camera@
            &&& state.crop == shared.crop
            &&& shared.source matches Some((width, height)) ==> state.source_width == Some(width)
                && state.source_height == Some(height)
            &&& shared.source is None ==> state.source_width is None && state.source_height is None
        },
        shared is None ==> {
            &&& state.crop == Crop::nothing()
            &&& state.source_width is None
            &&& state.source_height is None
        },
{
}

/// Whatever is requested, what is published goes on having a crop that makes sense
pub proof fn lemma_the_crop_keeps_making_sense(
    before: CropShared,
    after: CropShared,
    request: Crop,
    result: Result<(), UiError>,
)
    requires
        before.crop.checked() is Ok,
        changes(before, after, request, result),
    ensures
        after.crop.checked() is Ok,
{
}

/// A crop that was applied and saved is the one that is loaded on the next run
pub proof fn lemma_an_applied_crop_survives_a_restart(
    request: Crop,
    source: Option<(u32, u32)>,
    held: Option<Map<Seq<char>, Crop>>,
    camera: Seq<char>,
)
    requires
        acceptable(request, source),
        held is Some,
    ensures
        recalled(remembered(held, camera, request), camera) == request,
{
    lemma_saving_then_loading_gives_the_same_crop(held, camera, request);
}

/// What a request that was carried out is answered
#[derive(Debug)]
pub struct Reply {
    pub ok: bool,
    pub warning: Option<String>,
}

/// What the request for a crop that was applied is answered, given why it could not
/// be saved, if it could not
///
/// The stream matters more than remembering the crop, so a failure to save is
/// reported without undoing the change.
pub fn applied(not_saved: Option<&str>) -> (reply: Reply)
    ensures
        reply.ok,
        match not_saved {
            Some(reason) => reply.warning matches Some(warning) && warning@
                == "Applied, but not saved for next time: "@ + reason@,
            None => reply.warning is None,
        },
{
    match not_saved {
        Some(reason) => {
            let mut warning = "Applied, but not saved for next time: ".to_owned();
            warning.append(reason);
            Reply { ok: true, warning: Some(warning) }
        },
        None => Reply { ok: true, warning: None },
    }
}

} // verus!
