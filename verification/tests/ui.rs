use neolink::camera::LightState;
use neolink::crop::{Crop, CropError, CropShared};
use neolink::single::Single;
use neolink::ui::{
    applied, camera_state, floodlight_duration, get_crop, listen_address, requested_ir, set_crop,
    unknown_ir_text, Ir, LedState, UiError, ZoomState,
};

fn crop(left: f32, right: f32, top: f32, bottom: f32) -> Crop {
    let single = |value: f32| Single {
        bits: value.to_bits(),
    };
    Crop {
        left: single(left),
        right: single(right),
        top: single(top),
        bottom: single(bottom),
    }
}

fn shared(source: Option<(u32, u32)>) -> CropShared {
    CropShared {
        crop: crop(0.25, 0.0, 0.0, 0.0),
        source,
        camera: "FlockOff".to_string(),
        state_file: "/etc/neolink.crop.toml".to_string(),
    }
}

#[test]
fn the_page_is_served_on_localhost_only() {
    let address = listen_address(8080);
    assert_eq!(address.octets, (127, 0, 0, 1));
    assert_eq!(address.port, 8080);
    assert_eq!(address.describe(), "127.0.0.1:8080");
    assert_eq!(listen_address(0).describe(), "127.0.0.1:0");
}

#[test]
fn the_illuminator_has_three_states() {
    assert_eq!(requested_ir("on").unwrap(), Ir::On);
    assert_eq!(requested_ir("off").unwrap(), Ir::Off);
    assert_eq!(requested_ir("auto").unwrap(), Ir::Auto);
    assert_eq!(Ir::On.light_state(), LightState::On);
    assert_eq!(Ir::Off.light_state(), LightState::Off);
    assert_eq!(Ir::Auto.light_state(), LightState::Auto);
}

#[test]
fn an_unknown_state_is_refused_with_what_was_asked() {
    for state in ["", "On", "on ", "dim"] {
        let error = requested_ir(state).unwrap_err();
        assert!(matches!(&error, UiError::UnknownIr(other) if other == state));
    }
    assert_eq!(
        requested_ir("di\"m").unwrap_err().describe(""),
        "Unknown ir state \"di\\\"m\", expected on, off or auto"
    );
    assert_eq!(
        unknown_ir_text("'x'"),
        "Unknown ir state 'x', expected on, off or auto"
    );
}

#[test]
fn the_floodlight_stays_on_for_three_minutes_unless_told_otherwise() {
    assert_eq!(floodlight_duration(None), 180);
    assert_eq!(floodlight_duration(Some(0)), 0);
    assert_eq!(floodlight_duration(Some(600)), 600);
}

#[test]
fn the_page_is_told_of_zoom_and_lights() {
    let zoom = ZoomState {
        min: 0,
        max: 33,
        cur: 5,
    };
    let leds = LedState {
        state: "auto".to_string(),
        light_state: "open".to_string(),
    };
    let state = camera_state(zoom, leds);
    assert_eq!(state.zoom, zoom);
    assert_eq!(state.ir, "auto");
    assert_eq!(state.status_light, "open");
}

#[test]
fn without_a_stream_there_is_no_crop_to_show() {
    let state = get_crop(None);
    assert!(!state.supported);
    assert!(state.camera.is_none());
    assert!(state.crop.is_none());
    assert_eq!((state.source_width, state.source_height), (None, None));
}

#[test]
fn the_crop_of_the_stream_is_shown() {
    let state = get_crop(Some(&shared(Some((3840, 2160)))));
    assert!(state.supported);
    assert_eq!(state.camera.as_deref(), Some("FlockOff"));
    assert_eq!(state.crop, crop(0.25, 0.0, 0.0, 0.0));
    assert_eq!(
        (state.source_width, state.source_height),
        (Some(3840), Some(2160))
    );
    let state = get_crop(Some(&shared(None)));
    assert_eq!((state.source_width, state.source_height), (None, None));
}

#[test]
fn an_applied_crop_is_shown() {
    let mut shared = shared(Some((3840, 2160)));
    let wanted = crop(0.1, 0.05, 0.3, 0.2);
    assert!(set_crop(Some(&mut shared), wanted).is_ok());
    assert_eq!(get_crop(Some(&shared)).crop, wanted);
    assert_eq!(shared.camera, "FlockOff");
    assert_eq!(shared.state_file, "/etc/neolink.crop.toml");
}

#[test]
fn a_crop_that_makes_no_sense_is_refused_and_changes_nothing() {
    for source in [None, Some((3840, 2160))] {
        let mut shared = shared(source);
        let error = set_crop(Some(&mut shared), crop(0.9, 0.0, 0.0, 0.0)).unwrap_err();
        assert!(matches!(error, UiError::Crop(CropError::Side { .. })));
        assert_eq!(shared.crop, crop(0.25, 0.0, 0.0, 0.0));
    }
}

#[test]
fn a_crop_too_small_for_the_frame_is_refused_once_there_is_one() {
    let tight = crop(0.4, 0.4, 0.4, 0.4);
    let mut seen = shared(Some((400, 300)));
    let error = set_crop(Some(&mut seen), tight).unwrap_err();
    assert_eq!(
        error.describe(""),
        "Crop leaves 80x60 of 400x300, smaller than the 128 pixel minimum"
    );
    assert_eq!(seen.crop, crop(0.25, 0.0, 0.0, 0.0));

    let mut unseen = shared(None);
    assert!(set_crop(Some(&mut unseen), tight).is_ok());
    assert_eq!(unseen.crop, tight);
}

#[test]
fn without_a_stream_a_crop_is_refused() {
    let error = set_crop(None, Crop::default()).unwrap_err();
    assert!(matches!(error, UiError::NoStream));
    assert_eq!(
        error.describe(""),
        "There is no Syphon stream to crop. Run `neolink syphon --ui`"
    );
}

#[test]
fn a_crop_that_could_not_be_saved_is_still_applied() {
    let reply = applied(None);
    assert!(reply.ok);
    assert_eq!(reply.warning, None);
    let reply = applied(Some("disk full"));
    assert!(reply.ok);
    assert_eq!(
        reply.warning.as_deref(),
        Some("Applied, but not saved for next time: disk full")
    );
}

#[test]
fn the_reasons_for_refusing() {
    assert_eq!(
        UiError::NoStream.describe(""),
        "There is no Syphon stream to crop. Run `neolink syphon --ui`"
    );
    assert_eq!(
        UiError::LeftLocked.describe(""),
        "The crop was left locked by a panic"
    );
    let side = CropError::Side {
        side: neolink::crop::Side::Left,
        value: Single {
            bits: 0.9f32.to_bits(),
        },
    };
    assert_eq!(
        UiError::Crop(side).describe("0.9"),
        "Crop left is 0.9, which is outside 0 to 0.8"
    );
}

#[test]
fn a_frame_is_published_as_far_as_the_crop_keeps_it() {
    let mut cropped = shared(None);
    assert_eq!(cropped.frame_seen(3840, 2160), (960, 0, 2880, 2160));
    assert_eq!(cropped.source, Some((3840, 2160)));
    assert_eq!(get_crop(Some(&cropped)).source_width, Some(3840));

    // Too little would be left of a small frame, so all of it is published
    assert_eq!(cropped.frame_seen(160, 120), (0, 0, 160, 120));
    assert_eq!(cropped.source, Some((160, 120)));
}
