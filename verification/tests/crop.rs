use neolink::crop::{
    byte_offset, load, save, state_path, Crop, CropError, Pair, SavedCrops, Side, StateFile,
    MAX_PAIR, MAX_SIDE,
};
use neolink::single::Single;
use std::collections::HashMap;

const FRAME: (u32, u32) = (3840, 2160);

fn single(value: f32) -> Single {
    Single {
        bits: value.to_bits(),
    }
}

fn crop(left: f32, right: f32, top: f32, bottom: f32) -> Crop {
    Crop {
        left: single(left),
        right: single(right),
        top: single(top),
        bottom: single(bottom),
    }
}

/// What is found in a file with this text
fn read(text: &str) -> StateFile {
    let parsed: HashMap<String, HashMap<String, f32>> = match toml::from_str(text) {
        Ok(parsed) => parsed,
        Err(_) => return StateFile::Unreadable,
    };
    let mut saved = SavedCrops::new();
    for (camera, sides) in parsed {
        let side = |name: &str| sides.get(name).copied().unwrap_or(0.0);
        saved.insert(
            &camera,
            crop(side("left"), side("right"), side("top"), side("bottom")),
        );
    }
    StateFile::Crops(saved)
}

#[test]
fn no_crop_keeps_the_whole_frame() {
    let region = Crop::default().region(FRAME.0, FRAME.1).unwrap();
    assert_eq!(region, (0, 0, 3840, 2160));
}

#[test]
fn fractions_become_pixels() {
    // A tenth off the left, a twentieth off the right, and most of the sky
    let region = crop(0.1, 0.05, 0.3, 0.2).region(FRAME.0, FRAME.1).unwrap();
    assert_eq!(region, (384, 648, 3264, 1080));
}

#[test]
fn a_strip_of_roadway_is_the_point() {
    let (x, y, width, height) = crop(0.0, 0.0, 0.4, 0.28).region(FRAME.0, FRAME.1).unwrap();
    assert_eq!((x, y, width), (0, 864, 3840));
    assert!((690..=700).contains(&height), "height was {height}");
}

#[test]
fn a_crop_follows_the_resolution() {
    let wanted = crop(0.1, 0.05, 0.3, 0.2);
    assert_eq!(wanted.region(1920, 1080), Ok((192, 324, 1632, 540)));
    assert_eq!(wanted.region(3840, 2160), Ok((384, 648, 3264, 1080)));

    // Rounding moves a side by at most the pixel it is rounded by
    for i in 0..80u32 {
        let f = i as f32 / 200.0;
        let wanted = crop(f, f / 3.0, f / 7.0, f);
        for (width, height) in [(641, 479), (1920, 1080), (3001, 2003)] {
            let (x, y, w, h) = wanted.region(width, height).unwrap();
            let (lx, ly, lw, lh) = wanted.region(2 * width, 2 * height).unwrap();
            assert!(lx.abs_diff(2 * x) <= 1 && ly.abs_diff(2 * y) <= 1);
            assert!(lw.abs_diff(2 * w) <= 2 && lh.abs_diff(2 * h) <= 2);
        }
    }
}

#[test]
fn a_crop_takes_the_same_share_of_every_frame() {
    let wanted = crop(0.37, 0.0, 0.0, 0.0);
    for (a, b) in [(640u32, 3840u32), (1279, 1921), (300, 16_000_000)] {
        let p = wanted.region(a, 1000).unwrap().0 as i64;
        let q = wanted.region(b, 1000).unwrap().0 as i64;
        let (a, b) = (a as i64, b as i64);
        let off = (p * b - q * a).abs();
        assert!(0x100_0000 * off <= 0x80_0000 * (a + b) + 2 * a * b);
    }
}

#[test]
fn most_of_the_sky_can_be_cropped_away() {
    // The case the generous per-side limit exists for
    let (_, y, width, height) = crop(0.0, 0.0, 0.75, 0.05).region(FRAME.0, FRAME.1).unwrap();
    assert_eq!((y, width), (1620, 3840));
    assert_eq!(height, 432);
}

#[test]
fn a_side_beyond_the_limit_is_refused() {
    assert!(crop(0.9, 0.0, 0.0, 0.0).validate().is_err());
    assert!(crop(0.0, 0.0, 0.0, -0.1).validate().is_err());
    assert!(crop(f32::NAN, 0.0, 0.0, 0.0).validate().is_err());
}

#[test]
fn opposite_sides_cannot_swallow_the_frame() {
    // Each side is within its own limit, but together they leave too little
    let greedy = crop(0.8, 0.8, 0.0, 0.0);
    assert!(greedy.left.bits <= MAX_SIDE && greedy.right.bits <= MAX_SIDE);
    assert!(greedy.validate().is_err());

    // Exactly at the pair limit is allowed, and 4K has plenty left over
    assert!(crop(0.45, 0.45, 0.45, 0.45)
        .region(FRAME.0, FRAME.1)
        .is_ok());
}

#[test]
fn a_crop_that_leaves_almost_nothing_is_refused() {
    // Legal fractions, but a 200x120 frame has under the pixel minimum left
    let error = crop(0.4, 0.4, 0.4, 0.4).region(400, 300).unwrap_err();
    assert!(
        error.describe("").contains("minimum"),
        "unexpected error: {error:?}"
    );
    assert_eq!(
        error.describe(""),
        "Crop leaves 80x60 of 400x300, smaller than the 128 pixel minimum"
    );
}

#[test]
fn the_offset_counts_rows_in_bytes_and_columns_in_pixels() {
    // A 4K frame with no padding: 3840 pixels at four bytes each
    let stride = 3840 * 4;
    assert_eq!(byte_offset(0, 0, stride), 0);
    assert_eq!(byte_offset(10, 0, stride), 40);
    assert_eq!(byte_offset(0, 1, stride), stride);
    assert_eq!(byte_offset(384, 648, stride), 648 * stride + 1536);
}

#[test]
fn the_offset_follows_a_padded_stride() {
    // IOSurface and some decoders pad rows, so the stride is wider than the
    // frame and a row is not width * 4
    let padded = 3840 * 4 + 256;
    assert_eq!(byte_offset(0, 2, padded), 2 * padded);
    assert_eq!(byte_offset(5, 2, padded), 2 * padded + 20);
}

#[test]
fn a_crop_region_and_its_offset_agree() {
    let stride = FRAME.0 as usize * 4;
    let (x, y, _, _) = crop(0.1, 0.05, 0.3, 0.2).region(FRAME.0, FRAME.1).unwrap();
    assert_eq!(byte_offset(x, y, stride), 648 * stride + 384 * 4);
}

#[test]
fn the_state_file_sits_beside_the_config() {
    assert_eq!(state_path("/etc/neolink.toml"), "/etc/neolink.crop.toml");
}

#[test]
fn the_state_file_of_other_config_names() {
    assert_eq!(state_path("neolink"), "neolink.crop.toml");
    assert_eq!(state_path("conf.d/neolink"), "conf.d/neolink.crop.toml");
    assert_eq!(state_path("/etc/.neolink"), "/etc/.neolink.crop.toml");
    assert_eq!(state_path("a.crop.toml"), "a.crop.crop.toml");
    assert_eq!(state_path("a.b/c."), "a.b/c.crop.toml");
    assert_eq!(state_path("x/.c.d"), "x/.c.crop.toml");
    assert_eq!(state_path("x//y.z"), "x//y.crop.toml");
    assert_eq!(state_path("x/./y.z"), "x/./y.crop.toml");
    assert_eq!(state_path("a/.."), "a/..");
    assert_eq!(state_path("a/../"), "a/../");
    assert_eq!(state_path(".."), "..");
}

#[test]
fn the_state_file_of_a_config_on_a_drive() {
    assert_eq!(
        state_path("C:/dir/neolink.toml"),
        "C:/dir/neolink.crop.toml"
    );
    assert_eq!(state_path("C:/neolink"), "C:/neolink.crop.toml");
    assert_eq!(
        state_path("C:\\dir\\neolink.toml"),
        "C:\\dir\\neolink.crop.toml"
    );
    assert_eq!(state_path("C:neolink.toml"), "C:neolink.crop.toml");
    assert_eq!(state_path("a\\b:c/d"), "a\\b:c/d.crop.toml");
    assert_eq!(state_path("a.b\\c.d.e"), "a.b\\c.d.crop.toml");
    assert_eq!(state_path("x:.a.b"), "x:.a.crop.toml");
    assert_eq!(state_path("..\\a.b"), "..\\a.crop.toml");
    assert_eq!(state_path("\\a.b"), "\\a.crop.toml");
}

#[test]
fn the_state_file_of_a_config_that_starts_with_dots() {
    assert_eq!(state_path("..a.b"), "..a.crop.toml");
    assert_eq!(state_path("x/..a.b"), "x/..a.crop.toml");
    assert_eq!(state_path("..."), "...crop.toml");
    assert_eq!(state_path("...a"), "...crop.toml");
    assert_eq!(state_path(".a."), ".a.crop.toml");
}

#[test]
fn the_state_file_of_a_config_without_an_extension_on_a_drive() {
    assert_eq!(
        state_path("C:\\etc\\neolink"),
        "C:\\etc\\neolink.crop.toml"
    );
    assert_eq!(state_path("C:neolink"), "C:neolink.crop.toml");
    assert_eq!(state_path(".\\neolink"), ".\\neolink.crop.toml");
    assert_eq!(state_path("a.b/c\\d"), "a.b/c\\d.crop.toml");
}

#[test]
fn the_state_file_is_never_the_config() {
    for config in [
        "..a",
        "a.b\\c",
        "C:\\etc\\.neolink",
        "..\\a",
        "a\\..b",
        "x:..b",
        "neolink.crop.toml",
        "a\\.crop.toml",
        "..crop.toml",
        "neolink.crop.toml/",
    ] {
        assert_ne!(state_path(config), config);
    }
}

#[test]
fn the_state_file_of_a_config_with_something_at_its_end() {
    for (config, state) in [
        ("/etc/neolink.toml/", "/etc/neolink.crop.toml"),
        ("/etc/neolink.toml//", "/etc/neolink.crop.toml"),
        ("/etc/neolink.toml/.", "/etc/neolink.crop.toml"),
        ("/etc/neolink.t/././/.", "/etc/neolink.crop.toml"),
        ("/etc/neolink/", "/etc/neolink.crop.toml"),
        ("a./", "a.crop.toml"),
        (".../", "...crop.toml"),
        ("..a.b/.", "..a.crop.toml"),
        ("C:\\n/", "C:\\n.crop.toml"),
        ("n.\u{e9}/", "n.crop.toml"),
        ("n.tt/.", "n.crop.toml"),
        (".a/.", ".a.crop.toml"),
        ("a\\b.c/", "a\\b.crop.toml"),
    ] {
        assert_eq!(state_path(config).trim_end_matches('/'), state);
    }
}

#[test]
fn saving_then_loading_gives_the_same_crop() {
    let wanted = crop(0.1, 0.05, 0.3, 0.2);
    let file = StateFile::Crops(save(StateFile::Missing, "FlockOff", wanted).unwrap());
    assert_eq!(load(&file, "FlockOff"), wanted);

    // Another camera in the same file is untouched by the first
    let other = crop(0.0, 0.0, 0.25, 0.25);
    let file = StateFile::Crops(save(file, "Driveway", other).unwrap());
    assert_eq!(load(&file, "FlockOff"), wanted);
    assert_eq!(load(&file, "Driveway"), other);

    // Saving again replaces the crop rather than adding a second one
    let saved = save(file, "FlockOff", other).unwrap();
    assert_eq!(saved.entries().len(), 2);
    let file = StateFile::Crops(saved);
    assert_eq!(load(&file, "FlockOff"), other);
    assert_eq!(load(&file, "Driveway"), other);
}

#[test]
fn a_missing_file_just_means_no_crop() {
    assert!(load(&StateFile::Missing, "FlockOff").is_none());
}

#[test]
fn a_camera_with_nothing_saved_gets_no_crop() {
    let wanted = crop(0.1, 0.0, 0.0, 0.0);
    let file = StateFile::Crops(save(StateFile::Missing, "FlockOff", wanted).unwrap());
    assert!(load(&file, "SomeOtherCamera").is_none());
    assert!(load(&StateFile::Crops(SavedCrops::new()), "FlockOff").is_none());
}

#[test]
fn a_corrupt_file_is_ignored_rather_than_fatal() {
    let file = read("this is not toml {{{");
    assert!(matches!(file, StateFile::Unreadable));
    assert!(load(&file, "FlockOff").is_none());
}

#[test]
fn a_saved_crop_that_is_out_of_range_is_ignored() {
    let file = read("[FlockOff]\nleft = 0.99\n");
    assert!(matches!(file, StateFile::Crops(_)));
    assert!(load(&file, "FlockOff").is_none());
}

#[test]
fn saving_leaves_other_cameras_alone() {
    // Even one whose crop does not make sense
    let file = read("[Driveway]\ntop = 0.25\n[Porch]\nleft = 0.99\n");
    let saved = save(file, "FlockOff", Crop::default()).unwrap();
    assert_eq!(saved.entries().len(), 3);
    assert_eq!(saved.get("Driveway"), Some(crop(0.0, 0.0, 0.25, 0.0)));
    assert_eq!(saved.get("Porch"), Some(crop(0.99, 0.0, 0.0, 0.0)));
    assert_eq!(saved.get("FlockOff"), Some(Crop::default()));
}

#[test]
fn a_file_that_cannot_be_read_is_not_written_over() {
    // One entry is malformed, and writing the file anew would lose the other
    let file = read("[Driveway]\ntop = 0.25\n[Porch]\nleft = \"wide\"\n");
    assert!(matches!(file, StateFile::Unreadable));
    assert!(load(&file, "Driveway").is_none());
    assert!(save(file, "FlockOff", Crop::default()).is_none());
}

#[test]
fn the_first_thing_wrong_is_what_is_reported() {
    assert_eq!(
        crop(0.0, 0.81, -0.5, 2.0).validate(),
        Err(CropError::Side {
            side: Side::Right,
            value: single(0.81)
        })
    );
    assert_eq!(
        crop(0.0, 0.8, f32::INFINITY, 2.0).validate(),
        Err(CropError::Side {
            side: Side::Top,
            value: single(f32::INFINITY)
        })
    );
    assert_eq!(
        crop(0.5, 0.5, 0.5, 0.5).validate(),
        Err(CropError::Pair {
            pair: Pair::LeftRight,
            first: single(0.5),
            second: single(0.5)
        })
    );
    assert_eq!(
        crop(0.5, 0.25, 0.5, 0.5).validate(),
        Err(CropError::Pair {
            pair: Pair::TopBottom,
            first: single(0.5),
            second: single(0.5)
        })
    );
    assert_eq!(crop(0.8, 0.0, 0.0, 0.8).validate(), Ok(()));
    assert_eq!(crop(-0.0, 0.0, 0.0, 0.0).validate(), Ok(()));
}

#[test]
fn a_size_is_refused_by_either_direction() {
    assert!(crop(0.0, 0.0, 0.0, 0.0).region(128, 128).is_ok());
    assert_eq!(
        Crop::default().region(127, 300),
        Err(CropError::TooSmall {
            kept_width: 127,
            kept_height: 300,
            width: 127,
            height: 300
        })
    );
    assert_eq!(
        Crop::default().region(0, 0),
        Err(CropError::TooSmall {
            kept_width: 0,
            kept_height: 0,
            width: 0,
            height: 0
        })
    );
}

#[test]
fn the_reasons_in_words() {
    let side = crop(0.0, 0.0, 0.0, 0.9).validate().unwrap_err();
    assert_eq!(side.describe("0.9"), "Crop bottom is 0.9, which is outside 0 to 0.8");
    let pair = crop(0.8, 0.5, 0.0, 0.0).validate().unwrap_err();
    assert_eq!(
        pair.describe("130"),
        "Crop left and right together take 130%, more than the 90% allowed"
    );
    let pair = crop(0.0, 0.0, 0.8, 0.5).validate().unwrap_err();
    assert_eq!(
        pair.describe("130"),
        "Crop top and bottom together take 130%, more than the 90% allowed"
    );
}

#[test]
fn no_crop_is_zero_of_either_sign() {
    assert!(crop(0.0, -0.0, 0.0, -0.0).is_none());
    assert!(!crop(0.0, 0.0, 0.0, f32::from_bits(1)).is_none());
    assert!(!crop(f32::NAN, 0.0, 0.0, 0.0).is_none());
}

#[test]
fn equality_is_that_of_numbers() {
    assert!(single(0.0) == single(-0.0));
    assert!(single(f32::NAN) != single(f32::NAN));
    assert!(single(f32::INFINITY) == single(f32::INFINITY));
    assert!(single(0.1) == single(0.1));
    assert!(single(0.1) != single(-0.1));
    assert!(crop(0.0, 0.1, 0.2, 0.3) == crop(-0.0, 0.1, 0.2, 0.3));
    assert!(crop(0.0, 0.1, 0.2, 0.3) != crop(0.0, 0.1, 0.2, 0.4));
}

#[test]
fn the_limits_are_eight_and_nine_tenths() {
    assert_eq!(MAX_SIDE, 0.8f32.to_bits());
    assert_eq!(MAX_PAIR, 0.9f32.to_bits());
}

/// A small generator, so that the comparisons below cover many values
fn next(state: &mut u64) -> u64 {
    *state ^= *state << 13;
    *state ^= *state >> 7;
    *state ^= *state << 17;
    *state
}

fn machine_validates(left: f32, right: f32, top: f32, bottom: f32) -> bool {
    for value in [left, right, top, bottom] {
        if !value.is_finite() || !(0.0..=0.8f32).contains(&value) {
            return false;
        }
    }
    !(left + right > 0.9f32) && !(top + bottom > 0.9f32)
}

fn machine_portion(fraction: f32, length: u32) -> u32 {
    (length as f32 * fraction).round() as u32
}

#[test]
fn validation_agrees_with_the_machine() {
    let mut state = 0x1234_5678_9abc_def1u64;
    for _ in 0..200_000 {
        let any = |state: &mut u64| f32::from_bits(next(state) as u32);
        let usual = |state: &mut u64| {
            let bits = next(state) as u32;
            f32::from_bits(0x3e00_0000 + bits % 0x0160_0000)
        };
        let (a, b) = (any(&mut state), any(&mut state));
        assert_eq!(
            crop(a, b, 0.0, 0.0).validate().is_ok(),
            machine_validates(a, b, 0.0, 0.0)
        );
        let (a, b) = (usual(&mut state), usual(&mut state));
        assert_eq!(
            crop(0.0, 0.0, a, b).validate().is_ok(),
            machine_validates(0.0, 0.0, a, b),
            "{a} and {b}"
        );
    }
}

#[test]
fn the_pair_limit_agrees_with_the_machine_around_its_edge() {
    for shift in 0..2000u32 {
        let a = f32::from_bits(0.1f32.to_bits() + shift * 7);
        let closest = 0.9f32 - a;
        for near in 0..40u32 {
            let b = f32::from_bits(closest.to_bits() - 20 + near);
            assert_eq!(
                crop(a, b, b, a).validate().is_ok(),
                machine_validates(a, b, b, a),
                "{a} and {b}"
            );
        }
    }
    for tiny in [0u32, 1, 0x100, 0x80_0000, 0x1000_0000, 0x3000_0000, 0x3280_0000, 0x3300_0000] {
        let b = f32::from_bits(tiny);
        for a in [0.8f32, 0.5, 0.25] {
            assert_eq!(
                crop(a, b, b, a).validate().is_ok(),
                machine_validates(a, b, b, a)
            );
        }
    }
}

#[test]
fn the_portion_agrees_with_the_machine() {
    let mut state = 0xfeed_beef_1234_5679u64;
    for _ in 0..200_000 {
        let fraction = f32::from_bits((next(&mut state) as u32) % (0.8f32.to_bits() + 1));
        let usual = f32::from_bits(0x3c00_0000 + (next(&mut state) as u32) % 0x0340_0000);
        let length = next(&mut state) as u32;
        let small = length % 8192;
        for f in [fraction, usual] {
            for l in [length, small] {
                assert_eq!(single(f).portion(l), machine_portion(f, l), "{f} of {l}");
            }
        }
    }
}

#[test]
fn the_portion_rounds_halves_away_from_zero() {
    assert_eq!(single(0.5).portion(1), 1);
    assert_eq!(single(0.5).portion(3), 2);
    assert_eq!(single(0.25).portion(2), 1);
    assert_eq!(single(0.25).portion(1), 0);
    assert_eq!(single(0.1).portion(16_777_217), machine_portion(0.1, 16_777_217));
    assert_eq!(single(0.8).portion(u32::MAX), machine_portion(0.8, u32::MAX));
    assert_eq!(single(f32::from_bits(1)).portion(u32::MAX), 0);
}

#[test]
fn regions_agree_with_the_machine() {
    let mut state = 0x0bad_cafe_dead_beefu64;
    let mut kept = 0;
    for _ in 0..100_000 {
        let mut fraction = || f32::from_bits((next(&mut state) as u32) % (0.8f32.to_bits() + 1));
        let (l, r, t, b) = (fraction(), fraction() * 0.1, fraction() * 0.3, fraction());
        let width = (next(&mut state) as u32) % 5000;
        let height = (next(&mut state) as u32) % 3000;
        let (x, y) = (machine_portion(l, width), machine_portion(t, height));
        let w = width.saturating_sub(x + machine_portion(r, width));
        let h = height.saturating_sub(y + machine_portion(b, height));
        let expected = machine_validates(l, r, t, b) && w >= 128 && h >= 128;
        match crop(l, r, t, b).region(width, height) {
            Ok(region) => {
                kept += 1;
                assert!(expected);
                assert_eq!(region, (x, y, w, h));
                assert!(x + w <= width && y + h <= height);
            }
            Err(_) => assert!(!expected),
        }
    }
    assert!(kept > 1000);
}

#[test]
fn a_region_lies_inside_the_bytes_of_its_frame() {
    let stride = 3840 * 4 + 64;
    let (x, y, w, h) = crop(0.1, 0.05, 0.3, 0.2).region(FRAME.0, FRAME.1).unwrap();
    let end = byte_offset(x, y, stride) + byte_offset(w, h - 1, stride);
    assert!(end <= byte_offset(FRAME.0, FRAME.1 - 1, stride));
}
