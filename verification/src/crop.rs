//! Which part of the frame is worth publishing.
//!
//! Pointed at a roadway, most of a 4K frame is sky and buildings where no plate
//! will ever be, but everything downstream pays for those pixels anyway. Cropping
//! before the frame is published is the cheapest place to stop that.
//!
//! The crop is held as fractions of the frame rather than pixels, so it does not
//! have to be redone if the camera's resolution changes, and so the web page can
//! use the same numbers directly when drawing the guides.
use crate::paths::{
    directory, extended, file_name, goes_up, has_name, lemma_an_extension_is_replaced,
    lemma_changed_extension, name_start, names_file, plain, trimmed, with_extension,
};
use crate::single::{
    lemma_equality_beyond_the_numbers, lemma_equality_is_that_of_values, lemma_nearest_error, lemma_nearest_exact, lemma_portion_is_the_same_share,
    lemma_portion_of_twice_the_length, lemma_portion_of_zero, lemma_step_between, nearest,
    portion_of, same_share, Single, SIGNIFICAND_END,
};
use crate::text::{append_decimal, decimal, same};
use vstd::arithmetic::power2::{lemma_pow2_adds, lemma_pow2_pos, pow2};
use vstd::prelude::*;
use vstd::string::*;

verus! {

/// The most that can be taken off any one side: the single closest to 0.8
///
/// Generous on purpose: a camera looking down a road from height may want most of
/// the sky gone. What stops a crop being silly is the pixel minimum below, not this
pub const MAX_SIDE: u32 = 0x3f4c_cccd;

/// The most that can be taken off a pair of opposite sides together: the single
/// closest to 0.9
pub const MAX_PAIR: u32 = 0x3f66_6666;

/// Smaller than this in either direction and there is nothing left to look at
pub const MIN_CROP_PIXELS: u32 = 128;

/// BGRA, which is what the decode pipeline is set to produce
pub const BYTES_PER_PIXEL: usize = 4;

/// How much to take off each side, as a fraction of the whole frame
#[derive(Clone, Copy, Debug)]
pub struct Crop {
    pub left: Single,
    pub right: Single,
    pub top: Single,
    pub bottom: Single,
}

/// One side of the frame
#[derive(Clone, Copy, Debug, PartialEq, Eq, Structural)]
pub enum Side {
    Left,
    Right,
    Top,
    Bottom,
}

/// Two opposite sides of the frame
#[derive(Clone, Copy, Debug, PartialEq, Eq, Structural)]
pub enum Pair {
    LeftRight,
    TopBottom,
}

/// What is wrong with a crop
#[derive(Clone, Copy, Debug, PartialEq)]
pub enum CropError {
    /// One side is not a number, or outside what a side can lose
    Side { side: Side, value: Single },
    /// Two opposite sides together lose too much
    Pair { pair: Pair, first: Single, second: Single },
    /// Too few pixels of this frame would be left
    TooSmall { kept_width: u32, kept_height: u32, width: u32, height: u32 },
}

/// Crops are equal where their four numbers are
impl PartialEq for Crop {
    fn eq(&self, other: &Crop) -> (equal: bool) {
        self.left == other.left && self.right == other.right && self.top == other.top
            && self.bottom == other.bottom
    }
}

impl vstd::std_specs::cmp::PartialEqSpecImpl for Crop {
    open spec fn obeys_eq_spec() -> bool {
        true
    }

    open spec fn eq_spec(&self, other: &Crop) -> bool {
        self.equals(*other)
    }
}

/// The limit for one side
pub open spec fn max_side() -> Single {
    Single { bits: MAX_SIDE }
}

/// The limit for a pair of opposite sides
pub open spec fn max_pair() -> Single {
    Single { bits: MAX_PAIR }
}

/// A fraction that may be taken off one side
pub open spec fn side_allowed(value: Single) -> bool {
    value.finite() && 0 <= value.value() <= max_side().value()
}

/// Two fractions whose sum, as a single, is more than opposite sides may lose
pub open spec fn pair_excessive(first: Single, second: Single) -> bool {
    nearest(first.magnitude() + second.magnitude()) > max_pair().magnitude()
}

/// What is left of a length when two ends are cut off, or nothing
pub open spec fn kept(length: nat, first: nat, second: nat) -> nat {
    if length >= first + second {
        (length - first - second) as nat
    } else {
        0
    }
}

impl Crop {
    pub open spec fn equals(self, other: Crop) -> bool {
        &&& self.left.equals(other.left)
        &&& self.right.equals(other.right)
        &&& self.top.equals(other.top)
        &&& self.bottom.equals(other.bottom)
    }

    /// The crop that takes nothing off any side
    pub open spec fn nothing() -> Crop {
        Crop {
            left: Single { bits: 0 },
            right: Single { bits: 0 },
            top: Single { bits: 0 },
            bottom: Single { bits: 0 },
        }
    }

    /// Whether every side loses zero
    pub open spec fn takes_nothing(self) -> bool {
        self.left.zero() && self.right.zero() && self.top.zero() && self.bottom.zero()
    }

    /// The first thing wrong with the fractions on their own
    pub open spec fn checked(self) -> Result<(), CropError> {
        if !side_allowed(self.left) {
            Err(CropError::Side { side: Side::Left, value: self.left })
        } else if !side_allowed(self.right) {
            Err(CropError::Side { side: Side::Right, value: self.right })
        } else if !side_allowed(self.top) {
            Err(CropError::Side { side: Side::Top, value: self.top })
        } else if !side_allowed(self.bottom) {
            Err(CropError::Side { side: Side::Bottom, value: self.bottom })
        } else if pair_excessive(self.left, self.right) {
            Err(CropError::Pair { pair: Pair::LeftRight, first: self.left, second: self.right })
        } else if pair_excessive(self.top, self.bottom) {
            Err(CropError::Pair { pair: Pair::TopBottom, first: self.top, second: self.bottom })
        } else {
            Ok(())
        }
    }

    /// The x, y, width and height that the fractions come to on a frame
    pub open spec fn cut(self, width: nat, height: nat) -> (nat, nat, nat, nat) {
        let x = portion_of(self.left.magnitude(), width);
        let y = portion_of(self.top.magnitude(), height);
        let right = portion_of(self.right.magnitude(), width);
        let bottom = portion_of(self.bottom.magnitude(), height);
        (x, y, kept(width, x, right), kept(height, y, bottom))
    }

    /// Whether enough of a frame is left to publish
    pub open spec fn keeps_enough(self, width: nat, height: nat) -> bool {
        self.cut(width, height).2 >= MIN_CROP_PIXELS && self.cut(width, height).3
            >= MIN_CROP_PIXELS
    }

    /// Whether this crop leaves the frame alone
    pub fn is_none(&self) -> (none: bool)
        ensures
            none == self.takes_nothing(),
    {
        self.left.is_zero() && self.right.is_zero() && self.top.is_zero() && self.bottom.is_zero()
    }

    /// Check the fractions make sense on their own
    ///
    /// The size they work out to is checked separately, since that needs a frame
    /// to measure against and this has to be usable before one has arrived.
    pub fn validate(&self) -> (result: Result<(), CropError>)
        ensures
            result == self.checked(),
    {
        proof {
            lemma_limits();
        }
        let limit = Single { bits: MAX_SIDE };
        if !self.left.within(limit) {
            return Err(CropError::Side { side: Side::Left, value: self.left });
        }
        if !self.right.within(limit) {
            return Err(CropError::Side { side: Side::Right, value: self.right });
        }
        if !self.top.within(limit) {
            return Err(CropError::Side { side: Side::Top, value: self.top });
        }
        if !self.bottom.within(limit) {
            return Err(CropError::Side { side: Side::Bottom, value: self.bottom });
        }
        let limit = Single { bits: MAX_PAIR };
        proof {
            lemma_side_is_small(self.left);
            lemma_side_is_small(self.right);
            lemma_side_is_small(self.top);
            lemma_side_is_small(self.bottom);
        }
        if self.left.sum_exceeds(self.right, limit) {
            return Err(
                CropError::Pair { pair: Pair::LeftRight, first: self.left, second: self.right },
            );
        }
        if self.top.sum_exceeds(self.bottom, limit) {
            return Err(
                CropError::Pair { pair: Pair::TopBottom, first: self.top, second: self.bottom },
            );
        }
        Ok(())
    }

    /// The part of a frame of this size to keep, as (x, y, width, height)
    ///
    /// Returns an error rather than a tiny rectangle if the crop leaves too
    /// little of the frame to be worth publishing.
    pub fn region(&self, width: u32, height: u32) -> (result: Result<
        (u32, u32, u32, u32),
        CropError,
    >)
        ensures
            match result {
                Ok((x, y, w, h)) => {
                    &&& self.checked() is Ok
                    &&& self.keeps_enough(width as nat, height as nat)
                    &&& (x as nat, y as nat, w as nat, h as nat) == self.cut(
                        width as nat,
                        height as nat,
                    )
                    &&& x == portion_of(self.left.magnitude(), width as nat)
                    &&& y == portion_of(self.top.magnitude(), height as nat)
                    &&& x + w + portion_of(self.right.magnitude(), width as nat) == width
                    &&& y + h + portion_of(self.bottom.magnitude(), height as nat) == height
                },
                Err(CropError::TooSmall { kept_width, kept_height, width: w, height: h }) => {
                    &&& self.checked() is Ok
                    &&& !self.keeps_enough(width as nat, height as nat)
                    &&& kept_width == self.cut(width as nat, height as nat).2
                    &&& kept_height == self.cut(width as nat, height as nat).3
                    &&& w == width && h == height
                },
                Err(e) => self.checked() == Err::<(), CropError>(e),
            },
    {
        match self.validate() {
            Ok(()) => {},
            Err(e) => {
                return Err(e);
            },
        }
        proof {
            lemma_side_is_small(self.left);
            lemma_side_is_small(self.right);
            lemma_side_is_small(self.top);
            lemma_side_is_small(self.bottom);
        }
        let x: u32 = self.left.portion(width);
        let y: u32 = self.top.portion(height);
        let right: u32 = self.right.portion(width);
        let bottom: u32 = self.bottom.portion(height);

        // A crop bigger than the frame reports the size problem below
        let kept_width: u32 = keep(width, x, right);
        let kept_height: u32 = keep(height, y, bottom);

        if kept_width < MIN_CROP_PIXELS || kept_height < MIN_CROP_PIXELS {
            return Err(CropError::TooSmall { kept_width, kept_height, width, height });
        }
        Ok((x, y, kept_width, kept_height))
    }
}

impl Default for Crop {
    fn default() -> (crop: Crop)
        ensures
            crop == Crop::nothing(),
    {
        Crop {
            left: Single { bits: 0 },
            right: Single { bits: 0 },
            top: Single { bits: 0 },
            bottom: Single { bits: 0 },
        }
    }
}

/// What is left of a length when two ends are cut off, or nothing
fn keep(length: u32, first: u32, second: u32) -> (left: u32)
    ensures
        left == kept(length as nat, first as nat, second as nat),
{
    let gone: u64 = first as u64 + second as u64;
    if gone <= length as u64 {
        length - first - second
    } else {
        0
    }
}

/// The two limits are what 0.8 and 0.9 round to
pub proof fn lemma_limits()
    ensures
        max_side().finite(),
        max_side().value() == nearest(4 * pow2(149) / 5),
        max_side().magnitude() == nearest(4 * pow2(149) / 5),
        max_pair().finite(),
        max_pair().value() == nearest(9 * pow2(149) / 10),
        max_pair().magnitude() == nearest(9 * pow2(149) / 10),
        16 * max_side().magnitude() <= 15 * pow2(149),
        16 * max_pair().magnitude() <= 15 * pow2(149),
{
    let side = max_side();
    let pair = max_pair();
    let gap = pow2(125);
    lemma_pow2_adds(24, 125);
    lemma_pow2_pos(125);
    vstd::arithmetic::power2::lemma2_to64();
    lemma_pow2_adds(5, 120);
    assert(side.significand() == 13421773 && side.doublings() == 125);
    assert(pair.significand() == 15099494 && pair.doublings() == 125);
    lemma_pow2_pos(120);
    let a = 4 * pow2(149) / 5;
    lemma_step_between(a, 125);
    vstd::arithmetic::div_mod::lemma_fundamental_div_mod_converse(
        a as int,
        gap as int,
        13421772,
        a - 13421772 * gap,
    );
    let b = 9 * pow2(149) / 10;
    lemma_step_between(b, 125);
    vstd::arithmetic::div_mod::lemma_fundamental_div_mod_converse(
        b as int,
        gap as int,
        15099494,
        b - 15099494 * gap,
    );
}

/// An allowed side is well below one
proof fn lemma_side_is_small(value: Single)
    requires
        side_allowed(value),
    ensures
        16 * value.magnitude() <= 15 * pow2(149),
        value.doublings() <= 125,
        !value.negative() || value.zero(),
{
    lemma_limits();
    crate::single::lemma_below_one(value);
}

/// Where a region's top left corner sits in a frame's bytes
pub open spec fn corner(x: nat, y: nat, stride: nat) -> nat {
    y * stride + x * (BYTES_PER_PIXEL as nat)
}

/// Where a region's top left corner sits in a frame's bytes
///
/// Its own function because the units are easy to get wrong: `stride` is already
/// in bytes, while `x` is in pixels and has to be multiplied by the four bytes a
/// BGRA pixel takes. Getting that wrong shifts the picture rather than failing.
pub fn byte_offset(x: u32, y: u32, stride: usize) -> (offset: usize)
    requires
        corner(x as nat, y as nat, stride as nat) <= usize::MAX,
    ensures
        offset == corner(x as nat, y as nat, stride as nat),
{
    assert(0 <= y * stride) by (nonlinear_arith);
    y as usize * stride + x as usize * BYTES_PER_PIXEL
}

/// What is said of a side that loses too much
pub open spec fn side_name(side: Side) -> Seq<char> {
    match side {
        Side::Left => "left"@,
        Side::Right => "right"@,
        Side::Top => "top"@,
        Side::Bottom => "bottom"@,
    }
}

impl CropError {
    /// The reason in words. `shown` is the number at fault as it is to be shown:
    /// the value of a side, or what a pair takes in percent.
    pub open spec fn description(self, shown: Seq<char>) -> Seq<char> {
        match self {
            CropError::Side { side, .. } => "Crop "@ + side_name(side) + " is "@ + shown
                + ", which is outside 0 to 0.8"@,
            CropError::Pair { pair: Pair::LeftRight, .. } => "Crop left and right together take "@
                + shown + "%, more than the 90% allowed"@,
            CropError::Pair { pair: Pair::TopBottom, .. } => "Crop top and bottom together take "@
                + shown + "%, more than the 90% allowed"@,
            CropError::TooSmall { kept_width, kept_height, width, height } => "Crop leaves "@
                + decimal(kept_width as nat) + "x"@ + decimal(kept_height as nat) + " of "@
                + decimal(width as nat) + "x"@ + decimal(height as nat)
                + ", smaller than the 128 pixel minimum"@,
        }
    }

    /// The reason in words. `shown` is the number at fault as it is to be shown:
    /// the value of a side, or what a pair takes in percent.
    pub fn describe(&self, shown: &str) -> (text: String)
        ensures
            text@ == self.description(shown@),
    {
        match self {
            CropError::Side { side, .. } => {
                let mut text = "Crop ".to_owned();
                text.append(
                    match side {
                        Side::Left => "left",
                        Side::Right => "right",
                        Side::Top => "top",
                        Side::Bottom => "bottom",
                    },
                );
                text.append(" is ");
                text.append(shown);
                text.append(", which is outside 0 to 0.8");
                text
            },
            CropError::Pair { pair, .. } => {
                let mut text = match pair {
                    Pair::LeftRight => "Crop left and right together take ".to_owned(),
                    Pair::TopBottom => "Crop top and bottom together take ".to_owned(),
                };
                text.append(shown);
                text.append("%, more than the 90% allowed");
                text
            },
            CropError::TooSmall { kept_width, kept_height, width, height } => {
                let mut text = "Crop leaves ".to_owned();
                append_decimal(&mut text, *kept_width as u64);
                text.append("x");
                append_decimal(&mut text, *kept_height as u64);
                text.append(" of ");
                append_decimal(&mut text, *width as u64);
                text.append("x");
                append_decimal(&mut text, *height as u64);
                text.append(", smaller than the 128 pixel minimum");
                text
            },
        }
    }
}

/// What the web page and the publisher need to agree on
#[derive(Debug)]
pub struct CropShared {
    /// What to publish, as fractions of the frame
    pub crop: Crop,
    /// The size of the frame before cropping, once one has been seen. The page
    /// needs it to show what a crop works out to in pixels
    pub source: Option<(u32, u32)>,
    /// Which camera this is the crop for, since the page can be looking at
    /// another one
    pub camera: String,
    /// Where the crop is remembered between runs
    pub state_file: String,
}

impl CropShared {
    /// The part of a frame to publish: what the crop keeps of it, or all of it if the
    /// crop is not one that fits the frame
    pub open spec fn published(self, width: nat, height: nat) -> (nat, nat, nat, nat) {
        if self.crop.checked() is Ok && self.crop.keeps_enough(width, height) {
            self.crop.cut(width, height)
        } else {
            (0, 0, width, height)
        }
    }

    /// Take note of the size of a frame, and give the part of it to publish, as
    /// (x, y, width, height)
    ///
    /// A crop that does not fit the frame is ignored, since the stream is more
    /// important than the crop.
    pub fn frame_seen(&mut self, width: u32, height: u32) -> (region: (u32, u32, u32, u32))
        ensures
            final(self).source == Some((width, height)),
            final(self).crop == old(self).crop,
            final(self).camera == old(self).camera,
            final(self).state_file == old(self).state_file,
            (region.0 as nat, region.1 as nat, region.2 as nat, region.3 as nat) == old(
                self,
            ).published(width as nat, height as nat),
            ({
                let crop = old(self).crop;
                if crop.checked() is Ok && crop.keeps_enough(width as nat, height as nat) {
                    &&& (region.0 as nat, region.1 as nat, region.2 as nat, region.3 as nat)
                        == crop.cut(width as nat, height as nat)
                    &&& region.0 == portion_of(crop.left.magnitude(), width as nat)
                    &&& region.1 == portion_of(crop.top.magnitude(), height as nat)
                    &&& region.0 + region.2 + portion_of(crop.right.magnitude(), width as nat)
                        == width
                    &&& region.1 + region.3 + portion_of(crop.bottom.magnitude(), height as nat)
                        == height
                } else {
                    region == (0u32, 0u32, width, height)
                }
            }),
            region.0 + region.2 <= width,
            region.1 + region.3 <= height,
    {
        self.source = Some((width, height));
        match self.crop.region(width, height) {
            Ok(region) => region,
            Err(_) => (0, 0, width, height),
        }
    }
}

/// Where the crops for each camera are remembered between runs
///
/// Kept beside the config rather than inside it, so that applying a crop from
/// the web page never has to rewrite a file the user maintains by hand. If slashes or
/// single dots end the path of the config, those of the result may differ. For a path
/// whose extension, or the lack of one, is not the same on every platform, the result
/// is what the platform makes of it, which is never the config itself.
pub fn state_path(config: &str) -> (path: String)
    ensures
        names_file(config@) ==> trimmed(path@) == extended(trimmed(config@), "crop.toml"@),
        names_file(config@) && trimmed(config@) == config@ ==> path@ == extended(
            config@,
            "crop.toml"@,
        ),
        has_name(config@) ==> path@ != config@,
        goes_up(config@) ==> path@ == config@,
{
    proof {
        reveal_strlit("crop.toml");
        assert("crop.toml"@[4] == '.');
    }
    with_extension(config, "crop.toml")
}

/// The crop saved for one camera
#[derive(Debug)]
pub struct SavedCrop {
    pub camera: String,
    pub crop: Crop,
}

/// The crops of a list, by camera
pub open spec fn by_camera(entries: Seq<SavedCrop>) -> Map<Seq<char>, Crop>
    decreases entries.len(),
{
    if entries.len() == 0 {
        Map::empty()
    } else {
        by_camera(entries.drop_last()).insert(entries.last().camera@, entries.last().crop)
    }
}

/// No camera is listed twice
pub open spec fn distinct(entries: Seq<SavedCrop>) -> bool {
    forall|i: int, j: int|
        0 <= i < j < entries.len() ==> (#[trigger] entries[i]).camera@ != (
        #[trigger] entries[j]).camera@
}

/// The crops that are remembered, one for each camera
#[derive(Debug)]
pub struct SavedCrops {
    entries: Vec<SavedCrop>,
}

impl View for SavedCrops {
    type V = Map<Seq<char>, Crop>;

    closed spec fn view(&self) -> Map<Seq<char>, Crop> {
        by_camera(self.entries@)
    }
}

/// A list without duplicates holds a crop for exactly the cameras that are in it, and
/// for each the one that stands beside it
pub proof fn lemma_by_camera(entries: Seq<SavedCrop>, camera: Seq<char>)
    requires
        distinct(entries),
    ensures
        by_camera(entries).dom().contains(camera) <==> exists|i: int|
            0 <= i < entries.len() && (#[trigger] entries[i]).camera@ == camera,
        forall|i: int|
            0 <= i < entries.len() && (#[trigger] entries[i]).camera@ == camera ==> by_camera(
                entries,
            )[camera] == entries[i].crop,
    decreases entries.len(),
{
    if entries.len() > 0 {
        let rest = entries.drop_last();
        assert forall|i: int, j: int| 0 <= i < j < rest.len() implies (
        #[trigger] rest[i]).camera@ != (#[trigger] rest[j]).camera@ by {
            assert(entries[i] == rest[i] && entries[j] == rest[j]);
        }
        lemma_by_camera(rest, camera);
        assert(entries.last() == entries[entries.len() - 1]);
        assert(forall|i: int| 0 <= i < rest.len() ==> rest[i] == entries[i]);
        if by_camera(rest).dom().contains(camera) {
            let i = choose|i: int|
                0 <= i < rest.len() && (#[trigger] rest[i]).camera@ == camera;
            assert(entries[i].camera@ == camera);
        }
    }
}

/// Putting another crop at a camera's place changes that camera's crop alone
proof fn lemma_by_camera_replaces(entries: Seq<SavedCrop>, at: int, entry: SavedCrop)
    requires
        distinct(entries),
        0 <= at < entries.len(),
        entries[at].camera@ == entry.camera@,
    ensures
        distinct(entries.update(at, entry)),
        by_camera(entries.update(at, entry)) == by_camera(entries).insert(
            entry.camera@,
            entry.crop,
        ),
{
    let after = entries.update(at, entry);
    assert(forall|i: int| 0 <= i < entries.len() ==> after[i].camera@ == entries[i].camera@);
    let wanted = by_camera(entries).insert(entry.camera@, entry.crop);
    assert forall|name: Seq<char>|
        by_camera(after).dom().contains(name) == #[trigger] wanted.dom().contains(name) && (
        wanted.dom().contains(name) ==> by_camera(after)[name] == wanted[name]) by {
        lemma_by_camera(entries, name);
        lemma_by_camera(after, name);
        if by_camera(entries).dom().contains(name) {
            let i = choose|i: int|
                0 <= i < entries.len() && (#[trigger] entries[i]).camera@ == name;
            assert(after[i].camera@ == name);
        }
        if by_camera(after).dom().contains(name) {
            let i = choose|i: int|
                0 <= i < after.len() && (#[trigger] after[i]).camera@ == name;
            assert(entries[i].camera@ == name);
        }
        assert(after[at].camera@ == entry.camera@);
    }
    assert(by_camera(after).dom() =~= wanted.dom());
    assert(by_camera(after) =~= wanted);
}

impl SavedCrops {
    /// No camera is listed twice
    pub closed spec fn wf(&self) -> bool {
        distinct(self.entries@)
    }

    /// Nothing remembered for any camera
    pub fn new() -> (saved: SavedCrops)
        ensures
            saved.wf(),
            saved@ == Map::<Seq<char>, Crop>::empty(),
    {
        SavedCrops { entries: Vec::new() }
    }

    /// What is remembered, in a list
    pub fn entries(&self) -> (entries: &Vec<SavedCrop>)
        requires
            self.wf(),
        ensures
            distinct(entries@),
            by_camera(entries@) == self@,
    {
        &self.entries
    }

    /// Where a camera stands in the list, or the length of the list
    fn position(&self, camera: &str) -> (at: usize)
        ensures
            at <= self.entries@.len(),
            at < self.entries@.len() ==> self.entries@[at as int].camera@ == camera@,
            forall|i: int| 0 <= i < at ==> (#[trigger] self.entries@[i]).camera@ != camera@,
    {
        let mut at: usize = 0;
        while at < self.entries.len()
            invariant
                at <= self.entries@.len(),
                forall|i: int| 0 <= i < at ==> (#[trigger] self.entries@[i]).camera@ != camera@,
            decreases self.entries@.len() - at,
        {
            if same(self.entries[at].camera.as_str(), camera) {
                return at;
            }
            at = at + 1;
        }
        at
    }

    /// The crop remembered for one camera
    pub fn get(&self, camera: &str) -> (crop: Option<Crop>)
        requires
            self.wf(),
        ensures
            crop == (if self@.dom().contains(camera@) {
                Some(self@[camera@])
            } else {
                None
            }),
    {
        let at: usize = self.position(camera);
        proof {
            lemma_by_camera(self.entries@, camera@);
        }
        if at < self.entries.len() {
            Some(self.entries[at].crop)
        } else {
            None
        }
    }

    /// Remember a crop for one camera, in place of any it had
    pub fn insert(&mut self, camera: &str, crop: Crop)
        requires
            old(self).wf(),
        ensures
            final(self).wf(),
            final(self)@ == old(self)@.insert(camera@, crop),
    {
        let at: usize = self.position(camera);
        let entry = SavedCrop { camera: camera.to_owned(), crop };
        let ghost before = self.entries@;
        if at < self.entries.len() {
            self.entries.set(at, entry);
            proof {
                lemma_by_camera_replaces(before, at as int, entry);
            }
        } else {
            self.entries.push(entry);
            assert(self.entries@.drop_last() =~= before);
        }
    }
}

/// What was found where the crops are remembered
#[derive(Debug)]
pub enum StateFile {
    /// There is no such file yet
    Missing,
    /// There is one, but what it holds cannot be made out
    Unreadable,
    /// These crops
    Crops(SavedCrops),
}

impl StateFile {
    /// The crops in it list no camera twice
    pub open spec fn wf(&self) -> bool {
        self matches StateFile::Crops(crops) ==> crops.wf()
    }

    /// The crops that the file holds by camera, unless that is not known
    pub open spec fn held(self) -> Option<Map<Seq<char>, Crop>> {
        match self {
            StateFile::Missing => Some(Map::empty()),
            StateFile::Unreadable => None,
            StateFile::Crops(crops) => Some(crops@),
        }
    }
}

/// The crop to start with, given what the state file holds, if that is known
pub open spec fn recalled(held: Option<Map<Seq<char>, Crop>>, camera: Seq<char>) -> Crop {
    match held {
        Some(crops) => if crops.dom().contains(camera) && crops[camera].checked() is Ok {
            crops[camera]
        } else {
            Crop::nothing()
        },
        None => Crop::nothing(),
    }
}

/// What the state file holds once a crop has been saved, given what it held
///
/// A file whose crops are not known is left as it is, so they are still not known.
pub open spec fn remembered(
    held: Option<Map<Seq<char>, Crop>>,
    camera: Seq<char>,
    crop: Crop,
) -> Option<Map<Seq<char>, Crop>> {
    match held {
        Some(crops) => Some(crops.insert(camera, crop)),
        None => None,
    }
}

/// The saved crop for one camera, out of what the state file holds
///
/// A missing or unreadable file means no crop, not a failure: the stream is far
/// more important than the crop, and starting uncropped is always safe. So does a
/// saved crop that does not make sense.
pub fn load(file: &StateFile, camera: &str) -> (crop: Crop)
    requires
        file.wf(),
    ensures
        crop == recalled(file.held(), camera@),
        file is Missing || file is Unreadable ==> crop == Crop::nothing(),
        file matches StateFile::Crops(crops) ==> crop == (if crops@.dom().contains(camera@)
            && crops@[camera@].checked() is Ok {
            crops@[camera@]
        } else {
            Crop::nothing()
        }),
{
    match file {
        StateFile::Crops(crops) => match crops.get(camera) {
            Some(crop) => match crop.validate() {
                Ok(()) => crop,
                Err(_) => Crop::default(),
            },
            None => Crop::default(),
        },
        StateFile::Missing | StateFile::Unreadable => Crop::default(),
    }
}

/// Remember the crop for one camera, leaving any others in the file alone
///
/// Gives what the file is to hold from now on. That is nothing if the file cannot be
/// read: writing it anew would lose whatever it holds for other cameras, so it must
/// not be written at all.
pub fn save(file: StateFile, camera: &str, crop: Crop) -> (written: Option<SavedCrops>)
    requires
        file.wf(),
    ensures
        match file {
            StateFile::Missing => written matches Some(crops) && crops.wf() && crops@
                == Map::<Seq<char>, Crop>::empty().insert(camera@, crop),
            StateFile::Unreadable => written is None,
            StateFile::Crops(before) => written matches Some(crops) && crops.wf() && crops@
                == before@.insert(camera@, crop),
        },
        remembered(file.held(), camera@, crop) == (match written {
            Some(crops) => Some(crops@),
            None => None,
        }),
{
    let mut written = match file {
        StateFile::Missing => SavedCrops::new(),
        StateFile::Unreadable => {
            return None;
        },
        StateFile::Crops(crops) => crops,
    };
    written.insert(camera, crop);
    Some(written)
}

/// Whether a fraction lies between zero and eight tenths, as singles go
pub open spec fn in_limits(value: Single) -> bool {
    value.finite() && 0 <= value.value() <= nearest(4 * pow2(149) / 5)
}

/// Whether two fractions come to no more than nine tenths together, as singles go
pub open spec fn fit_together(first: Single, second: Single) -> bool {
    nearest(first.magnitude() + second.magnitude()) <= nearest(9 * pow2(149) / 10)
}

/// A crop is allowed exactly where each side is within its limit, and each pair of
/// opposite sides within theirs
pub proof fn lemma_what_is_allowed(crop: Crop)
    ensures
        crop.checked() is Ok <==> {
            &&& in_limits(crop.left)
            &&& in_limits(crop.right)
            &&& in_limits(crop.top)
            &&& in_limits(crop.bottom)
            &&& fit_together(crop.left, crop.right)
            &&& fit_together(crop.top, crop.bottom)
        },
{
    lemma_limits();
}

/// The number that a crop has for one side
pub open spec fn taken_off(crop: Crop, side: Side) -> Single {
    match side {
        Side::Left => crop.left,
        Side::Right => crop.right,
        Side::Top => crop.top,
        Side::Bottom => crop.bottom,
    }
}

/// Where a side comes in the order in which they are looked at
pub open spec fn turn(side: Side) -> int {
    match side {
        Side::Left => 0,
        Side::Right => 1,
        Side::Top => 2,
        Side::Bottom => 3,
    }
}

/// What a crop is refused for is wrong with it, is reported with its own numbers, and
/// nothing that is looked at earlier is wrong
pub proof fn lemma_the_first_thing_wrong(crop: Crop)
    ensures
        match crop.checked() {
            Ok(()) => true,
            Err(CropError::Side { side, value }) => {
                &&& value == taken_off(crop, side)
                &&& !in_limits(value)
                &&& forall|other: Side|
                    turn(other) < turn(side) ==> in_limits(#[trigger] taken_off(crop, other))
            },
            Err(CropError::Pair { pair, first, second }) => {
                &&& forall|side: Side| in_limits(#[trigger] taken_off(crop, side))
                &&& !fit_together(first, second)
                &&& match pair {
                    Pair::LeftRight => first == crop.left && second == crop.right,
                    Pair::TopBottom => {
                        &&& first == crop.top && second == crop.bottom
                        &&& fit_together(crop.left, crop.right)
                    },
                }
            },
            Err(CropError::TooSmall { .. }) => false,
        },
{
    lemma_limits();
}

/// What is cut off a frame and what is kept of it make up the whole frame, and enough is
/// kept exactly where that is 128 pixels in both directions
pub proof fn lemma_what_is_kept(crop: Crop, width: nat, height: nat)
    ensures
        ({
            let (x, y, w, h) = crop.cut(width, height);
            let right = portion_of(crop.right.magnitude(), width);
            let bottom = portion_of(crop.bottom.magnitude(), height);
            &&& x == portion_of(crop.left.magnitude(), width)
            &&& y == portion_of(crop.top.magnitude(), height)
            &&& x + right <= width ==> x + w + right == width
            &&& x + right > width ==> w == 0
            &&& y + bottom <= height ==> y + h + bottom == height
            &&& y + bottom > height ==> h == 0
        }),
        crop.keeps_enough(width, height) <==> {
            &&& width >= portion_of(crop.left.magnitude(), width) + portion_of(
                crop.right.magnitude(),
                width,
            ) + 128
            &&& height >= portion_of(crop.top.magnitude(), height) + portion_of(
                crop.bottom.magnitude(),
                height,
            ) + 128
        },
{
}

/// What is published of a frame is what the crop keeps of it, cut off at the left and at
/// the top by as much as the crop takes there, and at the right and at the bottom too.
/// Where the crop is not allowed or keeps too little, it is the whole frame.
pub proof fn lemma_what_is_published(shared: CropShared, width: nat, height: nat)
    ensures
        ({
            let (x, y, w, h) = shared.published(width, height);
            let crop = shared.crop;
            if crop.checked() is Ok && crop.keeps_enough(width, height) {
                &&& x == portion_of(crop.left.magnitude(), width)
                &&& y == portion_of(crop.top.magnitude(), height)
                &&& x + w + portion_of(crop.right.magnitude(), width) == width
                &&& y + h + portion_of(crop.bottom.magnitude(), height) == height
                &&& (x, y, w, h) == crop.cut(width, height)
            } else {
                x == 0 && y == 0 && w == width && h == height
            }
        }),
{
}

/// A crop leaves the frame alone exactly where it equals the one that takes nothing,
/// and where each of its numbers is zero
pub proof fn lemma_when_nothing_is_taken(crop: Crop)
    ensures
        crop.takes_nothing() <==> crop.equals(Crop::nothing()),
        crop.takes_nothing() <==> {
            &&& crop.left.finite() && crop.left.value() == 0
            &&& crop.right.finite() && crop.right.value() == 0
            &&& crop.top.finite() && crop.top.value() == 0
            &&& crop.bottom.finite() && crop.bottom.value() == 0
        },
{
    lemma_zero_is_the_bits_of_zero(crop.left);
    lemma_zero_is_the_bits_of_zero(crop.right);
    lemma_zero_is_the_bits_of_zero(crop.top);
    lemma_zero_is_the_bits_of_zero(crop.bottom);
}

proof fn lemma_zero_is_the_bits_of_zero(x: Single)
    ensures
        x.zero() <==> x.equals(Single { bits: 0 }),
{
    let zero = Single { bits: 0 };
    assert(zero.magnitude() == 0) by (nonlinear_arith)
        requires
            zero.magnitude() == zero.significand() * pow2(zero.doublings()),
            zero.significand() == 0,
    ;
    if x.finite() {
        lemma_equality_is_that_of_values(x, zero);
    } else {
        lemma_equality_beyond_the_numbers(x, zero);
    }
}

/// Crops are equal exactly where they take equal numbers off every side
pub proof fn lemma_equal_crops_take_the_same(a: Crop, b: Crop)
    ensures
        a.equals(b) <==> forall|side: Side|
            (#[trigger] taken_off(a, side)).equals(taken_off(b, side)),
{
    if forall|side: Side| (#[trigger] taken_off(a, side)).equals(taken_off(b, side)) {
        assert(taken_off(a, Side::Left).equals(taken_off(b, Side::Left)));
        assert(taken_off(a, Side::Right).equals(taken_off(b, Side::Right)));
        assert(taken_off(a, Side::Top).equals(taken_off(b, Side::Top)));
        assert(taken_off(a, Side::Bottom).equals(taken_off(b, Side::Bottom)));
    }
}

/// A pixel to the right is four bytes further on, and a row down is a stride
pub proof fn lemma_pixels_are_four_bytes_and_rows_a_stride(x: nat, y: nat, stride: nat)
    ensures
        corner(0, 0, stride) == 0,
        corner(x + 1, y, stride) == corner(x, y, stride) + 4,
        corner(x, y + 1, stride) == corner(x, y, stride) + stride,
{
    assert((y + 1) * stride == y * stride + stride) by (nonlinear_arith);
}

/// Every side goes by its own name in what is said of it
pub proof fn lemma_the_reason_names_the_side(value: Single, shown: Seq<char>)
    ensures
        (CropError::Side { side: Side::Left, value }).description(shown) == "Crop "@ + "left"@
            + " is "@ + shown + ", which is outside 0 to 0.8"@,
        (CropError::Side { side: Side::Right, value }).description(shown) == "Crop "@ + "right"@
            + " is "@ + shown + ", which is outside 0 to 0.8"@,
        (CropError::Side { side: Side::Top, value }).description(shown) == "Crop "@ + "top"@
            + " is "@ + shown + ", which is outside 0 to 0.8"@,
        (CropError::Side { side: Side::Bottom, value }).description(shown) == "Crop "@ + "bottom"@
            + " is "@ + shown + ", which is outside 0 to 0.8"@,
{
}

/// What is said of opposite sides and of a size has their names and numbers in it
pub proof fn lemma_the_reason_gives_the_numbers(
    first: Single,
    second: Single,
    shown: Seq<char>,
    kept: (u32, u32),
    size: (u32, u32),
)
    ensures
        (CropError::Pair { pair: Pair::LeftRight, first, second }).description(shown)
            == "Crop left and right together take "@ + shown
            + "%, more than the 90% allowed"@,
        (CropError::Pair { pair: Pair::TopBottom, first, second }).description(shown)
            == "Crop top and bottom together take "@ + shown
            + "%, more than the 90% allowed"@,
        (CropError::TooSmall {
            kept_width: kept.0,
            kept_height: kept.1,
            width: size.0,
            height: size.1,
        }).description(shown) == "Crop leaves "@ + decimal(kept.0 as nat) + "x"@ + decimal(
            kept.1 as nat,
        ) + " of "@ + decimal(size.0 as nat) + "x"@ + decimal(size.1 as nat)
            + ", smaller than the 128 pixel minimum"@,
{
}

/// What is loaded for a camera is what the file holds for it, if that makes sense, and
/// otherwise no crop at all
pub proof fn lemma_what_is_loaded(held: Option<Map<Seq<char>, Crop>>, camera: Seq<char>)
    ensures
        held is None ==> recalled(held, camera) == Crop::nothing(),
        held matches Some(crops) ==> {
            &&& !crops.dom().contains(camera) ==> recalled(held, camera) == Crop::nothing()
            &&& crops.dom().contains(camera) && crops[camera].checked() is Ok ==> recalled(
                held,
                camera,
            ) == crops[camera]
            &&& crops.dom().contains(camera) && !(crops[camera].checked() is Ok) ==> recalled(
                held,
                camera,
            ) == Crop::nothing()
        },
{
}

/// A missing file holds no crop for any camera, one that cannot be read is not known to
/// hold any, and any other holds the crops that were found in it
pub proof fn lemma_what_a_file_holds(crops: SavedCrops)
    ensures
        StateFile::Missing.held() == Some(Map::<Seq<char>, Crop>::empty()),
        StateFile::Unreadable.held() is None,
        StateFile::Crops(crops).held() == Some(crops@),
{
}

/// A crop that takes nothing is allowed, and keeps the whole of every frame
pub proof fn lemma_no_crop_keeps_the_whole_frame(crop: Crop, width: nat, height: nat)
    requires
        crop.takes_nothing(),
    ensures
        crop.checked() is Ok,
        crop.cut(width, height) == (0nat, 0nat, width, height),
{
    lemma_limits();
    lemma_portion_of_zero(width);
    lemma_portion_of_zero(height);
    lemma_nearest_exact(0);
}

/// The crop that takes nothing takes nothing
pub proof fn lemma_nothing_takes_nothing()
    ensures
        Crop::nothing().takes_nothing(),
        Crop::nothing().checked() is Ok,
{
    let zero = Single { bits: 0 };
    assert(zero.magnitude() == 0) by (nonlinear_arith)
        requires
            zero.magnitude() == zero.significand() * pow2(zero.doublings()),
            zero.significand() == 0,
    ;
    lemma_no_crop_keeps_the_whole_frame(Crop::nothing(), 0, 0);
}

/// The region that is kept lies inside the frame
pub proof fn lemma_region_lies_inside(crop: Crop, width: nat, height: nat)
    requires
        crop.keeps_enough(width, height),
    ensures
        ({
            let (x, y, w, h) = crop.cut(width, height);
            x + w <= width && y + h <= height
        }),
{
}

/// Every byte of the region that is kept lies inside the bytes of the frame, which
/// run from its first row to the last pixel of its last row
pub proof fn lemma_region_bytes_lie_inside(crop: Crop, width: nat, height: nat, stride: nat)
    requires
        crop.keeps_enough(width, height),
        stride >= width * (BYTES_PER_PIXEL as nat),
    ensures
        ({
            let (x, y, w, h) = crop.cut(width, height);
            corner(x, y, stride) + corner(w, (h - 1) as nat, stride) <= corner(
                width,
                (height - 1) as nat,
                stride,
            )
        }),
{
    let (x, y, w, h) = crop.cut(width, height);
    lemma_region_lies_inside(crop, width, height);
    assert(y * stride + (h - 1) * stride <= (height - 1) * stride) by (nonlinear_arith)
        requires
            y + h <= height,
            h >= 1,
    ;
}

/// A crop does not have to be redone if the camera's resolution doubles: it still keeps
/// enough, and what it keeps has moved and grown with the frame, to within the pixel
/// that each side is rounded by
pub proof fn lemma_a_crop_follows_the_resolution(crop: Crop, width: nat, height: nat)
    requires
        crop.keeps_enough(width, height),
    ensures
        crop.keeps_enough(2 * width, 2 * height),
        ({
            let (x, y, w, h) = crop.cut(width, height);
            let (large_x, large_y, large_w, large_h) = crop.cut(2 * width, 2 * height);
            &&& 2 * x - 1 <= large_x <= 2 * x + 1
            &&& 2 * y - 1 <= large_y <= 2 * y + 1
            &&& 2 * w - 2 <= large_w <= 2 * w + 2
            &&& 2 * h - 2 <= large_h <= 2 * h + 2
        }),
{
    lemma_portion_of_twice_the_length(crop.left.magnitude(), width);
    lemma_portion_of_twice_the_length(crop.right.magnitude(), width);
    lemma_portion_of_twice_the_length(crop.top.magnitude(), height);
    lemma_portion_of_twice_the_length(crop.bottom.magnitude(), height);
}

/// An allowed crop takes the same share of frames of any two sizes off each side, to
/// within half a pixel of each and the rounding of singles
pub proof fn lemma_a_crop_takes_the_same_share_of_every_frame(
    crop: Crop,
    size: (nat, nat),
    other: (nat, nat),
)
    requires
        crop.checked() is Ok,
        size.0 < SIGNIFICAND_END,
        size.1 < SIGNIFICAND_END,
        other.0 < SIGNIFICAND_END,
        other.1 < SIGNIFICAND_END,
    ensures
        same_share(
            crop.cut(size.0, size.1).0,
            size.0,
            crop.cut(other.0, other.1).0,
            other.0,
        ),
        same_share(
            crop.cut(size.0, size.1).1,
            size.1,
            crop.cut(other.0, other.1).1,
            other.1,
        ),
        same_share(
            portion_of(crop.right.magnitude(), size.0),
            size.0,
            portion_of(crop.right.magnitude(), other.0),
            other.0,
        ),
        same_share(
            portion_of(crop.bottom.magnitude(), size.1),
            size.1,
            portion_of(crop.bottom.magnitude(), other.1),
            other.1,
        ),
{
    lemma_side_is_small(crop.left);
    lemma_side_is_small(crop.right);
    lemma_side_is_small(crop.top);
    lemma_side_is_small(crop.bottom);
    lemma_portion_is_the_same_share(crop.left.magnitude(), size.0, other.0);
    lemma_portion_is_the_same_share(crop.right.magnitude(), size.0, other.0);
    lemma_portion_is_the_same_share(crop.top.magnitude(), size.1, other.1);
    lemma_portion_is_the_same_share(crop.bottom.magnitude(), size.1, other.1);
}

/// However much is allowed to be taken, opposite sides cannot swallow the frame: at
/// least nine hundredths of it are left in each direction
pub proof fn lemma_opposite_sides_cannot_swallow_the_frame(crop: Crop)
    requires
        crop.checked() is Ok,
    ensures
        100 * (crop.left.magnitude() + crop.right.magnitude()) <= 91 * pow2(149),
        100 * (crop.top.magnitude() + crop.bottom.magnitude()) <= 91 * pow2(149),
{
    lemma_pair_is_small(crop.left, crop.right);
    lemma_pair_is_small(crop.top, crop.bottom);
}

proof fn lemma_pair_is_small(first: Single, second: Single)
    requires
        !pair_excessive(first, second),
    ensures
        100 * (first.magnitude() + second.magnitude()) <= 91 * pow2(149),
{
    let gap = pow2(125);
    let sum = first.magnitude() + second.magnitude();
    let rounded = nearest(sum);
    let limit = max_pair();
    lemma_pow2_adds(24, 125);
    lemma_pow2_pos(125);
    vstd::arithmetic::power2::lemma2_to64();
    assert(limit.significand() == 15099494 && limit.doublings() == 125);
    assert(limit.magnitude() == 15099494 * gap);
    assert(pow2(149) == 0x100_0000 * gap);
    lemma_nearest_error(sum);
    assert(100 * sum <= 91 * (0x100_0000 * gap)) by (nonlinear_arith)
        requires
            -(sum as int) <= (rounded - sum) * 0x100_0000,
            rounded <= 15099494 * gap,
    ;
}

/// Saving a crop that makes sense and then loading it gives the same crop, unless the
/// file could not be read and was left as it was
pub proof fn lemma_saving_then_loading_gives_the_same_crop(
    held: Option<Map<Seq<char>, Crop>>,
    camera: Seq<char>,
    crop: Crop,
)
    requires
        crop.checked() is Ok,
        held is Some,
    ensures
        recalled(remembered(held, camera, crop), camera) == crop,
{
}

/// Saving a crop for one camera leaves any other alone: what the file holds for it
/// stays, whether it makes sense or not, and so does what is loaded for it
pub proof fn lemma_saving_leaves_other_cameras_alone(
    held: Option<Map<Seq<char>, Crop>>,
    camera: Seq<char>,
    crop: Crop,
    other: Seq<char>,
)
    requires
        other != camera,
    ensures
        match remembered(held, camera, crop) {
            Some(after) => held matches Some(before) && after.dom().contains(other)
                == before.dom().contains(other) && (before.dom().contains(other) ==> after[other]
                == before[other]),
            None => held is None,
        },
        recalled(remembered(held, camera, crop), other) == recalled(held, other),
{
}

/// Whatever the state file held, the crop that is loaded makes sense
pub proof fn lemma_a_loaded_crop_makes_sense(
    held: Option<Map<Seq<char>, Crop>>,
    camera: Seq<char>,
)
    ensures
        recalled(held, camera).checked() is Ok,
{
    lemma_nothing_takes_nothing();
}

/// The state file is in the directory of the config, is named after it, and is not
/// the config itself
pub proof fn lemma_the_state_file_sits_beside_the_config(config: Seq<char>, state: Seq<char>)
    requires
        names_file(config),
        trimmed(state) == extended(trimmed(config), "crop.toml"@),
    ensures
        state != config,
        ({
            let (of, from) = (trimmed(state), trimmed(config));
            &&& of != from
            &&& of.take(name_start(of)) == from.take(name_start(from))
            &&& file_name(of) == extended(file_name(from), "crop.toml"@)
        }),
{
    reveal_strlit("crop.toml");
    assert("crop.toml"@[4] == '.');
    lemma_changed_extension(trimmed(config), "crop.toml"@);
}

/// The state file of a config is named like it but for the extension, in the same
/// directory, whichever that is
pub proof fn lemma_the_state_file_of_a_config(
    dir: Seq<char>,
    stem: Seq<char>,
    extension: Seq<char>,
)
    requires
        directory(dir),
        plain(stem),
        stem.len() > 0,
        stem[0] != '.',
        plain(extension),
        !extension.contains('.'),
    ensures
        ({
            let config = dir + stem + seq!['.'] + extension;
            &&& names_file(config)
            &&& trimmed(config) == config
            &&& extended(config, "crop.toml"@) == dir + stem + seq!['.'] + "crop.toml"@
            &&& extended(config, "crop.toml"@) != config
        }),
{
    reveal_strlit("crop.toml");
    assert("crop.toml"@[4] == '.');
    lemma_an_extension_is_replaced(dir, stem, extension, "crop.toml"@);
    lemma_changed_extension(dir + stem + seq!['.'] + extension, "crop.toml"@);
}

} // verus!
