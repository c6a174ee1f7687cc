//! The Syphon half of the syphon command.
//!
//! Which surface the next frame goes into, whether the frame fits it, and how its
//! rows get there.
use crate::crop::{byte_offset, corner, BYTES_PER_PIXEL};
use crate::text::{append_decimal, decimal};
use vstd::prelude::*;
use vstd::string::*;

verus! {

/// Number of surfaces to cycle through.
///
/// Triple buffering means we are not writing into a surface that Syphon may still
/// be reading from for a previous frame.
pub const RING_SIZE: usize = 3;

/// A frame that cannot be published
#[derive(Clone, Copy, Debug, PartialEq, Eq, Structural)]
pub enum PublishError {
    /// The rows of the frame are shorter than its width
    SourceStride { stride: usize, width: u32 },
    /// The frame has fewer bytes than its size needs
    SourceSize { len: usize, width: u32, height: u32 },
    /// The rows of the surface are shorter than the width of the frame
    SurfaceStride { stride: usize, width: u32 },
}

impl PublishError {
    /// The reason in words
    pub open spec fn description(self) -> Seq<char> {
        match self {
            PublishError::SourceStride { stride, width } => "Source stride "@ + decimal(
                stride as nat,
            ) + " is too small for a "@ + decimal(width as nat) + " pixel wide frame"@,
            PublishError::SourceSize { len, width, height } => "Frame is "@ + decimal(len as nat)
                + " bytes, too small for "@ + decimal(width as nat) + "x"@ + decimal(height as nat),
            PublishError::SurfaceStride { stride, width } => "IOSurface stride "@ + decimal(
                stride as nat,
            ) + " is too small for a "@ + decimal(width as nat) + " pixel wide frame"@,
        }
    }

    /// The reason in words
    pub fn describe(&self) -> (text: String)
        ensures
            text@ == self.description(),
    {
        match self {
            PublishError::SourceStride { stride, width } => {
                let mut text = "Source stride ".to_owned();
                append_decimal(&mut text, *stride as u64);
                text.append(" is too small for a ");
                append_decimal(&mut text, *width as u64);
                text.append(" pixel wide frame");
                text
            },
            PublishError::SourceSize { len, width, height } => {
                let mut text = "Frame is ".to_owned();
                append_decimal(&mut text, *len as u64);
                text.append(" bytes, too small for ");
                append_decimal(&mut text, *width as u64);
                text.append("x");
                append_decimal(&mut text, *height as u64);
                text
            },
            PublishError::SurfaceStride { stride, width } => {
                let mut text = "IOSurface stride ".to_owned();
                append_decimal(&mut text, *stride as u64);
                text.append(" is too small for a ");
                append_decimal(&mut text, *width as u64);
                text.append(" pixel wide frame");
                text
            },
        }
    }
}

/// How many bytes a picture spans from its first to its last
pub open spec fn span(height: nat, stride: nat, row_bytes: nat) -> nat {
    ((height - 1) * stride + row_bytes) as nat
}

/// What is wrong with a frame of so many bytes, if anything
pub open spec fn frame_fits(
    width: u32,
    height: u32,
    len: nat,
    stride: nat,
) -> Result<(), PublishError> {
    let row_bytes = width as nat * (BYTES_PER_PIXEL as nat);
    if stride < row_bytes {
        Err(PublishError::SourceStride { stride: stride as usize, width })
    } else if len < span(height as nat, stride, row_bytes) {
        Err(PublishError::SourceSize { len: len as usize, width, height })
    } else {
        Ok(())
    }
}

/// Check a frame against its size
fn check_frame(width: u32, height: u32, len: usize, stride: usize) -> (result: Result<
    (),
    PublishError,
>)
    requires
        height > 0,
        width * BYTES_PER_PIXEL <= usize::MAX,
    ensures
        result == frame_fits(width, height, len as nat, stride as nat),
{
    let row_bytes: usize = width as usize * BYTES_PER_PIXEL;
    if stride < row_bytes {
        return Err(PublishError::SourceStride { stride, width });
    }
    assert((height - 1) * stride <= u32::MAX * u64::MAX) by (nonlinear_arith)
        requires
            0 < height <= u32::MAX,
            0 <= stride <= u64::MAX,
    ;
    let needed: u128 = (height - 1) as u128 * stride as u128 + row_bytes as u128;
    if (len as u128) < needed {
        return Err(PublishError::SourceSize { len, width, height });
    }
    Ok(())
}

/// Where in the bytes of a frame the part to publish starts, given its top left
/// corner, if the frame is as large as it has to be
pub fn part_of_frame(
    width: u32,
    height: u32,
    len: usize,
    stride: usize,
    x: u32,
    y: u32,
) -> (start: Result<usize, PublishError>)
    requires
        width * BYTES_PER_PIXEL <= usize::MAX,
        x <= width,
        y < height,
    ensures
        match start {
            Ok(start) => {
                &&& frame_fits(width, height, len as nat, stride as nat) is Ok
                &&& start == corner(x as nat, y as nat, stride as nat)
                &&& start <= len
            },
            Err(e) => frame_fits(width, height, len as nat, stride as nat) == Err::<
                (),
                PublishError,
            >(e),
        },
{
    match check_frame(width, height, len, stride) {
        Ok(()) => {
            proof {
                lemma_part_fits(width, height, len as nat, stride as nat, x, y, 0, 1);
            }
            Ok(byte_offset(x, y, stride))
        },
        Err(e) => Err(e),
    }
}

proof fn lemma_part_fits(
    width: u32,
    height: u32,
    len: nat,
    stride: nat,
    x: u32,
    y: u32,
    w: nat,
    h: nat,
)
    requires
        frame_fits(width, height, len, stride) is Ok,
        x + w <= width,
        y + h <= height,
        h > 0,
    ensures
        corner(x as nat, y as nat, stride) + corner(w, (h - 1) as nat, stride) <= len,
{
    assert(y * stride + (h - 1) * stride <= (height - 1) * stride) by (nonlinear_arith)
        requires
            y + h <= height,
            h >= 1,
    ;
}

/// Every part of a frame that fits does so too, with what is left of the bytes from
/// where it starts
pub proof fn lemma_a_part_of_a_frame_fits(
    width: u32,
    height: u32,
    len: nat,
    stride: nat,
    part: (u32, u32, u32, u32),
)
    requires
        frame_fits(width, height, len, stride) is Ok,
        part.0 + part.2 <= width,
        part.1 + part.3 <= height,
        part.3 > 0,
    ensures
        corner(part.0 as nat, part.1 as nat, stride) <= len,
        frame_fits(
            part.2,
            part.3,
            (len - corner(part.0 as nat, part.1 as nat, stride)) as nat,
            stride,
        ) is Ok,
{
    let (x, y, w, h) = part;
    lemma_part_fits(width, height, len, stride, x, y, w as nat, h as nat);
}

/// Where a publisher of BGRA frames has got to
#[derive(Clone, Copy, Debug, PartialEq, Eq, Structural)]
pub struct Publisher {
    /// The surface that the next frame goes into
    pub next: usize,
    pub width: u32,
    pub height: u32,
}

impl Publisher {
    /// The bytes that one row of a frame takes
    pub open spec fn row_bytes(self) -> nat {
        self.width as nat * (BYTES_PER_PIXEL as nat)
    }

    /// There is a surface to go to, there are rows, and a row can be counted
    pub open spec fn wf(self) -> bool {
        &&& self.next < RING_SIZE
        &&& self.height > 0
        &&& self.row_bytes() <= usize::MAX
    }

    /// What is wrong with a frame of so many bytes, if anything
    pub open spec fn frame_checked(self, len: nat, stride: nat) -> Result<(), PublishError> {
        frame_fits(self.width, self.height, len, stride)
    }

    /// A publisher for frames of the given size, about to use the first surface
    pub fn new(width: u32, height: u32) -> (publisher: Publisher)
        requires
            height > 0,
            width * BYTES_PER_PIXEL <= usize::MAX,
        ensures
            publisher.wf(),
            publisher.next == 0,
            publisher.width == width,
            publisher.height == height,
    {
        Publisher { next: 0, width, height }
    }

    /// The size this publisher was built for
    pub fn dimensions(&self) -> (size: (u32, u32))
        ensures
            size == (self.width, self.height),
    {
        (self.width, self.height)
    }

    /// Take the next surface for a frame, if the frame is as large as it has to be
    ///
    /// `stride` is the number of bytes per row, which is not necessarily four for
    /// each pixel of the width.
    pub fn begin(&mut self, len: usize, stride: usize) -> (slot: Result<usize, PublishError>)
        requires
            old(self).wf(),
        ensures
            final(self).wf(),
            final(self).width == old(self).width,
            final(self).height == old(self).height,
            match slot {
                Ok(slot) => {
                    &&& old(self).frame_checked(len as nat, stride as nat) is Ok
                    &&& slot == old(self).next
                    &&& final(self).next == surface_after(old(self).next as nat, 1)
                    &&& final(self).next == (old(self).next + 1) % 3
                    &&& stride >= 4 * old(self).width
                    &&& len >= (old(self).height - 1) * stride + 4 * old(self).width
                },
                Err(e) => {
                    &&& old(self).frame_checked(len as nat, stride as nat) == Err::<
                        (),
                        PublishError,
                    >(e)
                    &&& final(self).next == old(self).next
                },
            },
    {
        match check_frame(self.width, self.height, len, stride) {
            Ok(()) => {},
            Err(e) => {
                return Err(e);
            },
        }
        let slot: usize = self.next;
        self.next = (self.next + 1) % RING_SIZE;
        Ok(slot)
    }

    /// Whether the rows of a surface are wide enough
    ///
    /// Surface rows are padded for alignment, so they are generally wider than the
    /// frame itself.
    pub fn check_surface(&self, stride: usize) -> (result: Result<(), PublishError>)
        requires
            self.wf(),
        ensures
            result == (if stride < self.row_bytes() {
                Err((PublishError::SurfaceStride { stride, width: self.width }))
            } else {
                Ok(())
            }),
            result is Ok <==> stride >= 4 * self.width,
    {
        if stride < self.width as usize * BYTES_PER_PIXEL {
            Err(PublishError::SurfaceStride { stride, width: self.width })
        } else {
            Ok(())
        }
    }

    /// Copy a frame into a surface, upside down
    ///
    /// Syphon is handed frames whose first row is the bottom one, but decoded video
    /// is top down, so the rows are written in reverse. This costs nothing since the
    /// frame is being copied anyway.
    pub fn copy(&self, src: &[u8], src_stride: usize, dst: &mut [u8], dst_stride: usize)
        requires
            self.wf(),
            self.frame_checked(src@.len(), src_stride as nat) is Ok,
            dst_stride >= self.row_bytes(),
            old(dst)@.len() >= span(self.height as nat, dst_stride as nat, self.row_bytes()),
        ensures
            flipped(
                src@,
                src_stride as int,
                old(dst)@,
                final(dst)@,
                dst_stride as int,
                self.row_bytes() as int,
                self.height as int,
            ),
            final(dst)@.len() == old(dst)@.len(),
            forall|row: int, col: int|
                0 <= row < self.height && 0 <= col < 4 * self.width ==> final(dst)@[#[trigger] at(
                    row,
                    col,
                    dst_stride as int,
                )] == src@[(self.height - 1 - row) * src_stride + col],
    {
        let row_bytes: usize = self.width as usize * BYTES_PER_PIXEL;
        copy_flipped(src, src_stride, dst, dst_stride, row_bytes, self.height as usize);
    }
}

/// Where a byte of a row stands
pub open spec fn at(row: int, col: int, stride: int) -> int {
    row * stride + col
}

/// Whether a byte belongs to one of the rows, rather than to what pads or follows them
pub open spec fn in_picture(p: int, stride: int, row_bytes: int, height: int) -> bool {
    exists|row: int, col: int|
        0 <= row < height && 0 <= col < row_bytes && p == #[trigger] at(row, col, stride)
}

/// Whether `after` is `before` with the rows of a picture written over it, the last
/// one first, and with every other byte as it was
pub open spec fn flipped(
    src: Seq<u8>,
    src_stride: int,
    before: Seq<u8>,
    after: Seq<u8>,
    dst_stride: int,
    row_bytes: int,
    height: int,
) -> bool {
    &&& after.len() == before.len()
    &&& forall|row: int, col: int|
        0 <= row < height && 0 <= col < row_bytes ==> after[#[trigger] at(row, col, dst_stride)]
            == src[at(height - 1 - row, col, src_stride)]
    &&& forall|p: int|
        0 <= p < before.len() && !in_picture(p, dst_stride, row_bytes, height)
            ==> #[trigger] after[p] == before[p]
}

/// `<[T]>::copy_from_slice`: the slice becomes the same as the other one, which has
/// to be of the same length
pub assume_specification<T: Copy>[ <[T]>::copy_from_slice ](dst: &mut [T], src: &[T])
    requires
        old(dst)@.len() == src@.len(),
    ensures
        final(dst)@ == src@,
;

/// A byte of the rows stands in one of them only, and inside the span of them all
proof fn lemma_at(row: int, col: int, stride: int, row_bytes: int, height: int)
    requires
        0 <= row < height,
        0 <= col < row_bytes <= stride,
    ensures
        0 <= at(row, col, stride) < (height - 1) * stride + row_bytes,
        forall|other: int, c: int|
            0 <= other && 0 <= c < row_bytes && #[trigger] at(other, c, stride) == at(
                row,
                col,
                stride,
            ) ==> other == row && c == col,
{
    assert(0 <= row * stride <= (height - 1) * stride) by (nonlinear_arith)
        requires
            0 <= row <= height - 1,
            stride >= 0,
    ;
    assert forall|other: int, c: int|
        0 <= other && 0 <= c < row_bytes && #[trigger] at(other, c, stride) == at(
            row,
            col,
            stride,
        ) implies other == row && c == col by {
        assert(other == row) by (nonlinear_arith)
            requires
                other * stride + c == row * stride + col,
                0 <= c < stride,
                0 <= col < stride,
        ;
    }
}

/// Put one row in its place
fn copy_row(src: &[u8], from: usize, dst: &mut [u8], to: usize, row_bytes: usize)
    requires
        from + row_bytes <= src@.len(),
        to + row_bytes <= old(dst)@.len(),
    ensures
        final(dst)@.len() == old(dst)@.len(),
        forall|col: int|
            0 <= col < row_bytes ==> #[trigger] final(dst)@[to + col] == src@[from + col],
        forall|p: int|
            0 <= p < old(dst)@.len() && !(to <= p < to + row_bytes) ==> #[trigger] final(dst)@[p]
                == old(dst)@[p],
{
    assert(src.len() == src@.len());
    let (_, tail) = dst.split_at_mut(to);
    let (row, _) = tail.split_at_mut(row_bytes);
    row.copy_from_slice(&src[from..from + row_bytes]);
}

fn copy_flipped(
    src: &[u8],
    src_stride: usize,
    dst: &mut [u8],
    dst_stride: usize,
    row_bytes: usize,
    height: usize,
)
    requires
        height > 0,
        row_bytes <= src_stride,
        row_bytes <= dst_stride,
        src@.len() >= (height - 1) * src_stride + row_bytes,
        old(dst)@.len() >= (height - 1) * dst_stride + row_bytes,
    ensures
        flipped(
            src@,
            src_stride as int,
            old(dst)@,
            final(dst)@,
            dst_stride as int,
            row_bytes as int,
            height as int,
        ),
{
    let ghost before = dst@;
    let mut row: usize = 0;
    assert(src.len() == src@.len());
    assert(dst.len() == dst@.len());
    while row < height
        invariant
            row <= height,
            src@.len() <= usize::MAX,
            before.len() <= usize::MAX,
            row_bytes <= src_stride,
            row_bytes <= dst_stride,
            src@.len() >= (height - 1) * src_stride + row_bytes,
            before.len() >= (height - 1) * dst_stride + row_bytes,
            dst@.len() == before.len(),
            forall|r: int, col: int|
                height - row <= r < height && 0 <= col < row_bytes ==> dst@[#[trigger] at(
                    r,
                    col,
                    dst_stride as int,
                )] == src@[at(height - 1 - r, col, src_stride as int)],
            forall|p: int|
                0 <= p < before.len() && !in_picture(
                    p,
                    dst_stride as int,
                    row_bytes as int,
                    height as int,
                ) ==> #[trigger] dst@[p] == before[p],
        decreases height - row,
    {
        let ghost done = dst@;
        let ghost target = height - 1 - row;
        assert(0 <= row * src_stride <= (height - 1) * src_stride) by (nonlinear_arith)
            requires
                0 <= row <= height - 1,
        ;
        assert(0 <= target * dst_stride <= (height - 1) * dst_stride) by (nonlinear_arith)
            requires
                0 <= target <= height - 1,
        ;
        let from: usize = row * src_stride;
        let to: usize = (height - 1 - row) * dst_stride;
        copy_row(src, from, dst, to, row_bytes);
        proof {
            let stride = dst_stride as int;
            assert forall|r: int, col: int|
                height - row - 1 <= r < height && 0 <= col < row_bytes implies dst@[#[trigger] at(
                r,
                col,
                stride,
            )] == src@[at(height - 1 - r, col, src_stride as int)] by {
                lemma_at(r, col, stride, row_bytes as int, height as int);
                if r == target {
                    assert(at(r, col, stride) == to + col);
                    assert(at(height - 1 - r, col, src_stride as int) == from + col);
                } else {
                    let p = at(r, col, stride);
                    if to <= p < to + row_bytes {
                        assert(at(target, p - to, stride) == p);
                    }
                    assert(dst@[p] == done[p]);
                }
            }
            assert forall|p: int|
                0 <= p < before.len() && !in_picture(
                    p,
                    stride,
                    row_bytes as int,
                    height as int,
                ) implies #[trigger] dst@[p] == before[p] by {
                if to <= p < to + row_bytes {
                    assert(at(target, p - to, stride) == p);
                }
                assert(dst@[p] == done[p]);
            }
        }
        row = row + 1;
    }
}

/// The surface that the frame after `ahead` others goes into, if the first of those
/// goes into `next`
pub open spec fn surface_after(next: nat, ahead: nat) -> nat {
    (next + ahead) % (RING_SIZE as nat)
}

/// A surface is not written to again until all the others have been
pub proof fn lemma_surfaces_take_turns(next: nat, ahead: nat)
    requires
        next < RING_SIZE,
    ensures
        surface_after(next, ahead + 1) == (surface_after(next, ahead) + 1) % (RING_SIZE as nat),
        0 < ahead < RING_SIZE ==> surface_after(next, ahead) != next,
        surface_after(next, RING_SIZE as nat) == next,
{
}

/// A frame fits exactly where its rows have four bytes for each pixel of its width, and
/// its bytes reach to the end of its last row. If not, that is what it is refused for,
/// the rows first.
pub proof fn lemma_when_a_frame_fits(width: u32, height: u32, len: usize, stride: usize)
    requires
        height > 0,
    ensures
        ({
            let fits = frame_fits(width, height, len as nat, stride as nat);
            let wide = stride >= 4 * width;
            let long = len >= (height - 1) * stride + 4 * width;
            &&& fits is Ok <==> wide && long
            &&& !wide ==> fits == Err::<(), PublishError>(
                (PublishError::SourceStride { stride, width }),
            )
            &&& wide && !long ==> fits == Err::<(), PublishError>(
                (PublishError::SourceSize { len, width, height }),
            )
        }),
{
    assert((height - 1) * stride >= 0) by (nonlinear_arith)
        requires
            height > 0,
            stride >= 0,
    ;
}

/// A picture that has been copied stands upside down: the byte in a column of a row is
/// that of the row as far from the other end. What does not belong to a row is as it was.
pub proof fn lemma_a_copied_picture_stands_upside_down(
    src: Seq<u8>,
    src_stride: int,
    before: Seq<u8>,
    after: Seq<u8>,
    dst_stride: int,
    row_bytes: int,
    height: int,
    row: int,
    col: int,
)
    requires
        flipped(src, src_stride, before, after, dst_stride, row_bytes, height),
        row_bytes <= dst_stride,
        0 <= row < height,
        0 <= col < dst_stride,
    ensures
        after.len() == before.len(),
        col < row_bytes ==> after[row * dst_stride + col] == src[(height - 1 - row) * src_stride
            + col],
        col >= row_bytes && row * dst_stride + col < before.len() ==> after[row * dst_stride + col]
            == before[row * dst_stride + col],
{
    let p = row * dst_stride + col;
    assert(p >= 0) by (nonlinear_arith)
        requires
            p == row * dst_stride + col,
            row >= 0,
            dst_stride >= 0,
            col >= 0,
    ;
    assert(at(row, col, dst_stride) == p);
    if col >= row_bytes && in_picture(p, dst_stride, row_bytes, height) {
        let (r, c) = choose|r: int, c: int|
            0 <= r < height && 0 <= c < row_bytes && p == #[trigger] at(r, c, dst_stride);
        assert(r == row) by (nonlinear_arith)
            requires
                r * dst_stride + c == row * dst_stride + col,
                0 <= c < dst_stride,
                0 <= col < dst_stride,
        ;
    }
}

/// What follows the rows of a picture is as it was once the picture has been copied
pub proof fn lemma_a_copied_picture_ends_with_its_last_row(
    src: Seq<u8>,
    src_stride: int,
    before: Seq<u8>,
    after: Seq<u8>,
    dst_stride: int,
    row_bytes: int,
    height: int,
    p: int,
)
    requires
        flipped(src, src_stride, before, after, dst_stride, row_bytes, height),
        0 < row_bytes <= dst_stride,
        height > 0,
        (height - 1) * dst_stride + row_bytes <= p < before.len(),
    ensures
        after[p] == before[p],
{
    assert(p >= 0) by (nonlinear_arith)
        requires
            p >= (height - 1) * dst_stride + row_bytes,
            height > 0,
            row_bytes > 0,
            dst_stride > 0,
    ;
    if in_picture(p, dst_stride, row_bytes, height) {
        let (r, c) = choose|r: int, c: int|
            0 <= r < height && 0 <= c < row_bytes && p == #[trigger] at(r, c, dst_stride);
        lemma_at(r, c, dst_stride, row_bytes, height);
    }
}

/// What is said of a frame that cannot be published has its own numbers in it
pub proof fn lemma_the_reason_gives_the_numbers(stride: usize, len: usize, width: u32, height: u32)
    ensures
        (PublishError::SourceStride { stride, width }).description() == "Source stride "@ + decimal(
            stride as nat,
        ) + " is too small for a "@ + decimal(width as nat) + " pixel wide frame"@,
        (PublishError::SurfaceStride { stride, width }).description() == "IOSurface stride "@
            + decimal(stride as nat) + " is too small for a "@ + decimal(width as nat)
            + " pixel wide frame"@,
        (PublishError::SourceSize { len, width, height }).description() == "Frame is "@ + decimal(
            len as nat,
        ) + " bytes, too small for "@ + decimal(width as nat) + "x"@ + decimal(height as nat),
{
}

/// Copying a frame into a surface and that surface into another frame gives back
/// every row of the first
pub proof fn lemma_flipping_twice_gives_the_picture_back(
    src: Seq<u8>,
    src_stride: int,
    surface_before: Seq<u8>,
    surface: Seq<u8>,
    surface_stride: int,
    back_before: Seq<u8>,
    back: Seq<u8>,
    back_stride: int,
    row_bytes: int,
    height: int,
)
    requires
        flipped(src, src_stride, surface_before, surface, surface_stride, row_bytes, height),
        flipped(surface, surface_stride, back_before, back, back_stride, row_bytes, height),
    ensures
        forall|row: int, col: int|
            0 <= row < height && 0 <= col < row_bytes ==> back[#[trigger] at(row, col, back_stride)]
                == src[at(row, col, src_stride)],
{
    assert forall|row: int, col: int| 0 <= row < height && 0 <= col < row_bytes implies back[
    #[trigger] at(row, col, back_stride)] == src[at(row, col, src_stride)] by {
        assert(back[at(row, col, back_stride)] == surface[at(
            height - 1 - row,
            col,
            surface_stride,
        )]);
    }
}

} // verus!
