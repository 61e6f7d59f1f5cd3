//! The frame: an RGBA8 pixel buffer and a depth buffer, and the rules by
//! which triangles and their samples get into them.

use vstd::prelude::*;
use crate::binary32::{at_least, at_most, clamp, le, lt, same, to_u8, whole, LARGEST, ZERO};
use crate::raster::{is_coverage, raster_triangle, Fragment, Triangle};

verus! {

/// What a cleared depth cell holds: the largest finite number, so that
/// every finite depth passes the first test.
pub const FAR: u32 = LARGEST;

/// A triangle after projection: its corners in screen pixels, and the
/// numbers that decide whether it is drawn at all.
#[derive(Clone, Copy, Debug)]
pub struct Projected {
    /// The normal in world space, dotted with the direction from corner `a`
    /// to the camera.
    pub facing: u32,
    /// The reciprocals of the clip-space `w` of the three corners.
    pub inv_w: (u32, u32, u32),
    /// The corners in screen pixels.
    pub screen: Triangle,
}

/// A shaded fragment: a pixel, its depth and its colour.
#[derive(Clone, Copy, Debug)]
pub struct Sample {
    pub x: i32,
    pub y: i32,
    pub depth: u32,
    pub red: u8,
    pub green: u8,
    pub blue: u8,
}

impl Projected {
    /// The normal does not point toward the camera.
    pub open spec fn back_facing(self) -> bool {
        le(self.facing, ZERO)
    }

    /// Some corner lies behind the camera, or on its plane.
    pub open spec fn behind_camera(self) -> bool {
        le(self.inv_w.0, ZERO) || le(self.inv_w.1, ZERO) || le(self.inv_w.2, ZERO)
    }

    /// Neither culled as a back face nor rejected at the near plane.
    pub open spec fn visible(self) -> bool {
        !self.back_facing() && !self.behind_camera()
    }
}

/// The cell of pixel `(x, y)` in a buffer of rows `width` long.
pub open spec fn cell(width: int, x: int, y: int) -> int {
    y * width + x
}

/// The buffers are large enough for a frame of `width` by `height` pixels:
/// four bytes a pixel, one depth a pixel.
pub open spec fn holds_frame(width: int, height: int, pixels: Seq<u8>, zbuffer: Seq<u32>) -> bool {
    &&& 0 <= width
    &&& 0 <= height
    &&& 4 * (width * height) <= pixels.len()
    &&& width * height <= zbuffer.len()
}

impl Sample {
    /// The byte that a colour channel of the given strength is stored as:
    /// the number rounded toward zero, no less than 0 and no more than 255.
    pub open spec fn channel(strength: u32) -> int {
        clamp(whole(strength), 0, 255)
    }

    /// The pixel lies on a screen of `width` by `height` pixels.
    pub open spec fn on_screen(self, width: int, height: int) -> bool {
        0 <= self.x < width && 0 <= self.y < height
    }

    /// The depth test: the depth in the cell is not nearer than the
    /// sample's. A sample as deep as what is there passes.
    pub open spec fn passes(self, width: int, zbuffer: Seq<u32>) -> bool {
        le(self.depth, zbuffer[cell(width, self.x as int, self.y as int)])
    }

    /// The frame with the sample's colour written; the fourth byte of the
    /// pixel stays.
    pub open spec fn colour_written(self, width: int, pixels: Seq<u8>) -> Seq<u8> {
        let i = 4 * cell(width, self.x as int, self.y as int);
        pixels.update(i, self.red).update(i + 1, self.green).update(i + 2, self.blue)
    }

    /// The depth buffer with the sample's depth written.
    pub open spec fn depth_written(self, width: int, zbuffer: Seq<u32>) -> Seq<u32> {
        zbuffer.update(cell(width, self.x as int, self.y as int), self.depth)
    }

    /// The two buffers after the sample was tested and, if it passed,
    /// written.
    pub open spec fn plotted(self, width: int, frame: (Seq<u8>, Seq<u32>)) -> (Seq<u8>, Seq<u32>) {
        if self.passes(width, frame.1) {
            (self.colour_written(width, frame.0), self.depth_written(width, frame.1))
        } else {
            frame
        }
    }
}

/// The pixel of the sample shows the sample: its colour and its depth.
pub open spec fn shows(frame: (Seq<u8>, Seq<u32>), width: int, sample: Sample) -> bool {
    let i = cell(width, sample.x as int, sample.y as int);
    &&& frame.0[4 * i] == sample.red
    &&& frame.0[4 * i + 1] == sample.green
    &&& frame.0[4 * i + 2] == sample.blue
    &&& frame.1[i] == sample.depth
}

/// The two buffers after the samples were plotted one after the other.
pub open spec fn drawn(samples: Seq<Sample>, width: int, frame: (Seq<u8>, Seq<u32>)) -> (
    Seq<u8>,
    Seq<u32>,
)
    decreases samples.len(),
{
    if samples.len() == 0 {
        frame
    } else {
        samples.last().plotted(width, drawn(samples.drop_last(), width, frame))
    }
}

impl Sample {
    /// The sample of a pixel whose depth and colour were computed as
    /// numbers: each channel is cut to a byte.
    pub fn shaded(x: i32, y: i32, depth: u32, red: u32, green: u32, blue: u32) -> (s: Sample)
        ensures
            s.x == x,
            s.y == y,
            s.depth == depth,
            s.red == Sample::channel(red),
            s.green == Sample::channel(green),
            s.blue == Sample::channel(blue),
    {
        Sample { x, y, depth, red: to_u8(red), green: to_u8(green), blue: to_u8(blue) }
    }
}

/// Resets every pixel of an RGBA8 frame to opaque black.
pub fn clear(pixels: &mut [u8])
    requires
        old(pixels)@.len() % 4 == 0,
    ensures
        final(pixels)@.len() == old(pixels)@.len(),
        forall|i: int|
            0 <= i < final(pixels)@.len() ==> #[trigger] final(pixels)@[i] == (if i % 4 == 3 {
                255u8
            } else {
                0u8
            }),
{
    let l: usize = pixels.len();
    let mut i: usize = 0;
    while i < l
        invariant
            l == pixels@.len(),
            l % 4 == 0,
            i % 4 == 0,
            i <= l,
            forall|j: int|
                0 <= j < i ==> #[trigger] pixels@[j] == (if j % 4 == 3 {
                    255u8
                } else {
                    0u8
                }),
        decreases l - i,
    {
        let ghost before = pixels@;
        pixels[i] = 0;
        pixels[i + 1] = 0;
        pixels[i + 2] = 0;
        pixels[i + 3] = 255;
        proof {
            assert forall|j: int| 0 <= j < i + 4 implies #[trigger] pixels@[j] == (if j % 4 == 3 {
                255u8
            } else {
                0u8
            }) by {
                if j < i {
                    assert(pixels@[j] == before[j]);
                }
            }
        }
        i += 4;
    }
}

/// Resets every depth cell to `FAR`.
pub fn clear_depth(zbuffer: &mut [u32])
    ensures
        final(zbuffer)@.len() == old(zbuffer)@.len(),
        forall|i: int| 0 <= i < final(zbuffer)@.len() ==> #[trigger] final(zbuffer)@[i] == FAR,
{
    let l: usize = zbuffer.len();
    let mut i: usize = 0;
    while i < l
        invariant
            l == zbuffer@.len(),
            i <= l,
            forall|j: int| 0 <= j < i ==> #[trigger] zbuffer@[j] == FAR,
        decreases l - i,
    {
        zbuffer[i] = FAR;
        i += 1;
    }
}

/// Back-face culling: whether a triangle with this facing number is
/// skipped, whatever its winding on the screen.
pub fn faces_away(facing: u32) -> (r: bool)
    ensures
        r == le(facing, ZERO),
{
    at_most(facing, ZERO)
}

/// Culling, near-plane rejection and scan conversion of one projected
/// triangle: the pixels to shade, in row-major order. A back face, a
/// triangle with a corner behind the camera and a triangle without area
/// yield none.
pub fn project_triangle(width: i32, height: i32, triangle: &Projected) -> (fragments: Vec<Fragment>)
    ensures
        !triangle.visible() ==> fragments@.len() == 0,
        triangle.visible() ==> is_coverage(
            fragments@,
            width as int,
            height as int,
            triangle.screen,
        ),
        triangle.screen.doubled_area() == 0 ==> fragments@.len() == 0,
{
    if faces_away(triangle.facing) {
        return Vec::new();
    }
    if at_most(triangle.inv_w.0, ZERO) || at_most(triangle.inv_w.1, ZERO) || at_most(
        triangle.inv_w.2,
        ZERO,
    ) {
        return Vec::new();
    }
    raster_triangle(width, height, &triangle.screen)
}

/// A pixel of the frame has its cell inside the depth buffer, and its four
/// bytes inside the pixel buffer.
pub proof fn lemma_cell_in_frame(width: int, height: int, x: int, y: int)
    requires
        0 <= x < width,
        0 <= y < height,
    ensures
        0 <= cell(width, x, y) < width * height,
        0 <= y * width <= cell(width, x, y),
        4 * cell(width, x, y) + 3 < 4 * (width * height),
{
    assert(0 <= y * width && y * width + width <= height * width && height * width == width
        * height) by (nonlinear_arith)
        requires
            0 <= y < height,
            0 < width,
    ;
}

fn cell_of(width: i32, height: i32, x: i32, y: i32, limit: usize) -> (i: usize)
    requires
        0 <= x < width,
        0 <= y < height,
        width * height <= limit,
    ensures
        i == cell(width as int, x as int, y as int),
        i < width * height,
{
    proof {
        lemma_cell_in_frame(width as int, height as int, x as int, y as int);
    }
    (y as usize) * (width as usize) + (x as usize)
}

/// The depth test alone: whether a sample of this depth at `(x, y)` would be
/// written.
pub fn depth_test(width: i32, height: i32, zbuffer: &[u32], x: i32, y: i32, depth: u32) -> (r:
    bool)
    requires
        0 <= x < width,
        0 <= y < height,
        width * height <= zbuffer@.len(),
    ensures
        r == le(depth, zbuffer@[cell(width as int, x as int, y as int)]),
{
    let i = cell_of(width, height, x, y, zbuffer.len());
    at_least(zbuffer[i], depth)
}

/// Tests one sample against the depth buffer and, if it passes, writes its
/// colour and its depth. The fourth byte of the pixel is left as it is.
pub fn plot(
    width: i32,
    height: i32,
    pixels: &mut [u8],
    zbuffer: &mut [u32],
    sample: &Sample,
) -> (written: bool)
    requires
        holds_frame(width as int, height as int, old(pixels)@, old(zbuffer)@),
        sample.on_screen(width as int, height as int),
    ensures
        written == sample.passes(width as int, old(zbuffer)@),
        (final(pixels)@, final(zbuffer)@) == sample.plotted(
            width as int,
            (old(pixels)@, old(zbuffer)@),
        ),
        final(pixels)@.len() == old(pixels)@.len(),
        final(zbuffer)@.len() == old(zbuffer)@.len(),
{
    let i = cell_of(width, height, sample.x, sample.y, zbuffer.len());
    assert(4 * i + 3 < pixels.len());
    if at_least(zbuffer[i], sample.depth) {
        pixels[4 * i] = sample.red;
        pixels[4 * i + 1] = sample.green;
        pixels[4 * i + 2] = sample.blue;
        zbuffer[i] = sample.depth;
        true
    } else {
        false
    }
}

/// Plots the samples in the order given.
pub fn draw(width: i32, height: i32, pixels: &mut [u8], zbuffer: &mut [u32], samples: &[Sample])
    requires
        holds_frame(width as int, height as int, old(pixels)@, old(zbuffer)@),
        forall|k: int|
            0 <= k < samples@.len() ==> (#[trigger] samples@[k]).on_screen(
                width as int,
                height as int,
            ),
    ensures
        (final(pixels)@, final(zbuffer)@) == drawn(
            samples@,
            width as int,
            (old(pixels)@, old(zbuffer)@),
        ),
        final(pixels)@.len() == old(pixels)@.len(),
        final(zbuffer)@.len() == old(zbuffer)@.len(),
{
    let n: usize = samples.len();
    let mut k: usize = 0;
    while k < n
        invariant
            n == samples@.len(),
            k <= n,
            holds_frame(width as int, height as int, pixels@, zbuffer@),
            pixels@.len() == old(pixels)@.len(),
            zbuffer@.len() == old(zbuffer)@.len(),
            forall|j: int|
                0 <= j < samples@.len() ==> (#[trigger] samples@[j]).on_screen(
                    width as int,
                    height as int,
                ),
            (pixels@, zbuffer@) == drawn(
                samples@.take(k as int),
                width as int,
                (old(pixels)@, old(zbuffer)@),
            ),
        decreases n - k,
    {
        proof {
            assert(samples@.take(k + 1).drop_last() == samples@.take(k as int));
            assert(samples@.take(k + 1).last() == samples@[k as int]);
        }
        plot(width, height, pixels, zbuffer, &samples[k]);
        k += 1;
    }
    proof {
        assert(samples@.take(n as int) == samples@);
    }
}

/// Depth ordering. Of two samples at one pixel the nearer is the one
/// seen, whichever of them was plotted first: both orders leave the buffers
/// as the nearer sample alone would.
pub proof fn lemma_nearer_sample_wins(
    width: int,
    height: int,
    frame: (Seq<u8>, Seq<u32>),
    near: Sample,
    far: Sample,
)
    requires
        holds_frame(width, height, frame.0, frame.1),
        near.on_screen(width, height),
        near.x == far.x,
        near.y == far.y,
        lt(near.depth, far.depth),
    ensures
        far.plotted(width, near.plotted(width, frame)) == near.plotted(width, frame),
        near.plotted(width, far.plotted(width, frame)) == near.plotted(width, frame),
        far.passes(width, frame.1) ==> near.passes(width, frame.1),
        near.passes(width, frame.1) ==> shows(near.plotted(width, frame), width, near),
{
    lemma_cell_in_frame(width, height, near.x as int, near.y as int);
    let i = cell(width, near.x as int, near.y as int);
    let first = far.plotted(width, frame);
    let both = near.plotted(width, first);
    let alone = near.plotted(width, frame);
    if far.passes(width, frame.1) {
        assert(first.1[i] == far.depth);
        assert(near.passes(width, first.1));
        assert(both.0 =~= alone.0);
        assert(both.1 =~= alone.1);
    }
}

/// At equal depth the later sample wins: plotted after one as deep as
/// itself, at the same pixel, a sample leaves the buffers as it would
/// alone.
pub proof fn lemma_later_sample_wins_tie(
    width: int,
    height: int,
    frame: (Seq<u8>, Seq<u32>),
    earlier: Sample,
    later: Sample,
)
    requires
        holds_frame(width, height, frame.0, frame.1),
        later.on_screen(width, height),
        earlier.x == later.x,
        earlier.y == later.y,
        same(earlier.depth, later.depth),
    ensures
        later.plotted(width, earlier.plotted(width, frame)) == later.plotted(width, frame),
        later.passes(width, frame.1) == earlier.passes(width, frame.1),
        later.passes(width, frame.1) ==> shows(
            later.plotted(width, earlier.plotted(width, frame)),
            width,
            later,
        ),
{
    lemma_cell_in_frame(width, height, later.x as int, later.y as int);
    let i = cell(width, later.x as int, later.y as int);
    let first = earlier.plotted(width, frame);
    let both = later.plotted(width, first);
    let alone = later.plotted(width, frame);
    if earlier.passes(width, frame.1) {
        assert(first.1[i] == earlier.depth);
        assert(both.0 =~= alone.0);
        assert(both.1 =~= alone.1);
    }
}

/// Some sample of the sequence lies on the pixel with cell `c`.
pub open spec fn plots_cell(samples: Seq<Sample>, width: int, c: int) -> bool {
    exists|k: int|
        0 <= k < samples.len() && cell(
            width,
            (#[trigger] samples[k]).x as int,
            samples[k].y as int,
        ) == c
}

/// What plotting one sample leaves alone: the sizes of both buffers, the
/// fourth byte of every pixel, and every pixel but the sample's own. And it
/// never moves a depth away from the camera.
pub open spec fn frame_kept(
    width: int,
    frame: (Seq<u8>, Seq<u32>),
    after: (Seq<u8>, Seq<u32>),
    samples: Seq<Sample>,
) -> bool {
    &&& after.0.len() == frame.0.len()
    &&& after.1.len() == frame.1.len()
    &&& forall|i: int| 0 <= i < frame.0.len() && i % 4 == 3 ==> #[trigger] after.0[i] == frame.0[i]
    &&& forall|i: int|
        0 <= i < frame.0.len() && !plots_cell(samples, width, i / 4) ==> #[trigger] after.0[i]
            == frame.0[i]
    &&& forall|c: int|
        0 <= c < frame.1.len() && !plots_cell(samples, width, c) ==> #[trigger] after.1[c]
            == frame.1[c]
    &&& forall|c: int|
        0 <= c < frame.1.len() ==> #[trigger] after.1[c] == frame.1[c] || le(
            after.1[c],
            frame.1[c],
        )
}

/// Drawing leaves alone what `frame_kept` names: pixels that failed the
/// inside test or the depth test are not modified, and no fourth byte is.
pub proof fn lemma_draw_keeps_frame(
    width: int,
    height: int,
    frame: (Seq<u8>, Seq<u32>),
    samples: Seq<Sample>,
)
    requires
        holds_frame(width, height, frame.0, frame.1),
        forall|k: int| 0 <= k < samples.len() ==> (#[trigger] samples[k]).on_screen(width, height),
    ensures
        frame_kept(width, frame, drawn(samples, width, frame), samples),
    decreases samples.len(),
{
    if samples.len() > 0 {
        let rest = samples.drop_last();
        let last = samples.last();
        lemma_draw_keeps_frame(width, height, frame, rest);
        let middle = drawn(rest, width, frame);
        let after = drawn(samples, width, frame);
        let own = cell(width, last.x as int, last.y as int);
        lemma_cell_in_frame(width, height, last.x as int, last.y as int);
        assert(plots_cell(samples, width, own)) by {
            assert(samples[samples.len() - 1] == last);
        }
        assert forall|c: int| plots_cell(rest, width, c) implies plots_cell(samples, width, c) by {
            let k = choose|k: int|
                0 <= k < rest.len() && cell(width, (#[trigger] rest[k]).x as int, rest[k].y as int)
                    == c;
            assert(samples[k] == rest[k]);
        }
        assert forall|c: int| 0 <= c < frame.1.len() implies #[trigger] after.1[c] == frame.1[c]
            || le(after.1[c], frame.1[c]) by {
            if after.1[c] != middle.1[c] && middle.1[c] != frame.1[c] {
                crate::binary32::lemma_order(after.1[c], middle.1[c], frame.1[c]);
            }
        }
        assert forall|i: int|
            0 <= i < frame.0.len() && !plots_cell(samples, width, i / 4) implies #[trigger] after.0[i]
            == frame.0[i] by {
            assert(i / 4 != own);
            assert(after.0[i] == middle.0[i]);
        }
    }
}

} // verus!
