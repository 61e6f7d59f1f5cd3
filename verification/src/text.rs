//! Lines of status text: a shared line that tasks write and read, and the
//! setting of text into a frame with a monospaced bitmap font.

use vstd::prelude::*;
use std::sync::{Arc, Mutex};
use noto_sans_mono_bitmap::{get_raster, get_raster_width, FontWeight, RasterHeight};
use vstd::arithmetic::mul::{lemma_mul_nonnegative, lemma_mul_upper_bound};

verus! {

/// `std::sync::Mutex`, which the verifier carries through without looking
/// inside.
#[verifier::external_type_specification]
#[verifier::external_body]
#[verifier::reject_recursive_types(T)]
pub struct ExMutex<T: ?Sized>(Mutex<T>);

/// `Mutex::new`: a lock around `text`. Nothing is claimed of the lock.
#[verifier::external_body]
fn locked(text: String) -> Mutex<String> {
    Mutex::new(text)
}

/// `Mutex::lock`, then a store through the guard. A lock that a panicking
/// holder poisoned is taken all the same. Nothing is claimed of what the
/// lock holds afterwards: another holder may have stored since.
#[verifier::external_body]
fn store(cell: &Mutex<String>, text: String) {
    match cell.lock() {
        Ok(mut guard) => *guard = text,
        Err(poisoned) => *poisoned.into_inner() = text,
    }
}

/// `Mutex::lock`, then a copy of what the guard holds. A lock that a
/// panicking holder poisoned is taken all the same. Nothing is claimed of
/// the copy.
#[verifier::external_body]
fn load(cell: &Mutex<String>) -> String {
    match cell.lock() {
        Ok(guard) => guard.clone(),
        Err(poisoned) => poisoned.into_inner().clone(),
    }
}

/// A line of text that one task writes and another shows. Clones share the
/// line.
#[derive(Clone)]
pub struct Log(Arc<Mutex<String>>);

impl Log {
    /// Replaces the line.
    pub fn set(&self, text: String) {
        store(&self.0, text)
    }

    /// A copy of the line as it is now.
    pub fn get(&self) -> String {
        load(&self.0)
    }
}

impl Default for Log {
    /// An empty line of its own.
    fn default() -> Log {
        Log(Arc::new(locked(String::new())))
    }
}

/// The height of every glyph, in pixels.
pub const GLYPH_HEIGHT: usize = 16;

/// The width of every glyph, in pixels: the font is monospaced.
pub const GLYPH_WIDTH: usize = 9;

/// How far a line break moves the cursor down: twice the glyph width.
pub const LINE_HEIGHT: usize = 18;

/// The raster of a character in the regular weight at sixteen pixels, row
/// by row, one byte of intensity a pixel; `None` for a character that the
/// font does not hold.
pub uninterp spec fn glyph(c: char) -> Option<Seq<Seq<u8>>>;

/// The rows of a raster as sequences.
pub open spec fn rows_of(raster: &[&[u8]]) -> Seq<Seq<u8>> {
    Seq::new(raster@.len(), |y: int| raster@[y]@)
}

/// A raster of sixteen rows of nine pixels.
pub open spec fn is_glyph_shape(raster: Seq<Seq<u8>>) -> bool {
    &&& raster.len() == GLYPH_HEIGHT
    &&& forall|y: int| 0 <= y < raster.len() ==> (#[trigger] raster[y]).len() == GLYPH_WIDTH
}

/// `noto_sans_mono_bitmap::get_raster` for the regular weight at sixteen
/// pixels, and the raster of what it found. The contract names the raster
/// `glyph(c)` and claims its shape: sixteen rows of nine bytes, as every
/// raster of that weight and height in the font's tables has.
#[verifier::external_body]
fn glyph_raster(c: char) -> (r: Option<&'static [&'static [u8]]>)
    ensures
        r is None <==> glyph(c) is None,
        r matches Some(raster) ==> glyph(c) == Some(rows_of(raster)) && is_glyph_shape(
            rows_of(raster),
        ),
{
    get_raster(c, FontWeight::Regular, RasterHeight::Size16).map(|found| found.raster())
}

/// `noto_sans_mono_bitmap::get_raster_width` for the regular weight at
/// sixteen pixels, which the font's table gives as nine.
#[verifier::external_body]
fn glyph_width() -> (w: usize)
    ensures
        w == GLYPH_WIDTH,
{
    get_raster_width(FontWeight::Regular, RasterHeight::Size16)
}

/// Where the next glyph goes once `text` is set: column and row of its top
/// left pixel. A line break returns to column zero, one line further down;
/// any other character moves one glyph to the right.
pub open spec fn cursor(text: Seq<char>) -> (int, int)
    decreases text.len(),
{
    if text.len() == 0 {
        (0, 0)
    } else {
        let (x, y) = cursor(text.drop_last());
        if text.last() == '\n' {
            (0, y + LINE_HEIGHT)
        } else {
            (x + GLYPH_WIDTH, y)
        }
    }
}

/// The first of the three bytes that pixel `(x, y)` of a glyph at
/// `(left, top)` is written to, in a frame of rows `width` pixels long.
pub open spec fn glyph_byte(width: int, left: int, top: int, x: int, y: int) -> int {
    ((y + top) * width + (x + left)) * 4
}

/// The frame after the first `cells` pixels of a glyph, counted row by
/// row, were written at `(left, top)`: each as grey, into the first three
/// bytes of its pixel.
pub open spec fn stamped(
    pixels: Seq<u8>,
    width: int,
    raster: Seq<Seq<u8>>,
    left: int,
    top: int,
    cells: int,
) -> Seq<u8>
    decreases cells,
{
    if cells <= 0 {
        pixels
    } else {
        let x = (cells - 1) % (GLYPH_WIDTH as int);
        let y = (cells - 1) / (GLYPH_WIDTH as int);
        let i = glyph_byte(width, left, top, x, y);
        let grey = raster[y][x];
        stamped(pixels, width, raster, left, top, cells - 1).update(i, grey).update(
            i + 1,
            grey,
        ).update(i + 2, grey)
    }
}

/// The frame after `text` was set into it from the top left corner.
pub open spec fn typeset(pixels: Seq<u8>, width: int, text: Seq<char>) -> Seq<u8>
    decreases text.len(),
{
    if text.len() == 0 {
        pixels
    } else {
        let before = typeset(pixels, width, text.drop_last());
        if text.last() == '\n' {
            before
        } else {
            let (left, top) = cursor(text.drop_last());
            stamped(
                before,
                width,
                glyph(text.last()).unwrap(),
                left,
                top,
                GLYPH_HEIGHT * GLYPH_WIDTH,
            )
        }
    }
}

/// The last byte that a glyph at `(left, top)` writes lies inside a frame
/// of `len` bytes.
pub open spec fn glyph_fits(len: int, width: int, left: int, top: int) -> bool {
    glyph_byte(width, left, top, GLYPH_WIDTH - 1, GLYPH_HEIGHT - 1) + 2 < len
}

/// Every character of `text` but the line breaks has a glyph, and every
/// glyph lands inside a frame of `len` bytes.
pub open spec fn can_typeset(len: int, width: int, text: Seq<char>) -> bool {
    forall|k: int|
        0 <= k < text.len() && #[trigger] text[k] != '\n' ==> glyph(text[k]) is Some && glyph_fits(
            len,
            width,
            cursor(text.take(k)).0,
            cursor(text.take(k)).1,
        )
}

/// The cursor never leaves the rectangle that the length of the text
/// spans.
pub proof fn lemma_cursor_bound(text: Seq<char>)
    ensures
        0 <= cursor(text).0 <= GLYPH_WIDTH * text.len(),
        0 <= cursor(text).1 <= LINE_HEIGHT * text.len(),
    decreases text.len(),
{
    if text.len() > 0 {
        lemma_cursor_bound(text.drop_last());
    }
}

/// Within a glyph that fits, every pixel's bytes lie inside the frame.
proof fn lemma_glyph_byte_bound(len: int, width: int, left: int, top: int, x: int, y: int)
    requires
        0 <= width,
        0 <= left,
        0 <= top,
        0 <= x < GLYPH_WIDTH,
        0 <= y < GLYPH_HEIGHT,
        glyph_fits(len, width, left, top),
    ensures
        0 <= (y + top) * width <= (y + top) * width + (x + left),
        0 <= glyph_byte(width, left, top, x, y),
        glyph_byte(width, left, top, x, y) + 2 < len,
{
    assert(0 <= (y + top) * width <= (GLYPH_HEIGHT - 1 + top) * width) by (nonlinear_arith)
        requires
            0 <= width,
            0 <= y + top <= GLYPH_HEIGHT - 1 + top,
    ;
}

/// The three colour bytes that begin at `at` all hold `grey`.
pub open spec fn shows_grey(frame: Seq<u8>, at: int, grey: u8) -> bool {
    frame[at] == grey && frame[at + 1] == grey && frame[at + 2] == grey
}

/// `glyph_byte` of the glyph's pixel number `n`, counted row by row.
spec fn cell_byte(width: int, left: int, top: int, n: int) -> int {
    glyph_byte(width, left, top, n % 9, n / 9)
}

/// Where a glyph's rows fit the rows of the frame, its pixels lie in
/// reading order: a pixel that comes later in the glyph begins at least
/// four bytes further on.
proof fn lemma_glyph_bytes_ascend(width: int, left: int, top: int, m: int, n: int)
    requires
        0 <= left,
        0 <= top,
        left + GLYPH_WIDTH <= width,
        0 <= m < n,
    ensures
        0 <= cell_byte(width, left, top, m),
        cell_byte(width, left, top, m) + 4 <= cell_byte(width, left, top, n),
{
    let (mx, my) = (m % 9, m / 9);
    let (nx, ny) = (n % 9, n / 9);
    assert((my + top) * width >= 0) by (nonlinear_arith)
        requires
            my + top >= 0,
            width >= 0,
    ;
    if my < ny {
        assert((ny + top) * width >= (my + top) * width + width) by (nonlinear_arith)
            requires
                ny >= my + 1,
                width >= 0,
        ;
    }
}

/// The bytes of the frame after the first `cells` pixels of a glyph were
/// written, where the glyph's rows fit the rows of the frame.
proof fn lemma_stamped_cells(
    pixels: Seq<u8>,
    width: int,
    raster: Seq<Seq<u8>>,
    left: int,
    top: int,
    cells: int,
)
    requires
        0 <= left,
        0 <= top,
        left + GLYPH_WIDTH <= width,
        glyph_fits(pixels.len() as int, width, left, top),
        0 <= cells <= GLYPH_HEIGHT * GLYPH_WIDTH,
    ensures
        stamped(pixels, width, raster, left, top, cells).len() == pixels.len(),
        forall|n: int|
            0 <= n < cells ==> shows_grey(
                stamped(pixels, width, raster, left, top, cells),
                #[trigger] cell_byte(width, left, top, n),
                raster[n / 9][n % 9],
            ),
        forall|i: int|
            0 <= i < pixels.len() && (i % 4 == 3 || i < cell_byte(width, left, top, 0) || i
                >= cell_byte(width, left, top, cells - 1) + 4 || cells == 0) ==> #[trigger] stamped(
                pixels,
                width,
                raster,
                left,
                top,
                cells,
            )[i] == pixels[i],
    decreases cells,
{
    if cells > 0 {
        let last = cells - 1;
        lemma_stamped_cells(pixels, width, raster, left, top, last);
        lemma_glyph_byte_bound(pixels.len() as int, width, left, top, last % 9, last / 9);
        let before = stamped(pixels, width, raster, left, top, last);
        let after = stamped(pixels, width, raster, left, top, cells);
        let at = cell_byte(width, left, top, last);
        if last > 0 {
            lemma_glyph_bytes_ascend(width, left, top, 0, last);
            lemma_glyph_bytes_ascend(width, left, top, last - 1, last);
        }
        assert forall|n: int| 0 <= n < cells implies shows_grey(
            after,
            #[trigger] cell_byte(width, left, top, n),
            raster[n / 9][n % 9],
        ) by {
            if n < last {
                lemma_glyph_bytes_ascend(width, left, top, n, last);
                assert(shows_grey(before, cell_byte(width, left, top, n), raster[n / 9][n % 9]));
            }
        }
    }
}

/// How to read a stamped glyph. Where the glyph's rows fit the rows of the
/// frame, every pixel of the glyph shows in the first three bytes of the
/// frame pixel below it, counted from `(left, top)`, and the fourth byte
/// of every pixel and all bytes before and after the glyph stay.
pub proof fn lemma_stamped_glyph(
    pixels: Seq<u8>,
    width: int,
    raster: Seq<Seq<u8>>,
    left: int,
    top: int,
)
    requires
        0 <= left,
        0 <= top,
        left + GLYPH_WIDTH <= width,
        glyph_fits(pixels.len() as int, width, left, top),
    ensures
        ({
            let after = stamped(pixels, width, raster, left, top, GLYPH_HEIGHT * GLYPH_WIDTH);
            &&& after.len() == pixels.len()
            &&& forall|x: int, y: int|
                0 <= x < GLYPH_WIDTH && 0 <= y < GLYPH_HEIGHT ==> shows_grey(
                    after,
                    #[trigger] glyph_byte(width, left, top, x, y),
                    raster[y][x],
                )
            &&& forall|i: int|
                0 <= i < pixels.len() && (i % 4 == 3 || i < glyph_byte(width, left, top, 0, 0) || i
                    > glyph_byte(width, left, top, GLYPH_WIDTH - 1, GLYPH_HEIGHT - 1) + 2)
                    ==> #[trigger] after[i] == pixels[i]
        }),
{
    let cells = GLYPH_HEIGHT * GLYPH_WIDTH;
    lemma_stamped_cells(pixels, width, raster, left, top, cells as int);
    let after = stamped(pixels, width, raster, left, top, cells as int);
    assert forall|x: int, y: int| 0 <= x < GLYPH_WIDTH && 0 <= y < GLYPH_HEIGHT implies shows_grey(
        after,
        #[trigger] glyph_byte(width, left, top, x, y),
        raster[y][x],
    ) by {
        let n = y * 9 + x;
        assert(n % 9 == x && n / 9 == y);
        assert(cell_byte(width, left, top, n) == glyph_byte(width, left, top, x, y));
    }
    assert(cell_byte(width, left, top, 0) == glyph_byte(width, left, top, 0, 0));
    assert(cell_byte(width, left, top, cells - 1) == glyph_byte(
        width,
        left,
        top,
        GLYPH_WIDTH - 1,
        GLYPH_HEIGHT - 1,
    ));
}

/// Writes one glyph into the frame, its top left pixel at `(left, top)`.
fn stamp(width: usize, pixels: &mut [u8], raster: &[&[u8]], left: usize, top: usize)
    requires
        is_glyph_shape(rows_of(raster)),
        glyph_fits(old(pixels)@.len() as int, width as int, left as int, top as int),
        left + GLYPH_WIDTH <= usize::MAX,
        top + GLYPH_HEIGHT <= usize::MAX,
    ensures
        final(pixels)@ == stamped(
            old(pixels)@,
            width as int,
            rows_of(raster),
            left as int,
            top as int,
            GLYPH_HEIGHT * GLYPH_WIDTH,
        ),
        final(pixels)@.len() == old(pixels)@.len(),
{
    let limit: usize = pixels.len();
    let mut y: usize = 0;
    while y < GLYPH_HEIGHT
        invariant
            y <= GLYPH_HEIGHT,
            limit == pixels@.len(),
            pixels@.len() == old(pixels)@.len(),
            is_glyph_shape(rows_of(raster)),
            glyph_fits(limit as int, width as int, left as int, top as int),
            left + GLYPH_WIDTH <= usize::MAX,
            top + GLYPH_HEIGHT <= usize::MAX,
            pixels@ == stamped(
                old(pixels)@,
                width as int,
                rows_of(raster),
                left as int,
                top as int,
                y * GLYPH_WIDTH,
            ),
        decreases GLYPH_HEIGHT - y,
    {
        let mut x: usize = 0;
        while x < GLYPH_WIDTH
            invariant
                y < GLYPH_HEIGHT,
                x <= GLYPH_WIDTH,
                limit == pixels@.len(),
                pixels@.len() == old(pixels)@.len(),
                is_glyph_shape(rows_of(raster)),
                glyph_fits(limit as int, width as int, left as int, top as int),
                left + GLYPH_WIDTH <= usize::MAX,
                top + GLYPH_HEIGHT <= usize::MAX,
                pixels@ == stamped(
                    old(pixels)@,
                    width as int,
                    rows_of(raster),
                    left as int,
                    top as int,
                    y * GLYPH_WIDTH + x,
                ),
            decreases GLYPH_WIDTH - x,
        {
            proof {
                lemma_glyph_byte_bound(
                    limit as int,
                    width as int,
                    left as int,
                    top as int,
                    x as int,
                    y as int,
                );
                assert(rows_of(raster)[y as int] == raster@[y as int]@);
                assert(rows_of(raster)[y as int].len() == GLYPH_WIDTH);
            }
            let grey: u8 = raster[y][x];
            let i: usize = ((y + top) * width + (x + left)) * 4;
            pixels[i] = grey;
            pixels[i + 1] = grey;
            pixels[i + 2] = grey;
            x += 1;
        }
        y += 1;
    }
}

/// Sets `text` into an RGBA8 frame of rows `width` pixels long, from the
/// top left corner, in the regular weight at sixteen pixels. Each glyph
/// pixel is written as grey into the first three bytes of its frame pixel.
/// The text must have glyphs and fit: `try_render_text` finds that out.
pub fn render_text(width: usize, pixels: &mut [u8], text: &str)
    requires
        can_typeset(old(pixels)@.len() as int, width as int, text@),
        LINE_HEIGHT * text@.len() <= usize::MAX,
    ensures
        final(pixels)@ == typeset(old(pixels)@, width as int, text@),
        final(pixels)@.len() == old(pixels)@.len(),
{
    let char_width: usize = glyph_width();
    let mut offset_x: usize = 0;
    let mut offset_y: usize = 0;
    for c in it: text.chars()
        invariant
            it.seq() == text@,
            char_width == GLYPH_WIDTH,
            LINE_HEIGHT * text@.len() <= usize::MAX,
            pixels@.len() == old(pixels)@.len(),
            can_typeset(pixels@.len() as int, width as int, text@),
            (offset_x as int, offset_y as int) == cursor(text@.take(it.index())),
            pixels@ == typeset(old(pixels)@, width as int, text@.take(it.index())),
    {
        proof {
            let k = it.index();
            assert(text@.take(k + 1).drop_last() == text@.take(k));
            assert(text@.take(k + 1).last() == text@[k]);
            lemma_cursor_bound(text@.take(k));
            lemma_cursor_bound(text@.take(k + 1));
            assert(c == text@[k]);
        }
        if c == '\n' {
            offset_x = 0;
            offset_y += char_width * 2;
        } else {
            if let Some(raster) = glyph_raster(c) {
                stamp(width, pixels, raster, offset_x, offset_y);
            }
            offset_x += char_width;
        }
    }
    proof {
        assert(text@.take(text@.len() as int) == text@);
    }
}

/// Whether a glyph at `(left, top)` fits a frame of `len` bytes.
fn fits(len: usize, width: usize, left: usize, top: usize) -> (r: bool)
    requires
        left + GLYPH_WIDTH <= usize::MAX,
        top + GLYPH_HEIGHT <= usize::MAX,
    ensures
        r == glyph_fits(len as int, width as int, left as int, top as int),
{
    if len < 3 {
        proof {
            lemma_mul_nonnegative(GLYPH_HEIGHT - 1 + top, width as int);
        }
        return false;
    }
    let rows: u128 = (top + (GLYPH_HEIGHT - 1)) as u128;
    proof {
        lemma_mul_upper_bound(
            rows as int,
            0xffff_ffff_ffff_ffff,
            width as int,
            0xffff_ffff_ffff_ffff,
        );
        lemma_mul_nonnegative(rows as int, width as int);
    }
    let last: u128 = rows * (width as u128) + (left + (GLYPH_WIDTH - 1)) as u128;
    last <= ((len - 3) / 4) as u128
}

/// Sets `text` into the frame as `render_text` does, if every character has
/// a glyph and every glyph fits; else leaves the frame as it is. Returns
/// whether the text was set.
pub fn try_render_text(width: usize, pixels: &mut [u8], text: &str) -> (done: bool)
    ensures
        done == (can_typeset(old(pixels)@.len() as int, width as int, text@) && LINE_HEIGHT
            * text@.len() <= usize::MAX),
        done ==> final(pixels)@ == typeset(old(pixels)@, width as int, text@),
        !done ==> final(pixels)@ == old(pixels)@,
        final(pixels)@.len() == old(pixels)@.len(),
{
    if text.unicode_len() > usize::MAX / LINE_HEIGHT {
        return false;
    }
    let len: usize = pixels.len();
    let mut offset_x: usize = 0;
    let mut offset_y: usize = 0;
    for c in it: text.chars()
        invariant
            it.seq() == text@,
            LINE_HEIGHT * text@.len() <= usize::MAX,
            len == pixels@.len(),
            pixels@ == old(pixels)@,
            (offset_x as int, offset_y as int) == cursor(text@.take(it.index())),
            can_typeset(len as int, width as int, text@.take(it.index())),
    {
        proof {
            let k = it.index();
            let shorter = text@.take(k);
            let longer = text@.take(k + 1);
            assert(longer.drop_last() == shorter);
            assert(longer.last() == text@[k]);
            lemma_cursor_bound(shorter);
            lemma_cursor_bound(longer);
            assert(c == text@[k]);
            assert(longer.take(k) == shorter);
        }
        if c == '\n' {
            offset_x = 0;
            offset_y += LINE_HEIGHT;
        } else {
            if glyph_raster(c).is_none() || !fits(len, width, offset_x, offset_y) {
                return false;
            }
            offset_x += GLYPH_WIDTH;
        }
        proof {
            let k = it.index();
            let shorter = text@.take(k);
            let longer = text@.take(k + 1);
            assert forall|j: int| 0 <= j < longer.len() && #[trigger] longer[j] != '\n' implies glyph(
                longer[j],
            ) is Some && glyph_fits(
                len as int,
                width as int,
                cursor(longer.take(j)).0,
                cursor(longer.take(j)).1,
            ) by {
                if j < k {
                    assert(shorter[j] == longer[j]);
                    assert(shorter.take(j) == longer.take(j));
                }
            }
        }
    }
    proof {
        assert(text@.take(text@.len() as int) == text@);
    }
    render_text(width, pixels, text);
    true
}

} // verus!
