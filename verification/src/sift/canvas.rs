//! Rendering matches: two RGB images side by side with a line per match.
//!
//! The pixels are kept in an `image` crate buffer and drawn with `imageproc`;
//! the contracts speak of the buffer's raw bytes, three per pixel, row by row.
use vstd::arithmetic::div_mod::lemma_fundamental_div_mod_converse;
use vstd::prelude::*;

use super::keypoint::PointPair;

verus! {

/// An RGB image with 8-bit channels.
#[verifier::external_body]
pub struct RgbCanvas {
    image: image::RgbImage,
}

/// The raw bytes of the canvas: red, green and blue of each pixel, row by row.
pub uninterp spec fn canvas_bytes(c: RgbCanvas) -> Seq<u8>;

/// The width and height of the canvas.
pub uninterp spec fn canvas_dims(c: RgbCanvas) -> (u32, u32);

/// The bytes after `imageproc::drawing::draw_antialiased_line_segment_mut`
/// draws the segment from `(x0, y0)` to `(x1, y1)` in the colour `(r, g, b)`,
/// blended with `imageproc::pixelops::interpolate`, on a `width` x `height`
/// image holding `pixels`.
pub uninterp spec fn antialiased_line(
    pixels: Seq<u8>,
    width: u32,
    height: u32,
    x0: i32,
    y0: i32,
    x1: i32,
    y1: i32,
    r: u8,
    g: u8,
    b: u8,
) -> Seq<u8>;

/// Line ends have coordinates from 0 to this bound, `2^31 - 256`. Then no
/// difference of two coordinates and no coordinate plus one leaves `i32`. The
/// `f32` row (column, for a steep segment) the line routine steps along starts
/// at a coordinate rounded to `f32`, which stays at most `2^31 - 256` (a
/// multiple of the `f32` spacing 128 there), and moves by a gradient of
/// magnitude at most 1, which rounding discards once the value reaches `2^25`
/// in magnitude. So it stays in `-2^25 ..= 2^31 - 256`, and converting it to
/// `i32` and adding one cannot overflow.
pub const LINE_COORD_LIMIT: u32 = 0x7fff_ff00;

/// The segment from `(x0, y0)` to `(x1, y1)` is steep: it rises more rows than
/// it crosses columns, and is then drawn one row at a time.
pub open spec fn is_steep(x0: int, y0: int, x1: int, y1: int) -> bool {
    (if y1 >= y0 { y1 - y0 } else { y0 - y1 }) > (if x1 >= x0 { x1 - x0 } else { x0 - x1 })
}

/// The pixel `(px, py)` lies outside the lanes the segment is drawn along:
/// outside its columns when it is drawn column by column, outside its rows
/// when it is steep.
pub open spec fn line_spares(x0: int, y0: int, x1: int, y1: int, px: int, py: int) -> bool {
    if is_steep(x0, y0, x1, y1) {
        py < y0 && py < y1 || py > y0 && py > y1
    } else {
        px < x0 && px < x1 || px > x0 && px > x1
    }
}

/// Wraps `image::ImageBuffer::from_raw`: a canvas over `data` when it holds at
/// least three bytes per pixel, else nothing. The byte count is computed as
/// `3 * width`, then times `height`, each step checked in `usize`, so a row
/// whose byte count overflows `usize` gives nothing even when `height` is 0.
#[verifier::external_body]
fn raw_from_raw(width: u32, height: u32, data: Vec<u8>) -> (r: Option<RgbCanvas>)
    ensures
        r is Some <==> (3 * width <= usize::MAX && 3 * width * height <= data@.len()),
        r matches Some(c) ==> canvas_dims(c) == (width, height) && canvas_bytes(c) == data@,
{
    match image::RgbImage::from_raw(width, height, data) {
        Some(image) => Some(RgbCanvas { image }),
        None => None,
    }
}

/// Wraps `image::ImageBuffer::new`: a black `width` x `height` canvas. It
/// panics when `3 * width`, or that times `height`, overflows `usize`.
#[verifier::external_body]
fn raw_new(width: u32, height: u32) -> (c: RgbCanvas)
    requires
        3 * width <= usize::MAX,
        3 * width * height <= usize::MAX,
    ensures
        canvas_dims(c) == (width, height),
        canvas_bytes(c) == Seq::new((3 * width * height) as nat, |i: int| 0u8),
{
    RgbCanvas { image: image::RgbImage::new(width, height) }
}

/// Wraps `image::ImageBuffer::dimensions`; the buffer holds at least three
/// bytes per pixel.
#[verifier::external_body]
fn raw_dimensions(c: &RgbCanvas) -> (d: (u32, u32))
    ensures
        d == canvas_dims(*c),
        canvas_bytes(*c).len() >= 3 * d.0 * d.1,
{
    c.image.dimensions()
}

/// Wraps `image::ImageBuffer::into_raw`.
#[verifier::external_body]
fn raw_into_raw(c: RgbCanvas) -> (v: Vec<u8>)
    ensures
        v@ == canvas_bytes(c),
{
    c.image.into_raw()
}

/// The bytes of a `bw` x `bh` image `bottom` after the `tw` x `th` image
/// `top` is copied onto it with its corner at `(x, y)`, clipped to `bottom`.
pub open spec fn replaced(
    bottom: Seq<u8>,
    bw: u32,
    bh: u32,
    top: Seq<u8>,
    tw: u32,
    th: u32,
    x: int,
    y: int,
) -> Seq<u8> {
    Seq::new(
        bottom.len(),
        |i: int|
            {
                let p = i / 3;
                let px = p % (bw as int);
                let py = p / (bw as int);
                if i < 3 * bw * bh && x <= px < x + tw && y <= py < y + th {
                    top[3 * ((py - y) * tw + (px - x)) + i % 3]
                } else {
                    bottom[i]
                }
            },
    )
}

/// Wraps `image::imageops::replace`: copies `top` onto `bottom` with its
/// corner at `(x, y)`, the part outside `bottom` cut off.
#[verifier::external_body]
fn raw_replace(bottom: &mut RgbCanvas, top: &RgbCanvas, x: i64, y: i64)
    ensures
        canvas_dims(*final(bottom)) == canvas_dims(*old(bottom)),
        canvas_bytes(*final(bottom)) == replaced(
            canvas_bytes(*old(bottom)),
            canvas_dims(*old(bottom)).0,
            canvas_dims(*old(bottom)).1,
            canvas_bytes(*top),
            canvas_dims(*top).0,
            canvas_dims(*top).1,
            x as int,
            y as int,
        ),
{
    image::imageops::replace(&mut bottom.image, &top.image, x, y)
}

/// Wraps `imageproc::drawing::draw_antialiased_line_segment_mut` with the
/// blend `imageproc::pixelops::interpolate`: draws the segment from `start`
/// to `end` in `color`, whose coordinates lie from 0 to `LINE_COORD_LIMIT`.
/// The routine walks the columns of the segment (its rows when it is steep)
/// and, in each, blends two pixels; it puts pixels only inside the image. So
/// the byte count is kept, and every byte outside the image's `3 * w * h`, or
/// of a pixel outside those lanes, is left as it was. Which pixels of the lanes
/// change, and to what, is only named: the routine computes it in `f32`.
#[verifier::external_body]
fn raw_draw_line(c: &mut RgbCanvas, start: (i32, i32), end: (i32, i32), color: (u8, u8, u8))
    requires
        0 <= start.0 <= LINE_COORD_LIMIT,
        0 <= start.1 <= LINE_COORD_LIMIT,
        0 <= end.0 <= LINE_COORD_LIMIT,
        0 <= end.1 <= LINE_COORD_LIMIT,
    ensures
        canvas_dims(*final(c)) == canvas_dims(*old(c)),
        canvas_bytes(*final(c)).len() == canvas_bytes(*old(c)).len(),
        forall|i: int|
            0 <= i < canvas_bytes(*old(c)).len() && (i >= 3 * canvas_dims(*old(c)).0 * canvas_dims(*old(c)).1
                || line_spares(
                start.0 as int,
                start.1 as int,
                end.0 as int,
                end.1 as int,
                (i / 3) % (canvas_dims(*old(c)).0 as int),
                (i / 3) / (canvas_dims(*old(c)).0 as int),
            )) ==> #[trigger] canvas_bytes(*final(c))[i] == canvas_bytes(*old(c))[i],
        canvas_bytes(*final(c)) == antialiased_line(
            canvas_bytes(*old(c)),
            canvas_dims(*old(c)).0,
            canvas_dims(*old(c)).1,
            start.0,
            start.1,
            end.0,
            end.1,
            color.0,
            color.1,
            color.2,
        ),
{
    imageproc::drawing::draw_antialiased_line_segment_mut(
        &mut c.image,
        start,
        end,
        image::Rgb([color.0, color.1, color.2]),
        imageproc::pixelops::interpolate,
    )
}

impl RgbCanvas {
    /// The canvas over the raw bytes `data` of a `width` x `height` image,
    /// when the bytes of a row fit in `usize` and `data` holds at least three
    /// bytes per pixel.
    pub fn from_raw(width: u32, height: u32, data: Vec<u8>) -> (r: Option<RgbCanvas>)
        ensures
            r is Some <==> (3 * width <= usize::MAX && 3 * width * height <= data@.len()),
            r matches Some(c) ==> canvas_dims(c) == (width, height) && canvas_bytes(c) == data@,
    {
        raw_from_raw(width, height, data)
    }

    /// The width and height.
    pub fn dimensions(&self) -> (d: (u32, u32))
        ensures
            d == canvas_dims(*self),
            canvas_bytes(*self).len() >= 3 * d.0 * d.1,
    {
        raw_dimensions(self)
    }

    /// The raw bytes.
    pub fn into_raw(self) -> (v: Vec<u8>)
        ensures
            v@ == canvas_bytes(self),
    {
        raw_into_raw(self)
    }
}

/// The two images side by side as `draw_match` lays them out before drawing:
/// a black `2w` x `2h` canvas with `first` at the top left and `second` with
/// its corner at `(w, h)`.
pub open spec fn match_background(first: Seq<u8>, second: Seq<u8>, w: u32, h: u32) -> Seq<u8> {
    let cw = (2 * w) as u32;
    let ch = (2 * h) as u32;
    let black = Seq::new((3 * cw * ch) as nat, |i: int| 0u8);
    replaced(replaced(black, cw, ch, first, w, h, 0, 0), cw, ch, second, w, h, w as int, h as int)
}

/// The bytes after the lines of the first `n` pairs are drawn in red on a
/// `cw` x `ch` canvas, each from `(x1, y1)` to `(x2 + w, y2 + h)`.
pub open spec fn match_lines(bytes: Seq<u8>, cw: u32, ch: u32, pairs: Seq<PointPair>, w: u32, h: u32, n: nat) -> Seq<u8>
    decreases n,
{
    if n == 0 {
        bytes
    } else {
        let pp = pairs[n - 1];
        antialiased_line(
            match_lines(bytes, cw, ch, pairs, w, h, (n - 1) as nat),
            cw,
            ch,
            pp.x1 as i32,
            pp.y1 as i32,
            (pp.x2 + w) as i32,
            (pp.y2 + h) as i32,
            255u8,
            0u8,
            0u8,
        )
    }
}

/// The pair's line ends are within `LINE_COORD_LIMIT` once the second point is
/// moved by `(w, h)`.
pub open spec fn pair_drawable(pp: PointPair, w: u32, h: u32) -> bool {
    &&& pp.x1 <= LINE_COORD_LIMIT
    &&& pp.y1 <= LINE_COORD_LIMIT
    &&& pp.x2 + w <= LINE_COORD_LIMIT
    &&& pp.y2 + h <= LINE_COORD_LIMIT
}

/// The pair's line, from `(x1, y1)` to `(x2 + w, y2 + h)`, spares the pixel
/// `(px, py)`.
pub open spec fn pair_spares(pp: PointPair, w: u32, h: u32, px: int, py: int) -> bool {
    line_spares(pp.x1 as int, pp.y1 as int, pp.x2 + w, pp.y2 + h, px, py)
}

/// The lines of the first `n` pairs all spare the pixel `(px, py)`.
pub open spec fn spared_by_pairs(pairs: Seq<PointPair>, w: u32, h: u32, n: int, px: int, py: int) -> bool {
    forall|t: int| 0 <= t < n ==> pair_spares(#[trigger] pairs[t], w, h, px, py)
}

/// Byte `ch` of pixel `(px, py)` of an image `width` pixels wide.
pub open spec fn pixel_byte(bytes: Seq<u8>, width: int, px: int, py: int, ch: int) -> u8 {
    bytes[3 * (py * width + px) + ch]
}

/// Byte `ch` of pixel `(px, py)` of the match picture before any line: the
/// first `w` x `h` image at the top left, the second at the bottom right,
/// black elsewhere.
pub open spec fn shown_pixel(first: Seq<u8>, second: Seq<u8>, w: u32, h: u32, px: int, py: int, ch: int) -> u8 {
    if px < w && py < h {
        first[3 * (py * w + px) + ch]
    } else if px >= w && py >= h {
        second[3 * ((py - h) * w + (px - w)) + ch]
    } else {
        0u8
    }
}

/// Draws the two images side by side, `img1` at the top left and `img2`
/// diagonally below it, on a black canvas twice as wide and as tall, with a red
/// line from each pair's first point in `img1` to its second point in `img2`.
/// Every pixel outside the lanes of all the lines shows the images.
pub fn draw_match(img1: &RgbCanvas, img2: &RgbCanvas, ppairs: &Vec<PointPair>) -> (result: RgbCanvas)
    requires
        canvas_dims(*img1) == canvas_dims(*img2),
        2 * canvas_dims(*img1).0 <= u32::MAX,
        2 * canvas_dims(*img1).1 <= u32::MAX,
        3 * (2 * canvas_dims(*img1).0) <= usize::MAX,
        3 * (2 * canvas_dims(*img1).0) * (2 * canvas_dims(*img1).1) <= usize::MAX,
        forall|t: int|
            0 <= t < ppairs@.len() ==> pair_drawable(
                #[trigger] ppairs@[t],
                canvas_dims(*img1).0,
                canvas_dims(*img1).1,
            ),
    ensures
        canvas_dims(result) == ((2 * canvas_dims(*img1).0) as u32, (2 * canvas_dims(*img1).1) as u32),
        canvas_bytes(result) == match_lines(
            match_background(
                canvas_bytes(*img1),
                canvas_bytes(*img2),
                canvas_dims(*img1).0,
                canvas_dims(*img1).1,
            ),
            (2 * canvas_dims(*img1).0) as u32,
            (2 * canvas_dims(*img1).1) as u32,
            ppairs@,
            canvas_dims(*img1).0,
            canvas_dims(*img1).1,
            ppairs@.len(),
        ),
        forall|px: int, py: int, ch: int|
            0 <= px < 2 * canvas_dims(*img1).0 && 0 <= py < 2 * canvas_dims(*img1).1 && 0 <= ch < 3
                && spared_by_pairs(ppairs@, canvas_dims(*img1).0, canvas_dims(*img1).1, ppairs@.len() as int, px, py)
                ==> #[trigger] pixel_byte(canvas_bytes(result), 2 * canvas_dims(*img1).0, px, py, ch) == shown_pixel(
                canvas_bytes(*img1),
                canvas_bytes(*img2),
                canvas_dims(*img1).0,
                canvas_dims(*img1).1,
                px,
                py,
                ch,
            ),
{
    let (w, h) = raw_dimensions(img1);
    let (_w2, h2) = raw_dimensions(img2);
    let mut result = raw_new(w * 2, h2 * 2);
    raw_replace(&mut result, img1, 0, 0);
    raw_replace(&mut result, img2, w as i64, h as i64);
    let ghost background = canvas_bytes(result);
    let ghost cw = 2 * w as int;
    assert(background.len() == 3 * cw * (2 * h));
    let n = ppairs.len();
    let mut i: usize = 0;
    while i < n
        invariant
            n == ppairs@.len(),
            i <= n,
            canvas_dims(result) == ((2 * w) as u32, (2 * h) as u32),
            forall|t: int| 0 <= t < ppairs@.len() ==> pair_drawable(#[trigger] ppairs@[t], w, h),
            canvas_bytes(result) == match_lines(
                background,
                (2 * w) as u32,
                (2 * h) as u32,
                ppairs@,
                w,
                h,
                i as nat,
            ),
            cw == 2 * w,
            canvas_bytes(result).len() == background.len(),
            forall|k: int|
                0 <= k < background.len() && spared_by_pairs(ppairs@, w, h, i as int, (k / 3) % cw, (k / 3) / cw)
                    ==> #[trigger] canvas_bytes(result)[k] == background[k],
        decreases n - i,
    {
        let pp = ppairs[i];
        assert(pair_drawable(ppairs@[i as int], w, h));
        let ghost before = canvas_bytes(result);
        raw_draw_line(
            &mut result,
            (pp.x1 as i32, pp.y1 as i32),
            ((pp.x2 + w) as i32, (pp.y2 + h) as i32),
            (255, 0, 0),
        );
        assert forall|k: int|
            0 <= k < background.len() && spared_by_pairs(ppairs@, w, h, i + 1, (k / 3) % cw, (k / 3) / cw)
                implies #[trigger] canvas_bytes(result)[k] == background[k] by {
            assert(pair_spares(ppairs@[i as int], w, h, (k / 3) % cw, (k / 3) / cw));
            assert(spared_by_pairs(ppairs@, w, h, i as int, (k / 3) % cw, (k / 3) / cw));
            assert(before[k] == background[k]);
        }
        i += 1;
    }
    proof {
        assert(background == match_background(canvas_bytes(*img1), canvas_bytes(*img2), w, h));
        assert forall|px: int, py: int, ch: int|
            0 <= px < 2 * w && 0 <= py < 2 * h && 0 <= ch < 3 && spared_by_pairs(ppairs@, w, h, n as int, px, py)
                implies #[trigger] pixel_byte(canvas_bytes(result), 2 * w, px, py, ch) == shown_pixel(
            canvas_bytes(*img1),
            canvas_bytes(*img2),
            w,
            h,
            px,
            py,
            ch,
        ) by {
            let k = 3 * (py * cw + px) + ch;
            lemma_pixel_index(cw, px, py, ch);
            assert(k < 3 * cw * (2 * h)) by (nonlinear_arith)
                requires
                    k == 3 * (py * cw + px) + ch,
                    0 <= px < cw,
                    0 <= py < 2 * h,
                    0 <= ch < 3,
            ;
            assert(0 <= k) by (nonlinear_arith)
                requires
                    k == 3 * (py * cw + px) + ch,
                    0 <= px,
                    0 <= py,
                    0 <= cw,
                    0 <= ch,
            ;
            assert(canvas_bytes(result)[k] == background[k]);
            lemma_background_layout(canvas_bytes(*img1), canvas_bytes(*img2), w, h, px, py, ch);
        }
    }
    result
}


/// Byte `ch` of pixel `(px, py)` of a `w`-wide image sits at
/// `3 * (py * w + px) + ch`, and that index leads back to the pixel.
proof fn lemma_pixel_index(w: int, px: int, py: int, ch: int)
    requires
        0 <= px < w,
        0 <= py,
        0 <= ch < 3,
    ensures
        (3 * (py * w + px) + ch) / 3 == py * w + px,
        (3 * (py * w + px) + ch) % 3 == ch,
        (py * w + px) % w == px,
        (py * w + px) / w == py,
{
    lemma_fundamental_div_mod_converse(3 * (py * w + px) + ch, 3, py * w + px, ch);
    lemma_fundamental_div_mod_converse(py * w + px, w, py, px);
}

/// Law: before any line is drawn, the canvas of `draw_match` shows the first
/// image in its top-left quarter, the second in its bottom-right quarter, and
/// black everywhere else.
pub proof fn lemma_background_layout(
    first: Seq<u8>,
    second: Seq<u8>,
    w: u32,
    h: u32,
    px: int,
    py: int,
    ch: int,
)
    requires
        first.len() >= 3 * w * h,
        second.len() >= 3 * w * h,
        2 * w <= u32::MAX,
        2 * h <= u32::MAX,
        0 <= px < 2 * w,
        0 <= py < 2 * h,
        0 <= ch < 3,
    ensures
        match_background(first, second, w, h)[3 * (py * (2 * w) + px) + ch] == if px < w && py < h {
            first[3 * (py * w + px) + ch]
        } else if px >= w && py >= h {
            second[3 * ((py - h) * w + (px - w)) + ch]
        } else {
            0u8
        },
{
    let cw = (2 * w) as u32;
    let chh = (2 * h) as u32;
    let i = 3 * (py * cw + px) + ch;
    lemma_pixel_index(cw as int, px, py, ch);
    assert(i < 3 * cw * chh) by (nonlinear_arith)
        requires
            i == 3 * (py * cw + px) + ch,
            0 <= px < cw,
            0 <= py < chh,
            0 <= ch < 3,
    ;
    assert(0 <= i) by (nonlinear_arith)
        requires
            i == 3 * (py * cw + px) + ch,
            0 <= px,
            0 <= py,
            0 <= cw,
            0 <= ch,
    ;
}

} // verus!
