//! The drawing surface: what the overlay has from `tiny_skia`.
//!
//! Pictures, clip masks, outlines and colors are `tiny_skia`'s own values. The
//! contracts speak of what they hold, in plain integers: a coordinate, a width
//! or a color channel is the bit pattern of its number.

use crate::color::Rgba;
use tiny_skia::Color;
use tiny_skia::Mask;
use tiny_skia::Path;
use tiny_skia::PathSegment;
use tiny_skia::Pixmap;
use tiny_skia::Rect;
use tiny_skia::Stroke;
use vstd::arithmetic::power2::pow2;
use vstd::prelude::*;

verus! {

/// A picture of premultiplied RGBA pixels.
#[verifier::external_type_specification]
#[verifier::external_body]
pub struct ExPixmap(Pixmap);

/// A clip mask: one byte of coverage for each pixel.
#[verifier::external_type_specification]
#[verifier::external_body]
pub struct ExMask(Mask);

/// An outline of lines and curves.
#[verifier::external_type_specification]
#[verifier::external_body]
pub struct ExPath(Path);

/// A color with alpha.
#[verifier::external_type_specification]
#[verifier::external_body]
pub struct ExColor(Color);

/// A rectangle.
#[verifier::external_type_specification]
#[verifier::external_body]
pub struct ExRect(Rect);

/// How a line is drawn: its width, ends and corners.
#[verifier::external_type_specification]
#[verifier::external_body]
pub struct ExStroke(Stroke);

/// What a picture holds: its pixels by rows from the top, four premultiplied
/// bytes (red, green, blue, alpha) each.
#[verifier::ext_equal]
pub struct Image {
    pub width: nat,
    pub height: nat,
    pub bytes: Seq<u8>,
}

impl Image {
    /// Whether there are four bytes for each pixel.
    pub open spec fn wf(self) -> bool {
        self.bytes.len() == 4 * (self.width * self.height)
    }

    /// The same picture with other pixels.
    pub open spec fn with(self, bytes: Seq<u8>) -> Image {
        Image { width: self.width, height: self.height, bytes }
    }

    /// The alpha of the pixel at `index`.
    pub open spec fn alpha(self, index: int) -> u8 {
        self.bytes[4 * index + 3]
    }

    /// The alpha of the pixel in column `x` and row `y`.
    pub open spec fn alpha_at(self, x: int, y: int) -> u8 {
        self.alpha(y * self.width + x)
    }

    /// Whether the pixel at `index` is all zero.
    pub open spec fn clear_at(self, index: int) -> bool {
        &&& self.bytes[4 * index] == 0
        &&& self.bytes[4 * index + 1] == 0
        &&& self.bytes[4 * index + 2] == 0
        &&& self.bytes[4 * index + 3] == 0
    }

    /// Whether no byte is greater than the one that `other` has there.
    pub open spec fn is_within(self, other: Image) -> bool {
        forall|k: int| 0 <= k < self.bytes.len() ==> (#[trigger] self.bytes[k]) <= other.bytes[k]
    }

    /// Whether the pixel at `index` is the one that `other` has there.
    pub open spec fn same_at(self, other: Image, index: int) -> bool {
        &&& self.bytes[4 * index] == other.bytes[4 * index]
        &&& self.bytes[4 * index + 1] == other.bytes[4 * index + 1]
        &&& self.bytes[4 * index + 2] == other.bytes[4 * index + 2]
        &&& self.bytes[4 * index + 3] == other.bytes[4 * index + 3]
    }

    /// Whether the pixel in column `x` and row `y` is the one that `other` has there.
    pub open spec fn same_pixel(self, other: Image, x: int, y: int) -> bool {
        self.same_at(other, y * self.width + x)
    }
}

/// Whether no side is longer than 8191 pixels, so that all is drawn in one tile.
pub open spec fn is_one_tile(width: nat, height: nat) -> bool {
    width <= 8191 && height <= 8191
}

/// Whether no side is longer than 32767 pixels.
pub open spec fn is_short(width: nat, height: nat) -> bool {
    width <= 32767 && height <= 32767
}

/// A picture of transparent pixels only.
pub open spec fn blank(width: nat, height: nat) -> Image {
    Image { width, height, bytes: Seq::new((4 * (width * height)) as nat, |i: int| 0u8) }
}

/// What a mask holds: one byte for each pixel, by rows from the top.
#[verifier::ext_equal]
pub struct Coverage {
    pub width: nat,
    pub height: nat,
    pub bytes: Seq<u8>,
}

impl Coverage {
    /// The byte of the pixel in column `x` and row `y`.
    pub open spec fn at(self, x: int, y: int) -> u8 {
        self.bytes[y * self.width + x]
    }
}

/// A mask that lets nothing through.
pub open spec fn closed_mask(width: nat, height: nat) -> Coverage {
    Coverage { width, height, bytes: Seq::new((width * height) as nat, |i: int| 0u8) }
}

/// One step of an outline, with the bit patterns of the coordinates of its points.
#[derive(Clone, Copy, Debug, PartialEq, Eq)]
pub enum Segment {
    Move((u32, u32)),
    Line((u32, u32)),
    Quad((u32, u32), (u32, u32)),
    Cubic((u32, u32), (u32, u32), (u32, u32)),
    Close,
}

/// Whether an outline is made of lines and quadratic curves alone.
pub open spec fn is_simple(outline: Seq<Segment>) -> bool {
    forall|i: int| 0 <= i < outline.len() ==> !((#[trigger] outline[i]) is Cubic)
}

/// Whether lines of a width are drawn: not where it is below 0 or no number.
pub open spec fn is_drawn(width: u32) -> bool {
    width <= 0x7f80_0000 || width == 0x8000_0000
}

/// Whether a width is less than 2 to the power of 25, or one that draws nothing.
pub open spec fn width_fits(width: u32) -> bool {
    width < 0x4c00_0000 || width > 0x7f80_0000
}

/// Whether the four edges of a rectangle are less than 2 to the power of 28 away from 0.
pub open spec fn edges_fit(edges: Seq<u32>) -> bool {
    &&& edges[0] % 0x8000_0000 < 0x4d80_0000
    &&& edges[1] % 0x8000_0000 < 0x4d80_0000
    &&& edges[2] % 0x8000_0000 < 0x4d80_0000
    &&& edges[3] % 0x8000_0000 < 0x4d80_0000
}

/// Whether both coordinates of a point are less than `limit` away from 0. The limit is a
/// bit pattern too: patterns without the sign are ordered as their numbers are.
pub open spec fn is_point_below(point: (u32, u32), limit: u32) -> bool {
    point.0 % 0x8000_0000 < limit && point.1 % 0x8000_0000 < limit
}

/// Whether every point of a step is below `limit`.
pub open spec fn is_step_below(segment: Segment, limit: u32) -> bool {
    match segment {
        Segment::Move(p) => is_point_below(p, limit),
        Segment::Line(p) => is_point_below(p, limit),
        Segment::Quad(p, q) => is_point_below(p, limit) && is_point_below(q, limit),
        Segment::Cubic(p, q, r) => {
            is_point_below(p, limit) && is_point_below(q, limit) && is_point_below(r, limit)
        },
        Segment::Close => true,
    }
}

/// Whether every point of an outline is below `limit`.
pub open spec fn is_below(outline: Seq<Segment>, limit: u32) -> bool {
    forall|i: int| 0 <= i < outline.len() ==> is_step_below(#[trigger] outline[i], limit)
}

/// Whether every coordinate of an outline is less than 2 to the power of 27.
pub open spec fn is_small(outline: Seq<Segment>) -> bool {
    is_below(outline, 0x4d00_0000)
}

/// Whether an outline stays within 32768 pixels of the origin.
pub open spec fn is_near(outline: Seq<Segment>) -> bool {
    is_below(outline, 0x4700_0000)
}

/// Whether an outline stays within 8192 pixels of the origin.
pub open spec fn is_moderate(outline: Seq<Segment>) -> bool {
    is_below(outline, 0x4600_0000)
}

/// The number whose bit pattern is `bits`, in units of the least one above 0, which is 2
/// to the power of -149.
pub open spec fn measure(bits: u32) -> int {
    let magnitude = (bits % 0x8000_0000) as int;
    let exponent = magnitude / 0x80_0000;
    let fraction = magnitude % 0x80_0000;
    let size = if exponent == 0 {
        fraction
    } else {
        (0x80_0000 + fraction) * pow2((exponent - 1) as nat)
    };
    if bits < 0x8000_0000 {
        size
    } else {
        -size
    }
}

/// The side of a pixel, in the units of `measure`.
pub open spec fn pixel() -> int {
    pow2(149) as int
}

/// How far `a` is from `b`.
pub open spec fn distance(a: u32, b: u32) -> int {
    if measure(a) < measure(b) {
        measure(b) - measure(a)
    } else {
        measure(a) - measure(b)
    }
}

/// The points of a step.
pub open spec fn points(segment: Segment) -> Seq<(u32, u32)> {
    match segment {
        Segment::Move(p) => seq![p],
        Segment::Line(p) => seq![p],
        Segment::Quad(p, q) => seq![p, q],
        Segment::Cubic(p, q, r) => seq![p, q, r],
        Segment::Close => seq![],
    }
}

/// Point number `j` of step number `i` of an outline.
pub open spec fn point(outline: Seq<Segment>, i: int, j: int) -> (u32, u32) {
    points(outline[i])[j]
}

/// Whether step number `i` of an outline has a point number `j`.
pub open spec fn has_point(outline: Seq<Segment>, i: int, j: int) -> bool {
    0 <= i < outline.len() && 0 <= j < points(outline[i]).len()
}

/// Whether the pixel in column `x` and row `y` lies outside of the upright rectangle
/// around all points of an outline, on one side of it by at least `margin`.
pub open spec fn clear_of(outline: Seq<Segment>, x: int, y: int, margin: int) -> bool {
    ||| forall|i: int, j: int|
        has_point(outline, i, j) ==> (x + 1) * pixel() + margin <= measure(
            (#[trigger] point(outline, i, j)).0,
        )
    ||| forall|i: int, j: int|
        has_point(outline, i, j) ==> measure((#[trigger] point(outline, i, j)).0) + margin <= x
            * pixel()
    ||| forall|i: int, j: int|
        has_point(outline, i, j) ==> (y + 1) * pixel() + margin <= measure(
            (#[trigger] point(outline, i, j)).1,
        )
    ||| forall|i: int, j: int|
        has_point(outline, i, j) ==> measure((#[trigger] point(outline, i, j)).1) + margin <= y
            * pixel()
}

/// A pixel that is clear of an outline by some margin is so by any smaller one.
pub proof fn lemma_clear_of(outline: Seq<Segment>, x: int, y: int, margin: int, less: int)
    requires
        clear_of(outline, x, y, margin),
        less <= margin,
    ensures
        clear_of(outline, x, y, less),
{
}

/// Where the contour that an outline ends in starts, and where the outline ends.
pub open spec fn pen(outline: Seq<Segment>) -> ((u32, u32), (u32, u32))
    decreases outline.len(),
{
    if outline.len() == 0 {
        ((0, 0), (0, 0))
    } else {
        let start = pen(outline.drop_last()).0;
        match outline.last() {
            Segment::Move(p) => (p, p),
            Segment::Line(p) => (start, p),
            Segment::Quad(_, p) => (start, p),
            Segment::Cubic(_, _, p) => (start, p),
            Segment::Close => (start, start),
        }
    }
}

/// Whether the line from `p` to `q` is level or plumb, and has no length or one of at
/// least an eighth of a pixel.
pub open spec fn is_straight_line(p: (u32, u32), q: (u32, u32)) -> bool {
    ||| p == q
    ||| p.0 == q.0 && 8 * distance(p.1, q.1) >= pixel()
    ||| p.1 == q.1 && 8 * distance(p.0, q.0) >= pixel()
}

/// Whether the curve from `p` to `r` turns a right angle at `q`, between a level and a
/// plumb leg: each of at least an eighth of a pixel, none longer than twice the other, and
/// none longer than 64 times the width of a line that is wider than a pixel.
pub open spec fn is_corner(p: (u32, u32), q: (u32, u32), r: (u32, u32), width: u32) -> bool {
    let across = distance(p.0, r.0);
    let down = distance(p.1, r.1);
    &&& p.0 == q.0 && q.1 == r.1 || p.1 == q.1 && q.0 == r.0
    &&& 8 * across >= pixel() && 8 * down >= pixel()
    &&& across <= 2 * down && down <= 2 * across
    &&& measure(width) > pixel() ==> across <= 64 * measure(width) && down <= 64 * measure(width)
}

/// Whether a step from where `pen` stands is a level or plumb line, or such a corner.
pub open spec fn is_step_upright(
    pen: ((u32, u32), (u32, u32)),
    segment: Segment,
    width: u32,
) -> bool {
    match segment {
        Segment::Move(_) => true,
        Segment::Line(p) => is_straight_line(pen.1, p),
        Segment::Quad(p, q) => is_corner(pen.1, p, q, width),
        Segment::Cubic(_, _, _) => false,
        Segment::Close => is_straight_line(pen.1, pen.0),
    }
}

/// Whether an outline near the origin is made of level and plumb lines and of corners
/// between them, and is drawn in lines of less than 32768 pixels: a box, or a cross.
pub open spec fn is_upright(outline: Seq<Segment>, width: u32) -> bool {
    &&& is_near(outline)
    &&& width < 0x4700_0000
    &&& forall|i: int|
        0 <= i < outline.len() ==> is_step_upright(
            pen(outline.take(i)),
            #[trigger] outline[i],
            width,
        )
}

/// How far from an upright outline its line may reach: its width and a pixel.
pub open spec fn reach(width: u32) -> int {
    measure(width) + pixel()
}

/// A line reaches no less far than nothing.
pub proof fn lemma_reach(width: u32)
    requires
        width < 0x8000_0000,
    ensures
        reach(width) >= 0,
{
    let magnitude = (width % 0x8000_0000) as int;
    let exponent = magnitude / 0x80_0000;
    let fraction = magnitude % 0x80_0000;
    let power = pow2((exponent - 1) as nat);
    assert((0x80_0000 + fraction) * power >= 0) by (nonlinear_arith)
        requires
            fraction >= 0,
            power >= 0,
    ;
}

/// How far beyond its bounds an outline may be drawn on a canvas of the given size: a
/// pixel, for what is lost where it is far from the origin or moved from tile to tile.
pub open spec fn slack(width: nat, height: nat, outline: Seq<Segment>) -> int {
    if is_one_tile(width, height) && is_moderate(outline) {
        0
    } else {
        pixel()
    }
}

/// Whether the pixel in column `x` and row `y` of a canvas of the given size is clear of
/// what is drawn within `margin` of an outline.
pub open spec fn is_beside(
    outline: Seq<Segment>,
    width: nat,
    height: nat,
    x: int,
    y: int,
    margin: int,
) -> bool {
    clear_of(outline, x, y, margin + slack(width, height, outline))
}

/// Whether `after` has the pixels of `before` wherever these are clear of `outline` by
/// `margin`.
pub open spec fn keeps_around(
    after: Image,
    before: Image,
    outline: Seq<Segment>,
    margin: int,
) -> bool {
    forall|x: int, y: int|
        0 <= x < before.width && 0 <= y < before.height && is_beside(
            outline,
            before.width,
            before.height,
            x,
            y,
            margin,
        ) ==> #[trigger] after.same_pixel(before, x, y)
}

/// Whether `after` has the bytes of `before` wherever the pixel is clear of `outline`.
pub open spec fn keeps_closed(after: Coverage, before: Coverage, outline: Seq<Segment>) -> bool {
    forall|x: int, y: int|
        0 <= x < before.width && 0 <= y < before.height && is_beside(
            outline,
            before.width,
            before.height,
            x,
            y,
            0,
        ) ==> #[trigger] after.at(x, y) == before.at(x, y)
}

/// The pixels of a picture.
pub uninterp spec fn pixmap_image(pixmap: Pixmap) -> Image;

/// The coverage that a mask holds.
pub uninterp spec fn mask_coverage(mask: Mask) -> Coverage;

/// The steps of an outline.
pub uninterp spec fn path_segments(path: Path) -> Seq<Segment>;

/// The red, green, blue and alpha of a color.
pub uninterp spec fn color_channels(color: Color) -> Seq<int>;

/// The left, top, right and bottom of a rectangle.
pub uninterp spec fn rect_edges(rect: Rect) -> Seq<u32>;

/// The width of a stroke.
pub uninterp spec fn stroke_bits(stroke: Stroke) -> u32;

/// The channels of the color that `Color::from_rgba8` makes.
pub uninterp spec fn rgba8_channels(r: u8, g: u8, b: u8, a: u8) -> Seq<int>;

/// The pixels after `Pixmap::fill_path`: what lies inside of `segments` by the winding
/// rule painted in `color`, smoothed at the edges, through `mask` where there is one.
pub uninterp spec fn filled_pixels(
    before: Image,
    segments: Seq<Segment>,
    color: Seq<int>,
    mask: Option<Coverage>,
) -> Seq<u8>;

/// The pixels after `Pixmap::stroke_path`: `segments` drawn as smoothed lines of the
/// width `width` in `color`.
pub uninterp spec fn stroked_pixels(
    before: Image,
    segments: Seq<Segment>,
    color: Seq<int>,
    width: u32,
) -> Seq<u8>;

/// The pixels after `Pixmap::fill_rect` with the blend mode `DestinationIn`: each
/// one inside the rectangle scaled by the alpha of `color`.
pub uninterp spec fn faded_pixels(before: Image, edges: Seq<u32>, color: Seq<int>) -> Seq<u8>;

/// The pixels after `Pixmap::draw_pixmap`: `layer` over the picture, corner to
/// corner.
pub uninterp spec fn composited_pixels(before: Image, layer: Image) -> Seq<u8>;

/// The bytes after `Mask::fill_path`: `segments` let through, smoothed at the edges.
pub uninterp spec fn opened_bytes(before: Coverage, segments: Seq<Segment>) -> Seq<u8>;

/// The straight channel that `PremultipliedColorU8::demultiply` gives for a
/// premultiplied `channel` under `alpha`.
pub uninterp spec fn straight_channel(channel: u8, alpha: u8) -> u8;

/// The coverage of a mask, where there is one.
pub open spec fn clip(mask: Option<&Mask>) -> Option<Coverage> {
    match mask {
        Some(mask) => Some(mask_coverage(*mask)),
        None => None,
    }
}

/// The picture after an outline was filled in it.
pub open spec fn filled(
    image: Image,
    segments: Seq<Segment>,
    color: Seq<int>,
    mask: Option<Coverage>,
) -> Image {
    image.with(filled_pixels(image, segments, color, mask))
}

/// The picture after an outline was drawn in it.
pub open spec fn stroked(
    image: Image,
    segments: Seq<Segment>,
    color: Seq<int>,
    width: u32,
) -> Image {
    image.with(stroked_pixels(image, segments, color, width))
}

/// The picture after it faded.
pub open spec fn faded(image: Image, edges: Seq<u32>, color: Seq<int>) -> Image {
    image.with(faded_pixels(image, edges, color))
}

/// The picture with a layer over it.
pub open spec fn composited(image: Image, layer: Image) -> Image {
    image.with(composited_pixels(image, layer))
}

/// The mask after an outline was let through.
pub open spec fn opened(mask: Coverage, segments: Seq<Segment>) -> Coverage {
    Coverage { width: mask.width, height: mask.height, bytes: opened_bytes(mask, segments) }
}

/// Whether a picture of this size can be made: none of the sides is 0, a row has
/// no more than `i32::MAX` bytes, and the machine can count the bytes of all rows.
pub open spec fn canvas_fits(width: nat, height: nat) -> bool {
    &&& width > 0
    &&& height > 0
    &&& 4 * width <= i32::MAX
    &&& 4 * (width * height) <= usize::MAX
}

/// Whether a picture of this size can be made.
pub fn size_fits(width: u32, height: u32) -> (res: bool)
    ensures
        res == canvas_fits(width as nat, height as nat),
{
    if width == 0 || height == 0 || width > 0x1fff_ffff {
        return false;
    }
    proof {
        assert(width * height <= 0x1fff_ffff * 0xffff_ffff) by (nonlinear_arith)
            requires
                width <= 0x1fff_ffff,
                height <= 0xffff_ffff,
        ;
        assert(0 <= width * height) by (nonlinear_arith);
    }
    4 * (width as u64 * height as u64) <= usize::MAX as u64
}

/// Whether `value` is a whole number nearest to the straight channel, which is
/// `255 * channel / alpha`.
pub open spec fn is_straight(channel: u8, alpha: u8, value: u8) -> bool {
    if alpha == 0 {
        channel == 0 ==> value == 0
    } else if channel <= alpha {
        510 * channel - alpha <= 2 * alpha * value <= 510 * channel + alpha
    } else {
        value == 255
    }
}

/// Calls `Pixmap::new`: a transparent picture of the given size, or none where
/// such a picture cannot be made.
#[verifier::external_body]
pub(crate) fn new_pixmap(width: u32, height: u32) -> (res: Option<Pixmap>)
    requires
        canvas_fits(width as nat, height as nat) ==> 4 * (width * height) <= isize::MAX,
    ensures
        res is Some <==> canvas_fits(width as nat, height as nat),
        res is Some ==> pixmap_image(res->0) == blank(width as nat, height as nat),
{
    Pixmap::new(width, height)
}

/// Calls `Pixmap::fill` with the transparent color: every byte becomes 0.
#[verifier::external_body]
pub(crate) fn clear(pixmap: &mut Pixmap)
    requires
        pixmap_image(*old(pixmap)).wf(),
    ensures
        pixmap_image(*final(pixmap)) == blank(
            pixmap_image(*old(pixmap)).width,
            pixmap_image(*old(pixmap)).height,
        ),
{
    pixmap.fill(Color::TRANSPARENT);
}

/// Calls `Pixmap::data`: the bytes of the picture.
#[verifier::external_body]
pub(crate) fn pixel_bytes(pixmap: &Pixmap) -> (res: &[u8])
    ensures
        res@ == pixmap_image(*pixmap).bytes,
{
    pixmap.data()
}

/// Reads the field `width` of a `Stroke`, as its bit pattern.
#[verifier::external_body]
pub(crate) fn stroke_width(stroke: &Stroke) -> (res: u32)
    ensures
        res == stroke_bits(*stroke),
{
    stroke.width.to_bits()
}

/// Calls `Rect::left`, `top`, `right` and `bottom`: the edges, as their bit patterns.
#[verifier::external_body]
pub(crate) fn edge_bits(rect: &Rect) -> (res: [u32; 4])
    ensures
        res@ == rect_edges(*rect),
{
    [rect.left(), rect.top(), rect.right(), rect.bottom()].map(|edge| edge.to_bits())
}

/// Whether the four edges of a rectangle are less than 2 to the power of 28 away from 0.
pub fn rect_is_small(rect: &Rect) -> (res: bool)
    ensures
        res == edges_fit(rect_edges(*rect)),
        res <==> forall|i: int|
            0 <= i < 4 ==> (#[trigger] rect_edges(*rect)[i]) % 0x8000_0000 < 0x4d80_0000,
{
    let edges = edge_bits(rect);
    edges[0] % 0x8000_0000 < 0x4d80_0000 && edges[1] % 0x8000_0000 < 0x4d80_0000 && edges[2]
        % 0x8000_0000 < 0x4d80_0000 && edges[3] % 0x8000_0000 < 0x4d80_0000
}

/// Goes through `Path::segments`: every step of the outline, in order.
#[verifier::external_body]
pub(crate) fn steps(path: &Path) -> (res: Vec<Segment>)
    ensures
        res@ == path_segments(*path),
{
    let bits = |p: tiny_skia::Point| (p.x.to_bits(), p.y.to_bits());
    let plain = |segment| match segment {
        PathSegment::MoveTo(p) => Segment::Move(bits(p)),
        PathSegment::LineTo(p) => Segment::Line(bits(p)),
        PathSegment::QuadTo(p, q) => Segment::Quad(bits(p), bits(q)),
        PathSegment::CubicTo(p, q, r) => Segment::Cubic(bits(p), bits(q), bits(r)),
        PathSegment::Close => Segment::Close,
    };
    path.segments().map(plain).collect()
}

/// Whether an outline is made of lines and quadratic curves alone.
pub fn path_is_simple(path: &Path) -> (res: bool)
    ensures
        res == is_simple(path_segments(*path)),
{
    let all = steps(path);
    let n: usize = all.len();
    for i in 0..n
        invariant
            n == all@.len(),
            all@ == path_segments(*path),
            forall|j: int| 0 <= j < i ==> !((#[trigger] all@[j]) is Cubic),
    {
        if matches!(all[i], Segment::Cubic(_, _, _)) {
            assert(all@[i as int] is Cubic);
            return false;
        }
    }
    true
}

/// Whether every point of a step is below `limit`.
fn step_is_below(segment: Segment, limit: u32) -> (res: bool)
    ensures
        res == is_step_below(segment, limit),
{
    let below = |p: (u32, u32)| -> (b: bool)
        ensures
            b == is_point_below(p, limit),
        { p.0 % 0x8000_0000 < limit && p.1 % 0x8000_0000 < limit };
    match segment {
        Segment::Move(p) => below(p),
        Segment::Line(p) => below(p),
        Segment::Quad(p, q) => below(p) && below(q),
        Segment::Cubic(p, q, r) => below(p) && below(q) && below(r),
        Segment::Close => true,
    }
}

/// An outline is small where each coordinate of each of its points is less than 2 to the power
/// of 27 away from 0, that is, where its bit pattern without the sign is below the pattern of
/// that number. It is simple where none of its steps is a cubic curve.
pub proof fn law_small_and_simple_outlines(outline: Seq<Segment>)
    ensures
        is_small(outline) <==> forall|i: int, j: int|
            0 <= i < outline.len() && 0 <= j < points(outline[i]).len() ==> (
            #[trigger] points(outline[i])[j]).0 % 0x8000_0000 < 0x4d00_0000
                && points(outline[i])[j].1 % 0x8000_0000 < 0x4d00_0000,
        is_simple(outline) <==> forall|i: int|
            0 <= i < outline.len() ==> points(#[trigger] outline[i]).len() != 3,
{
    if is_small(outline) {
        assert forall|i: int, j: int|
            0 <= i < outline.len() && 0 <= j < points(outline[i]).len() implies (
        #[trigger] points(outline[i])[j]).0 % 0x8000_0000 < 0x4d00_0000 && points(outline[i])[j].1
            % 0x8000_0000 < 0x4d00_0000 by {
            assert(is_step_below(outline[i], 0x4d00_0000));
            assert(j == 0 || j == 1 || j == 2);
        }
    }
    if forall|i: int, j: int|
        0 <= i < outline.len() && 0 <= j < points(outline[i]).len() ==> (
        #[trigger] points(outline[i])[j]).0 % 0x8000_0000 < 0x4d00_0000 && points(outline[i])[j].1
            % 0x8000_0000 < 0x4d00_0000 {
        assert forall|i: int| 0 <= i < outline.len() implies is_step_below(
            #[trigger] outline[i],
            0x4d00_0000,
        ) by {
            let all = points(outline[i]);
            assert(all.len() > 0 ==> is_point_below(points(outline[i])[0], 0x4d00_0000));
            assert(all.len() > 1 ==> is_point_below(points(outline[i])[1], 0x4d00_0000));
            assert(all.len() > 2 ==> is_point_below(points(outline[i])[2], 0x4d00_0000));
        }
    }
}

/// Whether every coordinate of an outline is less than 2 to the power of 27.
pub fn path_is_small(path: &Path) -> (res: bool)
    ensures
        res == is_small(path_segments(*path)),
{
    let all = steps(path);
    let n: usize = all.len();
    for i in 0..n
        invariant
            n == all@.len(),
            all@ == path_segments(*path),
            forall|j: int| 0 <= j < i ==> is_step_below(#[trigger] all@[j], 0x4d00_0000),
    {
        if !step_is_below(all[i], 0x4d00_0000) {
            assert(!is_step_below(all@[i as int], 0x4d00_0000));
            return false;
        }
    }
    true
}

/// Calls `Color::from_rgba8`: the channels depend on the four bytes alone.
#[verifier::external_body]
pub(crate) fn solid(color: Rgba) -> (res: Color)
    ensures
        color_channels(res) == rgba8_channels(color.r, color.g, color.b, color.a),
{
    Color::from_rgba8(color.r, color.g, color.b, color.a)
}

/// Calls `Pixmap::fill_path`, smoothed at the edges and by the winding rule. The
/// size stays, and the new pixels depend on the old ones, the outline, the color
/// and the mask alone. A pixel whose mask byte is 0 stays as it was. Within 8192 pixels
/// of the origin, where whole numbers of pixels are exact, and on a picture that needs no
/// tiles, nothing is drawn outside of the rectangle around the outline, rounded out to
/// whole pixels. Within 32768 pixels of the origin, on a picture of up to 32767 pixels a
/// side, nothing is drawn more than a pixel outside of it: the outline is moved to each
/// tile and back by whole pixels, which rounds it by a fraction of one.
///
/// Cubic curves are left out: where those are cut at the edge of the picture is found with
/// the machine's own `acos`. So are coordinates from 2 to the power of 27 on, and pictures
/// higher than 2 to the power of 28: the rows of the outline, counted from each tile, are
/// multiplied by four in 32 bits without a check, and rows that wrap around are drawn past
/// the end of the picture, on which the call panics.
#[verifier::external_body]
pub(crate) fn fill_path(pixmap: &mut Pixmap, path: &Path, color: Color, mask: Option<&Mask>)
    requires
        pixmap_image(*old(pixmap)).wf(),
        pixmap_image(*old(pixmap)).height <= 0x1000_0000,
        is_simple(path_segments(*path)),
        is_small(path_segments(*path)),
        mask is Some ==> mask_coverage(*mask->0).width == pixmap_image(*old(pixmap)).width
            && mask_coverage(*mask->0).height == pixmap_image(*old(pixmap)).height,
    ensures
        pixmap_image(*final(pixmap)) == pixmap_image(*old(pixmap)).with(
            filled_pixels(
                pixmap_image(*old(pixmap)),
                path_segments(*path),
                color_channels(color),
                clip(mask),
            ),
        ),
        pixmap_image(*final(pixmap)).wf(),
        mask is Some ==> forall|i: int|
            0 <= i < mask_coverage(*mask->0).bytes.len() && mask_coverage(*mask->0).bytes[i] == 0
                ==> #[trigger] pixmap_image(*final(pixmap)).same_at(pixmap_image(*old(pixmap)), i),
        is_near(path_segments(*path)) && is_short(
            pixmap_image(*old(pixmap)).width,
            pixmap_image(*old(pixmap)).height,
        ) ==> keeps_around(
            pixmap_image(*final(pixmap)),
            pixmap_image(*old(pixmap)),
            path_segments(*path),
            0,
        ),
{
    let mut paint = tiny_skia::Paint::default();
    paint.anti_alias = true;
    paint.set_color(color);
    let rule = tiny_skia::FillRule::Winding;
    pixmap.fill_path(path, &paint, rule, tiny_skia::Transform::identity(), mask);
}

/// Calls `Pixmap::stroke_path` with the width of `stroke` and otherwise the default
/// settings, smoothed and without a mask. The size stays, and the new pixels depend on the
/// old ones, the outline, the color and the width alone. Cubic curves are left out: where
/// those bend most is found with the machine's own `acos`. What is wider than a pixel is
/// drawn as `fill_path` draws its border, which a miter takes twice the width away from
/// the outline. So coordinates from 2 to the power of 27 on, widths from 2 to the power of
/// 25 on and pictures higher than 2 to the power of 28 are left out, on which rows wrap
/// around and the call panics. That leaves out the coordinates, too, whose squares are no
/// numbers, on which the search for the sharpest bend panics, and a width that is no
/// number, on which a build with assertions does.
///
/// An upright outline is drawn no further than its width and a pixel away from the
/// rectangle around it, and another pixel where `fill_path` may take one. Its lines,
/// corners and miters reach half the width along each axis, and hairlines a pixel. The rest
/// allows for rounding: a curve beside a corner is only taken where its ends are seen from
/// its control point at a right angle or more, so that the control point strays no further
/// than half the distance of the ends. Of other outlines this is left unsaid: sharp miters
/// reach further.
#[verifier::external_body]
pub(crate) fn stroke_path(pixmap: &mut Pixmap, path: &Path, color: Color, stroke: &Stroke)
    requires
        pixmap_image(*old(pixmap)).wf(),
        pixmap_image(*old(pixmap)).height <= 0x1000_0000,
        is_simple(path_segments(*path)),
        is_small(path_segments(*path)),
        stroke_bits(*stroke) % 0x8000_0000 < 0x4c00_0000,
    ensures
        pixmap_image(*final(pixmap)) == pixmap_image(*old(pixmap)).with(
            stroked_pixels(
                pixmap_image(*old(pixmap)),
                path_segments(*path),
                color_channels(color),
                stroke_bits(*stroke),
            ),
        ),
        pixmap_image(*final(pixmap)).wf(),
        is_upright(path_segments(*path), stroke_bits(*stroke)) && is_short(
            pixmap_image(*old(pixmap)).width,
            pixmap_image(*old(pixmap)).height,
        ) ==> keeps_around(
            pixmap_image(*final(pixmap)),
            pixmap_image(*old(pixmap)),
            path_segments(*path),
            reach(stroke_bits(*stroke)),
        ),
{
    let mut paint = tiny_skia::Paint::default();
    paint.anti_alias = true;
    paint.set_color(color);
    let stroke = Stroke { width: stroke.width, ..Stroke::default() };
    pixmap.stroke_path(path, &paint, &stroke, tiny_skia::Transform::identity(), None);
}

/// Calls `Pixmap::fill_rect` with the blend mode `DestinationIn`. The size stays,
/// and the new pixels depend on the old ones, the rectangle and the color alone.
/// No byte becomes greater. A picture of more than one tile is filled as `fill_path` does
/// it, so edges from 2 to the power of 28 on, and pictures higher than that, are left out.
#[verifier::external_body]
pub(crate) fn fade(pixmap: &mut Pixmap, rect: Rect, color: Color)
    requires
        pixmap_image(*old(pixmap)).wf(),
        pixmap_image(*old(pixmap)).height <= 0x1000_0000,
        edges_fit(rect_edges(rect)),
    ensures
        pixmap_image(*final(pixmap)) == pixmap_image(*old(pixmap)).with(
            faded_pixels(pixmap_image(*old(pixmap)), rect_edges(rect), color_channels(color)),
        ),
        pixmap_image(*final(pixmap)).wf(),
        pixmap_image(*final(pixmap)).is_within(pixmap_image(*old(pixmap))),
{
    let mut paint = tiny_skia::Paint::default();
    paint.blend_mode = tiny_skia::BlendMode::DestinationIn;
    paint.set_color(color);
    pixmap.fill_rect(rect, &paint, tiny_skia::Transform::identity(), None);
}

/// Calls `Pixmap::draw_pixmap` at the top left corner, with the default paint. The
/// size stays, and the new pixels depend on the old ones and on the layer alone.
/// On a picture of up to 32767 pixels a side, where the place of every pixel is exact in
/// every tile and the layer has fewer than 2 to the power of 31 pixels, a pixel over which
/// the layer is all zero stays as it was.
#[verifier::external_body]
pub(crate) fn draw_pixmap(pixmap: &mut Pixmap, layer: &Pixmap)
    requires
        pixmap_image(*old(pixmap)).wf(),
        pixmap_image(*layer).wf(),
        pixmap_image(*old(pixmap)).height <= 0x1000_0000,
        pixmap_image(*layer).width == pixmap_image(*old(pixmap)).width,
        pixmap_image(*layer).height == pixmap_image(*old(pixmap)).height,
    ensures
        pixmap_image(*final(pixmap)) == pixmap_image(*old(pixmap)).with(
            composited_pixels(pixmap_image(*old(pixmap)), pixmap_image(*layer)),
        ),
        pixmap_image(*final(pixmap)).wf(),
        is_short(pixmap_image(*layer).width, pixmap_image(*layer).height) ==> forall|i: int|
            0 <= i < pixmap_image(*layer).width * pixmap_image(*layer).height && pixmap_image(
                *layer,
            ).clear_at(i) ==> #[trigger] pixmap_image(*final(pixmap)).same_at(
                pixmap_image(*old(pixmap)),
                i,
            ),
{
    let paint = tiny_skia::PixmapPaint::default();
    pixmap.draw_pixmap(0, 0, layer.as_ref(), &paint, tiny_skia::Transform::identity(), None);
}

/// Calls `Mask::new`: a mask of the given size that lets nothing through, or none
/// where a side is 0.
#[verifier::external_body]
pub(crate) fn new_mask(width: u32, height: u32) -> (res: Option<Mask>)
    requires
        width * height <= isize::MAX,
    ensures
        res is None <==> width == 0 || height == 0,
        res is Some ==> mask_coverage(res->0) == closed_mask(width as nat, height as nat),
{
    Mask::new(width, height)
}

/// Calls `Mask::fill_path`, smoothed at the edges and by the winding rule. The size
/// stays, and the new bytes depend on the old ones and the outline alone. No byte is
/// changed beside the rectangle around the outline, and cubic curves, great coordinates
/// and high masks are left out, all as with `fill_path`.
#[verifier::external_body]
pub(crate) fn open_mask(mask: &mut Mask, path: &Path)
    requires
        4 * mask_coverage(*old(mask)).width <= i32::MAX,
        mask_coverage(*old(mask)).height <= 0x1000_0000,
        is_simple(path_segments(*path)),
        is_small(path_segments(*path)),
    ensures
        mask_coverage(*final(mask)).width == mask_coverage(*old(mask)).width,
        mask_coverage(*final(mask)).height == mask_coverage(*old(mask)).height,
        mask_coverage(*final(mask)).bytes == opened_bytes(
            mask_coverage(*old(mask)),
            path_segments(*path),
        ),
        mask_coverage(*final(mask)).bytes.len() == mask_coverage(*old(mask)).bytes.len(),
        is_near(path_segments(*path)) && is_short(
            mask_coverage(*old(mask)).width,
            mask_coverage(*old(mask)).height,
        ) ==> keeps_closed(
            mask_coverage(*final(mask)),
            mask_coverage(*old(mask)),
            path_segments(*path),
        ),
{
    let rule = tiny_skia::FillRule::Winding;
    mask.fill_path(path, rule, true, tiny_skia::Transform::identity());
}

/// Calls `PremultipliedColorU8::demultiply` on the pixel at `index`: the alpha
/// stays, and each straight channel depends on the channel and the alpha alone and
/// is a whole number nearest to `255 * channel / alpha`.
#[verifier::external_body]
pub(crate) fn straight_pixel(pixmap: &Pixmap, index: usize) -> (res: Rgba)
    requires
        pixmap_image(*pixmap).wf(),
        index < pixmap_image(*pixmap).width * pixmap_image(*pixmap).height,
    ensures
        res.r == straight_channel(
            pixmap_image(*pixmap).bytes[4 * index],
            pixmap_image(*pixmap).alpha(index as int),
        ),
        res.g == straight_channel(
            pixmap_image(*pixmap).bytes[4 * index + 1],
            pixmap_image(*pixmap).alpha(index as int),
        ),
        res.b == straight_channel(
            pixmap_image(*pixmap).bytes[4 * index + 2],
            pixmap_image(*pixmap).alpha(index as int),
        ),
        res.a == pixmap_image(*pixmap).alpha(index as int),
        is_straight(pixmap_image(*pixmap).bytes[4 * index], res.a, res.r),
        is_straight(pixmap_image(*pixmap).bytes[4 * index + 1], res.a, res.g),
        is_straight(pixmap_image(*pixmap).bytes[4 * index + 2], res.a, res.b),
{
    let c = pixmap.pixels()[index].demultiply();
    Rgba { r: c.red(), g: c.green(), b: c.blue(), a: c.alpha() }
}

} // verus!
