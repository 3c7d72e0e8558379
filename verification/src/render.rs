//! Drawing the frames of the overlay.

use crate::canvas::blank;
use crate::canvas::canvas_fits;
use crate::canvas::clear;
use crate::canvas::clip;
use crate::canvas::closed_mask;
use crate::canvas::color_channels;
use crate::canvas::composited;
use crate::canvas::composited_pixels;
use crate::canvas::draw_pixmap;
use crate::canvas::edges_fit;
use crate::canvas::fade;
use crate::canvas::faded;
use crate::canvas::faded_pixels;
use crate::canvas::fill_path;
use crate::canvas::filled;
use crate::canvas::filled_pixels;
use crate::canvas::is_beside;
use crate::canvas::is_drawn;
use crate::canvas::is_near;
use crate::canvas::is_short;
use crate::canvas::is_simple;
use crate::canvas::is_small;
use crate::canvas::is_straight;
use crate::canvas::is_upright;
use crate::canvas::keeps_around;
use crate::canvas::lemma_clear_of;
use crate::canvas::lemma_reach;
use crate::canvas::mask_coverage;
use crate::canvas::new_mask;
use crate::canvas::new_pixmap;
use crate::canvas::open_mask;
use crate::canvas::opened;
use crate::canvas::opened_bytes;
use crate::canvas::path_is_simple;
use crate::canvas::path_is_small;
use crate::canvas::path_segments;
use crate::canvas::pixel_bytes;
use crate::canvas::pixmap_image;
use crate::canvas::reach;
use crate::canvas::rect_edges;
use crate::canvas::rect_is_small;
use crate::canvas::rgba8_channels;
use crate::canvas::slack;
use crate::canvas::solid;
use crate::canvas::straight_channel;
use crate::canvas::straight_pixel;
use crate::canvas::stroke_bits;
use crate::canvas::stroke_path;
use crate::canvas::stroke_width;
use crate::canvas::stroked;
use crate::canvas::stroked_pixels;
use crate::canvas::width_fits;
use crate::canvas::Coverage;
use crate::canvas::Image;
use crate::canvas::Segment;
use crate::color::Rgba;
use crate::log::Sample;
use crate::sticks::Bipolar;
use crate::sticks::Mapping;
use crate::sticks::Norm;
use crate::style::Style;
use tiny_skia::Color;
use tiny_skia::Mask;
use tiny_skia::Path;
use tiny_skia::Pixmap;
use tiny_skia::Rect;
use tiny_skia::Stroke;
use vstd::prelude::*;

verus! {

/// What is drawn of one stick box: its outline and the lines through its middle.
pub struct BoxShape {
    pub outline: Option<Path>,
    pub cross: Option<Path>,
}

/// What the overlay is drawn of, laid out on the canvas.
pub struct Shapes {
    pub left: BoxShape,
    pub right: BoxShape,
    /// The whole canvas.
    pub canvas: Option<Rect>,
    /// How the outlines and the cross lines are drawn.
    pub stroke: Stroke,
    /// The color that a dot leaves in the trail.
    pub trail: Color,
    /// The color whose alpha is what is left of the trail after each frame.
    pub fade: Color,
}

/// The steps of an outline, where there is one.
pub open spec fn segments(path: Option<Path>) -> Option<Seq<Segment>> {
    match path {
        Some(path) => Some(path_segments(path)),
        None => None,
    }
}

/// What a box is drawn of.
pub struct BoxView {
    pub outline: Option<Seq<Segment>>,
    pub cross: Option<Seq<Segment>>,
}

impl BoxView {
    /// Whether every curve of the box is quadratic.
    pub open spec fn is_simple(self) -> bool {
        &&& self.outline matches Some(outline) ==> is_simple(outline)
        &&& self.cross matches Some(cross) ==> is_simple(cross)
    }

    /// Whether every coordinate of the box is less than 2 to the power of 27.
    pub open spec fn is_small(self) -> bool {
        &&& self.outline matches Some(outline) ==> is_small(outline)
        &&& self.cross matches Some(cross) ==> is_small(cross)
    }

    /// Whether the box is made of level and plumb lines with corners between them.
    pub open spec fn is_upright(self, width: u32) -> bool {
        &&& self.outline matches Some(outline) ==> is_upright(outline, width)
        &&& self.cross matches Some(cross) ==> is_upright(cross, width)
    }

    /// Whether the pixel in column `x` and row `y` of a canvas of the given size is clear of
    /// the box by `margin`.
    pub open spec fn is_off(self, width: nat, height: nat, x: int, y: int, margin: int) -> bool {
        &&& is_off(self.outline, width, height, x, y, margin)
        &&& is_off(self.cross, width, height, x, y, margin)
    }
}

impl View for BoxShape {
    type V = BoxView;

    open spec fn view(&self) -> BoxView {
        BoxView { outline: segments(self.outline), cross: segments(self.cross) }
    }
}

/// What the overlay is drawn of.
pub struct ShapesView {
    pub left: BoxView,
    pub right: BoxView,
    pub canvas: Option<Seq<u32>>,
    pub stroke: u32,
    pub trail: Seq<int>,
    pub fade: Seq<int>,
}

impl ShapesView {
    /// Whether every curve of the boxes is quadratic.
    pub open spec fn is_simple(self) -> bool {
        self.left.is_simple() && self.right.is_simple()
    }

    /// Whether every coordinate of the boxes is less than 2 to the power of 27.
    pub open spec fn is_small(self) -> bool {
        self.left.is_small() && self.right.is_small()
    }

    /// Whether the boxes are made of level and plumb lines with corners between them.
    pub open spec fn is_upright(self) -> bool {
        self.left.is_upright(self.stroke) && self.right.is_upright(self.stroke)
    }

    /// Whether the edges of the canvas are less than 2 to the power of 28.
    pub open spec fn canvas_is_small(self) -> bool {
        self.canvas matches Some(edges) ==> edges_fit(edges)
    }

    /// Whether the lines are narrower than 2 to the power of 25, or not drawn at all.
    pub open spec fn lines_fit(self) -> bool {
        width_fits(self.stroke)
    }

    /// Whether the pixel in column `x` and row `y` of a canvas of the given size is clear of
    /// the boxes by the width of their lines and a pixel.
    pub open spec fn is_off(self, width: nat, height: nat, x: int, y: int) -> bool {
        &&& self.left.is_off(width, height, x, y, reach(self.stroke))
        &&& self.right.is_off(width, height, x, y, reach(self.stroke))
    }
}

impl View for Shapes {
    type V = ShapesView;

    open spec fn view(&self) -> ShapesView {
        ShapesView {
            left: self.left@,
            right: self.right@,
            canvas: match self.canvas {
                Some(rect) => Some(rect_edges(rect)),
                None => None,
            },
            stroke: stroke_bits(self.stroke),
            trail: color_channels(self.trail),
            fade: color_channels(self.fade),
        }
    }
}

/// Whether there is no outline, or one without cubic curves and of small coordinates.
pub open spec fn is_fillable(outline: Option<Seq<Segment>>) -> bool {
    outline matches Some(outline) ==> is_simple(outline) && is_small(outline)
}

/// Whether there is no outline, or one without cubic curves.
pub open spec fn is_simple_or_none(outline: Option<Seq<Segment>>) -> bool {
    outline matches Some(outline) ==> is_simple(outline)
}

/// Whether there is no outline, or one without cubic curves.
fn option_is_simple(path: &Option<Path>) -> (res: bool)
    ensures
        res == is_simple_or_none(segments(*path)),
{
    match path {
        Some(path) => path_is_simple(path),
        None => true,
    }
}

/// Whether there is no outline, or one of small coordinates.
pub open spec fn is_small_or_none(outline: Option<Seq<Segment>>) -> bool {
    outline matches Some(outline) ==> is_small(outline)
}

/// Whether there is no outline, or one of small coordinates.
fn option_is_small(path: &Option<Path>) -> (res: bool)
    ensures
        res == is_small_or_none(segments(*path)),
{
    match path {
        Some(path) => path_is_small(path),
        None => true,
    }
}

/// Whether a dot can be drawn: there is none, or it has no cubic curves and every
/// coordinate is less than 2 to the power of 27.
pub fn dot_is_fillable(dot: &Option<Path>) -> (res: bool)
    ensures
        res == is_fillable(segments(*dot)),
        dot is None ==> res,
        dot matches Some(path) ==> res == (is_simple(path_segments(*path)) && is_small(
            path_segments(*path),
        )),
{
    option_is_simple(dot) && option_is_small(dot)
}

impl Shapes {
    /// Whether the edges of the canvas are less than 2 to the power of 28.
    pub fn canvas_is_small(&self) -> (res: bool)
        ensures
            res == self@.canvas_is_small(),
            self.canvas is None ==> res,
            self.canvas matches Some(rect) ==> res == edges_fit(rect_edges(rect)),
    {
        match &self.canvas {
            Some(rect) => rect_is_small(rect),
            None => true,
        }
    }

    /// Whether the lines are narrower than 2 to the power of 25, or not drawn at all.
    pub fn lines_fit(&self) -> (res: bool)
        ensures
            res == self@.lines_fit(),
            res <==> stroke_bits(self.stroke) < 0x4c00_0000 || stroke_bits(self.stroke)
                > 0x7f80_0000,
    {
        let width: u32 = stroke_width(&self.stroke);
        width < 0x4c00_0000 || width > 0x7f80_0000
    }

    /// Whether every coordinate of the boxes is less than 2 to the power of 27.
    pub fn is_small(&self) -> (res: bool)
        ensures
            res == self@.is_small(),
            res <==> is_small_or_none(segments(self.left.outline)) && is_small_or_none(
                segments(self.left.cross),
            ) && is_small_or_none(segments(self.right.outline)) && is_small_or_none(
                segments(self.right.cross),
            ),
    {
        option_is_small(&self.left.outline) && option_is_small(&self.left.cross)
            && option_is_small(&self.right.outline) && option_is_small(&self.right.cross)
    }

    /// Whether every curve of the boxes is quadratic.
    pub fn is_simple(&self) -> (res: bool)
        ensures
            res == self@.is_simple(),
            res <==> is_simple_or_none(segments(self.left.outline)) && is_simple_or_none(
                segments(self.left.cross),
            ) && is_simple_or_none(segments(self.right.outline)) && is_simple_or_none(
                segments(self.right.cross),
            ),
    {
        option_is_simple(&self.left.outline) && option_is_simple(&self.left.cross)
            && option_is_simple(&self.right.outline) && option_is_simple(&self.right.cross)
    }
}

/// The trail: a layer of its own that stays from frame to frame, and the masks that
/// keep each dot's part of it inside its box.
pub struct Trail {
    layer: Pixmap,
    left: Mask,
    right: Mask,
}

/// What a trail holds.
pub struct TrailView {
    pub layer: Image,
    pub left: Coverage,
    pub right: Coverage,
}

impl TrailView {
    /// Whether neither mask lets anything through at the pixel `index`.
    pub open spec fn outside(self, index: int) -> bool {
        self.left.bytes[index] == 0 && self.right.bytes[index] == 0
    }

    /// Whether layer and masks have the given size, and the layer is transparent
    /// outside of the boxes.
    pub open spec fn wf(self, width: nat, height: nat) -> bool {
        &&& self.layer.wf()
        &&& self.layer.width == width && self.layer.height == height
        &&& self.left.width == width && self.left.height == height
        &&& self.right.width == width && self.right.height == height
        &&& self.left.bytes.len() == width * height
        &&& self.right.bytes.len() == width * height
        &&& forall|i: int|
            0 <= i < width * height && self.outside(i) ==> #[trigger] self.layer.clear_at(i)
    }

    /// Whether each mask is closed wherever the outline of its box does not reach.
    pub open spec fn fits(self, shapes: ShapesView) -> bool {
        is_short(self.layer.width, self.layer.height) ==> {
            &&& is_closed_around(self.left, shapes.left.outline)
            &&& is_closed_around(self.right, shapes.right.outline)
        }
    }
}

/// Whether a mask is closed in every pixel that is clear of an outline near the origin.
pub open spec fn is_closed_around(mask: Coverage, outline: Option<Seq<Segment>>) -> bool {
    is_near_or_none(outline) ==> forall|x: int, y: int|
        0 <= x < mask.width && 0 <= y < mask.height && is_off(
            outline,
            mask.width,
            mask.height,
            x,
            y,
            0,
        ) ==> #[trigger] mask.at(x, y) == 0
}

impl View for Trail {
    type V = TrailView;

    closed spec fn view(&self) -> TrailView {
        TrailView {
            layer: pixmap_image(self.layer),
            left: mask_coverage(self.left),
            right: mask_coverage(self.right),
        }
    }
}

/// Draws frames of the overlay, one after the other.
pub struct Renderer<F> {
    pixmap: Pixmap,
    style: Style<F>,
    norm: Norm<F>,
    map: Mapping,
    shapes: Shapes,
    trail: Option<Trail>,
    out: Vec<u8>,
}

/// What a renderer holds.
pub struct RendererView<F> {
    pub style: Style<F>,
    pub norm: Norm<F>,
    pub map: Mapping,
    pub shapes: ShapesView,
    /// The frame that was drawn last, premultiplied.
    pub canvas: Image,
    pub trail: Option<TrailView>,
    /// The frame that was drawn last, in straight RGBA bytes by rows from the top.
    pub frame: Seq<u8>,
}

impl<F> RendererView<F> {
    /// Whether everything has the size of the canvas, there is a trail exactly where the
    /// style asks for one, and the boxes can be drawn.
    pub open spec fn wf(self) -> bool {
        let width = self.style.canvas_w as nat;
        let height = self.style.canvas_h as nat;
        &&& canvas_fits(width, height)
        &&& 4 * (width * height) <= isize::MAX
        &&& self.canvas.wf()
        &&& self.canvas.width == width && self.canvas.height == height
        &&& self.frame.len() == 4 * (width * height)
        &&& self.trail is Some <==> self.style.trail
        &&& self.trail matches Some(trail) ==> {
            &&& trail.wf(width, height)
            &&& trail.fits(self.shapes)
            &&& self.shapes.canvas_is_small()
        }
        &&& self.shapes.is_simple()
        &&& self.shapes.is_small()
        &&& self.shapes.lines_fit()
    }
}

impl<F> RendererView<F> {
    /// Whether the pixel in column `x` and row `y` is clear of the boxes and of the dots.
    pub open spec fn leaves(
        self,
        left: Option<Seq<Segment>>,
        right: Option<Seq<Segment>>,
        x: int,
        y: int,
    ) -> bool {
        &&& self.shapes.is_off(self.canvas.width, self.canvas.height, x, y)
        &&& is_off(left, self.canvas.width, self.canvas.height, x, y, 0)
        &&& is_off(right, self.canvas.width, self.canvas.height, x, y, 0)
    }
}

impl<F> View for Renderer<F> {
    type V = RendererView<F>;

    closed spec fn view(&self) -> RendererView<F> {
        RendererView {
            style: self.style,
            norm: self.norm,
            map: self.map,
            shapes: self.shapes@,
            canvas: pixmap_image(self.pixmap),
            trail: match self.trail {
                Some(trail) => Some(trail@),
                None => None,
            },
            frame: self.out@,
        }
    }
}

/// The channels of the color that `color` is painted in.
pub open spec fn ink(color: Rgba) -> Seq<int> {
    rgba8_channels(color.r, color.g, color.b, color.a)
}

/// A picture with an outline drawn in it; a width below 0, or one that is no number, draws
/// nothing.
pub open spec fn lined(
    image: Image,
    segments: Seq<Segment>,
    color: Seq<int>,
    stroke: u32,
) -> Image {
    if is_drawn(stroke) {
        stroked(image, segments, color, stroke)
    } else {
        image
    }
}

/// A picture with one box drawn in it: filled, then its outline, then its cross.
pub open spec fn boxed<F>(image: Image, shape: BoxView, style: Style<F>, stroke: u32) -> Image {
    let framed = match shape.outline {
        Some(outline) => lined(
            filled(image, outline, ink(style.col_fill), None),
            outline,
            ink(style.col_border),
            stroke,
        ),
        None => image,
    };
    match shape.cross {
        Some(cross) => lined(framed, cross, ink(style.col_cross), stroke),
        None => framed,
    }
}

/// The two boxes on a transparent canvas.
pub open spec fn chrome<F>(style: Style<F>, shapes: ShapesView) -> Image {
    boxed(
        boxed(
            blank(style.canvas_w as nat, style.canvas_h as nat),
            shapes.left,
            style,
            shapes.stroke,
        ),
        shapes.right,
        style,
        shapes.stroke,
    )
}

/// A picture with a dot in it, where there is one.
pub open spec fn dotted(
    image: Image,
    dot: Option<Seq<Segment>>,
    color: Seq<int>,
    mask: Option<Coverage>,
) -> Image {
    match dot {
        Some(dot) => filled(image, dot, color, mask),
        None => image,
    }
}

/// The mask of a box: open inside its outline.
pub open spec fn mask_of_box(width: nat, height: nat, outline: Option<Seq<Segment>>) -> Coverage {
    match outline {
        Some(outline) => opened(closed_mask(width, height), outline),
        None => closed_mask(width, height),
    }
}

/// The trail one frame later: faded, with the two dots left in it, each inside its
/// box.
pub open spec fn trail_after(
    trail: TrailView,
    shapes: ShapesView,
    left: Option<Seq<Segment>>,
    right: Option<Seq<Segment>>,
) -> TrailView {
    let old_layer = match shapes.canvas {
        Some(edges) => faded(trail.layer, edges, shapes.fade),
        None => trail.layer,
    };
    let half = dotted(old_layer, left, shapes.trail, Some(trail.left));
    TrailView {
        layer: dotted(half, right, shapes.trail, Some(trail.right)),
        left: trail.left,
        right: trail.right,
    }
}

/// A frame: the boxes, the trail over them where there is one, and the two dots.
pub open spec fn painted<F>(
    style: Style<F>,
    shapes: ShapesView,
    trail: Option<TrailView>,
    left: Option<Seq<Segment>>,
    right: Option<Seq<Segment>>,
) -> Image {
    let under = match trail {
        Some(trail) => composited(chrome(style, shapes), trail.layer),
        None => chrome(style, shapes),
    };
    dotted(dotted(under, left, ink(style.col_dot), None), right, ink(style.col_dot), None)
}

/// A picture in straight bytes: alpha as it is, the other channels divided by it.
pub open spec fn straight_bytes(image: Image) -> Seq<u8> {
    Seq::new(
        image.bytes.len(),
        |k: int|
            if k % 4 == 3 {
                image.bytes[k]
            } else {
                straight_channel(image.bytes[k], image.alpha(k / 4))
            },
    )
}

/// Whether each channel of `frame` but alpha is a whole number nearest to what the
/// channel of `image` is when divided by its alpha.
pub open spec fn channels_straight(image: Image, frame: Seq<u8>) -> bool {
    forall|k: int|
        0 <= k < frame.len() && k % 4 != 3 ==> is_straight(
            image.bytes[k],
            image.alpha(k / 4),
            #[trigger] frame[k],
        )
}

/// Whether a trail shows nothing outside of the boxes: the picture under it stays
/// there as it is.
pub open spec fn stays_inside(under: Image, trail: TrailView) -> bool {
    forall|i: int|
        0 <= i < trail.layer.width * trail.layer.height && trail.outside(i)
            ==> #[trigger] composited(under, trail.layer).same_at(under, i)
}

/// Whether a row has a pixel between the columns `x0` and `x1` whose alpha is above
/// the tenth that can be seen.
pub open spec fn is_lit(layer: Image, x0: int, x1: int, y: int) -> bool {
    exists|x: int| x0 <= x < x1 && x < layer.width && #[trigger] layer.alpha_at(x, y) > 25
}

/// Whether `top` is the first and `bottom` the last lit row.
pub open spec fn are_lit_ends(layer: Image, x0: int, x1: int, top: int, bottom: int) -> bool {
    &&& 0 <= top <= bottom < layer.height
    &&& is_lit(layer, x0, x1, top)
    &&& is_lit(layer, x0, x1, bottom)
    &&& forall|y: int|
        0 <= y < layer.height && #[trigger] is_lit(layer, x0, x1, y) ==> top <= y <= bottom
}

/// Whether `span` is how far the last lit row is below the first, or 0 where no row
/// is lit.
pub open spec fn is_lit_span(layer: Image, x0: int, x1: int, span: int) -> bool {
    if exists|y: int| 0 <= y < layer.height && #[trigger] is_lit(layer, x0, x1, y) {
        exists|top: int, bottom: int|
            #[trigger] are_lit_ends(layer, x0, x1, top, bottom) && span == bottom - top
    } else {
        span == 0
    }
}

/// Whether `frame` is transparent in every pixel in which `image` is all zero.
pub open spec fn background_is_clear(image: Image, frame: Seq<u8>) -> bool {
    forall|i: int|
        0 <= i < image.width * image.height && #[trigger] image.clear_at(i) ==> {
            &&& frame[4 * i] == 0
            &&& frame[4 * i + 1] == 0
            &&& frame[4 * i + 2] == 0
            &&& frame[4 * i + 3] == 0
        }
}

/// Whether the pixel in column `x` and row `y` of a canvas of the given size is clear of
/// what is drawn within `margin` of an outline, or there is none.
pub open spec fn is_off(
    outline: Option<Seq<Segment>>,
    width: nat,
    height: nat,
    x: int,
    y: int,
    margin: int,
) -> bool {
    outline matches Some(outline) ==> is_beside(outline, width, height, x, y, margin)
}

/// Whether there is no outline, or one within 32768 pixels of the origin.
pub open spec fn is_near_or_none(outline: Option<Seq<Segment>>) -> bool {
    outline matches Some(outline) ==> is_near(outline)
}

/// Whether the pixel of `frame` in column `x` and row `y` is transparent black.
pub open spec fn is_nothing(frame: Seq<u8>, width: int, x: int, y: int) -> bool {
    &&& frame[4 * (y * width + x)] == 0
    &&& frame[4 * (y * width + x) + 1] == 0
    &&& frame[4 * (y * width + x) + 2] == 0
    &&& frame[4 * (y * width + x) + 3] == 0
}

/// Whether the background of a frame is transparent: every pixel that is clear of the boxes
/// by the width of their lines and a pixel, and clear of the dots, is all zero. Another
/// pixel is left around each on a canvas of more than one tile.
pub open spec fn background_is_transparent<F>(
    after: RendererView<F>,
    left: Option<Seq<Segment>>,
    right: Option<Seq<Segment>>,
) -> bool {
    forall|x: int, y: int|
        0 <= x < after.canvas.width && 0 <= y < after.canvas.height && after.leaves(
            left,
            right,
            x,
            y,
        ) ==> #[trigger] is_nothing(after.frame, after.canvas.width as int, x, y)
}

/// A box is its outline filled in the color of the fill, then drawn in that of the border,
/// then its cross drawn in that of the cross, each over what was there before. What a box
/// does not have is left out, and so are the lines where their width is below 0 or no number.
pub proof fn law_a_box_is_filled_then_lined_then_crossed<F>(
    image: Image,
    shape: BoxView,
    style: Style<F>,
    width: u32,
)
    ensures
        ({
            let fill = rgba8_channels(
                style.col_fill.r,
                style.col_fill.g,
                style.col_fill.b,
                style.col_fill.a,
            );
            let border = rgba8_channels(
                style.col_border.r,
                style.col_border.g,
                style.col_border.b,
                style.col_border.a,
            );
            let cross = rgba8_channels(
                style.col_cross.r,
                style.col_cross.g,
                style.col_cross.b,
                style.col_cross.a,
            );
            let drawn = width <= 0x7f80_0000 || width == 0x8000_0000;
            let all = boxed(image, shape, style, width);
            let plain = boxed(image, (BoxView { outline: shape.outline, cross: None }), style, width);
            &&& all.width == image.width && all.height == image.height
            &&& plain.width == image.width && plain.height == image.height
            &&& drawn ==> (shape.cross matches Some(c) ==> all.bytes == stroked_pixels(
                plain,
                c,
                cross,
                width,
            ))
            &&& shape.cross is None || !drawn ==> all.bytes == plain.bytes
            &&& shape.outline is None ==> plain.bytes == image.bytes
            &&& !drawn ==> (shape.outline matches Some(o) ==> plain.bytes == filled_pixels(
                image,
                o,
                fill,
                None,
            ))
            &&& drawn ==> (shape.outline matches Some(o) ==> plain.bytes == stroked_pixels(
                (Image { bytes: filled_pixels(image, o, fill, None), ..image }),
                o,
                border,
                width,
            ))
        }),
{
}

/// Both boxes are drawn on a canvas of transparent pixels, the right one over the left one.
pub proof fn law_both_boxes_are_drawn<F>(style: Style<F>, shapes: ShapesView)
    ensures
        ({
            let w = style.canvas_w as nat;
            let h = style.canvas_h as nat;
            let empty = Image {
                width: w,
                height: h,
                bytes: Seq::new((4 * (w * h)) as nat, |k: int| 0u8),
            };
            chrome(style, shapes) == boxed(
                boxed(empty, shapes.left, style, shapes.stroke),
                shapes.right,
                style,
                shapes.stroke,
            )
        }),
{
}

/// A frame is the boxes, the trail over them where there is one, then the left dot and then
/// the right one over all, both in the color of the dots and without a mask.
pub proof fn law_a_frame_has_the_trail_and_both_dots<F>(
    style: Style<F>,
    shapes: ShapesView,
    trail: Option<TrailView>,
    left: Option<Seq<Segment>>,
    right: Option<Seq<Segment>>,
)
    ensures
        ({
            let ink = rgba8_channels(
                style.col_dot.r,
                style.col_dot.g,
                style.col_dot.b,
                style.col_dot.a,
            );
            let boxes = chrome(style, shapes);
            let under = painted(style, shapes, trail, None, None);
            let one = painted(style, shapes, trail, left, None);
            let both = painted(style, shapes, trail, left, right);
            &&& under.width == boxes.width && under.height == boxes.height
            &&& one.width == boxes.width && one.height == boxes.height
            &&& both.width == boxes.width && both.height == boxes.height
            &&& trail is None ==> under.bytes == boxes.bytes
            &&& trail matches Some(t) ==> under.bytes == composited_pixels(boxes, t.layer)
            &&& left is None ==> one.bytes == under.bytes
            &&& left matches Some(dot) ==> one.bytes == filled_pixels(under, dot, ink, None)
            &&& right is None ==> both.bytes == one.bytes
            &&& right matches Some(dot) ==> both.bytes == filled_pixels(one, dot, ink, None)
        }),
{
}

/// The trail fades by the color of the fade, over the whole canvas. Then the left dot is left
/// in it through the mask of the left box, and the right dot through the mask of the right
/// box, both in the color of the trail. The masks stay.
pub proof fn law_both_dots_are_left_in_the_trail(
    trail: TrailView,
    shapes: ShapesView,
    left: Option<Seq<Segment>>,
    right: Option<Seq<Segment>>,
)
    ensures
        ({
            let faded = trail_after(trail, shapes, None, None).layer;
            let one = trail_after(trail, shapes, left, None).layer;
            let both = trail_after(trail, shapes, left, right);
            &&& both.left == trail.left && both.right == trail.right
            &&& faded.width == trail.layer.width && faded.height == trail.layer.height
            &&& one.width == trail.layer.width && one.height == trail.layer.height
            &&& both.layer.width == trail.layer.width && both.layer.height == trail.layer.height
            &&& shapes.canvas is None ==> faded.bytes == trail.layer.bytes
            &&& shapes.canvas matches Some(edges) ==> faded.bytes == faded_pixels(
                trail.layer,
                edges,
                shapes.fade,
            )
            &&& left is None ==> one.bytes == faded.bytes
            &&& left matches Some(dot) ==> one.bytes == filled_pixels(
                faded,
                dot,
                shapes.trail,
                Some(trail.left),
            )
            &&& right is None ==> both.layer.bytes == one.bytes
            &&& right matches Some(dot) ==> both.layer.bytes == filled_pixels(
                one,
                dot,
                shapes.trail,
                Some(trail.right),
            )
        }),
{
}

/// The two sides are alike: with the dots, the masks and the boxes of a trail exchanged, a
/// single dot leaves on the other side what it leaves on its own.
pub proof fn law_the_sides_of_a_trail_are_alike(
    trail: TrailView,
    shapes: ShapesView,
    dot: Option<Seq<Segment>>,
)
    ensures
        trail_after(trail, shapes, dot, None).layer == trail_after(
            (TrailView { layer: trail.layer, left: trail.right, right: trail.left }),
            (ShapesView { left: shapes.right, right: shapes.left, ..shapes }),
            None,
            dot,
        ).layer,
{
}

/// What a shape is seen as is all that it holds: the outlines and the crosses of both boxes,
/// the canvas, the width of the lines, and the colors of the trail and its fade.
pub proof fn law_shapes_are_seen_whole(shapes: Shapes)
    ensures
        shapes.left.outline matches Some(p) ==> shapes@.left.outline == Some(path_segments(p)),
        shapes.left.cross matches Some(p) ==> shapes@.left.cross == Some(path_segments(p)),
        shapes.right.outline matches Some(p) ==> shapes@.right.outline == Some(path_segments(p)),
        shapes.right.cross matches Some(p) ==> shapes@.right.cross == Some(path_segments(p)),
        shapes.left.outline is None <==> shapes@.left.outline is None,
        shapes.left.cross is None <==> shapes@.left.cross is None,
        shapes.right.outline is None <==> shapes@.right.outline is None,
        shapes.right.cross is None <==> shapes@.right.cross is None,
        shapes.canvas matches Some(rect) ==> shapes@.canvas == Some(rect_edges(rect)),
        shapes.canvas is None <==> shapes@.canvas is None,
        shapes@.stroke == stroke_bits(shapes.stroke),
        shapes@.trail == color_channels(shapes.trail),
        shapes@.fade == color_channels(shapes.fade),
{
}

/// A renderer starts with a transparent canvas and frame, and with what it was given. Where
/// the style asks for a trail, and only there, it has an empty one, with a mask for each box
/// that is closed but for what lies inside the outline of that box.
pub proof fn law_a_renderer_starts_empty<F>(
    style: Style<F>,
    norm: Norm<F>,
    map: Mapping,
    shapes: ShapesView,
)
    ensures
        ({
            let start = fresh(style, norm, map, shapes);
            let w = style.canvas_w as nat;
            let h = style.canvas_h as nat;
            let shut = Coverage {
                width: w,
                height: h,
                bytes: Seq::new((w * h) as nat, |k: int| 0u8),
            };
            &&& start.style == style && start.norm == norm && start.map == map
            &&& start.shapes == shapes
            &&& start.canvas.width == w && start.canvas.height == h
            &&& start.canvas.bytes == Seq::new((4 * (w * h)) as nat, |k: int| 0u8)
            &&& start.frame == start.canvas.bytes
            &&& start.trail is Some <==> style.trail
            &&& start.trail matches Some(trail) ==> {
                &&& trail.layer == start.canvas
                &&& trail.left.width == w && trail.left.height == h
                &&& trail.right.width == w && trail.right.height == h
                &&& shapes.left.outline is None ==> trail.left.bytes == shut.bytes
                &&& shapes.right.outline is None ==> trail.right.bytes == shut.bytes
                &&& shapes.left.outline matches Some(o) ==> trail.left.bytes == opened_bytes(shut, o)
                &&& shapes.right.outline matches Some(o) ==> trail.right.bytes == opened_bytes(
                    shut,
                    o,
                )
            }
        }),
{
}

/// A frame keeps the alpha of every pixel of the canvas, and has red, green and blue divided
/// by it, each in its place.
pub proof fn law_a_frame_is_the_canvas_made_straight(image: Image, i: int)
    requires
        image.wf(),
        0 <= i < image.width * image.height,
    ensures
        straight_bytes(image).len() == 4 * (image.width * image.height),
        straight_bytes(image)[4 * i] == straight_channel(
            image.bytes[4 * i],
            image.bytes[4 * i + 3],
        ),
        straight_bytes(image)[4 * i + 1] == straight_channel(
            image.bytes[4 * i + 1],
            image.bytes[4 * i + 3],
        ),
        straight_bytes(image)[4 * i + 2] == straight_channel(
            image.bytes[4 * i + 2],
            image.bytes[4 * i + 3],
        ),
        straight_bytes(image)[4 * i + 3] == image.bytes[4 * i + 3],
{
    let k = 4 * i;
    assert(k / 4 == i && (k + 1) / 4 == i && (k + 2) / 4 == i);
}

/// A span is how far apart the highest and the lowest pixel are, between the columns given,
/// whose alpha is more than 25: no two are further apart, and some two are just that far. It
/// is 0 where there is no such pixel.
pub proof fn law_a_span_reaches_over_the_lit_pixels(layer: Image, x0: int, x1: int, span: int)
    requires
        is_lit_span(layer, x0, x1, span),
        0 <= x0,
    ensures
        forall|x: int, y: int|
            layer.alpha_at(x, y) == #[trigger] layer.bytes[4 * (y * layer.width + x) + 3],
        forall|x: int, y: int, v: int, w: int|
            x0 <= x < x1 && x < layer.width && 0 <= y < layer.height && x0 <= v < x1 && v
                < layer.width && 0 <= w < layer.height && #[trigger] layer.alpha_at(x, y) > 25
                && #[trigger] layer.alpha_at(v, w) > 25 ==> w - y <= span,
        (exists|x: int, y: int|
            x0 <= x < x1 && x < layer.width && 0 <= y < layer.height && #[trigger] layer.alpha_at(
                x,
                y,
            ) > 25) ==> exists|x: int, y: int, v: int, w: int|
            x0 <= x < x1 && x < layer.width && 0 <= y < layer.height && x0 <= v < x1 && v
                < layer.width && 0 <= w < layer.height && #[trigger] layer.alpha_at(x, y) > 25
                && #[trigger] layer.alpha_at(v, w) > 25 && w - y == span,
        !(exists|x: int, y: int|
            x0 <= x < x1 && x < layer.width && 0 <= y < layer.height && #[trigger] layer.alpha_at(
                x,
                y,
            ) > 25) ==> span == 0,
{
    assert forall|x: int, y: int|
        x0 <= x < x1 && x < layer.width && 0 <= y < layer.height && #[trigger] layer.alpha_at(x, y)
            > 25 implies is_lit(layer, x0, x1, y) by {}
    if exists|y: int| 0 <= y < layer.height && #[trigger] is_lit(layer, x0, x1, y) {
        let (top, bottom) = choose|top: int, bottom: int|
            #[trigger] are_lit_ends(layer, x0, x1, top, bottom) && span == bottom - top;
        let x = choose|x: int|
            x0 <= x < x1 && x < layer.width && #[trigger] layer.alpha_at(x, top) > 25;
        let v = choose|x: int|
            x0 <= x < x1 && x < layer.width && #[trigger] layer.alpha_at(x, bottom) > 25;
        assert(layer.alpha_at(x, top) > 25 && layer.alpha_at(v, bottom) > 25);
    }
}

/// Without a trail nothing of one frame is left in the next: what is drawn depends on
/// the two dots alone, whatever was drawn before.
pub proof fn law_frames_forget_without_a_trail<F>(
    before: RendererView<F>,
    other: RendererView<F>,
    left: Option<Seq<Segment>>,
    right: Option<Seq<Segment>>,
)
    requires
        before.wf(),
        other.wf(),
        before.style == other.style,
        before.shapes == other.shapes,
        !before.style.trail,
    ensures
        painted(before.style, before.shapes, before.trail, left, right) == painted(
            other.style,
            other.shapes,
            other.trail,
            left,
            right,
        ),
{
}

/// A renderer before its first frame.
pub open spec fn fresh<F>(
    style: Style<F>,
    norm: Norm<F>,
    map: Mapping,
    shapes: ShapesView,
) -> RendererView<F> {
    let width = style.canvas_w as nat;
    let height = style.canvas_h as nat;
    RendererView {
        style,
        norm,
        map,
        shapes,
        canvas: blank(width, height),
        trail: if style.trail {
            Some(
                TrailView {
                    layer: blank(width, height),
                    left: mask_of_box(width, height, shapes.left.outline),
                    right: mask_of_box(width, height, shapes.right.outline),
                },
            )
        } else {
            None
        },
        frame: blank(width, height).bytes,
    }
}

/// The canvas cannot be made.
#[derive(Clone, Copy, Debug, PartialEq, Eq, Structural)]
pub struct InvalidCanvas;

impl InvalidCanvas {
    /// What to tell the user.
    pub fn message(&self) -> (res: String)
        ensures
            res@ == "invalid canvas size"@,
    {
        "invalid canvas size".to_string()
    }
}

/// The pixel in column `x` and row `y` has a place among the pixels of all rows.
proof fn lemma_place(width: int, height: int, x: int, y: int)
    requires
        0 <= x < width,
        0 <= y < height,
    ensures
        0 <= y * width + x < width * height,
{
    assert(0 <= y * width + x < width * height) by (nonlinear_arith)
        requires
            0 <= x < width,
            0 <= y < height,
    ;
}

/// A mask of the canvas' size that is open inside `outline`.
fn box_mask(width: u32, height: u32, outline: &Option<Path>) -> (res: Mask)
    requires
        width > 0,
        height > 0,
        4 * width <= i32::MAX,
        height <= 0x1000_0000,
        width * height <= isize::MAX,
        is_fillable(segments(*outline)),
    ensures
        mask_coverage(res) == mask_of_box(width as nat, height as nat, segments(*outline)),
        mask_coverage(res).bytes.len() == width * height,
        is_short(width as nat, height as nat) ==> is_closed_around(
            mask_coverage(res),
            segments(*outline),
        ),
{
    let mut mask = new_mask(width, height).unwrap();
    proof {
        let empty = mask_coverage(mask);
        assert forall|x: int, y: int| 0 <= x < width && 0 <= y < height implies #[trigger] empty.at(
            x,
            y,
        ) == 0 by {
            lemma_place(width as int, height as int, x, y);
        }
    }
    if let Some(path) = outline {
        open_mask(&mut mask, path);
        assert(mask_coverage(mask) =~= mask_of_box(
            width as nat,
            height as nat,
            segments(*outline),
        ));
    }
    mask
}

/// Draws an outline; a width below 0, or one that is no number, draws nothing.
fn draw_line(pixmap: &mut Pixmap, path: &Path, color: Color, stroke: &Stroke)
    requires
        pixmap_image(*old(pixmap)).wf(),
        pixmap_image(*old(pixmap)).height <= 0x1000_0000,
        is_simple(path_segments(*path)),
        is_small(path_segments(*path)),
        width_fits(stroke_bits(*stroke)),
    ensures
        pixmap_image(*final(pixmap)) == lined(
            pixmap_image(*old(pixmap)),
            path_segments(*path),
            color_channels(color),
            stroke_bits(*stroke),
        ),
        pixmap_image(*final(pixmap)).wf(),
        is_upright(path_segments(*path), stroke_bits(*stroke)) && is_short(
            pixmap_image(*old(pixmap)).width,
            pixmap_image(*old(pixmap)).height,
        ) ==> keeps_around(
            pixmap_image(*final(pixmap)),
            pixmap_image(*old(pixmap)),
            path_segments(*path),
            reach(stroke_bits(*stroke)),
        ),
{
    let width: u32 = stroke_width(stroke);
    if width <= 0x7f80_0000 || width == 0x8000_0000 {
        stroke_path(pixmap, path, color, stroke);
    }
}

/// Whether `after` has the pixels of `before` wherever these are clear of a box by the
/// width of its lines and a pixel.
pub open spec fn keeps_around_box(after: Image, before: Image, shape: BoxView, width: u32) -> bool {
    forall|x: int, y: int|
        0 <= x < before.width && 0 <= y < before.height && shape.is_off(
            before.width,
            before.height,
            x,
            y,
            reach(width),
        ) ==> #[trigger] after.same_pixel(before, x, y)
}

/// What is clear of the line around an outline is clear of the outline.
proof fn lemma_fill_is_closer(
    outline: Seq<Segment>,
    width: nat,
    height: nat,
    x: int,
    y: int,
    line: u32,
)
    requires
        line < 0x8000_0000,
        is_beside(outline, width, height, x, y, reach(line)),
    ensures
        is_beside(outline, width, height, x, y, 0),
{
    lemma_reach(line);
    let more = slack(width, height, outline);
    lemma_clear_of(outline, x, y, reach(line) + more, more);
}

/// Draws one box: filled, then its outline, then its cross.
fn draw_box<F: Copy>(pixmap: &mut Pixmap, shape: &BoxShape, style: &Style<F>, stroke: &Stroke)
    requires
        pixmap_image(*old(pixmap)).wf(),
        pixmap_image(*old(pixmap)).height <= 0x1000_0000,
        shape@.is_simple(),
        shape@.is_small(),
        width_fits(stroke_bits(*stroke)),
    ensures
        pixmap_image(*final(pixmap)) == boxed(
            pixmap_image(*old(pixmap)),
            shape@,
            *style,
            stroke_bits(*stroke),
        ),
        pixmap_image(*final(pixmap)).wf(),
        shape@.is_upright(stroke_bits(*stroke)) && is_short(
            pixmap_image(*old(pixmap)).width,
            pixmap_image(*old(pixmap)).height,
        ) ==> keeps_around_box(
            pixmap_image(*final(pixmap)),
            pixmap_image(*old(pixmap)),
            shape@,
            stroke_bits(*stroke),
        ),
{
    let ghost before = pixmap_image(*pixmap);
    let ghost mut inner = before;
    if let Some(path) = &shape.outline {
        fill_path(pixmap, path, solid(style.col_fill), None);
        proof {
            inner = pixmap_image(*pixmap);
        }
        draw_line(pixmap, path, solid(style.col_border), stroke);
    }
    let ghost framed = pixmap_image(*pixmap);
    if let Some(path) = &shape.cross {
        draw_line(pixmap, path, solid(style.col_cross), stroke);
    }
    proof {
        let width = stroke_bits(*stroke);
        let after = pixmap_image(*pixmap);
        if shape@.is_upright(width) && is_short(before.width, before.height) {
            assert forall|x: int, y: int|
                0 <= x < before.width && 0 <= y < before.height && shape@.is_off(
                    before.width,
                    before.height,
                    x,
                    y,
                    reach(width),
                ) implies #[trigger] after.same_pixel(before, x, y) by {
                if let Some(outline) = shape@.outline {
                    lemma_fill_is_closer(outline, before.width, before.height, x, y, width);
                }
                assert(inner.same_pixel(before, x, y));
                assert(framed.same_pixel(inner, x, y));
                assert(after.same_pixel(framed, x, y));
            }
        }
    }
}

/// Whether `after` has the pixels of `before` wherever these are clear of a dot.
pub open spec fn keeps_around_dot(after: Image, before: Image, dot: Option<Seq<Segment>>) -> bool {
    forall|x: int, y: int|
        0 <= x < before.width && 0 <= y < before.height && is_off(
            dot,
            before.width,
            before.height,
            x,
            y,
            0,
        ) ==> #[trigger] after.same_pixel(before, x, y)
}

/// Draws a dot, where there is one, through `mask` where there is one.
fn stamp_dot(pixmap: &mut Pixmap, dot: &Option<Path>, color: Color, mask: Option<&Mask>)
    requires
        pixmap_image(*old(pixmap)).wf(),
        pixmap_image(*old(pixmap)).height <= 0x1000_0000,
        is_fillable(segments(*dot)),
        mask is Some ==> mask_coverage(*mask->0).width == pixmap_image(*old(pixmap)).width
            && mask_coverage(*mask->0).height == pixmap_image(*old(pixmap)).height,
    ensures
        pixmap_image(*final(pixmap)) == dotted(
            pixmap_image(*old(pixmap)),
            segments(*dot),
            color_channels(color),
            clip(mask),
        ),
        pixmap_image(*final(pixmap)).wf(),
        mask is Some ==> forall|i: int|
            0 <= i < mask_coverage(*mask->0).bytes.len() && mask_coverage(*mask->0).bytes[i] == 0
                ==> #[trigger] pixmap_image(*final(pixmap)).same_at(pixmap_image(*old(pixmap)), i),
        is_near_or_none(segments(*dot)) && is_short(
            pixmap_image(*old(pixmap)).width,
            pixmap_image(*old(pixmap)).height,
        ) ==> keeps_around_dot(
            pixmap_image(*final(pixmap)),
            pixmap_image(*old(pixmap)),
            segments(*dot),
        ),
{
    if let Some(path) = dot {
        fill_path(pixmap, path, color, mask);
    }
}

/// A trail is transparent where a pixel is clear of the boxes.
proof fn lemma_trail_is_off(trail: TrailView, shapes: ShapesView, x: int, y: int)
    requires
        trail.wf(trail.layer.width, trail.layer.height),
        trail.fits(shapes),
        is_short(trail.layer.width, trail.layer.height),
        shapes.is_upright(),
        shapes.is_off(trail.layer.width, trail.layer.height, x, y),
        0 <= x < trail.layer.width,
        0 <= y < trail.layer.height,
    ensures
        trail.layer.clear_at(y * trail.layer.width + x),
{
    lemma_place(trail.layer.width as int, trail.layer.height as int, x, y);
    let width = trail.layer.width;
    let height = trail.layer.height;
    if let Some(outline) = shapes.left.outline {
        lemma_fill_is_closer(outline, width, height, x, y, shapes.stroke);
    }
    if let Some(outline) = shapes.right.outline {
        lemma_fill_is_closer(outline, width, height, x, y, shapes.stroke);
    }
    assert(trail.left.at(x, y) == 0);
    assert(trail.right.at(x, y) == 0);
    assert(trail.outside(y * trail.layer.width + x));
}

impl Trail {
    /// Fades the trail and leaves the two dots in it, each inside its box.
    fn advance(&mut self, shapes: &Shapes, left: &Option<Path>, right: &Option<Path>)
        requires
            old(self)@.wf(old(self)@.layer.width, old(self)@.layer.height),
            old(self)@.layer.height <= 0x1000_0000,
            shapes@.canvas_is_small(),
            is_fillable(segments(*left)),
            is_fillable(segments(*right)),
        ensures
            final(self)@ == trail_after(old(self)@, shapes@, segments(*left), segments(*right)),
            final(self)@.wf(old(self)@.layer.width, old(self)@.layer.height),
            left is None && right is None ==> final(self)@.layer.is_within(old(self)@.layer),
    {
        if let Some(rect) = shapes.canvas {
            fade(&mut self.layer, rect, shapes.fade);
        }
        let ghost after_fade = pixmap_image(self.layer);
        stamp_dot(&mut self.layer, left, shapes.trail, Some(&self.left));
        let ghost after_left = pixmap_image(self.layer);
        stamp_dot(&mut self.layer, right, shapes.trail, Some(&self.right));
        proof {
            let before = old(self)@;
            assert forall|i: int|
                0 <= i < before.layer.width * before.layer.height && self@.outside(
                    i,
                ) implies #[trigger] self@.layer.clear_at(i) by {
                assert(before.layer.clear_at(i));
                assert(after_fade.clear_at(i));
                assert(after_left.same_at(after_fade, i));
                assert(self@.layer.same_at(after_left, i));
            }
        }
    }
}

/// Writes `pixmap` to `out` in straight bytes.
fn straighten(pixmap: &Pixmap, out: &mut Vec<u8>)
    requires
        pixmap_image(*pixmap).wf(),
        old(out)@.len() == pixmap_image(*pixmap).bytes.len(),
    ensures
        final(out)@ == straight_bytes(pixmap_image(*pixmap)),
        channels_straight(pixmap_image(*pixmap), final(out)@),
        background_is_clear(pixmap_image(*pixmap), final(out)@),
{
    let len: usize = out.len();
    let n: usize = len / 4;
    let ghost image = pixmap_image(*pixmap);
    let ghost wanted = straight_bytes(image);
    for i in 0..n
        invariant
            image == pixmap_image(*pixmap),
            image.wf(),
            wanted == straight_bytes(image),
            n == image.width * image.height,
            4 * n == len == out@.len(),
            forall|k: int| 0 <= k < 4 * i ==> out@[k] == #[trigger] wanted[k],
            forall|k: int|
                0 <= k < 4 * i && k % 4 != 3 ==> is_straight(
                    image.bytes[k],
                    image.alpha(k / 4),
                    #[trigger] out@[k],
                ),
    {
        let c = straight_pixel(pixmap, i);
        let at: usize = 4 * i;
        out[at] = c.r;
        out[at + 1] = c.g;
        out[at + 2] = c.b;
        out[at + 3] = c.a;
    }
    assert(out@ =~= wanted);
    proof {
        assert forall|i: int|
            0 <= i < image.width * image.height && #[trigger] image.clear_at(i) implies {
            &&& out@[4 * i] == 0
            &&& out@[4 * i + 1] == 0
            &&& out@[4 * i + 2] == 0
            &&& out@[4 * i + 3] == 0
        } by {
            let k = 4 * i;
            assert(is_straight(image.bytes[k], image.alpha(k / 4), out@[k]));
            assert(is_straight(image.bytes[k + 1], image.alpha((k + 1) / 4), out@[k + 1]));
            assert(is_straight(image.bytes[k + 2], image.alpha((k + 2) / 4), out@[k + 2]));
            assert(out@[k + 3] == wanted[k + 3]);
        }
    }
}

impl<F: Copy> Renderer<F> {
    /// A renderer with a transparent canvas of the size that `style` gives, and with
    /// an empty trail where `style` asks for one.
    pub fn new(style: Style<F>, norm: Norm<F>, map: Mapping, shapes: Shapes) -> (res: Result<
        Self,
        InvalidCanvas,
    >)
        requires
            shapes@.is_simple(),
            shapes@.is_small(),
            shapes@.lines_fit(),
            style.trail ==> shapes@.canvas_is_small(),
            canvas_fits(style.canvas_w as nat, style.canvas_h as nat) ==> {
                &&& 4 * (style.canvas_w * style.canvas_h) <= isize::MAX
                &&& style.trail ==> style.canvas_h <= 0x1000_0000
            },
        ensures
            res is Ok <==> canvas_fits(style.canvas_w as nat, style.canvas_h as nat),
            res matches Ok(renderer) ==> {
                &&& renderer@.wf()
                &&& renderer@ == fresh(style, norm, map, shapes@)
            },
    {
        let width: u32 = style.canvas_w;
        let height: u32 = style.canvas_h;
        let pixmap = match new_pixmap(width, height) {
            Some(pixmap) => pixmap,
            None => return Err(InvalidCanvas),
        };
        let ghost area = width as nat * height as nat;
        let trail = if style.trail {
            let layer = match new_pixmap(width, height) {
                Some(layer) => layer,
                None => return Err(InvalidCanvas),
            };
            let left = box_mask(width, height, &shapes.left.outline);
            let right = box_mask(width, height, &shapes.right.outline);
            Some(Trail { layer, left, right })
        } else {
            None
        };
        let row: usize = 4 * width as usize;
        assert(row * height as usize == 4 * area) by (nonlinear_arith)
            requires
                row == 4 * width,
                area == width * height,
        ;
        let out: Vec<u8> = vec![0u8; row * height as usize];
        assert(out@ =~= blank(width as nat, height as nat).bytes);
        Ok(Renderer { pixmap, style, norm, map, shapes, trail, out })
    }

    /// The width of a frame.
    pub fn width(&self) -> (res: u32)
        ensures
            res == self@.style.canvas_w,
    {
        self.style.canvas_w
    }

    /// The height of a frame.
    pub fn height(&self) -> (res: u32)
        ensures
            res == self@.style.canvas_h,
    {
        self.style.canvas_h
    }

    /// The frame that was drawn last, premultiplied.
    pub fn canvas(&self) -> (res: &Pixmap)
        ensures
            pixmap_image(*res) == self@.canvas,
    {
        &self.pixmap
    }

    /// What the dots of the left and of the right box are measured by: for each box
    /// its X and its Y axis.
    pub fn dot_axes(&self, s: &Sample<F>) -> (res: (
        (Bipolar<F>, Bipolar<F>),
        (Bipolar<F>, Bipolar<F>),
    ))
        ensures
            res.0.0 == self@.norm.measure(*s, self@.map.left.0),
            res.0.1 == self@.norm.measure(*s, self@.map.left.1),
            res.1.0 == self@.norm.measure(*s, self@.map.right.0),
            res.1.1 == self@.norm.measure(*s, self@.map.right.1),
    {
        (
            (self.norm.bipolar(s, self.map.left.0), self.norm.bipolar(s, self.map.left.1)),
            (self.norm.bipolar(s, self.map.right.0), self.norm.bipolar(s, self.map.right.1)),
        )
    }

    /// Draws a frame with a dot in each box, and returns it in straight RGBA bytes by
    /// rows from the top.
    pub fn render(&mut self, left: &Option<Path>, right: &Option<Path>) -> (res: &[u8])
        requires
            old(self)@.wf(),
            old(self)@.style.canvas_h <= 0x1000_0000,
            is_fillable(segments(*left)),
            is_fillable(segments(*right)),
        ensures
            final(self)@.wf(),
            final(self)@.style == old(self)@.style,
            final(self)@.norm == old(self)@.norm,
            final(self)@.map == old(self)@.map,
            final(self)@.shapes == old(self)@.shapes,
            final(self)@.trail == (match old(self)@.trail {
                Some(trail) => Some(
                    trail_after(trail, old(self)@.shapes, segments(*left), segments(*right)),
                ),
                None => None,
            }),
            left is None && right is None && old(self)@.trail is Some
                ==> final(self)@.trail->0.layer.is_within(old(self)@.trail->0.layer),
            final(self)@.canvas == painted(
                old(self)@.style,
                old(self)@.shapes,
                final(self)@.trail,
                segments(*left),
                segments(*right),
            ),
            final(self)@.trail is Some && is_short(
                final(self)@.canvas.width,
                final(self)@.canvas.height,
            ) ==> stays_inside(
                chrome(final(self)@.style, final(self)@.shapes),
                final(self)@.trail->0,
            ),
            final(self)@.frame == straight_bytes(final(self)@.canvas),
            channels_straight(final(self)@.canvas, final(self)@.frame),
            background_is_clear(final(self)@.canvas, final(self)@.frame),
            is_short(final(self)@.canvas.width, final(self)@.canvas.height)
                && final(self)@.shapes.is_upright() && is_near_or_none(segments(*left))
                && is_near_or_none(segments(*right)) ==> background_is_transparent(
                final(self)@,
                segments(*left),
                segments(*right),
            ),
            res@ == final(self)@.frame,
    {
        clear(&mut self.pixmap);
        let ghost empty = pixmap_image(self.pixmap);
        draw_box(&mut self.pixmap, &self.shapes.left, &self.style, &self.shapes.stroke);
        let ghost one_box = pixmap_image(self.pixmap);
        draw_box(&mut self.pixmap, &self.shapes.right, &self.style, &self.shapes.stroke);
        let ghost both_boxes = pixmap_image(self.pixmap);
        if let Some(trail) = self.trail.as_mut() {
            trail.advance(&self.shapes, left, right);
            draw_pixmap(&mut self.pixmap, &trail.layer);
        }
        let ghost under = pixmap_image(self.pixmap);
        stamp_dot(&mut self.pixmap, left, solid(self.style.col_dot), None);
        let ghost one_dot = pixmap_image(self.pixmap);
        stamp_dot(&mut self.pixmap, right, solid(self.style.col_dot), None);
        straighten(&self.pixmap, &mut self.out);
        proof {
            let after = self@;
            let width = after.canvas.width as int;
            let height = after.canvas.height as int;
            if is_short(after.canvas.width, after.canvas.height) && after.shapes.is_upright()
                && is_near_or_none(segments(*left)) && is_near_or_none(segments(*right)) {
                assert forall|x: int, y: int|
                    0 <= x < width && 0 <= y < height && after.leaves(
                        segments(*left),
                        segments(*right),
                        x,
                        y,
                    ) implies #[trigger] is_nothing(after.frame, width, x, y) by {
                    let index = y * width + x;
                    lemma_place(width, height, x, y);
                    assert(empty.clear_at(index));
                    assert(one_box.same_pixel(empty, x, y));
                    assert(both_boxes.same_pixel(one_box, x, y));
                    if after.trail is Some {
                        lemma_trail_is_off(after.trail->0, after.shapes, x, y);
                        assert(under.same_at(both_boxes, index));
                    }
                    assert(one_dot.same_pixel(under, x, y));
                    assert(after.canvas.same_pixel(one_dot, x, y));
                    assert(after.canvas.clear_at(index));
                }
            }
        }
        self.out.as_slice()
    }

    /// How many rows the trail reaches up and down between the columns `x0` and
    /// `x1`: how far its last row is below its first.
    pub fn trail_span(&self, x0: u32, x1: u32) -> (res: u32)
        requires
            self@.wf(),
            self@.trail is Some,
        ensures
            is_lit_span(self@.trail->0.layer, x0 as int, x1 as int, res as int),
    {
        let trail = self.trail.as_ref().unwrap();
        let bytes: &[u8] = pixel_bytes(&trail.layer);
        let ghost layer = pixmap_image(trail.layer);
        let width: u32 = self.style.canvas_w;
        let height: u32 = self.style.canvas_h;
        let mut ends: Option<(u32, u32)> = None;
        for y in 0..height
            invariant
                layer.wf(),
                layer.width == width,
                layer.height == height,
                layer.bytes == bytes@,
                4 * (width * height) <= usize::MAX,
                ends matches Some(e) ==> {
                    &&& e.0 <= e.1 < y
                    &&& is_lit(layer, x0 as int, x1 as int, e.0 as int)
                    &&& is_lit(layer, x0 as int, x1 as int, e.1 as int)
                },
                forall|r: int|
                    0 <= r < y && #[trigger] is_lit(layer, x0 as int, x1 as int, r) ==> (ends
                        matches Some(e) && e.0 <= r <= e.1),
        {
            if row_is_lit(bytes, width, y, x0, x1, Ghost(layer)) {
                ends = match ends {
                    None => Some((y, y)),
                    Some((top, _)) => Some((top, y)),
                };
            }
        }
        match ends {
            None => 0,
            Some((top, bottom)) => {
                assert(are_lit_ends(layer, x0 as int, x1 as int, top as int, bottom as int));
                bottom - top
            },
        }
    }
}

/// Whether row `y` of a picture of `width` columns is lit between `x0` and `x1`.
fn row_is_lit(bytes: &[u8], width: u32, y: u32, x0: u32, x1: u32, Ghost(layer): Ghost<Image>) -> (res:
    bool)
    requires
        layer.wf(),
        layer.bytes == bytes@,
        layer.width == width,
        y < layer.height,
        4 * (layer.width * layer.height) <= usize::MAX,
    ensures
        res == is_lit(layer, x0 as int, x1 as int, y as int),
{
    let end: u32 = if x1 < width {
        x1
    } else {
        width
    };
    let mut x: u32 = x0;
    assert(4 * (y * width + width) <= 4 * (layer.width * layer.height)) by (nonlinear_arith)
        requires
            layer.width == width,
            y + 1 <= layer.height,
    ;
    assert(0 <= y * width) by (nonlinear_arith);
    while x < end
        invariant
            x0 <= x,
            end <= width,
            end <= x1,
            end == x1 || end == width,
            layer.bytes == bytes@,
            layer.width == width,
            0 <= y * width,
            4 * (y * width + width) <= bytes@.len() <= usize::MAX,
            forall|k: int| x0 <= k < x ==> #[trigger] layer.alpha_at(k, y as int) <= 25,
        decreases end - x,
    {
        let index: usize = y as usize * width as usize + x as usize;
        assert(layer.alpha_at(x as int, y as int) == bytes@[4 * index + 3]);
        if bytes[4 * index + 3] > 25 {
            return true;
        }
        x += 1;
    }
    false
}

} // verus!
