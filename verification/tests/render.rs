use stickoverlay::canvas::path_is_simple;
use stickoverlay::canvas::path_is_small;
use stickoverlay::canvas::size_fits;
use stickoverlay::color::Rgba;
use stickoverlay::log::Sample;
use stickoverlay::render::dot_is_fillable;
use stickoverlay::render::BoxShape;
use stickoverlay::render::Renderer;
use stickoverlay::render::Shapes;
use stickoverlay::sticks::mapping;
use stickoverlay::sticks::Bipolar;
use stickoverlay::sticks::Norm;
use stickoverlay::style::Style;
use tiny_skia::Color;
use tiny_skia::Path;
use tiny_skia::PathBuilder;
use tiny_skia::Rect;
use tiny_skia::Stroke;

fn default_style() -> Style<f32> {
    let s = Style::<u32>::default();
    Style {
        canvas_w: s.canvas_w,
        canvas_h: s.canvas_h,
        box_size: s.box_size as f32,
        gap: s.gap as f32,
        pad: s.pad as f32,
        line_width: s.line_width as f32,
        dot_radius: s.dot_radius as f32,
        corner_radius: s.corner_radius as f32,
        col_border: s.col_border,
        col_cross: s.col_cross,
        col_dot: s.col_dot,
        col_fill: s.col_fill,
        col_trail: s.col_trail,
        trail: s.trail,
        trail_decay: s.trail_decay as f32 / 100.0,
        trail_alpha: s.trail_alpha as f32 / 100.0,
    }
}

fn default_norm() -> Norm<f32> {
    let n = Norm::<u32>::default();
    Norm {
        rp_half: n.rp_half as f32,
        thr_min: n.thr_min as f32,
        thr_max: n.thr_max as f32,
        inv_roll: n.inv_roll,
        inv_pitch: n.inv_pitch,
        inv_yaw: n.inv_yaw,
        inv_throttle: n.inv_throttle,
    }
}

fn corners(style: &Style<f32>) -> (f32, f32, f32) {
    let left = (style.canvas_w as f32 - (style.box_size * 2.0 + style.gap)) / 2.0;
    let top = (style.canvas_h as f32 - style.box_size) / 2.0;
    (left, left + style.box_size + style.gap, top)
}

fn rounded(l: f32, t: f32, size: f32, r: f32) -> Option<Path> {
    let (right, b) = (l + size, t + size);
    let mut pb = PathBuilder::new();
    pb.move_to(l + r, t);
    pb.line_to(right - r, t);
    pb.quad_to(right, t, right, t + r);
    pb.line_to(right, b - r);
    pb.quad_to(right, b, right - r, b);
    pb.line_to(l + r, b);
    pb.quad_to(l, b, l, b - r);
    pb.line_to(l, t + r);
    pb.quad_to(l, t, l + r, t);
    pb.close();
    pb.finish()
}

fn cross(l: f32, t: f32, size: f32) -> Option<Path> {
    let mut pb = PathBuilder::new();
    pb.move_to(l, t + size / 2.0);
    pb.line_to(l + size, t + size / 2.0);
    pb.move_to(l + size / 2.0, t);
    pb.line_to(l + size / 2.0, t + size);
    pb.finish()
}

fn solid(c: Rgba) -> Color {
    Color::from_rgba8(c.r, c.g, c.b, c.a)
}

fn shapes(style: &Style<f32>) -> Shapes {
    let (left, right, top) = corners(style);
    let shape = |l: f32| BoxShape {
        outline: rounded(l, top, style.box_size, style.corner_radius),
        cross: cross(l, top, style.box_size),
    };
    let mut trail = solid(style.col_trail);
    trail.set_alpha((trail.alpha() * style.trail_alpha).clamp(0.0, 1.0));
    Shapes {
        left: shape(left),
        right: shape(right),
        canvas: Rect::from_xywh(0.0, 0.0, style.canvas_w as f32, style.canvas_h as f32),
        stroke: Stroke { width: style.line_width, ..Default::default() },
        trail,
        fade: Color::from_rgba(0.0, 0.0, 0.0, style.trail_decay).unwrap(),
    }
}

fn position(b: Bipolar<f32>) -> f32 {
    let (raw, inverted) = match b {
        Bipolar::Centered { value, half, inverted } => ((value / half).clamp(-1.0, 1.0), inverted),
        Bipolar::Ranged { value, low, high, inverted } => {
            (((value - low) / (high - low)).clamp(0.0, 1.0) * 2.0 - 1.0, inverted)
        }
    };
    if inverted {
        -raw
    } else {
        raw
    }
}

fn draw(r: &mut Renderer<f32>, style: &Style<f32>, s: &Sample<f32>) -> Vec<u8> {
    let (left, right, top) = corners(style);
    let dot = |l: f32, axes: (Bipolar<f32>, Bipolar<f32>)| {
        let x = l + (position(axes.0) + 1.0) / 2.0 * style.box_size;
        let y = top + (1.0 - position(axes.1)) / 2.0 * style.box_size;
        PathBuilder::from_circle(x, y, style.dot_radius)
    };
    let axes = r.dot_axes(s);
    r.render(&dot(left, axes.0), &dot(right, axes.1)).to_vec()
}

fn renderer(style: &Style<f32>) -> Renderer<f32> {
    Renderer::new(*style, default_norm(), mapping(2).unwrap(), shapes(style)).unwrap()
}

fn sample(throttle: f32) -> Sample<f32> {
    Sample { t_us: 0, roll: 0.0, pitch: 0.0, yaw: 250.0, throttle }
}

fn pixel(frame: &[u8], width: u32, x: u32, y: u32) -> [u8; 4] {
    let at = 4 * (y * width + x) as usize;
    [frame[at], frame[at + 1], frame[at + 2], frame[at + 3]]
}

// Defaults: left box center x = 120, yaw 250/500 = 0.5 -> dot x ~ 170.
const COL: (u32, u32) = (166, 174);

#[test]
fn smear_stretches_on_fast_move_and_tightens_when_held() {
    let mut style = default_style();
    style.trail = true; // default decay 0.88, alpha 0.5
    let mut r = renderer(&style);

    // Hold high.
    for _ in 0..20 {
        draw(&mut r, &style, &sample(1900.0));
    }
    let span_held_high = r.trail_span(COL.0, COL.1);

    // Fast chop high -> low over two frames; capture the smear.
    draw(&mut r, &style, &sample(1500.0));
    draw(&mut r, &style, &sample(1100.0));
    let span_chop = r.trail_span(COL.0, COL.1);

    // Hold low; the smear should decay back to a tight dot.
    for _ in 0..20 {
        draw(&mut r, &style, &sample(1100.0));
    }
    let span_held_low = r.trail_span(COL.0, COL.1);

    println!("span held-high={span_held_high}px chop={span_chop}px held-low={span_held_low}px");

    assert!(span_held_high < 40, "held-high should be tight: {span_held_high}");
    assert!(span_held_low < 40, "held-low should be tight: {span_held_low}");
    assert!(span_chop > 100, "chop should smear: {span_chop}");
    assert!(
        span_chop > span_held_low * 3,
        "smear ({span_chop}) should dwarf held dot ({span_held_low})"
    );
}

#[test]
fn a_frame_shows_boxes_and_dots_on_nothing() {
    let style = default_style();
    let mut r = renderer(&style);
    assert_eq!((r.width(), r.height()), (480, 240));
    let frame = draw(&mut r, &style, &Sample { t_us: 0, roll: 0.0, pitch: 0.0, yaw: 0.0, throttle: 1000.0 });
    assert_eq!(frame.len(), 480 * 240 * 4);
    // Outside of the boxes.
    assert_eq!(pixel(&frame, 480, 0, 0), [0, 0, 0, 0]);
    assert_eq!(pixel(&frame, 480, 240, 120), [0, 0, 0, 0]);
    // Inside of a box, off its lines.
    assert_eq!(pixel(&frame, 480, 60, 60), [0, 0, 0, 128]);
    // Pitch and roll at rest: the middle of the right box.
    assert_eq!(pixel(&frame, 480, 360, 120), [255, 60, 60, 255]);
    // Yaw at rest, throttle down: the bottom of the left box.
    assert_eq!(pixel(&frame, 480, 120, 218), [255, 60, 60, 255]);
    assert_ne!(pixel(&frame, 480, 120, 120), [255, 60, 60, 255]);
}

#[test]
fn the_premultiplied_frame_can_be_had() {
    let style = default_style();
    let mut r = renderer(&style);
    let frame = draw(&mut r, &style, &sample(1500.0));
    let data = r.canvas().data().to_vec();
    assert_eq!(data.len(), frame.len());
    for (straight, pre) in frame.chunks(4).zip(data.chunks(4)) {
        assert_eq!(straight[3], pre[3]);
        for k in 0..3 {
            let (c, a, v) = (pre[k] as i32, pre[3] as i32, straight[k] as i32);
            if a == 0 {
                assert_eq!((c, v), (0, 0));
            } else {
                assert!((2 * a * v - 510 * c).abs() <= a);
            }
        }
    }
}

#[test]
fn without_a_trail_a_frame_does_not_remember() {
    let style = default_style();
    let mut r = renderer(&style);
    let first = draw(&mut r, &style, &sample(1100.0));
    let other = draw(&mut r, &style, &sample(1900.0));
    let again = draw(&mut r, &style, &sample(1100.0));
    assert_ne!(first, other);
    assert_eq!(first, again);
}

#[test]
fn with_a_trail_a_frame_remembers() {
    let mut style = default_style();
    style.trail = true;
    let mut r = renderer(&style);
    let first = draw(&mut r, &style, &sample(1100.0));
    draw(&mut r, &style, &sample(1900.0));
    let again = draw(&mut r, &style, &sample(1100.0));
    assert_ne!(first, again);
}

#[test]
fn the_trail_stays_inside_the_boxes() {
    let mut style = default_style();
    style.trail = true;
    let mut r = renderer(&style);
    let mut plain_style = style;
    plain_style.trail = false;
    let mut plain = renderer(&plain_style);
    // Full left and up, then away: half of the trail would lie outside.
    let corner = Sample { t_us: 0, roll: -500.0, pitch: 500.0, yaw: -500.0, throttle: 2000.0 };
    let rest = Sample { t_us: 0, roll: 0.0, pitch: 0.0, yaw: 0.0, throttle: 1500.0 };
    for _ in 0..5 {
        draw(&mut r, &style, &corner);
    }
    let with = draw(&mut r, &style, &rest);
    let without = draw(&mut plain, &plain_style, &rest);
    assert_ne!(with, without);
    let (left, right, top) = corners(&style);
    for y in 0..240u32 {
        for x in 0..480u32 {
            let inside = |l: f32| {
                let (fx, fy) = (x as f32 + 0.5, y as f32 + 0.5);
                fx > l && fx < l + 200.0 && fy > top && fy < top + 200.0
            };
            if !inside(left) && !inside(right) {
                assert_eq!(pixel(&with, 480, x, y), pixel(&without, 480, x, y), "{x} {y}");
            }
        }
    }
}

#[test]
fn a_span_is_taken_between_the_columns_given() {
    let mut style = default_style();
    style.trail = true;
    let mut r = renderer(&style);
    assert_eq!(r.trail_span(0, 480), 0);
    draw(&mut r, &style, &sample(1500.0));
    assert_eq!(r.trail_span(0, 100), 0);
    assert_eq!(r.trail_span(170, 170), 0);
    assert_eq!(r.trail_span(480, 4000), 0);
    let one = r.trail_span(COL.0, COL.1);
    assert_eq!(one, 17);
    assert_eq!(r.trail_span(0, u32::MAX), one);
}

fn bare_style(width: u32, height: u32) -> Style<f32> {
    let clear = Rgba { r: 0, g: 0, b: 0, a: 0 };
    Style {
        canvas_w: width,
        canvas_h: height,
        col_border: clear,
        col_cross: clear,
        ..default_style()
    }
}

fn bare_shapes(outline: Option<Path>, stroke: f32) -> Shapes {
    Shapes {
        left: BoxShape { outline, cross: None },
        right: BoxShape { outline: None, cross: None },
        canvas: None,
        stroke: Stroke { width: stroke, ..Default::default() },
        trail: Color::WHITE,
        fade: Color::BLACK,
    }
}

fn whole(width: f32, height: f32) -> Option<Path> {
    Some(PathBuilder::from_rect(Rect::from_xywh(0.0, 0.0, width, height).unwrap()))
}

#[test]
fn colors_come_out_straight() {
    let mut style = bare_style(4, 3);
    style.col_fill = Rgba { r: 200, g: 100, b: 50, a: 128 };
    let shapes = bare_shapes(whole(4.0, 3.0), 0.0);
    let mut r = Renderer::new(style, default_norm(), mapping(2).unwrap(), shapes).unwrap();
    let frame = r.render(&None, &None).to_vec();
    assert_eq!(frame.len(), 48);
    for px in frame.chunks(4) {
        assert_eq!(px[3], 128);
        for (got, wanted) in px.iter().zip([200i32, 100, 50]) {
            assert!((*got as i32 - wanted).abs() <= 2);
        }
    }
    style.col_fill = Rgba { r: 200, g: 100, b: 50, a: 255 };
    let shapes = bare_shapes(whole(4.0, 3.0), 0.0);
    let mut r = Renderer::new(style, default_norm(), mapping(2).unwrap(), shapes).unwrap();
    let frame = r.render(&None, &None).to_vec();
    assert!(frame.chunks(4).all(|px| px == [200, 100, 50, 255]));
}

#[test]
fn dots_are_drawn_over_the_boxes() {
    let mut style = bare_style(2, 2);
    style.col_fill = Rgba { r: 0, g: 0, b: 255, a: 255 };
    style.col_dot = Rgba { r: 255, g: 0, b: 0, a: 255 };
    let shapes = bare_shapes(whole(2.0, 2.0), 0.0);
    let mut r = Renderer::new(style, default_norm(), mapping(2).unwrap(), shapes).unwrap();
    let left = whole(1.0, 2.0);
    let frame = r.render(&left, &None).to_vec();
    assert_eq!(pixel(&frame, 2, 0, 0), [255, 0, 0, 255]);
    assert_eq!(pixel(&frame, 2, 1, 0), [0, 0, 255, 255]);
    let frame = r.render(&None, &left).to_vec();
    assert_eq!(pixel(&frame, 2, 0, 1), [255, 0, 0, 255]);
    assert_eq!(pixel(&frame, 2, 1, 1), [0, 0, 255, 255]);
}

#[test]
fn lines_are_drawn_in_their_color() {
    let mut style = bare_style(9, 9);
    style.col_fill = Rgba { r: 0, g: 0, b: 0, a: 0 };
    style.col_border = Rgba { r: 0, g: 255, b: 0, a: 255 };
    let square = Rect::from_xywh(2.0, 2.0, 5.0, 5.0).unwrap();
    let shapes = bare_shapes(Some(PathBuilder::from_rect(square)), 2.0);
    let mut r = Renderer::new(style, default_norm(), mapping(2).unwrap(), shapes).unwrap();
    let frame = r.render(&None, &None).to_vec();
    assert_eq!(pixel(&frame, 9, 2, 4), [0, 255, 0, 255]);
    assert_eq!(pixel(&frame, 9, 4, 1), [0, 255, 0, 255]);
    assert_eq!(pixel(&frame, 9, 4, 4), [0, 0, 0, 0]);
    assert_eq!(pixel(&frame, 9, 0, 0), [0, 0, 0, 0]);
}

#[test]
fn boxes_are_made_of_lines_and_quadratic_curves() {
    let style = default_style();
    assert!(shapes(&style).is_simple());
    assert!(bare_shapes(None, 1.0).is_simple());
    let mut pb = PathBuilder::new();
    pb.move_to(0.0, 0.0);
    pb.cubic_to(1.0, 0.0, 2.0, 1.0, 2.0, 2.0);
    let bent = pb.finish();
    assert!(!bare_shapes(bent.clone(), 1.0).is_simple());
    let mut other = shapes(&style);
    other.right.cross = bent;
    assert!(!other.is_simple());
}

#[test]
fn dots_are_made_of_quadratic_curves() {
    assert!(path_is_simple(&PathBuilder::from_circle(10.0, 20.0, 3.0).unwrap()));
    let mut pb = PathBuilder::new();
    pb.move_to(0.0, 0.0);
    pb.quad_to(1.0, 0.0, 1.0, 1.0);
    pb.cubic_to(1.0, 0.0, 2.0, 1.0, 2.0, 2.0);
    assert!(!path_is_simple(&pb.finish().unwrap()));
}

fn just_below(limit: f32) -> f32 {
    f32::from_bits(limit.to_bits() - 1)
}

fn ends(x: f32, y: f32) -> Path {
    let mut pb = PathBuilder::new();
    pb.move_to(0.0, -1.0);
    pb.line_to(x, y);
    pb.finish().unwrap()
}

#[test]
fn coordinates_are_below_two_to_the_power_of_27() {
    let style = default_style();
    assert!(shapes(&style).is_small());
    assert!(bare_shapes(None, 1.0).is_small());
    let limit = (1u32 << 27) as f32;
    let below = just_below(limit);
    for (x, y) in [(below, 0.0), (-below, below), (3.0, -below)] {
        assert!(path_is_small(&ends(x, y)));
        assert!(dot_is_fillable(&Some(ends(x, y))));
    }
    for (x, y) in [(limit, 0.0), (0.0, limit), (-limit, 0.0), (0.0, -1073741696.0), (0.0, 1e30)] {
        assert!(!path_is_small(&ends(x, y)));
        assert!(!dot_is_fillable(&Some(ends(x, y))));
        assert!(!bare_shapes(Some(ends(x, y)), 1.0).is_small());
        let mut other = shapes(&style);
        other.right.cross = Some(ends(x, y));
        assert!(!other.is_small());
    }
    let mut pb = PathBuilder::new();
    pb.move_to(0.0, 0.0);
    pb.quad_to(limit, 1.0, 2.0, 2.0);
    assert!(!path_is_small(&pb.finish().unwrap()));
}

#[test]
fn dots_are_drawn_where_they_can_be() {
    assert!(dot_is_fillable(&None));
    assert!(dot_is_fillable(&PathBuilder::from_circle(10.0, 20.0, 3.0)));
    let mut pb = PathBuilder::new();
    pb.move_to(0.0, 0.0);
    pb.cubic_to(1.0, 0.0, 2.0, 1.0, 2.0, 2.0);
    assert!(!dot_is_fillable(&pb.finish()));
    // As far out as can be drawn: the part on the canvas is.
    let mut style = bare_style(4, 3);
    style.col_dot = Rgba { r: 1, g: 2, b: 3, a: 255 };
    let shapes = bare_shapes(None, 0.0);
    let mut r = Renderer::new(style, default_norm(), mapping(2).unwrap(), shapes).unwrap();
    let far = just_below((1u32 << 27) as f32);
    let tall = Rect::from_ltrb(1.0, -far, 3.0, far).map(PathBuilder::from_rect);
    assert!(dot_is_fillable(&tall));
    let frame = r.render(&tall, &None).to_vec();
    assert_eq!(pixel(&frame, 4, 0, 1), [0, 0, 0, 0]);
    assert_eq!(pixel(&frame, 4, 1, 1), [1, 2, 3, 255]);
    assert_eq!(pixel(&frame, 4, 2, 2), [1, 2, 3, 255]);
    assert_eq!(pixel(&frame, 4, 3, 0), [0, 0, 0, 0]);
}

#[test]
fn lines_are_narrower_than_two_to_the_power_of_25() {
    let limit = (1u32 << 25) as f32;
    for width in [0.0, -0.0, 3.0, just_below(limit), -1.0, -1e30, f32::NAN, f32::NEG_INFINITY] {
        assert!(bare_shapes(None, width).lines_fit(), "{width}");
    }
    for width in [limit, 1e30, f32::INFINITY] {
        assert!(!bare_shapes(None, width).lines_fit(), "{width}");
    }
}

#[test]
fn canvas_edges_are_below_two_to_the_power_of_28() {
    let limit = (1u32 << 28) as f32;
    let below = just_below(limit);
    let canvas = |l: f32, t: f32, r: f32, b: f32| {
        let mut shapes = bare_shapes(None, 1.0);
        shapes.canvas = Some(Rect::from_ltrb(l, t, r, b).unwrap());
        shapes.canvas_is_small()
    };
    assert!(bare_shapes(None, 1.0).canvas_is_small());
    assert!(canvas(0.0, 0.0, 480.0, 240.0));
    assert!(canvas(-below, -below, below, below));
    assert!(!canvas(-limit, 0.0, 1.0, 1.0));
    assert!(!canvas(0.0, -limit, 1.0, 1.0));
    assert!(!canvas(0.0, 0.0, limit, 1.0));
    assert!(!canvas(0.0, 0.0, 1.0, limit));
}

#[test]
fn the_background_is_transparent_on_a_canvas_of_two_tiles() {
    for (line_width, radius, trail) in [(3.0, 12.0, true), (0.0, 7.0, false), (1.3, 40.0, true)] {
        let (size, top) = (120.7, 31.3);
        let (left, right) = (8130.4, 8700.1);
        let mut style = default_style();
        style.canvas_w = 9000;
        style.canvas_h = 200;
        style.trail = trail;
        let mut shapes = shapes(&style);
        shapes.left = BoxShape { outline: rounded(left, top, size, radius), cross: cross(left, top, size) };
        shapes.right = BoxShape { outline: rounded(right, top, size, radius), cross: None };
        shapes.canvas = Rect::from_xywh(0.0, 0.0, 9000.0, 200.0);
        shapes.stroke = Stroke { width: line_width, ..Default::default() };
        let mut r = Renderer::new(style, default_norm(), mapping(2).unwrap(), shapes).unwrap();
        // The first dot lies on the seam between the tiles, half out of its box.
        let (x, y, d) = (8191.3, top + size, 9.0);
        let dot = PathBuilder::from_circle(x, y, d);
        r.render(&dot, &None);
        let frame = r.render(&dot, &PathBuilder::from_circle(right + 5.0, top + 5.0, 3.0)).to_vec();
        let off = |px: u32, py: u32, l: f32, t: f32, w: f32, h: f32, margin: f32| {
            let (px, py) = (px as f32, py as f32);
            px + 1.0 + margin <= l
                || l + w + margin <= px
                || py + 1.0 + margin <= t
                || t + h + margin <= py
        };
        let mut background = 0;
        for py in 0..200 {
            for px in 0..9000 {
                if off(px, py, left, top, size, size, line_width + 2.0)
                    && off(px, py, right, top, size, size, line_width + 2.0)
                    && off(px, py, x - d, y - d, 2.0 * d, 2.0 * d, 1.0)
                {
                    background += 1;
                    assert_eq!(pixel(&frame, 9000, px, py), [0, 0, 0, 0], "{px} {py}");
                }
            }
        }
        assert!(background > 1_000_000, "{background}");
        // Both tiles are drawn on.
        assert_eq!(pixel(&frame, 9000, 8188, top as u32 + size as u32 - 3)[3], 255);
        assert_eq!(pixel(&frame, 9000, 8194, top as u32 + size as u32 - 3)[3], 255);
        assert_ne!(pixel(&frame, 9000, 8600 + 150, 90), [0, 0, 0, 0]);
    }
}

#[test]
fn the_background_is_transparent() {
    for (line_width, corner_radius, size, trail) in [
        (3.0, 12.0, 200.0, false),
        (3.0, 12.0, 200.0, true),
        (0.0, 30.0, 200.0, false),
        (0.7, 0.2, 160.0, false),
        (1.0, 100.0, 200.0, true),
        (1.3, 80.0, 160.0, false),
        (9.0, 4.0, 150.5, true),
        (14.25, 60.0, 120.3, false),
    ] {
        let mut style = default_style();
        style.line_width = line_width;
        style.corner_radius = corner_radius;
        style.box_size = size;
        style.trail = trail;
        style.col_border = Rgba { r: 255, g: 255, b: 255, a: 255 };
        let (left, right, top) = corners(&style);
        let mut r = renderer(&style);
        let s = Sample { t_us: 0, roll: -500.0, pitch: 500.0, yaw: 500.0, throttle: 1000.0 };
        draw(&mut r, &style, &sample(1500.0));
        let frame = draw(&mut r, &style, &s);
        // Beyond one of the sides of a rectangle by a margin.
        let off = |x: u32, y: u32, l: f32, t: f32, w: f32, h: f32, margin: f32| {
            let (x, y) = (x as f32, y as f32);
            x + 1.0 + margin <= l
                || l + w + margin <= x
                || y + 1.0 + margin <= t
                || t + h + margin <= y
        };
        let d = style.dot_radius;
        let mut background = 0;
        for y in 0..style.canvas_h {
            for x in 0..style.canvas_w {
                let reach = line_width + 1.0;
                if off(x, y, left, top, size, size, reach)
                    && off(x, y, right, top, size, size, reach)
                    && off(x, y, left + size - d, top + size - d, 2.0 * d, 2.0 * d, 0.0)
                    && off(x, y, right - d, top - d, 2.0 * d, 2.0 * d, 0.0)
                {
                    background += 1;
                    assert_eq!(pixel(&frame, style.canvas_w, x, y), [0, 0, 0, 0], "{x} {y}");
                }
            }
        }
        assert!(background > 10_000, "{background}");
    }
}

#[test]
fn a_stroke_without_a_width_draws_nothing() {
    let mut style = bare_style(9, 9);
    style.col_fill = Rgba { r: 0, g: 0, b: 0, a: 0 };
    style.col_border = Rgba { r: 0, g: 255, b: 0, a: 255 };
    let square = Rect::from_xywh(2.0, 2.0, 5.0, 5.0).unwrap();
    for width in [f32::NAN, -f32::NAN, -1.0] {
        let shapes = bare_shapes(Some(PathBuilder::from_rect(square)), width);
        let mut r = Renderer::new(style, default_norm(), mapping(2).unwrap(), shapes).unwrap();
        assert!(r.render(&None, &None).iter().all(|byte| *byte == 0));
    }
}

#[test]
fn the_trail_fades_by_the_alpha_of_its_color() {
    let mut style = bare_style(2, 1);
    style.col_fill = Rgba { r: 0, g: 0, b: 0, a: 0 };
    style.trail = true;
    let mut shapes = bare_shapes(whole(2.0, 1.0), 0.0);
    shapes.canvas = Rect::from_xywh(0.0, 0.0, 2.0, 1.0);
    shapes.fade = Color::from_rgba8(0, 0, 0, 128);
    let mut r = Renderer::new(style, default_norm(), mapping(2).unwrap(), shapes).unwrap();
    let dot = whole(1.0, 1.0);
    r.render(&dot, &None);
    let frame = r.render(&None, &None).to_vec();
    let alpha = pixel(&frame, 2, 0, 0)[3];
    assert!((127..=129).contains(&alpha), "{alpha}");
    assert_eq!(pixel(&frame, 2, 1, 0), [0, 0, 0, 0]);
    let frame = r.render(&None, &None).to_vec();
    let alpha = pixel(&frame, 2, 0, 0)[3];
    assert!((63..=65).contains(&alpha), "{alpha}");
}

#[test]
fn a_canvas_needs_two_sides_and_rows_that_fit() {
    for (w, h) in [(0, 5), (5, 0), (0, 0), (536870912, 1), (u32::MAX, 1)] {
        for trail in [false, true] {
            let mut style = bare_style(w, h);
            style.trail = trail;
            let shapes = bare_shapes(None, 0.0);
            let made = Renderer::new(style, default_norm(), mapping(2).unwrap(), shapes);
            assert_eq!(made.err().unwrap().message(), "invalid canvas size");
            assert!(!size_fits(w, h));
        }
    }
    let shapes = bare_shapes(None, 0.0);
    let made = Renderer::new(bare_style(1, 1), default_norm(), mapping(2).unwrap(), shapes);
    assert!(made.is_ok());
    assert!(size_fits(1, 1));
    assert!(size_fits(536870911, 1));
}

#[test]
fn each_box_has_its_own_axes() {
    let style = default_style();
    let s = Sample { t_us: 0, roll: 1.0, pitch: 2.0, yaw: 3.0, throttle: 4.0 };
    let value = |b: Bipolar<f32>| match b {
        Bipolar::Centered { value, .. } => value,
        Bipolar::Ranged { value, .. } => value,
    };
    let wanted = [
        ((3.0, 2.0), (1.0, 4.0)),
        ((3.0, 4.0), (1.0, 2.0)),
        ((1.0, 2.0), (3.0, 4.0)),
        ((1.0, 4.0), (3.0, 2.0)),
    ];
    for mode in 1..=4u8 {
        let r = Renderer::new(style, default_norm(), mapping(mode).unwrap(), shapes(&style)).unwrap();
        let (left, right) = r.dot_axes(&s);
        let got = ((value(left.0), value(left.1)), (value(right.0), value(right.1)));
        assert_eq!(got, wanted[mode as usize - 1]);
    }
}

#[test]
fn straight_channels_are_nearest() {
    for alpha in 0..=255u32 {
        for channel in 0..=alpha {
            let px = tiny_skia::PremultipliedColorU8::from_rgba(channel as u8, 0, 0, alpha as u8).unwrap();
            let v = px.demultiply().red() as i32;
            if alpha == 0 {
                assert_eq!(v, 0);
            } else {
                let (c, a) = (channel as i32, alpha as i32);
                assert!((2 * a * v - 510 * c).abs() <= a);
            }
            assert_eq!(px.demultiply().alpha() as u32, alpha);
        }
    }
}
