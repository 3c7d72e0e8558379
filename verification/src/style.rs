//! How the overlay looks.

use crate::color::Rgba;
use vstd::prelude::*;

verus! {

/// How the overlay looks, and the canvas it is drawn on. Lengths are in pixels.
#[derive(Clone, Copy, PartialEq, Eq, Debug)]
pub struct Style<F> {
    pub canvas_w: u32,
    pub canvas_h: u32,
    pub box_size: F,
    pub gap: F,
    pub pad: F,
    pub line_width: F,
    pub dot_radius: F,
    pub corner_radius: F,
    pub col_border: Rgba,
    pub col_cross: Rgba,
    pub col_dot: Rgba,
    pub col_fill: Rgba,
    pub col_trail: Rgba,
    /// Whether the dots leave a trail that fades away.
    pub trail: bool,
    /// What is left of the trail's opacity after each frame.
    pub trail_decay: F,
    /// The opacity of the trail where a dot has just been.
    pub trail_alpha: F,
}

/// The default look in whole numbers: lengths in pixels, and what is left of the
/// trail and its opacity in hundredths.
impl Default for Style<u32> {
    fn default() -> (res: Self)
        ensures
            res == (Style {
                canvas_w: 480,
                canvas_h: 240,
                box_size: 200u32,
                gap: 40u32,
                pad: 20u32,
                line_width: 3u32,
                dot_radius: 9u32,
                corner_radius: 14u32,
                col_border: Rgba { r: 255, g: 255, b: 255, a: 200 },
                col_cross: Rgba { r: 255, g: 255, b: 255, a: 90 },
                col_dot: Rgba { r: 255, g: 60, b: 60, a: 255 },
                col_fill: Rgba { r: 0, g: 0, b: 0, a: 128 },
                col_trail: Rgba { r: 255, g: 255, b: 255, a: 255 },
                trail: false,
                trail_decay: 88u32,
                trail_alpha: 50u32,
            }),
            res.canvas_w == 2 * res.pad + 2 * res.box_size + res.gap,
            res.canvas_h == 2 * res.pad + res.box_size,
    {
        let box_size: u32 = 200;
        let gap: u32 = 40;
        let pad: u32 = 20;
        Style {
            canvas_w: pad * 2 + box_size * 2 + gap,
            canvas_h: pad * 2 + box_size,
            box_size,
            gap,
            pad,
            line_width: 3,
            dot_radius: 9,
            corner_radius: 14,
            col_border: Rgba { r: 255, g: 255, b: 255, a: 200 },
            col_cross: Rgba { r: 255, g: 255, b: 255, a: 90 },
            col_dot: Rgba { r: 255, g: 60, b: 60, a: 255 },
            col_fill: Rgba { r: 0, g: 0, b: 0, a: 128 },
            col_trail: Rgba { r: 255, g: 255, b: 255, a: 255 },
            trail: false,
            trail_decay: 88,
            trail_alpha: 50,
        }
    }
}

} // verus!
