//! The options that change how the overlay looks.

use crate::color::color_value;
use crate::color::parse_color;
use crate::color::ColorError;
use crate::color::ColorFault;
use crate::color::Rgba;
use crate::encode::size_text;
use crate::sticks::Norm;
use crate::style::Style;
use crate::text::chars_of;
use crate::text::decimal;
use crate::text::integer_value;
use crate::text::is_white_space;
use crate::text::law_decimal_reads_back;
use crate::text::lemma_decimal_digits;
use crate::text::parse_u32;
use crate::text::trim;
use crate::text::trimmed;
use crate::text::IntError;
use vstd::prelude::*;

verus! {

/// A text that is not a canvas size.
#[derive(Clone, Copy, PartialEq, Eq, Debug, Structural)]
pub enum SizeError {
    /// There is no `x` between width and height.
    NoCross,
    /// The width is not a number.
    Width(IntError),
    /// The height is not a number.
    Height(IntError),
}

impl SizeError {
    /// What to tell the user.
    pub open spec fn describes(self) -> Seq<char> {
        match self {
            SizeError::NoCross => "--size must be WxH, e.g. 880x480"@,
            SizeError::Width(e) => e.describes(),
            SizeError::Height(e) => e.describes(),
        }
    }

    /// What to tell the user.
    pub fn message(&self) -> (res: String)
        ensures
            res@ == self.describes(),
            self is NoCross ==> res@ == "--size must be WxH, e.g. 880x480"@,
            self matches SizeError::Width(e) ==> res@ == e.describes(),
            self matches SizeError::Height(e) ==> res@ == e.describes(),
    {
        match self {
            SizeError::NoCross => "--size must be WxH, e.g. 880x480".to_string(),
            SizeError::Width(e) => e.message(),
            SizeError::Height(e) => e.message(),
        }
    }
}

/// Whether `c` stands between width and height.
pub open spec fn is_cross(c: char) -> bool {
    c == 'x' || c == 'X'
}

/// Where the first `x` of `text` from `from` on stands, or where `text` ends.
pub open spec fn cross_at(text: Seq<char>, from: int) -> int
    decreases text.len() - from,
{
    if 0 <= from < text.len() && !is_cross(text[from]) {
        cross_at(text, from + 1)
    } else {
        from
    }
}

/// The width and the height that `text` stands for.
pub open spec fn size_value(text: Seq<char>) -> Result<(int, int), SizeError> {
    let at = cross_at(text, 0);
    if at >= text.len() {
        Err(SizeError::NoCross)
    } else {
        match integer_value(trimmed(text.take(at)), 10) {
            Err(e) => Err(SizeError::Width(e)),
            Ok(w) => match integer_value(trimmed(text.skip(at + 1)), 10) {
                Err(e) => Err(SizeError::Height(e)),
                Ok(h) => Ok((w, h)),
            },
        }
    }
}

/// Reads a canvas size such as `880x480`.
pub fn parse_size(s: &str) -> (res: Result<(u32, u32), SizeError>)
    ensures
        res is Ok <==> size_value(s@) is Ok,
        res matches Ok(size) ==> size_value(s@) == Ok::<(int, int), SizeError>(
            (size.0 as int, size.1 as int),
        ),
        res matches Err(e) ==> size_value(s@) == Err::<(int, int), SizeError>(e),
{
    let chars = chars_of(s);
    let all: &[char] = chars.as_slice();
    let n: usize = all.len();
    let mut at: usize = 0;
    while at < n && !(all[at] == 'x' || all[at] == 'X')
        invariant
            at <= n == all@.len(),
            cross_at(all@, 0) == cross_at(all@, at as int),
        decreases n - at,
    {
        at += 1;
    }
    if at >= n {
        return Err(SizeError::NoCross);
    }
    let left = vstd::slice::slice_subrange(all, 0, at);
    let right = vstd::slice::slice_subrange(all, at + 1, n);
    assert(left@ =~= s@.take(at as int));
    assert(right@ =~= s@.skip(at + 1));
    match parse_u32(trim(left), 10) {
        Err(e) => Err(SizeError::Width(e)),
        Ok(w) => match parse_u32(trim(right), 10) {
            Err(e) => Err(SizeError::Height(e)),
            Ok(h) => Ok((w, h)),
        },
    }
}

proof fn lemma_cross_behind_digits(text: Seq<char>, from: int, at: int)
    requires
        0 <= from <= at < text.len(),
        is_cross(text[at]),
        forall|i: int| from <= i < at ==> !is_cross(#[trigger] text[i]),
    ensures
        cross_at(text, from) == at,
    decreases at - from,
{
    if from < at {
        lemma_cross_behind_digits(text, from + 1, at);
    }
}

/// A size is a width, an `x` in upper or lower case, and a height: the first `x` parts them,
/// and white space around each is left out. The width is looked at first. Without an `x`
/// there is no size.
pub proof fn law_a_size_is_two_numbers(left: Seq<char>, cross: char, right: Seq<char>)
    requires
        cross == 'x' || cross == 'X',
        forall|i: int| 0 <= i < left.len() ==> #[trigger] left[i] != 'x' && left[i] != 'X',
    ensures
        size_value(left) == Err::<(int, int), SizeError>(SizeError::NoCross),
        match (integer_value(trimmed(left), 10), integer_value(trimmed(right), 10)) {
            (Ok(w), Ok(h)) => size_value(left + seq![cross] + right) == Ok::<(int, int), SizeError>(
                (w, h),
            ),
            (Err(e), _) => size_value(left + seq![cross] + right) == Err::<(int, int), SizeError>(
                SizeError::Width(e),
            ),
            (Ok(_), Err(e)) => size_value(left + seq![cross] + right) == Err::<
                (int, int),
                SizeError,
            >(SizeError::Height(e)),
        },
{
    let text = left + seq![cross] + right;
    assert forall|i: int| 0 <= i < left.len() implies !is_cross(#[trigger] text[i]) by {
        assert(text[i] == left[i]);
    }
    assert(is_cross(text[left.len() as int]));
    lemma_cross_behind_digits(text, 0, left.len() as int);
    assert(text.take(left.len() as int) =~= left);
    assert(text.skip(left.len() as int + 1) =~= right);
    lemma_no_cross(left, 0);
}

proof fn lemma_no_cross(text: Seq<char>, from: int)
    requires
        0 <= from <= text.len(),
        forall|i: int| 0 <= i < text.len() ==> #[trigger] text[i] != 'x' && text[i] != 'X',
    ensures
        cross_at(text, from) == text.len(),
    decreases text.len() - from,
{
    if from < text.len() {
        lemma_no_cross(text, from + 1);
    }
}

/// Every size, written as the encoder reads it, is read back as that size.
pub proof fn law_size_reads_back(w: u32, h: u32)
    ensures
        size_value(size_text(w, h)) == Ok::<(int, int), SizeError>((w as int, h as int)),
{
    let text = size_text(w, h);
    let left = decimal(w as nat);
    let right = decimal(h as nat);
    lemma_decimal_digits(w as nat);
    lemma_decimal_digits(h as nat);
    assert forall|i: int| 0 <= i < left.len() implies !is_cross(#[trigger] text[i]) by {
        assert(text[i] == left[i]);
    }
    lemma_cross_behind_digits(text, 0, left.len() as int);
    assert(text.take(left.len() as int) =~= left);
    assert(text.skip(left.len() as int + 1) =~= right);
    assert(!is_white_space(left.first()) && !is_white_space(left.last()));
    assert(!is_white_space(right.first()) && !is_white_space(right.last()));
    law_decimal_reads_back(w);
    law_decimal_reads_back(h);
}

/// Lengths that replace those of a style.
#[derive(Clone, Copy, PartialEq, Eq, Debug)]
pub struct Geometry<F> {
    pub box_size: Option<F>,
    pub gap: Option<F>,
    pub padding: Option<F>,
    pub dot_radius: Option<F>,
    pub line_width: Option<F>,
    pub corner_radius: Option<F>,
}

/// What an option gives, or else the value before.
pub open spec fn given<F>(option: Option<F>, before: F) -> F {
    match option {
        Some(value) => value,
        None => before,
    }
}

/// A style with the lengths that `geometry` gives.
pub open spec fn with_geometry<F>(style: Style<F>, geometry: Geometry<F>) -> Style<F> {
    Style {
        box_size: given(geometry.box_size, style.box_size),
        gap: given(geometry.gap, style.gap),
        pad: given(geometry.padding, style.pad),
        dot_radius: given(geometry.dot_radius, style.dot_radius),
        line_width: given(geometry.line_width, style.line_width),
        corner_radius: given(geometry.corner_radius, style.corner_radius),
        ..style
    }
}

/// Puts the lengths that `geometry` gives in place of those of `style`.
pub fn override_geometry<F: Copy>(style: Style<F>, geometry: Geometry<F>) -> (res: Style<F>)
    ensures
        res == with_geometry(style, geometry),
        geometry.box_size matches Some(v) ==> res.box_size == v,
        geometry.box_size is None ==> res.box_size == style.box_size,
        geometry.gap matches Some(v) ==> res.gap == v,
        geometry.gap is None ==> res.gap == style.gap,
        geometry.padding matches Some(v) ==> res.pad == v,
        geometry.padding is None ==> res.pad == style.pad,
        geometry.dot_radius matches Some(v) ==> res.dot_radius == v,
        geometry.dot_radius is None ==> res.dot_radius == style.dot_radius,
        geometry.line_width matches Some(v) ==> res.line_width == v,
        geometry.line_width is None ==> res.line_width == style.line_width,
        geometry.corner_radius matches Some(v) ==> res.corner_radius == v,
        geometry.corner_radius is None ==> res.corner_radius == style.corner_radius,
        res.canvas_w == style.canvas_w,
        res.canvas_h == style.canvas_h,
        res.col_border == style.col_border,
        res.col_cross == style.col_cross,
        res.col_dot == style.col_dot,
        res.col_fill == style.col_fill,
        res.col_trail == style.col_trail,
        res.trail == style.trail,
        res.trail_decay == style.trail_decay,
        res.trail_alpha == style.trail_alpha,
{
    let mut res = style;
    if let Some(b) = geometry.box_size {
        res.box_size = b;
    }
    if let Some(g) = geometry.gap {
        res.gap = g;
    }
    if let Some(p) = geometry.padding {
        res.pad = p;
    }
    if let Some(r) = geometry.dot_radius {
        res.dot_radius = r;
    }
    if let Some(w) = geometry.line_width {
        res.line_width = w;
    }
    if let Some(r) = geometry.corner_radius {
        res.corner_radius = r;
    }
    res
}

/// The canvas, the colors and the trail, as given on the command line.
#[derive(Debug)]
pub struct Look {
    pub size: Option<String>,
    pub color_border: Option<String>,
    pub color_cross: Option<String>,
    pub color_dot: Option<String>,
    pub color_fill: Option<String>,
    pub trail_color: Option<String>,
    pub trail: bool,
}

/// An option whose value cannot be used.
#[derive(Debug)]
pub enum LookError {
    Size(SizeError),
    Color(ColorError),
}

impl LookError {
    /// What to tell the user.
    pub open spec fn describes(self) -> Seq<char> {
        match self {
            LookError::Size(e) => e.describes(),
            LookError::Color(e) => e.describes(),
        }
    }

    /// What to tell the user.
    pub fn message(&self) -> (res: String)
        ensures
            res@ == self.describes(),
            self matches LookError::Size(e) ==> res@ == e.describes(),
            self matches LookError::Color(e) ==> res@ == e.describes(),
    {
        match self {
            LookError::Size(e) => e.message(),
            LookError::Color(e) => e.message(),
        }
    }
}

/// Whether an option holds no text or a color.
pub open spec fn color_fits(option: Option<String>) -> bool {
    option matches Some(text) ==> color_value(text@) is Ok
}

/// Whether an option holds no text or a size.
pub open spec fn size_fits(option: Option<String>) -> bool {
    option matches Some(text) ==> size_value(text@) is Ok
}

/// The color that an option gives, or else the one before.
pub open spec fn color_given(option: Option<String>, before: Rgba) -> Rgba {
    match option {
        Some(text) => match color_value(text@) {
            Ok(color) => color,
            Err(_) => before,
        },
        None => before,
    }
}

/// The size that an option gives, or else the one before.
pub open spec fn size_given(option: Option<String>, before: (u32, u32)) -> (u32, u32) {
    match option {
        Some(text) => match size_value(text@) {
            Ok(size) => (size.0 as u32, size.1 as u32),
            Err(_) => before,
        },
        None => before,
    }
}

/// Whether every option of `look` can be used.
pub open spec fn look_fits(look: Look) -> bool {
    &&& size_fits(look.size)
    &&& color_fits(look.color_border)
    &&& color_fits(look.color_cross)
    &&& color_fits(look.color_dot)
    &&& color_fits(look.color_fill)
    &&& color_fits(look.trail_color)
}

/// A style with the canvas, the colors and the trail that `look` gives.
pub open spec fn with_look<F>(style: Style<F>, look: Look) -> Style<F> {
    let size = size_given(look.size, (style.canvas_w, style.canvas_h));
    Style {
        canvas_w: size.0,
        canvas_h: size.1,
        col_border: color_given(look.color_border, style.col_border),
        col_cross: color_given(look.color_cross, style.col_cross),
        col_dot: color_given(look.color_dot, style.col_dot),
        col_fill: color_given(look.color_fill, style.col_fill),
        col_trail: color_given(look.trail_color, style.col_trail),
        trail: look.trail,
        ..style
    }
}

/// Whether `e` says what is wrong with the color in `option`.
pub open spec fn blames_color(e: LookError, option: Option<String>) -> bool {
    &&& !color_fits(option)
    &&& e matches LookError::Color(c) && c.text@ == option->0@ && color_value(option->0@) == Err::<
        Rgba,
        ColorFault,
    >(c.fault)
}

/// Whether `e` says what is wrong with the first option of `look` that cannot be
/// used: the size first, then the colors of border, cross, dot, fill and trail.
pub open spec fn blames_first(e: LookError, look: Look) -> bool {
    if !size_fits(look.size) {
        e matches LookError::Size(s) && size_value(look.size->0@) == Err::<(int, int), SizeError>(s)
    } else if !color_fits(look.color_border) {
        blames_color(e, look.color_border)
    } else if !color_fits(look.color_cross) {
        blames_color(e, look.color_cross)
    } else if !color_fits(look.color_dot) {
        blames_color(e, look.color_dot)
    } else if !color_fits(look.color_fill) {
        blames_color(e, look.color_fill)
    } else {
        blames_color(e, look.trail_color)
    }
}

/// The color that `option` gives, or else `before`.
fn color_or(option: &Option<String>, before: Rgba) -> (res: Result<Rgba, LookError>)
    ensures
        res is Ok <==> color_fits(*option),
        res matches Ok(color) ==> color == color_given(*option, before),
        res matches Err(e) ==> blames_color(e, *option),
{
    match option {
        None => Ok(before),
        Some(text) => match parse_color(text.as_str()) {
            Ok(color) => Ok(color),
            Err(e) => Err(LookError::Color(e)),
        },
    }
}

/// Puts the canvas, the colors and the trail that `look` gives in place of those
/// of `base`.
pub fn build_style<F: Copy>(base: Style<F>, look: &Look) -> (res: Result<Style<F>, LookError>)
    ensures
        res is Ok <==> look_fits(*look),
        res matches Ok(style) ==> style == with_look(base, *look),
        res matches Err(e) ==> blames_first(e, *look),
        res matches Ok(style) ==> {
            &&& look.size matches Some(text) ==> size_value(text@) == Ok::<(int, int), SizeError>(
                (style.canvas_w as int, style.canvas_h as int),
            )
            &&& look.size is None ==> style.canvas_w == base.canvas_w && style.canvas_h
                == base.canvas_h
            &&& look.color_border matches Some(text) ==> color_value(text@) == Ok::<Rgba, ColorFault>(
                style.col_border,
            )
            &&& look.color_border is None ==> style.col_border == base.col_border
            &&& look.color_cross matches Some(text) ==> color_value(text@) == Ok::<Rgba, ColorFault>(
                style.col_cross,
            )
            &&& look.color_cross is None ==> style.col_cross == base.col_cross
            &&& look.color_dot matches Some(text) ==> color_value(text@) == Ok::<Rgba, ColorFault>(
                style.col_dot,
            )
            &&& look.color_dot is None ==> style.col_dot == base.col_dot
            &&& look.color_fill matches Some(text) ==> color_value(text@) == Ok::<Rgba, ColorFault>(
                style.col_fill,
            )
            &&& look.color_fill is None ==> style.col_fill == base.col_fill
            &&& look.trail_color matches Some(text) ==> color_value(text@) == Ok::<Rgba, ColorFault>(
                style.col_trail,
            )
            &&& look.trail_color is None ==> style.col_trail == base.col_trail
            &&& style.trail == look.trail
            &&& style.box_size == base.box_size
            &&& style.gap == base.gap
            &&& style.pad == base.pad
            &&& style.line_width == base.line_width
            &&& style.dot_radius == base.dot_radius
            &&& style.corner_radius == base.corner_radius
            &&& style.trail_decay == base.trail_decay
            &&& style.trail_alpha == base.trail_alpha
        },
        res matches Err(LookError::Size(e)) ==> (look.size matches Some(text) && size_value(text@)
            == Err::<(int, int), SizeError>(e)),
        (look.size matches Some(text) && size_value(text@) is Err) ==> (res matches Err(
            LookError::Size(_),
        )),
        !(look.size matches Some(t) && size_value(t@) is Err)
            && (look.color_border matches Some(t) && color_value(t@) is Err)
            ==> (res matches Err(LookError::Color(e)) && e.text@ == look.color_border->0@
            && color_value(e.text@) == Err::<Rgba, ColorFault>(e.fault)),
        !(look.size matches Some(t) && size_value(t@) is Err)
            && !(look.color_border matches Some(t) && color_value(t@) is Err)
            && (look.color_cross matches Some(t) && color_value(t@) is Err)
            ==> (res matches Err(LookError::Color(e)) && e.text@ == look.color_cross->0@
            && color_value(e.text@) == Err::<Rgba, ColorFault>(e.fault)),
        !(look.size matches Some(t) && size_value(t@) is Err)
            && !(look.color_border matches Some(t) && color_value(t@) is Err)
            && !(look.color_cross matches Some(t) && color_value(t@) is Err)
            && (look.color_dot matches Some(t) && color_value(t@) is Err)
            ==> (res matches Err(LookError::Color(e)) && e.text@ == look.color_dot->0@
            && color_value(e.text@) == Err::<Rgba, ColorFault>(e.fault)),
        !(look.size matches Some(t) && size_value(t@) is Err)
            && !(look.color_border matches Some(t) && color_value(t@) is Err)
            && !(look.color_cross matches Some(t) && color_value(t@) is Err)
            && !(look.color_dot matches Some(t) && color_value(t@) is Err)
            && (look.color_fill matches Some(t) && color_value(t@) is Err)
            ==> (res matches Err(LookError::Color(e)) && e.text@ == look.color_fill->0@
            && color_value(e.text@) == Err::<Rgba, ColorFault>(e.fault)),
        !(look.size matches Some(t) && size_value(t@) is Err)
            && !(look.color_border matches Some(t) && color_value(t@) is Err)
            && !(look.color_cross matches Some(t) && color_value(t@) is Err)
            && !(look.color_dot matches Some(t) && color_value(t@) is Err)
            && !(look.color_fill matches Some(t) && color_value(t@) is Err)
            && (look.trail_color matches Some(t) && color_value(t@) is Err)
            ==> (res matches Err(LookError::Color(e)) && e.text@ == look.trail_color->0@
            && color_value(e.text@) == Err::<Rgba, ColorFault>(e.fault)),
        !(look.size matches Some(t) && size_value(t@) is Err)
            && !(look.color_border matches Some(t) && color_value(t@) is Err)
            && !(look.color_cross matches Some(t) && color_value(t@) is Err)
            && !(look.color_dot matches Some(t) && color_value(t@) is Err)
            && !(look.color_fill matches Some(t) && color_value(t@) is Err)
            && !(look.trail_color matches Some(t) && color_value(t@) is Err) ==> res is Ok,
{
    let mut style = base;
    if let Some(size) = &look.size {
        match parse_size(size.as_str()) {
            Err(e) => return Err(LookError::Size(e)),
            Ok((w, h)) => {
                style.canvas_w = w;
                style.canvas_h = h;
            },
        }
    }
    match color_or(&look.color_border, style.col_border) {
        Err(e) => return Err(e),
        Ok(c) => style.col_border = c,
    }
    match color_or(&look.color_cross, style.col_cross) {
        Err(e) => return Err(e),
        Ok(c) => style.col_cross = c,
    }
    match color_or(&look.color_dot, style.col_dot) {
        Err(e) => return Err(e),
        Ok(c) => style.col_dot = c,
    }
    match color_or(&look.color_fill, style.col_fill) {
        Err(e) => return Err(e),
        Ok(c) => style.col_fill = c,
    }
    match color_or(&look.trail_color, style.col_trail) {
        Err(e) => return Err(e),
        Ok(c) => style.col_trail = c,
    }
    style.trail = look.trail;
    Ok(style)
}

/// Which axes are turned round.
#[derive(Clone, Copy, PartialEq, Eq, Debug, Structural)]
pub struct Inverted {
    pub roll: bool,
    pub pitch: bool,
    pub yaw: bool,
    pub throttle: bool,
}

/// The ranges and the turned axes, as given on the command line.
pub fn build_norm<F: Copy>(rp_range: F, throttle_min: F, throttle_max: F, inverted: Inverted) -> (res:
    Norm<F>)
    ensures
        res == (Norm {
            rp_half: rp_range,
            thr_min: throttle_min,
            thr_max: throttle_max,
            inv_roll: inverted.roll,
            inv_pitch: inverted.pitch,
            inv_yaw: inverted.yaw,
            inv_throttle: inverted.throttle,
        }),
{
    Norm {
        rp_half: rp_range,
        thr_min: throttle_min,
        thr_max: throttle_max,
        inv_roll: inverted.roll,
        inv_pitch: inverted.pitch,
        inv_yaw: inverted.yaw,
        inv_throttle: inverted.throttle,
    }
}

} // verus!
