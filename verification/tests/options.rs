use stickoverlay::color::parse_color;
use stickoverlay::color::ColorFault;
use stickoverlay::color::Rgba;
use stickoverlay::log::Sample;
use stickoverlay::options::build_norm;
use stickoverlay::options::build_style;
use stickoverlay::options::override_geometry;
use stickoverlay::options::parse_size;
use stickoverlay::options::Geometry;
use stickoverlay::options::Inverted;
use stickoverlay::options::Look;
use stickoverlay::options::LookError;
use stickoverlay::options::SizeError;
use stickoverlay::sticks::mapping;
use stickoverlay::sticks::Bipolar;
use stickoverlay::sticks::Channel;
use stickoverlay::sticks::Norm;
use stickoverlay::style::Style;
use stickoverlay::text::IntError;

fn rgba(r: u8, g: u8, b: u8, a: u8) -> Rgba {
    Rgba { r, g, b, a }
}

#[test]
fn colors_have_six_or_eight_digits() {
    assert_eq!(parse_color("ff8000").unwrap(), rgba(255, 128, 0, 255));
    assert_eq!(parse_color("#Ff8001").unwrap(), rgba(255, 128, 1, 255));
    assert_eq!(parse_color("01020304").unwrap(), rgba(1, 2, 3, 4));
    assert_eq!(parse_color("#FFfe00A0").unwrap(), rgba(255, 254, 0, 160));
}

#[test]
fn colors_of_another_length_are_refused() {
    for text in ["", "#", "fff", "#FFF", "#fffff", "fffffff", "fffffffff", "##ff8000", "##FF3C3C", "ééé1", "+123456"] {
        let e = parse_color(text).unwrap_err();
        assert_eq!(e.fault, ColorFault::Length, "{text}");
        assert_eq!(e.text, text);
        assert_eq!(e.message(), format!("color '{text}' must be RRGGBB or RRGGBBAA hex"));
    }
}

#[test]
fn colors_with_other_digits_are_refused() {
    for text in ["ggffff", "GG0000", "#12345z", "ééé", "-12345", "+12345", "#+1234567", "ff 000", "123456é"] {
        let e = parse_color(text).unwrap_err();
        assert_eq!(e.fault, ColorFault::Digits, "{text}");
        assert_eq!(e.message(), format!("bad hex color '{text}'"));
    }
}

#[test]
fn every_color_reads_back_with_and_without_a_hash() {
    for c in [rgba(0, 0, 0, 0), rgba(1, 35, 69, 103), rgba(255, 254, 16, 15), rgba(171, 205, 239, 255)] {
        let text = format!("{:02x}{:02x}{:02x}{:02x}", c.r, c.g, c.b, c.a);
        assert_eq!(parse_color(&text).unwrap(), c);
        assert_eq!(parse_color(&format!("#{text}")).unwrap(), c);
        assert_eq!(parse_color(&text[..6]).unwrap(), Rgba { a: 255, ..c });
    }
}

#[test]
fn sizes_are_width_and_height() {
    assert_eq!(parse_size("880x480"), Ok((880, 480)));
    assert_eq!(parse_size(" 880 X 480\t"), Ok((880, 480)));
    assert_eq!(parse_size("0x4294967295"), Ok((0, 4294967295)));
    assert_eq!(parse_size("+1x+2"), Ok((1, 2)));
}

#[test]
fn other_texts_are_no_sizes() {
    assert_eq!(parse_size("880"), Err(SizeError::NoCross));
    assert_eq!(parse_size(""), Err(SizeError::NoCross));
    assert_eq!(parse_size("x"), Err(SizeError::Width(IntError::Empty)));
    assert_eq!(parse_size("a x b"), Err(SizeError::Width(IntError::InvalidDigit)));
    assert_eq!(parse_size("1x"), Err(SizeError::Height(IntError::Empty)));
    assert_eq!(parse_size("1x2x3"), Err(SizeError::Height(IntError::InvalidDigit)));
    assert_eq!(parse_size("1x4294967296"), Err(SizeError::Height(IntError::PosOverflow)));
    assert_eq!(SizeError::NoCross.message(), "--size must be WxH, e.g. 880x480");
    assert_eq!(parse_size("1x-2").unwrap_err().message(), "invalid digit found in string");
    assert_eq!(parse_size(" x2").unwrap_err().message(), "cannot parse integer from empty string");
}

#[test]
fn written_sizes_read_back() {
    for (w, h) in [(1, 1), (480, 240), (0, 4294967295u32)] {
        assert_eq!(parse_size(&format!("{w}x{h}")), Ok((w, h)));
    }
}

#[test]
fn the_default_style_fits_its_canvas() {
    let style = Style::<u32>::default();
    assert_eq!((style.canvas_w, style.canvas_h), (480, 240));
    assert_eq!((style.box_size, style.gap, style.pad), (200, 40, 20));
    assert_eq!((style.line_width, style.dot_radius, style.corner_radius), (3, 9, 14));
    assert_eq!(style.col_border, rgba(255, 255, 255, 200));
    assert_eq!(style.col_cross, rgba(255, 255, 255, 90));
    assert_eq!(style.col_dot, rgba(255, 60, 60, 255));
    assert_eq!(style.col_fill, rgba(0, 0, 0, 128));
    assert_eq!(style.col_trail, rgba(255, 255, 255, 255));
    assert!(!style.trail);
    assert_eq!((style.trail_decay, style.trail_alpha), (88, 50));
}

#[test]
fn lengths_are_replaced_one_by_one() {
    let none = Geometry {
        box_size: None,
        gap: None,
        padding: None,
        dot_radius: None,
        line_width: None,
        corner_radius: None,
    };
    let style = Style::<u32>::default();
    assert_eq!(override_geometry(style, none), style);
    let some = Geometry { gap: Some(7), corner_radius: Some(0), ..none };
    assert_eq!(override_geometry(style, some), Style { gap: 7, corner_radius: 0, ..style });
    let all = Geometry {
        box_size: Some(1),
        gap: Some(2),
        padding: Some(3),
        dot_radius: Some(4),
        line_width: Some(5),
        corner_radius: Some(6),
    };
    let expected = Style {
        box_size: 1,
        gap: 2,
        pad: 3,
        dot_radius: 4,
        line_width: 5,
        corner_radius: 6,
        ..style
    };
    assert_eq!(override_geometry(style, all), expected);
}

fn look() -> Look {
    Look {
        size: None,
        color_border: None,
        color_cross: None,
        color_dot: None,
        color_fill: None,
        trail_color: None,
        trail: false,
    }
}

#[test]
fn a_look_replaces_canvas_colors_and_trail() {
    let style = Style::<u32>::default();
    assert_eq!(build_style(style, &look()).unwrap(), style);
    let given = Look {
        size: Some("100x50".to_string()),
        color_border: Some("010203".to_string()),
        color_cross: Some("#04050607".to_string()),
        color_dot: Some("08090a".to_string()),
        color_fill: Some("0b0c0d0e".to_string()),
        trail_color: Some("0f1011".to_string()),
        trail: true,
    };
    let expected = Style {
        canvas_w: 100,
        canvas_h: 50,
        col_border: rgba(1, 2, 3, 255),
        col_cross: rgba(4, 5, 6, 7),
        col_dot: rgba(8, 9, 10, 255),
        col_fill: rgba(11, 12, 13, 14),
        col_trail: rgba(15, 16, 17, 255),
        trail: true,
        ..style
    };
    assert_eq!(build_style(style, &given).unwrap(), expected);
}

#[test]
fn the_first_option_that_cannot_be_used_is_named() {
    let style = Style::<u32>::default();
    let bad = || Some("nope".to_string());
    let e = build_style(style, &Look { size: bad(), trail_color: bad(), ..look() }).unwrap_err();
    assert!(matches!(e, LookError::Size(SizeError::NoCross)));
    assert_eq!(e.message(), "--size must be WxH, e.g. 880x480");
    let later = Some("gggggg".to_string());
    let e = build_style(style, &Look { color_dot: later, color_cross: bad(), ..look() }).unwrap_err();
    assert_eq!(e.message(), "color 'nope' must be RRGGBB or RRGGBBAA hex");
    let one = Some("gggggg".to_string());
    let e = build_style(style, &Look { color_fill: one, trail_color: bad(), ..look() }).unwrap_err();
    assert_eq!(e.message(), "bad hex color 'gggggg'");
    assert!(build_style(style, &Look { color_border: bad(), ..look() }).is_err());
    assert!(build_style(style, &Look { trail_color: bad(), ..look() }).is_err());
}

#[test]
fn modes_assign_the_channels() {
    let (roll, pitch) = (Channel::Roll, Channel::Pitch);
    let (yaw, throttle) = (Channel::Yaw, Channel::Throttle);
    let pairs = |mode: u8| {
        let map = mapping(mode).unwrap();
        (map.left, map.right)
    };
    assert_eq!(pairs(1), ((yaw, pitch), (roll, throttle)));
    assert_eq!(pairs(2), ((yaw, throttle), (roll, pitch)));
    assert_eq!(pairs(3), ((roll, pitch), (yaw, throttle)));
    assert_eq!(pairs(4), ((roll, throttle), (yaw, pitch)));
}

#[test]
fn there_are_four_modes() {
    for mode in 0..=255u8 {
        assert_eq!(mapping(mode).is_ok(), (1..=4).contains(&mode));
    }
    assert_eq!(mapping(5).unwrap_err().message(), "--mode must be 1, 2, 3, or 4");
}

#[test]
fn every_mode_shows_every_channel_once() {
    for mode in 1..=4u8 {
        let map = mapping(mode).unwrap();
        let sideways = [map.left.0, map.right.0];
        let upright = [map.left.1, map.right.1];
        assert!(sideways.contains(&Channel::Roll) && sideways.contains(&Channel::Yaw));
        assert!(upright.contains(&Channel::Pitch) && upright.contains(&Channel::Throttle));
        for other in 1..mode {
            assert_ne!(mapping(other).unwrap(), map);
        }
    }
}

#[test]
fn channels_are_measured_by_their_range() {
    let norm = Norm::<u32>::default();
    assert_eq!((norm.rp_half, norm.thr_min, norm.thr_max), (500, 1000, 2000));
    assert!(!norm.inv_roll && !norm.inv_pitch && !norm.inv_yaw && !norm.inv_throttle);
    let inverted = Inverted { roll: false, pitch: true, yaw: false, throttle: true };
    let norm = build_norm(400, 900, 2100, inverted);
    let s = Sample { t_us: 0, roll: 1, pitch: 2, yaw: 3, throttle: 4 };
    assert_eq!(
        norm.bipolar(&s, Channel::Roll),
        Bipolar::Centered { value: 1, half: 400, inverted: false }
    );
    assert_eq!(
        norm.bipolar(&s, Channel::Pitch),
        Bipolar::Centered { value: 2, half: 400, inverted: true }
    );
    assert_eq!(
        norm.bipolar(&s, Channel::Yaw),
        Bipolar::Centered { value: 3, half: 400, inverted: false }
    );
    assert_eq!(
        norm.bipolar(&s, Channel::Throttle),
        Bipolar::Ranged { value: 4, low: 900, high: 2100, inverted: true }
    );
}
