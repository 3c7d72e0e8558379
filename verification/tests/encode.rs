use stickoverlay::encode::encoder_args;
use stickoverlay::encode::Codec;

#[test]
fn codecs_go_by_their_names() {
    assert_eq!(Codec::parse("qtrle"), Ok(Codec::Qtrle));
    assert_eq!(Codec::parse("prores4444"), Ok(Codec::Prores4444));
    assert_eq!(Codec::parse("prores"), Ok(Codec::Prores4444));
    assert_eq!(Codec::parse("webm"), Ok(Codec::Webm));
    assert_eq!(Codec::parse("vp9"), Ok(Codec::Webm));
    assert_eq!(Codec::parse("ProRes"), Ok(Codec::Prores4444));
    assert_eq!(Codec::parse("QTRLE"), Ok(Codec::Qtrle));
}

#[test]
fn other_names_are_no_codecs() {
    for name in ["", "h264", "qtrle ", "prores4445", "web"] {
        let e = Codec::parse(name).unwrap_err();
        assert_eq!(e.message(), "--codec must be one of: qtrle, prores4444, webm");
    }
}

#[test]
fn codecs_have_extensions() {
    assert_eq!(Codec::Qtrle.ext(), "mov");
    assert_eq!(Codec::Prores4444.ext(), "mov");
    assert_eq!(Codec::Webm.ext(), "webm");
}

#[test]
fn codecs_select_an_encoding_with_alpha() {
    assert_eq!(Codec::Qtrle.output_args(), vec!["-c:v", "qtrle"]);
    assert_eq!(
        Codec::Prores4444.output_args(),
        vec!["-c:v", "prores_ks", "-profile:v", "4444", "-pix_fmt", "yuva444p10le"]
    );
    assert_eq!(
        Codec::Webm.output_args(),
        vec!["-c:v", "libvpx-vp9", "-pix_fmt", "yuva420p"]
    );
}

#[test]
fn the_encoder_reads_raw_frames() {
    let args = encoder_args(480, 240, "59.94", Codec::Webm);
    let expected = vec![
        "-hide_banner", "-loglevel", "error", "-y", "-f", "rawvideo", "-pixel_format", "rgba",
        "-video_size", "480x240", "-framerate", "59.94", "-i", "-", "-an", "-c:v", "libvpx-vp9",
        "-pix_fmt", "yuva420p",
    ];
    assert_eq!(args, expected);
}
