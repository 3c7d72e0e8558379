//! Codecs, and the command line of the encoder that raw RGBA frames go to.

use crate::text::ascii_lower_text;
use crate::text::chars_of;
use crate::text::decimal;
use crate::text::lower_case;
use crate::text::push_decimal;
use crate::text::spells;
use crate::text::texts;
use vstd::prelude::*;

verus! {

/// The encodings that keep the alpha channel.
#[derive(Clone, Copy, Debug, PartialEq, Eq, Structural)]
pub enum Codec {
    /// QuickTime Animation: lossless RGBA, the safe default for Kdenlive/MLT.
    Qtrle,
    /// ProRes 4444 with alpha (10-bit).
    Prores4444,
    /// Transparent VP9 WebM.
    Webm,
}

/// The name given is not that of a codec.
#[derive(Clone, Copy, Debug, PartialEq, Eq, Structural)]
pub struct UnknownCodec;

impl UnknownCodec {
    /// What to tell the user.
    pub fn message(&self) -> (res: String)
        ensures
            res@ == "--codec must be one of: qtrle, prores4444, webm"@,
    {
        "--codec must be one of: qtrle, prores4444, webm".to_string()
    }
}

/// The codec that goes by `name`; upper and lower case are the same.
pub open spec fn codec_named(name: Seq<char>) -> Option<Codec> {
    let lower = ascii_lower_text(name);
    if lower == "qtrle"@ {
        Some(Codec::Qtrle)
    } else if lower == "prores4444"@ || lower == "prores"@ {
        Some(Codec::Prores4444)
    } else if lower == "webm"@ || lower == "vp9"@ {
        Some(Codec::Webm)
    } else {
        None
    }
}

/// The characters of each of `words`.
pub open spec fn literals(words: Seq<&'static str>) -> Seq<Seq<char>> {
    words.map_values(|word: &'static str| word@)
}

impl Codec {
    /// Reads a codec's name.
    pub fn parse(s: &str) -> (res: Result<Codec, UnknownCodec>)
        ensures
            res is Ok <==> codec_named(s@) is Some,
            res matches Ok(codec) ==> codec_named(s@) == Some(codec),
            (res matches Ok(Codec::Qtrle)) <==> ascii_lower_text(s@) == "qtrle"@,
            (res matches Ok(Codec::Prores4444)) <==> ascii_lower_text(s@) == "prores4444"@
                || ascii_lower_text(s@) == "prores"@,
            (res matches Ok(Codec::Webm)) <==> ascii_lower_text(s@) == "webm"@ || ascii_lower_text(
                s@,
            ) == "vp9"@,
    {
        proof {
            reveal_strlit("qtrle");
            reveal_strlit("prores4444");
            reveal_strlit("prores");
            reveal_strlit("webm");
            reveal_strlit("vp9");
            assert("qtrle"@[0] == 'q' && "prores4444"@[0] == 'p' && "prores"@[0] == 'p');
            assert("webm"@[0] == 'w' && "vp9"@[0] == 'v');
        }
        let chars = chars_of(s);
        let lower = lower_case(chars.as_slice());
        let name: &[char] = lower.as_slice();
        if spells(name, "qtrle") {
            Ok(Codec::Qtrle)
        } else if spells(name, "prores4444") || spells(name, "prores") {
            Ok(Codec::Prores4444)
        } else if spells(name, "webm") || spells(name, "vp9") {
            Ok(Codec::Webm)
        } else {
            Err(UnknownCodec)
        }
    }

    /// The output file's extension.
    pub open spec fn extension(self) -> Seq<char> {
        match self {
            Codec::Qtrle | Codec::Prores4444 => "mov"@,
            Codec::Webm => "webm"@,
        }
    }

    /// Output file extension for this codec.
    pub fn ext(&self) -> (res: &'static str)
        ensures
            res@ == self.extension(),
            self is Webm ==> res@ == "webm"@,
            !(self is Webm) ==> res@ == "mov"@,
    {
        match self {
            Codec::Qtrle | Codec::Prores4444 => "mov",
            Codec::Webm => "webm",
        }
    }

    /// The encoder options that select this codec, and its pixel format where
    /// the encoder would pick one without alpha.
    pub open spec fn options(self) -> Seq<Seq<char>> {
        match self {
            Codec::Qtrle => seq!["-c:v"@, "qtrle"@],
            Codec::Prores4444 => seq![
                "-c:v"@,
                "prores_ks"@,
                "-profile:v"@,
                "4444"@,
                "-pix_fmt"@,
                "yuva444p10le"@,
            ],
            Codec::Webm => seq!["-c:v"@, "libvpx-vp9"@, "-pix_fmt"@, "yuva420p"@],
        }
    }

    /// The encoder options that select this codec.
    pub fn output_args(&self) -> (res: Vec<&'static str>)
        ensures
            literals(res@) == self.options(),
            self is Qtrle ==> res@.len() == 2 && res@[0]@ == "-c:v"@ && res@[1]@ == "qtrle"@,
            self is Prores4444 ==> res@.len() == 6 && res@[0]@ == "-c:v"@
                && res@[1]@ == "prores_ks"@ && res@[2]@ == "-profile:v"@ && res@[3]@ == "4444"@
                && res@[4]@ == "-pix_fmt"@ && res@[5]@ == "yuva444p10le"@,
            self is Webm ==> res@.len() == 4 && res@[0]@ == "-c:v"@ && res@[1]@ == "libvpx-vp9"@
                && res@[2]@ == "-pix_fmt"@ && res@[3]@ == "yuva420p"@,
    {
        let res: Vec<&'static str> = match self {
            Codec::Qtrle => vec!["-c:v", "qtrle"],
            Codec::Prores4444 => vec![
                "-c:v",
                "prores_ks",
                "-profile:v",
                "4444",
                "-pix_fmt",
                "yuva444p10le",
            ],
            Codec::Webm => vec!["-c:v", "libvpx-vp9", "-pix_fmt", "yuva420p"],
        };
        assert(literals(res@) =~= self.options());
        res
    }
}

/// A canvas size as the encoder reads it, such as `480x240`.
pub open spec fn size_text(w: u32, h: u32) -> Seq<char> {
    decimal(w as nat) + seq!['x'] + decimal(h as nat)
}

/// The encoder's arguments in front of the output file: raw RGBA frames of
/// `w` x `h` pixels come in on standard input, `fps` of them a second.
pub open spec fn encoder_arguments(w: u32, h: u32, fps: Seq<char>, codec: Codec) -> Seq<Seq<char>> {
    seq![
        "-hide_banner"@,
        "-loglevel"@,
        "error"@,
        "-y"@,
        "-f"@,
        "rawvideo"@,
        "-pixel_format"@,
        "rgba"@,
        "-video_size"@,
        size_text(w, h),
        "-framerate"@,
        fps,
        "-i"@,
        "-"@,
        "-an"@,
    ] + codec.options()
}

/// The encoder's arguments in front of the output file.
pub fn encoder_args(w: u32, h: u32, fps: &str, codec: Codec) -> (res: Vec<String>)
    ensures
        texts(res@) == encoder_arguments(w, h, fps@, codec),
        res@[0]@ == "-hide_banner"@,
        res@[1]@ == "-loglevel"@,
        res@[2]@ == "error"@,
        res@[3]@ == "-y"@,
        res@[4]@ == "-f"@,
        res@[5]@ == "rawvideo"@,
        res@[6]@ == "-pixel_format"@,
        res@[7]@ == "rgba"@,
        res@[8]@ == "-video_size"@,
        res@[10]@ == "-framerate"@,
        res@[12]@ == "-i"@,
        res@[13]@ == "-"@,
        res@[14]@ == "-an"@,
        res@[9]@ == decimal(w as nat) + seq!['x'] + decimal(h as nat),
        res@[11]@ == fps@,
        codec is Qtrle ==> res@.len() == 17 && res@[15]@ == "-c:v"@ && res@[16]@ == "qtrle"@,
        codec is Prores4444 ==> res@.len() == 21 && res@[15]@ == "-c:v"@
            && res@[16]@ == "prores_ks"@ && res@[17]@ == "-profile:v"@ && res@[18]@ == "4444"@
            && res@[19]@ == "-pix_fmt"@ && res@[20]@ == "yuva444p10le"@,
        codec is Webm ==> res@.len() == 19 && res@[15]@ == "-c:v"@ && res@[16]@ == "libvpx-vp9"@
            && res@[17]@ == "-pix_fmt"@ && res@[18]@ == "yuva420p"@,
{
    let mut size = String::new();
    push_decimal(&mut size, w as u64);
    size.push('x');
    push_decimal(&mut size, h as u64);
    assert(size@ =~= size_text(w, h));
    let mut res: Vec<String> = vec![
        "-hide_banner".to_string(),
        "-loglevel".to_string(),
        "error".to_string(),
        "-y".to_string(),
        "-f".to_string(),
        "rawvideo".to_string(),
        "-pixel_format".to_string(),
        "rgba".to_string(),
        "-video_size".to_string(),
        size,
        "-framerate".to_string(),
        fps.to_string(),
        "-i".to_string(),
        "-".to_string(),
        "-an".to_string(),
    ];
    let ghost fixed = texts(res@);
    let options = codec.output_args();
    let n: usize = options.len();
    for i in 0..n
        invariant
            n == options@.len(),
            literals(options@) == codec.options(),
            texts(res@) == fixed + codec.options().take(i as int),
    {
        let ghost before = res@;
        res.push(options[i].to_string());
        assert(literals(options@)[i as int] == options@[i as int]@);
        assert(texts(res@) =~= texts(before).push(options@[i as int]@));
        assert(codec.options().take(i + 1) =~= codec.options().take(i as int).push(
            options@[i as int]@,
        ));
        assert(texts(res@) =~= fixed + codec.options().take(i + 1));
    }
    assert(codec.options().take(n as int) =~= codec.options());
    assert(texts(res@) =~= encoder_arguments(w, h, fps@, codec));
    assert(forall|i: int| 0 <= i < res@.len() ==> texts(res@)[i] == (#[trigger] res@[i])@);
    res
}

} // verus!
