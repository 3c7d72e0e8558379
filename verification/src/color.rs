//! Colors, as they are written on the command line.

use crate::text::chars_of;
use crate::text::digit_value;
use crate::text::digits_value;
use crate::text::parse_digits;
use crate::text::push_text;
use crate::text::string_of;
use crate::text::IntError;
use vstd::prelude::*;
use vstd::utf8::encode_utf8;
use vstd::utf8::is_ascii_chars;
use vstd::utf8::is_ascii_chars_encode_utf8;

verus! {

/// A color in straight (not premultiplied) bytes.
#[derive(Clone, Copy, Debug, PartialEq, Eq, Structural)]
pub struct Rgba {
    pub r: u8,
    pub g: u8,
    pub b: u8,
    pub a: u8,
}

/// Why a text is not a color.
#[derive(Clone, Copy, Debug, PartialEq, Eq, Structural)]
pub enum ColorFault {
    /// It is not six or eight bytes long.
    Length,
    /// It holds something else than hexadecimal digits.
    Digits,
}

/// A text that is not a color.
#[derive(Debug)]
pub struct ColorError {
    pub text: String,
    pub fault: ColorFault,
}

impl ColorError {
    /// What to tell the user.
    pub open spec fn describes(self) -> Seq<char> {
        match self.fault {
            ColorFault::Length => "color '"@ + self.text@ + "' must be RRGGBB or RRGGBBAA hex"@,
            ColorFault::Digits => "bad hex color '"@ + self.text@ + "'"@,
        }
    }

    /// What to tell the user.
    pub fn message(&self) -> (res: String)
        ensures
            res@ == self.describes(),
            self.fault is Length ==> res@ == "color '"@ + self.text@
                + "' must be RRGGBB or RRGGBBAA hex"@,
            self.fault is Digits ==> res@ == "bad hex color '"@ + self.text@ + "'"@,
    {
        let mut res = String::new();
        match self.fault {
            ColorFault::Length => {
                push_text(&mut res, "color '");
                push_text(&mut res, self.text.as_str());
                push_text(&mut res, "' must be RRGGBB or RRGGBBAA hex");
            },
            ColorFault::Digits => {
                push_text(&mut res, "bad hex color '");
                push_text(&mut res, self.text.as_str());
                push_text(&mut res, "'");
            },
        }
        assert(res@ =~= self.describes());
        res
    }
}

/// `text` without the `#` in front, where it has one.
pub open spec fn bare(text: Seq<char>) -> Seq<char> {
    if text.len() > 0 && text[0] == '#' {
        text.skip(1)
    } else {
        text
    }
}

/// The color of a number: its bytes are red, green, blue and alpha.
pub open spec fn color_of_rgba(v: int) -> Rgba {
    Rgba {
        r: (v / 0x100_0000) as u8,
        g: (v / 0x1_0000 % 0x100) as u8,
        b: (v / 0x100 % 0x100) as u8,
        a: (v % 0x100) as u8,
    }
}

/// The opaque color of a number: its bytes are red, green and blue.
pub open spec fn color_of_rgb(v: int) -> Rgba {
    Rgba {
        r: (v / 0x1_0000 % 0x100) as u8,
        g: (v / 0x100 % 0x100) as u8,
        b: (v % 0x100) as u8,
        a: 255,
    }
}

/// The color that `text` stands for: `RRGGBB` or `RRGGBBAA`, with or without a `#`
/// in front.
pub open spec fn color_value(text: Seq<char>) -> Result<Rgba, ColorFault> {
    let digits = bare(text);
    let length = encode_utf8(digits).len();
    if length != 6 && length != 8 {
        Err(ColorFault::Length)
    } else {
        match digits_value(digits, 16) {
            Err(_) => Err(ColorFault::Digits),
            Ok(v) => if length == 8 {
                Ok(color_of_rgba(v))
            } else {
                Ok(color_of_rgb(v))
            },
        }
    }
}

/// Whether `text` is `RRGGBB` or `RRGGBBAA`: six or eight hexadecimal digits and
/// nothing else.
pub open spec fn is_hex_color(text: Seq<char>) -> bool {
    &&& text.len() == 6 || text.len() == 8
    &&& forall|i: int| 0 <= i < text.len() ==> digit_value(#[trigger] text[i], 16) is Some
}

/// How many numbers there are of `n` hexadecimal digits.
spec fn sixteens(n: nat) -> int
    decreases n,
{
    if n == 0 {
        1
    } else {
        16 * sixteens((n - 1) as nat)
    }
}

/// Digits alone can be read, as long as there are not too many of them.
proof fn lemma_hex_digits_read(text: Seq<char>)
    requires
        text.len() <= 8,
        forall|i: int| 0 <= i < text.len() ==> digit_value(#[trigger] text[i], 16) is Some,
    ensures
        digits_value(text, 16) matches Ok(v) && 0 <= v < sixteens(text.len()),
    decreases text.len(),
{
    if text.len() > 0 {
        let head = text.drop_last();
        assert(forall|i: int| 0 <= i < head.len() ==> #[trigger] head[i] == text[i]);
        lemma_hex_digits_read(head);
        assert(text.last() == text[text.len() - 1]);
        assert(sixteens(text.len()) <= 0x1_0000_0000) by {
            reveal_with_fuel(sixteens, 9);
        }
    }
}

/// A color is six or eight hexadecimal digits, with or without one `#` in front, and
/// nothing else is.
pub proof fn law_colors_are_digits(text: Seq<char>)
    ensures
        color_value(text) is Ok <==> is_hex_color(bare(text)),
{
    let digits = bare(text);
    if is_hex_color(digits) {
        lemma_hex_digits_read(digits);
        assert forall|i: int| 0 <= i < digits.len() implies '\0' <= #[trigger] digits[i]
            <= '\u{7f}' by {
            assert(digit_value(digits[i], 16) is Some);
        }
        assert(is_ascii_chars(digits));
        is_ascii_chars_encode_utf8(digits);
    } else if color_value(text) is Ok {
        lemma_digits_read_are_hex(digits);
        assert forall|i: int| 0 <= i < digits.len() implies '\0' <= #[trigger] digits[i]
            <= '\u{7f}' by {
            assert(digit_value(digits[i], 16) is Some);
        }
        assert(is_ascii_chars(digits));
        is_ascii_chars_encode_utf8(digits);
    }
}

/// What can be read holds digits alone.
proof fn lemma_digits_read_are_hex(text: Seq<char>)
    requires
        digits_value(text, 16) is Ok,
    ensures
        forall|i: int| 0 <= i < text.len() ==> digit_value(#[trigger] text[i], 16) is Some,
    decreases text.len(),
{
    if text.len() > 0 {
        let head = text.drop_last();
        lemma_digits_read_are_hex(head);
        assert forall|i: int| 0 <= i < text.len() implies digit_value(#[trigger] text[i], 16)
            is Some by {
            if i < head.len() {
                assert(head[i] == text[i]);
            }
        }
    }
}

/// A `#` in front takes one byte.
proof fn lemma_bare_length(text: Seq<char>)
    requires
        text.len() > 0,
        text[0] == '#',
    ensures
        encode_utf8(text).len() == encode_utf8(bare(text)).len() + 1,
{
    assert(text.drop_first() =~= bare(text));
    vstd::utf8::char_u32_cast(text[0], 35u32);
}

/// Reads `RRGGBB` or `RRGGBBAA`, with or without a `#` in front.
pub fn parse_color(s: &str) -> (res: Result<Rgba, ColorError>)
    ensures
        res is Ok <==> is_hex_color(bare(s@)),
        res is Ok <==> color_value(s@) is Ok,
        res matches Ok(color) ==> color_value(s@) == Ok::<Rgba, ColorFault>(color),
        res matches Err(e) ==> e.text@ == s@ && color_value(s@) == Err::<Rgba, ColorFault>(e.fault),
{
    proof {
        law_colors_are_digits(s@);
    }
    let chars = chars_of(s);
    let mut length: usize = s.as_bytes().len();
    let all: &[char] = chars.as_slice();
    let digits: &[char] = if all.len() > 0 && all[0] == '#' {
        proof {
            lemma_bare_length(s@);
        }
        length -= 1;
        vstd::slice::slice_subrange(all, 1, all.len())
    } else {
        all
    };
    assert(digits@ =~= bare(s@));
    if length != 6 && length != 8 {
        return Err(ColorError { text: string_of(all), fault: ColorFault::Length });
    }
    match parse_digits(digits, 16) {
        Err(_) => Err(ColorError { text: string_of(all), fault: ColorFault::Digits }),
        Ok(v) => if length == 8 {
            Ok(
                Rgba {
                    r: (v / 0x100_0000) as u8,
                    g: (v / 0x1_0000 % 0x100) as u8,
                    b: (v / 0x100 % 0x100) as u8,
                    a: (v % 0x100) as u8,
                },
            )
        } else {
            Ok(
                Rgba {
                    r: (v / 0x1_0000 % 0x100) as u8,
                    g: (v / 0x100 % 0x100) as u8,
                    b: (v % 0x100) as u8,
                    a: 255,
                },
            )
        },
    }
}

/// What a hexadecimal digit stands for, and less than 0 for any other character.
pub open spec fn hex_of(c: char) -> int {
    if 48 <= c as u32 <= 57 {
        c as u32 - 48
    } else if 97 <= c as u32 <= 102 {
        c as u32 - 87
    } else if 65 <= c as u32 <= 70 {
        c as u32 - 55
    } else {
        -1
    }
}

proof fn lemma_hex_of(c: char)
    ensures
        digit_value(c, 16) is Some <==> hex_of(c) >= 0,
        digit_value(c, 16) matches Some(d) ==> d == hex_of(c) && 0 <= d < 16,
{
}

/// Two digits more read as the number before them, moved up, and their byte.
proof fn lemma_next_byte(text: Seq<char>, n: int, v: int)
    requires
        0 <= n,
        n + 2 <= text.len(),
        digits_value(text.take(n), 16) == Ok::<int, IntError>(v),
        0 <= v < 0x100_0000,
        hex_of(text[n]) >= 0,
        hex_of(text[n + 1]) >= 0,
    ensures
        digits_value(text.take(n + 2), 16) == Ok::<int, IntError>(
            v * 0x100 + hex_of(text[n]) * 16 + hex_of(text[n + 1]),
        ),
{
    lemma_hex_of(text[n]);
    lemma_hex_of(text[n + 1]);
    assert(text.take(n + 1).drop_last() =~= text.take(n));
    assert(text.take(n + 2).drop_last() =~= text.take(n + 1));
    assert(digits_value(text.take(n + 1), 16) == Ok::<int, IntError>(v * 16 + hex_of(text[n])));
}

/// The numbers that the bytes of a color make up.
#[verifier::spinoff_prover]
#[verifier::rlimit(40)]
proof fn lemma_bytes_split(r: int, g: int, b: int, a: int)
    requires
        0 <= r < 256,
        0 <= g < 256,
        0 <= b < 256,
        0 <= a < 256,
    ensures
        color_of_rgb((r * 0x100 + g) * 0x100 + b) == (Rgba {
            r: r as u8,
            g: g as u8,
            b: b as u8,
            a: 255,
        }),
        color_of_rgba(((r * 0x100 + g) * 0x100 + b) * 0x100 + a) == (Rgba {
            r: r as u8,
            g: g as u8,
            b: b as u8,
            a: a as u8,
        }),
{
    let three = (r * 0x100 + g) * 0x100 + b;
    let four = three * 0x100 + a;
    assert(three % 0x100 == b && three / 0x100 == r * 0x100 + g && three / 0x1_0000 == r);
    assert(four % 0x100 == a && four / 0x100 == three && four / 0x1_0000 == r * 0x100 + g);
    assert(four / 0x100_0000 == r);
}

/// A color is read from its digits, two for each byte and the higher one first: red, green,
/// blue and, where there are eight digits, alpha. With six it is opaque. Digits are `0` to
/// `9` and `a` to `f` in upper or lower case. Other lengths are one fault, and other
/// characters in a text of that length are the other.
#[verifier::rlimit(40)]
pub proof fn law_colors_are_read_by_bytes(text: Seq<char>)
    ensures
        text.len() > 0 && text[0] == '#' ==> bare(text) == text.skip(1),
        text.len() == 0 || text[0] != '#' ==> bare(text) == text,
        color_value(text) is Ok <==> (bare(text).len() == 6 || bare(text).len() == 8) && (forall|
            i: int,
        |
            0 <= i < bare(text).len() ==> hex_of(#[trigger] bare(text)[i]) >= 0),
        color_value(text) == Err::<Rgba, ColorFault>(ColorFault::Length) <==> encode_utf8(
            bare(text),
        ).len() != 6 && encode_utf8(bare(text)).len() != 8,
        color_value(text) matches Ok(c) ==> {
            let t = bare(text);
            &&& c.r == 16 * hex_of(t[0]) + hex_of(t[1])
            &&& c.g == 16 * hex_of(t[2]) + hex_of(t[3])
            &&& c.b == 16 * hex_of(t[4]) + hex_of(t[5])
            &&& t.len() == 6 ==> c.a == 255
            &&& t.len() == 8 ==> c.a == 16 * hex_of(t[6]) + hex_of(t[7])
        },
{
    let t = bare(text);
    law_colors_are_digits(text);
    assert forall|i: int| 0 <= i < t.len() implies (digit_value(#[trigger] t[i], 16) is Some
        <==> hex_of(t[i]) >= 0) && hex_of(t[i]) < 16 by {
        lemma_hex_of(t[i]);
    }
    if color_value(text) is Ok {
        assert forall|i: int| 0 <= i < t.len() implies '\0' <= #[trigger] t[i] <= '\u{7f}' by {
            assert(digit_value(t[i], 16) is Some);
        }
        assert(is_ascii_chars(t));
        is_ascii_chars_encode_utf8(t);
        assert(t.take(0) =~= Seq::<char>::empty());
        let r = 16 * hex_of(t[0]) + hex_of(t[1]);
        let g = 16 * hex_of(t[2]) + hex_of(t[3]);
        let b = 16 * hex_of(t[4]) + hex_of(t[5]);
        lemma_next_byte(t, 0, 0);
        lemma_next_byte(t, 2, r);
        lemma_next_byte(t, 4, r * 0x100 + g);
        if t.len() == 8 {
            let a = 16 * hex_of(t[6]) + hex_of(t[7]);
            lemma_next_byte(t, 6, (r * 0x100 + g) * 0x100 + b);
            assert(t.take(8) =~= t);
            lemma_bytes_split(r, g, b, a);
        } else {
            assert(t.take(6) =~= t);
            lemma_bytes_split(r, g, b, 0);
        }
    }
}

/// A `#` in front makes no difference.
pub proof fn law_hash_is_optional(text: Seq<char>)
    requires
        text.len() == 0 || text[0] != '#',
    ensures
        color_value(seq!['#'] + text) == color_value(text),
{
    assert(bare(seq!['#'] + text) =~= text);
}

/// The hexadecimal digit for `d`, which is below sixteen.
pub open spec fn hex_digit(d: int) -> char {
    if d < 10 {
        (('0' as int) + d) as char
    } else {
        (('a' as int) + d - 10) as char
    }
}

/// The two hexadecimal digits of a byte.
pub open spec fn hex_byte(v: u8) -> Seq<char> {
    seq![hex_digit(v as int / 16), hex_digit(v as int % 16)]
}

proof fn lemma_hex_digit(d: int)
    requires
        0 <= d < 16,
    ensures
        digit_value(hex_digit(d), 16) == Some(d),
        '\0' <= hex_digit(d) <= '\u{7f}',
        hex_digit(d) != '#',
{
}

/// Two digits more read as the number before them, moved up, and the byte.
proof fn lemma_hex_byte_value(head: Seq<char>, v: int, byte: u8)
    requires
        digits_value(head, 16) == Ok::<int, IntError>(v),
        0 <= v < 0x100_0000,
    ensures
        digits_value(head + hex_byte(byte), 16) == Ok::<int, IntError>(v * 0x100 + byte),
{
    let high = byte as int / 16;
    let low = byte as int % 16;
    lemma_hex_digit(high);
    lemma_hex_digit(low);
    let one = head.push(hex_digit(high));
    let two = head + hex_byte(byte);
    assert(one.drop_last() =~= head);
    assert(two.drop_last() =~= one);
    assert(two.last() == hex_digit(low));
    assert(digits_value(one, 16) == Ok::<int, IntError>(v * 16 + high));
}

/// The bytes of a number of four bytes are found again.
proof fn lemma_rgba_of_bytes(c: Rgba)
    ensures
        color_of_rgba(((c.r * 0x100 + c.g) * 0x100 + c.b) * 0x100 + c.a) == c,
{
    lemma_bytes_split(c.r as int, c.g as int, c.b as int, c.a as int);
}

/// Eight digits, two for each of red, green, blue and alpha, read as that color.
pub proof fn law_eight_digits(c: Rgba)
    ensures
        color_value(hex_byte(c.r) + hex_byte(c.g) + hex_byte(c.b) + hex_byte(c.a)) == Ok::<
            Rgba,
            ColorFault,
        >(c),
{
    let none = Seq::<char>::empty();
    let r = none + hex_byte(c.r);
    let g = r + hex_byte(c.g);
    let b = g + hex_byte(c.b);
    let text = b + hex_byte(c.a);
    let v = (c.r * 0x100 + c.g) * 0x100 + c.b;
    assert(digits_value(text, 16) == Ok::<int, IntError>(v * 0x100 + c.a)) by {
        lemma_hex_byte_value(none, 0, c.r);
        lemma_hex_byte_value(r, c.r as int, c.g);
        lemma_hex_byte_value(g, c.r * 0x100 + c.g, c.b);
        lemma_hex_byte_value(b, v, c.a);
    }
    assert(text.len() == 8 && encode_utf8(text).len() == 8 && bare(text) == text) by {
        lemma_hex_text(text, seq![c.r, c.g, c.b, c.a]);
    }
    lemma_rgba_of_bytes(c);
    assert(text =~= hex_byte(c.r) + hex_byte(c.g) + hex_byte(c.b) + hex_byte(c.a));
}

/// Six digits, two for each of red, green and blue, read as that color, opaque.
#[verifier::rlimit(40)]
pub proof fn law_six_digits(r: u8, g: u8, b: u8)
    ensures
        color_value(hex_byte(r) + hex_byte(g) + hex_byte(b)) == Ok::<Rgba, ColorFault>(
            (Rgba { r, g, b, a: 255 }),
        ),
{
    let none = Seq::<char>::empty();
    let one = none + hex_byte(r);
    let two = one + hex_byte(g);
    let text = two + hex_byte(b);
    lemma_hex_byte_value(none, 0, r);
    lemma_hex_byte_value(one, r as int, g);
    lemma_hex_byte_value(two, r * 0x100 + g, b);
    lemma_hex_text(text, seq![r, g, b]);
    assert(text =~= hex_byte(r) + hex_byte(g) + hex_byte(b));
}

/// A text of hexadecimal bytes is plain ASCII, as long as it has characters.
proof fn lemma_hex_text(text: Seq<char>, bytes: Seq<u8>)
    requires
        bytes.len() > 0,
        text.len() == 2 * bytes.len(),
        forall|i: int|
            0 <= i < bytes.len() ==> text[2 * i] == hex_digit((#[trigger] bytes[i]) as int / 16)
                && text[2 * i + 1] == hex_digit(bytes[i] as int % 16),
    ensures
        encode_utf8(text).len() == text.len(),
        bare(text) == text,
{
    assert forall|k: int| 0 <= k < text.len() implies '\0' <= #[trigger] text[k] <= '\u{7f}'
        && text[k] != '#' by {
        let byte = bytes[k / 2];
        lemma_hex_digit(byte as int / 16);
        lemma_hex_digit(byte as int % 16);
        assert(k == 2 * (k / 2) || k == 2 * (k / 2) + 1);
    }
    assert(is_ascii_chars(text));
    is_ascii_chars_encode_utf8(text);
    assert(text[0] != '#');
}

} // verus!
