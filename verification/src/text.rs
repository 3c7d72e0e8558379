//! Characters, decimal numerals and integer parsing.

use vstd::prelude::*;

verus! {

/// `String::push` appends one character.
pub assume_specification[ String::push ](text: &mut String, c: char)
    ensures
        final(text)@ == old(text)@.push(c),
;

/// The characters of each of `words`.
pub open spec fn texts(words: Seq<String>) -> Seq<Seq<char>> {
    words.map_values(|word: String| word@)
}

/// The characters of `text`, in order.
pub fn chars_of(text: &str) -> (res: Vec<char>)
    ensures
        res@ == text@,
{
    let mut res: Vec<char> = Vec::new();
    for c in it: text.chars()
        invariant
            res@ == text@.take(it.index()),
            it.seq() == text@,
    {
        assert(text@.take(it.index() + 1) =~= text@.take(it.index()).push(c));
        res.push(c);
    }
    assert(text@.take(text@.len() as int) =~= text@);
    res
}

/// A string made of the characters of `chars`, in order.
pub fn string_of(chars: &[char]) -> (res: String)
    ensures
        res@ == chars@,
{
    let mut res = String::new();
    let n: usize = chars.len();
    for i in 0..n
        invariant
            n == chars@.len(),
            res@ == chars@.take(i as int),
    {
        res.push(chars[i]);
        assert(chars@.take(i + 1) =~= chars@.take(i as int).push(chars@[i as int]));
    }
    assert(chars@.take(n as int) =~= chars@);
    res
}

/// Whether `chars` spells `text`.
pub fn spells(chars: &[char], text: &str) -> (res: bool)
    ensures
        res == (chars@ == text@),
{
    let wanted = chars_of(text);
    if chars.len() != wanted.len() {
        return false;
    }
    let n: usize = chars.len();
    for i in 0..n
        invariant
            n == chars@.len(),
            n == wanted@.len(),
            wanted@ == text@,
            forall|j: int| 0 <= j < i ==> chars@[j] == wanted@[j],
    {
        if chars[i] != wanted[i] {
            assert(chars@[i as int] != text@[i as int]);
            return false;
        }
    }
    assert(chars@ =~= text@);
    true
}

/// `c`, or its lower-case form where it is an upper-case ASCII letter.
pub open spec fn ascii_lower(c: char) -> char {
    if 'A' <= c <= 'Z' {
        ((c as u8) + 32) as char
    } else {
        c
    }
}

/// `text` with its upper-case ASCII letters in lower case.
pub open spec fn ascii_lower_text(text: Seq<char>) -> Seq<char> {
    text.map_values(|c: char| ascii_lower(c))
}

/// Each letter from `A` to `Z` becomes the one 32 places further on, and every other
/// character stays; so what is in lower case stays as it is.
pub proof fn law_lower_case(text: Seq<char>)
    ensures
        ascii_lower_text(text).len() == text.len(),
        forall|i: int|
            0 <= i < text.len() ==> {
                let c = #[trigger] text[i];
                let d = ascii_lower_text(text)[i];
                &&& 65 <= c as u32 <= 90 ==> d as u32 == c as u32 + 32
                &&& !(65 <= c as u32 <= 90) ==> d == c
            },
        ascii_lower_text(ascii_lower_text(text)) == ascii_lower_text(text),
{
    let lower = ascii_lower_text(text);
    assert forall|i: int| 0 <= i < text.len() implies {
        let c = #[trigger] text[i];
        &&& 65 <= c as u32 <= 90 ==> lower[i] as u32 == c as u32 + 32
        &&& !(65 <= c as u32 <= 90) ==> lower[i] == c
    } by {
        assert(lower[i] == ascii_lower(text[i]));
    }
    assert(ascii_lower_text(lower) =~= lower);
}

/// The characters of `chars` with upper-case ASCII letters in lower case.
pub fn lower_case(chars: &[char]) -> (res: Vec<char>)
    ensures
        res@ == ascii_lower_text(chars@),
{
    let mut res: Vec<char> = Vec::new();
    let n: usize = chars.len();
    for i in 0..n
        invariant
            n == chars@.len(),
            res@ == ascii_lower_text(chars@).take(i as int),
    {
        let c = chars[i];
        let lower = if 'A' <= c && c <= 'Z' {
            ((c as u8) + 32u8) as char
        } else {
            c
        };
        res.push(lower);
        assert(ascii_lower_text(chars@).take(i + 1) =~= ascii_lower_text(chars@).take(i as int).push(
            lower,
        ));
    }
    assert(ascii_lower_text(chars@).take(n as int) =~= ascii_lower_text(chars@));
    res
}

/// The ASCII digit for `d`, which is below ten.
pub open spec fn digit_char(d: int) -> char {
    (('0' as int) + d) as char
}

/// The decimal numeral of `n`, without leading zeros.
pub open spec fn decimal(n: nat) -> Seq<char>
    decreases n,
{
    if n < 10 {
        seq![digit_char(n as int)]
    } else {
        decimal(n / 10).push(digit_char((n % 10) as int))
    }
}

/// A numeral of one digit is that digit, and ten times a number above 0 and a digit more is
/// written as the number with the digit behind it.
pub proof fn law_decimal_grows_by_a_digit(n: nat, d: nat)
    requires
        d < 10,
    ensures
        decimal(d).len() == 1,
        decimal(d)[0] as u32 == 48 + d,
        n > 0 ==> decimal(10 * n + d).len() == decimal(n).len() + 1,
        n > 0 ==> decimal(10 * n + d).drop_last() == decimal(n),
        n > 0 ==> decimal(10 * n + d).last() as u32 == 48 + d,
{
    assert((10 * n + d) / 10 == n && (10 * n + d) % 10 == d);
    if n > 0 {
        assert(decimal(10 * n + d).drop_last() =~= decimal(n));
    }
}

/// Appends the decimal numeral of `n` to `out`.
pub fn push_decimal(out: &mut String, n: u64)
    ensures
        final(out)@ == old(out)@ + decimal(n as nat),
    decreases n,
{
    let ghost before = out@;
    if n >= 10 {
        push_decimal(out, n / 10);
    }
    let d: u8 = (n % 10) as u8;
    out.push((48u8 + d) as char);
    assert(out@ =~= before + decimal(n as nat));
}

/// Appends the characters of `tail` to `out`.
pub fn push_text(out: &mut String, tail: &str)
    ensures
        final(out)@ == old(out)@ + tail@,
{
    out.append(tail);
}

/// Different numbers have different decimal numerals.
pub proof fn law_decimal_injective(a: nat, b: nat)
    requires
        decimal(a) == decimal(b),
    ensures
        a == b,
    decreases a,
{
    assert(digit_char((a % 10) as int) == decimal(a).last());
    assert(digit_char((b % 10) as int) == decimal(b).last());
    if a >= 10 {
        assert(decimal(a).drop_last() =~= decimal(a / 10));
        lemma_decimal_digits(a / 10);
        if b >= 10 {
            assert(decimal(b).drop_last() =~= decimal(b / 10));
            law_decimal_injective(a / 10, b / 10);
        }
    } else if b >= 10 {
        lemma_decimal_digits(b / 10);
    }
}

/// A decimal numeral is not empty and holds digits only.
pub proof fn lemma_decimal_digits(n: nat)
    ensures
        decimal(n).len() > 0,
        forall|i: int| 0 <= i < decimal(n).len() ==> '0' <= #[trigger] decimal(n)[i] <= '9',
    decreases n,
{
    if n >= 10 {
        lemma_decimal_digits(n / 10);
    }
}

/// Why a piece of text is not a `u32`.
#[derive(Clone, Copy, PartialEq, Eq, Debug, Structural)]
pub enum IntError {
    /// There is nothing to read.
    Empty,
    /// A character that is no digit, or a sign with no digit behind it.
    InvalidDigit,
    /// The digits stand for a number above `u32::MAX`.
    PosOverflow,
}

impl IntError {
    /// What to tell the user.
    pub open spec fn describes(self) -> Seq<char> {
        match self {
            IntError::Empty => "cannot parse integer from empty string"@,
            IntError::InvalidDigit => "invalid digit found in string"@,
            IntError::PosOverflow => "number too large to fit in target type"@,
        }
    }

    /// What to tell the user.
    pub fn message(&self) -> (res: String)
        ensures
            res@ == self.describes(),
            self is Empty ==> res@ == "cannot parse integer from empty string"@,
            self is InvalidDigit ==> res@ == "invalid digit found in string"@,
            self is PosOverflow ==> res@ == "number too large to fit in target type"@,
    {
        match self {
            IntError::Empty => "cannot parse integer from empty string".to_string(),
            IntError::InvalidDigit => "invalid digit found in string".to_string(),
            IntError::PosOverflow => "number too large to fit in target type".to_string(),
        }
    }
}

/// The value of `c` as a digit of base `radix`, which is 10 or 16.
pub open spec fn digit_value(c: char, radix: int) -> Option<int> {
    if '0' <= c <= '9' {
        Some(c as int - '0' as int)
    } else if radix == 16 && 'a' <= c <= 'f' {
        Some(c as int - 'a' as int + 10)
    } else if radix == 16 && 'A' <= c <= 'F' {
        Some(c as int - 'A' as int + 10)
    } else {
        None
    }
}

/// What the digits `digits` stand for in base `radix`, or the first thing that
/// goes wrong when they are read from left to right.
pub open spec fn digits_value(digits: Seq<char>, radix: int) -> Result<int, IntError>
    decreases digits.len(),
{
    if digits.len() == 0 {
        Ok(0)
    } else {
        match digits_value(digits.drop_last(), radix) {
            Err(e) => Err(e),
            Ok(head) => match digit_value(digits.last(), radix) {
                None => Err(IntError::InvalidDigit),
                Some(d) => if head * radix + d > u32::MAX {
                    Err(IntError::PosOverflow)
                } else {
                    Ok(head * radix + d)
                },
            },
        }
    }
}

/// No digits stand for 0. A digit more makes `radix` times the number and the digit, where
/// that is not above `u32::MAX`; the first character that is no digit, and the first digit
/// that goes above it, spoil all that follows. The digits are `0` to `9`, and in base 16 `a`
/// to `f` too, in upper or lower case.
pub proof fn law_digits_are_read_in_order(digits: Seq<char>, c: char, radix: int)
    requires
        radix == 10 || radix == 16,
    ensures
        digits_value(seq![], radix) == Ok::<int, IntError>(0),
        ({
            let d: int = if 48 <= c as u32 <= 57 {
                c as u32 - 48
            } else if radix == 16 && 97 <= c as u32 <= 102 {
                c as u32 - 87
            } else if radix == 16 && 65 <= c as u32 <= 70 {
                c as u32 - 55
            } else {
                -1
            };
            let more = digits_value(digits.push(c), radix);
            match digits_value(digits, radix) {
                Err(e) => more == Err::<int, IntError>(e),
                Ok(v) => {
                    &&& d < 0 <==> more == Err::<int, IntError>(IntError::InvalidDigit)
                    &&& d >= 0 && radix * v + d > 0xffff_ffff <==> more == Err::<int, IntError>(
                        IntError::PosOverflow,
                    )
                    &&& d >= 0 && radix * v + d <= 0xffff_ffff ==> more == Ok::<int, IntError>(
                        radix * v + d,
                    )
                },
            }
        }),
{
    assert(digits.push(c).drop_last() =~= digits);
}

/// One `+` in front of digits makes no difference; alone, or in front of another one, it is
/// no digit. Nothing at all is no number.
pub proof fn law_a_plus_may_stand_in_front(text: Seq<char>, radix: int)
    requires
        radix == 10 || radix == 16,
    ensures
        integer_value(seq![], radix) == Err::<int, IntError>(IntError::Empty),
        text.len() > 0 && text[0] != '+' ==> integer_value(text, radix) == digits_value(text, radix),
        text.len() > 0 ==> integer_value(seq!['+'] + text, radix) == digits_value(text, radix),
        integer_value(seq!['+'], radix) == Err::<int, IntError>(IntError::InvalidDigit),
{
    assert((seq!['+'] + text).skip(1) =~= text);
    let plus = seq!['+'];
    assert(plus.drop_last() =~= Seq::<char>::empty());
    assert(digits_value(plus.drop_last(), radix) == Ok::<int, IntError>(0));
}

/// What `text` stands for as an unsigned integer of base `radix`: digits, with
/// or without one `+` in front.
pub open spec fn integer_value(text: Seq<char>, radix: int) -> Result<int, IntError> {
    if text.len() == 0 {
        Err(IntError::Empty)
    } else if text.len() > 1 && text[0] == '+' {
        digits_value(text.skip(1), radix)
    } else {
        digits_value(text, radix)
    }
}

/// Reads `c` as a digit of base `radix`.
fn digit(c: char, radix: u32) -> (res: Option<u32>)
    requires
        radix == 10 || radix == 16,
    ensures
        res is Some <==> digit_value(c, radix as int) is Some,
        res matches Some(d) ==> d < radix && digit_value(c, radix as int) == Some(d as int),
        48 <= c as u32 <= 57 ==> res == Some((c as u32 - 48) as u32),
        radix == 16 && 97 <= c as u32 <= 102 ==> res == Some((c as u32 - 87) as u32),
        radix == 16 && 65 <= c as u32 <= 70 ==> res == Some((c as u32 - 55) as u32),
        !(48 <= c as u32 <= 57) && (radix == 10 || !(97 <= c as u32 <= 102 || 65 <= c as u32 <= 70))
            ==> res is None,
{
    if '0' <= c && c <= '9' {
        Some(c as u32 - 48)
    } else if radix == 16 && 'a' <= c && c <= 'f' {
        Some(c as u32 - 87)
    } else if radix == 16 && 'A' <= c && c <= 'F' {
        Some(c as u32 - 55)
    } else {
        None
    }
}

/// Every prefix of `digits` that cannot be read spoils the whole.
proof fn lemma_prefix_error(digits: Seq<char>, radix: int, n: int)
    requires
        0 <= n <= digits.len(),
        digits_value(digits.take(n), radix) is Err,
    ensures
        digits_value(digits, radix) == digits_value(digits.take(n), radix),
    decreases digits.len() - n,
{
    if n == digits.len() {
        assert(digits.take(n) =~= digits);
    } else {
        assert(digits.take(n + 1).drop_last() =~= digits.take(n));
        lemma_prefix_error(digits, radix, n + 1);
    }
}

/// Reads the digits `chars` of base `radix`; no digits stand for 0.
pub fn parse_digits(chars: &[char], radix: u32) -> (res: Result<u32, IntError>)
    requires
        radix == 10 || radix == 16,
    ensures
        res is Ok <==> digits_value(chars@, radix as int) is Ok,
        res matches Ok(v) ==> digits_value(chars@, radix as int) == Ok::<int, IntError>(v as int),
        res matches Err(e) ==> digits_value(chars@, radix as int) == Err::<int, IntError>(e),
{
    let n: usize = chars.len();
    let mut value: u32 = 0;
    for i in 0..n
        invariant
            radix == 10 || radix == 16,
            n == chars@.len(),
            digits_value(chars@.take(i as int), radix as int) == Ok::<int, IntError>(value as int),
    {
        assert(chars@.take(i + 1).drop_last() =~= chars@.take(i as int));
        match digit(chars[i], radix) {
            None => {
                proof {
                    lemma_prefix_error(chars@, radix as int, i + 1);
                }
                return Err(IntError::InvalidDigit);
            },
            Some(d) => {
                let wide: u64 = value as u64 * radix as u64 + d as u64;
                assert(wide == value * radix + d);
                if wide > 0xffff_ffff {
                    proof {
                        lemma_prefix_error(chars@, radix as int, i + 1);
                    }
                    return Err(IntError::PosOverflow);
                }
                value = wide as u32;
            },
        }
    }
    assert(chars@.take(n as int) =~= chars@);
    Ok(value)
}

/// Reads `chars` as an unsigned integer of base `radix`.
pub fn parse_u32(chars: &[char], radix: u32) -> (res: Result<u32, IntError>)
    requires
        radix == 10 || radix == 16,
    ensures
        res is Ok <==> integer_value(chars@, radix as int) is Ok,
        res matches Ok(v) ==> integer_value(chars@, radix as int) == Ok::<int, IntError>(v as int),
        res matches Err(e) ==> integer_value(chars@, radix as int) == Err::<int, IntError>(e),
{
    let n: usize = chars.len();
    if n == 0 {
        Err(IntError::Empty)
    } else if n > 1 && chars[0] == '+' {
        let digits = vstd::slice::slice_subrange(chars, 1, n);
        assert(digits@ =~= chars@.skip(1));
        parse_digits(digits, radix)
    } else {
        parse_digits(chars, radix)
    }
}

/// Reading the decimal numeral of a `u32` gives the number back.
pub proof fn law_decimal_reads_back(n: u32)
    ensures
        integer_value(decimal(n as nat), 10) == Ok::<int, IntError>(n as int),
{
    lemma_decimal_digits(n as nat);
    lemma_decimal_value(n as nat);
    assert(decimal(n as nat)[0] != '+');
}

proof fn lemma_decimal_value(n: nat)
    requires
        n <= u32::MAX,
    ensures
        digits_value(decimal(n), 10) == Ok::<int, IntError>(n as int),
    decreases n,
{
    if n < 10 {
        assert(decimal(n).drop_last() =~= Seq::<char>::empty());
    } else {
        assert(decimal(n).drop_last() =~= decimal(n / 10));
        lemma_decimal_value(n / 10);
    }
}

/// Whether `c` has the Unicode property White_Space.
pub open spec fn is_white_space(c: char) -> bool {
    ||| '\u{9}' <= c <= '\u{d}'
    ||| c == '\u{20}'
    ||| c == '\u{85}'
    ||| c == '\u{a0}'
    ||| c == '\u{1680}'
    ||| '\u{2000}' <= c <= '\u{200a}'
    ||| c == '\u{2028}'
    ||| c == '\u{2029}'
    ||| c == '\u{202f}'
    ||| c == '\u{205f}'
    ||| c == '\u{3000}'
}

/// White space is tab, line feed, vertical tab, form feed, carriage return and blank, next
/// line, no-break space, and the wide blanks and separators above them.
pub proof fn law_white_space(c: char)
    ensures
        is_white_space(c) <==> {
            let u = c as u32;
            ||| 9 <= u <= 13
            ||| u == 32
            ||| u == 0x85
            ||| u == 0xa0
            ||| u == 0x1680
            ||| 0x2000 <= u <= 0x200a
            ||| u == 0x2028
            ||| u == 0x2029
            ||| u == 0x202f
            ||| u == 0x205f
            ||| u == 0x3000
        },
{
}

/// Whether `c` has the Unicode property White_Space.
pub fn white_space(c: char) -> (res: bool)
    ensures
        res == is_white_space(c),
{
    ('\u{9}' <= c && c <= '\u{d}') || c == '\u{20}' || c == '\u{85}' || c == '\u{a0}' || c
        == '\u{1680}' || ('\u{2000}' <= c && c <= '\u{200a}') || c == '\u{2028}' || c == '\u{2029}'
        || c == '\u{202f}' || c == '\u{205f}' || c == '\u{3000}'
}

/// `text` without the white space at its two ends.
pub open spec fn trimmed(text: Seq<char>) -> Seq<char>
    decreases text.len(),
{
    if text.len() == 0 {
        text
    } else if is_white_space(text.first()) {
        trimmed(text.drop_first())
    } else if is_white_space(text.last()) {
        trimmed(text.drop_last())
    } else {
        text
    }
}

/// A text is what is left of it with white space alone on both sides, and what is left
/// neither starts nor ends with white space.
pub proof fn law_trimming_takes_white_space_alone(text: Seq<char>) -> (ends: (int, int))
    ensures
        0 <= ends.0 <= ends.1 <= text.len(),
        trimmed(text) == text.subrange(ends.0, ends.1),
        forall|i: int| 0 <= i < ends.0 ==> is_white_space(#[trigger] text[i]),
        forall|i: int| ends.1 <= i < text.len() ==> is_white_space(#[trigger] text[i]),
        trimmed(text).len() > 0 ==> !is_white_space(trimmed(text).first()) && !is_white_space(
            trimmed(text).last(),
        ),
    decreases text.len(),
{
    if text.len() == 0 {
        assert(text.subrange(0, 0) =~= text);
        (0, 0)
    } else if is_white_space(text.first()) {
        let rest = text.drop_first();
        let (from, to) = law_trimming_takes_white_space_alone(rest);
        assert(rest.subrange(from, to) =~= text.subrange(from + 1, to + 1));
        assert forall|i: int| 0 <= i < from + 1 implies is_white_space(#[trigger] text[i]) by {
            if i > 0 {
                assert(rest[i - 1] == text[i]);
            }
        }
        assert forall|i: int| to + 1 <= i < text.len() implies is_white_space(
            #[trigger] text[i],
        ) by {
            assert(rest[i - 1] == text[i]);
        }
        (from + 1, to + 1)
    } else if is_white_space(text.last()) {
        let rest = text.drop_last();
        let (from, to) = law_trimming_takes_white_space_alone(rest);
        assert(rest.subrange(from, to) =~= text.subrange(from, to));
        assert forall|i: int| 0 <= i < from implies is_white_space(#[trigger] text[i]) by {
            assert(rest[i] == text[i]);
        }
        assert forall|i: int| to <= i < text.len() implies is_white_space(#[trigger] text[i]) by {
            if i < rest.len() {
                assert(rest[i] == text[i]);
            }
        }
        (from, to)
    } else {
        assert(text.subrange(0, text.len() as int) =~= text);
        (0, text.len() as int)
    }
}

/// `chars` without the white space at its two ends.
pub fn trim(chars: &[char]) -> (res: &[char])
    ensures
        res@ == trimmed(chars@),
{
    let mut from: usize = 0;
    let mut to: usize = chars.len();
    assert(chars@.subrange(0, to as int) =~= chars@);
    while from < to && white_space(chars[from])
        invariant
            from <= to == chars@.len(),
            trimmed(chars@) == trimmed(chars@.subrange(from as int, to as int)),
        decreases to - from,
    {
        assert(chars@.subrange(from as int, to as int).drop_first() =~= chars@.subrange(
            from + 1,
            to as int,
        ));
        from += 1;
    }
    while from < to && white_space(chars[to - 1])
        invariant
            from <= to <= chars@.len(),
            from < to ==> !is_white_space(chars@[from as int]),
            trimmed(chars@) == trimmed(chars@.subrange(from as int, to as int)),
        decreases to - from,
    {
        assert(chars@.subrange(from as int, to as int).drop_last() =~= chars@.subrange(
            from as int,
            to - 1,
        ));
        to -= 1;
    }
    vstd::slice::slice_subrange(chars, from, to)
}

} // verus!
