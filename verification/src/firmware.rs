//! The firmware-revision header of a blackbox log.
//!
//! The log decoder knows Betaflight from 4.2 up to, but not including, 4.6 and INAV 5
//! to 8 by their version numbers. Logs of other versions have the same frame format,
//! so the header is rewritten to a version that the decoder takes before it sees the
//! log.

use crate::text::ascii_lower_text;
use crate::text::chars_of;
use crate::text::integer_value;
use crate::text::lower_case;
use crate::text::parse_u32;
use crate::text::push_text;
use crate::text::spells;
use crate::text::string_of;
use vstd::prelude::*;
use vstd::slice::slice_subrange;
use vstd::utf8::decode_utf8;
use vstd::utf8::encode_utf8;
use vstd::utf8::valid_utf8;

verus! {

/// What is wrong with bytes that are no UTF-8.
#[verifier::external_type_specification]
#[verifier::external_body]
pub struct ExUtf8Error(std::str::Utf8Error);

/// `std::str::from_utf8` takes exactly the byte sequences that are valid UTF-8,
/// and the text it gives has these bytes.
pub assume_specification<'a>[ std::str::from_utf8 ](bytes: &'a [u8]) -> (res: Result<
    &'a str,
    std::str::Utf8Error,
>)
    ensures
        res is Ok <==> valid_utf8(bytes@),
        res matches Ok(text) ==> encode_utf8(text@) == bytes@,
;

/// The place of the first `x` in `s`, or the length of `s` where there is none.
pub open spec fn first_index<A>(s: Seq<A>, x: A) -> int
    decreases s.len(),
{
    if s.len() == 0 || s[0] == x {
        0
    } else {
        1 + first_index(s.drop_first(), x)
    }
}

/// `s` up to the first `x`, or all of `s` where there is none.
pub open spec fn head<A>(s: Seq<A>, x: A) -> Seq<A> {
    s.take(first_index(s, x))
}

/// `first_index` is where the first `x` stands, if there is one.
pub proof fn lemma_first_index<A>(s: Seq<A>, x: A)
    ensures
        0 <= first_index(s, x) <= s.len(),
        forall|j: int| 0 <= j < first_index(s, x) ==> s[j] != x,
        first_index(s, x) < s.len() ==> s[first_index(s, x)] == x,
    decreases s.len(),
{
    if s.len() != 0 && s[0] != x {
        let rest = s.drop_first();
        lemma_first_index(rest, x);
        assert forall|j: int| 0 <= j < first_index(s, x) implies s[j] != x by {
            if j > 0 {
                assert(s[j] == rest[j - 1]);
            }
        }
    }
}

proof fn lemma_first_index_is<A>(s: Seq<A>, x: A, n: int)
    requires
        0 <= n <= s.len(),
        forall|j: int| 0 <= j < n ==> s[j] != x,
        n < s.len() ==> s[n] == x,
    ensures
        first_index(s, x) == n,
{
    lemma_first_index(s, x);
}

/// Where the first `x` of `chars` stands, or its length.
fn index_of(chars: &[char], x: char) -> (res: usize)
    ensures
        res == first_index(chars@, x),
        res <= chars@.len(),
{
    let n: usize = chars.len();
    let mut i: usize = 0;
    while i < n && chars[i] != x
        invariant
            i <= n == chars@.len(),
            forall|j: int| 0 <= j < i ==> chars@[j] != x,
        decreases n - i,
    {
        i += 1;
    }
    proof {
        lemma_first_index_is(chars@, x, i as int);
    }
    i
}

/// The version number that stands in for the one of firmware `kind`, a name in
/// lower case, where the decoder does not take `major` and `minor`.
pub open spec fn replacement(kind: Seq<char>, major: Option<int>, minor: Option<int>) -> Option<
    Seq<char>,
> {
    if kind == "betaflight"@ {
        if major == Some(4int) && (minor matches Some(m) && 2 <= m <= 5) {
            None
        } else {
            Some("4.5.0"@)
        }
    } else if kind == "inav"@ {
        if major matches Some(m) && 5 <= m <= 8 {
            None
        } else {
            Some("8.0.0"@)
        }
    } else {
        None
    }
}

/// The number in front of the first dot of `version`.
pub open spec fn major_version(version: Seq<char>) -> Option<int> {
    match integer_value(head(version, '.'), 10) {
        Ok(m) => Some(m),
        Err(_) => None,
    }
}

/// The number between the first dot of `version` and the next one.
pub open spec fn minor_version(version: Seq<char>) -> Option<int> {
    if version.contains('.') {
        major_version(version.skip(head(version, '.').len() as int + 1))
    } else {
        None
    }
}

/// The first word of a firmware revision such as `Betaflight 2025.12.2 (hash) BOARD`:
/// what stands in front of the first blank.
pub open spec fn firmware_kind(revision: Seq<char>) -> Seq<char> {
    head(revision, ' ')
}

/// The second word of a firmware revision: what stands between the first blank and the
/// next one.
pub open spec fn firmware_version(revision: Seq<char>) -> Seq<char> {
    head(revision.skip(firmware_kind(revision).len() as int + 1), ' ')
}

/// What follows the first two words of a firmware revision.
pub open spec fn firmware_tail(revision: Seq<char>) -> Seq<char> {
    revision.skip(
        firmware_kind(revision).len() as int + 1 + firmware_version(revision).len() as int,
    )
}

/// The firmware revision with a version that the decoder takes, where
/// `revision` needs one.
pub open spec fn rewritten_revision(revision: Seq<char>) -> Option<Seq<char>> {
    if !revision.contains(' ') {
        None
    } else {
        match replacement(
            ascii_lower_text(firmware_kind(revision)),
            major_version(firmware_version(revision)),
            minor_version(firmware_version(revision)),
        ) {
            None => None,
            Some(version) => Some(
                firmware_kind(revision) + seq![' '] + version + firmware_tail(revision),
            ),
        }
    }
}

/// `rewritten_revision` of the bytes of a header value; bytes that are no UTF-8
/// are left alone.
pub open spec fn rewritten_value(value: Seq<u8>) -> Option<Seq<char>> {
    if valid_utf8(value) {
        rewritten_revision(decode_utf8(value))
    } else {
        None
    }
}

/// Reads the number in front of the first dot of `version`.
fn leading_number(version: &[char]) -> (res: Option<u32>)
    ensures
        res is Some <==> major_version(version@) is Some,
        res matches Some(m) ==> major_version(version@) == Some(m as int),
{
    let dot = index_of(version, '.');
    let digits = slice_subrange(version, 0, dot);
    assert(digits@ =~= head(version@, '.'));
    match parse_u32(digits, 10) {
        Ok(m) => Some(m),
        Err(_) => None,
    }
}

/// Reads the first two numbers of `version`.
fn version_numbers(version: &[char]) -> (res: (Option<u32>, Option<u32>))
    ensures
        res.0 is Some <==> major_version(version@) is Some,
        res.0 matches Some(m) ==> major_version(version@) == Some(m as int),
        res.1 is Some <==> minor_version(version@) is Some,
        res.1 matches Some(m) ==> minor_version(version@) == Some(m as int),
{
    let dot = index_of(version, '.');
    let n: usize = version.len();
    proof {
        lemma_first_index(version@, '.');
    }
    let minor = if dot < n {
        let rest = slice_subrange(version, dot + 1, n);
        assert(rest@ =~= version@.skip(head(version@, '.').len() as int + 1));
        assert(version@[dot as int] == '.');
        leading_number(rest)
    } else {
        assert(!version@.contains('.'));
        None
    };
    (leading_number(version), minor)
}

/// Given a firmware-revision value like `Betaflight 2025.12.2 (hash) BOARD`,
/// returns the rewritten value and the given one if the decoder does not take
/// the version, else nothing.
pub fn rewrite_fw_value(value: &[u8]) -> (res: (Option<String>, Option<String>))
    ensures
        res.0 is Some <==> rewritten_value(value@) is Some,
        res.0 matches Some(text) ==> rewritten_value(value@) == Some(text@),
        res.1 is Some <==> rewritten_value(value@) is Some,
        res.1 matches Some(text) ==> text@ == decode_utf8(value@),
{
    let revision = match std::str::from_utf8(value) {
        Ok(text) => text,
        Err(_) => return (None, None),
    };
    proof {
        vstd::utf8::encode_utf8_decode_utf8(revision@);
    }
    let chars = chars_of(revision);
    let all: &[char] = chars.as_slice();
    let n: usize = all.len();
    let blank = index_of(all, ' ');
    proof {
        lemma_first_index(all@, ' ');
    }
    if blank == n {
        assert(!revision@.contains(' '));
        return (None, None);
    }
    assert(revision@[blank as int] == ' ');
    assert(revision@.contains(' '));
    let kind = slice_subrange(all, 0, blank);
    assert(kind@ =~= firmware_kind(revision@));
    let rest = slice_subrange(all, blank + 1, n);
    assert(rest@ =~= revision@.skip(blank + 1));
    let end = index_of(rest, ' ');
    let version = slice_subrange(rest, 0, end);
    assert(version@ =~= firmware_version(revision@));
    let tail = slice_subrange(rest, end, rest.len());
    assert(tail@ =~= firmware_tail(revision@));
    let (major, minor) = version_numbers(version);
    let lower = lower_case(kind);
    let name: &[char] = lower.as_slice();
    let version: &str = if spells(name, "betaflight") {
        if let (Some(4), Some(m)) = (major, minor) {
            if 2 <= m && m <= 5 {
                return (None, None);
            }
        }
        "4.5.0"
    } else if spells(name, "inav") {
        if let Some(m) = major {
            if 5 <= m && m <= 8 {
                return (None, None);
            }
        }
        "8.0.0"
    } else {
        return (None, None);
    };
    let mut out = string_of(kind);
    out.push(' ');
    push_text(&mut out, version);
    let tail_text = string_of(tail);
    push_text(&mut out, tail_text.as_str());
    assert(out@ =~= firmware_kind(revision@) + seq![' '] + version@ + firmware_tail(revision@));
    (Some(out), Some(string_of(all)))
}

/// What stands in front of the firmware revision in a log.
pub open spec fn header() -> Seq<u8> {
    encode_utf8("H Firmware revision:"@)
}

/// The header is twenty bytes long and stays within one line.
pub proof fn lemma_header()
    ensures
        header().len() == 20,
        forall|i: int| 0 <= i < header().len() ==> #[trigger] header()[i] != 10u8,
{
    let text = "H Firmware revision:"@;
    reveal_strlit("H Firmware revision:");
    assert(vstd::utf8::is_ascii_chars(text));
    vstd::utf8::is_ascii_chars_encode_utf8(text);
    assert forall|i: int| 0 <= i < header().len() implies #[trigger] header()[i] != 10u8 by {
        assert(header()[i] == text[i] as u8);
    }
}

/// The rest of the line that `bytes` starts with.
pub open spec fn line(bytes: Seq<u8>) -> Seq<u8> {
    head(bytes, 10u8)
}

/// What a firmware-revision header whose value is `value` says in the
/// normalized log.
pub open spec fn normalized_value(value: Seq<u8>) -> Seq<u8> {
    match rewritten_value(value) {
        Some(text) => encode_utf8(text),
        None => value,
    }
}

/// `bytes` with every firmware revision that the decoder does not take
/// rewritten, and every other byte as it was.
pub open spec fn normalized(bytes: Seq<u8>) -> Seq<u8>
    decreases bytes.len(),
{
    if bytes.len() == 0 {
        bytes
    } else if header().is_prefix_of(bytes) {
        let after = bytes.skip(header().len() as int);
        let value = line(after);
        proof {
            lemma_header();
            lemma_first_index(after, 10u8);
        }
        header() + normalized_value(value) + normalized(after.skip(value.len() as int))
    } else {
        seq![bytes[0]] + normalized(bytes.drop_first())
    }
}

/// The last firmware revision of `bytes` that is rewritten.
pub open spec fn reported(bytes: Seq<u8>) -> Option<Seq<char>>
    decreases bytes.len(),
{
    if bytes.len() == 0 {
        None
    } else if header().is_prefix_of(bytes) {
        let after = bytes.skip(header().len() as int);
        let value = line(after);
        proof {
            lemma_header();
            lemma_first_index(after, 10u8);
        }
        match reported(after.skip(value.len() as int)) {
            Some(text) => Some(text),
            None => if rewritten_value(value) is Some {
                Some(decode_utf8(value))
            } else {
                None
            },
        }
    } else {
        reported(bytes.drop_first())
    }
}

/// Whether `prefix` is what `bytes` holds from `at` on.
fn starts_at(bytes: &[u8], at: usize, prefix: &[u8]) -> (res: bool)
    requires
        at <= bytes@.len(),
    ensures
        res == prefix@.is_prefix_of(bytes@.skip(at as int)),
{
    let n: usize = prefix.len();
    let len: usize = bytes.len();
    if len - at < n {
        return false;
    }
    let ghost rest = bytes@.skip(at as int);
    for i in 0..n
        invariant
            n == prefix@.len(),
            at + n <= len == bytes@.len(),
            rest == bytes@.skip(at as int),
            forall|j: int| 0 <= j < i ==> prefix@[j] == rest[j],
    {
        if bytes[at + i] != prefix[i] {
            assert(rest.take(n as int)[i as int] != prefix@[i as int]);
            return false;
        }
    }
    assert(prefix@ =~= rest.take(n as int));
    true
}

/// Where the line that starts at `at` ends.
fn line_end(bytes: &[u8], at: usize) -> (res: usize)
    requires
        at <= bytes@.len(),
    ensures
        at <= res <= bytes@.len(),
        res - at == first_index(bytes@.skip(at as int), 10u8),
        bytes@.subrange(at as int, res as int) == line(bytes@.skip(at as int)),
{
    let n: usize = bytes.len();
    let mut i: usize = at;
    while i < n && bytes[i] != 10u8
        invariant
            at <= i <= n == bytes@.len(),
            forall|j: int| at <= j < i ==> bytes@[j] != 10u8,
        decreases n - i,
    {
        i += 1;
    }
    let ghost rest = bytes@.skip(at as int);
    proof {
        assert forall|j: int| 0 <= j < i - at implies rest[j] != 10u8 by {
            assert(rest[j] == bytes@[at + j]);
        }
        lemma_first_index_is(rest, 10u8, i - at);
        assert(bytes@.subrange(at as int, i as int) =~= line(rest));
    }
    i
}

/// Appends the bytes of `tail` to `out`.
fn push_bytes(out: &mut Vec<u8>, tail: &[u8])
    ensures
        final(out)@ == old(out)@ + tail@,
{
    let ghost before = out@;
    let n: usize = tail.len();
    for i in 0..n
        invariant
            n == tail@.len(),
            out@ == before + tail@.take(i as int),
    {
        out.push(tail[i]);
        assert(tail@.take(i + 1) =~= tail@.take(i as int).push(tail@[i as int]));
        assert(out@ =~= before + tail@.take(i + 1));
    }
    assert(tail@.take(n as int) =~= tail@);
}

/// Rewrites the firmware revisions of a log file that the decoder would not
/// take. Returns the bytes to decode and, if there was such a revision, the
/// last one.
pub fn normalize_firmware(bytes: &[u8]) -> (res: (Vec<u8>, Option<String>))
    ensures
        res.0@ == normalized(bytes@),
        res.1 is Some <==> reported(bytes@) is Some,
        res.1 matches Some(text) ==> reported(bytes@) == Some(text@),
{
    let needle: &[u8] = "H Firmware revision:".as_bytes();
    let mut out: Vec<u8> = Vec::new();
    let mut original: Option<String> = None;
    let n: usize = bytes.len();
    let mut i: usize = 0;
    assert(bytes@.skip(0) =~= bytes@);
    assert(out@ + normalized(bytes@) =~= normalized(bytes@));
    while i < n
        invariant
            i <= n == bytes@.len(),
            needle@ == header(),
            out@ + normalized(bytes@.skip(i as int)) == normalized(bytes@),
            reported(bytes@) == match reported(bytes@.skip(i as int)) {
                Some(text) => Some(text),
                None => match original {
                    Some(text) => Some(text@),
                    None => None,
                },
            },
        decreases n - i,
    {
        let ghost rest = bytes@.skip(i as int);
        let ghost before = out@;
        proof {
            lemma_header();
        }
        if starts_at(bytes, i, needle) {
            push_bytes(&mut out, needle);
            let start: usize = i + needle.len();
            let end = line_end(bytes, start);
            let value = slice_subrange(bytes, start, end);
            let ghost after = bytes@.skip(start as int);
            assert(rest.skip(20) =~= after);
            assert(value@ == line(after));
            assert(after.skip(value@.len() as int) =~= bytes@.skip(end as int));
            match rewrite_fw_value(value) {
                (Some(rewritten), Some(text)) => {
                    original = Some(text);
                    push_bytes(&mut out, rewritten.as_str().as_bytes());
                },
                _ => {
                    push_bytes(&mut out, value);
                },
            }
            assert(out@ =~= before + header() + normalized_value(value@));
            assert(out@ + normalized(bytes@.skip(end as int)) =~= before + normalized(rest));
            i = end;
        } else {
            out.push(bytes[i]);
            assert(rest.drop_first() =~= bytes@.skip(i + 1));
            assert(out@ + normalized(bytes@.skip(i + 1)) =~= before + normalized(rest));
            i += 1;
        }
    }
    assert(bytes@.skip(n as int) =~= Seq::<u8>::empty());
    assert(out@ + normalized(bytes@.skip(n as int)) =~= out@);
    (out, original)
}

proof fn lemma_scalar_newline(c: u32)
    requires
        vstd::utf8::is_scalar(c),
    ensures
        c == 10 ==> vstd::utf8::encode_scalar(c)[0] == 10u8,
        c != 10 ==> forall|j: int|
            0 <= j < vstd::utf8::encode_scalar(c).len() ==> #[trigger] vstd::utf8::encode_scalar(
                c,
            )[j] != 10u8,
        vstd::utf8::encode_scalar(c).len() > 0,
{
    assert(c <= 0x7f && c != 10 ==> (c & 0x7f) as u8 != 10u8) by (bit_vector);
    assert((10u32 & 0x7f) as u8 == 10u8) by (bit_vector);
    assert(0xC0u8 | ((c >> 6) & 0x1F) as u8 >= 0x80u8) by (bit_vector);
    assert(0xE0u8 | ((c >> 12) & 0x0F) as u8 >= 0x80u8) by (bit_vector);
    assert(0xF0u8 | ((c >> 18) & 0x7) as u8 >= 0x80u8) by (bit_vector);
    assert(0x80u8 | (c & 0x3F) as u8 >= 0x80u8) by (bit_vector);
    assert(0x80u8 | ((c >> 6) & 0x3F) as u8 >= 0x80u8) by (bit_vector);
    assert(0x80u8 | ((c >> 12) & 0x3F) as u8 >= 0x80u8) by (bit_vector);
}

/// The bytes of a text hold a line feed exactly where the text does.
proof fn lemma_newline(chars: Seq<char>)
    ensures
        chars.contains('\n') <==> encode_utf8(chars).contains(10u8),
    decreases chars.len(),
{
    if chars.len() > 0 {
        let first = vstd::utf8::encode_scalar(chars[0] as u32);
        let tail = chars.drop_first();
        let rest = encode_utf8(tail);
        lemma_newline(tail);
        vstd::utf8::char_is_scalar(chars[0]);
        lemma_scalar_newline(chars[0] as u32);
        if chars.contains('\n') {
            let i = choose|i: int| 0 <= i < chars.len() && chars[i] == '\n';
            if i == 0 {
                assert((first + rest)[0] == 10u8);
            } else {
                assert(tail[i - 1] == '\n');
                let j = choose|j: int| 0 <= j < rest.len() && rest[j] == 10u8;
                assert((first + rest)[first.len() + j] == 10u8);
            }
        }
        if encode_utf8(chars).contains(10u8) {
            let j = choose|j: int|
                0 <= j < encode_utf8(chars).len() && encode_utf8(chars)[j] == 10u8;
            if j < first.len() {
                assert(first[j] == 10u8);
                vstd::utf8::char_u32_cast(chars[0], 10u32);
                assert(chars[0] == '\n');
            } else {
                assert(rest[j - first.len()] == 10u8);
                let i = choose|i: int| 0 <= i < tail.len() && tail[i] == '\n';
                assert(chars[i + 1] == '\n');
            }
        }
    }
}

/// A rewritten revision keeps its words but the version, and needs no second
/// rewriting.
pub proof fn law_rewriting_settles(revision: Seq<char>)
    requires
        rewritten_revision(revision) is Some,
    ensures
        rewritten_revision(revision) matches Some(text) ==> {
            &&& firmware_kind(text) == firmware_kind(revision)
            &&& firmware_tail(text) == firmware_tail(revision)
            &&& rewritten_revision(text) is None
            &&& !revision.contains('\n') ==> !text.contains('\n')
        },
{
    let kind = firmware_kind(revision);
    let version = replacement(
        ascii_lower_text(kind),
        major_version(firmware_version(revision)),
        minor_version(firmware_version(revision)),
    )->0;
    let tail = firmware_tail(revision);
    let text = rewritten_revision(revision)->0;
    reveal_strlit("4.5.0");
    reveal_strlit("8.0.0");
    lemma_first_index(revision, ' ');
    let blank = revision.index_of(' ');
    assert(revision[blank] == ' ');
    assert(kind.len() < revision.len());
    let rest = revision.skip(kind.len() as int + 1);
    lemma_first_index(rest, ' ');
    assert(tail =~= rest.skip(first_index(rest, ' ')));
    assert(forall|j: int| 0 <= j < kind.len() ==> text[j] == kind[j] && kind[j] == revision[j]);
    assert(text[kind.len() as int] == ' ');
    lemma_first_index_is(text, ' ', kind.len() as int);
    assert(firmware_kind(text) =~= kind);
    let after = text.skip(kind.len() as int + 1);
    assert(after =~= version + tail);
    assert(forall|j: int| 0 <= j < version.len() ==> version[j] != ' ');
    lemma_first_index_is(after, ' ', version.len() as int);
    assert(firmware_version(text) =~= version);
    assert(firmware_tail(text) =~= tail);
    lemma_first_index_is(version, '.', 1);
    let digits = head(version, '.');
    assert(digits.len() == 1);
    assert(digits.drop_last() =~= Seq::<char>::empty());
    assert(crate::text::digits_value(digits.drop_last(), 10) == Ok::<int, crate::text::IntError>(
        0,
    ));
    assert(version[1] == '.');
    let later = version.skip(2);
    lemma_first_index_is(later, '.', 1);
    let minor = head(later, '.');
    assert(minor.len() == 1);
    assert(minor.drop_last() =~= Seq::<char>::empty());
    assert(crate::text::digits_value(minor.drop_last(), 10) == Ok::<int, crate::text::IntError>(0));
    assert(text.contains(' '));
    if !revision.contains('\n') && text.contains('\n') {
        let j = choose|j: int| 0 <= j < text.len() && text[j] == '\n';
        if j < kind.len() {
            assert(revision[j] == '\n');
        } else if j > kind.len() + version.len() {
            let k = j - kind.len() - 1 - version.len();
            assert(tail[k] == '\n');
            assert(revision[kind.len() + 1 + firmware_version(revision).len() + k] == '\n');
        } else if j > kind.len() {
            assert(version[j - kind.len() - 1] == '\n');
        }
    }
}

/// The value of a header in a normalized log stays within its line, and is one
/// that is left alone.
proof fn lemma_normalized_value(value: Seq<u8>)
    requires
        !value.contains(10u8),
    ensures
        !normalized_value(value).contains(10u8),
        rewritten_value(normalized_value(value)) is None,
{
    match rewritten_value(value) {
        None => {},
        Some(text) => {
            let revision = decode_utf8(value);
            vstd::utf8::decode_utf8_encode_utf8(value);
            lemma_newline(revision);
            law_rewriting_settles(revision);
            lemma_newline(text);
            vstd::utf8::encode_utf8_decode_utf8(text);
        },
    }
}

/// What stands at the front of a normalized log, up to the length of the
/// header, stood there before.
proof fn lemma_front(bytes: Seq<u8>, front: Seq<u8>)
    requires
        front.len() <= header().len(),
        front.is_prefix_of(normalized(bytes)),
    ensures
        front.is_prefix_of(bytes),
    decreases front.len(),
{
    if front.len() > 0 {
        if header().is_prefix_of(bytes) {
            let after = bytes.skip(header().len() as int);
            let tail = normalized_value(line(after)) + normalized(
                after.skip(line(after).len() as int),
            );
            assert(normalized(bytes) =~= header() + tail);
            assert forall|j: int| 0 <= j < front.len() implies front[j] == bytes[j] by {
                assert(front[j] == normalized(bytes)[j]);
                assert(header()[j] == bytes[j]);
            }
            assert(front =~= bytes.take(front.len() as int));
        } else {
            let rest = bytes.drop_first();
            let short = front.drop_first();
            assert(normalized(bytes).drop_first() =~= normalized(rest));
            assert forall|j: int| 0 <= j < short.len() implies short[j] == normalized(rest)[j] by {
                assert(front[j + 1] == normalized(bytes)[j + 1]);
            }
            assert(short =~= normalized(rest).take(short.len() as int));
            lemma_front(rest, short);
            assert(front[0] == normalized(bytes)[0]);
            assert forall|j: int| 0 <= j < front.len() implies front[j] == bytes[j] by {
                if j > 0 {
                    assert(short[j - 1] == rest[j - 1]);
                }
            }
            assert(front =~= bytes.take(front.len() as int));
        }
    }
}

/// A normalized log is one that needs no normalizing: a second pass changes no
/// byte and finds nothing to report.
pub proof fn law_normalizing_settles(bytes: Seq<u8>)
    ensures
        normalized(normalized(bytes)) == normalized(bytes),
        reported(normalized(bytes)) is None,
    decreases bytes.len(),
{
    let once = normalized(bytes);
    lemma_header();
    if bytes.len() == 0 {
    } else if header().is_prefix_of(bytes) {
        let after = bytes.skip(header().len() as int);
        let value = line(after);
        lemma_first_index(after, 10u8);
        let rest = after.skip(value.len() as int);
        law_normalizing_settles(rest);
        assert(!value.contains(10u8));
        lemma_normalized_value(value);
        let settled = normalized_value(value);
        let tail = normalized(rest);
        if rest.len() > 0 {
            assert(rest[0] == 10u8);
            if header().is_prefix_of(rest) {
                assert(header()[0] == rest[0]);
            }
            assert(tail[0] == 10u8);
        }
        assert(once =~= header() + (settled + tail));
        assert(header() =~= once.take(header().len() as int));
        assert(once.skip(header().len() as int) =~= settled + tail);
        assert forall|j: int| 0 <= j < settled.len() implies (settled + tail)[j] != 10u8 by {
            assert(settled[j] != 10u8);
        }
        lemma_first_index_is(settled + tail, 10u8, settled.len() as int);
        assert(line(settled + tail) =~= settled);
        assert((settled + tail).skip(settled.len() as int) =~= tail);
        assert(once.len() > 0);
        assert(normalized(once) =~= header() + settled + normalized(tail));
    } else {
        let rest = bytes.drop_first();
        law_normalizing_settles(rest);
        assert(once.drop_first() =~= normalized(rest));
        if header().is_prefix_of(once) {
            lemma_front(bytes, header());
        }
        assert(normalized(once) =~= once);
    }
}

/// A version is numbers with dots between them. The first is the major number and the second,
/// where there is a dot at all, the minor one; what is no number is none.
pub proof fn law_versions_are_read_by_their_dots(first: Seq<char>, second: Seq<char>, more: Seq<char>)
    requires
        !first.contains('.'),
        !second.contains('.'),
        more.len() > 0 ==> more[0] == '.',
    ensures
        minor_version(first) is None,
        ({
            let version = first + seq!['.'] + second + more;
            match integer_value(first, 10) {
                Ok(n) => major_version(version) == Some(n) && major_version(first) == Some(n),
                Err(_) => major_version(version) is None && major_version(first) is None,
            }
        }),
        ({
            let version = first + seq!['.'] + second + more;
            match integer_value(second, 10) {
                Ok(n) => minor_version(version) == Some(n),
                Err(_) => minor_version(version) is None,
            }
        }),
{
    let version = first + seq!['.'] + second + more;
    assert forall|j: int| 0 <= j < first.len() implies version[j] != '.' by {
        assert(first[j] != '.');
    }
    assert(version[first.len() as int] == '.');
    lemma_first_index_is(version, '.', first.len() as int);
    assert(head(version, '.') =~= first);
    lemma_first_index_is(first, '.', first.len() as int);
    assert(head(first, '.') =~= first);
    let rest = version.skip(first.len() as int + 1);
    assert(rest =~= second + more);
    assert forall|j: int| 0 <= j < second.len() implies rest[j] != '.' by {
        assert(second[j] != '.');
    }
    lemma_first_index_is(rest, '.', second.len() as int);
    assert(head(rest, '.') =~= second);
}

/// A revision is a firmware's name, a blank, a version, and the rest of the line from the
/// next blank on. Of Betaflight, in upper or lower case, the versions 4.2 to 4.5 stay and
/// every other one is replaced by 4.5.0; of INAV 5 to 8 stay and every other one is replaced
/// by 8.0.0. The name and the rest of the line are kept. Other firmwares stay, and so does a
/// revision without a blank.
pub proof fn law_revisions_are_rewritten_by_version(
    kind: Seq<char>,
    version: Seq<char>,
    tail: Seq<char>,
)
    requires
        !kind.contains(' '),
        !version.contains(' '),
        tail.len() > 0 ==> tail[0] == ' ',
    ensures
        rewritten_revision(kind) is None,
        ({
            let revision = kind + seq![' '] + version + tail;
            let lower = ascii_lower_text(kind);
            &&& lower == "betaflight"@ ==> (rewritten_revision(revision) is None <==> major_version(
                version,
            ) == Some(4int) && (minor_version(version) == Some(2int) || minor_version(version)
                == Some(3int) || minor_version(version) == Some(4int) || minor_version(version)
                == Some(5int)))
            &&& lower == "betaflight"@ ==> (rewritten_revision(revision) matches Some(text) ==> text
                == kind + seq![' '] + "4.5.0"@ + tail)
            &&& lower == "inav"@ ==> (rewritten_revision(revision) is None <==> major_version(version)
                == Some(5int) || major_version(version) == Some(6int) || major_version(version)
                == Some(7int) || major_version(version) == Some(8int))
            &&& lower == "inav"@ ==> (rewritten_revision(revision) matches Some(text) ==> text == kind
                + seq![' '] + "8.0.0"@ + tail)
            &&& lower != "betaflight"@ && lower != "inav"@ ==> rewritten_revision(revision) is None
        }),
{
    let revision = kind + seq![' '] + version + tail;
    reveal_strlit("betaflight");
    reveal_strlit("inav");
    assert("betaflight"@.len() != "inav"@.len());
    assert forall|j: int| 0 <= j < kind.len() implies revision[j] != ' ' by {
        assert(kind[j] != ' ');
    }
    assert(revision[kind.len() as int] == ' ');
    assert(revision.contains(' '));
    lemma_first_index_is(revision, ' ', kind.len() as int);
    assert(firmware_kind(revision) =~= kind);
    let rest = revision.skip(kind.len() as int + 1);
    assert(rest =~= version + tail);
    assert forall|j: int| 0 <= j < version.len() implies rest[j] != ' ' by {
        assert(version[j] != ' ');
    }
    lemma_first_index_is(rest, ' ', version.len() as int);
    assert(firmware_version(revision) =~= version);
    assert(firmware_tail(revision) =~= tail);
}

/// A header's value is rewritten where it is text and its revision is; else it stays.
pub proof fn law_values_are_rewritten_as_text(value: Seq<u8>)
    ensures
        header() == encode_utf8("H Firmware revision:"@),
        !valid_utf8(value) ==> rewritten_value(value) is None,
        valid_utf8(value) ==> rewritten_value(value) == rewritten_revision(decode_utf8(value)),
        rewritten_value(value) is None ==> normalized_value(value) == value,
        rewritten_value(value) matches Some(text) ==> normalized_value(value) == encode_utf8(text),
{
}

/// What is reported of a log is the last revision that is rewritten: that of a header line
/// where none of the lines behind it is.
#[verifier::rlimit(60)]
#[verifier::spinoff_prover]
pub proof fn law_the_last_rewritten_revision_is_reported(
    before: Seq<u8>,
    value: Seq<u8>,
    after: Seq<u8>,
)
    requires
        forall|i: int|
            0 <= i < before.len() ==> !header().is_prefix_of(
                #[trigger] (before + header() + value + after).skip(i),
            ),
        !value.contains(10u8),
        after.len() > 0 ==> after[0] == 10u8,
    ensures
        reported(after) is Some ==> reported(before + header() + value + after) == reported(after),
        reported(after) is None && rewritten_value(value) is Some ==> reported(
            before + header() + value + after,
        ) == Some(decode_utf8(value)),
        reported(after) is None && rewritten_value(value) is None ==> reported(
            before + header() + value + after,
        ) is None,
    decreases before.len(),
{
    let whole = before + header() + value + after;
    lemma_header();
    if before.len() == 0 {
        assert(header() =~= whole.take(header().len() as int));
        let rest = whole.skip(header().len() as int);
        assert(rest =~= value + after);
        assert forall|j: int| 0 <= j < value.len() implies rest[j] != 10u8 by {
            assert(value[j] != 10u8);
        }
        lemma_first_index_is(rest, 10u8, value.len() as int);
        assert(line(rest) =~= value);
        assert(rest.skip(value.len() as int) =~= after);
        assert(header().is_prefix_of(whole));
    } else {
        let short = before.drop_first();
        assert(whole.skip(0) =~= whole);
        assert(whole.drop_first() =~= short + header() + value + after);
        assert forall|i: int| 0 <= i < short.len() implies !header().is_prefix_of(
            #[trigger] (short + header() + value + after).skip(i),
        ) by {
            assert((short + header() + value + after).skip(i) =~= whole.skip(i + 1));
        }
        law_the_last_rewritten_revision_is_reported(short, value, after);
        assert(!header().is_prefix_of(whole));
        assert(reported(whole) == reported(short + header() + value + after));
    }
}

/// A log without the header is left as it is.
pub proof fn law_other_bytes_stay(bytes: Seq<u8>)
    requires
        forall|i: int| 0 <= i < bytes.len() ==> !header().is_prefix_of(#[trigger] bytes.skip(i)),
    ensures
        normalized(bytes) == bytes,
        reported(bytes) is None,
    decreases bytes.len(),
{
    if bytes.len() > 0 {
        let rest = bytes.drop_first();
        assert(bytes.skip(0) =~= bytes);
        assert forall|i: int| 0 <= i < rest.len() implies !header().is_prefix_of(
            #[trigger] rest.skip(i),
        ) by {
            assert(rest.skip(i) =~= bytes.skip(i + 1));
        }
        law_other_bytes_stay(rest);
        assert(normalized(bytes) =~= bytes);
    }
}

/// One header line is rewritten on its own: the bytes in front of it stay, and
/// what follows the line is normalized as it would be alone.
#[verifier::rlimit(60)]
#[verifier::spinoff_prover]
pub proof fn law_header_line(before: Seq<u8>, value: Seq<u8>, after: Seq<u8>)
    requires
        forall|i: int|
            0 <= i < before.len() ==> !header().is_prefix_of(
                #[trigger] (before + header() + value + after).skip(i),
            ),
        !value.contains(10u8),
        after.len() > 0 ==> after[0] == 10u8,
    ensures
        normalized(before + header() + value + after) == before + header() + normalized_value(value)
            + normalized(after),
    decreases before.len(),
{
    let whole = before + header() + value + after;
    lemma_header();
    if before.len() == 0 {
        assert(header() =~= whole.take(header().len() as int));
        let rest = whole.skip(header().len() as int);
        assert(rest =~= value + after);
        assert forall|j: int| 0 <= j < value.len() implies rest[j] != 10u8 by {
            assert(value[j] != 10u8);
        }
        lemma_first_index_is(rest, 10u8, value.len() as int);
        assert(line(rest) =~= value);
        assert(rest.skip(value.len() as int) =~= after);
        assert(normalized(whole) =~= before + header() + normalized_value(value) + normalized(
            after,
        ));
    } else {
        let short = before.drop_first();
        assert(whole.skip(0) =~= whole);
        assert(whole.drop_first() =~= short + header() + value + after);
        assert forall|i: int| 0 <= i < short.len() implies !header().is_prefix_of(
            #[trigger] (short + header() + value + after).skip(i),
        ) by {
            assert((short + header() + value + after).skip(i) =~= whole.skip(i + 1));
        }
        law_header_line(short, value, after);
        assert(normalized(whole) =~= before + header() + normalized_value(value) + normalized(
            after,
        ));
    }
}

} // verus!
