//! Trusted bindings to the outside crates and to the parts of std that vstd
//! does not specify. Every item here is believed without proof.

use vstd::prelude::*;
use vstd::utf8::*;

verus! {

/// Declares `memmap2::Mmap`, a read-only memory map of a file, so that it can
/// be held in the library's types.
#[verifier::external_type_specification]
#[verifier::external_body]
pub struct ExMmap(memmap2::Mmap);

/// The bytes that a memory map holds. The map is read-only, so it holds the
/// same bytes for as long as it lives (provided the mapped file is not changed
/// by another process, which `memmap2::Mmap::map` leaves to its caller).
pub uninterp spec fn mapped_contents(m: memmap2::Mmap) -> Seq<u8>;

/// `<memmap2::Mmap as Deref>::deref`: the mapped bytes as a slice. The slice
/// is exactly the map's contents.
#[verifier::external_body]
pub fn mapped_bytes(m: &memmap2::Mmap) -> (bytes: &[u8])
    ensures
        bytes@ == mapped_contents(*m),
{
    &**m
}

/// `memchr::memchr`: the index of the first occurrence of `needle` in
/// `haystack`, or `None` when it does not occur.
#[verifier::external_body]
pub fn find_byte(needle: u8, haystack: &[u8]) -> (found: Option<usize>)
    ensures
        match found {
            Some(i) => i < haystack@.len() && haystack@[i as int] == needle
                && forall|j: int| 0 <= j < i ==> haystack@[j] != needle,
            None => forall|j: int| 0 <= j < haystack@.len() ==> haystack@[j] != needle,
        },
{
    memchr::memchr(needle, haystack)
}

/// `std::str::from_utf8`, reduced to whether it succeeds: it succeeds exactly
/// when the bytes are well-formed UTF-8.
#[verifier::external_body]
pub fn is_valid_utf8(bytes: &[u8]) -> (valid: bool)
    ensures
        valid == valid_utf8(bytes@),
{
    std::str::from_utf8(bytes).is_ok()
}

} // verus!

verus! {

/// Whether a top-level domain label is accepted by `chardetng`: it holds no
/// upper-case ASCII letter, no period and no non-ASCII byte.
pub open spec fn is_plain_tld(tld: Seq<u8>) -> bool {
    forall|i: int|
        0 <= i < tld.len() ==> tld[i] < 0x80 && tld[i] != 0x2Eu8 && !(0x41u8 <= tld[i] <= 0x5Au8)
}

/// The name of the encoding that `chardetng` guesses for a byte stream.
pub uninterp spec fn guessed_encoding_name(
    stream: Seq<u8>,
    last: bool,
    tld: Seq<u8>,
    allow_utf8: bool,
) -> Seq<char>;

/// `chardetng::EncodingDetector::guess`, on a fresh detector that has been fed
/// `stream` in one call of `feed(stream, last)`; the guessed encoding is
/// returned by its `encoding_rs` name. Which encoding is guessed is only named;
/// the name is that of an `encoding_rs` encoding, and every such name is also
/// one of its labels, so `Encoding::for_label` finds an encoding for it and
/// any bytes decode with it.
#[verifier::external_body]
pub fn guess_encoding(stream: &[u8], last: bool, tld: &[u8], allow_utf8: bool) -> (name: String)
    requires
        is_plain_tld(tld@),
    ensures
        name@ == guessed_encoding_name(stream@, last, tld@, allow_utf8),
        forall|bytes: Seq<u8>| #[trigger] decoded_text(name@, bytes) is Some,
{
    let mut detector = chardetng::EncodingDetector::new();
    detector.feed(stream, last);
    detector.guess(Some(tld), allow_utf8).name().to_string()
}

/// Whether the bytes begin with a byte order mark that `encoding_rs` sniffs
/// (UTF-8, UTF-16LE or UTF-16BE).
pub open spec fn starts_with_sniffed_bom(bytes: Seq<u8>) -> bool {
    ||| (bytes.len() >= 3 && bytes[0] == 0xEFu8 && bytes[1] == 0xBBu8 && bytes[2] == 0xBFu8)
    ||| (bytes.len() >= 2 && bytes[0] == 0xFFu8 && bytes[1] == 0xFEu8)
    ||| (bytes.len() >= 2 && bytes[0] == 0xFEu8 && bytes[1] == 0xFFu8)
}

/// The 16-bit code units of `bytes`, two bytes each, in little-endian or
/// big-endian byte order (a final odd byte is left out).
pub open spec fn utf16_units(bytes: Seq<u8>, little_endian: bool) -> Seq<int> {
    Seq::new(
        bytes.len() / 2,
        |i: int|
            if little_endian {
                bytes[2 * i] + 256 * bytes[2 * i + 1]
            } else {
                256 * bytes[2 * i] + bytes[2 * i + 1]
            },
    )
}

/// The characters that UTF-16 code units stand for, a surrogate pair making
/// one character; `None` when a surrogate is not paired.
pub open spec fn decode_utf16(units: Seq<int>) -> Option<Seq<char>>
    decreases units.len(),
{
    if units.len() == 0 {
        Some(Seq::empty())
    } else {
        let u = units[0];
        if u < 0xD800 || u > 0xDFFF {
            match decode_utf16(units.drop_first()) {
                Some(rest) => Some(seq![u as char] + rest),
                None => None,
            }
        } else if u <= 0xDBFF && units.len() >= 2 && 0xDC00 <= units[1] <= 0xDFFF {
            match decode_utf16(units.subrange(2, units.len() as int)) {
                Some(rest) => Some(
                    seq![(0x10000 + (u - 0xD800) * 0x400 + (units[1] - 0xDC00)) as char] + rest,
                ),
                None => None,
            }
        } else {
            None
        }
    }
}

/// The text that `encoding_rs` decodes from `bytes` with the encoding that
/// `label` names, or `None` when `label` names no encoding.
pub uninterp spec fn decoded_text(label: Seq<char>, bytes: Seq<u8>) -> Option<Seq<char>>;

/// `encoding_rs::Encoding::decode` (with BOM sniffing and replacement of
/// malformed sequences), on the encoding that `Encoding::for_label` finds for
/// `label`. The labels "UTF-8", "UTF-16LE" and "UTF-16BE" name encodings; UTF-8
/// input that is well-formed and starts with no byte order mark is decoded to
/// exactly the characters it encodes, and so is well-formed UTF-16 input of
/// whole code units that starts with no byte order mark. What other labels and
/// bytes decode to is only named.
#[verifier::external_body]
pub fn decode_with_label(label: &str, bytes: &[u8]) -> (text: Option<String>)
    ensures
        text is Some <==> decoded_text(label@, bytes@) is Some,
        text matches Some(t) ==> decoded_text(label@, bytes@) == Some(t@),
        label@ == "UTF-8"@ ==> text is Some,
        label@ == "UTF-16LE"@ ==> text is Some,
        label@ == "UTF-16BE"@ ==> text is Some,
        text matches Some(t) ==> (label@ == "UTF-8"@ && valid_utf8(bytes@)
            && !starts_with_sniffed_bom(bytes@) ==> t@ == decode_utf8(bytes@)),
        text matches Some(t) ==> (label@ == "UTF-16LE"@ && bytes@.len() % 2 == 0
            && !starts_with_sniffed_bom(bytes@) && decode_utf16(utf16_units(bytes@, true)) is Some
            ==> Some(t@) == decode_utf16(utf16_units(bytes@, true))),
        text matches Some(t) ==> (label@ == "UTF-16BE"@ && bytes@.len() % 2 == 0
            && !starts_with_sniffed_bom(bytes@) && decode_utf16(utf16_units(bytes@, false)) is Some
            ==> Some(t@) == decode_utf16(utf16_units(bytes@, false))),
{
    match encoding_rs::Encoding::for_label(label.as_bytes()) {
        Some(encoding) => Some(encoding.decode(bytes).0.into_owned()),
        None => None,
    }
}

} // verus!

verus! {

/// `<String as FromIterator<char>>::from_iter`: the string made of the given
/// characters, in order.
#[verifier::external_body]
pub fn string_from_chars(chars: &[char]) -> (text: String)
    ensures
        text@ == chars@,
{
    chars.iter().collect()
}

} // verus!

verus! {

/// What `str::to_lowercase` makes of a string (Unicode lower-case mapping).
pub uninterp spec fn lowercase_of(text: Seq<char>) -> Seq<char>;

/// `str::to_lowercase`. What it returns is only named.
#[verifier::external_body]
pub fn to_lowercase(text: &str) -> (lower: String)
    ensures
        lower@ == lowercase_of(text@),
{
    text.to_lowercase()
}

/// Whether a character has the Unicode `White_Space` property, which is what
/// `str::trim` removes.
pub open spec fn is_white_space(c: char) -> bool {
    let v = c as u32;
    ||| 0x09 <= v <= 0x0D
    ||| v == 0x20
    ||| v == 0x85
    ||| v == 0xA0
    ||| v == 0x1680
    ||| 0x2000 <= v <= 0x200A
    ||| v == 0x2028
    ||| v == 0x2029
    ||| v == 0x202F
    ||| v == 0x205F
    ||| v == 0x3000
}

/// `text` without its leading white space.
pub open spec fn trim_start_of(text: Seq<char>) -> Seq<char>
    decreases text.len(),
{
    if text.len() > 0 && is_white_space(text[0]) {
        trim_start_of(text.drop_first())
    } else {
        text
    }
}

/// `text` without its trailing white space.
pub open spec fn trim_end_of(text: Seq<char>) -> Seq<char>
    decreases text.len(),
{
    if text.len() > 0 && is_white_space(text.last()) {
        trim_end_of(text.drop_last())
    } else {
        text
    }
}

/// What `str::trim` leaves of a string: leading and trailing white space
/// removed.
pub open spec fn trimmed_of(text: Seq<char>) -> Seq<char> {
    trim_end_of(trim_start_of(text))
}

/// `str::trim`: the string without its leading and trailing white space.
#[verifier::external_body]
pub fn trim(text: &str) -> (trimmed: &str)
    ensures
        trimmed@ == trimmed_of(text@),
{
    text.trim()
}

} // verus!

verus! {

/// What `char::to_lowercase` yields for a character (its Unicode lower-case
/// mapping, one or more characters).
pub uninterp spec fn char_lowercase_of(c: char) -> Seq<char>;

/// `char::to_lowercase`, collected. What it yields is only named.
#[verifier::external_body]
pub fn char_to_lowercase(c: char) -> (lower: Vec<char>)
    ensures
        lower@ == char_lowercase_of(c),
{
    c.to_lowercase().collect()
}

} // verus!
