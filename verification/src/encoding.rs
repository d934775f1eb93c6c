//! Text encodings: which encoding a file is read in, how it is detected from
//! the file's first bytes, and how long its byte order mark is.

use vstd::prelude::*;
use vstd::string::*;
use vstd::utf8::*;
use crate::bindings::{decoded_text, guess_encoding, guessed_encoding_name, is_valid_utf8};

verus! {

/// How many bytes at the start of a file encoding detection looks at.
pub const DETECT_SAMPLE_SIZE: usize = 262144;

/// The encoding a file's bytes are decoded in. `Detected` holds the
/// `encoding_rs` name of an encoding other than the three Unicode ones.
pub enum TextEncoding {
    Utf8,
    Utf16Le,
    Utf16Be,
    Detected(String),
}

impl TextEncoding {
    /// The `encoding_rs` name of the encoding.
    pub open spec fn label(&self) -> Seq<char> {
        match self {
            TextEncoding::Utf8 => "UTF-8"@,
            TextEncoding::Utf16Le => "UTF-16LE"@,
            TextEncoding::Utf16Be => "UTF-16BE"@,
            TextEncoding::Detected(name) => name@,
        }
    }

    /// A detected encoding is never one of the three named variants.
    pub open spec fn wf(&self) -> bool {
        match self {
            TextEncoding::Detected(name) => name@ != "UTF-8"@ && name@ != "UTF-16LE"@ && name@
                != "UTF-16BE"@,
            _ => true,
        }
    }

    /// Whether lines are made of 16-bit code units.
    pub open spec fn is_utf16(&self) -> bool {
        self is Utf16Le || self is Utf16Be
    }

    /// The encoding that an `encoding_rs` name stands for.
    pub fn from_name(name: String) -> (encoding: TextEncoding)
        ensures
            encoding.wf(),
            encoding.label() == name@,
    {
        if name == String::from_str("UTF-8") {
            TextEncoding::Utf8
        } else if name == String::from_str("UTF-16LE") {
            TextEncoding::Utf16Le
        } else if name == String::from_str("UTF-16BE") {
            TextEncoding::Utf16Be
        } else {
            TextEncoding::Detected(name)
        }
    }

    /// The `encoding_rs` name of the encoding.
    pub fn name(&self) -> (name: String)
        ensures
            name@ == self.label(),
    {
        match self {
            TextEncoding::Utf8 => String::from_str("UTF-8"),
            TextEncoding::Utf16Le => String::from_str("UTF-16LE"),
            TextEncoding::Utf16Be => String::from_str("UTF-16BE"),
            TextEncoding::Detected(name) => name.clone(),
        }
    }

    /// Whether lines are made of 16-bit code units.
    pub fn is_utf16_exec(&self) -> (b: bool)
        ensures
            b == self.is_utf16(),
    {
        match self {
            TextEncoding::Utf16Le | TextEncoding::Utf16Be => true,
            _ => false,
        }
    }
}

impl Clone for TextEncoding {
    fn clone(&self) -> (copy: Self)
        ensures
            copy == *self,
    {
        match self {
            TextEncoding::Utf8 => TextEncoding::Utf8,
            TextEncoding::Utf16Le => TextEncoding::Utf16Le,
            TextEncoding::Utf16Be => TextEncoding::Utf16Be,
            TextEncoding::Detected(name) => TextEncoding::Detected(name.clone()),
        }
    }
}

/// The UTF-8 byte order mark.
pub open spec fn utf8_bom() -> Seq<u8> {
    seq![0xEFu8, 0xBBu8, 0xBFu8]
}

/// The UTF-16LE byte order mark.
pub open spec fn utf16le_bom() -> Seq<u8> {
    seq![0xFFu8, 0xFEu8]
}

/// The UTF-16BE byte order mark.
pub open spec fn utf16be_bom() -> Seq<u8> {
    seq![0xFEu8, 0xFFu8]
}

/// Whether `data` begins with `prefix`.
pub open spec fn starts_with(data: Seq<u8>, prefix: Seq<u8>) -> bool {
    prefix.len() <= data.len() && data.subrange(0, prefix.len() as int) == prefix
}

/// The first bytes of a file that detection looks at.
pub open spec fn detection_sample(data: Seq<u8>) -> Seq<u8> {
    if data.len() <= DETECT_SAMPLE_SIZE {
        data
    } else {
        data.subrange(0, DETECT_SAMPLE_SIZE as int)
    }
}

/// The byte length of the UTF-8 character that `byte` starts; 0 for a byte
/// that cannot start one.
pub open spec fn utf8_char_width(byte: u8) -> int {
    if is_leading_byte_width_1(byte) {
        1
    } else if is_leading_byte_width_2(byte) {
        2
    } else if is_leading_byte_width_3(byte) {
        3
    } else if is_leading_byte_width_4(byte) {
        4
    } else {
        0
    }
}

/// For data longer than the detection sample: where the character that the
/// sample's end may cut starts, that is the first of the bytes at the
/// sample's end and the three before it, going back, that is no continuation
/// byte (the sample's end itself when there is none).
pub open spec fn cut_char_start(data: Seq<u8>) -> int {
    let n = DETECT_SAMPLE_SIZE as int;
    if !is_continuation_byte(data[n]) {
        n
    } else if !is_continuation_byte(data[n - 1]) {
        n - 1
    } else if !is_continuation_byte(data[n - 2]) {
        n - 2
    } else if !is_continuation_byte(data[n - 3]) {
        n - 3
    } else {
        n
    }
}

/// Where the UTF-8 check of a file's start ends: at the end of the detection
/// sample, or, where a character starts inside the sample and its lead byte
/// says it goes on past the sample's end, at that character's end (at the end
/// of the data if the data ends first). A character cut by the sample's end
/// is so checked whole, and a malformed one still fails the check.
pub open spec fn utf8_check_end(data: Seq<u8>) -> int {
    let n = DETECT_SAMPLE_SIZE as int;
    if data.len() <= n {
        data.len() as int
    } else {
        let b = cut_char_start(data);
        let end = b + utf8_char_width(data[b]);
        if b < n && end > n {
            if end < data.len() {
                end
            } else {
                data.len() as int
            }
        } else {
            n
        }
    }
}

/// The top-level domain that biases detection towards Traditional Chinese
/// encodings (Big5 with HKSCS): "hk".
pub open spec fn hint_tld() -> Seq<u8> {
    seq![0x68u8, 0x6Bu8]
}

/// The name of the encoding a file is read in: a byte order mark decides
/// first; a start that is well-formed UTF-8 (the detection sample, with the
/// character that its end cuts checked to that character's end) is read as
/// UTF-8; otherwise `chardetng` guesses from the sample.
pub open spec fn detected_label(data: Seq<u8>) -> Seq<char> {
    if starts_with(data, utf8_bom()) {
        "UTF-8"@
    } else if starts_with(data, utf16le_bom()) {
        "UTF-16LE"@
    } else if starts_with(data, utf16be_bom()) {
        "UTF-16BE"@
    } else if valid_utf8(data.subrange(0, utf8_check_end(data))) {
        "UTF-8"@
    } else {
        guessed_encoding_name(detection_sample(data), true, hint_tld(), true)
    }
}

fn starts_with_utf8_bom(data: &[u8]) -> (b: bool)
    ensures
        b == starts_with(data@, utf8_bom()),
{
    let b = data.len() >= 3 && data[0] == 0xEF && data[1] == 0xBB && data[2] == 0xBF;
    proof {
        if data@.len() >= 3 {
            if b {
                assert(data@.subrange(0, 3) =~= utf8_bom());
            } else {
                assert(data@.subrange(0, 3)[0] == data@[0]);
                assert(data@.subrange(0, 3)[1] == data@[1]);
                assert(data@.subrange(0, 3)[2] == data@[2]);
            }
        }
    }
    b
}

fn starts_with_pair(data: &[u8], first: u8, second: u8) -> (b: bool)
    ensures
        b == starts_with(data@, seq![first, second]),
{
    let b = data.len() >= 2 && data[0] == first && data[1] == second;
    proof {
        if data@.len() >= 2 {
            if b {
                assert(data@.subrange(0, 2) =~= seq![first, second]);
            } else {
                assert(data@.subrange(0, 2)[0] == data@[0]);
                assert(data@.subrange(0, 2)[1] == data@[1]);
            }
        }
    }
    b
}

fn is_continuation(byte: u8) -> (b: bool)
    ensures
        b == is_continuation_byte(byte),
{
    0x80 <= byte && byte <= 0xBF
}

fn char_width(byte: u8) -> (w: usize)
    ensures
        w == utf8_char_width(byte),
{
    if byte <= 0x7F {
        1
    } else if 0xC0 <= byte && byte <= 0xDF {
        2
    } else if 0xE0 <= byte && byte <= 0xEF {
        3
    } else if 0xF0 <= byte && byte <= 0xF7 {
        4
    } else {
        0
    }
}

fn check_end_past_sample(data: &[u8]) -> (e: usize)
    requires
        data@.len() > DETECT_SAMPLE_SIZE,
    ensures
        e == utf8_check_end(data@),
{
    let n = DETECT_SAMPLE_SIZE;
    let b = if !is_continuation(data[n]) {
        n
    } else if !is_continuation(data[n - 1]) {
        n - 1
    } else if !is_continuation(data[n - 2]) {
        n - 2
    } else if !is_continuation(data[n - 3]) {
        n - 3
    } else {
        n
    };
    let end = b + char_width(data[b]);
    if b < n && end > n {
        if end < data.len() {
            end
        } else {
            data.len()
        }
    } else {
        n
    }
}

/// Detects the encoding of a file from its bytes.
pub fn detect_encoding(data: &[u8]) -> (encoding: TextEncoding)
    ensures
        encoding.wf(),
        encoding.label() == detected_label(data@),
        encoding is Detected ==> forall|bytes: Seq<u8>|
            #[trigger] decoded_text(encoding.label(), bytes) is Some,
{
    if starts_with_utf8_bom(data) {
        return TextEncoding::Utf8;
    }
    if starts_with_pair(data, 0xFF, 0xFE) {
        return TextEncoding::Utf16Le;
    }
    if starts_with_pair(data, 0xFE, 0xFF) {
        return TextEncoding::Utf16Be;
    }
    let sample_len = if data.len() <= DETECT_SAMPLE_SIZE {
        data.len()
    } else {
        DETECT_SAMPLE_SIZE
    };
    let check_end = if data.len() <= DETECT_SAMPLE_SIZE {
        data.len()
    } else {
        check_end_past_sample(data)
    };
    if is_valid_utf8(vstd::slice::slice_subrange(data, 0, check_end)) {
        return TextEncoding::Utf8;
    }
    let sample = vstd::slice::slice_subrange(data, 0, sample_len);
    assert(sample@ =~= detection_sample(data@));
    let tld: [u8; 2] = [0x68, 0x6B];
    let tld_slice = tld.as_slice();
    assert(tld_slice@ =~= hint_tld());
    let name = guess_encoding(sample, true, tld_slice, true);
    TextEncoding::from_name(name)
}

/// The length of the byte order mark at the start of `data` that belongs to
/// `encoding`: 3 for UTF-8, 2 for UTF-16, 0 when there is none.
pub open spec fn bom_len_spec(data: Seq<u8>, encoding: TextEncoding) -> nat {
    if encoding is Utf8 && starts_with(data, utf8_bom()) {
        3
    } else if (encoding is Utf16Le && starts_with(data, utf16le_bom())) || (encoding is Utf16Be
        && starts_with(data, utf16be_bom())) {
        2
    } else {
        0
    }
}

/// The length of the byte order mark of `encoding` at the start of `data`.
pub fn bom_length(data: &[u8], encoding: &TextEncoding) -> (len: usize)
    ensures
        len == bom_len_spec(data@, *encoding),
        len <= data@.len(),
{
    match encoding {
        TextEncoding::Utf8 => {
            if starts_with_utf8_bom(data) {
                3
            } else {
                0
            }
        },
        TextEncoding::Utf16Le => {
            if starts_with_pair(data, 0xFF, 0xFE) {
                2
            } else {
                0
            }
        },
        TextEncoding::Utf16Be => {
            if starts_with_pair(data, 0xFE, 0xFF) {
                2
            } else {
                0
            }
        },
        TextEncoding::Detected(_) => 0,
    }
}

/// A byte order mark decides the encoding, and it is exactly the mark that
/// the first line starts after: 3 bytes for UTF-8, 2 for UTF-16.
pub proof fn lemma_bom_decides_and_is_skipped(data: Seq<u8>, encoding: TextEncoding)
    requires
        encoding.wf(),
        encoding.label() == detected_label(data),
    ensures
        starts_with(data, utf8_bom()) ==> encoding is Utf8 && bom_len_spec(data, encoding) == 3,
        !starts_with(data, utf8_bom()) && starts_with(data, utf16le_bom()) ==> encoding is Utf16Le
            && bom_len_spec(data, encoding) == 2,
        !starts_with(data, utf8_bom()) && !starts_with(data, utf16le_bom()) && starts_with(
            data,
            utf16be_bom(),
        ) ==> encoding is Utf16Be && bom_len_spec(data, encoding) == 2,
        !starts_with(data, utf8_bom()) && !starts_with(data, utf16le_bom()) && !starts_with(
            data,
            utf16be_bom(),
        ) ==> bom_len_spec(data, encoding) == 0,
{
    reveal_strlit("UTF-8");
    reveal_strlit("UTF-16LE");
    reveal_strlit("UTF-16BE");
    assert("UTF-8"@ != "UTF-16LE"@) by {
        assert("UTF-8"@.len() != "UTF-16LE"@.len());
    }
    assert("UTF-8"@ != "UTF-16BE"@) by {
        assert("UTF-8"@.len() != "UTF-16BE"@.len());
    }
    assert("UTF-16LE"@ != "UTF-16BE"@) by {
        assert("UTF-16LE"@[6] != "UTF-16BE"@[6]);
    }
}

/// In well-formed UTF-8, one of any four consecutive bytes starts a
/// character.
proof fn lemma_char_start_within_four(bytes: Seq<u8>, i: int)
    requires
        valid_utf8(bytes),
        0 <= i,
        i + 3 < bytes.len(),
    ensures
        exists|k: int| i <= k <= i + 3 && #[trigger] is_char_boundary(bytes, k),
    decreases bytes.len(),
{
    let l = length_of_first_scalar(bytes);
    let rest = pop_first_scalar(bytes);
    assert(1 <= l <= 4);
    if i == 0 {
        assert(is_char_boundary(bytes, 0));
    } else if i <= l {
        assert(is_char_boundary(rest, 0));
        assert(is_char_boundary(bytes, l));
    } else {
        lemma_char_start_within_four(rest, i - l);
        let k = choose|k: int| i - l <= k <= i - l + 3 && #[trigger] is_char_boundary(rest, k);
        assert(is_char_boundary(bytes, k + l));
    }
}

/// In well-formed UTF-8, the character that starts at a boundary `i` ends
/// inside the data, where the next boundary is.
proof fn lemma_next_boundary(bytes: Seq<u8>, i: int)
    requires
        valid_utf8(bytes),
        0 <= i < bytes.len(),
        is_char_boundary(bytes, i),
    ensures
        1 <= utf8_char_width(bytes[i]),
        i + utf8_char_width(bytes[i]) <= bytes.len(),
        is_char_boundary(bytes, i + utf8_char_width(bytes[i])),
    decreases bytes.len(),
{
    let l = length_of_first_scalar(bytes);
    let rest = pop_first_scalar(bytes);
    if i == 0 {
        assert(is_char_boundary(rest, 0));
    } else {
        assert(is_char_boundary(rest, i - l));
        assert(i - l >= 0) by {
            if i - l < 0 {
            }
        }
        assert(rest[i - l] == bytes[i]);
        lemma_next_boundary(rest, i - l);
    }
}

/// A file that is well-formed UTF-8 is read as UTF-8.
pub proof fn lemma_utf8_file_reads_as_utf8(data: Seq<u8>)
    requires
        valid_utf8(data),
    ensures
        detected_label(data) == "UTF-8"@,
{
    if starts_with(data, utf8_bom()) {
    } else if starts_with(data, utf16le_bom()) || starts_with(data, utf16be_bom()) {
        assert(data.subrange(0, 2)[0] == data[0]);
        assert(!valid_first_scalar(data));
    } else {
        let e = utf8_check_end(data);
        let n = DETECT_SAMPLE_SIZE as int;
        if data.len() <= n {
            assert(data.subrange(0, e) =~= data);
        } else {
            let b = cut_char_start(data);
            is_char_boundary_iff_not_is_continuation_byte(data, n);
            if is_continuation_byte(data[n]) {
                lemma_char_start_within_four(data, n - 3);
                let k = choose|k: int| n - 3 <= k <= n && #[trigger] is_char_boundary(data, k);
                is_char_boundary_iff_not_is_continuation_byte(data, k);
                is_char_boundary_iff_not_is_continuation_byte(data, b);
                assert(b < n);
                lemma_next_boundary(data, b);
                let end = b + utf8_char_width(data[b]);
                if end <= n {
                    is_char_boundary_iff_not_is_continuation_byte(data, end);
                    assert(false);
                }
                assert(e == end);
            }
            valid_utf8_split(data, e);
        }
    }
}

} // verus!
