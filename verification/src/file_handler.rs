//! An opened text file: its memory map, detected encoding and line index,
//! and the decoded text of each line.

use vstd::prelude::*;
use vstd::string::*;
use vstd::utf8::*;
use crate::bindings::{
    decode_utf16,
    decode_with_label,
    decoded_text,
    mapped_bytes,
    mapped_contents,
    starts_with_sniffed_bom,
    utf16_units,
};
use crate::encoding::{
    bom_len_spec,
    bom_length,
    detect_encoding,
    detected_label,
    lemma_utf8_file_reads_as_utf8,
    starts_with,
    utf8_bom,
    TextEncoding,
};
use crate::line_index::{
    break_ends_at,
    build_line_index,
    drop_suffix,
    ends_with,
    is_line_index,
    is_line_start,
    trim_line_ending,
    trimmed_line,
};

verus! {

/// The largest file the viewer opens: 4 GiB.
pub const MAX_FILE_SIZE: u64 = 4 * 1024 * 1024 * 1024;

/// Why a file is refused.
pub enum OpenError {
    /// The file is larger than `MAX_FILE_SIZE`.
    TooLarge { file_size: u64 },
}

/// Accepts a file size up to `MAX_FILE_SIZE` and refuses a larger one.
pub fn check_file_size(file_size: u64) -> (result: Result<(), OpenError>)
    ensures
        result is Ok <==> file_size <= MAX_FILE_SIZE,
        result matches Err(OpenError::TooLarge { file_size: size }) ==> size == file_size,
{
    if file_size > MAX_FILE_SIZE {
        Err(OpenError::TooLarge { file_size })
    } else {
        Ok(())
    }
}

/// A file opened for viewing.
pub struct FileHandler {
    mmap: memmap2::Mmap,
    line_offsets: Vec<usize>,
    encoding: TextEncoding,
    total_lines: usize,
    file_name: String,
    file_size: u64,
    encoding_name: String,
}

impl FileHandler {
    /// The file's bytes.
    pub closed spec fn data(&self) -> Seq<u8> {
        mapped_contents(self.mmap)
    }

    /// The encoding the file is read in.
    pub closed spec fn encoding(&self) -> TextEncoding {
        self.encoding
    }

    /// The offset of each line's first byte.
    pub closed spec fn offsets(&self) -> Seq<usize> {
        self.line_offsets@
    }

    /// The file's name.
    pub closed spec fn spec_file_name(&self) -> Seq<char> {
        self.file_name@
    }

    /// The file's size in bytes, as the file system reported it.
    pub closed spec fn spec_file_size(&self) -> u64 {
        self.file_size
    }

    /// The length of the byte order mark that the first line starts after.
    pub open spec fn first_line_start(&self) -> int {
        bom_len_spec(self.data(), self.encoding()) as int
    }

    /// The handler describes its file: the encoding is the detected one, the
    /// line index is that of the data, and the public fields agree.
    pub closed spec fn wf(&self) -> bool {
        &&& self.data().len() <= usize::MAX
        &&& self.encoding().wf()
        &&& self.encoding().label() == detected_label(self.data())
        &&& (self.encoding() is Detected ==> forall|bytes: Seq<u8>|
            #[trigger] decoded_text(self.encoding().label(), bytes) is Some)
        &&& is_line_index(self.data(), self.encoding(), self.first_line_start(), self.offsets())
        &&& self.total_lines == self.offsets().len()
        &&& self.encoding_name@ == self.encoding().label()
    }

    /// The byte range `[start, end)` of line `i`: from its start to the start
    /// of the next line, or to the end of the data for the last line.
    pub open spec fn line_range(&self, i: int) -> Option<(int, int)> {
        if 0 <= i < self.offsets().len() {
            let end = if i + 1 < self.offsets().len() {
                self.offsets()[i + 1] as int
            } else {
                self.data().len() as int
            };
            Some((self.offsets()[i] as int, end))
        } else {
            None
        }
    }

    /// The bytes of line `i`, its terminator included.
    pub open spec fn line_bytes(&self, i: int) -> Seq<u8>
        recommends
            0 <= i < self.offsets().len(),
    {
        let (start, end) = self.line_range(i).unwrap();
        self.data().subrange(start, end)
    }

    /// The text of line `i`: its bytes without the terminator, decoded in the
    /// file's encoding; empty when there is no such line.
    pub open spec fn line_text(&self, i: int) -> Seq<char> {
        if 0 <= i < self.offsets().len() {
            match decoded_text(
                self.encoding().label(),
                trimmed_line(self.line_bytes(i), self.encoding()),
            ) {
                Some(text) => text,
                None => Seq::empty(),
            }
        } else {
            Seq::empty()
        }
    }

    /// Indexes a mapped file: detects its encoding, skips its byte order mark
    /// and finds where each line starts.
    pub fn from_mapping(mmap: memmap2::Mmap, file_name: String, file_size: u64) -> (handler:
        FileHandler)
        ensures
            handler.wf(),
            handler.data() == mapped_contents(mmap),
            handler.spec_file_name() == file_name@,
            handler.spec_file_size() == file_size,
    {
        let data = mapped_bytes(&mmap);
        assert(data@.len() == data.len());
        let encoding = detect_encoding(data);
        let bom_len = bom_length(data, &encoding);
        let line_offsets = build_line_index(data, &encoding, bom_len);
        let total_lines = line_offsets.len();
        let encoding_name = encoding.name();
        FileHandler {
            mmap,
            line_offsets,
            encoding,
            total_lines,
            file_name,
            file_size,
            encoding_name,
        }
    }

    /// The number of lines.
    pub fn total_lines(&self) -> (n: usize)
        requires
            self.wf(),
        ensures
            n == self.offsets().len(),
    {
        self.total_lines
    }

    /// The file's name.
    pub fn file_name(&self) -> (name: &String)
        ensures
            name@ == self.spec_file_name(),
    {
        &self.file_name
    }

    /// The file's size in bytes.
    pub fn file_size(&self) -> (size: u64)
        ensures
            size == self.spec_file_size(),
    {
        self.file_size
    }

    /// The `encoding_rs` name of the file's encoding.
    pub fn encoding_name(&self) -> (name: &String)
        requires
            self.wf(),
        ensures
            name@ == self.encoding().label(),
    {
        &self.encoding_name
    }

    /// The byte range of line `line_idx`, or `None` past the last line.
    pub fn line_bounds(&self, line_idx: usize) -> (bounds: Option<(usize, usize)>)
        requires
            self.wf(),
        ensures
            match bounds {
                Some((start, end)) => self.line_range(line_idx as int) == Some(
                    (start as int, end as int),
                ),
                None => self.line_range(line_idx as int) is None,
            },
    {
        if line_idx >= self.line_offsets.len() {
            return None;
        }
        let start = self.line_offsets[line_idx];
        let end = if line_idx + 1 < self.line_offsets.len() {
            self.line_offsets[line_idx + 1]
        } else {
            mapped_bytes(&self.mmap).len()
        };
        Some((start, end))
    }

    /// The text of line `line_idx`, without its terminator; empty past the
    /// last line.
    pub fn get_line(&self, line_idx: usize) -> (text: String)
        requires
            self.wf(),
        ensures
            text@ == self.line_text(line_idx as int),
            line_idx < self.offsets().len() ==> decoded_text(
                self.encoding().label(),
                trimmed_line(self.line_bytes(line_idx as int), self.encoding()),
            ) == Some(text@),
            ({
                let t = trimmed_line(self.line_bytes(line_idx as int), self.encoding());
                line_idx < self.offsets().len() && self.encoding().is_utf16() && t.len() % 2 == 0
                    && !starts_with_sniffed_bom(t) && decode_utf16(
                    utf16_units(t, self.encoding() is Utf16Le),
                ) is Some ==> Some(text@) == decode_utf16(utf16_units(t, self.encoding() is Utf16Le))
            }),
            line_idx < self.offsets().len() && self.encoding() is Utf8 && valid_utf8(
                trimmed_line(self.line_bytes(line_idx as int), self.encoding()),
            ) && !starts_with_sniffed_bom(
                trimmed_line(self.line_bytes(line_idx as int), self.encoding()),
            ) ==> text@ == decode_utf8(
                trimmed_line(self.line_bytes(line_idx as int), self.encoding()),
            ),
    {
        proof {
            if line_idx < self.offsets().len() {
                lemma_line_range_inside(self, line_idx as int);
            }
        }
        let (start, end) = match self.line_bounds(line_idx) {
            Some(bounds) => bounds,
            None => {
                return String::new();
            },
        };
        let data = mapped_bytes(&self.mmap);
        let line = vstd::slice::slice_subrange(data, start, end);
        let slice = trim_line_ending(line, &self.encoding);
        let label = self.encoding.name();
        match decode_with_label(label.as_str(), slice) {
            Some(text) => text,
            None => String::new(),
        }
    }
}

/// What a well-formed handler holds, spelt out.
pub proof fn lemma_wf_parts(handler: &FileHandler)
    requires
        handler.wf(),
    ensures
        handler.data().len() <= usize::MAX,
        handler.offsets().len() <= usize::MAX,
        handler.encoding().wf(),
        handler.encoding().label() == detected_label(handler.data()),
        handler.encoding() is Detected ==> forall|bytes: Seq<u8>|
            #[trigger] decoded_text(handler.encoding().label(), bytes) is Some,
        is_line_index(
            handler.data(),
            handler.encoding(),
            handler.first_line_start(),
            handler.offsets(),
        ),
{
}

/// Every line's range lies inside the data and is not empty.
pub proof fn lemma_line_range_inside(handler: &FileHandler, i: int)
    requires
        handler.wf(),
        0 <= i < handler.offsets().len(),
    ensures
        handler.line_range(i) matches Some((start, end)) && handler.first_line_start() <= start
            < end <= handler.data().len(),
{
    let offs = handler.offsets();
    assert(offs[0] <= offs[i]) by {
        if i > 0 {
            assert(offs[0] < offs[i]);
        }
    }
    if i + 1 < offs.len() {
        assert(offs[i] < offs[i + 1]);
        assert(offs[i + 1] < handler.data().len());
    }
}

/// The bytes of lines `0..k`, one after the other.
pub open spec fn joined_lines(handler: &FileHandler, k: int) -> Seq<u8>
    decreases k,
{
    if k <= 0 {
        Seq::empty()
    } else {
        joined_lines(handler, k - 1) + handler.line_bytes(k - 1)
    }
}

/// The lines tile the data: the first starts after the byte order mark, each
/// one ends where the next starts, and the last ends at the end of the data.
pub proof fn lemma_lines_tile(handler: &FileHandler)
    requires
        handler.wf(),
    ensures
        handler.offsets().len() > 0 ==> handler.line_range(0).unwrap().0
            == handler.first_line_start(),
        handler.offsets().len() > 0 ==> handler.line_range(
            handler.offsets().len() - 1,
        ).unwrap().1 == handler.data().len(),
        forall|i: int|
            0 <= i < handler.offsets().len() - 1 ==> (#[trigger] handler.line_range(i)).unwrap().1
                == handler.line_range(i + 1).unwrap().0,
{
}

/// Reading every line back gives the whole file after its byte order mark:
/// the lines' bytes, joined in order, are exactly that part of the data.
pub proof fn lemma_lines_rebuild_data(handler: &FileHandler)
    requires
        handler.wf(),
    ensures
        joined_lines(handler, handler.offsets().len() as int) == handler.data().subrange(
            handler.first_line_start(),
            handler.data().len() as int,
        ),
{
    let n = handler.offsets().len() as int;
    let data = handler.data();
    let first = handler.first_line_start();
    if n == 0 {
        assert(data.len() == 0 || first >= data.len());
        assert(first <= data.len()) by {
            assert(handler.first_line_start() <= data.len());
        }
        assert(data.subrange(first, data.len() as int) =~= Seq::<u8>::empty());
    } else {
        lemma_joined_prefix(handler, n);
        assert(handler.line_range(n - 1).unwrap().1 == data.len());
    }
}

/// The first `k` lines, joined, are the data from the first line's start to
/// where line `k - 1` ends.
proof fn lemma_joined_prefix(handler: &FileHandler, k: int)
    requires
        handler.wf(),
        1 <= k <= handler.offsets().len(),
    ensures
        joined_lines(handler, k) == handler.data().subrange(
            handler.first_line_start(),
            handler.line_range(k - 1).unwrap().1,
        ),
    decreases k,
{
    lemma_line_range_inside(handler, k - 1);
    let data = handler.data();
    if k == 1 {
        assert(joined_lines(handler, 0) =~= Seq::<u8>::empty());
        assert(joined_lines(handler, 1) =~= handler.line_bytes(0));
    } else {
        lemma_joined_prefix(handler, k - 1);
        lemma_line_range_inside(handler, k - 2);
        let mid = handler.line_range(k - 2).unwrap().1;
        let end = handler.line_range(k - 1).unwrap().1;
        assert(handler.line_range(k - 1).unwrap().0 == mid);
        assert(data.subrange(handler.first_line_start(), end) =~= data.subrange(
            handler.first_line_start(),
            mid,
        ) + data.subrange(mid, end));
    }
}

/// A line holds no line break before its end, and every line but the last
/// ends with one: each line is one whole line of the file.
pub proof fn lemma_line_is_one_line(handler: &FileHandler, i: int)
    requires
        handler.wf(),
        0 <= i < handler.offsets().len(),
    ensures
        forall|q: int|
            handler.line_range(i).unwrap().0 < q < handler.line_range(i).unwrap().1
                ==> !break_ends_at(handler.data(), handler.encoding(), handler.first_line_start(), q),
        i + 1 < handler.offsets().len() ==> break_ends_at(
            handler.data(),
            handler.encoding(),
            handler.first_line_start(),
            handler.line_range(i).unwrap().1,
        ),
{
    let offs = handler.offsets();
    let data = handler.data();
    let enc = handler.encoding();
    let first = handler.first_line_start();
    lemma_line_range_inside(handler, i);
    let (start, end) = handler.line_range(i).unwrap();
    assert forall|q: int| start < q < end implies !break_ends_at(data, enc, first, q) by {
        if break_ends_at(data, enc, first, q) {
            assert(is_line_start(data, enc, first, q));
            assert(offs.contains(q as usize));
            let j = choose|j: int| 0 <= j < offs.len() && offs[j] == q as usize;
            if j <= i {
                if j < i {
                    assert(offs[j] < offs[i]);
                }
            } else if j == i + 1 {
            } else {
                assert(offs[i + 1] < offs[j]);
            }
        }
    }
    if i + 1 < offs.len() {
        assert(is_line_start(data, enc, first, offs[i + 1] as int));
        assert(offs[0] < offs[i + 1]);
    }
}

/// The lines `0..k` decoded as UTF-8, each followed by the line feed that
/// ended it.
pub open spec fn rebuilt_text(handler: &FileHandler, k: int) -> Seq<char>
    decreases k,
{
    if k <= 0 {
        Seq::empty()
    } else {
        rebuilt_text(handler, k - 1) + decode_utf8(
            trimmed_line(handler.line_bytes(k - 1), handler.encoding()),
        ) + if ends_with(handler.line_bytes(k - 1), seq![0x0Au8]) {
            seq!['\n']
        } else {
            Seq::<char>::empty()
        }
    }
}

/// Whether the bytes EF BB BF (U+FEFF in UTF-8) occur nowhere in `data`.
pub open spec fn has_no_utf8_bom_inside(data: Seq<u8>) -> bool {
    forall|i: int|
        0 <= i && i + 2 < data.len() ==> !(#[trigger] data[i] == 0xEFu8 && data[i + 1] == 0xBBu8
            && data[i + 2] == 0xBFu8)
}

proof fn lemma_boundary_after_ascii(bytes: Seq<u8>, i: int)
    requires
        valid_utf8(bytes),
        0 <= i < bytes.len(),
        bytes[i] < 0x80,
        is_char_boundary(bytes, i),
    ensures
        is_char_boundary(bytes, i + 1),
    decreases bytes.len(),
{
    let l = length_of_first_scalar(bytes);
    let rest = pop_first_scalar(bytes);
    if i == 0 {
        assert(l == 1);
        assert(is_char_boundary(rest, 0));
    } else {
        assert(is_char_boundary(rest, i - l));
        assert(i - l >= 0) by {
            if i - l < 0 {
            }
        }
        assert(rest[i - l] == bytes[i]);
        lemma_boundary_after_ascii(rest, i - l);
    }
}

proof fn lemma_no_fe_ff(bytes: Seq<u8>, i: int)
    requires
        valid_utf8(bytes),
        0 <= i < bytes.len(),
    ensures
        bytes[i] != 0xFEu8 && bytes[i] != 0xFFu8,
{
    if bytes[i] == 0xFEu8 || bytes[i] == 0xFFu8 {
        is_char_boundary_iff_not_is_continuation_byte(bytes, i);
        is_char_boundary_iff_is_leading_byte(bytes, i);
    }
}

/// Where line `k` starts (or the data ends, for `k` past the last line).
pub open spec fn prefix_end(handler: &FileHandler, k: int) -> int {
    if k == 0 {
        handler.first_line_start()
    } else {
        handler.line_range(k - 1).unwrap().1
    }
}

proof fn lemma_line_start_is_boundary(handler: &FileHandler, k: int)
    requires
        handler.wf(),
        handler.encoding() is Utf8,
        handler.first_line_start() == 0,
        valid_utf8(handler.data()),
        0 <= k <= handler.offsets().len(),
    ensures
        is_char_boundary(handler.data(), prefix_end(handler, k)),
        0 <= prefix_end(handler, k) <= handler.data().len(),
{
    let data = handler.data();
    is_char_boundary_start_end_of_seq(data);
    if k > 0 {
        lemma_line_range_inside(handler, k - 1);
        let e = prefix_end(handler, k);
        if e < data.len() {
            lemma_line_is_one_line(handler, k - 1);
            assert(k < handler.offsets().len());
            assert(break_ends_at(data, handler.encoding(), 0, e));
            assert(data[e - 1] == 0x0Au8);
            is_char_boundary_iff_not_is_continuation_byte(data, e - 1);
            lemma_boundary_after_ascii(data, e - 1);
        }
    }
}

proof fn lemma_decode_line(handler: &FileHandler, k: int)
    requires
        handler.wf(),
        handler.encoding() is Utf8,
        0 <= k < handler.offsets().len(),
        valid_utf8(handler.line_bytes(k)),
        forall|i: int| 0 <= i < handler.data().len() ==> handler.data()[i] != 0x0Du8,
    ensures
        decode_utf8(handler.line_bytes(k)) == decode_utf8(
            trimmed_line(handler.line_bytes(k), handler.encoding()),
        ) + if ends_with(handler.line_bytes(k), seq![0x0Au8]) {
            seq!['\n']
        } else {
            Seq::<char>::empty()
        },
        valid_utf8(trimmed_line(handler.line_bytes(k), handler.encoding())),
        trimmed_line(handler.line_bytes(k), handler.encoding()) == if ends_with(
            handler.line_bytes(k),
            seq![0x0Au8],
        ) {
            handler.line_bytes(k).subrange(0, handler.line_bytes(k).len() - 1)
        } else {
            handler.line_bytes(k)
        },
        handler.line_bytes(k).len() > 0,
        ends_with(handler.line_bytes(k), seq![0x0Au8]) <==> handler.line_bytes(k)[handler.line_bytes(
            k,
        ).len() - 1] == 0x0Au8,
{
    lemma_line_range_inside(handler, k);
    let line = handler.line_bytes(k);
    assert(line.subrange(line.len() - 1, line.len() as int) =~= seq![line[line.len() - 1]]);
    let (start, end) = handler.line_range(k).unwrap();
    assert forall|i: int| 0 <= i < line.len() implies line[i] != 0x0Du8 by {
        assert(line[i] == handler.data()[start + i]);
        assert(0 <= start + i < handler.data().len());
    }
    let lf = seq![0x0Au8];
    let cr = seq![0x0Du8];
    if ends_with(line, lf) {
        let body = line.subrange(0, line.len() - 1);
        assert(drop_suffix(line, lf) == body);
        if body.len() > 0 {
            assert(body.subrange(body.len() - 1, body.len() as int)[0] == body[body.len() - 1]);
            assert(body[body.len() - 1] == line[body.len() - 1]);
        }
        assert(!ends_with(body, cr));
        assert(trimmed_line(line, handler.encoding()) == body);
        assert(line.subrange(line.len() - 1, line.len() as int)[0] == line[line.len() - 1]);
        assert(line[line.len() - 1] == 0x0Au8);
        is_char_boundary_iff_not_is_continuation_byte(line, line.len() - 1);
        valid_utf8_split(line, line.len() - 1);
        decode_utf8_split(line, line.len() - 1);
        let nl = line.subrange(line.len() - 1, line.len() as int);
        assert(nl =~= seq![0x0Au8]);
        assert(pop_first_scalar(nl) =~= Seq::<u8>::empty());
        assert(decode_utf8(pop_first_scalar(nl)) =~= Seq::<char>::empty());
        assert(nl[0] == 0x0Au8);
        assert(0x0Au8 & 0x7Fu8 == 0x0Au8) by (bit_vector);
        assert(decode_first_scalar(nl) == 10);
        assert((10u32 as char) == '\n') by {
            assert('\n' as u32 == 10);
        }
        assert(decode_utf8(nl) =~= seq!['\n']);
    } else {
        assert(drop_suffix(line, lf) == line);
        if line.len() > 0 {
            assert(line.subrange(line.len() - 1, line.len() as int)[0] == line[line.len() - 1]);
        }
        assert(!ends_with(line, cr));
        assert(trimmed_line(line, handler.encoding()) == line);
    }
}

proof fn lemma_decode_without_line_feed(bytes: Seq<u8>)
    requires
        valid_utf8(bytes),
        forall|i: int| 0 <= i < bytes.len() ==> bytes[i] != 0x0Au8,
    ensures
        forall|j: int| 0 <= j < decode_utf8(bytes).len() ==> decode_utf8(bytes)[j] != '\n',
    decreases bytes.len(),
{
    if bytes.len() > 0 {
        let rest = pop_first_scalar(bytes);
        let l = length_of_first_scalar(bytes);
        assert forall|i: int| 0 <= i < rest.len() implies rest[i] != 0x0Au8 by {
            assert(rest[i] == bytes[i + l]);
        }
        lemma_decode_without_line_feed(rest);
        let v = decode_first_scalar(bytes);
        assert(v as char != '\n') by {
            if v as char == '\n' {
                decode_utf8_first_scalar(bytes);
                assert(('\n' as u32) == 10);
                assert((10u32 & 0x7Fu32) as u8 == 0x0Au8) by (bit_vector);
                assert(encode_scalar(10) == seq![0x0Au8]);
                assert(take_first_scalar(bytes)[0] == bytes[0]);
            }
        }
        let d = decode_utf8(bytes);
        assert(d == seq![v as char] + decode_utf8(rest));
        assert forall|j: int| 0 <= j < d.len() implies d[j] != '\n' by {
            if j > 0 {
                assert(d[j] == decode_utf8(rest)[j - 1]);
            }
        }
    }
}

/// A UTF-8 file read line by line gives back its text: where the file is
/// well-formed UTF-8 with no carriage return and no U+FEFF, it is read as
/// UTF-8 with no byte order mark skipped, each line is well-formed UTF-8 that
/// starts with no byte order mark (so `get_line` decodes it exactly), and the
/// decoded lines, each followed by the line feed that ended it, are the
/// file's text.
pub proof fn lemma_utf8_lines_rebuild_text(handler: &FileHandler)
    requires
        handler.wf(),
        valid_utf8(handler.data()),
        forall|i: int| 0 <= i < handler.data().len() ==> handler.data()[i] != 0x0Du8,
        has_no_utf8_bom_inside(handler.data()),
    ensures
        handler.encoding() is Utf8,
        handler.first_line_start() == 0,
        forall|k: int|
            0 <= k < handler.offsets().len() ==> valid_utf8(
                #[trigger] trimmed_line(handler.line_bytes(k), handler.encoding()),
            ) && !starts_with_sniffed_bom(trimmed_line(handler.line_bytes(k), handler.encoding()))
                && !decode_utf8(trimmed_line(handler.line_bytes(k), handler.encoding())).contains(
                '\n',
            ),
        rebuilt_text(handler, handler.offsets().len() as int) == decode_utf8(handler.data()),
{
    let data = handler.data();
    let n = handler.offsets().len() as int;
    lemma_wf_parts(handler);
    lemma_utf8_file_reads_as_utf8(data);
    reveal_strlit("UTF-8");
    reveal_strlit("UTF-16LE");
    reveal_strlit("UTF-16BE");
    assert("UTF-8"@.len() != "UTF-16LE"@.len());
    assert("UTF-8"@.len() != "UTF-16BE"@.len());
    assert(handler.encoding() is Utf8);
    if starts_with(data, utf8_bom()) {
        assert(data.subrange(0, 3)[0] == data[0]);
        assert(data.subrange(0, 3)[1] == data[1]);
        assert(data.subrange(0, 3)[2] == data[2]);
        assert(!(data[0] == 0xEFu8 && data[1] == 0xBBu8 && data[2] == 0xBFu8));
    }
    assert(handler.first_line_start() == 0);
    lemma_lines_tile(handler);
    lemma_rebuild_prefix(handler, n);
    if n == 0 {
        assert(data.len() == 0);
        assert(data.subrange(0, 0) =~= data);
    } else {
        assert(prefix_end(handler, n) == data.len());
        assert(data.subrange(0, data.len() as int) =~= data);
    }
    assert forall|k: int| 0 <= k < n implies valid_utf8(
        #[trigger] trimmed_line(handler.line_bytes(k), handler.encoding()),
    ) && !starts_with_sniffed_bom(trimmed_line(handler.line_bytes(k), handler.encoding()))
        && !decode_utf8(trimmed_line(handler.line_bytes(k), handler.encoding())).contains('\n') by {
        lemma_trimmed_line_clean(handler, k);
    }
}

proof fn lemma_trimmed_line_clean(handler: &FileHandler, k: int)
    requires
        handler.wf(),
        handler.encoding() is Utf8,
        handler.first_line_start() == 0,
        valid_utf8(handler.data()),
        forall|i: int| 0 <= i < handler.data().len() ==> handler.data()[i] != 0x0Du8,
        has_no_utf8_bom_inside(handler.data()),
        0 <= k < handler.offsets().len(),
    ensures
        valid_utf8(trimmed_line(handler.line_bytes(k), handler.encoding())),
        !starts_with_sniffed_bom(trimmed_line(handler.line_bytes(k), handler.encoding())),
        forall|j: int|
            0 <= j < decode_utf8(trimmed_line(handler.line_bytes(k), handler.encoding())).len()
                ==> decode_utf8(trimmed_line(handler.line_bytes(k), handler.encoding()))[j] != '\n',
{
    let data = handler.data();
    lemma_line_bytes_valid(handler, k);
    lemma_decode_line(handler, k);
    lemma_line_range_inside(handler, k);
    let line = handler.line_bytes(k);
    let t = trimmed_line(line, handler.encoding());
    let (start, end) = handler.line_range(k).unwrap();
    assert(t.len() <= line.len());
    assert(forall|i: int| 0 <= i < t.len() ==> t[i] == line[i]);
    assert(forall|i: int| 0 <= i < line.len() ==> line[i] == data[start + i]);
    if t.len() >= 2 {
        assert(t[0] == data[start]);
        assert(t[1] == data[start + 1]);
        lemma_no_fe_ff(data, start);
    }
    if t.len() >= 3 {
        assert(t[2] == data[start + 2]);
        assert(!(data[start] == 0xEFu8 && data[start + 1] == 0xBBu8 && data[start + 2] == 0xBFu8));
    }
    lemma_line_is_one_line(handler, k);
    assert forall|i: int| 0 <= i < t.len() implies t[i] != 0x0Au8 by {
        assert(t[i] == line[i]);
        assert(line[i] == data[start + i]);
        if t[i] == 0x0Au8 {
            assert(break_ends_at(data, handler.encoding(), 0, start + i + 1));
            if start + i + 1 == end {
                assert(ends_with(line, seq![0x0Au8]));
            }
        }
    }
    lemma_decode_without_line_feed(t);
}

proof fn lemma_line_bytes_valid(handler: &FileHandler, k: int)
    requires
        handler.wf(),
        handler.encoding() is Utf8,
        handler.first_line_start() == 0,
        valid_utf8(handler.data()),
        0 <= k < handler.offsets().len(),
    ensures
        0 <= k < handler.offsets().len(),
        valid_utf8(handler.line_bytes(k)),
        valid_utf8(handler.data().subrange(0, prefix_end(handler, k + 1))),
        decode_utf8(handler.data().subrange(0, prefix_end(handler, k + 1))) == decode_utf8(
            handler.data().subrange(0, prefix_end(handler, k)),
        ) + decode_utf8(handler.line_bytes(k)),
{
    let data = handler.data();
    lemma_lines_tile(handler);
    lemma_line_range_inside(handler, k);
    lemma_line_start_is_boundary(handler, k);
    lemma_line_start_is_boundary(handler, k + 1);
    let s = prefix_end(handler, k);
    let e = prefix_end(handler, k + 1);
    assert(s == handler.line_range(k).unwrap().0);
    assert(e == handler.line_range(k).unwrap().1);
    valid_utf8_split(data, e);
    let p = data.subrange(0, e);
    is_char_boundary_iff_not_is_continuation_byte(data, s);
    is_char_boundary_iff_not_is_continuation_byte(p, s);
    assert(p[s] == data[s]);
    valid_utf8_split(p, s);
    decode_utf8_split(p, s);
    assert(p.subrange(0, s) =~= data.subrange(0, s));
    assert(p.subrange(s, e) =~= handler.line_bytes(k));
}

proof fn lemma_rebuild_prefix(handler: &FileHandler, k: int)
    requires
        handler.wf(),
        handler.encoding() is Utf8,
        handler.first_line_start() == 0,
        valid_utf8(handler.data()),
        forall|i: int| 0 <= i < handler.data().len() ==> handler.data()[i] != 0x0Du8,
        0 <= k <= handler.offsets().len(),
    ensures
        decode_utf8(handler.data().subrange(0, prefix_end(handler, k))) == rebuilt_text(handler, k),
    decreases k,
{
    if k == 0 {
        assert(handler.data().subrange(0, 0) =~= Seq::<u8>::empty());
    } else {
        lemma_rebuild_prefix(handler, k - 1);
        lemma_line_bytes_valid(handler, k - 1);
        lemma_decode_line(handler, k - 1);
    }
}

} // verus!
