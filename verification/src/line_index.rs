//! The line index of a file: the byte offset at which each line starts, and
//! the removal of a line's terminator.

use vstd::prelude::*;
use crate::bindings::find_byte;
use crate::encoding::TextEncoding;

verus! {

/// Whether the two bytes at `p` are the code unit U+000A (line feed) in the
/// byte order of a UTF-16 `encoding`.
pub open spec fn is_newline_unit(data: Seq<u8>, encoding: TextEncoding, p: int) -> bool {
    match encoding {
        TextEncoding::Utf16Le => data[p] == 0x0Au8 && data[p + 1] == 0x00u8,
        TextEncoding::Utf16Be => data[p] == 0x00u8 && data[p + 1] == 0x0Au8,
        _ => false,
    }
}

/// Whether a line feed ends just before offset `q`. In UTF-16 the code units
/// are counted from `start`; in every other encoding a line feed is the byte
/// 0x0A.
pub open spec fn break_ends_at(data: Seq<u8>, encoding: TextEncoding, start: int, q: int) -> bool {
    if encoding.is_utf16() {
        start + 2 <= q <= data.len() && (q - start) % 2 == 0 && is_newline_unit(
            data,
            encoding,
            q - 2,
        )
    } else {
        start + 1 <= q <= data.len() && data[q - 1] == 0x0Au8
    }
}

/// Whether a line starts at offset `q`: the first line starts at `start`
/// (just after the byte order mark), every other one just after a line feed.
pub open spec fn is_line_start(data: Seq<u8>, encoding: TextEncoding, start: int, q: int) -> bool {
    q == start || break_ends_at(data, encoding, start, q)
}

/// `offsets` is the line index of `data`: the offsets, in increasing order,
/// of all line starts that lie inside the data. Data that is empty, or holds
/// nothing after the byte order mark, has no lines.
pub open spec fn is_line_index(
    data: Seq<u8>,
    encoding: TextEncoding,
    start: int,
    offsets: Seq<usize>,
) -> bool {
    if data.len() == 0 || start >= data.len() {
        offsets.len() == 0
    } else {
        &&& offsets.len() > 0
        &&& offsets[0] == start
        &&& forall|i: int, j: int| 0 <= i < j < offsets.len() ==> offsets[i] < offsets[j]
        &&& forall|i: int|
            0 <= i < offsets.len() ==> offsets[i] < data.len() && is_line_start(
                data,
                encoding,
                start,
                #[trigger] offsets[i] as int,
            )
        &&& forall|q: int|
            start <= q < data.len() && is_line_start(data, encoding, start, q) ==> offsets.contains(
                q as usize,
            )
    }
}

/// Builds the line index of `data`, whose first line starts at `start`.
pub fn build_line_index(data: &[u8], encoding: &TextEncoding, start: usize) -> (offsets: Vec<usize>)
    ensures
        is_line_index(data@, *encoding, start as int, offsets@),
{
    if data.len() == 0 || start >= data.len() {
        return Vec::new();
    }
    let mut offsets: Vec<usize> = Vec::new();
    offsets.push(start);
    let ghost d = data@;
    let ghost enc = *encoding;
    let ghost s = start as int;
    assert(offsets@[0] == start);
    assert(offsets@.contains(start));
    if encoding.is_utf16_exec() {
        let mut pos = start;
        while pos < data.len() - 1
            invariant
                d == data@,
                enc == *encoding,
                enc.is_utf16(),
                s == start,
                start < d.len(),
                start <= pos <= d.len(),
                (pos - start) % 2 == 0,
                offsets@.len() > 0,
                offsets@[0] == start,
                forall|i: int, j: int|
                    0 <= i < j < offsets@.len() ==> offsets@[i] < offsets@[j],
                forall|i: int|
                    0 <= i < offsets@.len() ==> offsets@[i] <= pos && is_line_start(
                        d,
                        enc,
                        s,
                        #[trigger] offsets@[i] as int,
                    ),
                forall|q: int|
                    s <= q <= pos && is_line_start(d, enc, s, q) ==> offsets@.contains(q as usize),
            decreases d.len() - pos,
        {
            let is_newline = match encoding {
                TextEncoding::Utf16Le => data[pos] == 0x0A && data[pos + 1] == 0x00,
                _ => data[pos] == 0x00 && data[pos + 1] == 0x0A,
            };
            let ghost old_offsets = offsets@;
            if is_newline {
                offsets.push(pos + 2);
                assert(offsets@[offsets@.len() - 1] == pos + 2);
                assert(is_line_start(d, enc, s, (pos + 2) as int));
            }
            assert forall|q: int| s <= q <= pos + 2 && is_line_start(d, enc, s, q) implies offsets@.contains(
                q as usize,
            ) by {
                if q <= pos {
                    let k = choose|k: int| 0 <= k < old_offsets.len() && old_offsets[k] == q as usize;
                    assert(offsets@[k] == old_offsets[k]);
                } else if q == pos + 2 {
                    assert(is_newline);
                    assert(offsets@[offsets@.len() - 1] == q as usize);
                }
            }
            pos = pos + 2;
        }
        assert forall|q: int| s <= q <= d.len() && is_line_start(d, enc, s, q) implies offsets@.contains(
            q as usize,
        ) by {
            if q > pos {
                assert(q == pos + 1);
            }
        }
    } else {
        let mut pos = start;
        while pos < data.len()
            invariant_except_break
                pos < d.len() ==> offsets@[offsets@.len() - 1] == pos,
            invariant
                d == data@,
                enc == *encoding,
                !enc.is_utf16(),
                s == start,
                start < d.len(),
                start <= pos <= d.len(),
                offsets@.len() > 0,
                offsets@[0] == start,
                forall|i: int, j: int|
                    0 <= i < j < offsets@.len() ==> offsets@[i] < offsets@[j],
                forall|i: int|
                    0 <= i < offsets@.len() ==> offsets@[i] <= pos && is_line_start(
                        d,
                        enc,
                        s,
                        #[trigger] offsets@[i] as int,
                    ),
                forall|q: int|
                    s <= q <= pos && is_line_start(d, enc, s, q) ==> offsets@.contains(q as usize),
            ensures
                forall|q: int|
                    s <= q <= d.len() && is_line_start(d, enc, s, q) ==> offsets@.contains(
                        q as usize,
                    ),
            decreases d.len() - pos,
        {
            let rest = vstd::slice::slice_subrange(data, pos, data.len());
            match find_byte(0x0A, rest) {
                Some(relative) => {
                    let newline = pos + relative;
                    assert(rest@[relative as int] == d[newline as int]);
                    let ghost old_offsets = offsets@;
                    offsets.push(newline + 1);
                    assert(offsets@[offsets@.len() - 1] == newline + 1);
                    assert(is_line_start(d, enc, s, (newline + 1) as int));
                    assert forall|q: int|
                        s <= q <= newline + 1 && is_line_start(d, enc, s, q) implies offsets@.contains(
                        q as usize,
                    ) by {
                        if q <= pos {
                            let k = choose|k: int|
                                0 <= k < old_offsets.len() && old_offsets[k] == q as usize;
                            assert(offsets@[k] == old_offsets[k]);
                        } else if q <= newline {
                            assert(rest@[q - 1 - pos] == d[q - 1]);
                        } else {
                            assert(offsets@[offsets@.len() - 1] == q as usize);
                        }
                    }
                    pos = newline + 1;
                },
                None => {
                    assert forall|q: int|
                        s <= q <= d.len() && is_line_start(d, enc, s, q) implies offsets@.contains(
                        q as usize,
                    ) by {
                        if q > pos {
                            assert(rest@[q - 1 - pos] == d[q - 1]);
                        }
                    }
                    break ;
                },
            }
        }
    }
    let last = offsets[offsets.len() - 1];
    let ghost before = offsets@;
    if last == data.len() {
        offsets.pop();
        assert forall|q: int| s <= q < d.len() && is_line_start(d, enc, s, q) implies offsets@.contains(
            q as usize,
        ) by {
            let k = choose|k: int| 0 <= k < before.len() && before[k] == q as usize;
            assert(k < before.len() - 1);
            assert(offsets@[k] == before[k]);
        }
    }
    assert forall|i: int| 0 <= i < offsets@.len() implies offsets@[i] < d.len() by {
        if i < before.len() - 1 {
            assert(before[i] < before[before.len() - 1]);
        }
    }
    offsets
}

/// Whether `s` ends with `suffix`.
pub open spec fn ends_with(s: Seq<u8>, suffix: Seq<u8>) -> bool {
    suffix.len() <= s.len() && s.subrange(s.len() - suffix.len(), s.len() as int) == suffix
}

/// `s` without `suffix` at its end, or `s` itself when it does not end so.
pub open spec fn drop_suffix(s: Seq<u8>, suffix: Seq<u8>) -> Seq<u8> {
    if ends_with(s, suffix) {
        s.subrange(0, s.len() - suffix.len())
    } else {
        s
    }
}

/// A line without its terminator: first one line feed, then one carriage
/// return, each removed only where it ends the line, written as one code
/// unit of the encoding.
pub open spec fn trimmed_line(s: Seq<u8>, encoding: TextEncoding) -> Seq<u8> {
    match encoding {
        TextEncoding::Utf16Le => drop_suffix(
            drop_suffix(s, seq![0x0Au8, 0x00u8]),
            seq![0x0Du8, 0x00u8],
        ),
        TextEncoding::Utf16Be => drop_suffix(
            drop_suffix(s, seq![0x00u8, 0x0Au8]),
            seq![0x00u8, 0x0Du8],
        ),
        _ => drop_suffix(drop_suffix(s, seq![0x0Au8]), seq![0x0Du8]),
    }
}

fn ends_with_pair(s: &[u8], first: u8, second: u8) -> (b: bool)
    ensures
        b == ends_with(s@, seq![first, second]),
{
    let n = s.len();
    let b = n >= 2 && s[n - 2] == first && s[n - 1] == second;
    proof {
        if n >= 2 {
            let tail = s@.subrange(n - 2, n as int);
            if b {
                assert(tail =~= seq![first, second]);
            } else {
                assert(tail[0] == s@[n - 2]);
                assert(tail[1] == s@[n - 1]);
            }
        }
    }
    b
}

fn ends_with_byte(s: &[u8], last: u8) -> (b: bool)
    ensures
        b == ends_with(s@, seq![last]),
{
    let n = s.len();
    let b = n >= 1 && s[n - 1] == last;
    proof {
        if n >= 1 {
            let tail = s@.subrange(n - 1, n as int);
            if b {
                assert(tail =~= seq![last]);
            } else {
                assert(tail[0] == s@[n - 1]);
            }
        }
    }
    b
}

/// Removes the line terminator (LF, CRLF or a lone CR at the end) from a
/// line's bytes.
pub fn trim_line_ending<'a>(slice: &'a [u8], encoding: &TextEncoding) -> (trimmed: &'a [u8])
    ensures
        trimmed@ == trimmed_line(slice@, *encoding),
{
    let mut slice = slice;
    match encoding {
        TextEncoding::Utf16Le => {
            if ends_with_pair(slice, 0x0A, 0x00) {
                slice = vstd::slice::slice_subrange(slice, 0, slice.len() - 2);
            }
            if ends_with_pair(slice, 0x0D, 0x00) {
                slice = vstd::slice::slice_subrange(slice, 0, slice.len() - 2);
            }
        },
        TextEncoding::Utf16Be => {
            if ends_with_pair(slice, 0x00, 0x0A) {
                slice = vstd::slice::slice_subrange(slice, 0, slice.len() - 2);
            }
            if ends_with_pair(slice, 0x00, 0x0D) {
                slice = vstd::slice::slice_subrange(slice, 0, slice.len() - 2);
            }
        },
        _ => {
            if ends_with_byte(slice, 0x0A) {
                slice = vstd::slice::slice_subrange(slice, 0, slice.len() - 1);
            }
            if ends_with_byte(slice, 0x0D) {
                slice = vstd::slice::slice_subrange(slice, 0, slice.len() - 1);
            }
        },
    }
    slice
}

/// For every encoding that is not UTF-16 (UTF-8 and detected legacy
/// encodings alike), a line ending in a line feed loses that line feed and
/// then one carriage return right before it, and nothing else; a line
/// without a line feed loses only a final carriage return.
pub proof fn lemma_line_feed_removed(s: Seq<u8>, encoding: TextEncoding)
    requires
        !encoding.is_utf16(),
    ensures
        trimmed_line(s.push(0x0Au8), encoding) == (if s.len() > 0 && s.last() == 0x0Du8 {
            s.drop_last()
        } else {
            s
        }),
        s.len() > 0 && s.last() != 0x0Au8 ==> trimmed_line(s, encoding) == (if s.last() == 0x0Du8 {
            s.drop_last()
        } else {
            s
        }),
{
    let t = s.push(0x0Au8);
    assert(t.subrange(t.len() - 1, t.len() as int) =~= seq![0x0Au8]);
    assert(t.subrange(0, t.len() - 1) =~= s);
    if s.len() > 0 {
        assert(s.subrange(s.len() - 1, s.len() as int)[0] == s.last());
        if s.last() == 0x0Du8 {
            assert(s.subrange(s.len() - 1, s.len() as int) =~= seq![0x0Du8]);
        }
        if s.last() == 0x0Au8 {
            assert(s.subrange(s.len() - 1, s.len() as int) =~= seq![0x0Au8]);
        }
    }
}

/// In UTF-16, a line ending in a line feed code unit loses it and then one
/// carriage return code unit right before it, and nothing else.
pub proof fn lemma_utf16_line_feed_removed(s: Seq<u8>)
    ensures
        trimmed_line(s + seq![0x0Au8, 0x00u8], TextEncoding::Utf16Le) == (if s.len() >= 2 && s[s.len()
            - 2] == 0x0Du8 && s[s.len() - 1] == 0x00u8 {
            s.subrange(0, s.len() - 2)
        } else {
            s
        }),
        trimmed_line(s + seq![0x00u8, 0x0Au8], TextEncoding::Utf16Be) == (if s.len() >= 2 && s[s.len()
            - 2] == 0x00u8 && s[s.len() - 1] == 0x0Du8 {
            s.subrange(0, s.len() - 2)
        } else {
            s
        }),
{
    let le = s + seq![0x0Au8, 0x00u8];
    let be = s + seq![0x00u8, 0x0Au8];
    assert(le.subrange(le.len() - 2, le.len() as int) =~= seq![0x0Au8, 0x00u8]);
    assert(le.subrange(0, le.len() - 2) =~= s);
    assert(be.subrange(be.len() - 2, be.len() as int) =~= seq![0x00u8, 0x0Au8]);
    assert(be.subrange(0, be.len() - 2) =~= s);
    if s.len() >= 2 {
        let tail = s.subrange(s.len() - 2, s.len() as int);
        assert(tail[0] == s[s.len() - 2] && tail[1] == s[s.len() - 1]);
        if s[s.len() - 2] == 0x0Du8 && s[s.len() - 1] == 0x00u8 {
            assert(tail =~= seq![0x0Du8, 0x00u8]);
        }
        if s[s.len() - 2] == 0x00u8 && s[s.len() - 1] == 0x0Du8 {
            assert(tail =~= seq![0x00u8, 0x0Du8]);
        }
    }
}

} // verus!
