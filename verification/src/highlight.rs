//! Keyword highlighting within a line: the line is cut into segments, each
//! either plain text or a hit of the keyword. Every occurrence of the
//! keyword, ignoring case, is a hit: the line and the keyword are lower-cased
//! character by character and the matches in the lower-cased line are mapped
//! back to the characters they came from. A line that only matches once
//! lower-cased as a whole (as search lower-cases it) is one hit.

use vstd::prelude::*;
use crate::bindings::{char_lowercase_of, char_to_lowercase, lowercase_of, to_lowercase};
use crate::search::{
    chars_of,
    contains_lowercased,
    find_from,
    is_substring,
    lemma_next_occurrence,
    next_occurrence,
    occurs_at,
};

verus! {

/// A run of characters `[start, end)` of a line, counted in characters;
/// `hit` marks a run that is shown as a keyword hit.
#[derive(Clone, Copy, Debug, PartialEq, Eq, Structural)]
pub struct Segment {
    pub start: usize,
    pub end: usize,
    pub hit: bool,
}

/// The segment `[start, end)`.
pub open spec fn seg(start: int, end: int, hit: bool) -> Segment {
    Segment { start: start as usize, end: end as usize, hit }
}

/// How far the search moves on after a match: past the match, or by one
/// character when the keyword is empty (which matches at every position).
pub open spec fn step(keyword: Seq<char>) -> int {
    if keyword.len() == 0 {
        1
    } else {
        keyword.len() as int
    }
}

/// The positions of the keyword's matches at or after `from`, leftmost first
/// and not overlapping, as `str::match_indices` finds them.
pub open spec fn match_positions(text: Seq<char>, keyword: Seq<char>, from: int) -> Seq<int>
    decreases text.len() + 1 - from,
{
    if from < 0 {
        Seq::empty()
    } else {
        match next_occurrence(text, keyword, from) {
            Some(p) => {
                proof {
                    lemma_next_occurrence(text, keyword, from);
                }
                seq![p] + match_positions(text, keyword, p + step(keyword))
            },
            None => Seq::empty(),
        }
    }
}

/// The text lower-cased character by character (`char::to_lowercase` of
/// each character, in order).
pub open spec fn lowered(text: Seq<char>) -> Seq<char>
    decreases text.len(),
{
    if text.len() == 0 {
        Seq::empty()
    } else {
        lowered(text.drop_last()) + char_lowercase_of(text.last())
    }
}

/// For each character of `lowered(text)`, the index of the character of
/// `text` it came from.
pub open spec fn origins(text: Seq<char>) -> Seq<int>
    decreases text.len(),
{
    if text.len() == 0 {
        Seq::empty()
    } else {
        origins(text.drop_last()) + Seq::new(
            char_lowercase_of(text.last()).len(),
            |j: int| text.len() - 1,
        )
    }
}

/// The first character of the line that a match at `p` in the lower-cased
/// line covers (the end of the line for a match at its end).
pub open spec fn hit_start(origin: Seq<int>, p: int, text_len: int) -> int {
    if p < origin.len() {
        origin[p]
    } else {
        text_len
    }
}

/// Just past the last character of the line that a match of length
/// `keyword_len` at `p` in the lower-cased line covers.
pub open spec fn hit_end(origin: Seq<int>, p: int, keyword_len: int, text_len: int) -> int {
    if keyword_len == 0 {
        hit_start(origin, p, text_len)
    } else {
        origin[p + keyword_len - 1] + 1
    }
}

/// The larger of two integers.
pub open spec fn max(a: int, b: int) -> int {
    if a < b {
        b
    } else {
        a
    }
}

/// The segments for matches at `positions` of the lower-cased line, starting
/// at character `cursor`: plain text up to the characters a match came from,
/// those characters as a hit, and the plain rest of the line at the end. A
/// hit never reaches back before the previous hit's end.
pub open spec fn segments_from(
    positions: Seq<int>,
    keyword_len: int,
    origin: Seq<int>,
    cursor: int,
    text_len: int,
) -> Seq<Segment>
    decreases positions.len(),
{
    if positions.len() == 0 {
        seq![seg(cursor, text_len, false)]
    } else {
        let p = positions[0];
        let start = max(hit_start(origin, p, text_len), cursor);
        let end = max(hit_end(origin, p, keyword_len, text_len), start);
        seq![seg(cursor, start, false), seg(start, end, true)] + segments_from(
            positions.drop_first(),
            keyword_len,
            origin,
            end,
            text_len,
        )
    }
}

/// Whether the line has no occurrence of the keyword lower-cased character
/// by character, but contains it once both are lower-cased as whole strings
/// (`str::to_lowercase`, which also lower-cases a word-final capital sigma
/// to the final form), as search compares them.
pub open spec fn whole_line_hit(text: Seq<char>, keyword: Seq<char>) -> bool {
    &&& match_positions(lowered(text), lowered(keyword), 0).len() == 0
    &&& is_substring(lowercase_of(keyword), lowercase_of(text))
}

/// How a line is highlighted for a keyword: every occurrence of the
/// lower-cased keyword in the lower-cased line, leftmost first and not
/// overlapping, is a hit covering the characters it came from; the rest is
/// plain. A line that matches only as a whole string is one hit.
pub open spec fn highlight_spec(text: Seq<char>, keyword: Seq<char>) -> Seq<Segment> {
    if whole_line_hit(text, keyword) {
        seq![seg(0, text.len() as int, true)]
    } else {
        segments_from(
            match_positions(lowered(text), lowered(keyword), 0),
            lowered(keyword).len() as int,
            origins(text),
            0,
            text.len() as int,
        )
    }
}

/// The lower-cased characters of `chars`, and for each the index of the
/// character it came from.
pub fn lower_chars(chars: &[char]) -> (result: (Vec<char>, Vec<usize>))
    ensures
        result.0@ == lowered(chars@),
        result.1@.len() == origins(chars@).len(),
        forall|j: int| 0 <= j < result.1@.len() ==> result.1@[j] == origins(chars@)[j],
{
    let mut lower: Vec<char> = Vec::new();
    let mut origin: Vec<usize> = Vec::new();
    let mut i: usize = 0;
    while i < chars.len()
        invariant
            i <= chars@.len(),
            lower@ == lowered(chars@.take(i as int)),
            origin@.len() == origins(chars@.take(i as int)).len(),
            forall|j: int|
                0 <= j < origin@.len() ==> origin@[j] == origins(chars@.take(i as int))[j],
        decreases chars@.len() - i,
    {
        let piece = char_to_lowercase(chars[i]);
        let ghost before = chars@.take(i as int);
        let ghost after = chars@.take(i + 1);
        assert(after.drop_last() =~= before);
        assert(after.last() == chars@[i as int]);
        let ghost old_origin = origin@;
        let mut j: usize = 0;
        while j < piece.len()
            invariant
                i < chars@.len(),
                j <= piece@.len(),
                piece@ == char_lowercase_of(chars@[i as int]),
                lower@ == lowered(before) + piece@.take(j as int),
                origin@.len() == old_origin.len() + j,
                forall|m: int| 0 <= m < old_origin.len() ==> origin@[m] == old_origin[m],
                forall|m: int| old_origin.len() <= m < origin@.len() ==> origin@[m] == i,
            decreases piece@.len() - j,
        {
            lower.push(piece[j]);
            origin.push(i);
            assert(piece@.take(j + 1) =~= piece@.take(j as int).push(piece@[j as int]));
            j = j + 1;
        }
        assert(piece@.take(piece@.len() as int) =~= piece@);
        proof {
            let extra = Seq::new(char_lowercase_of(after.last()).len(), |m: int| after.len() - 1);
            assert(origins(after) == origins(before) + extra);
            assert(old_origin.len() == origins(before).len());
            assert(origin@.len() == old_origin.len() + extra.len());
            assert forall|m: int| 0 <= m < origin@.len() implies origin@[m] == origins(after)[m] by {
                if m >= old_origin.len() {
                    assert(origins(after)[m] == extra[m - old_origin.len()]);
                } else {
                    assert(origins(after)[m] == origins(before)[m]);
                    assert(old_origin[m] == origins(before)[m]);
                }
            }
        }
        i = i + 1;
    }
    assert(chars@.take(chars@.len() as int) =~= chars@);
    (lower, origin)
}

/// Every character of the lower-cased text came from a character of the
/// text.
pub proof fn lemma_origins(text: Seq<char>)
    ensures
        origins(text).len() == lowered(text).len(),
        forall|j: int| 0 <= j < origins(text).len() ==> 0 <= #[trigger] origins(text)[j] < text.len(),
    decreases text.len(),
{
    if text.len() > 0 {
        lemma_origins(text.drop_last());
        let before = origins(text.drop_last());
        let extra = Seq::new(char_lowercase_of(text.last()).len(), |m: int| text.len() - 1);
        assert forall|j: int| 0 <= j < origins(text).len() implies 0 <= #[trigger] origins(text)[j]
            < text.len() by {
            if j < before.len() {
                assert(origins(text)[j] == before[j]);
            } else {
                assert(origins(text)[j] == extra[j - before.len()]);
            }
        }
    }
}

/// Cuts `text` into plain and hit segments for `keyword`, ignoring case.
pub fn highlight_segments(text: &str, keyword: &str) -> (segments: Vec<Segment>)
    ensures
        segments@ == highlight_spec(text@, keyword@),
{
    let text_chars = chars_of(text);
    let keyword_chars = chars_of(keyword);
    let (t, origin) = lower_chars(text_chars.as_slice());
    let (k, _) = lower_chars(keyword_chars.as_slice());
    proof {
        lemma_origins(text@);
    }
    let ghost tv = t@;
    let ghost kv = k@;
    let n = t.len();
    let klen = k.len();
    let text_len = text_chars.len();
    let mut positions: Vec<usize> = Vec::new();
    let ghost mut gpos: Seq<int> = Seq::empty();
    let mut from: usize = 0;
    loop
        invariant_except_break
            from <= n + 1,
            gpos + match_positions(tv, kv, from as int) == match_positions(tv, kv, 0),
        invariant
            tv == t@,
            kv == k@,
            n == tv.len(),
            klen == kv.len(),
            positions@.len() == gpos.len(),
            forall|i: int| 0 <= i < gpos.len() ==> positions@[i] == gpos[i],
            forall|i: int| 0 <= i < gpos.len() ==> 0 <= #[trigger] gpos[i] <= n,
        ensures
            gpos == match_positions(tv, kv, 0),
        decreases n + 1 - from,
    {
        match find_from(t.as_slice(), k.as_slice(), from) {
            Some(p) => {
                proof {
                    lemma_next_occurrence(tv, kv, from as int);
                    assert(match_positions(tv, kv, from as int) == seq![p as int] + match_positions(
                        tv,
                        kv,
                        p + step(kv),
                    ));
                    gpos = gpos.push(p as int);
                    assert(gpos + match_positions(tv, kv, p + step(kv)) =~= match_positions(
                        tv,
                        kv,
                        0,
                    ));
                }
                positions.push(p);
                if p >= n {
                    proof {
                        assert(match_positions(tv, kv, p + step(kv)) =~= Seq::<int>::empty());
                        assert(gpos =~= match_positions(tv, kv, 0));
                    }
                    break ;
                }
                if klen == 0 {
                    from = p + 1;
                } else {
                    from = p + klen;
                }
            },
            None => {
                proof {
                    assert(match_positions(tv, kv, from as int) =~= Seq::<int>::empty());
                    assert(gpos =~= match_positions(tv, kv, 0));
                }
                break ;
            },
        }
    }
    proof {
        lemma_match_positions_fit(tv, kv, 0);
    }
    if positions.len() == 0 {
        let keyword_lower = to_lowercase(keyword);
        let needle = chars_of(keyword_lower.as_str());
        if contains_lowercased(text, needle.as_slice()) {
            let mut whole: Vec<Segment> = Vec::new();
            whole.push(Segment { start: 0, end: text_len, hit: true });
            proof {
                assert(whole@ =~= seq![seg(0, text@.len() as int, true)]);
            }
            return whole;
        }
    }
    let ghost og = origins(text@);
    let ghost target = segments_from(gpos, klen as int, og, 0, text_len as int);
    let mut segments: Vec<Segment> = Vec::new();
    let mut cursor: usize = 0;
    let mut i: usize = 0;
    proof {
        assert(gpos.skip(0) =~= gpos);
        assert(segments@ + target =~= target);
    }
    while i < positions.len()
        invariant
            positions@.len() == gpos.len(),
            forall|j: int| 0 <= j < gpos.len() ==> positions@[j] == gpos[j],
            gpos == match_positions(tv, kv, 0),
            forall|j: int| 0 <= j < gpos.len() ==> occurs_at(tv, kv, #[trigger] gpos[j]),
            n == tv.len(),
            klen == kv.len(),
            og == origins(text@),
            og.len() == n,
            origin@.len() == n,
            forall|j: int| 0 <= j < n ==> origin@[j] == og[j],
            forall|j: int| 0 <= j < n ==> 0 <= #[trigger] og[j] < text_len,
            text_len == text@.len(),
            cursor <= text_len,
            target == segments_from(gpos, klen as int, og, 0, text_len as int),
            i <= gpos.len(),
            segments@ + segments_from(gpos.skip(i as int), klen as int, og, cursor as int, text_len as int)
                == target,
        decreases gpos.len() - i,
    {
        let p = positions[i];
        proof {
            assert(occurs_at(tv, kv, gpos[i as int]));
            assert(gpos.skip(i as int)[0] == gpos[i as int]);
            assert(gpos.skip(i as int).drop_first() =~= gpos.skip(i + 1));
        }
        let first = if p < n {
            origin[p]
        } else {
            text_len
        };
        let start = if first < cursor {
            cursor
        } else {
            first
        };
        let last = if klen == 0 {
            first
        } else {
            origin[p + klen - 1] + 1
        };
        let end = if last < start {
            start
        } else {
            last
        };
        segments.push(Segment { start: cursor, end: start, hit: false });
        segments.push(Segment { start, end, hit: true });
        proof {
            let rest = segments_from(gpos.skip(i + 1), klen as int, og, end as int, text_len as int);
            assert(segments_from(gpos.skip(i as int), klen as int, og, cursor as int, text_len as int)
                == seq![seg(cursor as int, start as int, false), seg(start as int, end as int, true)]
                + rest);
            assert(segments@ + rest =~= target);
        }
        cursor = end;
        i = i + 1;
    }
    proof {
        assert(gpos.skip(gpos.len() as int) =~= Seq::<int>::empty());
    }
    segments.push(Segment { start: cursor, end: text_len, hit: false });
    proof {
        assert(segments@ =~= target);
    }
    segments
}

/// Every match position leaves room for the keyword inside the text, comes
/// at or after `from`, and the next one comes at least one step later.
pub proof fn lemma_match_positions_fit(text: Seq<char>, keyword: Seq<char>, from: int)
    requires
        0 <= from,
    ensures
        forall|i: int|
            0 <= i < match_positions(text, keyword, from).len() ==> from <= #[trigger] match_positions(
                text,
                keyword,
                from,
            )[i] && occurs_at(text, keyword, match_positions(text, keyword, from)[i]),
        forall|i: int|
            0 <= i < match_positions(text, keyword, from).len() - 1 ==> #[trigger] match_positions(
                text,
                keyword,
                from,
            )[i] + step(keyword) <= match_positions(text, keyword, from)[i + 1],
    decreases text.len() + 1 - from,
{
    lemma_next_occurrence(text, keyword, from);
    match next_occurrence(text, keyword, from) {
        Some(p) => {
            lemma_match_positions_fit(text, keyword, p + step(keyword));
            let rest = match_positions(text, keyword, p + step(keyword));
            let all = match_positions(text, keyword, from);
            assert(all == seq![p] + rest);
            assert forall|i: int| 0 <= i < all.len() implies from <= #[trigger] all[i] && occurs_at(
                text,
                keyword,
                all[i],
            ) by {
                if i > 0 {
                    assert(all[i] == rest[i - 1]);
                }
            }
            assert forall|i: int| 0 <= i < all.len() - 1 implies #[trigger] all[i] + step(keyword)
                <= all[i + 1] by {
                if i > 0 {
                    assert(all[i] == rest[i - 1]);
                    assert(all[i + 1] == rest[i]);
                } else {
                    assert(all[1] == rest[0]);
                }
            }
        },
        None => {},
    }
}

/// `segments` cover `[cursor, end)` of a line in order, without gaps or
/// overlaps.
pub open spec fn tiles_from(segments: Seq<Segment>, cursor: int, end: int) -> bool {
    &&& segments.len() > 0
    &&& segments[0].start == cursor
    &&& segments.last().end == end
    &&& forall|i: int| 0 <= i < segments.len() - 1 ==> #[trigger] segments[i].end == segments[i + 1].start
    &&& forall|i: int| 0 <= i < segments.len() ==> #[trigger] segments[i].start <= segments[i].end
}

proof fn lemma_segments_from_tile(
    positions: Seq<int>,
    keyword_len: int,
    origin: Seq<int>,
    cursor: int,
    text_len: int,
)
    requires
        text_len <= usize::MAX,
        0 <= cursor <= text_len,
        keyword_len >= 0,
        forall|i: int| 0 <= i < positions.len() ==> 0 <= #[trigger] positions[i],
        forall|i: int|
            0 <= i < positions.len() ==> #[trigger] positions[i] + keyword_len <= origin.len(),
        forall|j: int| 0 <= j < origin.len() ==> 0 <= #[trigger] origin[j] < text_len,
    ensures
        tiles_from(segments_from(positions, keyword_len, origin, cursor, text_len), cursor, text_len),
        segments_from(positions, keyword_len, origin, cursor, text_len).len() == 2 * positions.len()
            + 1,
        forall|i: int|
            0 <= i < segments_from(positions, keyword_len, origin, cursor, text_len).len() ==> (
            #[trigger] segments_from(positions, keyword_len, origin, cursor, text_len)[i]).hit == (i
                % 2 == 1),
    decreases positions.len(),
{
    let segs = segments_from(positions, keyword_len, origin, cursor, text_len);
    if positions.len() > 0 {
        let p = positions[0];
        assert(0 <= p && p + keyword_len <= origin.len());
        let start = max(hit_start(origin, p, text_len), cursor);
        let end = max(hit_end(origin, p, keyword_len, text_len), start);
        assert(start <= text_len);
        assert(end <= text_len) by {
            if keyword_len > 0 {
                assert(0 <= origin[p + keyword_len - 1] < text_len);
            }
        }
        let rest = positions.drop_first();
        assert forall|i: int| 0 <= i < rest.len() implies 0 <= #[trigger] rest[i] by {
            assert(rest[i] == positions[i + 1]);
        }
        assert forall|i: int| 0 <= i < rest.len() implies #[trigger] rest[i] + keyword_len
            <= origin.len() by {
            assert(rest[i] == positions[i + 1]);
        }
        lemma_segments_from_tile(rest, keyword_len, origin, end, text_len);
        let tail = segments_from(rest, keyword_len, origin, end, text_len);
        assert(segs == seq![seg(cursor, start, false), seg(start, end, true)] + tail);
        assert forall|i: int| 0 <= i < segs.len() - 1 implies #[trigger] segs[i].end == segs[i
            + 1].start by {
            if i >= 2 {
                assert(segs[i] == tail[i - 2]);
                assert(segs[i + 1] == tail[i - 1]);
            } else if i == 1 {
                assert(segs[2] == tail[0]);
            }
        }
        assert forall|i: int| 0 <= i < segs.len() implies #[trigger] segs[i].start <= segs[i].end by {
            if i >= 2 {
                assert(segs[i] == tail[i - 2]);
            }
        }
        assert forall|i: int| 0 <= i < segs.len() implies (#[trigger] segs[i]).hit == (i % 2 == 1) by {
            if i >= 2 {
                assert(segs[i] == tail[i - 2]);
            }
        }
        assert(segs.last() == tail.last());
    }
}

/// A line's segments cover the whole line in order, without gaps or
/// overlaps, and alternate plain, hit, plain, ..., plain: one hit for each
/// occurrence of the lower-cased keyword in the lower-cased line; a line that
/// matches only as a whole string is a single hit.
pub proof fn lemma_highlight_tiles(text: Seq<char>, keyword: Seq<char>)
    requires
        text.len() <= usize::MAX,
    ensures
        tiles_from(highlight_spec(text, keyword), 0, text.len() as int),
        highlight_spec(text, keyword).len() == 2 * match_positions(
            lowered(text),
            lowered(keyword),
            0,
        ).len() + 1,
        !whole_line_hit(text, keyword) ==> forall|i: int|
            0 <= i < highlight_spec(text, keyword).len() ==> (#[trigger] highlight_spec(
                text,
                keyword,
            )[i]).hit == (i % 2 == 1),
        whole_line_hit(text, keyword) ==> highlight_spec(text, keyword) == seq![
            seg(0, text.len() as int, true),
        ],
{
    if !whole_line_hit(text, keyword) {
        let positions = match_positions(lowered(text), lowered(keyword), 0);
        lemma_match_positions_fit(lowered(text), lowered(keyword), 0);
        lemma_origins(text);
        assert forall|i: int| 0 <= i < positions.len() implies #[trigger] positions[i]
            + lowered(keyword).len() <= origins(text).len() by {
            assert(occurs_at(lowered(text), lowered(keyword), positions[i]));
        }
        lemma_segments_from_tile(
            positions,
            lowered(keyword).len() as int,
            origins(text),
            0,
            text.len() as int,
        );
    }
}

proof fn lemma_origins_identity(text: Seq<char>)
    requires
        forall|i: int| 0 <= i < text.len() ==> (#[trigger] char_lowercase_of(text[i])).len() == 1,
    ensures
        origins(text).len() == text.len(),
        forall|j: int| 0 <= j < text.len() ==> #[trigger] origins(text)[j] == j,
    decreases text.len(),
{
    if text.len() > 0 {
        let before = text.drop_last();
        assert forall|i: int| 0 <= i < before.len() implies (#[trigger] char_lowercase_of(
            before[i],
        )).len() == 1 by {
            assert(before[i] == text[i]);
        }
        lemma_origins_identity(before);
        assert(char_lowercase_of(text[text.len() - 1]).len() == 1);
        let extra = Seq::new(char_lowercase_of(text.last()).len(), |m: int| text.len() - 1);
        assert forall|j: int| 0 <= j < text.len() implies #[trigger] origins(text)[j] == j by {
            if j < before.len() {
                assert(origins(text)[j] == origins(before)[j]);
            } else {
                assert(origins(text)[j] == extra[0]);
            }
        }
    }
}

proof fn lemma_segments_exact(
    positions: Seq<int>,
    keyword_len: int,
    origin: Seq<int>,
    cursor: int,
    text_len: int,
)
    requires
        text_len <= usize::MAX,
        keyword_len >= 0,
        origin.len() == text_len,
        forall|j: int| 0 <= j < text_len ==> #[trigger] origin[j] == j,
        0 <= cursor,
        positions.len() > 0 ==> cursor <= positions[0],
        forall|i: int|
            0 <= i < positions.len() ==> 0 <= #[trigger] positions[i] && positions[i] + keyword_len
                <= text_len,
        forall|i: int|
            0 <= i < positions.len() - 1 ==> #[trigger] positions[i] + keyword_len <= positions[i
                + 1],
    ensures
        segments_from(positions, keyword_len, origin, cursor, text_len).len() == 2 * positions.len()
            + 1,
        forall|i: int|
            0 <= i < positions.len() ==> (#[trigger] segments_from(
                positions,
                keyword_len,
                origin,
                cursor,
                text_len,
            )[2 * i + 1]).hit && segments_from(
                positions,
                keyword_len,
                origin,
                cursor,
                text_len,
            )[2 * i + 1].start == positions[i] && segments_from(
                positions,
                keyword_len,
                origin,
                cursor,
                text_len,
            )[2 * i + 1].end == positions[i] + keyword_len,
    decreases positions.len(),
{
    if positions.len() > 0 {
        let p = positions[0];
        let end = p + keyword_len;
        assert(max(hit_start(origin, p, text_len), cursor) == p);
        assert(max(hit_end(origin, p, keyword_len, text_len), p) == end) by {
            if keyword_len > 0 {
                assert(origin[p + keyword_len - 1] == p + keyword_len - 1);
            }
        }
        let rest = positions.drop_first();
        assert forall|i: int| 0 <= i < rest.len() implies 0 <= #[trigger] rest[i] && rest[i]
            + keyword_len <= text_len by {
            assert(rest[i] == positions[i + 1]);
        }
        assert forall|i: int| 0 <= i < rest.len() - 1 implies #[trigger] rest[i] + keyword_len
            <= rest[i + 1] by {
            assert(rest[i] == positions[i + 1]);
            assert(rest[i + 1] == positions[i + 2]);
        }
        if rest.len() > 0 {
            assert(rest[0] == positions[1]);
            assert(positions[0] + keyword_len <= positions[1]);
        }
        lemma_segments_exact(rest, keyword_len, origin, end, text_len);
        let segs = segments_from(positions, keyword_len, origin, cursor, text_len);
        let tail = segments_from(rest, keyword_len, origin, end, text_len);
        assert(segs == seq![seg(cursor, p, false), seg(p, end, true)] + tail);
        assert(segs.len() == 2 * positions.len() + 1);
        assert forall|i: int| 0 <= i < positions.len() implies (#[trigger] segs[2 * i + 1]).hit
            && segs[2 * i + 1].start == positions[i] && segs[2 * i + 1].end == positions[i]
            + keyword_len by {
            if i > 0 {
                assert(segs[2 * i + 1] == tail[2 * (i - 1) + 1]);
                assert(rest[i - 1] == positions[i]);
            }
        }
    }
}

/// Where every character lower-cases to a single character, the hits are
/// exactly the occurrences of the keyword ignoring case: hit `i` covers the
/// characters `[p, p + len)` of the `i`-th occurrence `p` of the lower-cased
/// keyword in the lower-cased line.
#[verifier::rlimit(40)]
pub proof fn lemma_hits_are_occurrences(text: Seq<char>, keyword: Seq<char>)
    requires
        text.len() <= usize::MAX,
        forall|i: int| 0 <= i < text.len() ==> (#[trigger] char_lowercase_of(text[i])).len() == 1,
    ensures
        forall|i: int|
            0 <= i < match_positions(lowered(text), lowered(keyword), 0).len() ==> {
                let p = #[trigger] match_positions(lowered(text), lowered(keyword), 0)[i];
                &&& occurs_at(lowered(text), lowered(keyword), p)
                &&& highlight_spec(text, keyword)[2 * i + 1].hit
                &&& highlight_spec(text, keyword)[2 * i + 1].start == p
                &&& highlight_spec(text, keyword)[2 * i + 1].end == p + lowered(keyword).len()
            },
{
    let positions = match_positions(lowered(text), lowered(keyword), 0);
    if positions.len() > 0 {
        let klen = lowered(keyword).len() as int;
        lemma_origins_identity(text);
        lemma_origins(text);
        lemma_match_positions_fit(lowered(text), lowered(keyword), 0);
        assert forall|i: int| 0 <= i < positions.len() implies 0 <= #[trigger] positions[i]
            && positions[i] + klen <= text.len() by {
            assert(occurs_at(lowered(text), lowered(keyword), positions[i]));
        }
        assert forall|i: int| 0 <= i < positions.len() - 1 implies #[trigger] positions[i] + klen
            <= positions[i + 1] by {
            assert(positions[i] + step(lowered(keyword)) <= positions[i + 1]);
        }
        lemma_segments_exact(positions, klen, origins(text), 0, text.len() as int);
        let segs = segments_from(positions, klen, origins(text), 0, text.len() as int);
        assert(highlight_spec(text, keyword) == segs);
        assert forall|i: int| 0 <= i < positions.len() implies {
            let p = #[trigger] positions[i];
            &&& occurs_at(lowered(text), lowered(keyword), p)
            &&& highlight_spec(text, keyword)[2 * i + 1].hit
            &&& highlight_spec(text, keyword)[2 * i + 1].start == p
            &&& highlight_spec(text, keyword)[2 * i + 1].end == p + klen
        } by {
            assert(segs[2 * i + 1].hit);
        }
    }
}

/// No occurrence of a non-empty keyword at or after `from` is skipped: each
/// lies inside a match (`[p, p + len)` for a match position `p`), since every
/// search resumes right at the end of the previous match.
pub proof fn lemma_no_occurrence_skipped(text: Seq<char>, keyword: Seq<char>, from: int, q: int)
    requires
        keyword.len() > 0,
        0 <= from <= q,
        occurs_at(text, keyword, q),
    ensures
        exists|i: int|
            0 <= i < match_positions(text, keyword, from).len() && #[trigger] match_positions(
                text,
                keyword,
                from,
            )[i] <= q < match_positions(text, keyword, from)[i] + keyword.len(),
    decreases text.len() + 1 - from,
{
    lemma_next_occurrence(text, keyword, from);
    match next_occurrence(text, keyword, from) {
        Some(p) => {
            let all = match_positions(text, keyword, from);
            let rest = match_positions(text, keyword, p + keyword.len());
            assert(all == seq![p] + rest);
            if q < p + keyword.len() {
                assert(all[0] == p);
            } else {
                lemma_no_occurrence_skipped(text, keyword, p + keyword.len(), q);
                let i = choose|i: int|
                    0 <= i < rest.len() && #[trigger] rest[i] <= q < rest[i] + keyword.len();
                assert(all[i + 1] == rest[i]);
            }
        },
        None => {},
    }
}

/// Where every character lower-cases to a single character, every occurrence
/// of the (non-empty) lower-cased keyword in the lower-cased line starts
/// inside a hit: the hits leave out no occurrence that does not overlap an
/// earlier hit.
pub proof fn lemma_every_occurrence_highlighted(text: Seq<char>, keyword: Seq<char>, q: int)
    requires
        text.len() <= usize::MAX,
        forall|i: int| 0 <= i < text.len() ==> (#[trigger] char_lowercase_of(text[i])).len() == 1,
        lowered(keyword).len() > 0,
        occurs_at(lowered(text), lowered(keyword), q),
    ensures
        exists|j: int|
            0 <= j < highlight_spec(text, keyword).len() && (#[trigger] highlight_spec(
                text,
                keyword,
            )[j]).hit && highlight_spec(text, keyword)[j].start <= q < highlight_spec(
                text,
                keyword,
            )[j].end,
{
    let positions = match_positions(lowered(text), lowered(keyword), 0);
    lemma_no_occurrence_skipped(lowered(text), lowered(keyword), 0, q);
    let i = choose|i: int|
        0 <= i < positions.len() && #[trigger] positions[i] <= q < positions[i] + lowered(
            keyword,
        ).len();
    lemma_hits_are_occurrences(text, keyword);
    lemma_highlight_tiles(text, keyword);
    let segs = highlight_spec(text, keyword);
    assert(segs[2 * i + 1].hit && segs[2 * i + 1].start == positions[i] && segs[2 * i + 1].end
        == positions[i] + lowered(keyword).len());
}

} // verus!
