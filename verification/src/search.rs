//! Case-insensitive keyword search over the lines of a file, and the
//! refinement of earlier results by a further keyword.

use vstd::prelude::*;
use crate::bindings::{lowercase_of, to_lowercase};
use crate::file_handler::{lemma_wf_parts, FileHandler};

verus! {

/// The characters of a string, in order.
pub fn chars_of(text: &str) -> (chars: Vec<char>)
    ensures
        chars@ == text@,
{
    let mut chars: Vec<char> = Vec::new();
    for c in it: text.chars()
        invariant
            chars@ == it.seq().take(it.index() as int),
            it.seq() == text@,
    {
        chars.push(c);
    }
    chars
}

/// Whether `needle` occurs in `text` starting at index `i`.
pub open spec fn occurs_at(text: Seq<char>, needle: Seq<char>, i: int) -> bool {
    0 <= i && i + needle.len() <= text.len() && text.subrange(i, i + needle.len()) == needle
}

/// Whether `needle` occurs somewhere in `text`.
pub open spec fn is_substring(needle: Seq<char>, text: Seq<char>) -> bool {
    exists|i: int| occurs_at(text, needle, i)
}

/// The first index at or after `from` where `needle` occurs in `text`.
pub open spec fn next_occurrence(text: Seq<char>, needle: Seq<char>, from: int) -> Option<int>
    decreases text.len() + 1 - from,
{
    if from < 0 || from + needle.len() > text.len() {
        None
    } else if occurs_at(text, needle, from) {
        Some(from)
    } else {
        next_occurrence(text, needle, from + 1)
    }
}

/// What the first occurrence at or after `from` is: a match, with none before it.
pub proof fn lemma_next_occurrence(text: Seq<char>, needle: Seq<char>, from: int)
    requires
        0 <= from,
    ensures
        match next_occurrence(text, needle, from) {
            Some(p) => from <= p && occurs_at(text, needle, p) && forall|j: int|
                from <= j < p ==> !occurs_at(text, needle, j),
            None => forall|j: int| from <= j ==> !occurs_at(text, needle, j),
        },
    decreases text.len() + 1 - from,
{
    if from + needle.len() > text.len() {
    } else if occurs_at(text, needle, from) {
    } else {
        lemma_next_occurrence(text, needle, from + 1);
    }
}

/// The first index at or after `from` where `needle` occurs in `text`.
pub fn find_from(text: &[char], needle: &[char], from: usize) -> (found: Option<usize>)
    ensures
        match found {
            Some(p) => next_occurrence(text@, needle@, from as int) == Some(p as int),
            None => next_occurrence(text@, needle@, from as int) is None,
        },
{
    proof {
        lemma_next_occurrence(text@, needle@, from as int);
    }
    if needle.len() > text.len() || from > text.len() - needle.len() {
        return None;
    }
    let text_len = text.len();
    let last = text.len() - needle.len();
    let mut i = from;
    while i <= last
        invariant
            from <= i,
            last == text@.len() - needle@.len(),
            text_len == text@.len(),
            forall|j: int| from <= j < i ==> !occurs_at(text@, needle@, j),
            next_occurrence(text@, needle@, from as int) == next_occurrence(
                text@,
                needle@,
                i as int,
            ) || i > last,
        decreases last + 1 - i,
    {
        let mut k: usize = 0;
        let mut same = true;
        while k < needle.len()
            invariant
                i <= last,
                last == text@.len() - needle@.len(),
                k <= needle@.len(),
                same == forall|m: int| 0 <= m < k ==> text@[i + m] == needle@[m],
                text_len == text@.len(),
            decreases needle@.len() - k,
        {
            assert(i + k < text@.len());
            if text[i + k] != needle[k] {
                same = false;
            }
            k = k + 1;
        }
        if same {
            assert(text@.subrange(i as int, i + needle@.len()) =~= needle@);
            return Some(i);
        }
        assert(!occurs_at(text@, needle@, i as int)) by {
            let m = choose|m: int| 0 <= m < needle@.len() && text@[i + m] != needle@[m];
            if occurs_at(text@, needle@, i as int) {
                assert(text@.subrange(i as int, i + needle@.len())[m] == text@[i + m]);
            }
        }
        if i == last {
            proof {
                lemma_next_occurrence(text@, needle@, i + 1);
            }
            return None;
        }
        i = i + 1;
    }
    None
}

/// Whether `needle` occurs in `text`.
pub fn contains_chars(text: &[char], needle: &[char]) -> (found: bool)
    ensures
        found == is_substring(needle@, text@),
{
    proof {
        lemma_next_occurrence(text@, needle@, 0);
    }
    let found = find_from(text, needle, 0);
    found.is_some()
}

/// Whether `text`, lower-cased, contains `needle_lower`.
pub fn contains_lowercased(text: &str, needle_lower: &[char]) -> (found: bool)
    ensures
        found == is_substring(needle_lower@, lowercase_of(text@)),
{
    let lower = to_lowercase(text);
    let lower_chars = chars_of(lower.as_str());
    contains_chars(lower_chars.as_slice(), needle_lower)
}

/// Whether line `i` of the file contains `needle_lower` once lower-cased.
pub open spec fn line_has(handler: &FileHandler, needle_lower: Seq<char>, i: usize) -> bool {
    is_substring(needle_lower, lowercase_of(handler.line_text(i as int)))
}

/// The line numbers `0..n`.
pub open spec fn all_lines(n: nat) -> Seq<usize> {
    Seq::new(n, |i: int| i as usize)
}

/// The lines among `candidates`, in their order, that contain `needle_lower`
/// once lower-cased.
pub open spec fn matching_lines(
    handler: &FileHandler,
    candidates: Seq<usize>,
    needle_lower: Seq<char>,
) -> Seq<usize> {
    candidates.filter(|i: usize| line_has(handler, needle_lower, i))
}

/// Keeps the lines of `candidates` that contain `needle_lower` once
/// lower-cased, in their order.
pub fn filter_lines(handler: &FileHandler, candidates: &[usize], needle_lower: &[char]) -> (found:
    Vec<usize>)
    requires
        handler.wf(),
    ensures
        found@ == matching_lines(handler, candidates@, needle_lower@),
{
    let ghost pred = |i: usize| line_has(handler, needle_lower@, i);
    let mut found: Vec<usize> = Vec::new();
    let mut k: usize = 0;
    while k < candidates.len()
        invariant
            handler.wf(),
            k <= candidates@.len(),
            pred == (|i: usize| line_has(handler, needle_lower@, i)),
            found@ == candidates@.take(k as int).filter(pred),
        decreases candidates@.len() - k,
    {
        let index = candidates[k];
        let line = handler.get_line(index);
        let hit = contains_lowercased(line.as_str(), needle_lower);
        proof {
            assert(candidates@.take(k + 1) =~= candidates@.take(k as int).push(index));
            candidates@.take(k as int).lemma_filter_push(index, pred);
        }
        if hit {
            found.push(index);
        }
        k = k + 1;
    }
    assert(candidates@.take(candidates@.len() as int) =~= candidates@);
    found
}

/// Searches every line of the file for `keyword`, ignoring case: the
/// numbers of the lines that contain it, in increasing order.
pub fn search_lines(handler: &FileHandler, keyword: &str) -> (found: Vec<usize>)
    requires
        handler.wf(),
    ensures
        found@ == matching_lines(
            handler,
            all_lines(handler.offsets().len()),
            lowercase_of(keyword@),
        ),
{
    let needle_lower = to_lowercase(keyword);
    let needle = chars_of(needle_lower.as_str());
    let total = handler.total_lines();
    let ghost all = all_lines(total as nat);
    let ghost pred = |i: usize| line_has(handler, needle@, i);
    let mut found: Vec<usize> = Vec::new();
    let mut i: usize = 0;
    while i < total
        invariant
            handler.wf(),
            total == handler.offsets().len(),
            all == all_lines(total as nat),
            i <= total,
            pred == (|i: usize| line_has(handler, needle@, i)),
            found@ == all.take(i as int).filter(pred),
        decreases total - i,
    {
        let line = handler.get_line(i);
        let hit = contains_lowercased(line.as_str(), needle.as_slice());
        proof {
            assert(all[i as int] == i);
            assert(all.take(i + 1) =~= all.take(i as int).push(i));
            all.take(i as int).lemma_filter_push(i, pred);
        }
        if hit {
            found.push(i);
        }
        i = i + 1;
    }
    assert(all.take(total as int) =~= all);
    found
}

/// Searches, among `previous`, the lines that contain `keyword`, ignoring
/// case, in the order of `previous`.
pub fn refine_lines(handler: &FileHandler, previous: &[usize], keyword: &str) -> (found: Vec<usize>)
    requires
        handler.wf(),
    ensures
        found@ == matching_lines(handler, previous@, lowercase_of(keyword@)),
{
    let needle_lower = to_lowercase(keyword);
    let needle = chars_of(needle_lower.as_str());
    filter_lines(handler, previous, needle.as_slice())
}

/// Whether a sequence of line numbers is strictly increasing.
pub open spec fn strictly_increasing(s: Seq<usize>) -> bool {
    forall|i: int, j: int| 0 <= i < j < s.len() ==> s[i] < s[j]
}

proof fn lemma_filter_keeps_order(s: Seq<usize>, pred: spec_fn(usize) -> bool)
    requires
        strictly_increasing(s),
    ensures
        strictly_increasing(s.filter(pred)),
        forall|i: int| 0 <= i < s.filter(pred).len() ==> s.contains(#[trigger] s.filter(pred)[i]),
    decreases s.len(),
{
    reveal(Seq::filter);
    if s.len() > 0 {
        let rest = s.drop_last();
        assert(strictly_increasing(rest));
        lemma_filter_keeps_order(rest, pred);
        let f = rest.filter(pred);
        assert forall|i: int| 0 <= i < f.len() implies f[i] < s.last() by {
            let k = choose|k: int| 0 <= k < rest.len() && rest[k] == f[i];
            assert(s[k] < s[s.len() - 1]);
        }
        assert forall|i: int| 0 <= i < s.filter(pred).len() implies s.contains(
            #[trigger] s.filter(pred)[i],
        ) by {
            if i < f.len() {
                let k = choose|k: int| 0 <= k < rest.len() && rest[k] == f[i];
                assert(s[k] == rest[k]);
            } else {
                assert(s[s.len() - 1] == s.last());
            }
        }
    }
}

proof fn lemma_filter_twice(s: Seq<usize>, p: spec_fn(usize) -> bool, q: spec_fn(usize) -> bool)
    ensures
        s.filter(p).filter(q) == s.filter(|x: usize| p(x) && q(x)),
    decreases s.len(),
{
    reveal(Seq::filter);
    let both = |x: usize| p(x) && q(x);
    if s.len() > 0 {
        lemma_filter_twice(s.drop_last(), p, q);
        let f = s.drop_last().filter(p);
        if p(s.last()) {
            f.lemma_filter_push(s.last(), q);
        }
    } else {
        assert(s.filter(p) =~= s);
    }
}

/// A search finds exactly the lines that contain the keyword, ignoring
/// case, each once and in increasing order.
pub proof fn lemma_search_finds_matching_lines(handler: &FileHandler, needle_lower: Seq<char>)
    requires
        handler.wf(),
    ensures
        strictly_increasing(
            matching_lines(handler, all_lines(handler.offsets().len()), needle_lower),
        ),
        forall|k: int|
            0 <= k < matching_lines(handler, all_lines(handler.offsets().len()), needle_lower).len()
                ==> {
                let i = #[trigger] matching_lines(
                    handler,
                    all_lines(handler.offsets().len()),
                    needle_lower,
                )[k];
                i < handler.offsets().len() && line_has(handler, needle_lower, i)
            },
        forall|i: usize|
            i < handler.offsets().len() && line_has(handler, needle_lower, i) ==> matching_lines(
                handler,
                all_lines(handler.offsets().len()),
                needle_lower,
            ).contains(i),
{
    broadcast use vstd::seq_lib::group_filter_ensures;

    lemma_wf_parts(handler);
    let all = all_lines(handler.offsets().len());
    let pred = |i: usize| line_has(handler, needle_lower, i);
    lemma_filter_keeps_order(all, pred);
    assert forall|k: int| 0 <= k < all.filter(pred).len() implies #[trigger] all.filter(pred)[k]
        < handler.offsets().len() && line_has(handler, needle_lower, all.filter(pred)[k]) by {
        assert(all.contains(all.filter(pred)[k]));
        let m = choose|m: int| 0 <= m < all.len() && all[m] == all.filter(pred)[k];
        assert(pred(all.filter(pred)[k]));
    }
    assert forall|i: usize| i < handler.offsets().len() && line_has(
        handler,
        needle_lower,
        i,
    ) implies all.filter(pred).contains(i) by {
        assert(all[i as int] == i);
    }
}

/// Refining keeps, among the earlier results and in their order, exactly
/// those that also contain the new keyword; refining a search equals one
/// search for lines that contain both keywords.
pub proof fn lemma_refine_narrows(
    handler: &FileHandler,
    previous: Seq<usize>,
    first_needle: Seq<char>,
    second_needle: Seq<char>,
)
    ensures
        forall|k: int|
            0 <= k < matching_lines(handler, previous, second_needle).len() ==> previous.contains(
                #[trigger] matching_lines(handler, previous, second_needle)[k],
            ) && line_has(handler, second_needle, matching_lines(handler, previous, second_needle)[k]),
        forall|k: int|
            0 <= k < previous.len() && line_has(handler, second_needle, previous[k])
                ==> matching_lines(handler, previous, second_needle).contains(previous[k]),
        matching_lines(
            handler,
            matching_lines(handler, all_lines(handler.offsets().len()), first_needle),
            second_needle,
        ) == all_lines(handler.offsets().len()).filter(
            |i: usize| line_has(handler, first_needle, i) && line_has(handler, second_needle, i),
        ),
{
    let p = |i: usize| line_has(handler, first_needle, i);
    let q = |i: usize| line_has(handler, second_needle, i);
    broadcast use vstd::seq_lib::group_filter_ensures;

    assert forall|k: int| 0 <= k < previous.filter(q).len() implies previous.contains(
        #[trigger] previous.filter(q)[k],
    ) by {
        previous.lemma_filter_contains_rev(q, previous.filter(q)[k]);
    }
    lemma_filter_twice(all_lines(handler.offsets().len()), p, q);
    assert((|x: usize| p(x) && q(x)) =~= (|i: usize|
        line_has(handler, first_needle, i) && line_has(handler, second_needle, i)));
}

/// Refining by a keyword the lines that refining by the same keyword gave
/// changes nothing: a new stage refined again by its own keyword yields the
/// same lines.
pub proof fn lemma_refine_again_same(
    handler: &FileHandler,
    previous: Seq<usize>,
    needle_lower: Seq<char>,
)
    ensures
        matching_lines(handler, matching_lines(handler, previous, needle_lower), needle_lower)
            == matching_lines(handler, previous, needle_lower),
{
    let p = |i: usize| line_has(handler, needle_lower, i);
    lemma_filter_twice(previous, p, p);
    assert((|x: usize| p(x) && p(x)) =~= p);
}

} // verus!
