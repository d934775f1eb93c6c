use big_text_viewer::file_handler::FileHandler;
use big_text_viewer::format::fmt_num;
use big_text_viewer::highlight::{highlight_segments, Segment};
use big_text_viewer::search::{chars_of, contains_chars, find_from, refine_lines, search_lines};

fn handler_for(text: &str) -> FileHandler {
    let bytes = text.as_bytes();
    let mut map = memmap2::MmapMut::map_anon(bytes.len()).unwrap();
    map.copy_from_slice(bytes);
    let map = map.make_read_only().unwrap();
    FileHandler::from_mapping(map, "log.txt".to_string(), bytes.len() as u64)
}

fn seg(start: usize, end: usize, hit: bool) -> Segment {
    Segment { start, end, hit }
}

#[test]
fn formats_counts_with_separators() {
    assert_eq!(fmt_num(0), "0");
    assert_eq!(fmt_num(7), "7");
    assert_eq!(fmt_num(999), "999");
    assert_eq!(fmt_num(1000), "1,000");
    assert_eq!(fmt_num(1001), "1,001");
    assert_eq!(fmt_num(123456), "123,456");
    assert_eq!(fmt_num(1234567), "1,234,567");
    assert_eq!(fmt_num(1_000_000_000), "1,000,000,000");
}

#[test]
fn formatted_count_without_commas_is_the_number() {
    for n in [0usize, 5, 42, 999, 1000, 65_536, 4_294_967_295, usize::MAX] {
        let formatted = fmt_num(n);
        let digits: String = formatted.chars().filter(|c| *c != ',').collect();
        assert_eq!(digits, n.to_string());
        for group in formatted.split(',').skip(1) {
            assert_eq!(group.len(), 3);
        }
    }
}

#[test]
fn finds_character_runs() {
    let text = chars_of("abcabc");
    assert_eq!(find_from(&text, &chars_of("bc"), 0), Some(1));
    assert_eq!(find_from(&text, &chars_of("bc"), 2), Some(4));
    assert_eq!(find_from(&text, &chars_of("bc"), 5), None);
    assert_eq!(find_from(&text, &chars_of(""), 6), Some(6));
    assert_eq!(find_from(&text, &chars_of("abcabcd"), 0), None);
    assert!(contains_chars(&text, &chars_of("cab")));
    assert!(!contains_chars(&text, &chars_of("cc")));
    assert!(contains_chars(&text, &chars_of("")));
}

#[test]
fn search_ignores_case() {
    let handler = handler_for("Error: disk\nok\nERROR again\nerr\n");
    assert_eq!(search_lines(&handler, "error"), vec![0, 2]);
    assert_eq!(search_lines(&handler, "ERR"), vec![0, 2, 3]);
    assert_eq!(search_lines(&handler, "missing"), Vec::<usize>::new());
    assert_eq!(search_lines(&handler, "Ä"), Vec::<usize>::new());
}

#[test]
fn search_matches_non_ascii_case() {
    let handler = handler_for("ÄPFEL\näpfel\nBirne\n");
    assert_eq!(search_lines(&handler, "äpfel"), vec![0, 1]);
}

#[test]
fn refine_keeps_order_and_subset() {
    let handler = handler_for("a1\nb2\na2\na3\nb1\n");
    let first = search_lines(&handler, "A");
    assert_eq!(first, vec![0, 2, 3]);
    let second = refine_lines(&handler, &first, "2");
    assert_eq!(second, vec![2]);
    // Refining equals searching for both keywords at once.
    let both: Vec<usize> = (0..5)
        .filter(|&i| handler.get_line(i).contains('a') && handler.get_line(i).contains('2'))
        .collect();
    assert_eq!(second, both);
    // Candidates are kept in their own order.
    assert_eq!(refine_lines(&handler, &[3, 0, 4], "a"), vec![3, 0]);
}

#[test]
fn highlights_exact_matches() {
    assert_eq!(
        highlight_segments("the cat sat", "at"),
        vec![seg(0, 5, false), seg(5, 7, true), seg(7, 9, false), seg(9, 11, true), seg(11, 11, false)]
    );
    // Matches do not overlap.
    assert_eq!(
        highlight_segments("aaa", "aa"),
        vec![seg(0, 0, false), seg(0, 2, true), seg(2, 3, false)]
    );
    // Positions count characters.
    assert_eq!(
        highlight_segments("中文中文", "文"),
        vec![seg(0, 1, false), seg(1, 2, true), seg(2, 3, false), seg(3, 4, true), seg(4, 4, false)]
    );
}

#[test]
fn highlights_every_case_insensitive_match() {
    assert_eq!(
        highlight_segments("Hello World", "world"),
        vec![seg(0, 6, false), seg(6, 11, true), seg(11, 11, false)]
    );
    assert_eq!(
        highlight_segments("ab AB", "ab"),
        vec![seg(0, 0, false), seg(0, 2, true), seg(2, 3, false), seg(3, 5, true), seg(5, 5, false)]
    );
    assert_eq!(
        highlight_segments("ÄPFEL und äpfel", "Äpfel"),
        vec![seg(0, 0, false), seg(0, 5, true), seg(5, 10, false), seg(10, 15, true), seg(15, 15, false)]
    );
    assert_eq!(highlight_segments("Hello World", "moon"), vec![seg(0, 11, false)]);
    assert_eq!(highlight_segments("", "x"), vec![seg(0, 0, false)]);
}

#[test]
fn highlight_maps_expanded_lowercase_back_to_characters() {
    // 'İ' lower-cases to two characters ("i" and a combining dot).
    assert_eq!(
        highlight_segments("İx", "i"),
        vec![seg(0, 0, false), seg(0, 1, true), seg(1, 2, false)]
    );
    assert_eq!(
        highlight_segments("aİb", "X"),
        vec![seg(0, 3, false)]
    );
}

#[test]
fn empty_keyword_matches_every_position() {
    assert_eq!(
        highlight_segments("ab", ""),
        vec![
            seg(0, 0, false),
            seg(0, 0, true),
            seg(0, 1, false),
            seg(1, 1, true),
            seg(1, 2, false),
            seg(2, 2, true),
            seg(2, 2, false)
        ]
    );
}

#[test]
fn segments_cover_the_line() {
    for (text, keyword) in [("abcabcab", "ab"), ("xyz", "Y"), ("", ""), ("no match", "zz"), ("İİ", "i")] {
        let segments = highlight_segments(text, keyword);
        assert_eq!(segments[0].start, 0);
        assert_eq!(segments.last().unwrap().end, text.chars().count());
        for pair in segments.windows(2) {
            assert_eq!(pair[0].end, pair[1].start);
        }
    }
}

#[test]
fn refining_again_by_the_same_keyword_changes_nothing() {
    let handler = handler_for("Apple\nbanana\napple pie\ncherry\nAPPLE\n");
    let all: Vec<usize> = (0..handler.total_lines()).collect();
    let once = refine_lines(&handler, &all, "apple");
    assert_eq!(once, vec![0, 2, 4]);
    assert_eq!(refine_lines(&handler, &once, "apple"), once);
}

#[test]
fn line_matching_only_as_a_whole_string_is_one_hit() {
    // Lower-cased as a whole, "ΟΔΟΣ" ends in a final sigma and so contains
    // "οδος"; character by character it ends in σ and does not.
    let keyword = "οδο\u{3C2}";
    assert_eq!(highlight_segments("ΟΔΟΣ", keyword), vec![seg(0, 4, true)]);
    assert_eq!(highlight_segments("ΟΔΟΣ!", keyword), vec![seg(0, 5, true)]);
    // A line with a character-level hit keeps its per-hit segments.
    assert_eq!(
        highlight_segments("ΟΔΟΣ οδος", keyword),
        vec![seg(0, 5, false), seg(5, 9, true), seg(9, 9, false)]
    );
}
