use big_text_viewer::file_handler::FileHandler;
use big_text_viewer::search::search_lines;
use big_text_viewer::session::{RowMark, Status, ViewerState};

fn handler_for(text: &str) -> FileHandler {
    let bytes = text.as_bytes();
    let mut map = memmap2::MmapMut::map_anon(bytes.len()).unwrap();
    map.copy_from_slice(bytes);
    let map = map.make_read_only().unwrap();
    FileHandler::from_mapping(map, "notes.txt".to_string(), bytes.len() as u64)
}

fn opened(text: &str) -> ViewerState {
    let mut state = ViewerState::new();
    state.file_opened(handler_for(text));
    state
}

#[test]
fn new_session_is_ready() {
    let state = ViewerState::new();
    assert!(matches!(state.status, Status::Ready));
    assert!(state.file_handler.is_none());
    assert!(state.search_results.is_empty());
    assert!(!state.is_searching);
}

#[test]
fn opening_reports_the_file() {
    let state = opened("one\ntwo\nthree\n");
    match &state.status {
        Status::Opened { file_name, total_lines, file_size, encoding_name } => {
            assert_eq!(file_name, "notes.txt");
            assert_eq!(*total_lines, 3);
            assert_eq!(*file_size, 14);
            assert_eq!(encoding_name, "UTF-8");
        }
        _ => panic!("expected Opened"),
    }
}

#[test]
fn begin_open_and_failure() {
    let mut state = opened("x\n");
    state.begin_open("big.log".to_string());
    assert!(state.file_handler.is_none());
    assert!(matches!(&state.status, Status::Indexing { file_name } if file_name == "big.log"));
    state.file_failed("no such file".to_string());
    assert!(matches!(&state.status, Status::OpenFailed { error } if error == "no such file"));
}

#[test]
fn search_refused_without_keyword_file_or_while_running() {
    let mut state = ViewerState::new();
    state.search_query = "abc".to_string();
    assert!(state.start_search().is_none());
    let mut state = opened("abc\n");
    state.search_query = "   ".to_string();
    assert!(state.start_search().is_none());
    state.search_query = "abc".to_string();
    assert!(state.start_search().is_some());
    assert!(state.start_search().is_none());
}

#[test]
fn search_then_refine_builds_stages() {
    let mut state = opened("apple pie\nbanana\nApple juice\ncherry pie\n");
    state.search_query = "  apple ".to_string();
    let request = state.start_search().unwrap();
    assert_eq!(request.keyword, "apple");
    assert!(state.is_searching);
    assert!(matches!(&state.status, Status::Searching { keyword } if keyword == "apple"));
    let found = search_lines(&request.handler, &request.keyword);
    state.search_finished(found);
    assert!(!state.is_searching);
    assert_eq!(state.search_results, vec![0, 2]);
    assert_eq!(state.scroll_to_line, Some(0));
    assert_eq!(state.stages.len(), 1);
    assert_eq!(state.stages[0].id, 1);
    assert_eq!(state.windows[0].stage_index, 0);
    assert!(matches!(&state.status, Status::Found { count: 2, keyword } if keyword == "apple"));

    state.refine_search_in_stage(0, " JUICE ".to_string());
    assert_eq!(state.search_results, vec![2]);
    assert_eq!(state.stages.len(), 2);
    assert_eq!(state.stages[1].id, 2);
    assert_eq!(state.stages[1].keyword, "JUICE");
    assert_eq!(state.windows[1].stage_index, 1);
    assert!(state.windows[1].open);
    assert!(matches!(&state.status, Status::StageFound { stage_id: 2, count: 1, keyword } if keyword == "JUICE"));
}

#[test]
fn empty_result_opens_nil_dialog() {
    let mut state = opened("alpha\nbeta\n");
    state.search_query = "gamma".to_string();
    let request = state.start_search().unwrap();
    let found = search_lines(&request.handler, &request.keyword);
    state.search_finished(found);
    assert!(state.nil_dialog);
    assert!(state.stages.is_empty());
    assert_eq!(state.scroll_to_line, None);
    assert!(matches!(&state.status, Status::NoResult { keyword } if keyword == "gamma"));
}

#[test]
fn refine_ignored_for_blank_keyword_or_missing_stage() {
    let mut state = opened("a\nb\n");
    state.apply_stage("a".to_string(), vec![0], true);
    state.refine_search_in_stage(0, "  ".to_string());
    state.refine_search_in_stage(5, "a".to_string());
    assert_eq!(state.stages.len(), 1);
    assert_eq!(state.search_results, vec![0]);
}

#[test]
fn cursor_wraps_both_ways() {
    let mut state = opened("x\nx\nx\nx\nx\n");
    state.apply_stage("x".to_string(), vec![0, 2, 4], true);
    assert_eq!(state.current_result, 0);
    state.go_to_result(-1);
    assert_eq!(state.current_result, 2);
    assert_eq!(state.scroll_to_line, Some(4));
    state.go_to_result(1);
    assert_eq!(state.current_result, 0);
    state.go_to_result(1);
    state.go_to_result(-1);
    assert_eq!(state.current_result, 0);
    state.go_to_result(7);
    assert_eq!(state.current_result, 1);
    state.go_to_result(isize::MIN);
    assert_eq!(state.current_result, ((1i128 + isize::MIN as i128).rem_euclid(3)) as usize);
    state.go_to_result(-2);
    assert_eq!(state.current_result, 0);
    state.go_to_result(isize::MAX);
    assert_eq!(state.current_result, ((isize::MAX as i128).rem_euclid(3)) as usize);
}

#[test]
fn cursor_stays_without_results() {
    let mut state = opened("x\n");
    state.go_to_result(1);
    assert_eq!(state.current_result, 0);
    assert_eq!(state.scroll_to_line, None);
}

#[test]
fn rows_are_marked() {
    let mut state = opened("a\nb\nc\nd\n");
    state.apply_stage("k".to_string(), vec![1, 3], true);
    assert_eq!(state.row_mark(1), RowMark::Selected);
    assert_eq!(state.row_mark(3), RowMark::Matched);
    assert_eq!(state.row_mark(0), RowMark::Plain);
    state.go_to_result(1);
    assert_eq!(state.row_mark(3), RowMark::Selected);
    assert_eq!(state.row_mark(1), RowMark::Matched);
}

#[test]
fn clearing_resets_results_and_status() {
    let mut state = opened("a\nb\n");
    state.search_query = "a".to_string();
    state.apply_stage("a".to_string(), vec![0], true);
    state.clear_search();
    assert!(state.search_query.is_empty());
    assert!(state.search_results.is_empty());
    assert!(state.stages.is_empty());
    assert!(state.windows.is_empty());
    match &state.status {
        Status::Cleared { file_name, total_lines, encoding_name } => {
            assert_eq!(file_name, "notes.txt");
            assert_eq!(*total_lines, 2);
            assert_eq!(encoding_name, "UTF-8");
        }
        _ => panic!("expected Cleared"),
    }
    assert_eq!(state.row_mark(0), RowMark::Plain);
}

#[test]
fn search_keyword_is_trimmed_of_unicode_white_space() {
    let mut state = opened("abc\n");
    state.search_query = "\u{3000}abc\u{A0}\t".to_string();
    let request = state.start_search().unwrap();
    assert_eq!(request.keyword, "abc");
    let mut state = opened("abc\n");
    state.search_query = "\u{2028}\u{205F}".to_string();
    assert!(state.start_search().is_none());
}

#[test]
fn refining_a_stage_again_by_its_keyword_repeats_it() {
    let mut state = opened("red apple\ngreen apple\nred cherry\n");
    state.apply_stage("all".to_string(), vec![0, 1, 2], true);
    state.refine_search_in_stage(0, "red".to_string());
    assert_eq!(state.stages[1].line_indices, vec![0, 2]);
    state.refine_search_in_stage(1, "red".to_string());
    assert_eq!(state.stages[2].line_indices, state.stages[1].line_indices);
    assert_eq!(state.stages[0].line_indices, vec![0, 1, 2]);
}
