use big_text_viewer::encoding::{bom_length, detect_encoding, TextEncoding};
use big_text_viewer::file_handler::{check_file_size, FileHandler, OpenError, MAX_FILE_SIZE};
use big_text_viewer::line_index::{build_line_index, trim_line_ending};

fn mapped(bytes: &[u8]) -> memmap2::Mmap {
    let mut map = memmap2::MmapMut::map_anon(bytes.len()).unwrap();
    map.copy_from_slice(bytes);
    map.make_read_only().unwrap()
}

fn handler_for(bytes: &[u8]) -> FileHandler {
    // An anonymous map cannot be empty; the tests that need exact contents use
    // at least one byte.
    assert!(!bytes.is_empty());
    FileHandler::from_mapping(mapped(bytes), "sample.txt".to_string(), bytes.len() as u64)
}

fn utf16le(text: &str, bom: bool) -> Vec<u8> {
    let mut out = Vec::new();
    if bom {
        out.extend_from_slice(&[0xFF, 0xFE]);
    }
    for unit in text.encode_utf16() {
        out.extend_from_slice(&unit.to_le_bytes());
    }
    out
}

fn utf16be(text: &str, bom: bool) -> Vec<u8> {
    let mut out = Vec::new();
    if bom {
        out.extend_from_slice(&[0xFE, 0xFF]);
    }
    for unit in text.encode_utf16() {
        out.extend_from_slice(&unit.to_be_bytes());
    }
    out
}

fn name_of(encoding: &TextEncoding) -> String {
    encoding.name()
}

#[test]
fn detects_utf8_bom() {
    let encoding = detect_encoding(b"\xEF\xBB\xBFhello");
    assert!(matches!(encoding, TextEncoding::Utf8));
    assert_eq!(bom_length(b"\xEF\xBB\xBFhello", &encoding), 3);
}

#[test]
fn detects_utf16_boms() {
    let le = utf16le("hi", true);
    let encoding = detect_encoding(&le);
    assert!(matches!(encoding, TextEncoding::Utf16Le));
    assert_eq!(bom_length(&le, &encoding), 2);
    let be = utf16be("hi", true);
    let encoding = detect_encoding(&be);
    assert!(matches!(encoding, TextEncoding::Utf16Be));
    assert_eq!(bom_length(&be, &encoding), 2);
    assert_eq!(name_of(&encoding), "UTF-16BE");
}

#[test]
fn plain_utf8_has_no_bom() {
    let data = "繁體中文 text".as_bytes();
    let encoding = detect_encoding(data);
    assert!(matches!(encoding, TextEncoding::Utf8));
    assert_eq!(bom_length(data, &encoding), 0);
    assert_eq!(name_of(&encoding), "UTF-8");
}

#[test]
fn empty_data_is_utf8() {
    let encoding = detect_encoding(b"");
    assert!(matches!(encoding, TextEncoding::Utf8));
    assert_eq!(bom_length(b"", &encoding), 0);
}

#[test]
fn legacy_bytes_are_guessed() {
    // "中文測試，這是一段繁體中文的文字。" repeated, in Big5.
    let big5: &[u8] = &[
        0xA4, 0xA4, 0xA4, 0xE5, 0xB4, 0xFA, 0xB8, 0xD5, 0xA1, 0x41, 0xB3, 0x6F, 0xAC, 0x4F, 0xA4,
        0x40, 0xAC, 0x71, 0xC1, 0x63, 0xC5, 0xE9, 0xA4, 0xA4, 0xA4, 0xE5, 0xAA, 0xBA, 0xA4, 0xE5,
        0xA6, 0x72, 0xA1, 0x43,
    ];
    let mut data = Vec::new();
    for _ in 0..8 {
        data.extend_from_slice(big5);
        data.push(b'\n');
    }
    let encoding = detect_encoding(&data);
    match &encoding {
        TextEncoding::Detected(name) => assert_eq!(name, "Big5"),
        _ => panic!("expected a detected legacy encoding"),
    }
    assert_eq!(bom_length(&data, &encoding), 0);
}

#[test]
fn from_name_classifies_unicode_names() {
    assert!(matches!(TextEncoding::from_name("UTF-8".to_string()), TextEncoding::Utf8));
    assert!(matches!(TextEncoding::from_name("UTF-16LE".to_string()), TextEncoding::Utf16Le));
    assert!(matches!(TextEncoding::from_name("UTF-16BE".to_string()), TextEncoding::Utf16Be));
    match TextEncoding::from_name("Shift_JIS".to_string()) {
        TextEncoding::Detected(name) => assert_eq!(name, "Shift_JIS"),
        _ => panic!("expected Detected"),
    }
}

#[test]
fn bom_of_another_encoding_is_not_skipped() {
    assert_eq!(bom_length(b"\xFF\xFEab", &TextEncoding::Utf8), 0);
    assert_eq!(bom_length(b"\xEF\xBB\xBFab", &TextEncoding::Utf16Le), 0);
    assert_eq!(bom_length(b"\xFE\xFFab", &TextEncoding::Detected("Big5".to_string())), 0);
}

#[test]
fn line_index_of_bytes() {
    assert_eq!(build_line_index(b"a\nbc\nd", &TextEncoding::Utf8, 0), vec![0, 2, 5]);
    // A final line feed does not start another line.
    assert_eq!(build_line_index(b"a\nbc\n", &TextEncoding::Utf8, 0), vec![0, 2]);
    assert_eq!(build_line_index(b"\n\n", &TextEncoding::Utf8, 0), vec![0, 1]);
    assert_eq!(build_line_index(b"", &TextEncoding::Utf8, 0), Vec::<usize>::new());
    // Nothing after the byte order mark: no lines.
    assert_eq!(build_line_index(b"\xEF\xBB\xBF", &TextEncoding::Utf8, 3), Vec::<usize>::new());
    assert_eq!(build_line_index(b"\xEF\xBB\xBFx\ny", &TextEncoding::Utf8, 3), vec![3, 5]);
}

#[test]
fn line_index_of_utf16() {
    let le = utf16le("ab\ncd\n\u{0A0A}x", true);
    // BOM(2) a b \n | c d \n | U+0A0A x
    assert_eq!(build_line_index(&le, &TextEncoding::Utf16Le, 2), vec![2, 8, 14]);
    let be = utf16be("ab\ncd", false);
    assert_eq!(build_line_index(&be, &TextEncoding::Utf16Be, 0), vec![0, 6]);
    // An odd trailing byte is not a code unit.
    let mut odd = utf16le("a\n", false);
    odd.push(0x0A);
    assert_eq!(build_line_index(&odd, &TextEncoding::Utf16Le, 0), vec![0, 4]);
}

#[test]
fn trims_line_endings() {
    assert_eq!(trim_line_ending(b"abc\r\n", &TextEncoding::Utf8), b"abc");
    assert_eq!(trim_line_ending(b"abc\n", &TextEncoding::Utf8), b"abc");
    assert_eq!(trim_line_ending(b"abc\r", &TextEncoding::Utf8), b"abc");
    assert_eq!(trim_line_ending(b"abc\n\r", &TextEncoding::Utf8), b"abc\n");
    assert_eq!(trim_line_ending(b"abc\n\n", &TextEncoding::Utf8), b"abc\n");
    assert_eq!(trim_line_ending(b"", &TextEncoding::Utf8), b"");
    assert_eq!(trim_line_ending(&utf16le("x\r\n", false), &TextEncoding::Utf16Le), &utf16le("x", false)[..]);
    assert_eq!(trim_line_ending(&utf16be("x\r\n", false), &TextEncoding::Utf16Be), &utf16be("x", false)[..]);
    // A lone 0x0A byte is not a UTF-16 line feed.
    assert_eq!(trim_line_ending(&[0x41, 0x0A], &TextEncoding::Utf16Le), &[0x41, 0x0A]);
}

#[test]
fn file_size_limit() {
    assert_eq!(MAX_FILE_SIZE, 4_294_967_296);
    assert!(check_file_size(0).is_ok());
    assert!(check_file_size(MAX_FILE_SIZE).is_ok());
    match check_file_size(MAX_FILE_SIZE + 1) {
        Err(OpenError::TooLarge { file_size }) => assert_eq!(file_size, MAX_FILE_SIZE + 1),
        Ok(()) => panic!("a file over the limit must be refused"),
    }
}

#[test]
fn reads_utf8_lines() {
    let handler = handler_for("first\r\n第二行\nlast".as_bytes());
    assert_eq!(handler.total_lines(), 3);
    assert_eq!(handler.encoding_name(), "UTF-8");
    assert_eq!(handler.file_name(), "sample.txt");
    assert_eq!(handler.get_line(0), "first");
    assert_eq!(handler.get_line(1), "第二行");
    assert_eq!(handler.get_line(2), "last");
    assert_eq!(handler.get_line(3), "");
    assert_eq!(handler.get_line(usize::MAX), "");
    assert_eq!(handler.line_bounds(0), Some((0, 7)));
    assert_eq!(handler.line_bounds(1), Some((7, 17)));
    assert_eq!(handler.line_bounds(2), Some((17, 21)));
    assert_eq!(handler.line_bounds(3), None);
}

#[test]
fn reads_utf8_with_bom() {
    let handler = handler_for(b"\xEF\xBB\xBFone\ntwo\n");
    assert_eq!(handler.total_lines(), 2);
    assert_eq!(handler.get_line(0), "one");
    assert_eq!(handler.get_line(1), "two");
    assert_eq!(handler.line_bounds(0), Some((3, 7)));
}

#[test]
fn reads_utf16_lines() {
    let handler = handler_for(&utf16le("甲\r\n乙", true));
    assert_eq!(handler.encoding_name(), "UTF-16LE");
    assert_eq!(handler.total_lines(), 2);
    assert_eq!(handler.get_line(0), "甲");
    assert_eq!(handler.get_line(1), "乙");
    let handler = handler_for(&utf16be("one\ntwo", true));
    assert_eq!(handler.encoding_name(), "UTF-16BE");
    assert_eq!(handler.get_line(1), "two");
}

#[test]
fn reads_big5_lines() {
    let mut data = Vec::new();
    for _ in 0..8 {
        data.extend_from_slice(&[0xA4, 0xA4, 0xA4, 0xE5, 0xB4, 0xFA, 0xB8, 0xD5, 0xA1, 0x43]);
        data.extend_from_slice(b"\r\n");
    }
    let handler = handler_for(&data);
    assert_eq!(handler.encoding_name(), "Big5");
    assert_eq!(handler.total_lines(), 8);
    assert_eq!(handler.get_line(0), "中文測試。");
}

#[test]
fn malformed_utf8_line_is_replaced() {
    // Mostly UTF-8; one malformed byte far past the detection sample.
    let mut data = vec![b'a'; 262_144];
    data.extend_from_slice(b"\nbad\xFFbyte\n");
    let handler = handler_for(&data);
    assert_eq!(handler.encoding_name(), "UTF-8");
    assert_eq!(handler.total_lines(), 2);
    assert_eq!(handler.get_line(1), "bad\u{FFFD}byte");
}

#[test]
fn lines_rebuild_the_file() {
    let text = "alpha\nbeta\r\n\ngamma";
    let handler = handler_for(text.as_bytes());
    let mut joined = Vec::new();
    for i in 0..handler.total_lines() {
        let (start, end) = handler.line_bounds(i).unwrap();
        let line = &text.as_bytes()[start..end];
        joined.extend_from_slice(line);
        // Each line is one whole line: a line feed only at its end, and at the
        // end of every line but the last.
        assert!(!line[..line.len() - 1].contains(&b'\n'));
        if i + 1 < handler.total_lines() {
            assert_eq!(line[line.len() - 1], b'\n');
        }
        if i + 1 < handler.total_lines() {
            assert_eq!(handler.line_bounds(i + 1).unwrap().0, end);
        }
    }
    assert_eq!(joined, text.as_bytes());
    assert_eq!(handler.get_line(2), "");
}

#[test]
fn utf8_cut_by_the_sample_end_is_still_utf8() {
    // 262143 ASCII bytes, then a three-byte character that the 256 KiB
    // detection sample cuts after its first byte.
    let mut data = vec![b'a'; 262_143];
    data.extend_from_slice("中文".as_bytes());
    data.push(b'\n');
    let encoding = detect_encoding(&data);
    assert!(matches!(encoding, TextEncoding::Utf8));
    let handler = handler_for(&data);
    assert_eq!(handler.encoding_name(), "UTF-8");
    assert!(handler.get_line(0).ends_with("中文"));
}

#[test]
fn utf8_lines_joined_rebuild_the_text() {
    let text = "第一行\n\nthird line\nlast 行";
    let handler = handler_for(text.as_bytes());
    let lines: Vec<String> = (0..handler.total_lines()).map(|i| handler.get_line(i)).collect();
    assert_eq!(lines.join("\n"), text);
    assert!(lines.iter().all(|line| !line.contains('\n')));
    let with_final = "a\nb\n";
    let handler = handler_for(with_final.as_bytes());
    let lines: Vec<String> = (0..handler.total_lines()).map(|i| handler.get_line(i)).collect();
    assert_eq!(lines.join("\n") + "\n", with_final);
}

#[test]
fn utf16_surrogate_pairs_decode() {
    let handler = handler_for(&utf16le("😀 ok\nline", true));
    assert_eq!(handler.get_line(0), "😀 ok");
    assert_eq!(handler.get_line(1), "line");
}

fn chardetng_guess(sample: &[u8]) -> String {
    let mut detector = chardetng::EncodingDetector::new();
    detector.feed(sample, true);
    detector.guess(Some(b"hk"), true).name().to_string()
}

#[test]
fn malformed_character_cut_by_the_sample_end_is_guessed() {
    // 262143 ASCII bytes, then E4 80 41: the character that the sample's end
    // cuts is malformed, so the sample goes to chardetng as it stands.
    let mut data = vec![b'a'; 262_143];
    data.extend_from_slice(&[0xE4, 0x80, 0x41]);
    let encoding = detect_encoding(&data);
    assert!(!matches!(encoding, TextEncoding::Utf8));
    assert_eq!(name_of(&encoding), chardetng_guess(&data[..262_144]));
}

#[test]
fn data_ending_inside_a_cut_character_is_guessed() {
    // The file ends two bytes into a three-byte character that starts at the
    // last byte of the sample.
    let mut data = vec![b'a'; 262_143];
    data.extend_from_slice(&[0xE4, 0xB8]);
    let encoding = detect_encoding(&data);
    assert!(!matches!(encoding, TextEncoding::Utf8));
    assert_eq!(name_of(&encoding), chardetng_guess(&data[..262_144]));
}
