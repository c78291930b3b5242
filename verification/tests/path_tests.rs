use rough_wasm::path::lexer::{params_count, scan_number, tokenize, Tok};
use rough_wasm::path::parser::{parse_path, parse_path_checked, Seg};
use rough_wasm::path::preprocess::preprocess_path;

fn seg(key: u8, data: &[(usize, usize)]) -> Seg {
    Seg { key, data: data.to_vec() }
}

fn text<'a>(src: &'a [u8], span: (usize, usize)) -> &'a str {
    std::str::from_utf8(&src[span.0..span.0 + span.1]).unwrap()
}

#[test]
fn params_counts() {
    let expected: [(u8, i32); 10] =
        [(b'A', 7), (b'C', 6), (b'H', 1), (b'L', 2), (b'M', 2), (b'Q', 4), (b'S', 4), (b'T', 2), (b'V', 1), (b'Z', 0)];
    for (c, n) in expected {
        assert_eq!(params_count(c), n);
        assert_eq!(params_count(c.to_ascii_lowercase()), n);
    }
    assert_eq!(params_count(b'B'), -1);
    assert_eq!(params_count(b'e'), -1);
    assert_eq!(params_count(b'1'), -1);
}

#[test]
fn scan_numbers() {
    assert_eq!(scan_number(b"12.5e-3x", 0), Some(7));
    assert_eq!(scan_number(b"+.5", 0), Some(3));
    assert_eq!(scan_number(b"-12", 0), Some(3));
    assert_eq!(scan_number(b"1.", 0), Some(2));
    assert_eq!(scan_number(b"1.e5", 0), Some(4));
    assert_eq!(scan_number(b"1e", 0), Some(1));
    assert_eq!(scan_number(b"1E+", 0), Some(1));
    assert_eq!(scan_number(b"2E+7,", 0), Some(4));
    assert_eq!(scan_number(b"1.2.3", 0), Some(3));
    assert_eq!(scan_number(b".", 0), None);
    assert_eq!(scan_number(b"-", 0), None);
    assert_eq!(scan_number(b".e5", 0), None);
    assert_eq!(scan_number(b"x", 0), None);
    assert_eq!(scan_number(b"", 0), None);
    assert_eq!(scan_number(b"M-7.5L", 1), Some(4));
}

#[test]
fn tokenize_commands_and_numbers() {
    let t = tokenize(b"M10,20 L-3.5e1 4").unwrap();
    assert_eq!(
        t,
        vec![
            Tok::Cmd(b'M'),
            Tok::Num { start: 1, len: 2 },
            Tok::Num { start: 4, len: 2 },
            Tok::Cmd(b'L'),
            Tok::Num { start: 8, len: 6 },
            Tok::Num { start: 15, len: 1 },
        ]
    );
}

#[test]
fn tokenize_rejects_stray_bytes() {
    assert_eq!(tokenize(b"M 1 #"), None);
    assert_eq!(tokenize(b"M 1 e"), None);
    assert_eq!(tokenize(b"M 1 \xc3\xa9"), None);
    assert_eq!(tokenize(b""), Some(vec![]));
}

#[test]
fn numbers_run_together() {
    // "1.2.3" is the numbers 1.2 and .3
    let t = tokenize(b"1.2.3").unwrap();
    assert_eq!(t, vec![Tok::Num { start: 0, len: 3 }, Tok::Num { start: 3, len: 2 }]);
}

#[test]
fn parse_moveto_then_implicit_lineto() {
    let p = parse_path(b"M1 2 3 4");
    assert_eq!(p.source, b"M1 2 3 4".to_vec());
    assert_eq!(p.segments, vec![seg(b'M', &[(1, 1), (3, 1)]), seg(b'L', &[(5, 1), (7, 1)])]);
    let p = parse_path(b"m1 2 3 4");
    assert_eq!(p.segments[1].key, b'l');
}

#[test]
fn parse_all_commands() {
    let d = b"M0 0 C1 2 3 4 5 6 S1 2 3 4 Q1 2 3 4 T5 6 A1 1 0 0 1 9 9 H3 V4 L1 1 Z";
    let p = parse_path(d);
    let keys: Vec<u8> = p.segments.iter().map(|s| s.key).collect();
    assert_eq!(keys, b"MCSQTAHVLZ".to_vec());
    for s in &p.segments {
        assert_eq!(s.data.len() as i32, params_count(s.key));
    }
    assert_eq!(text(&p.source, p.segments[5].data[6]), "9");
}

#[test]
fn parse_without_moveto_is_prefixed() {
    let p = parse_path(b"L 10 10");
    assert_eq!(p.source, b"M0,0L 10 10".to_vec());
    assert_eq!(p.segments, vec![seg(b'M', &[(1, 1), (3, 1)]), seg(b'L', &[(6, 2), (9, 2)])]);
}

#[test]
fn prefix_can_merge_with_a_leading_number() {
    // "10 20" is parsed as "M0,010 20": the prefix's last zero runs into the first number.
    let p = parse_path(b"10 20");
    assert_eq!(p.source, b"M0,010 20".to_vec());
    assert_eq!(p.segments.len(), 1);
    assert_eq!(text(&p.source, p.segments[0].data[0]), "0");
    assert_eq!(text(&p.source, p.segments[0].data[1]), "010");
}

#[test]
fn parse_ends_short() {
    let p = parse_path(b"M1 2 C 1 2");
    assert_eq!(p.segments, vec![seg(b'M', &[(1, 1), (3, 1)])]);
}

#[test]
fn parse_stops_at_command_among_numbers() {
    let p = parse_path(b"M1 2 L 3 C 4 5 6 7 8 9");
    assert_eq!(p.segments, vec![seg(b'M', &[(1, 1), (3, 1)])]);
}

#[test]
fn parse_empty_and_untokenizable() {
    let p = parse_path(b"");
    assert!(p.segments.is_empty());
    assert!(p.source.is_empty());
    let p = parse_path(b"M 1 2 #");
    assert!(p.segments.is_empty());
    assert_eq!(p.source, b"M 1 2 #".to_vec());
}

#[test]
fn number_after_closepath_never_returns() {
    assert!(parse_path_checked(b"M0 0 Z 5").is_none());
    assert!(parse_path_checked(b"M0 0 z 5 6").is_none());
    // a command after the closepath is fine
    assert!(parse_path_checked(b"M0 0 Z M 5 5").is_some());
    // a number after a closepath that is never reached is fine too
    assert!(parse_path_checked(b"M0 0 L 1 Z 5").is_some());
}

#[test]
fn closepath_free_data_parses() {
    for d in [&b"M1 2 3"[..], b"L1", b"1 2 3 4 5", b"C 1 2 3 4 5 6 7 8", b""] {
        assert!(parse_path_checked(d).is_some());
    }
}

#[test]
fn segment_numbers_are_complete_numbers() {
    let p = parse_path(b"M-1.5e2,.25 l+3 4e1");
    assert_eq!(text(&p.source, p.segments[0].data[0]), "-1.5e2");
    assert_eq!(text(&p.source, p.segments[0].data[1]), ".25");
    assert_eq!(text(&p.source, p.segments[1].data[0]), "+3");
    assert_eq!(text(&p.source, p.segments[1].data[1]), "4e1");
}

#[test]
fn preprocess_line_feeds() {
    assert_eq!(preprocess_path(b"M1\n2"), b"M1 2".to_vec());
}

#[test]
fn preprocess_drops_whitespace_after_minus() {
    assert_eq!(preprocess_path(b"M-\t5 -  6"), b"M-5 - 6".to_vec());
    assert_eq!(preprocess_path(b"--  x"), b"-- x".to_vec());
    assert_eq!(preprocess_path(b"1-\n2"), b"1-2".to_vec());
    assert_eq!(preprocess_path(b"x-"), b"x-".to_vec());
}

#[test]
fn preprocess_keeps_other_bytes() {
    assert_eq!(preprocess_path(&[b'a', 0xC3, 0xA9]), vec![b'a', 0xC3, 0xA9]);
    assert_eq!(preprocess_path(&[0x80]), vec![0x80]);
    assert_eq!(preprocess_path("M-\u{e9}".as_bytes()), "M-\u{e9}".as_bytes().to_vec());
}

#[test]
fn preprocess_output_has_no_line_feed() {
    let out = preprocess_path(b"\n\n-\n\nM 1 2\n");
    assert!(!out.contains(&b'\n'));
    assert_eq!(out, b"  - M 1 2 ".to_vec());
}
