use rust_bms::bms_parser::{
    comment_lines, line_kind, parse_script, parse_source, trim, BmsParser, BmsScript,
    BmsStringParser, ErrorKind, LineKind,
};

#[test]
fn header_is_split_at_the_first_white_space() {
    let script = parse_script(b"#TITLE conflict of  time\n#GENRE techno\n");
    assert_eq!(script.header(b"TITLE"), &b"conflict of  time".to_vec());
    assert_eq!(script.header(b"GENRE"), &b"techno".to_vec());
    assert_eq!(script.headers().len(), 2);
}

#[test]
fn header_without_a_value_is_empty() {
    let script = parse_script(b"#PLAYER");
    assert_eq!(script.get_header(b"PLAYER"), Some(&Vec::new()));
    assert_eq!(script.get_header(b"TITLE"), None);
}

#[test]
fn header_is_split_at_a_tab_too() {
    let script = parse_script(b"#TITLE\tfoo bar\n");
    assert_eq!(script.header(b"TITLE"), &b"foo bar".to_vec());
}

#[test]
fn later_header_replaces_the_earlier() {
    let script = parse_script(b"#BPM 120\n#BPM 150\n");
    assert_eq!(script.header(b"BPM"), &b"150".to_vec());
}

#[test]
fn channel_records_are_kept_in_order_and_not_merged() {
    let script = parse_script(b"#00111:0101\n#00211:02\n#00111:0303\n#00111:0101\n");
    assert_eq!(
        script.channel(1, 11),
        vec![b"0101".to_vec(), b"0303".to_vec(), b"0101".to_vec()]
    );
    assert_eq!(script.channel(2, 11), vec![b"02".to_vec()]);
    assert_eq!(script.records(3, 11), Vec::<Vec<u8>>::new());
    assert_eq!(script.channels().len(), 4);
    assert!(script.has_segment(1));
    assert!(script.has_segment(2));
    assert!(!script.has_segment(3));
}

#[test]
fn channel_key_is_read_as_segment_and_channel() {
    let script = parse_script(b"#09106:AB\n");
    let records = script.channels();
    assert_eq!(records.len(), 1);
    assert_eq!(records[0].segment, 91);
    assert_eq!(records[0].channel, 6);
    assert_eq!(records[0].data, b"AB".to_vec());
}

#[test]
fn blank_lines_and_comments_are_passed_over() {
    let script = parse_script(b"\n   \n* a comment\nplain text\n#BPM 100\n\n");
    assert_eq!(script.headers().len(), 1);
    assert_eq!(script.channels().len(), 0);
    assert_eq!(script.header(b"BPM"), &b"100".to_vec());
}

#[test]
fn lines_are_trimmed_so_that_carriage_returns_do_not_count() {
    let script = parse_script(b"  #BPM 100\r\n\t#00111:01\r\n");
    assert_eq!(script.header(b"BPM"), &b"100".to_vec());
    assert_eq!(script.channel(1, 11), vec![b"01".to_vec()]);
}

#[test]
fn four_digits_and_a_colon_make_a_header_not_a_record() {
    let script = parse_script(b"#0011:01\n#0011a:01\n");
    assert_eq!(script.channels().len(), 0);
    assert_eq!(script.header(b"0011:01"), &Vec::new());
    assert_eq!(script.header(b"0011a:01"), &Vec::new());
}

#[test]
fn record_with_empty_data_is_kept() {
    let script = parse_script(b"#00111:");
    assert_eq!(script.channel(1, 11), vec![Vec::<u8>::new()]);
}

#[test]
fn empty_text_gives_an_empty_script() {
    let script = parse_script(b"");
    assert!(script.headers().is_empty());
    assert!(script.channels().is_empty());
}

#[test]
fn trim_takes_white_space_from_both_ends_only() {
    assert_eq!(trim(b" \t a b \r\n"), b"a b");
    assert_eq!(trim(b"   "), b"");
    assert_eq!(trim(b""), b"");
    assert_eq!(trim(b"x"), b"x");
}

#[test]
fn string_parser_reads_its_text() {
    let parser = BmsStringParser { script: "#GENRE trance\n#09106:0001\n".to_string() };
    let script = parser.parse();
    assert_eq!(script.header(b"GENRE"), &b"trance".to_vec());
    assert_eq!(script.channel(91, 6), vec![b"0001".to_vec()]);
}

#[test]
fn script_can_be_built_by_hand() {
    let mut script = BmsScript::new();
    script.set_header(b"BPM".to_vec(), b"90".to_vec());
    script.add_record(5, 11, b"0A".to_vec());
    script.add_record(5, 11, b"0B".to_vec());
    assert_eq!(script.header(b"BPM"), &b"90".to_vec());
    assert_eq!(script.channel(5, 11), vec![b"0A".to_vec(), b"0B".to_vec()]);
}

#[test]
fn lines_are_told_apart() {
    assert_eq!(line_kind(b""), LineKind::Blank);
    assert_eq!(line_kind(b" \t\r"), LineKind::Blank);
    assert_eq!(line_kind(b"#00111:01"), LineKind::Record);
    assert_eq!(line_kind(b"  #99999:\r"), LineKind::Record);
    assert_eq!(line_kind(b"#0011:01"), LineKind::Header);
    assert_eq!(line_kind(b"#"), LineKind::Header);
    assert_eq!(line_kind(b"#TITLE x"), LineKind::Header);
    assert_eq!(line_kind(b"TITLE x"), LineKind::Comment);
    assert_eq!(line_kind(b"00111:01"), LineKind::Comment);
    assert_eq!(
        comment_lines(b"*---- header\n#BPM 1\n\nnote\n#00111:01\n   \n; end"),
        vec![0, 3, 6]
    );
    assert_eq!(comment_lines(b""), Vec::<usize>::new());
    assert_eq!(comment_lines(b"\n\nx\n"), vec![2]);
}

#[test]
fn parser_test() {
    let bms = parse_script(b"#GENRE techno\n#TITLE conflict\n#09106:0000AB00\n");
    println!("{}", String::from_utf8_lossy(bms.headers().iter().find(|h| h.key == b"GENRE").unwrap().value.as_slice()));
    println!("{:?}", bms.channel(91, 6));
}

#[test]
fn source_that_could_not_be_read_is_an_io_error() {
    match parse_source(None) {
        Err(kind) => assert_eq!(kind, ErrorKind::IoError),
        Ok(_) => panic!("a source that could not be read gave a script"),
    }
    match parse_source(Some(b"#TITLE x\nnot a line\n#00111:01")) {
        Ok(script) => {
            assert_eq!(script.header(b"TITLE"), &b"x".to_vec());
            assert_eq!(script.channel(1, 11), vec![b"01".to_vec()]);
        }
        Err(kind) => panic!("a source that was read gave {:?}", kind),
    }
}
