use vtt_to_lrc::error::ProcessError;
use vtt_to_lrc::vtt::{
    parse_vtt_blocks_from_reader, parse_vtt_bytes, parse_vtt_lines, read_lines, TimeStamp,
    TimeStampRange, VttBlock,
};

fn parse_message(r: Result<impl Sized, ProcessError>) -> String {
    match r {
        Err(ProcessError::Parse(m)) => m,
        Err(ProcessError::Io(e)) => panic!("unexpected I/O error: {}", e),
        Ok(_) => panic!("unexpected success"),
    }
}

fn ok_lines(lines: &[&str]) -> Vec<Result<String, std::io::Error>> {
    lines.iter().map(|l| Ok(l.to_string())).collect()
}

#[test]
fn timestamp_separator_message() {
    let m = parse_message(TimeStamp::parse("01a02:03.456", 7));
    assert_eq!(
        m,
        "Invalid timestamp format at line 7: Unexpected separator at position 2. Expect ':'. Got 'a'."
    );
    let m = parse_message(TimeStamp::parse("01:02:03,456", 12));
    assert_eq!(
        m,
        "Invalid timestamp format at line 12: Unexpected separator at position 8. Expect '.'. Got ','."
    );
}

#[test]
fn timestamp_ascii_and_length_messages() {
    let m = parse_message(TimeStamp::parse("あ01:02:03.456", 3));
    assert_eq!(
        m,
        "Invalid timestamp format at line 3: Timestamp line must be in ASCII format"
    );
    let m = parse_message(TimeStamp::parse("01:02:03.4567", 3));
    assert_eq!(m, "Invalid timestamp format at line 3: Start timestamp len is invalid");
}

#[test]
fn timestamp_number_message() {
    let m = parse_message(TimeStamp::parse("0x:02:03.456", 1));
    assert_eq!(
        m,
        "Invalid timestamp format at line 1: Failed to parse text '0x' to integer: invalid digit found in string"
    );
    let m = parse_message(TimeStamp::parse("01:02:03.-56", 1));
    assert_eq!(
        m,
        "Invalid timestamp format at line 1: Failed to parse text '-56' to integer: invalid digit found in string"
    );
}

#[test]
fn timestamp_plus_sign_is_read() {
    let t = TimeStamp::parse("+1:02:03.+56", 1).unwrap();
    assert_eq!((t.hour, t.min, t.sec, t.milli), (1, 2, 3, 56));
}

#[test]
fn timestamp_large_fields() {
    let t = TimeStamp::parse("99:99:99.999", 1).unwrap();
    assert_eq!((t.hour, t.min, t.sec, t.milli), (99, 99, 99, 999));
}

#[test]
fn range_messages() {
    let m = parse_message(TimeStampRange::parse("01:02:03.456 --> ", 4));
    assert_eq!(m, "Invalid timestamp format at line 4: Token number is not 3");
    let m = parse_message(TimeStampRange::parse("01:02:03.456 -> 02:03:04.456", 5));
    assert_eq!(m, "Invalid timestamp format at line 5: Invalid split token");
    let m = parse_message(TimeStampRange::parse("01:02:03.456 --> 02:03:04:456", 6));
    assert_eq!(
        m,
        "Invalid timestamp format at line 6: Unexpected separator at position 8. Expect '.'. Got ':'."
    );
}

#[test]
fn range_other_whitespace() {
    let r = TimeStampRange::parse("\t00:00:01.000\u{3000}-->\u{a0}00:00:02.500\r", 1).unwrap();
    assert_eq!((r.start.sec, r.end.sec, r.end.milli), (1, 2, 500));
}

#[test]
fn block_counts_lines_and_leaves_the_rest() {
    let mut lines = ok_lines(&["", "", "00:00:01.000 --> 00:00:02.000", "a", "", "rest"]).into_iter();
    let mut line_num = 10;
    let block = VttBlock::parse(&mut lines, &mut line_num).unwrap().unwrap();
    assert_eq!(block.data, vec!["a".to_string()]);
    assert_eq!(line_num, 15);
    let rest: Vec<String> = lines.map(|l| l.unwrap()).collect();
    assert_eq!(rest, vec!["rest".to_string()]);
}

#[test]
fn block_only_time_line_message() {
    let mut lines = ok_lines(&["00:00:01.000 --> 00:00:02.000", ""]).into_iter();
    let mut line_num = 2;
    let m = parse_message(VttBlock::parse(&mut lines, &mut line_num));
    assert_eq!(m, "Invalid VTT block at line 4: only timestamp line found");
    let mut lines = ok_lines(&["00:00:01.000 --> 00:00:02.000"]).into_iter();
    let mut line_num = 0;
    let m = parse_message(VttBlock::parse(&mut lines, &mut line_num));
    assert_eq!(m, "Invalid VTT block at line 1: only timestamp line found");
}

#[test]
fn block_passes_read_errors_on() {
    let input: Vec<Result<String, std::io::Error>> = vec![
        Ok("00:00:01.000 --> 00:00:02.000".to_string()),
        Ok("a".to_string()),
        Err(std::io::Error::new(std::io::ErrorKind::Other, "disk gone")),
    ];
    let mut lines = input.into_iter();
    let mut line_num = 0;
    match VttBlock::parse(&mut lines, &mut line_num) {
        Err(ProcessError::Io(e)) => assert_eq!(e.to_string(), "disk gone"),
        _ => panic!("expected the read error"),
    }
    assert_eq!(line_num, 2);
}

#[test]
fn block_end_of_input() {
    let mut lines = ok_lines(&["", ""]).into_iter();
    let mut line_num = 0;
    assert!(VttBlock::parse(&mut lines, &mut line_num).unwrap().is_none());
    assert_eq!(line_num, 2);
}

#[test]
fn file_header_messages() {
    let m = parse_message(parse_vtt_blocks_from_reader(b"WEBVTT FILE\n\n"));
    assert_eq!(m, "Invalid header at line 1: Expect 'WEBVTT'. Get 'WEBVTT FILE'");
    let m = parse_message(parse_vtt_blocks_from_reader(b"WEBVTT\nx\n"));
    assert_eq!(m, "No empty line found at line 2");
    let m = parse_message(parse_vtt_blocks_from_reader(b""));
    assert_eq!(m, "Unexpected EOF");
    let m = parse_message(parse_vtt_blocks_from_reader(b"WEBVTT"));
    assert_eq!(m, "Unexpected EOF");
}

#[test]
fn file_with_crlf_lines() {
    let text = "WEBVTT\r\n\r\n00:01:02.345 --> 00:01:03.000\r\nhello\r\n";
    let blocks = parse_vtt_blocks_from_reader(text.as_bytes()).unwrap();
    assert_eq!(blocks.len(), 1);
    assert_eq!(blocks[0].data, vec!["hello".to_string()]);
    assert_eq!(blocks[0].timestamp.start.min, 1);
}

#[test]
fn file_with_invalid_utf8() {
    let bytes = b"WEBVTT\n\n00:00:01.000 --> 00:00:02.000\n\xff\xfe\n";
    match parse_vtt_blocks_from_reader(bytes) {
        Err(ProcessError::Io(e)) => {
            assert_eq!(e.kind(), std::io::ErrorKind::InvalidData);
            assert_eq!(e.to_string(), "stream did not contain valid UTF-8");
        }
        _ => panic!("expected an invalid data error"),
    }
}

#[test]
fn file_error_line_numbers() {
    let text = "WEBVTT\n\n00:00:01.000 --> 00:00:02.000\na\n\n\n00:00:03.000 -> 00:00:04.000\nb\n";
    let m = parse_message(parse_vtt_blocks_from_reader(text.as_bytes()));
    assert_eq!(m, "Invalid timestamp format at line 7: Invalid split token");
}

#[test]
fn file_warnings() {
    let text = "WEBVTT\n\n01:00:01.000 --> 00:00:02.000\na\nb\nc\n";
    let mut warnings = Vec::new();
    let blocks = parse_vtt_bytes(text.as_bytes(), &mut warnings).unwrap();
    assert_eq!(blocks[0].data.len(), 3);
    assert_eq!(
        warnings,
        vec![
            "Warning: Detect non-zero hour value at line 3. Output LRC file could be incorrect"
                .to_string(),
            "Warning: Detect multiple data in a vtt block at line 5. Output LRC file could not be correct"
                .to_string(),
            "Warning: Detect multiple data in a vtt block at line 6. Output LRC file could not be correct"
                .to_string(),
        ]
    );
}

#[test]
fn file_warnings_before_an_error() {
    let text = "WEBVTT\n\n02:00:01.000 --> 0:00:02.000\na\n";
    let mut warnings = Vec::new();
    let m = parse_message(parse_vtt_bytes(text.as_bytes(), &mut warnings));
    assert_eq!(m, "Invalid timestamp format at line 3: Start timestamp len is invalid");
    assert_eq!(
        warnings,
        vec!["Warning: Detect non-zero hour value at line 3. Output LRC file could be incorrect"
            .to_string()]
    );
}

#[test]
fn read_lines_splits_as_bufread_does() {
    let lines: Vec<String> = read_lines(b"a\r\nb\n\nc\r")
        .into_iter()
        .map(|l| l.unwrap())
        .collect();
    assert_eq!(lines, vec!["a", "b", "", "c\r"]);
    assert!(read_lines(b"").is_empty());
    assert_eq!(read_lines(b"\n").len(), 1);
}

#[test]
fn parse_lines_directly() {
    let mut warnings = Vec::new();
    let blocks = parse_vtt_lines(
        ok_lines(&["WEBVTT", "", "00:00:01.000 --> 00:00:02.000", "x", "", "", ""]),
        &mut warnings,
    )
    .unwrap();
    assert_eq!(blocks.len(), 1);
    assert!(warnings.is_empty());
}

#[test]
fn written_file_reads_back() {
    // Cues written as WebVTT text, with and without an empty line at the end.
    for text in [
        "WEBVTT\n\n00:00:01.250 --> 00:00:02.000\nfirst\n\n00:01:00.000 --> 00:01:05.999\nsecond\nthird\n",
        "WEBVTT\n\n00:00:01.250 --> 00:00:02.000\nfirst\n\n00:01:00.000 --> 00:01:05.999\nsecond\nthird\n\n",
    ] {
        let blocks = parse_vtt_blocks_from_reader(text.as_bytes()).unwrap();
        assert_eq!(blocks.len(), 2);
        assert_eq!(blocks[0].timestamp.start.milli, 250);
        assert_eq!(blocks[1].timestamp.end.sec, 5);
        assert_eq!(blocks[1].timestamp.end.milli, 999);
        assert_eq!(blocks[1].data, vec!["second".to_string(), "third".to_string()]);
    }
}

#[test]
fn process_error_from_io() {
    let e: ProcessError = std::io::Error::new(std::io::ErrorKind::NotFound, "missing").into();
    match e {
        ProcessError::Io(inner) => assert_eq!(inner.kind(), std::io::ErrorKind::NotFound),
        _ => panic!("expected Io"),
    }
}

#[test]
fn crlf_text_reads_the_same() {
    let lf = "WEBVTT\n\n00:00:01.000 --> 00:00:02.000\nété\n\n00:00:03.000 --> 00:00:04.000\nb\nc\n";
    let crlf = lf.replace('\n', "\r\n");
    let a = parse_vtt_blocks_from_reader(lf.as_bytes()).unwrap();
    let b = parse_vtt_blocks_from_reader(crlf.as_bytes()).unwrap();
    assert_eq!(a.len(), b.len());
    for (x, y) in a.iter().zip(b.iter()) {
        assert_eq!(x.data, y.data);
        assert_eq!(x.timestamp.start.sec, y.timestamp.start.sec);
        assert_eq!(x.timestamp.end.sec, y.timestamp.end.sec);
    }
    let bad = "WEBVTT\n\n00:00:01.000 -> 00:00:02.000\nx\n";
    let m1 = parse_message(parse_vtt_blocks_from_reader(bad.as_bytes()));
    let m2 = parse_message(parse_vtt_blocks_from_reader(bad.replace('\n', "\r\n").as_bytes()));
    assert_eq!(m1, m2);
}

#[test]
fn block_line_count_up_to_the_limit() {
    let mut lines = ok_lines(&["00:00:01.000 --> 00:00:02.000", "a", "", "more", "more"]).into_iter();
    let mut line_num = usize::MAX - 3;
    let block = VttBlock::parse(&mut lines, &mut line_num).unwrap().unwrap();
    assert_eq!(block.data.len(), 1);
    assert_eq!(line_num, usize::MAX);
}
