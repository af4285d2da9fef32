use vtt_to_lrc::vtt::{parse_vtt_blocks_from_reader, TimeStamp, TimeStampRange, VttBlock};

fn assert_timestamp(timestamp: &TimeStamp, hour: u32, min: u32, sec: u32, milli: u32) {
    assert_eq!(timestamp.hour, hour);
    assert_eq!(timestamp.min, min);
    assert_eq!(timestamp.sec, sec);
    assert_eq!(timestamp.milli, milli);
}

#[test]
fn test_parse_valid_timestamp() {
    let timestamp = TimeStamp::parse("01:02:03.456", 1).unwrap();
    assert_timestamp(&timestamp, 1, 2, 3, 456);
}

#[test]
fn test_non_ascii_timestamp() {
    let result = TimeStamp::parse("あ01:02:03.456", 1);
    assert!(result.is_err());
}

#[test]
fn test_timestamp_invalid_digit() {
    let result = TimeStamp::parse("001:02:03.456", 1);
    assert!(result.is_err());
}

#[test]
fn test_timestamp_invalid_sep() {
    let result = TimeStamp::parse("01a02:03.456", 1);
    assert!(result.is_err());
}

#[test]
fn test_timestamp_invalid_text() {
    let result = TimeStamp::parse("123456789012", 1);
    assert!(result.is_err());
}

#[test]
fn test_timestamp_range() {
    let range = TimeStampRange::parse("01:02:03.456 --> 02:03:04.456", 1).unwrap();
    assert_timestamp(&range.start, 1, 2, 3, 456);
    assert_timestamp(&range.end, 2, 3, 4, 456);
}

#[test]
fn test_timestamp_range_extra_spaces() {
    let range = TimeStampRange::parse("   01:02:03.456   -->  02:03:04.456   ", 1).unwrap();
    assert_timestamp(&range.start, 1, 2, 3, 456);
    assert_timestamp(&range.end, 2, 3, 4, 456);
}

#[test]
fn test_vttblock_parse() {
    let input: Vec<Result<String, std::io::Error>> = vec![
        Ok(String::from("01:02:03.456  --> 02:03:04.456")),
        Ok(String::from("line1")),
        Ok(String::from("")),
    ];
    let mut lines = input.into_iter();
    let mut line_num = 0;
    let vtt_block = VttBlock::parse(&mut lines, &mut line_num).unwrap().unwrap();
    assert_timestamp(&vtt_block.timestamp.start, 1, 2, 3, 456);
    assert_timestamp(&vtt_block.timestamp.end, 2, 3, 4, 456);

    assert_eq!(vtt_block.data.len(), 1);
    assert_eq!(vtt_block.data[0], "line1");
}

#[test]
fn test_vttblock_parse_multi_lines() {
    let input: Vec<Result<String, std::io::Error>> = vec![
        Ok(String::from("01:02:03.456  --> 02:03:04.456")),
        Ok(String::from("line1")),
        Ok(String::from("line2")),
        Ok(String::from("")),
    ];
    let mut lines = input.into_iter();
    let mut line_num = 0;
    let vtt_block = VttBlock::parse(&mut lines, &mut line_num).unwrap().unwrap();

    assert_eq!(vtt_block.data.len(), 2);
    assert_eq!(vtt_block.data[0], "line1");
    assert_eq!(vtt_block.data[1], "line2");
}

#[test]
fn test_vttblock_parse_no_empty_line() {
    let input: Vec<Result<String, std::io::Error>> = vec![
        Ok(String::from("01:02:03.456  --> 02:03:04.456")),
        Ok(String::from("line1")),
    ];
    let mut lines = input.into_iter();
    let mut line_num = 0;
    let vtt_block = VttBlock::parse(&mut lines, &mut line_num).unwrap().unwrap();

    assert_eq!(vtt_block.data.len(), 1);
    assert_eq!(vtt_block.data[0], "line1");
}

#[test]
fn test_vttblock_parse_no_timestamp() {
    let input: Vec<Result<String, std::io::Error>> =
        vec![Ok(String::from("line1")), Ok(String::from(""))];
    let mut lines = input.into_iter();
    let mut line_num = 0;
    let result = VttBlock::parse(&mut lines, &mut line_num);

    assert!(result.is_err());
}

#[test]
fn test_vttblock_parse_empty_line() {
    let input: Vec<Result<String, std::io::Error>> = vec![Ok(String::from(""))];
    let mut lines = input.into_iter();
    let mut line_num = 0;
    let result = VttBlock::parse(&mut lines, &mut line_num).unwrap();

    assert!(result.is_none());
}

#[test]
fn test_parse_vttblock() {
    let text = "\
WEBVTT

01:02:03.456 --> 02:03:04.456
line1
";
    let reader = text.as_bytes();
    let blocks = parse_vtt_blocks_from_reader(reader).unwrap();
    assert_eq!(blocks.len(), 1);
    assert_timestamp(&blocks[0].timestamp.start, 1, 2, 3, 456);
    assert_timestamp(&blocks[0].timestamp.end, 2, 3, 4, 456);

    assert_eq!(blocks[0].data.len(), 1);
    assert_eq!(blocks[0].data[0], "line1");
}

#[test]
fn test_parse_vttblock_invalid_header1() {
    let text = "\
01:02:03.456 --> 02:03:04.456
line1
";
    let reader = text.as_bytes();
    let result = parse_vtt_blocks_from_reader(reader);
    assert!(result.is_err());
}

#[test]
fn test_parse_vttblock_invalid_header2() {
    let text = "\
WEBVTT
01:02:03.456 --> 02:03:04.456
line1
";
    let reader = text.as_bytes();
    let result = parse_vtt_blocks_from_reader(reader);
    assert!(result.is_err());
}

#[test]
fn test_parse_vttblock_two_blocks() {
    let text = "\
WEBVTT

01:02:03.456 --> 02:03:04.456
line1

01:02:03.456 --> 02:03:04.456
line2
line3
";
    let reader = text.as_bytes();
    let blocks = parse_vtt_blocks_from_reader(reader).unwrap();
    assert_eq!(blocks.len(), 2);
    assert_timestamp(&blocks[0].timestamp.start, 1, 2, 3, 456);
    assert_timestamp(&blocks[0].timestamp.end, 2, 3, 4, 456);
    assert_eq!(blocks[0].data.len(), 1);
    assert_eq!(blocks[0].data[0], "line1");

    assert_timestamp(&blocks[1].timestamp.start, 1, 2, 3, 456);
    assert_timestamp(&blocks[1].timestamp.end, 2, 3, 4, 456);
    assert_eq!(blocks[1].data.len(), 2);
    assert_eq!(blocks[1].data[0], "line2");
    assert_eq!(blocks[1].data[1], "line3");
}

#[test]
fn test_parse_vttblock_two_blocks_multi_spaces() {
    let text = "\
WEBVTT

01:02:03.456 --> 02:03:04.456
line1


01:02:03.456 --> 02:03:04.456
line2
line3
";
    let reader = text.as_bytes();
    let blocks = parse_vtt_blocks_from_reader(reader).unwrap();
    assert_eq!(blocks.len(), 2);
    assert_timestamp(&blocks[0].timestamp.start, 1, 2, 3, 456);
    assert_timestamp(&blocks[0].timestamp.end, 2, 3, 4, 456);

    assert_eq!(blocks[0].data.len(), 1);
    assert_eq!(blocks[0].data[0], "line1");

    assert_timestamp(&blocks[1].timestamp.start, 1, 2, 3, 456);
    assert_timestamp(&blocks[1].timestamp.end, 2, 3, 4, 456);

    assert_eq!(blocks[1].data.len(), 2);
    assert_eq!(blocks[1].data[0], "line2");
    assert_eq!(blocks[1].data[1], "line3");
}

#[test]
fn test_parse_vttblock_end_with_empty_line() {
    let text = "\
WEBVTT

01:02:03.456 --> 02:03:04.456
line1

";
    let reader = text.as_bytes();
    let blocks = parse_vtt_blocks_from_reader(reader).unwrap();
    assert_eq!(blocks.len(), 1);
    assert_timestamp(&blocks[0].timestamp.start, 1, 2, 3, 456);
    assert_timestamp(&blocks[0].timestamp.end, 2, 3, 4, 456);

    assert_eq!(blocks[0].data.len(), 1);
    assert_eq!(blocks[0].data[0], "line1");
}
