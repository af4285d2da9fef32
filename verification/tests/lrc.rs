use vtt_to_lrc::lrc::{format_lrc_timestamp, get_min_digits, lrc_lines, overwrite_choice, OverwriteChoice};
use vtt_to_lrc::vtt::{parse_vtt_blocks_from_reader, TimeStamp, TimeStampRange, VttBlock};

fn ts(hour: u32, min: u32, sec: u32, milli: u32) -> TimeStamp {
    TimeStamp { hour, min, sec, milli }
}

fn block(start: TimeStamp, data: &[&str]) -> VttBlock {
    VttBlock {
        timestamp: TimeStampRange { start, end: ts(0, 0, 0, 0) },
        data: data.iter().map(|d| d.to_string()).collect(),
    }
}

#[test]
fn tag_folds_hours_into_minutes() {
    assert_eq!(format_lrc_timestamp(&ts(1, 2, 3, 456), 2), "[62:03.45]");
    assert_eq!(format_lrc_timestamp(&ts(1, 2, 3, 456), 4), "[0062:03.45]");
    assert_eq!(format_lrc_timestamp(&ts(0, 0, 0, 0), 2), "[00:00.00]");
}

#[test]
fn tag_hundredths() {
    assert_eq!(format_lrc_timestamp(&ts(0, 1, 2, 5), 2), "[01:02.00]");
    assert_eq!(format_lrc_timestamp(&ts(0, 1, 2, 99), 2), "[01:02.09]");
    assert_eq!(format_lrc_timestamp(&ts(0, 1, 2, 1234), 2), "[01:02.12]");
    assert_eq!(format_lrc_timestamp(&ts(0, 1, 2, 999), 0), "[1:02.99]");
}

#[test]
fn min_digits() {
    assert_eq!(get_min_digits(&ts(0, 5, 0, 0)), 2);
    assert_eq!(get_min_digits(&ts(0, 150, 0, 0)), 2);
    assert_eq!(get_min_digits(&ts(1, 2, 0, 0)), 2);
    assert_eq!(get_min_digits(&ts(2, 0, 0, 0)), 3);
    assert_eq!(get_min_digits(&ts(20, 0, 0, 0)), 4);
}

#[test]
fn lines_of_blocks() {
    let blocks = vec![
        block(ts(0, 0, 1, 0), &["a"]),
        block(ts(0, 0, 2, 500), &["b", "c"]),
    ];
    assert_eq!(
        lrc_lines(&blocks),
        vec!["[00:01.00]a", "[00:02.50]b", "[00:02.50]c"]
    );
    assert!(lrc_lines(&[]).is_empty());
}

#[test]
fn lines_width_from_last_block() {
    let blocks = vec![block(ts(0, 3, 4, 0), &["a"]), block(ts(2, 5, 0, 0), &["b"])];
    assert_eq!(lrc_lines(&blocks), vec!["[003:04.00]a", "[125:00.00]b"]);
}

#[test]
fn tags_aligned_for_a_parsed_file() {
    let text = "WEBVTT\n\n00:00:01.000 --> 00:00:02.000\na\n\n01:40:00.000 --> 01:41:00.000\nb\n";
    let blocks = parse_vtt_blocks_from_reader(text.as_bytes()).unwrap();
    let lines = lrc_lines(&blocks);
    assert_eq!(lines, vec!["[000:01.00]a", "[100:00.00]b"]);
    assert_eq!(lines[0].len(), lines[1].len());
}

#[test]
fn overwrite_answers() {
    assert_eq!(overwrite_choice("Y\n"), OverwriteChoice::Overwrite);
    assert_eq!(overwrite_choice("  y \r\n"), OverwriteChoice::Overwrite);
    assert_eq!(overwrite_choice("N\n"), OverwriteChoice::Cancel);
    assert_eq!(overwrite_choice("\tn"), OverwriteChoice::Cancel);
    assert_eq!(overwrite_choice("yes\n"), OverwriteChoice::AskAgain);
    assert_eq!(overwrite_choice(""), OverwriteChoice::AskAgain);
    assert_eq!(overwrite_choice(" \n"), OverwriteChoice::AskAgain);
    assert_eq!(overwrite_choice("Y N"), OverwriteChoice::AskAgain);
}
