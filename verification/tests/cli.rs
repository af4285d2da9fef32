use vtt_to_lrc::cli::{default_output_file_name, parse_opts, CmdOpts};

fn args(list: &[&str]) -> Vec<String> {
    list.iter().map(|a| a.to_string()).collect()
}

fn opts(list: &[&str]) -> CmdOpts {
    parse_opts(&args(list)).unwrap()
}

fn error(list: &[&str]) -> String {
    match parse_opts(&args(list)) {
        Err(m) => m,
        Ok(_) => panic!("expected an error"),
    }
}

#[test]
fn default_output_names() {
    assert_eq!(default_output_file_name("song.vtt"), "song.lrc");
    assert_eq!(default_output_file_name("song.txt"), "song.txt.lrc");
    assert_eq!(default_output_file_name("vtt"), "vtt.lrc");
    assert_eq!(default_output_file_name(".vtt"), ".lrc");
    assert_eq!(default_output_file_name("a.VTT"), "a.VTT.lrc");
}

#[test]
fn input_only() {
    let o = opts(&["prog", "in.vtt"]);
    assert!(!o.help);
    assert_eq!(o.input_file_name, "in.vtt");
    assert_eq!(o.output_file_name, "in.lrc");
}

#[test]
fn explicit_output() {
    let o = opts(&["prog", "-o", "out.lrc", "in.vtt"]);
    assert_eq!(o.input_file_name, "in.vtt");
    assert_eq!(o.output_file_name, "out.lrc");
    let o = opts(&["prog", "in.vtt", "--output", "x"]);
    assert_eq!(o.output_file_name, "x");
}

#[test]
fn help_stops_reading() {
    let o = opts(&["prog", "--help", "-o"]);
    assert!(o.help);
    assert_eq!(o.input_file_name, "");
    assert_eq!(o.output_file_name, "");
    let o = opts(&["prog", "in.vtt", "-h"]);
    assert!(o.help);
    assert_eq!(o.output_file_name, "");
}

#[test]
fn option_errors() {
    assert_eq!(error(&["prog"]), "Error: No input file name specified");
    assert_eq!(error(&[]), "Error: No input file name specified");
    assert_eq!(error(&["prog", "in.vtt", "-o"]), "Missing output file name after option '-o'");
    assert_eq!(
        error(&["prog", "in.vtt", "--output"]),
        "Missing output file name after option '--output'"
    );
    assert_eq!(error(&["prog", "-o", "", "in.vtt"]), "Output file name should be non-empty");
    assert_eq!(
        error(&["prog", "a.vtt", "b.vtt"]),
        "Specifying multiple input file name is not supported"
    );
    assert_eq!(
        error(&["prog", "-o", "a", "-o", "b", "in.vtt"]),
        "Specifying multiple output file name is not supported"
    );
}
