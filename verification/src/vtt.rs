use vstd::prelude::*;

use crate::error::{ErrorModel, ProcessError};
use crate::number::{int_error_message, int_error_text, parse_u32, parse_u32_spec};
use crate::text::{append_decimal, decimal, push_char, split_whitespace, split_ws, str_eq};

verus! {

/// A cue time, `hh:mm:ss.mmm`.
pub struct TimeStamp {
    pub hour: u32,
    pub min: u32,
    pub sec: u32,
    pub milli: u32,
}

/// The two times of a cue line, `start --> end`.
pub struct TimeStampRange {
    pub start: TimeStamp,
    pub end: TimeStamp,
}

/// One cue of a WebVTT file: its times and its text lines.
pub struct VttBlock {
    pub timestamp: TimeStampRange,
    pub data: Vec<String>,
}

/// The texts of a sequence of strings.
pub open spec fn views(v: Seq<String>) -> Seq<Seq<char>> {
    v.map_values(|s: String| s@)
}

// ---------------------------------------------------------------------
// Messages
// ---------------------------------------------------------------------

/// "Invalid timestamp format at line {line_num}: {detail}"
pub open spec fn ts_msg(line_num: nat, detail: Seq<char>) -> Seq<char> {
    "Invalid timestamp format at line "@ + decimal(line_num) + ": "@ + detail
}

/// "Unexpected separator at position {pos}. Expect '{expect}'. Got '{got}'."
pub open spec fn sep_msg(pos: nat, expect: char, got: char) -> Seq<char> {
    "Unexpected separator at position "@ + decimal(pos) + ". Expect '"@ + seq![expect]
        + "'. Got '"@ + seq![got] + "'."@
}

/// "Failed to get separator at position {pos}"
pub open spec fn missing_sep_msg(pos: nat) -> Seq<char> {
    "Failed to get separator at position "@ + decimal(pos)
}

/// "Failed to parse text '{text}' to integer: {error}"
pub open spec fn num_msg(text: Seq<char>, e: crate::number::IntErrorKind) -> Seq<char> {
    "Failed to parse text '"@ + text + "' to integer: "@ + int_error_text(e)
}

/// The warning for a time with a non-zero hour.
pub open spec fn hour_warning(line_num: nat) -> Seq<char> {
    "Warning: Detect non-zero hour value at line "@ + decimal(line_num)
        + ". Output LRC file could be incorrect"@
}

/// `ProcessError::Parse` with the timestamp message for `line_num`.
fn ts_error(line_num: usize, detail: &str) -> (e: ProcessError)
    ensures
        e.model() == ErrorModel::Parse(ts_msg(line_num as nat, detail@)),
{
    let mut s = String::from_str("Invalid timestamp format at line ");
    append_decimal(&mut s, line_num as u64);
    s.append(": ");
    s.append(detail);
    ProcessError::Parse(s)
}

// ---------------------------------------------------------------------
// Times
// ---------------------------------------------------------------------

/// A time field: the digits of `text[a..b]`, or the message for them.
pub open spec fn field_spec(text: Seq<char>, a: int, b: int) -> Result<u32, Seq<char>> {
    match parse_u32_spec(text.subrange(a, b)) {
        Ok(v) => Ok(v),
        Err(e) => Err(num_msg(text.subrange(a, b), e)),
    }
}

/// What `TimeStamp::parse` gives for `text`: the time if `text` reads
/// `hh:mm:ss.mmm` (ASCII, twelve characters, `:` `:` `.` in their places,
/// each field a number as `str::parse::<u32>` reads it), else the message of
/// the first check that fails.
pub open spec fn timestamp_spec(text: Seq<char>, line_num: nat) -> Result<TimeStamp, Seq<char>> {
    if !vstd::utf8::is_ascii_chars(text) {
        Err(ts_msg(line_num, "Timestamp line must be in ASCII format"@))
    } else if text.len() != 12 {
        Err(ts_msg(line_num, "Start timestamp len is invalid"@))
    } else if text[2] != ':' {
        Err(ts_msg(line_num, sep_msg(2, ':', text[2])))
    } else if text[5] != ':' {
        Err(ts_msg(line_num, sep_msg(5, ':', text[5])))
    } else if text[8] != '.' {
        Err(ts_msg(line_num, sep_msg(8, '.', text[8])))
    } else {
        match field_spec(text, 0, 2) {
            Err(m) => Err(ts_msg(line_num, m)),
            Ok(hour) => match field_spec(text, 3, 5) {
                Err(m) => Err(ts_msg(line_num, m)),
                Ok(min) => match field_spec(text, 6, 8) {
                    Err(m) => Err(ts_msg(line_num, m)),
                    Ok(sec) => match field_spec(text, 9, 12) {
                        Err(m) => Err(ts_msg(line_num, m)),
                        Ok(milli) => Ok(TimeStamp { hour, min, sec, milli }),
                    },
                },
            },
        }
    }
}

/// The warnings that reading `text` as a time reports.
pub open spec fn timestamp_warnings(text: Seq<char>, line_num: nat) -> Seq<Seq<char>> {
    match timestamp_spec(text, line_num) {
        Ok(t) => if t.hour != 0 {
            seq![hour_warning(line_num)]
        } else {
            seq![]
        },
        Err(_) => seq![],
    }
}

/// Whether `r` is what the spec result `s` describes.
pub open spec fn result_matches<T>(r: Result<T, ProcessError>, s: Result<T, Seq<char>>) -> bool {
    match s {
        Ok(v) => r == Ok::<T, ProcessError>(v),
        Err(m) => r is Err && r->Err_0.model() == ErrorModel::Parse(m),
    }
}

impl TimeStamp {
    /// Reads a time written `hh:mm:ss.mmm`; `line_num` is the line it stands
    /// on, for the messages.
    pub fn parse(text: &str, line_num: usize) -> (r: Result<Self, ProcessError>)
        ensures
            result_matches(r, timestamp_spec(text@, line_num as nat)),
    {
        let mut warnings: Vec<String> = Vec::new();
        Self::parse_logged(text, line_num, &mut warnings)
    }

    /// `parse`, which also appends its warnings to `warnings`.
    pub fn parse_logged(text: &str, line_num: usize, warnings: &mut Vec<String>) -> (r: Result<
        Self,
        ProcessError,
    >)
        ensures
            result_matches(r, timestamp_spec(text@, line_num as nat)),
            views(final(warnings)@) == views(old(warnings)@) + timestamp_warnings(
                text@,
                line_num as nat,
            ),
    {
        if !text.is_ascii() {
            return Err(ts_error(line_num, "Timestamp line must be in ASCII format"));
        }
        // The text is ASCII here, so its length in bytes is its length in characters.
        if text.unicode_len() != 12 {
            return Err(ts_error(line_num, "Start timestamp len is invalid"));
        }
        if let Err(e) = Self::check_separator(text, ':', 2, line_num) {
            return Err(e);
        }
        if let Err(e) = Self::check_separator(text, ':', 5, line_num) {
            return Err(e);
        }
        if let Err(e) = Self::check_separator(text, '.', 8, line_num) {
            return Err(e);
        }
        let hour = match Self::get_num(text.substring_ascii(0, 2), line_num) {
            Ok(v) => v,
            Err(e) => {
                return Err(e);
            },
        };
        let min = match Self::get_num(text.substring_ascii(3, 5), line_num) {
            Ok(v) => v,
            Err(e) => {
                return Err(e);
            },
        };
        let sec = match Self::get_num(text.substring_ascii(6, 8), line_num) {
            Ok(v) => v,
            Err(e) => {
                return Err(e);
            },
        };
        let milli = match Self::get_num(text.substring_ascii(9, 12), line_num) {
            Ok(v) => v,
            Err(e) => {
                return Err(e);
            },
        };
        if hour != 0 {
            let mut w = String::from_str("Warning: Detect non-zero hour value at line ");
            append_decimal(&mut w, line_num as u64);
            w.append(". Output LRC file could be incorrect");
            warnings.push(w);
            proof {
                assert(views(warnings@) =~= views(old(warnings)@) + seq![hour_warning(line_num as nat)]);
            }
        }
        Ok(TimeStamp { hour, min, sec, milli })
    }

    /// Reads `text` as a number.
    fn get_num(text: &str, line_num: usize) -> (r: Result<u32, ProcessError>)
        ensures
            match parse_u32_spec(text@) {
                Ok(v) => r == Ok::<u32, ProcessError>(v),
                Err(e) => r is Err && r->Err_0.model() == ErrorModel::Parse(
                    ts_msg(line_num as nat, num_msg(text@, e)),
                ),
            },
    {
        match parse_u32(text) {
            Ok(v) => Ok(v),
            Err(e) => {
                let mut d = String::from_str("Failed to parse text '");
                d.append(text);
                d.append("' to integer: ");
                let m = int_error_message(e);
                d.append(m.as_str());
                proof {
                    assert(d@ =~= num_msg(text@, e));
                }
                Err(ts_error(line_num, d.as_str()))
            },
        }
    }

    /// Checks that the character at `pos` of `text` is `sep`.
    fn check_separator(text: &str, sep: char, pos: usize, line_num: usize) -> (r: Result<
        (),
        ProcessError,
    >)
        ensures
            if pos >= text@.len() {
                r is Err && r->Err_0.model() == ErrorModel::Parse(
                    ts_msg(line_num as nat, missing_sep_msg(pos as nat)),
                )
            } else if text@[pos as int] != sep {
                r is Err && r->Err_0.model() == ErrorModel::Parse(
                    ts_msg(line_num as nat, sep_msg(pos as nat, sep, text@[pos as int])),
                )
            } else {
                r is Ok
            },
    {
        if pos >= text.unicode_len() {
            let mut d = String::from_str("Failed to get separator at position ");
            append_decimal(&mut d, pos as u64);
            proof {
                assert(d@ =~= missing_sep_msg(pos as nat));
            }
            return Err(ts_error(line_num, d.as_str()));
        }
        let got = text.get_char(pos);
        if got != sep {
            let mut d = String::from_str("Unexpected separator at position ");
            append_decimal(&mut d, pos as u64);
            d.append(". Expect '");
            push_char(&mut d, sep);
            d.append("'. Got '");
            push_char(&mut d, got);
            d.append("'.");
            proof {
                assert(d@ =~= sep_msg(pos as nat, sep, text@[pos as int]));
            }
            return Err(ts_error(line_num, d.as_str()));
        }
        Ok(())
    }
}


/// What `TimeStampRange::parse` gives for `line`: the line must hold three
/// whitespace-separated tokens, the middle one `-->`, the others times.
pub open spec fn range_spec(line: Seq<char>, line_num: nat) -> Result<TimeStampRange, Seq<char>> {
    let toks = split_ws(line);
    if toks.len() != 3 {
        Err(ts_msg(line_num, "Token number is not 3"@))
    } else if toks[1] != "-->"@ {
        Err(ts_msg(line_num, "Invalid split token"@))
    } else {
        match timestamp_spec(toks[0], line_num) {
            Err(m) => Err(m),
            Ok(start) => match timestamp_spec(toks[2], line_num) {
                Err(m) => Err(m),
                Ok(end) => Ok(TimeStampRange { start, end }),
            },
        }
    }
}

/// The warnings that reading `line` as a time range reports: those of the
/// start time, then, if it was read, those of the end time.
pub open spec fn range_warnings(line: Seq<char>, line_num: nat) -> Seq<Seq<char>> {
    let toks = split_ws(line);
    if toks.len() != 3 || toks[1] != "-->"@ {
        seq![]
    } else if timestamp_spec(toks[0], line_num) is Ok {
        timestamp_warnings(toks[0], line_num) + timestamp_warnings(toks[2], line_num)
    } else {
        timestamp_warnings(toks[0], line_num)
    }
}

impl TimeStampRange {
    /// Reads a cue line, `hh:mm:ss.mmm --> hh:mm:ss.mmm`, whitespace around
    /// and between the parts being free.
    pub fn parse(line: &str, line_num: usize) -> (r: Result<Self, ProcessError>)
        ensures
            result_matches(r, range_spec(line@, line_num as nat)),
    {
        let mut warnings: Vec<String> = Vec::new();
        Self::parse_logged(line, line_num, &mut warnings)
    }

    /// `parse`, which also appends its warnings to `warnings`.
    pub fn parse_logged(line: &str, line_num: usize, warnings: &mut Vec<String>) -> (r: Result<
        Self,
        ProcessError,
    >)
        ensures
            result_matches(r, range_spec(line@, line_num as nat)),
            views(final(warnings)@) == views(old(warnings)@) + range_warnings(
                line@,
                line_num as nat,
            ),
    {
        let tokens = split_whitespace(line);
        if tokens.len() != 3 {
            proof {
                assert(views(warnings@) =~= views(old(warnings)@) + seq![]);
            }
            return Err(ts_error(line_num, "Token number is not 3"));
        }
        if !str_eq(tokens[1], "-->") {
            proof {
                assert(views(warnings@) =~= views(old(warnings)@) + seq![]);
            }
            return Err(ts_error(line_num, "Invalid split token"));
        }
        let start = match TimeStamp::parse_logged(tokens[0], line_num, warnings) {
            Ok(t) => t,
            Err(e) => {
                return Err(e);
            },
        };
        let end = match TimeStamp::parse_logged(tokens[2], line_num, warnings) {
            Ok(t) => t,
            Err(e) => {
                proof {
                    assert(views(warnings@) =~= views(old(warnings)@) + range_warnings(
                        line@,
                        line_num as nat,
                    ));
                }
                return Err(e);
            },
        };
        proof {
            assert(views(warnings@) =~= views(old(warnings)@) + range_warnings(
                line@,
                line_num as nat,
            ));
        }
        Ok(TimeStampRange { start, end })
    }
}

// ---------------------------------------------------------------------
// Cues
// ---------------------------------------------------------------------

/// A line as read: its text, or the error that reading it gave.
pub type Line = Result<String, std::io::Error>;

/// An empty line, which ends a cue.
pub open spec fn is_blank(l: Line) -> bool {
    l is Ok && l->Ok_0@.len() == 0
}

/// A line with text, which a cue's time line and text lines are.
pub open spec fn has_text(l: Line) -> bool {
    l is Ok && l->Ok_0@.len() > 0
}

/// The first position at or after `i` that is not an empty line
/// (`ls.len()` if there is none).
pub open spec fn skip_blank(ls: Seq<Line>, i: int) -> int
    decreases ls.len() - i,
{
    if i >= ls.len() {
        ls.len() as int
    } else if is_blank(ls[i]) {
        skip_blank(ls, i + 1)
    } else {
        i
    }
}

/// The first position at or after `i` that is not a line with text
/// (`ls.len()` if there is none).
pub open spec fn text_end(ls: Seq<Line>, i: int) -> int
    decreases ls.len() - i,
{
    if i >= ls.len() {
        ls.len() as int
    } else if has_text(ls[i]) {
        text_end(ls, i + 1)
    } else {
        i
    }
}

/// "Invalid VTT block at line {line_num}: only timestamp line found"
pub open spec fn lone_time_msg(line_num: nat) -> Seq<char> {
    "Invalid VTT block at line "@ + decimal(line_num) + ": only timestamp line found"@
}

/// The warning for a cue text line after the first.
pub open spec fn multi_warning(line_num: nat) -> Seq<char> {
    "Warning: Detect multiple data in a vtt block at line "@ + decimal(line_num)
        + ". Output LRC file could not be correct"@
}

/// The warnings for `count` text lines of a cue whose time line is line
/// `time_line`: one for each line after the first, naming its line.
pub open spec fn multi_warnings(time_line: nat, count: nat) -> Seq<Seq<char>> {
    Seq::new(
        if count > 1 {
            (count - 1) as nat
        } else {
            0
        },
        |w: int| multi_warning((time_line + w + 2) as nat),
    )
}

/// How reading one cue ends.
pub enum CueOutcome {
    /// The lines ran out before a cue began.
    End,
    /// A cue: its times and its text lines.
    Cue(TimeStampRange, Seq<Seq<char>>),
    /// An error.
    Failed(ErrorModel),
}

/// Reading one cue from `ls` when `line_num` lines came before: how it
/// ends, how many lines it takes, the line count after it, and the warnings
/// it reports.
pub struct CueStep {
    pub outcome: CueOutcome,
    pub consumed: int,
    pub line_num: int,
    pub warnings: Seq<Seq<char>>,
}

/// What `VttBlock::parse` does with the lines `ls`, `line_num` lines having
/// come before them. Empty lines are skipped; the first other line is the
/// time line; the text lines follow it up to an empty line, which is taken
/// too, or to the end. A cue with no text line is an error; so is a line
/// that could not be read, which ends the reading where it stands.
pub open spec fn cue_step(ls: Seq<Line>, line_num: int) -> CueStep {
    let k = skip_blank(ls, 0);
    if k >= ls.len() {
        CueStep {
            outcome: CueOutcome::End,
            consumed: ls.len() as int,
            line_num: line_num + ls.len(),
            warnings: seq![],
        }
    } else if ls[k] is Err {
        CueStep {
            outcome: CueOutcome::Failed(ErrorModel::Io(ls[k]->Err_0)),
            consumed: k + 1,
            line_num: line_num + k + 1,
            warnings: seq![],
        }
    } else {
        let time_line = line_num + k + 1;
        let text = ls[k]->Ok_0@;
        let rw = range_warnings(text, time_line as nat);
        match range_spec(text, time_line as nat) {
            Err(m) => CueStep {
                outcome: CueOutcome::Failed(ErrorModel::Parse(m)),
                consumed: k + 1,
                line_num: time_line,
                warnings: rw,
            },
            Ok(range) => {
                let j = text_end(ls, k + 1);
                let data = Seq::new((j - (k + 1)) as nat, |i: int| ls[k + 1 + i]->Ok_0@);
                let warnings = rw + multi_warnings(time_line as nat, data.len());
                if j < ls.len() && ls[j] is Err {
                    CueStep {
                        outcome: CueOutcome::Failed(ErrorModel::Io(ls[j]->Err_0)),
                        consumed: j + 1,
                        line_num: line_num + j,
                        warnings,
                    }
                } else {
                    let consumed = if j < ls.len() {
                        j + 1
                    } else {
                        j
                    };
                    if data.len() == 0 {
                        CueStep {
                            outcome: CueOutcome::Failed(
                                ErrorModel::Parse(lone_time_msg((line_num + consumed) as nat)),
                            ),
                            consumed,
                            line_num: line_num + consumed,
                            warnings,
                        }
                    } else {
                        CueStep {
                            outcome: CueOutcome::Cue(range, data),
                            consumed,
                            line_num: line_num + consumed,
                            warnings,
                        }
                    }
                }
            },
        }
    }
}

pub proof fn lemma_skip_blank(ls: Seq<Line>, i: int, k: int)
    requires
        0 <= i <= k <= ls.len(),
        forall|m: int| i <= m < k ==> is_blank(#[trigger] ls[m]),
        k == ls.len() || !is_blank(ls[k]),
    ensures
        skip_blank(ls, i) == k,
    decreases k - i,
{
    if i < k {
        lemma_skip_blank(ls, i + 1, k);
    }
}

pub proof fn lemma_text_end(ls: Seq<Line>, i: int, k: int)
    requires
        0 <= i <= k <= ls.len(),
        forall|m: int| i <= m < k ==> has_text(#[trigger] ls[m]),
        k == ls.len() || !has_text(ls[k]),
    ensures
        text_end(ls, i) == k,
    decreases k - i,
{
    if i < k {
        lemma_text_end(ls, i + 1, k);
    }
}

proof fn lemma_multi_warnings_push(time_line: nat, c: nat)
    requires
        c >= 2,
    ensures
        multi_warnings(time_line, c) == multi_warnings(time_line, (c - 1) as nat).push(
            multi_warning(time_line + c),
        ),
{
    let a = multi_warnings(time_line, c);
    let b = multi_warnings(time_line, (c - 1) as nat).push(multi_warning(time_line + c));
    assert(a.len() == b.len());
    assert forall|i: int| 0 <= i < a.len() implies a[i] == b[i] by {
        if i == a.len() - 1 {
            assert((time_line + i + 2) as nat == time_line + c);
        }
    }
    assert(a =~= b);
}

proof fn lemma_skip_blank_at_least(ls: Seq<Line>, i: int, k: int)
    requires
        0 <= i <= k <= ls.len(),
        forall|m: int| i <= m < k ==> is_blank(#[trigger] ls[m]),
    ensures
        skip_blank(ls, i) >= k,
    decreases k - i,
{
    lemma_skip_blank_bounds(ls, k);
    if i < k {
        lemma_skip_blank_at_least(ls, i + 1, k);
    }
}

proof fn lemma_text_end_at_least(ls: Seq<Line>, i: int, k: int)
    requires
        0 <= i <= k <= ls.len(),
        forall|m: int| i <= m < k ==> has_text(#[trigger] ls[m]),
    ensures
        text_end(ls, i) >= k,
    decreases k - i,
{
    lemma_text_end_bounds(ls, k);
    if i < k {
        lemma_text_end_at_least(ls, i + 1, k);
    }
}

/// A cue takes every empty line before it, and the line after them.
proof fn lemma_consumed_past_blanks(ls: Seq<Line>, line_num: int, k: int)
    requires
        0 <= k < ls.len(),
        forall|m: int| 0 <= m < k ==> is_blank(#[trigger] ls[m]),
    ensures
        cue_step(ls, line_num).consumed >= k + 1,
{
    lemma_skip_blank_at_least(ls, 0, k);
    lemma_skip_blank_bounds(ls, 0);
    let s = skip_blank(ls, 0);
    if s < ls.len() {
        lemma_text_end_bounds(ls, s + 1);
    }
}

/// A cue takes each text line after its time line, and the line after
/// them when that line is read without error.
proof fn lemma_consumed_past_text(ls: Seq<Line>, line_num: int, k: int, j: int)
    requires
        0 <= k < j < ls.len(),
        skip_blank(ls, 0) == k,
        ls[k] is Ok,
        range_spec(ls[k]->Ok_0@, (line_num + k + 1) as nat) is Ok,
        forall|m: int| k + 1 <= m < j ==> has_text(#[trigger] ls[m]),
        ls[j] is Ok,
    ensures
        cue_step(ls, line_num).consumed >= j + 1,
{
    lemma_text_end_at_least(ls, k + 1, j);
    lemma_text_end_bounds(ls, k + 1);
    if has_text(ls[j]) {
        lemma_text_end_at_least(ls, k + 1, j + 1);
    }
}

/// Whether `r` is what `outcome` describes.
pub open spec fn cue_result_matches(r: Result<Option<VttBlock>, ProcessError>, outcome: CueOutcome) -> bool {
    match outcome {
        CueOutcome::End => r is Ok && r->Ok_0 is None,
        CueOutcome::Cue(range, data) => r is Ok && r->Ok_0 is Some && r->Ok_0->Some_0.timestamp
            == range && views(r->Ok_0->Some_0.data@) == data,
        CueOutcome::Failed(e) => r is Err && r->Err_0.model() == e,
    }
}

/// The lines an iterator over a vector of lines has yet to give.
pub uninterp spec fn pending(lines: std::vec::IntoIter<Line>) -> Seq<Line>;

/// `Vec::into_iter`: an iterator that gives the lines of `v` in order.
#[verifier::external_body]
pub fn lines_iter(v: Vec<Line>) -> (it: std::vec::IntoIter<Line>)
    ensures
        pending(it) == v@,
{
    v.into_iter()
}

/// `Iterator::next` on `std::vec::IntoIter`: the first pending line, which
/// it moves out, or `None` when none is left.
#[verifier::external_body]
fn next_of(lines: &mut std::vec::IntoIter<Line>) -> (r: Option<Line>)
    ensures
        pending(*old(lines)).len() > 0 ==> r == Some(pending(*old(lines))[0]) && pending(
            *final(lines),
        ) == pending(*old(lines)).drop_first(),
        pending(*old(lines)).len() == 0 ==> r is None && pending(*final(lines)) == pending(
            *old(lines),
        ),
{
    lines.next()
}

impl VttBlock {
    /// Reads the next cue from `lines`; `line_num` counts the lines read.
    /// `Ok(None)` when the lines run out before a cue begins.
    pub fn parse(lines: &mut std::vec::IntoIter<Line>, line_num: &mut usize) -> (r: Result<
        Option<Self>,
        ProcessError,
    >)
        requires
            *old(line_num) + cue_step(pending(*old(lines)), *old(line_num) as int).consumed
                <= usize::MAX,
        ensures
            ({
                let st = cue_step(pending(*old(lines)), *old(line_num) as int);
                &&& cue_result_matches(r, st.outcome)
                &&& pending(*final(lines)) == pending(*old(lines)).skip(st.consumed)
                &&& *final(line_num) == st.line_num
            }),
    {
        let mut warnings: Vec<String> = Vec::new();
        Self::parse_logged(lines, line_num, &mut warnings)
    }

    /// `parse`, which also appends its warnings to `warnings`.
    #[verifier::spinoff_prover]
    #[verifier::rlimit(40)]
    pub fn parse_logged(
        lines: &mut std::vec::IntoIter<Line>,
        line_num: &mut usize,
        warnings: &mut Vec<String>,
    ) -> (r: Result<Option<Self>, ProcessError>)
        requires
            *old(line_num) + cue_step(pending(*old(lines)), *old(line_num) as int).consumed
                <= usize::MAX,
        ensures
            ({
                let st = cue_step(pending(*old(lines)), *old(line_num) as int);
                &&& cue_result_matches(r, st.outcome)
                &&& pending(*final(lines)) == pending(*old(lines)).skip(st.consumed)
                &&& *final(line_num) == st.line_num
                &&& views(final(warnings)@) == views(old(warnings)@) + st.warnings
            }),
    {
        let ghost ls = pending(*lines);
        let ghost n0 = *line_num as int;
        let ghost cap = cue_step(ls, n0).consumed;
        let ghost mut k: int = 0;
        let mut timestamp_line = String::new();
        loop
            invariant_except_break
                ls == pending(*old(lines)),
                n0 == *old(line_num),
                0 <= k <= ls.len(),
                pending(*lines) == ls.skip(k),
                *line_num == n0 + k,
                n0 + cap <= usize::MAX,
                cap == cue_step(ls, n0).consumed,
                forall|m: int| 0 <= m < k ==> is_blank(#[trigger] ls[m]),
                warnings@ == old(warnings)@,
            ensures
                ls == pending(*old(lines)),
                n0 == *old(line_num),
                0 <= k < ls.len(),
                pending(*lines) == ls.skip(k + 1),
                *line_num == n0 + k + 1,
                n0 + cap <= usize::MAX,
                cap == cue_step(ls, n0).consumed,
                forall|m: int| 0 <= m < k ==> is_blank(#[trigger] ls[m]),
                ls[k] is Ok,
                ls[k]->Ok_0 == timestamp_line,
                timestamp_line@.len() > 0,
                warnings@ == old(warnings)@,
            decreases pending(*lines).len(),
        {
            match next_of(lines) {
                Some(line_result) => {
                    proof {
                        assert(ls.skip(k)[0] == ls[k]);
                        assert(ls.skip(k).drop_first() =~= ls.skip(k + 1));
                        lemma_consumed_past_blanks(ls, n0, k);
                    }
                    *line_num += 1;
                    match line_result {
                        Err(e) => {
                            proof {
                                lemma_skip_blank(ls, 0, k);
                                assert(views(warnings@) =~= views(old(warnings)@) + seq![]);
                            }
                            return Err(ProcessError::Io(e));
                        },
                        Ok(line) => {
                            if !line.as_str().is_empty() {
                                timestamp_line = line;
                                break;
                            }
                        },
                    }
                    proof {
                        k = k + 1;
                    }
                },
                None => {
                    proof {
                        lemma_skip_blank(ls, 0, k);
                        assert(ls.skip(k).len() == 0);
                        assert(views(warnings@) =~= views(old(warnings)@) + seq![]);
                    }
                    return Ok(None);
                },
            }
        }
        proof {
            lemma_skip_blank(ls, 0, k);
        }
        let timestamp = match TimeStampRange::parse_logged(
            timestamp_line.as_str(),
            *line_num,
            warnings,
        ) {
            Ok(t) => t,
            Err(e) => {
                return Err(e);
            },
        };
        let ghost time_line: int = *line_num as int;
        let ghost after_range = warnings@;
        let mut data: Vec<String> = Vec::new();
        loop
            invariant_except_break
                ls == pending(*old(lines)),
                n0 == *old(line_num),
                skip_blank(ls, 0) == k,
                ls[k] is Ok,
                range_spec(ls[k]->Ok_0@, time_line as nat) == Ok::<TimeStampRange, Seq<char>>(
                    timestamp,
                ),
                views(after_range) == views(old(warnings)@) + range_warnings(
                    ls[k]->Ok_0@,
                    time_line as nat,
                ),
                0 <= k < ls.len(),
                time_line == n0 + k + 1,
                k + 1 + data@.len() <= ls.len(),
                pending(*lines) == ls.skip(k + 1 + data@.len()),
                *line_num == time_line + data@.len(),
                n0 + cap <= usize::MAX,
                cap == cue_step(ls, n0).consumed,
                forall|m: int| 0 <= m < data@.len() ==> has_text(#[trigger] ls[k + 1 + m]),
                forall|m: int|
                    0 <= m < data@.len() ==> (#[trigger] data@[m])@ == ls[k + 1 + m]->Ok_0@,
                views(warnings@) == views(after_range) + multi_warnings(
                    time_line as nat,
                    data@.len(),
                ),
            ensures
                ls == pending(*old(lines)),
                n0 == *old(line_num),
                skip_blank(ls, 0) == k,
                ls[k] is Ok,
                range_spec(ls[k]->Ok_0@, time_line as nat) == Ok::<TimeStampRange, Seq<char>>(
                    timestamp,
                ),
                views(after_range) == views(old(warnings)@) + range_warnings(
                    ls[k]->Ok_0@,
                    time_line as nat,
                ),
                0 <= k < ls.len(),
                time_line == n0 + k + 1,
                n0 + cap <= usize::MAX,
                cap == cue_step(ls, n0).consumed,
                k + 1 + data@.len() <= ls.len(),
                forall|m: int| 0 <= m < data@.len() ==> has_text(#[trigger] ls[k + 1 + m]),
                forall|m: int|
                    0 <= m < data@.len() ==> (#[trigger] data@[m])@ == ls[k + 1 + m]->Ok_0@,
                views(warnings@) == views(after_range) + multi_warnings(
                    time_line as nat,
                    data@.len(),
                ),
                k + 1 + data@.len() == ls.len() ==> pending(*lines) == ls.skip(ls.len() as int)
                    && *line_num == time_line + data@.len(),
                k + 1 + data@.len() < ls.len() ==> is_blank(ls[k + 1 + data@.len()]) && pending(*lines) == ls.skip(k + 2 + data@.len()) && *line_num == time_line + data@.len() + 1,
            decreases pending(*lines).len(),
        {
            let ghost j = k + 1 + data@.len();
            match next_of(lines) {
                Some(line_result) => {
                    proof {
                        assert(ls.skip(j)[0] == ls[j]);
                        assert(ls.skip(j).drop_first() =~= ls.skip(j + 1));
                    }
                    let line = match line_result {
                        Ok(line) => line,
                        Err(e) => {
                            proof {
                                assert forall|m: int| k + 1 <= m < j implies has_text(
                                    #[trigger] ls[m],
                                ) by {
                                    assert(has_text(ls[k + 1 + (m - k - 1)]));
                                }
                                lemma_text_end(ls, k + 1, j);
                                let data_spec = Seq::new(
                                    (j - (k + 1)) as nat,
                                    |i: int| ls[k + 1 + i]->Ok_0@,
                                );
                                assert(data_spec.len() == data@.len());
                            }
                            return Err(ProcessError::Io(e));
                        },
                    };
                    proof {
                        assert forall|m: int| k + 1 <= m < j implies has_text(#[trigger] ls[m]) by {
                            assert(has_text(ls[k + 1 + (m - k - 1)]));
                        }
                        lemma_consumed_past_text(ls, n0, k, j);
                    }
                    *line_num += 1;
                    if line.as_str().is_empty() {
                        break;
                    }
                    data.push(line);
                    if data.len() > 1 {
                        let mut w = String::from_str(
                            "Warning: Detect multiple data in a vtt block at line ",
                        );
                        append_decimal(&mut w, *line_num as u64);
                        w.append(". Output LRC file could not be correct");
                        let ghost wb = warnings@;
                        warnings.push(w);
                        proof {
                            let c = data@.len();
                            assert(w@ =~= multi_warning((time_line + c) as nat));
                            assert(views(warnings@) =~= views(wb).push(w@));
                            lemma_multi_warnings_push(time_line as nat, c);
                            assert(views(warnings@) =~= views(after_range) + multi_warnings(
                                time_line as nat,
                                c,
                            ));
                        }
                    } else {
                        proof {
                            assert(multi_warnings(time_line as nat, 1) =~= multi_warnings(
                                time_line as nat,
                                0,
                            ));
                        }
                    }
                },
                None => {
                    proof {
                        assert(ls.skip(j).len() == 0);
                    }
                    break;
                },
            }
        }
        let ghost j = k + 1 + data@.len();
        proof {
            assert forall|m: int| k + 1 <= m < j implies has_text(#[trigger] ls[m]) by {
                assert(has_text(ls[k + 1 + (m - k - 1)]));
            }
            lemma_text_end(ls, k + 1, j);
            let data_spec = Seq::new((j - (k + 1)) as nat, |i: int| ls[k + 1 + i]->Ok_0@);
            assert(views(data@) =~= data_spec);
        }
        if data.len() == 0 {
            let mut m = String::from_str("Invalid VTT block at line ");
            append_decimal(&mut m, *line_num as u64);
            m.append(": only timestamp line found");
            return Err(ProcessError::Parse(m));
        }
        Ok(Some(VttBlock { timestamp, data }))
    }
}

// ---------------------------------------------------------------------
// Files
// ---------------------------------------------------------------------

/// A cue as contracts see it: its times and the texts of its lines.
pub type Cue = (TimeStampRange, Seq<Seq<char>>);

impl VttBlock {
    pub open spec fn model(&self) -> Cue {
        (self.timestamp, views(self.data@))
    }
}

/// The cues of a sequence of blocks.
pub open spec fn models(v: Seq<VttBlock>) -> Seq<Cue> {
    v.map_values(|b: VttBlock| b.model())
}

pub proof fn lemma_skip_blank_bounds(ls: Seq<Line>, i: int)
    requires
        0 <= i <= ls.len(),
    ensures
        i <= skip_blank(ls, i) <= ls.len(),
    decreases ls.len() - i,
{
    if i < ls.len() && is_blank(ls[i]) {
        lemma_skip_blank_bounds(ls, i + 1);
    }
}

pub proof fn lemma_text_end_bounds(ls: Seq<Line>, i: int)
    requires
        0 <= i <= ls.len(),
    ensures
        i <= text_end(ls, i) <= ls.len(),
    decreases ls.len() - i,
{
    if i < ls.len() && has_text(ls[i]) {
        lemma_text_end_bounds(ls, i + 1);
    }
}

/// A cue takes at least one line, and no more than there are.
pub proof fn lemma_cue_step_consumed(ls: Seq<Line>, line_num: int)
    ensures
        0 <= cue_step(ls, line_num).consumed <= ls.len(),
        !(cue_step(ls, line_num).outcome is End) ==> cue_step(ls, line_num).consumed >= 1,
        cue_step(ls, line_num).line_num <= line_num + cue_step(ls, line_num).consumed,
        cue_step(ls, line_num).line_num >= line_num,
{
    lemma_skip_blank_bounds(ls, 0);
    let k = skip_blank(ls, 0);
    if k < ls.len() {
        lemma_text_end_bounds(ls, k + 1);
    }
}

/// Reading cue after cue from `ls`, `line_num` lines having come before,
/// until the lines run out or a cue fails: the cues read or the first
/// error, and the warnings reported on the way.
pub open spec fn cues_spec(ls: Seq<Line>, line_num: int) -> (Result<Seq<Cue>, ErrorModel>, Seq<
    Seq<char>,
>)
    decreases ls.len(),
{
    let st = cue_step(ls, line_num);
    match st.outcome {
        CueOutcome::End => (Ok(seq![]), st.warnings),
        CueOutcome::Failed(e) => (Err(e), st.warnings),
        CueOutcome::Cue(range, data) => {
            proof {
                lemma_cue_step_consumed(ls, line_num);
            }
            let rest = cues_spec(ls.skip(st.consumed), st.line_num);
            (
                match rest.0 {
                    Ok(cues) => Ok(seq![(range, data)] + cues),
                    Err(e) => Err(e),
                },
                st.warnings + rest.1,
            )
        },
    }
}

/// "Invalid header at line {line_num}: Expect 'WEBVTT'. Get '{header}'"
pub open spec fn header_msg(line_num: nat, header: Seq<char>) -> Seq<char> {
    "Invalid header at line "@ + decimal(line_num) + ": Expect 'WEBVTT'. Get '"@ + header + "'"@
}

/// What reading a WebVTT file whose lines are `ls` gives: the first line
/// must read `WEBVTT`, the second must be empty, and cues follow; the cues
/// read, or the first error, and the warnings reported.
pub open spec fn file_spec(ls: Seq<Line>) -> (Result<Seq<Cue>, ErrorModel>, Seq<Seq<char>>) {
    if ls.len() == 0 {
        (Err(ErrorModel::Parse("Unexpected EOF"@)), seq![])
    } else if ls[0] is Err {
        (Err(ErrorModel::Io(ls[0]->Err_0)), seq![])
    } else if ls[0]->Ok_0@ != "WEBVTT"@ {
        (Err(ErrorModel::Parse(header_msg(1, ls[0]->Ok_0@))), seq![])
    } else if ls.len() == 1 {
        (Err(ErrorModel::Parse("Unexpected EOF"@)), seq![])
    } else if ls[1] is Err {
        (Err(ErrorModel::Io(ls[1]->Err_0)), seq![])
    } else if ls[1]->Ok_0@.len() != 0 {
        (Err(ErrorModel::Parse("No empty line found at line 2"@)), seq![])
    } else {
        cues_spec(ls.skip(2), 2)
    }
}

/// Whether `r` is what the spec result `s` describes.
pub open spec fn blocks_match(r: Result<Vec<VttBlock>, ProcessError>, s: Result<Seq<Cue>, ErrorModel>) -> bool {
    match s {
        Ok(cues) => r is Ok && models(r->Ok_0@) == cues,
        Err(e) => r is Err && r->Err_0.model() == e,
    }
}

/// The next line, counted in `line_num`.
fn next_line(lines: &mut std::vec::IntoIter<Line>, line_num: &mut usize) -> (r: Result<
    String,
    ProcessError,
>)
    requires
        *old(line_num) + pending(*old(lines)).len() <= usize::MAX,
    ensures
        pending(*old(lines)).len() == 0 ==> r is Err && r->Err_0.model() == ErrorModel::Parse(
            "Unexpected EOF"@,
        ) && pending(*final(lines)) == pending(*old(lines)) && *final(line_num) == *old(line_num),
        pending(*old(lines)).len() > 0 ==> pending(*final(lines)) == pending(*old(lines)).drop_first()
            && match pending(*old(lines))[0] {
            Ok(s) => r == Ok::<String, ProcessError>(s) && *final(line_num) == *old(line_num) + 1,
            Err(e) => r is Err && r->Err_0.model() == ErrorModel::Io(e) && *final(line_num)
                == *old(line_num),
        },
{
    match next_of(lines) {
        Some(line_result) => match line_result {
            Ok(line) => {
                *line_num += 1;
                Ok(line)
            },
            Err(e) => Err(ProcessError::Io(e)),
        },
        None => Err(ProcessError::Parse(String::from_str("Unexpected EOF"))),
    }
}

/// Reads the cues of a WebVTT file whose lines are `lines`, appending the
/// warnings it reports to `warnings`.
pub fn parse_vtt_lines(lines: Vec<Line>, warnings: &mut Vec<String>) -> (r: Result<
    Vec<VttBlock>,
    ProcessError,
>)
    ensures
        blocks_match(r, file_spec(lines@).0),
        views(final(warnings)@) == views(old(warnings)@) + file_spec(lines@).1,
{
    let ghost ls = lines@;
    // A vector's length is a `usize`, so counting its lines cannot overflow.
    let line_count = lines.len();
    proof {
        assert(ls.len() == line_count);
    }
    let mut line_num: usize = 0;
    let mut it = lines_iter(lines);
    let header = match next_line(&mut it, &mut line_num) {
        Ok(h) => h,
        Err(e) => {
            proof {
                assert(views(warnings@) =~= views(old(warnings)@) + seq![]);
            }
            return Err(e);
        },
    };
    if !str_eq(header.as_str(), "WEBVTT") {
        let mut m = String::from_str("Invalid header at line ");
        append_decimal(&mut m, line_num as u64);
        m.append(": Expect 'WEBVTT'. Get '");
        m.append(header.as_str());
        m.append("'");
        proof {
            assert(m@ =~= header_msg(1, ls[0]->Ok_0@));
            assert(views(warnings@) =~= views(old(warnings)@) + seq![]);
        }
        return Err(ProcessError::Parse(m));
    }
    let empty = match next_line(&mut it, &mut line_num) {
        Ok(h) => h,
        Err(e) => {
            proof {
                assert(views(warnings@) =~= views(old(warnings)@) + seq![]);
            }
            return Err(e);
        },
    };
    if !empty.as_str().is_empty() {
        proof {
            assert(views(warnings@) =~= views(old(warnings)@) + seq![]);
        }
        return Err(ProcessError::Parse(String::from_str("No empty line found at line 2")));
    }
    proof {
        assert(ls.drop_first().drop_first() =~= ls.skip(2));
    }
    parse_cues(&mut it, &mut line_num, warnings)
}

/// `cues` and `ws` put before what `r` says: the cues read first and the
/// warnings they reported, then what reading on gives.
pub open spec fn prepend_cues(
    cues: Seq<Cue>,
    ws: Seq<Seq<char>>,
    r: (Result<Seq<Cue>, ErrorModel>, Seq<Seq<char>>),
) -> (Result<Seq<Cue>, ErrorModel>, Seq<Seq<char>>) {
    (
        match r.0 {
            Ok(c) => Ok(cues + c),
            Err(e) => Err(e),
        },
        ws + r.1,
    )
}

proof fn lemma_prepend_cues_assoc(
    a: Seq<Cue>,
    wa: Seq<Seq<char>>,
    b: Seq<Cue>,
    wb: Seq<Seq<char>>,
    r: (Result<Seq<Cue>, ErrorModel>, Seq<Seq<char>>),
)
    ensures
        prepend_cues(a, wa, prepend_cues(b, wb, r)) == prepend_cues(a + b, wa + wb, r),
{
    assert(wa + (wb + r.1) =~= (wa + wb) + r.1);
    match r.0 {
        Ok(c) => {
            assert(a + (b + c) =~= (a + b) + c);
        },
        Err(e) => {},
    }
}

/// Reads cue after cue from `lines` until they run out or a cue fails.
fn parse_cues(
    lines: &mut std::vec::IntoIter<Line>,
    line_num: &mut usize,
    warnings: &mut Vec<String>,
) -> (r: Result<Vec<VttBlock>, ProcessError>)
    requires
        *old(line_num) + pending(*old(lines)).len() <= usize::MAX,
    ensures
        blocks_match(r, cues_spec(pending(*old(lines)), *old(line_num) as int).0),
        views(final(warnings)@) == views(old(warnings)@) + cues_spec(
            pending(*old(lines)),
            *old(line_num) as int,
        ).1,
{
    let ghost whole = cues_spec(pending(*lines), *line_num as int);
    let ghost mut ws: Seq<Seq<char>> = seq![];
    let mut blocks: Vec<VttBlock> = Vec::new();
    proof {
        assert(prepend_cues(seq![], seq![], whole) =~= whole) by {
            match whole.0 {
                Ok(c) => {
                    assert(Seq::<Cue>::empty() + c =~= c);
                },
                Err(e) => {},
            }
        }
    }
    loop
        invariant
            *line_num + pending(*lines).len() <= usize::MAX,
            whole == cues_spec(pending(*old(lines)), *old(line_num) as int),
            views(warnings@) == views(old(warnings)@) + ws,
            prepend_cues(models(blocks@), ws, cues_spec(pending(*lines), *line_num as int))
                == whole,
        decreases pending(*lines).len(),
    {
        let ghost before = pending(*lines);
        let ghost n_before = *line_num as int;
        let ghost st = cue_step(before, n_before);
        proof {
            lemma_cue_step_consumed(before, n_before);
        }
        match VttBlock::parse_logged(lines, line_num, warnings) {
            Ok(Some(block)) => {
                proof {
                    assert(st.outcome is Cue);
                    let c = (st.outcome->Cue_0, st.outcome->Cue_1);
                    let rest = cues_spec(pending(*lines), *line_num as int);
                    assert(cues_spec(before, n_before) == prepend_cues(
                        seq![c],
                        st.warnings,
                        rest,
                    ));
                    lemma_prepend_cues_assoc(models(blocks@), ws, seq![c], st.warnings, rest);
                    assert(models(blocks@.push(block)) =~= models(blocks@) + seq![c]);
                    ws = ws + st.warnings;
                    assert(views(warnings@) =~= views(old(warnings)@) + ws);
                }
                blocks.push(block);
            },
            Ok(None) => {
                proof {
                    assert(st.outcome is End);
                    assert(models(blocks@) + seq![] =~= models(blocks@));
                    assert(views(warnings@) =~= views(old(warnings)@) + (ws + st.warnings));
                }
                return Ok(blocks);
            },
            Err(e) => {
                proof {
                    assert(st.outcome is Failed);
                    assert(views(warnings@) =~= views(old(warnings)@) + (ws + st.warnings));
                }
                return Err(e);
            },
        }
    }
}


// ---------------------------------------------------------------------
// Bytes
// ---------------------------------------------------------------------

/// The position of the first `\n` at or after `i` (`b.len()` if none).
pub open spec fn newline_from(b: Seq<u8>, i: int) -> int
    decreases b.len() - i,
{
    if i >= b.len() {
        b.len() as int
    } else if b[i] == 10 {
        i
    } else {
        newline_from(b, i + 1)
    }
}

pub proof fn lemma_newline_from(b: Seq<u8>, i: int)
    requires
        0 <= i <= b.len(),
    ensures
        i <= newline_from(b, i) <= b.len(),
        newline_from(b, i) < b.len() ==> b[newline_from(b, i)] == 10,
        forall|m: int| i <= m < newline_from(b, i) ==> b[m] != 10,
    decreases b.len() - i,
{
    if i < b.len() && b[i] != 10 {
        lemma_newline_from(b, i + 1);
    }
}

/// A line without the `\r` of a `\r\n` ending.
pub open spec fn strip_cr(l: Seq<u8>) -> Seq<u8> {
    if l.len() > 0 && l.last() == 13 {
        l.drop_last()
    } else {
        l
    }
}

/// The bytes of each line of `b`, as `BufRead::lines` splits them: at each
/// `\n`, which is dropped with a `\r` just before it; the bytes after the
/// last `\n` are a line if there are any.
pub open spec fn raw_lines(b: Seq<u8>) -> Seq<Seq<u8>>
    decreases b.len(),
{
    if b.len() == 0 {
        seq![]
    } else {
        let i = newline_from(b, 0);
        if i >= b.len() {
            seq![b]
        } else {
            proof {
                lemma_newline_from(b, 0);
            }
            seq![strip_cr(b.subrange(0, i))] + raw_lines(b.skip(i + 1))
        }
    }
}

/// Whether `l` is what reading the line `raw` gives: its text when it is
/// UTF-8, else an error.
pub open spec fn line_read_as(l: Line, raw: Seq<u8>) -> bool {
    if vstd::utf8::valid_utf8(raw) {
        l is Ok && l->Ok_0@ == vstd::utf8::decode_utf8(raw)
    } else {
        l is Err
    }
}

/// Whether `ls` are the lines that reading `bytes` line by line gives.
pub open spec fn lines_read_from(ls: Seq<Line>, bytes: Seq<u8>) -> bool {
    let raws = raw_lines(bytes);
    &&& ls.len() == raws.len()
    &&& forall|i: int| 0 <= i < ls.len() ==> line_read_as(#[trigger] ls[i], raws[i])
}

/// `std::str::from_utf8`: the text that `bytes` encode, if they are UTF-8.
#[verifier::external_body]
fn decode_utf8_bytes(bytes: &[u8]) -> (r: Option<String>)
    ensures
        r is Some <==> vstd::utf8::valid_utf8(bytes@),
        r matches Some(s) ==> s@ == vstd::utf8::decode_utf8(bytes@),
{
    match std::str::from_utf8(bytes) {
        Ok(s) => Some(s.to_owned()),
        Err(_) => None,
    }
}

/// `std::io::Error::new`: the error `BufRead::lines` gives for a line that
/// is not UTF-8 (kind `InvalidData`, "stream did not contain valid UTF-8").
/// Nothing is stated of it: the library only passes it on.
#[verifier::external_body]
fn invalid_utf8_error() -> std::io::Error {
    std::io::Error::new(std::io::ErrorKind::InvalidData, "stream did not contain valid UTF-8")
}

/// The line whose bytes are `raw`.
fn read_line(raw: &[u8]) -> (l: Line)
    ensures
        line_read_as(l, raw@),
{
    match decode_utf8_bytes(raw) {
        Some(s) => Ok(s),
        None => Err(invalid_utf8_error()),
    }
}

/// The lines of `bytes`, read as `BufRead::lines` reads them.
pub fn read_lines(bytes: &[u8]) -> (ls: Vec<Line>)
    ensures
        lines_read_from(ls@, bytes@),
{
    let ghost b = bytes@;
    let n = bytes.len();
    let mut ls: Vec<Line> = Vec::new();
    let ghost mut raws: Seq<Seq<u8>> = seq![];
    let mut start: usize = 0;
    proof {
        assert(b.skip(0) =~= b);
        assert(raw_lines(b) =~= raws + raw_lines(b.skip(0)));
    }
    while start < n
        invariant
            n == b.len(),
            b == bytes@,
            start <= n,
            raw_lines(b) == raws + raw_lines(b.skip(start as int)),
            ls@.len() == raws.len(),
            forall|i: int| 0 <= i < ls@.len() ==> line_read_as(#[trigger] ls@[i], raws[i]),
        decreases n - start,
    {
        let ghost rest = b.skip(start as int);
        let mut end: usize = start;
        while end < n && bytes[end] != 10u8
            invariant
                start <= end <= n,
                n == b.len(),
                b == bytes@,
                forall|m: int| start <= m < end ==> b[m] != 10,
            decreases n - end,
        {
            end = end + 1;
        }
        proof {
            lemma_newline_from(rest, 0);
            let i = newline_from(rest, 0);
            assert forall|m: int| 0 <= m < end - start implies rest[m] != 10 by {
                assert(rest[m] == b[start + m]);
            }
            if end < n {
                assert(rest[end - start] == 10);
            }
            // The scan stops where `newline_from` does.
            if i < end - start {
                assert(rest[i] == 10);
            }
            if i > end - start {
                assert(rest[end - start] != 10);
            }
            assert(i == end - start);
        }
        if end < n {
            let mut line_end = end;
            if end > start && bytes[end - 1] == 13u8 {
                line_end = end - 1;
            }
            let l = read_line(&bytes[start..line_end]);
            proof {
                let i = newline_from(rest, 0);
                assert(rest.subrange(0, i) =~= b.subrange(start as int, end as int));
                assert(b.subrange(start as int, line_end as int) =~= strip_cr(
                    rest.subrange(0, i),
                ));
                assert(rest.skip(i + 1) =~= b.skip(end + 1));
                assert(raw_lines(rest) == seq![strip_cr(rest.subrange(0, i))] + raw_lines(
                    rest.skip(i + 1),
                ));
                raws = raws + seq![strip_cr(rest.subrange(0, i))];
                assert(raw_lines(b) =~= raws + raw_lines(b.skip(end + 1)));
            }
            ls.push(l);
            start = end + 1;
        } else {
            let l = read_line(&bytes[start..n]);
            proof {
                assert(rest =~= b.subrange(start as int, n as int));
                assert(raw_lines(rest) == seq![rest]);
                raws = raws + seq![rest];
                assert(b.skip(n as int).len() == 0);
                assert(raw_lines(b) =~= raws + raw_lines(b.skip(n as int)));
            }
            ls.push(l);
            start = n;
        }
    }
    proof {
        assert(b.skip(n as int).len() == 0);
        assert(raws =~= raws + raw_lines(b.skip(n as int)));
    }
    ls
}

/// Reads the cues of a WebVTT file whose bytes are `reader`.
pub fn parse_vtt_blocks_from_reader(reader: &[u8]) -> (r: Result<Vec<VttBlock>, ProcessError>)
    ensures
        exists|ls: Seq<Line>| lines_read_from(ls, reader@) && blocks_match(r, #[trigger] file_spec(ls).0),
{
    let mut warnings: Vec<String> = Vec::new();
    parse_vtt_bytes(reader, &mut warnings)
}

/// `parse_vtt_blocks_from_reader`, which also appends the warnings it
/// reports to `warnings`.
pub fn parse_vtt_bytes(reader: &[u8], warnings: &mut Vec<String>) -> (r: Result<
    Vec<VttBlock>,
    ProcessError,
>)
    ensures
        exists|ls: Seq<Line>|
            lines_read_from(ls, reader@) && blocks_match(r, #[trigger] file_spec(ls).0) && views(
                final(warnings)@,
            ) == views(old(warnings)@) + file_spec(ls).1,
{
    let lines = read_lines(reader);
    let ghost ls = lines@;
    let r = parse_vtt_lines(lines, warnings);
    proof {
        assert(lines_read_from(ls, reader@) && blocks_match(r, file_spec(ls).0));
    }
    r
}
} // verus!
