//! Properties of the reader and the writer as a whole.
use vstd::prelude::*;

use crate::number::{digit_value, is_digit, parse_u32_spec, scan_digits};
use crate::lrc::{
    all_minutes_fit, all_lrc_lines, centiseconds, lrc_spec, lrc_tag, min_digits_spec, total_minutes,
    two_digits,
};
use crate::text::{decimal, digit_char, is_ws, lemma_decimal_len, pow10, split_ws, zero_pad};
use crate::vtt::{
    cue_step, cues_spec, field_spec, file_spec, has_text, is_blank, lemma_skip_blank,
    lemma_text_end, lemma_text_end_bounds, lemma_cue_step_consumed, range_spec, skip_blank,
    text_end, timestamp_spec, Cue, CueOutcome, CueStep, Line,
    TimeStamp, TimeStampRange, VttBlock, models, lines_read_from, raw_lines, newline_from,
    lemma_newline_from, strip_cr,
};
use vstd::utf8::{encode_scalar, encode_utf8};
use crate::cli::{default_output_spec, opts_run, parse_opts_spec};
use crate::error::ErrorModel;
use crate::lrc::{overwrite_choice_spec, trim, trim_end, trim_start, OverwriteChoice};

verus! {

// ---------------------------------------------------------------------
// Times
// ---------------------------------------------------------------------

/// Whether each field of `t` fits the `hh:mm:ss.mmm` form.
pub open spec fn time_in_range(t: TimeStamp) -> bool {
    t.hour < 100 && t.min < 100 && t.sec < 100 && t.milli < 1000
}

/// `t` written `hh:mm:ss.mmm`, each field zero-padded.
pub open spec fn format_timestamp(t: TimeStamp) -> Seq<char> {
    zero_pad(decimal(t.hour as nat), 2) + ":"@ + zero_pad(decimal(t.min as nat), 2) + ":"@
        + zero_pad(decimal(t.sec as nat), 2) + "."@ + zero_pad(decimal(t.milli as nat), 3)
}

proof fn lemma_scan_digits_lt(s: Seq<char>, acc: nat)
    ensures
        scan_digits(s, acc) matches Ok(v) ==> v < (acc + 1) * pow10(s.len()),
    decreases s.len(),
{
    if s.len() == 0 {
        assert(pow10(0) == 1);
        assert((acc + 1) * 1 == acc + 1) by (nonlinear_arith);
    } else if is_digit(s[0]) && acc * 10 + digit_value(s[0]) <= u32::MAX {
        let a2 = acc * 10 + digit_value(s[0]);
        lemma_scan_digits_lt(s.drop_first(), a2);
        let p = pow10((s.len() - 1) as nat);
        assert(pow10(s.len()) == 10 * p);
        assert(digit_value(s[0]) <= 9);
        assert((a2 + 1) * p <= (acc + 1) * (10 * p)) by (nonlinear_arith)
            requires
                a2 == acc * 10 + digit_value(s[0]),
                digit_value(s[0]) <= 9,
        ;
    }
}

proof fn lemma_parse_u32_lt(s: Seq<char>)
    ensures
        parse_u32_spec(s) matches Ok(v) ==> v < pow10(s.len()),
{
    if s.len() > 0 && s[0] == '+' && s.len() > 1 {
        lemma_scan_digits_lt(s.drop_first(), 0);
        crate::number::lemma_scan_digits_bound(s.drop_first(), 0);
        let p = pow10((s.len() - 1) as nat);
        assert(pow10(s.len()) == 10 * p);
        assert((0nat + 1) * p == p) by (nonlinear_arith);
    } else if s.len() > 0 {
        lemma_scan_digits_lt(s, 0);
        crate::number::lemma_scan_digits_bound(s, 0);
        let p = pow10(s.len());
        assert((0nat + 1) * p == p) by (nonlinear_arith);
    }
}

/// A time that is read has each field in range: two digits for hours,
/// minutes and seconds, three for milliseconds.
pub proof fn law_timestamp_fields_in_range(text: Seq<char>, line_num: nat)
    ensures
        timestamp_spec(text, line_num) matches Ok(t) ==> time_in_range(t),
{
    reveal_with_fuel(pow10, 4);
    if text.len() == 12 {
        lemma_parse_u32_lt(text.subrange(0, 2));
        lemma_parse_u32_lt(text.subrange(3, 5));
        lemma_parse_u32_lt(text.subrange(6, 8));
        lemma_parse_u32_lt(text.subrange(9, 12));
    }
}

proof fn lemma_digit_char(d: nat)
    requires
        d < 10,
    ensures
        is_digit(digit_char(d)),
        digit_value(digit_char(d)) == d,
        digit_char(d) != '+',
        '\0' <= digit_char(d) <= '\u{7f}',
{
}

/// Two zero-padded digits.
proof fn lemma_two_digits(v: nat)
    requires
        v < 100,
    ensures
        zero_pad(decimal(v), 2) == seq![digit_char(v / 10), digit_char(v % 10)],
{
    if v < 10 {
        assert(decimal(v) == seq![digit_char(v)]);
        assert(digit_char(0) == '0');
        assert(zero_pad(decimal(v), 2) =~= seq![digit_char(v / 10), digit_char(v % 10)]);
    } else {
        assert(decimal(v / 10) == seq![digit_char(v / 10)]);
        assert(decimal(v) =~= seq![digit_char(v / 10), digit_char(v % 10)]);
    }
}

/// Three zero-padded digits.
proof fn lemma_three_digits(v: nat)
    requires
        v < 1000,
    ensures
        zero_pad(decimal(v), 3) == seq![
            digit_char(v / 100),
            digit_char((v / 10) % 10),
            digit_char(v % 10),
        ],
{
    assert(digit_char(0) == '0');
    if v < 10 {
        assert(decimal(v) == seq![digit_char(v)]);
        assert(zero_pad(decimal(v), 3) =~= seq![
            digit_char(v / 100),
            digit_char((v / 10) % 10),
            digit_char(v % 10),
        ]);
    } else if v < 100 {
        assert(decimal(v / 10) == seq![digit_char(v / 10)]);
        assert(decimal(v) =~= seq![digit_char(v / 10), digit_char(v % 10)]);
        assert(zero_pad(decimal(v), 3) =~= seq![
            digit_char(v / 100),
            digit_char((v / 10) % 10),
            digit_char(v % 10),
        ]);
    } else {
        assert(decimal(v / 100) == seq![digit_char(v / 100)]);
        assert(v / 10 >= 10);
        assert((v / 10) / 10 == v / 100);
        assert(decimal(v / 10) =~= seq![digit_char(v / 100), digit_char((v / 10) % 10)]);
        assert(decimal(v) =~= seq![
            digit_char(v / 100),
            digit_char((v / 10) % 10),
            digit_char(v % 10),
        ]);
    }
}

proof fn lemma_field_two(v: nat)
    requires
        v < 100,
    ensures
        parse_u32_spec(seq![digit_char(v / 10), digit_char(v % 10)]) == Ok::<u32, crate::number::IntErrorKind>(v as u32),
{
    let s = seq![digit_char(v / 10), digit_char(v % 10)];
    lemma_digit_char(v / 10);
    lemma_digit_char(v % 10);
    assert(s.drop_first().drop_first().len() == 0);
    assert(scan_digits(s.drop_first().drop_first(), v) == Ok::<nat, crate::number::IntErrorKind>(v));
    assert(scan_digits(s.drop_first(), v / 10) == Ok::<nat, crate::number::IntErrorKind>(v));
}

proof fn lemma_field_three(v: nat)
    requires
        v < 1000,
    ensures
        parse_u32_spec(
            seq![digit_char(v / 100), digit_char((v / 10) % 10), digit_char(v % 10)],
        ) == Ok::<u32, crate::number::IntErrorKind>(v as u32),
{
    let s = seq![digit_char(v / 100), digit_char((v / 10) % 10), digit_char(v % 10)];
    lemma_digit_char(v / 100);
    lemma_digit_char((v / 10) % 10);
    lemma_digit_char(v % 10);
    let s1 = s.drop_first();
    let s2 = s1.drop_first();
    let s3 = s2.drop_first();
    assert(s3.len() == 0);
    assert(scan_digits(s3, v) == Ok::<nat, crate::number::IntErrorKind>(v));
    assert(scan_digits(s2, v / 10) == Ok::<nat, crate::number::IntErrorKind>(v));
    assert(scan_digits(s1, v / 100) == Ok::<nat, crate::number::IntErrorKind>(v));
}

/// The digits of the fields of `t`.
pub open spec fn hour_digits(t: TimeStamp) -> Seq<char> {
    seq![digit_char(t.hour as nat / 10), digit_char(t.hour as nat % 10)]
}

pub open spec fn min_digits(t: TimeStamp) -> Seq<char> {
    seq![digit_char(t.min as nat / 10), digit_char(t.min as nat % 10)]
}

pub open spec fn sec_digits(t: TimeStamp) -> Seq<char> {
    seq![digit_char(t.sec as nat / 10), digit_char(t.sec as nat % 10)]
}

pub open spec fn milli_digits(t: TimeStamp) -> Seq<char> {
    seq![
        digit_char(t.milli as nat / 100),
        digit_char((t.milli as nat / 10) % 10),
        digit_char(t.milli as nat % 10),
    ]
}

proof fn lemma_format_shape(t: TimeStamp)
    requires
        time_in_range(t),
    ensures
        ({
            let text = format_timestamp(t);
            &&& text.len() == 12
            &&& text[2] == ':' && text[5] == ':' && text[8] == '.'
            &&& vstd::utf8::is_ascii_chars(text)
            &&& text.subrange(0, 2) == hour_digits(t)
            &&& text.subrange(3, 5) == min_digits(t)
            &&& text.subrange(6, 8) == sec_digits(t)
            &&& text.subrange(9, 12) == milli_digits(t)
        }),
{
    reveal_strlit(":");
    reveal_strlit(".");
    lemma_two_digits(t.hour as nat);
    lemma_two_digits(t.min as nat);
    lemma_two_digits(t.sec as nat);
    lemma_three_digits(t.milli as nat);
    let text = format_timestamp(t);
    let whole = hour_digits(t) + seq![':'] + min_digits(t) + seq![':'] + sec_digits(t) + seq!['.']
        + milli_digits(t);
    assert(text =~= whole);
    lemma_digit_char(t.hour as nat / 10);
    lemma_digit_char(t.hour as nat % 10);
    lemma_digit_char(t.min as nat / 10);
    lemma_digit_char(t.min as nat % 10);
    lemma_digit_char(t.sec as nat / 10);
    lemma_digit_char(t.sec as nat % 10);
    lemma_digit_char(t.milli as nat / 100);
    lemma_digit_char((t.milli as nat / 10) % 10);
    lemma_digit_char(t.milli as nat % 10);
    assert(text.subrange(0, 2) =~= hour_digits(t));
    assert(text.subrange(3, 5) =~= min_digits(t));
    assert(text.subrange(6, 8) =~= sec_digits(t));
    assert(text.subrange(9, 12) =~= milli_digits(t));
}

/// A time written `hh:mm:ss.mmm` reads back as itself.
pub proof fn law_timestamp_roundtrip(t: TimeStamp, line_num: nat)
    requires
        time_in_range(t),
    ensures
        timestamp_spec(format_timestamp(t), line_num) == Ok::<TimeStamp, Seq<char>>(t),
{
    let text = format_timestamp(t);
    lemma_format_shape(t);
    lemma_field_two(t.hour as nat);
    lemma_field_two(t.min as nat);
    lemma_field_two(t.sec as nat);
    lemma_field_three(t.milli as nat);
    assert(field_spec(text, 0, 2) == Ok::<u32, Seq<char>>(t.hour));
    assert(field_spec(text, 3, 5) == Ok::<u32, Seq<char>>(t.min));
    assert(field_spec(text, 6, 8) == Ok::<u32, Seq<char>>(t.sec));
    assert(field_spec(text, 9, 12) == Ok::<u32, Seq<char>>(t.milli));
}


// ---------------------------------------------------------------------
// Time lines
// ---------------------------------------------------------------------

/// Every character of `s` is whitespace.
pub open spec fn all_ws(s: Seq<char>) -> bool {
    forall|i: int| 0 <= i < s.len() ==> is_ws(#[trigger] s[i])
}

/// `s` is a token: not empty, and no character of it is whitespace.
pub open spec fn is_token(s: Seq<char>) -> bool {
    s.len() > 0 && forall|i: int| 0 <= i < s.len() ==> !is_ws(#[trigger] s[i])
}

proof fn lemma_split_ws_append_ws(s: Seq<char>, w: Seq<char>)
    requires
        all_ws(w),
    ensures
        split_ws(s + w) == split_ws(s),
    decreases w.len(),
{
    if w.len() > 0 {
        let x = s + w;
        assert(x.drop_last() =~= s + w.drop_last());
        assert(x.last() == w.last());
        lemma_split_ws_append_ws(s, w.drop_last());
    } else {
        assert(s + w =~= s);
    }
}

proof fn lemma_split_ws_append_token(s: Seq<char>, t: Seq<char>)
    requires
        is_token(t),
        s.len() == 0 || is_ws(s.last()),
    ensures
        split_ws(s + t) == split_ws(s).push(t),
    decreases t.len(),
{
    let x = s + t;
    assert(x.drop_last() =~= s + t.drop_last());
    assert(x.last() == t.last());
    assert(!is_ws(t[t.len() - 1]));
    if t.len() == 1 {
        assert(t.drop_last().len() == 0);
        assert(s + t.drop_last() =~= s);
        assert(seq![t.last()] =~= t);
    } else {
        let u = t.drop_last();
        assert(is_token(u)) by {
            assert forall|i: int| 0 <= i < u.len() implies !is_ws(#[trigger] u[i]) by {
                assert(u[i] == t[i]);
            }
        }
        lemma_split_ws_append_token(s, u);
        assert((s + u).last() == u.last());
        assert(!is_ws(u[u.len() - 1]));
        let toks = split_ws(s + u);
        assert(toks == split_ws(s).push(u));
        assert(toks.update(toks.len() - 1, toks.last().push(t.last())) =~= split_ws(s).push(t)) by {
            assert(u.push(t.last()) =~= t);
        }
    }
}

/// What a time line whose tokens are `a`, `-->` and `b` reads as.
pub open spec fn range_of_tokens(a: Seq<char>, b: Seq<char>, line_num: nat) -> Result<
    TimeStampRange,
    Seq<char>,
> {
    match timestamp_spec(a, line_num) {
        Err(m) => Err(m),
        Ok(start) => match timestamp_spec(b, line_num) {
            Err(m) => Err(m),
            Ok(end) => Ok(TimeStampRange { start, end }),
        },
    }
}

/// A time line reads the same whatever whitespace surrounds and separates
/// its parts, as long as some separates them.
pub proof fn law_range_whitespace(
    a: Seq<char>,
    b: Seq<char>,
    w0: Seq<char>,
    w1: Seq<char>,
    w2: Seq<char>,
    w3: Seq<char>,
    line_num: nat,
)
    requires
        is_token(a),
        is_token(b),
        all_ws(w0),
        all_ws(w1),
        all_ws(w2),
        all_ws(w3),
        w1.len() > 0,
        w2.len() > 0,
    ensures
        range_spec(w0 + a + w1 + "-->"@ + w2 + b + w3, line_num) == range_of_tokens(
            a,
            b,
            line_num,
        ),
{
    reveal_strlit("-->");
    let arrow = "-->"@;
    assert(arrow == seq!['-', '-', '>']);
    assert(is_token(arrow));
    let e: Seq<char> = seq![];
    lemma_split_ws_append_ws(e, w0);
    assert(e + w0 =~= w0);
    assert(w0.len() == 0 || is_ws(w0.last()));
    lemma_split_ws_append_token(w0, a);
    lemma_split_ws_append_ws(w0 + a, w1);
    assert((w0 + a + w1).last() == w1.last());
    lemma_split_ws_append_token(w0 + a + w1, arrow);
    lemma_split_ws_append_ws(w0 + a + w1 + arrow, w2);
    assert((w0 + a + w1 + arrow + w2).last() == w2.last());
    lemma_split_ws_append_token(w0 + a + w1 + arrow + w2, b);
    lemma_split_ws_append_ws(w0 + a + w1 + arrow + w2 + b, w3);
    let toks = split_ws(w0 + a + w1 + arrow + w2 + b + w3);
    assert(toks =~= seq![a, arrow, b]);
}

/// A time line written `start --> end` reads back as the two times.
pub proof fn law_range_roundtrip(range: TimeStampRange, line_num: nat)
    requires
        time_in_range(range.start),
        time_in_range(range.end),
    ensures
        range_spec(
            format_timestamp(range.start) + " --> "@ + format_timestamp(range.end),
            line_num,
        ) == Ok::<TimeStampRange, Seq<char>>(range),
{
    reveal_strlit(" --> ");
    reveal_strlit("-->");
    let a = format_timestamp(range.start);
    let b = format_timestamp(range.end);
    lemma_format_token(range.start);
    lemma_format_token(range.end);
    let sp = seq![' '];
    let e: Seq<char> = seq![];
    assert(all_ws(sp));
    assert(all_ws(e));
    assert(a + " --> "@ + b =~= e + a + sp + "-->"@ + sp + b + e);
    law_range_whitespace(a, b, e, sp, sp, e, line_num);
    law_timestamp_roundtrip(range.start, line_num);
    law_timestamp_roundtrip(range.end, line_num);
}

/// A written time is a single token.
#[verifier::spinoff_prover]
#[verifier::rlimit(40)]
proof fn lemma_format_token(t: TimeStamp)
    requires
        time_in_range(t),
    ensures
        is_token(format_timestamp(t)),
{
    lemma_format_shape(t);
    let text = format_timestamp(t);
    assert forall|i: int| 0 <= i < text.len() implies !is_ws(#[trigger] text[i]) by {
        if i < 2 {
            assert(text[i] == text.subrange(0, 2)[i]);
        } else if 3 <= i < 5 {
            assert(text[i] == text.subrange(3, 5)[i - 3]);
        } else if 6 <= i < 8 {
            assert(text[i] == text.subrange(6, 8)[i - 6]);
        } else if 9 <= i {
            assert(text[i] == text.subrange(9, 12)[i - 9]);
        }
    }
}

// ---------------------------------------------------------------------
// Files
// ---------------------------------------------------------------------

/// A cue that can be written as WebVTT and read back: times in range and
/// at least one text line, none of them empty.
pub open spec fn writable_cue(c: Cue) -> bool {
    &&& time_in_range(c.0.start)
    &&& time_in_range(c.0.end)
    &&& c.1.len() > 0
    &&& forall|i: int| 0 <= i < c.1.len() ==> (#[trigger] c.1[i]).len() > 0
}

/// The time line of a cue, `hh:mm:ss.mmm --> hh:mm:ss.mmm`.
pub open spec fn time_line(r: TimeStampRange) -> Seq<char> {
    format_timestamp(r.start) + " --> "@ + format_timestamp(r.end)
}

/// The lines of `cues` written as WebVTT cues: each cue its time line and
/// its text lines, an empty line between cues, and one after the last when
/// `trailing` holds.
pub open spec fn cues_text(cues: Seq<Cue>, trailing: bool) -> Seq<Seq<char>>
    decreases cues.len(),
{
    if cues.len() == 0 {
        seq![]
    } else {
        let c = cues[0];
        let body = seq![time_line(c.0)] + c.1;
        if cues.len() == 1 {
            if trailing {
                body + seq![seq![]]
            } else {
                body
            }
        } else {
            body + seq![seq![]] + cues_text(cues.drop_first(), trailing)
        }
    }
}

/// The lines of a WebVTT file holding `cues`: `WEBVTT`, an empty line, and
/// the cues.
pub open spec fn file_text(cues: Seq<Cue>, trailing: bool) -> Seq<Seq<char>> {
    seq!["WEBVTT"@, seq![]] + cues_text(cues, trailing)
}

/// `ls` are lines read without error, with the texts `texts`.
pub open spec fn lines_hold(ls: Seq<Line>, texts: Seq<Seq<char>>) -> bool {
    &&& ls.len() == texts.len()
    &&& forall|i: int| 0 <= i < ls.len() ==> (#[trigger] ls[i]) is Ok && ls[i]->Ok_0@ == texts[i]
}

/// Reading a cue written as `c`, followed by an empty line when `more`.
proof fn lemma_first_cue(ls: Seq<Line>, c: Cue, more: bool, line_num: int)
    requires
        writable_cue(c),
        ls.len() >= 1 + c.1.len(),
        lines_hold(ls.take(1 + c.1.len() as int), seq![time_line(c.0)] + c.1),
        more ==> ls.len() > 1 + c.1.len() && is_blank(ls[1 + c.1.len() as int]),
        !more ==> ls.len() == 1 + c.1.len(),
    ensures
        cue_step(ls, line_num).outcome == CueOutcome::Cue(c.0, c.1),
        cue_step(ls, line_num).consumed == 1 + c.1.len() + (if more {
            1int
        } else {
            0int
        }),
        cue_step(ls, line_num).line_num == line_num + cue_step(ls, line_num).consumed,
{
    let d = c.1;
    let dl = d.len() as int;
    let head = ls.take(1 + dl);
    let texts = seq![time_line(c.0)] + d;
    reveal_strlit(" --> ");
    assert(head[0] == ls[0]);
    assert(texts[0] == time_line(c.0));
    assert(time_line(c.0).len() > 0);
    assert(!is_blank(ls[0]));
    lemma_skip_blank(ls, 0, 0);
    law_range_roundtrip(c.0, (line_num + 1) as nat);
    assert forall|m: int| 1 <= m < 1 + dl implies has_text(#[trigger] ls[m]) by {
        assert(head[m] == ls[m]);
        assert(texts[m] == d[m - 1]);
    }
    lemma_text_end(ls, 1, 1 + dl);
    let data = Seq::new((1 + dl - 1) as nat, |i: int| ls[1 + i]->Ok_0@);
    assert(data =~= d) by {
        assert forall|i: int| 0 <= i < dl implies data[i] == d[i] by {
            assert(head[1 + i] == ls[1 + i]);
            assert(texts[1 + i] == d[i]);
        }
    }
}

#[verifier::rlimit(50)]
proof fn lemma_cues_read(ls: Seq<Line>, cues: Seq<Cue>, trailing: bool, line_num: int)
    requires
        forall|i: int| 0 <= i < cues.len() ==> writable_cue(#[trigger] cues[i]),
        lines_hold(ls, cues_text(cues, trailing)),
    ensures
        cues_spec(ls, line_num).0 == Ok::<Seq<Cue>, crate::error::ErrorModel>(cues),
    decreases cues.len(),
{
    if cues.len() == 0 {
        lemma_skip_blank(ls, 0, 0);
        assert(cue_step(ls, line_num).outcome is End);
        assert(cues =~= Seq::<Cue>::empty());
    } else {
        let c = cues[0];
        assert(writable_cue(c));
        let dl = c.1.len() as int;
        let texts = cues_text(cues, trailing);
        let body = seq![time_line(c.0)] + c.1;
        let more = cues.len() > 1 || trailing;
        let rest_cues = cues.drop_first();
        let tail = cues_text(rest_cues, trailing);
        assert(texts == if more {
            if cues.len() == 1 {
                body + seq![seq![]]
            } else {
                body + seq![seq![]] + tail
            }
        } else {
            body
        });
        assert(lines_hold(ls.take(1 + dl), body)) by {
            assert forall|i: int| 0 <= i < 1 + dl implies (#[trigger] ls.take(1 + dl)[i]) is Ok
                && ls.take(1 + dl)[i]->Ok_0@ == body[i] by {
                assert(ls.take(1 + dl)[i] == ls[i]);
            }
        }
        if more {
            assert(texts[1 + dl] == Seq::<char>::empty());
            assert(is_blank(ls[1 + dl]));
        }
        lemma_first_cue(ls, c, more, line_num);
        let st = cue_step(ls, line_num);
        if cues.len() == 1 {
            assert(ls.skip(st.consumed).len() == 0);
            lemma_skip_blank(ls.skip(st.consumed), 0, 0);
            assert(cue_step(ls.skip(st.consumed), st.line_num).outcome is End);
            assert(cues_spec(ls.skip(st.consumed), st.line_num).0 == Ok::<
                Seq<Cue>,
                crate::error::ErrorModel,
            >(seq![]));
            assert(seq![(c.0, c.1)] + Seq::<Cue>::empty() =~= cues);
        } else {
            let rest = ls.skip(st.consumed);
            assert(lines_hold(rest, tail)) by {
                assert forall|i: int| 0 <= i < rest.len() implies (#[trigger] rest[i]) is Ok
                    && rest[i]->Ok_0@ == tail[i] by {
                    assert(rest[i] == ls[2 + dl + i]);
                    assert(texts[2 + dl + i] == tail[i]);
                }
            }
            assert forall|i: int| 0 <= i < rest_cues.len() implies writable_cue(
                #[trigger] rest_cues[i],
            ) by {
                assert(rest_cues[i] == cues[i + 1]);
            }
            lemma_cues_read(rest, rest_cues, trailing, st.line_num);
            assert(seq![(c.0, c.1)] + rest_cues =~= cues);
        }
    }
}

/// A WebVTT file written from cues reads back as those cues, whether or
/// not an empty line follows the last one.
pub proof fn law_file_roundtrip(ls: Seq<Line>, cues: Seq<Cue>, trailing: bool)
    requires
        forall|i: int| 0 <= i < cues.len() ==> writable_cue(#[trigger] cues[i]),
        lines_hold(ls, file_text(cues, trailing)),
    ensures
        file_spec(ls).0 == Ok::<Seq<Cue>, crate::error::ErrorModel>(cues),
{
    let texts = file_text(cues, trailing);
    assert(texts[0] == "WEBVTT"@);
    assert(texts[1] == Seq::<char>::empty());
    let rest = ls.skip(2);
    assert(lines_hold(rest, cues_text(cues, trailing))) by {
        assert forall|i: int| 0 <= i < rest.len() implies (#[trigger] rest[i]) is Ok
            && rest[i]->Ok_0@ == cues_text(cues, trailing)[i] by {
            assert(rest[i] == ls[2 + i]);
            assert(texts[2 + i] == cues_text(cues, trailing)[i]);
        }
    }
    lemma_cues_read(rest, cues, trailing, 2);
}

proof fn lemma_text_end_has_text(ls: Seq<Line>, i: int)
    requires
        0 <= i <= ls.len(),
    ensures
        forall|m: int| i <= m < text_end(ls, i) ==> has_text(#[trigger] ls[m]),
    decreases ls.len() - i,
{
    if i < ls.len() && has_text(ls[i]) {
        lemma_text_end_has_text(ls, i + 1);
    }
}

/// A cue that is read can be written back: its times are in range and it
/// has text lines, none of them empty.
pub proof fn law_cue_read_is_writable(ls: Seq<Line>, line_num: int)
    ensures
        cue_step(ls, line_num).outcome matches CueOutcome::Cue(r, d) ==> writable_cue((r, d)),
{
    let st = cue_step(ls, line_num);
    if let CueOutcome::Cue(r, d) = st.outcome {
        crate::vtt::lemma_skip_blank_bounds(ls, 0);
        let k = skip_blank(ls, 0);
        let tl = (line_num + k + 1) as nat;
        let text = ls[k]->Ok_0@;
        let toks = split_ws(text);
        law_timestamp_fields_in_range(toks[0], tl);
        law_timestamp_fields_in_range(toks[2], tl);
        lemma_text_end_bounds(ls, k + 1);
        lemma_text_end_has_text(ls, k + 1);
        let j = text_end(ls, k + 1);
        assert forall|i: int| 0 <= i < d.len() implies (#[trigger] d[i]).len() > 0 by {
            assert(has_text(ls[k + 1 + i]));
        }
    }
}

/// Every cue of a file that is read can be written back.
pub proof fn law_cues_read_are_writable(ls: Seq<Line>, line_num: int)
    ensures
        cues_spec(ls, line_num).0 matches Ok(cues) ==> forall|i: int|
            0 <= i < cues.len() ==> writable_cue(#[trigger] cues[i]),
    decreases ls.len(),
{
    let st = cue_step(ls, line_num);
    if let CueOutcome::Cue(r, d) = st.outcome {
        law_cue_read_is_writable(ls, line_num);
        lemma_cue_step_consumed(ls, line_num);
        law_cues_read_are_writable(ls.skip(st.consumed), st.line_num);
        if let Ok(cues) = cues_spec(ls, line_num).0 {
            let rest = cues_spec(ls.skip(st.consumed), st.line_num).0->Ok_0;
            assert(cues == seq![(r, d)] + rest);
            assert forall|i: int| 0 <= i < cues.len() implies writable_cue(#[trigger] cues[i]) by {
                if i > 0 {
                    assert(cues[i] == rest[i - 1]);
                }
            }
        }
    }
}

/// Every cue of a WebVTT file that is read can be written back.
pub proof fn law_file_read_is_writable(ls: Seq<Line>)
    ensures
        file_spec(ls).0 matches Ok(cues) ==> forall|i: int|
            0 <= i < cues.len() ==> writable_cue(#[trigger] cues[i]),
{
    law_cues_read_are_writable(ls.skip(2), 2);
}

// ---------------------------------------------------------------------
// LRC tags
// ---------------------------------------------------------------------

proof fn lemma_decimal_len_mono(a: nat, b: nat)
    requires
        a <= b,
    ensures
        decimal(a).len() <= decimal(b).len(),
    decreases b,
{
    lemma_decimal_len(a);
    lemma_decimal_len(b);
    if a >= 10 {
        lemma_decimal_len_mono(a / 10, b / 10);
    }
}

proof fn lemma_two_digits_lt(c: nat)
    ensures
        two_digits(c) < 100,
    decreases c,
{
    if c >= 100 {
        lemma_two_digits_lt(c / 10);
    }
}

proof fn lemma_pad_len(s: Seq<char>, w: nat)
    requires
        s.len() <= w,
    ensures
        zero_pad(s, w).len() == w,
{
}

/// When no cue starts later than the last one, every LRC tag has the same
/// width: the minutes padded to the width the last start asks for, then
/// `:ss.xx` and the brackets.
pub proof fn law_lrc_tags_aligned(cues: Seq<Cue>)
    requires
        cues.len() > 0,
        forall|i: int| 0 <= i < cues.len() ==> time_in_range((#[trigger] cues[i]).0.start),
        forall|i: int|
            0 <= i < cues.len() ==> total_minutes((#[trigger] cues[i]).0.start) <= total_minutes(
                cues.last().0.start,
            ),
    ensures
        forall|i: int|
            0 <= i < cues.len() ==> lrc_tag((#[trigger] cues[i]).0.start, min_digits_spec(
                cues.last().0.start,
            )).len() == min_digits_spec(cues.last().0.start) + 8,
{
    reveal_strlit("[");
    reveal_strlit(":");
    reveal_strlit(".");
    reveal_strlit("]");
    let last = cues.last().0.start;
    let w = min_digits_spec(last);
    assert(time_in_range(cues[cues.len() - 1].0.start));
    assert forall|i: int| 0 <= i < cues.len() implies lrc_tag(
        (#[trigger] cues[i]).0.start,
        w,
    ).len() == w + 8 by {
        let t = cues[i].0.start;
        lemma_decimal_len((total_minutes(t)) as nat);
        if last.hour > 0 {
            lemma_decimal_len_mono(total_minutes(t) as nat, total_minutes(last) as nat);
        } else {
            assert(total_minutes(t) <= 99);
            assert(decimal(total_minutes(t) as nat).len() <= 2);
        }
        lemma_pad_len(decimal(total_minutes(t) as nat), w);
        lemma_decimal_len(t.sec as nat);
        lemma_pad_len(decimal(t.sec as nat), 2);
        lemma_two_digits_lt(t.milli as nat / 10);
        lemma_decimal_len(centiseconds(t.milli as nat));
        lemma_pad_len(decimal(centiseconds(t.milli as nat)), 2);
    }
}

/// The number of lines of `cues`' text.
pub open spec fn text_line_count(cues: Seq<Cue>) -> nat
    decreases cues.len(),
{
    if cues.len() == 0 {
        0
    } else {
        text_line_count(cues.drop_last()) + cues.last().1.len()
    }
}

proof fn lemma_all_lrc_lines_count(cues: Seq<Cue>, w: nat)
    ensures
        all_lrc_lines(cues, w).len() == text_line_count(cues),
    decreases cues.len(),
{
    if cues.len() > 0 {
        lemma_all_lrc_lines_count(cues.drop_last(), w);
    }
}

/// The LRC file has one line for each text line of the cues.
pub proof fn law_lrc_line_count(cues: Seq<Cue>)
    ensures
        lrc_spec(cues).len() == text_line_count(cues),
{
    if cues.len() > 0 {
        lemma_all_lrc_lines_count(cues, min_digits_spec(cues.last().0.start));
    }
}

// ---------------------------------------------------------------------
// Empty lines before a cue
// ---------------------------------------------------------------------

proof fn lemma_skip_blank_shift(b: Seq<Line>, ls: Seq<Line>, i: int)
    requires
        forall|m: int| 0 <= m < b.len() ==> is_blank(#[trigger] b[m]),
        0 <= i <= b.len(),
    ensures
        skip_blank(b + ls, i) == b.len() + skip_blank(ls, 0),
    decreases b.len() + ls.len() - i,
{
    let x = b + ls;
    if i < b.len() {
        assert(x[i] == b[i]);
        lemma_skip_blank_shift(b, ls, i + 1);
    } else {
        lemma_skip_blank_tail(b, ls, 0);
    }
}

proof fn lemma_skip_blank_tail(b: Seq<Line>, ls: Seq<Line>, i: int)
    requires
        0 <= i <= ls.len(),
    ensures
        skip_blank(b + ls, b.len() + i) == b.len() + skip_blank(ls, i),
    decreases ls.len() - i,
{
    let x = b + ls;
    if i < ls.len() {
        assert(x[b.len() + i] == ls[i]);
        lemma_skip_blank_tail(b, ls, i + 1);
    }
}

proof fn lemma_text_end_tail(b: Seq<Line>, ls: Seq<Line>, i: int)
    requires
        0 <= i <= ls.len(),
    ensures
        text_end(b + ls, b.len() + i) == b.len() + text_end(ls, i),
    decreases ls.len() - i,
{
    let x = b + ls;
    if i < ls.len() {
        assert(x[b.len() + i] == ls[i]);
        lemma_text_end_tail(b, ls, i + 1);
    }
}

/// Empty lines before a cue are skipped: the cue reads as it would without
/// them, its line numbers counting them.
pub proof fn law_blank_lines_skipped(b: Seq<Line>, ls: Seq<Line>, line_num: int)
    requires
        forall|m: int| 0 <= m < b.len() ==> is_blank(#[trigger] b[m]),
    ensures
        cue_step(b + ls, line_num).outcome == cue_step(ls, line_num + b.len()).outcome,
        cue_step(b + ls, line_num).consumed == b.len() + cue_step(ls, line_num + b.len()).consumed,
        cue_step(b + ls, line_num).line_num == cue_step(ls, line_num + b.len()).line_num,
        cue_step(b + ls, line_num).warnings == cue_step(ls, line_num + b.len()).warnings,
{
    let x = b + ls;
    let n2 = line_num + b.len();
    lemma_skip_blank_shift(b, ls, 0);
    crate::vtt::lemma_skip_blank_bounds(ls, 0);
    let k = skip_blank(ls, 0);
    assert(skip_blank(x, 0) == b.len() + k);
    if k < ls.len() {
        assert(x[b.len() + k] == ls[k]);
        lemma_text_end_tail(b, ls, k + 1);
        lemma_text_end_bounds(ls, k + 1);
        let j = text_end(ls, k + 1);
        if j < ls.len() {
            assert(x[b.len() + j] == ls[j]);
        }
        let d1 = Seq::new((j - (k + 1)) as nat, |i: int| ls[k + 1 + i]->Ok_0@);
        let d2 = Seq::new(
            (b.len() + j - (b.len() + k + 1)) as nat,
            |i: int| x[b.len() + k + 1 + i]->Ok_0@,
        );
        assert(d1 =~= d2) by {
            assert forall|i: int| 0 <= i < d1.len() implies d1[i] == d2[i] by {
                assert(x[b.len() + k + 1 + i] == ls[k + 1 + i]);
            }
        }
    }
}

/// Cues that can be written as WebVTT can be written as LRC: the minutes of
/// their starts fit.
pub proof fn law_writable_cues_fit_lrc(blocks: Seq<VttBlock>)
    requires
        forall|i: int| 0 <= i < blocks.len() ==> writable_cue(#[trigger] models(blocks)[i]),
    ensures
        all_minutes_fit(blocks),
{
    assert forall|i: int| 0 <= i < blocks.len() implies crate::lrc::minutes_fit(
        #[trigger] blocks[i].timestamp.start,
    ) by {
        assert(writable_cue(models(blocks)[i]));
        assert(models(blocks)[i].0 == blocks[i].timestamp);
    }
}

// ---------------------------------------------------------------------
// Options
// ---------------------------------------------------------------------

/// The output name that goes with an input name ends with `.lrc`.
pub proof fn law_default_output_is_lrc(input: Seq<char>)
    ensures
        ({
            let out = default_output_spec(input);
            out.len() >= 4 && out.subrange(out.len() - 4, out.len() as int) == ".lrc"@
        }),
{
    reveal_strlit(".lrc");
    let out = default_output_spec(input);
    if input.len() >= 4 && input.subrange(input.len() - 4, input.len() as int) == ".vtt"@ {
        assert(out.subrange(out.len() - 4, out.len() as int) =~= ".lrc"@);
    } else {
        assert(out.subrange(out.len() - 4, out.len() as int) =~= ".lrc"@);
    }
}

/// Options that are read without asking for help name both files.
pub proof fn law_options_name_both_files(args: Seq<Seq<char>>)
    ensures
        parse_opts_spec(args) matches Ok(m) ==> (!m.0 ==> m.1.len() > 0 && m.2.len() > 0),
{
    reveal_strlit(".lrc");
    if let Ok(m) = parse_opts_spec(args) {
        if !m.0 {
            law_default_output_is_lrc(m.1);
        }
    }
}

// ---------------------------------------------------------------------
// Answers
// ---------------------------------------------------------------------

proof fn lemma_trim_start_ws_prefix(w: Seq<char>, s: Seq<char>)
    requires
        all_ws(w),
    ensures
        trim_start(w + s) == trim_start(s),
    decreases w.len(),
{
    if w.len() > 0 {
        assert((w + s)[0] == w[0]);
        assert((w + s).drop_first() =~= w.drop_first() + s);
        lemma_trim_start_ws_prefix(w.drop_first(), s);
    } else {
        assert(w + s =~= s);
    }
}

proof fn lemma_trim_start_all_ws(s: Seq<char>)
    requires
        all_ws(s),
    ensures
        trim_start(s) == Seq::<char>::empty(),
    decreases s.len(),
{
    if s.len() > 0 {
        lemma_trim_start_all_ws(s.drop_first());
    }
}

proof fn lemma_trim_start_ws_suffix(s: Seq<char>, w: Seq<char>)
    requires
        all_ws(w),
    ensures
        trim_start(s + w) == if all_ws(s) {
            Seq::<char>::empty()
        } else {
            trim_start(s) + w
        },
    decreases s.len(),
{
    if s.len() == 0 {
        assert(s + w =~= w);
        lemma_trim_start_all_ws(w);
    } else {
        assert((s + w)[0] == s[0]);
        assert((s + w).drop_first() =~= s.drop_first() + w);
        if is_ws(s[0]) {
            lemma_trim_start_ws_suffix(s.drop_first(), w);
            if all_ws(s.drop_first()) {
                assert forall|i: int| 0 <= i < s.len() implies is_ws(#[trigger] s[i]) by {
                    if i > 0 {
                        assert(s[i] == s.drop_first()[i - 1]);
                    }
                }
            } else {
                assert(!all_ws(s));
            }
        } else {
            assert(!all_ws(s));
        }
    }
}

proof fn lemma_trim_end_ws_suffix(s: Seq<char>, w: Seq<char>)
    requires
        all_ws(w),
    ensures
        trim_end(s + w) == trim_end(s),
    decreases w.len(),
{
    if w.len() > 0 {
        assert((s + w).last() == w.last());
        assert((s + w).drop_last() =~= s + w.drop_last());
        lemma_trim_end_ws_suffix(s, w.drop_last());
    } else {
        assert(s + w =~= s);
    }
}

/// Whitespace around an answer to the overwrite question does not change
/// what it chooses.
pub proof fn law_answer_ignores_whitespace(w1: Seq<char>, a: Seq<char>, w2: Seq<char>)
    requires
        all_ws(w1),
        all_ws(w2),
    ensures
        overwrite_choice_spec(w1 + a + w2) == overwrite_choice_spec(a),
{
    assert(w1 + a + w2 =~= w1 + (a + w2));
    lemma_trim_start_ws_prefix(w1, a + w2);
    lemma_trim_start_ws_suffix(a, w2);
    if all_ws(a) {
        lemma_trim_start_all_ws(a);
    } else {
        lemma_trim_end_ws_suffix(trim_start(a), w2);
    }
    assert(trim(w1 + a + w2) == trim(a));
}

// ---------------------------------------------------------------------
// Bytes
// ---------------------------------------------------------------------

/// `texts` joined into one text, each of them followed by `\n`.
pub open spec fn join_lines(texts: Seq<Seq<char>>) -> Seq<char>
    decreases texts.len(),
{
    if texts.len() == 0 {
        seq![]
    } else {
        texts[0] + seq!['\n'] + join_lines(texts.drop_first())
    }
}

/// `t` can stand as one line: it holds no `\n` and does not end with `\r`.
pub open spec fn one_line(t: Seq<char>) -> bool {
    &&& forall|i: int| 0 <= i < t.len() ==> #[trigger] t[i] != '\n'
    &&& t.len() > 0 ==> t.last() != '\r'
}

proof fn lemma_encode_concat(a: Seq<char>, b: Seq<char>)
    ensures
        encode_utf8(a + b) == encode_utf8(a) + encode_utf8(b),
    decreases a.len(),
{
    if a.len() == 0 {
        assert(a + b =~= b);
    } else {
        assert((a + b)[0] == a[0]);
        assert((a + b).drop_first() =~= a.drop_first() + b);
        lemma_encode_concat(a.drop_first(), b);
    }
}

/// A byte 10 in the encoding of a character is the encoding of `\n`; a
/// last byte 13 is that of `\r`.
proof fn lemma_scalar_bytes(c: char)
    ensures
        forall|i: int|
            0 <= i < encode_scalar(c as u32).len() ==> #[trigger] encode_scalar(c as u32)[i] == 10
                ==> c == '\n',
        forall|i: int|
            0 <= i < encode_scalar(c as u32).len() ==> #[trigger] encode_scalar(c as u32)[i] == 13
                ==> c == '\r',
        encode_scalar(c as u32).len() > 0,
        encode_scalar(c as u32).last() == 13 ==> c == '\r',
{
    let s = c as u32;
    vstd::utf8::char_is_scalar(c);
    assert(s <= 0x7F ==> (s & 0x7F) as u8 == s) by (bit_vector);
    assert(0x80u8 | ((s >> 6) & 0x1F) as u8 >= 0x80u8 && 0xC0u8 | ((s >> 6) & 0x1F) as u8 >= 0x80u8)
        by (bit_vector);
    assert(0xE0u8 | ((s >> 12) & 0x0F) as u8 >= 0x80u8) by (bit_vector);
    assert(0xF0u8 | ((s >> 18) & 0x7) as u8 >= 0x80u8) by (bit_vector);
    assert(0x80u8 | (s & 0x3F) as u8 >= 0x80u8) by (bit_vector);
    assert(0x80u8 | ((s >> 6) & 0x3F) as u8 >= 0x80u8) by (bit_vector);
    assert(0x80u8 | ((s >> 12) & 0x3F) as u8 >= 0x80u8) by (bit_vector);
    if s == 10 {
        vstd::utf8::char_u32_cast(c, s);
        assert(c == '\n');
    }
    if s == 13 {
        vstd::utf8::char_u32_cast(c, s);
        assert(c == '\r');
    }
}

proof fn lemma_encode_line(t: Seq<char>)
    requires
        one_line(t),
    ensures
        forall|i: int| 0 <= i < encode_utf8(t).len() ==> #[trigger] encode_utf8(t)[i] != 10,
        strip_cr(encode_utf8(t)) == encode_utf8(t),
    decreases t.len(),
{
    if t.len() > 0 {
        let rest = t.drop_first();
        assert(one_line(rest)) by {
            assert forall|i: int| 0 <= i < rest.len() implies #[trigger] rest[i] != '\n' by {
                assert(rest[i] == t[i + 1]);
            }
            if rest.len() > 0 {
                assert(rest.last() == t.last());
            }
        }
        lemma_encode_line(rest);
        lemma_scalar_bytes(t[0]);
        assert(t[0] != '\n');
        let e0 = encode_scalar(t[0] as u32);
        let e = encode_utf8(t);
        assert(e == e0 + encode_utf8(rest));
        assert forall|i: int| 0 <= i < e.len() implies #[trigger] e[i] != 10 by {
            if i < e0.len() {
                assert(e[i] == e0[i]);
            } else {
                assert(e[i] == encode_utf8(rest)[i - e0.len()]);
            }
        }
        if rest.len() == 0 {
            assert(encode_utf8(rest).len() == 0);
            assert(e =~= e0);
            assert(t.last() == t[0]);
        } else {
            assert(e.last() == encode_utf8(rest).last());
        }
    }
}

/// Text made of lines, each ended with `\n`, is read back line by line as
/// those lines.
pub proof fn law_lines_roundtrip(texts: Seq<Seq<char>>)
    requires
        forall|i: int| 0 <= i < texts.len() ==> one_line(#[trigger] texts[i]),
    ensures
        raw_lines(encode_utf8(join_lines(texts))) == texts.map_values(|t: Seq<char>| encode_utf8(t)),
    decreases texts.len(),
{
    let b = encode_utf8(join_lines(texts));
    if texts.len() == 0 {
        assert(texts.map_values(|t: Seq<char>| encode_utf8(t)) =~= seq![]);
    } else {
        let t0 = texts[0];
        let rest = texts.drop_first();
        assert forall|i: int| 0 <= i < rest.len() implies one_line(#[trigger] rest[i]) by {
            assert(rest[i] == texts[i + 1]);
        }
        law_lines_roundtrip(rest);
        assert(one_line(t0));
        lemma_encode_line(t0);
        lemma_encode_concat(t0 + seq!['\n'], join_lines(rest));
        lemma_encode_concat(t0, seq!['\n']);
        let e0 = encode_utf8(t0);
        let nl = encode_utf8(seq!['\n']);
        assert(nl =~= seq![10u8]) by {
            assert(seq!['\n'].drop_first().len() == 0);
            assert(('\n' as u32) == 10);
            assert(((10u32 & 0x7Fu32) as u8) == 10u8) by (bit_vector);
            assert(encode_scalar(10) =~= seq![10u8]);
            let z = seq!['\n'];
            assert(z[0] as u32 == 10);
            assert(encode_utf8(z.drop_first()) =~= Seq::<u8>::empty());
            assert(encode_utf8(z) == encode_scalar(z[0] as u32) + encode_utf8(z.drop_first()));
        }
        let er = encode_utf8(join_lines(rest));
        assert(b == e0 + nl + er);
        lemma_newline_from(b, 0);
        let i = newline_from(b, 0);
        assert(b[e0.len() as int] == 10);
        assert forall|m: int| 0 <= m < e0.len() implies b[m] != 10 by {
            assert(b[m] == e0[m]);
        }
        if i < e0.len() {
            assert(b[i] == e0[i]);
        }
        assert(i == e0.len());
        assert(b.subrange(0, i) =~= e0);
        assert(b.skip(i + 1) =~= er);
        assert(raw_lines(b) == seq![strip_cr(b.subrange(0, i))] + raw_lines(b.skip(i + 1)));
        assert(raw_lines(b) =~= texts.map_values(|t: Seq<char>| encode_utf8(t)));
    }
}

/// Lines read from text made of lines are those lines, read without error.
pub proof fn law_read_lines_of_text(ls: Seq<Line>, texts: Seq<Seq<char>>)
    requires
        forall|i: int| 0 <= i < texts.len() ==> one_line(#[trigger] texts[i]),
        lines_read_from(ls, encode_utf8(join_lines(texts))),
    ensures
        lines_hold(ls, texts),
{
    law_lines_roundtrip(texts);
    let raws = raw_lines(encode_utf8(join_lines(texts)));
    assert forall|i: int| 0 <= i < ls.len() implies (#[trigger] ls[i]) is Ok && ls[i]->Ok_0@
        == texts[i] by {
        assert(raws[i] == encode_utf8(texts[i]));
        vstd::utf8::encode_utf8_valid_utf8(texts[i]);
        vstd::utf8::encode_utf8_decode_utf8(texts[i]);
    }
}

/// A cue that can be written as lines of a WebVTT file and read back.
pub open spec fn writable_as_text(c: Cue) -> bool {
    &&& writable_cue(c)
    &&& forall|i: int| 0 <= i < c.1.len() ==> one_line(#[trigger] c.1[i])
}

proof fn lemma_time_line_one_line(r: TimeStampRange)
    requires
        time_in_range(r.start),
        time_in_range(r.end),
    ensures
        one_line(time_line(r)),
{
    reveal_strlit(" --> ");
    let a = format_timestamp(r.start);
    let b = format_timestamp(r.end);
    lemma_format_token(r.start);
    lemma_format_token(r.end);
    let t = time_line(r);
    let arrow = " --> "@;
    assert(t == a + arrow + b);
    assert forall|i: int| 0 <= i < t.len() implies #[trigger] t[i] != '\n' by {
        if i < a.len() {
            assert(t[i] == a[i]);
            assert(!is_ws(a[i]));
        } else if i < a.len() + 5 {
            assert(t[i] == arrow[i - a.len()]);
        } else {
            assert(t[i] == b[i - a.len() - 5]);
            assert(!is_ws(b[i - a.len() - 5]));
        }
    }
    assert(t.last() == b.last());
    assert(!is_ws(b[b.len() - 1]));
}

proof fn lemma_cues_text_lines(cues: Seq<Cue>, trailing: bool)
    requires
        forall|i: int| 0 <= i < cues.len() ==> writable_as_text(#[trigger] cues[i]),
    ensures
        forall|i: int|
            0 <= i < cues_text(cues, trailing).len() ==> one_line(
                #[trigger] cues_text(cues, trailing)[i],
            ),
    decreases cues.len(),
{
    if cues.len() > 0 {
        let c = cues[0];
        assert(writable_as_text(c));
        lemma_time_line_one_line(c.0);
        let body = seq![time_line(c.0)] + c.1;
        let empty: Seq<char> = seq![];
        assert(one_line(empty));
        assert forall|i: int| 0 <= i < body.len() implies one_line(#[trigger] body[i]) by {
            if i > 0 {
                assert(body[i] == c.1[i - 1]);
            }
        }
        let rest = cues.drop_first();
        assert forall|i: int| 0 <= i < rest.len() implies writable_as_text(#[trigger] rest[i]) by {
            assert(rest[i] == cues[i + 1]);
        }
        lemma_cues_text_lines(rest, trailing);
        let texts = cues_text(cues, trailing);
        let tail = cues_text(rest, trailing);
        assert forall|i: int| 0 <= i < texts.len() implies one_line(#[trigger] texts[i]) by {
            if cues.len() == 1 {
                if i < body.len() {
                    assert(texts[i] == body[i]);
                } else {
                    assert(texts[i] == empty);
                }
            } else {
                assert(texts == body + seq![empty] + tail);
                if i < body.len() {
                    assert(texts[i] == body[i]);
                } else if i == body.len() {
                    assert(texts[i] == empty);
                } else {
                    assert(texts[i] == tail[i - body.len() - 1]);
                }
            }
        }
    }
}

/// The text of a WebVTT file written from cues, as bytes, reads back as
/// those cues, whether or not an empty line follows the last one.
pub proof fn law_vtt_text_roundtrip(ls: Seq<Line>, cues: Seq<Cue>, trailing: bool)
    requires
        forall|i: int| 0 <= i < cues.len() ==> writable_as_text(#[trigger] cues[i]),
        lines_read_from(ls, encode_utf8(join_lines(file_text(cues, trailing)))),
    ensures
        file_spec(ls).0 == Ok::<Seq<Cue>, crate::error::ErrorModel>(cues),
{
    reveal_strlit("WEBVTT");
    let texts = file_text(cues, trailing);
    lemma_cues_text_lines(cues, trailing);
    let empty: Seq<char> = seq![];
    assert(one_line(empty));
    assert(one_line("WEBVTT"@));
    assert forall|i: int| 0 <= i < texts.len() implies one_line(#[trigger] texts[i]) by {
        if i >= 2 {
            assert(texts[i] == cues_text(cues, trailing)[i - 2]);
        }
    }
    law_read_lines_of_text(ls, texts);
    assert forall|i: int| 0 <= i < cues.len() implies writable_cue(#[trigger] cues[i]) by {
        assert(writable_as_text(cues[i]));
    }
    law_file_roundtrip(ls, cues, trailing);
}

// ---------------------------------------------------------------------
// Reading is determined by the text of the lines
// ---------------------------------------------------------------------

/// `a` and `b` are the same lines up to the error values: errors at the
/// same places, equal texts elsewhere.
pub open spec fn lines_agree(a: Seq<Line>, b: Seq<Line>) -> bool {
    &&& a.len() == b.len()
    &&& forall|i: int|
        0 <= i < a.len() ==> ((#[trigger] a[i]) is Ok <==> b[i] is Ok) && (a[i] is Ok ==> a[i]->Ok_0@
            == b[i]->Ok_0@)
}

/// Two errors are the same up to the value of an I/O error: both from
/// reading, or both the same message.
pub open spec fn errors_agree(x: ErrorModel, y: ErrorModel) -> bool {
    match (x, y) {
        (ErrorModel::Io(_), ErrorModel::Io(_)) => true,
        (ErrorModel::Parse(m), ErrorModel::Parse(n)) => m == n,
        _ => false,
    }
}

/// Two readings give the same cues, or the same error up to the value of
/// an I/O error.
pub open spec fn readings_agree(x: Result<Seq<Cue>, ErrorModel>, y: Result<Seq<Cue>, ErrorModel>) -> bool {
    match (x, y) {
        (Ok(a), Ok(b)) => a == b,
        (Err(e), Err(f)) => errors_agree(e, f),
        _ => false,
    }
}

proof fn lemma_agree_skip(a: Seq<Line>, b: Seq<Line>, n: int)
    requires
        lines_agree(a, b),
        0 <= n <= a.len(),
    ensures
        lines_agree(a.skip(n), b.skip(n)),
{
    assert forall|i: int| 0 <= i < a.skip(n).len() implies ((#[trigger] a.skip(n)[i]) is Ok
        <==> b.skip(n)[i] is Ok) && (a.skip(n)[i] is Ok ==> a.skip(n)[i]->Ok_0@ == b.skip(n)[i]->Ok_0@) by {
        assert(a.skip(n)[i] == a[n + i]);
        assert(b.skip(n)[i] == b[n + i]);
    }
}

proof fn lemma_agree_skip_blank(a: Seq<Line>, b: Seq<Line>, i: int)
    requires
        lines_agree(a, b),
        0 <= i,
    ensures
        skip_blank(a, i) == skip_blank(b, i),
    decreases a.len() - i,
{
    if i < a.len() {
        assert(a[i] is Ok <==> b[i] is Ok);
        lemma_agree_skip_blank(a, b, i + 1);
    }
}

proof fn lemma_agree_text_end(a: Seq<Line>, b: Seq<Line>, i: int)
    requires
        lines_agree(a, b),
        0 <= i,
    ensures
        text_end(a, i) == text_end(b, i),
    decreases a.len() - i,
{
    if i < a.len() {
        assert(a[i] is Ok <==> b[i] is Ok);
        lemma_agree_text_end(a, b, i + 1);
    }
}

/// Reading a cue depends only on the texts of the lines and on where the
/// read errors are.
#[verifier::spinoff_prover]
#[verifier::rlimit(40)]
pub proof fn law_cue_step_agrees(a: Seq<Line>, b: Seq<Line>, line_num: int)
    requires
        lines_agree(a, b),
    ensures
        cue_step(a, line_num).consumed == cue_step(b, line_num).consumed,
        cue_step(a, line_num).line_num == cue_step(b, line_num).line_num,
        cue_step(a, line_num).warnings == cue_step(b, line_num).warnings,
        match (cue_step(a, line_num).outcome, cue_step(b, line_num).outcome) {
            (CueOutcome::End, CueOutcome::End) => true,
            (CueOutcome::Cue(r1, d1), CueOutcome::Cue(r2, d2)) => r1 == r2 && d1 == d2,
            (CueOutcome::Failed(e), CueOutcome::Failed(f)) => errors_agree(e, f),
            _ => false,
        },
{
    lemma_agree_skip_blank(a, b, 0);
    crate::vtt::lemma_skip_blank_bounds(a, 0);
    let k = skip_blank(a, 0);
    if k < a.len() {
        assert(a[k] is Ok <==> b[k] is Ok);
        if a[k] is Ok {
            lemma_agree_text_end(a, b, k + 1);
            lemma_text_end_bounds(a, k + 1);
            let j = text_end(a, k + 1);
            if j < a.len() {
                assert(a[j] is Ok <==> b[j] is Ok);
            }
            let d1 = Seq::new((j - (k + 1)) as nat, |i: int| a[k + 1 + i]->Ok_0@);
            let d2 = Seq::new((j - (k + 1)) as nat, |i: int| b[k + 1 + i]->Ok_0@);
            assert(d1 =~= d2) by {
                assert forall|i: int| 0 <= i < d1.len() implies d1[i] == d2[i] by {
                    assert(a[k + 1 + i] is Ok <==> b[k + 1 + i] is Ok);
                    lemma_text_end_has_text(a, k + 1);
                    assert(has_text(a[k + 1 + i]));
                }
            }
        }
    }
}

/// Reading cues depends only on the texts of the lines and on where the
/// read errors are.
pub proof fn law_cues_agree(a: Seq<Line>, b: Seq<Line>, line_num: int)
    requires
        lines_agree(a, b),
    ensures
        readings_agree(cues_spec(a, line_num).0, cues_spec(b, line_num).0),
        cues_spec(a, line_num).1 == cues_spec(b, line_num).1,
    decreases a.len(),
{
    law_cue_step_agrees(a, b, line_num);
    let st = cue_step(a, line_num);
    if st.outcome is Cue {
        lemma_cue_step_consumed(a, line_num);
        lemma_agree_skip(a, b, st.consumed);
        law_cues_agree(a.skip(st.consumed), b.skip(st.consumed), st.line_num);
    }
}

/// Reading a file depends only on the texts of its lines and on where the
/// read errors are.
pub proof fn law_file_agrees(a: Seq<Line>, b: Seq<Line>)
    requires
        lines_agree(a, b),
    ensures
        readings_agree(file_spec(a).0, file_spec(b).0),
        file_spec(a).1 == file_spec(b).1,
{
    if a.len() >= 2 {
        assert(a[0] is Ok <==> b[0] is Ok);
        assert(a[1] is Ok <==> b[1] is Ok);
        lemma_agree_skip(a, b, 2);
        law_cues_agree(a.skip(2), b.skip(2), 2);
    } else if a.len() == 1 {
        assert(a[0] is Ok <==> b[0] is Ok);
    }
}

/// Two readings of the same bytes give the same lines up to the error
/// values.
pub proof fn law_reading_bytes_agrees(a: Seq<Line>, b: Seq<Line>, bytes: Seq<u8>)
    requires
        lines_read_from(a, bytes),
        lines_read_from(b, bytes),
    ensures
        lines_agree(a, b),
{
    let raws = raw_lines(bytes);
    assert forall|i: int| 0 <= i < a.len() implies ((#[trigger] a[i]) is Ok <==> b[i] is Ok) && (
    a[i] is Ok ==> a[i]->Ok_0@ == b[i]->Ok_0@) by {
        assert(crate::vtt::line_read_as(a[i], raws[i]));
        assert(crate::vtt::line_read_as(b[i], raws[i]));
    }
}

// ---------------------------------------------------------------------
// Line ends
// ---------------------------------------------------------------------

/// `b` with a `\r` byte put before each `\n` byte.
pub open spec fn crlf(b: Seq<u8>) -> Seq<u8>
    decreases b.len(),
{
    if b.len() == 0 {
        seq![]
    } else {
        (if b[0] == 10 {
            seq![13u8, 10u8]
        } else {
            seq![b[0]]
        }) + crlf(b.drop_first())
    }
}

proof fn lemma_crlf_concat(a: Seq<u8>, c: Seq<u8>)
    ensures
        crlf(a + c) == crlf(a) + crlf(c),
    decreases a.len(),
{
    if a.len() == 0 {
        assert(a + c =~= c);
        assert(crlf(a) =~= Seq::<u8>::empty());
        assert(crlf(c) =~= crlf(a) + crlf(c));
    } else {
        assert((a + c)[0] == a[0]);
        assert((a + c).drop_first() =~= a.drop_first() + c);
        lemma_crlf_concat(a.drop_first(), c);
        let h = if a[0] == 10 {
            seq![13u8, 10u8]
        } else {
            seq![a[0]]
        };
        assert(h + (crlf(a.drop_first()) + crlf(c)) =~= (h + crlf(a.drop_first())) + crlf(c));
    }
}

proof fn lemma_crlf_newline()
    ensures
        crlf(seq![10u8]) == seq![13u8, 10u8],
{
    let z = seq![10u8];
    let t = z.drop_first();
    assert(t.len() == 0);
    assert(crlf(t) == Seq::<u8>::empty());
    assert(z[0] == 10);
    assert(crlf(z) == seq![13u8, 10u8] + crlf(t));
    assert(seq![13u8, 10u8] + Seq::<u8>::empty() =~= seq![13u8, 10u8]);
}

proof fn lemma_crlf_no_newline(a: Seq<u8>)
    requires
        forall|i: int| 0 <= i < a.len() ==> a[i] != 10,
    ensures
        crlf(a) == a,
    decreases a.len(),
{
    if a.len() > 0 {
        lemma_crlf_no_newline(a.drop_first());
        assert(seq![a[0]] + a.drop_first() =~= a);
    }
}

/// Putting `\r` before each `\n` of bytes holding no `\r` gives the same
/// lines.
pub proof fn law_crlf_same_lines(b: Seq<u8>)
    requires
        forall|i: int| 0 <= i < b.len() ==> b[i] != 13,
    ensures
        raw_lines(crlf(b)) == raw_lines(b),
    decreases b.len(),
{
    if b.len() > 0 {
        lemma_newline_from(b, 0);
        let i = newline_from(b, 0);
        if i >= b.len() {
            lemma_crlf_no_newline(b);
        } else {
            let pre = b.subrange(0, i);
            let rest = b.skip(i + 1);
            assert(b =~= pre + seq![10u8] + rest);
            assert forall|m: int| 0 <= m < pre.len() implies pre[m] != 10 by {
                assert(pre[m] == b[m]);
            }
            lemma_crlf_no_newline(pre);
            lemma_crlf_concat(pre + seq![10u8], rest);
            lemma_crlf_concat(pre, seq![10u8]);
            lemma_crlf_newline();
            let c = crlf(b);
            assert(c =~= pre + seq![13u8, 10u8] + crlf(rest));
            lemma_newline_from(c, 0);
            let ic = newline_from(c, 0);
            assert(c[i] == 13);
            assert(c[i + 1] == 10);
            assert forall|m: int| 0 <= m < i implies c[m] != 10 by {
                assert(c[m] == pre[m]);
            }
            if ic < i + 1 {
                if ic < i {
                    assert(c[ic] == pre[ic]);
                }
            }
            assert(ic == i + 1);
            assert(c.subrange(0, ic) =~= pre.push(13u8));
            assert(strip_cr(c.subrange(0, ic)) =~= pre);
            assert(c.skip(ic + 1) =~= crlf(rest));
            if pre.len() > 0 {
                assert(pre.last() == b[i - 1]);
            }
            assert(strip_cr(pre) == pre);
            assert forall|m: int| 0 <= m < rest.len() implies rest[m] != 13 by {
                assert(rest[m] == b[i + 1 + m]);
            }
            law_crlf_same_lines(rest);
        }
    }
}

/// `s` with `\r` put before each `\n`.
pub open spec fn crlf_text(s: Seq<char>) -> Seq<char>
    decreases s.len(),
{
    if s.len() == 0 {
        seq![]
    } else {
        (if s[0] == '\n' {
            seq!['\r', '\n']
        } else {
            seq![s[0]]
        }) + crlf_text(s.drop_first())
    }
}

proof fn lemma_encode_one(c: char)
    ensures
        encode_utf8(seq![c]) == encode_scalar(c as u32),
{
    let z = seq![c];
    assert(z.drop_first().len() == 0);
    assert(encode_utf8(z.drop_first()) =~= Seq::<u8>::empty());
    assert(encode_scalar(c as u32) + Seq::<u8>::empty() =~= encode_scalar(c as u32));
}

proof fn lemma_encode_crlf(s: Seq<char>)
    requires
        forall|i: int| 0 <= i < s.len() ==> s[i] != '\r',
    ensures
        encode_utf8(crlf_text(s)) == crlf(encode_utf8(s)),
        forall|i: int| 0 <= i < encode_utf8(s).len() ==> #[trigger] encode_utf8(s)[i] != 13,
    decreases s.len(),
{
    if s.len() > 0 {
        let c = s[0];
        let rest = s.drop_first();
        assert forall|i: int| 0 <= i < rest.len() implies rest[i] != '\r' by {
            assert(rest[i] == s[i + 1]);
        }
        lemma_encode_crlf(rest);
        lemma_scalar_bytes(c);
        let e0 = encode_scalar(c as u32);
        let er = encode_utf8(rest);
        assert(encode_utf8(s) == e0 + er);
        assert forall|i: int| 0 <= i < encode_utf8(s).len() implies #[trigger] encode_utf8(s)[i]
            != 13 by {
            if i < e0.len() {
                assert(encode_utf8(s)[i] == e0[i]);
            } else {
                assert(encode_utf8(s)[i] == er[i - e0.len()]);
            }
        }
        lemma_crlf_concat(e0, er);
        let h = if c == '\n' {
            seq!['\r', '\n']
        } else {
            seq![c]
        };
        lemma_encode_concat(h, crlf_text(rest));
        if c == '\n' {
            assert(('\n' as u32) == 10);
            assert(((10u32 & 0x7Fu32) as u8) == 10u8) by (bit_vector);
            assert(e0 =~= seq![10u8]);
            lemma_crlf_newline();
            assert(('\r' as u32) == 13);
            assert(((13u32 & 0x7Fu32) as u8) == 13u8) by (bit_vector);
            lemma_encode_concat(seq!['\r'], seq!['\n']);
            assert(seq!['\r'] + seq!['\n'] =~= h);
            lemma_encode_one('\r');
            lemma_encode_one('\n');
            assert(encode_scalar(13) =~= seq![13u8]);
            assert(encode_utf8(h) =~= seq![13u8, 10u8]);
        } else {
            assert forall|i: int| 0 <= i < e0.len() implies e0[i] != 10 by {}
            lemma_crlf_no_newline(e0);
            lemma_encode_one(c);
        }
    }
}

/// Text holding no `\r` reads as the same lines when each `\n` of it is
/// made `\r\n`: the lines read from the one are the lines read from the
/// other.
pub proof fn law_crlf_text_same_lines(s: Seq<char>)
    requires
        forall|i: int| 0 <= i < s.len() ==> s[i] != '\r',
    ensures
        raw_lines(encode_utf8(crlf_text(s))) == raw_lines(encode_utf8(s)),
        forall|ls: Seq<Line>|
            lines_read_from(ls, encode_utf8(crlf_text(s))) <==> lines_read_from(
                ls,
                encode_utf8(s),
            ),
{
    lemma_encode_crlf(s);
    law_crlf_same_lines(encode_utf8(s));
}

/// A WebVTT text holding no `\r` reads the same when each `\n` of it is
/// made `\r\n`: the same cues, or the same error up to the value of an
/// I/O error, and the same warnings.
pub proof fn law_crlf_same_reading(s: Seq<char>, a: Seq<Line>, b: Seq<Line>)
    requires
        forall|i: int| 0 <= i < s.len() ==> s[i] != '\r',
        lines_read_from(a, encode_utf8(s)),
        lines_read_from(b, encode_utf8(crlf_text(s))),
    ensures
        readings_agree(file_spec(a).0, file_spec(b).0),
        file_spec(a).1 == file_spec(b).1,
{
    law_crlf_text_same_lines(s);
    law_reading_bytes_agrees(a, b, encode_utf8(s));
    law_file_agrees(a, b);
}

// ---------------------------------------------------------------------
// LRC tags read back
// ---------------------------------------------------------------------

proof fn lemma_scan_concat(a: Seq<char>, b: Seq<char>, acc: nat)
    ensures
        scan_digits(a + b, acc) == match scan_digits(a, acc) {
            Ok(v) => scan_digits(b, v),
            Err(e) => Err(e),
        },
    decreases a.len(),
{
    if a.len() == 0 {
        assert(a + b =~= b);
    } else {
        assert((a + b)[0] == a[0]);
        assert((a + b).drop_first() =~= a.drop_first() + b);
        if is_digit(a[0]) && acc * 10 + digit_value(a[0]) <= u32::MAX {
            lemma_scan_concat(a.drop_first(), b, acc * 10 + digit_value(a[0]));
        }
    }
}

proof fn lemma_scan_zeros(n: nat)
    ensures
        scan_digits(Seq::new(n, |i: int| '0'), 0) == Ok::<nat, crate::number::IntErrorKind>(0),
    decreases n,
{
    if n > 0 {
        let z = Seq::new(n, |i: int| '0');
        assert(z.drop_first() =~= Seq::new((n - 1) as nat, |i: int| '0'));
        assert(is_digit(z[0]) && digit_value(z[0]) == 0);
        lemma_scan_zeros((n - 1) as nat);
    }
}

proof fn lemma_scan_decimal(v: nat)
    requires
        v <= u32::MAX,
    ensures
        scan_digits(decimal(v), 0) == Ok::<nat, crate::number::IntErrorKind>(v),
        decimal(v).len() > 0,
        is_digit(decimal(v)[0]),
    decreases v,
{
    lemma_decimal_len(v);
    if v < 10 {
        lemma_digit_char(v);
        let d = decimal(v);
        assert(d.drop_first().len() == 0);
        assert(scan_digits(d.drop_first(), v) == Ok::<nat, crate::number::IntErrorKind>(v));
    } else {
        lemma_scan_decimal(v / 10);
        lemma_digit_char(v % 10);
        let d = digit_char(v % 10);
        assert(decimal(v) =~= decimal(v / 10) + seq![d]);
        lemma_scan_concat(decimal(v / 10), seq![d], 0);
        assert(seq![d].drop_first().len() == 0);
        assert((v / 10) * 10 + v % 10 == v);
        assert(scan_digits(seq![d].drop_first(), v) == Ok::<nat, crate::number::IntErrorKind>(v));
        assert(decimal(v)[0] == decimal(v / 10)[0]);
    }
}

/// A number written in decimal, zero-padded to any width, reads back as
/// itself.
pub proof fn law_padded_decimal_reads_back(v: nat, width: nat)
    requires
        v <= u32::MAX,
    ensures
        parse_u32_spec(zero_pad(decimal(v), width)) == Ok::<u32, crate::number::IntErrorKind>(
            v as u32,
        ),
        zero_pad(decimal(v), width).len() >= width,
        zero_pad(decimal(v), width).len() >= decimal(v).len(),
{
    lemma_scan_decimal(v);
    let d = decimal(v);
    let p = zero_pad(d, width);
    if d.len() < width {
        let z = Seq::new((width - d.len()) as nat, |i: int| '0');
        assert(p == z + d);
        lemma_scan_zeros((width - d.len()) as nat);
        lemma_scan_concat(z, d, 0);
        assert(p[0] == '0');
    }
    assert(p[0] != '+');
}

/// An LRC tag is `[`, the minutes (hours counted in), `:`, the seconds in
/// two digits, `.`, the hundredths in two digits and `]`; each field reads
/// back as the cue start's value, and the minutes take at least
/// `min_digits` characters.
pub proof fn law_lrc_tag_reads_back(t: TimeStamp, min_digits: nat)
    requires
        t.sec < 100,
        t.milli < 1000,
        crate::lrc::minutes_fit(t),
    ensures
        ({
            let tag = lrc_tag(t, min_digits);
            let l = tag.len() - 8;
            &&& l >= min_digits
            &&& tag[0] == '['
            &&& tag[l + 1] == ':'
            &&& tag[l + 4] == '.'
            &&& tag[l + 7] == ']'
            &&& parse_u32_spec(tag.subrange(1, l + 1)) == Ok::<u32, crate::number::IntErrorKind>(
                (t.min + t.hour * 60) as u32,
            )
            &&& parse_u32_spec(tag.subrange(l + 2, l + 4)) == Ok::<
                u32,
                crate::number::IntErrorKind,
            >(t.sec)
            &&& parse_u32_spec(tag.subrange(l + 5, l + 7)) == Ok::<
                u32,
                crate::number::IntErrorKind,
            >(t.milli / 10)
        }),
{
    reveal_strlit("[");
    reveal_strlit(":");
    reveal_strlit(".");
    reveal_strlit("]");
    let total = (t.min + t.hour * 60) as nat;
    let c = centiseconds(t.milli as nat);
    assert(c == t.milli as nat / 10);
    let m = zero_pad(decimal(total), min_digits);
    let sec = zero_pad(decimal(t.sec as nat), 2);
    let h = zero_pad(decimal(c), 2);
    law_padded_decimal_reads_back(total, min_digits);
    law_padded_decimal_reads_back(t.sec as nat, 2);
    law_padded_decimal_reads_back(c, 2);
    lemma_decimal_len(t.sec as nat);
    lemma_decimal_len(c);
    assert(sec.len() == 2);
    assert(h.len() == 2);
    let tag = lrc_tag(t, min_digits);
    let l = m.len() as int;
    assert(tag =~= seq!['['] + m + seq![':'] + sec + seq!['.'] + h + seq![']']);
    assert(tag.len() == l + 8);
    assert(tag.subrange(1, l + 1) =~= m);
    assert(tag.subrange(l + 2, l + 4) =~= sec);
    assert(tag.subrange(l + 5, l + 7) =~= h);
}

// ---------------------------------------------------------------------
// Output names
// ---------------------------------------------------------------------

/// The output name that goes with an input name ending in `.vtt` is the
/// input name with exactly those four characters turned into `.lrc`; any
/// other input name is kept whole and `.lrc` is added.
pub proof fn law_default_output_replaces_extension(input: Seq<char>)
    ensures
        ({
            let out = default_output_spec(input);
            let n = input.len() as int;
            if n >= 4 && input[n - 4] == '.' && input[n - 3] == 'v' && input[n - 2] == 't'
                && input[n - 1] == 't' {
                &&& out.len() == n
                &&& forall|i: int| 0 <= i < n - 4 ==> #[trigger] out[i] == input[i]
                &&& out[n - 4] == '.' && out[n - 3] == 'l' && out[n - 2] == 'r' && out[n - 1]
                    == 'c'
            } else {
                &&& out.len() == n + 4
                &&& forall|i: int| 0 <= i < n ==> #[trigger] out[i] == input[i]
                &&& out[n] == '.' && out[n + 1] == 'l' && out[n + 2] == 'r' && out[n + 3] == 'c'
            }
        }),
{
    reveal_strlit(".vtt");
    reveal_strlit(".lrc");
    let n = input.len() as int;
    if n >= 4 {
        let tail = input.subrange(n - 4, n);
        if input[n - 4] == '.' && input[n - 3] == 'v' && input[n - 2] == 't' && input[n - 1] == 't' {
            assert(tail =~= ".vtt"@);
        } else {
            if tail == ".vtt"@ {
                assert(tail[0] == input[n - 4]);
                assert(tail[1] == input[n - 3]);
                assert(tail[2] == input[n - 2]);
                assert(tail[3] == input[n - 1]);
            }
        }
    }
}

// ---------------------------------------------------------------------
// The output option
// ---------------------------------------------------------------------

/// `a` is none of the option words.
pub open spec fn plain_word(a: Seq<char>) -> bool {
    a != "-h"@ && a != "--help"@ && a != "-o"@ && a != "--output"@
}

/// `-o` or `--output` followed by a name gives that name as the output
/// name, whether the option stands before or after the input name.
pub proof fn law_output_option_sets_output(
    program: Seq<char>,
    option: Seq<char>,
    output: Seq<char>,
    input: Seq<char>,
)
    requires
        option == "-o"@ || option == "--output"@,
        output.len() > 0,
        input.len() > 0,
        plain_word(input),
    ensures
        parse_opts_spec(seq![program, option, output, input]) == Ok::<
            (bool, Seq<char>, Seq<char>),
            Seq<char>,
        >((false, input, output)),
        parse_opts_spec(seq![program, input, option, output]) == Ok::<
            (bool, Seq<char>, Seq<char>),
            Seq<char>,
        >((false, input, output)),
{
    reveal_strlit("-h");
    reveal_strlit("--help");
    reveal_strlit("-o");
    reveal_strlit("--output");
    assert("-o"@ != "-h"@ && "-o"@ != "--help"@) by {
        assert("-o"@[1] != "-h"@[1]);
        assert("-o"@.len() != "--help"@.len());
    }
    assert("--output"@ != "-h"@ && "--output"@ != "--help"@) by {
        assert("--output"@.len() != "-h"@.len());
        assert("--output"@.len() != "--help"@.len());
    }
    let e: Seq<char> = seq![];
    let a1 = seq![program, option, output, input];
    assert(opts_run(a1, 4, (false, input, output)) == Ok::<
        (bool, Seq<char>, Seq<char>),
        Seq<char>,
    >((false, input, output)));
    assert(opts_run(a1, 3, (false, e, output)) == opts_run(a1, 4, (false, input, output)));
    assert(opts_run(a1, 1, (false, e, e)) == opts_run(a1, 3, (false, e, output)));
    let a2 = seq![program, input, option, output];
    assert(opts_run(a2, 4, (false, input, output)) == Ok::<
        (bool, Seq<char>, Seq<char>),
        Seq<char>,
    >((false, input, output)));
    assert(opts_run(a2, 2, (false, input, e)) == opts_run(a2, 4, (false, input, output)));
    assert(opts_run(a2, 1, (false, e, e)) == opts_run(a2, 2, (false, input, e)));
}

// ---------------------------------------------------------------------
// What an answer chooses
// ---------------------------------------------------------------------

proof fn lemma_trim_start_split(s: Seq<char>) -> (w: Seq<char>)
    ensures
        s == w + trim_start(s),
        all_ws(w),
    decreases s.len(),
{
    if s.len() > 0 && is_ws(s[0]) {
        let w0 = lemma_trim_start_split(s.drop_first());
        let w = seq![s[0]] + w0;
        assert(trim_start(s) == trim_start(s.drop_first()));
        assert(s =~= seq![s[0]] + s.drop_first());
        assert(seq![s[0]] + (w0 + trim_start(s.drop_first())) =~= w + trim_start(s));
        assert forall|i: int| 0 <= i < w.len() implies is_ws(#[trigger] w[i]) by {
            if i > 0 {
                assert(w[i] == w0[i - 1]);
            }
        }
        w
    } else {
        assert(s =~= Seq::<char>::empty() + s);
        Seq::empty()
    }
}

proof fn lemma_trim_end_split(s: Seq<char>) -> (w: Seq<char>)
    ensures
        s == trim_end(s) + w,
        all_ws(w),
    decreases s.len(),
{
    if s.len() > 0 && is_ws(s.last()) {
        let w0 = lemma_trim_end_split(s.drop_last());
        let w = w0.push(s.last());
        assert(trim_end(s) == trim_end(s.drop_last()));
        assert(s =~= s.drop_last().push(s.last()));
        assert((trim_end(s.drop_last()) + w0).push(s.last()) =~= trim_end(s) + w);
        assert forall|i: int| 0 <= i < w.len() implies is_ws(#[trigger] w[i]) by {
            if i < w0.len() {
                assert(w[i] == w0[i]);
            }
        }
        w
    } else {
        assert(s =~= s + Seq::<char>::empty());
        Seq::empty()
    }
}

/// An answer is its trimmed text with whitespace before and after it.
proof fn lemma_trim_split(a: Seq<char>) -> (ws: (Seq<char>, Seq<char>))
    ensures
        a == ws.0 + trim(a) + ws.1,
        all_ws(ws.0),
        all_ws(ws.1),
{
    let w1 = lemma_trim_start_split(a);
    let w2 = lemma_trim_end_split(trim_start(a));
    assert(a =~= w1 + trim(a) + w2);
    (w1, w2)
}

/// An answer overwrites only when it is `Y` or `y` with whitespace around
/// it, and cancels only when it is `N` or `n` with whitespace around it.
pub proof fn law_answer_choices(a: Seq<char>)
    ensures
        overwrite_choice_spec(a) == OverwriteChoice::Overwrite ==> exists|w1: Seq<char>, w2: Seq<char>|
            all_ws(w1) && all_ws(w2) && (a == w1 + seq!['Y'] + w2 || a == w1 + seq!['y'] + w2),
        overwrite_choice_spec(a) == OverwriteChoice::Cancel ==> exists|w1: Seq<char>, w2: Seq<char>|
            all_ws(w1) && all_ws(w2) && (a == w1 + seq!['N'] + w2 || a == w1 + seq!['n'] + w2),
{
    let (w1, w2) = lemma_trim_split(a);
    let t = trim(a);
    if overwrite_choice_spec(a) == OverwriteChoice::Overwrite {
        assert(t == seq!['Y'] || t == seq!['y']);
        assert(all_ws(w1) && all_ws(w2) && (a == w1 + seq!['Y'] + w2 || a == w1 + seq!['y'] + w2));
    }
    if overwrite_choice_spec(a) == OverwriteChoice::Cancel {
        assert(t == seq!['N'] || t == seq!['n']);
        assert(all_ws(w1) && all_ws(w2) && (a == w1 + seq!['N'] + w2 || a == w1 + seq!['n'] + w2));
    }
}

/// `Y` or `y` with whitespace around it overwrites; `N` or `n` with
/// whitespace around it cancels.
pub proof fn law_yes_no_answers(w1: Seq<char>, c: char, w2: Seq<char>)
    requires
        all_ws(w1),
        all_ws(w2),
    ensures
        (c == 'Y' || c == 'y') ==> overwrite_choice_spec(w1 + seq![c] + w2)
            == OverwriteChoice::Overwrite,
        (c == 'N' || c == 'n') ==> overwrite_choice_spec(w1 + seq![c] + w2)
            == OverwriteChoice::Cancel,
        !(c == 'Y' || c == 'y' || c == 'N' || c == 'n') ==> overwrite_choice_spec(
            w1 + seq![c] + w2,
        ) == OverwriteChoice::AskAgain,
{
    law_answer_ignores_whitespace(w1, seq![c], w2);
    let one = seq![c];
    assert(!is_ws(c) ==> trim(one) == one) by {
        if !is_ws(c) {
            assert(one.drop_last().len() == 0);
        }
    }
    if is_ws(c) {
        assert(trim_start(one.drop_first()) == one.drop_first());
        assert(one.drop_first().len() == 0);
        assert(trim(one).len() == 0);
    }
}

// ---------------------------------------------------------------------
// Width of the minutes
// ---------------------------------------------------------------------

proof fn lemma_decimal_len_range(v: nat)
    ensures
        v < pow10(decimal(v).len()),
        decimal(v).len() >= 1,
        v >= 10 ==> v >= pow10((decimal(v).len() - 1) as nat),
    decreases v,
{
    lemma_decimal_len(v);
    reveal_with_fuel(pow10, 2);
    if v >= 10 {
        lemma_decimal_len_range(v / 10);
        let k = decimal(v / 10).len();
        assert(pow10(k + 1) == 10 * pow10(k));
        assert(decimal(v).len() == k + 1);
        if v / 10 >= 10 {
            assert(pow10(k) == 10 * pow10((k - 1) as nat));
        } else {
            assert(k == 1);
        }
    }
}

/// The minutes of the tags take as many digits as the last start's
/// minutes need, no more and no fewer, when it has hours; two otherwise.
pub proof fn law_min_digits_fit_last(last: TimeStamp)
    requires
        crate::lrc::minutes_fit(last),
    ensures
        last.hour == 0 ==> min_digits_spec(last) == 2,
        last.hour > 0 ==> min_digits_spec(last) >= 1 && pow10(
            (min_digits_spec(last) - 1) as nat,
        ) <= last.min + last.hour * 60 < pow10(min_digits_spec(last)),
{
    if last.hour > 0 {
        let total = (last.min + last.hour * 60) as nat;
        lemma_decimal_len_range(total);
    }
}

// ---------------------------------------------------------------------
// Help and missing names
// ---------------------------------------------------------------------

/// Asking for help first reads nothing more: no names, no error.
pub proof fn law_help_first(program: Seq<char>, help: Seq<char>, rest: Seq<Seq<char>>)
    requires
        help == "-h"@ || help == "--help"@,
    ensures
        parse_opts_spec(seq![program, help] + rest) == Ok::<
            (bool, Seq<char>, Seq<char>),
            Seq<char>,
        >((true, seq![], seq![])),
{
    let args = seq![program, help] + rest;
    assert(args[1] == help);
}

/// Without an input name, and without asking for help, there is nothing to
/// convert.
pub proof fn law_no_input_is_an_error(program: Seq<char>)
    ensures
        parse_opts_spec(seq![program]) is Err,
        parse_opts_spec(seq![]) is Err,
{
}

/// Two input names are refused.
pub proof fn law_two_inputs_refused(program: Seq<char>, a: Seq<char>, b: Seq<char>)
    requires
        a.len() > 0,
        plain_word(a),
        plain_word(b),
    ensures
        parse_opts_spec(seq![program, a, b]) is Err,
{
    let e: Seq<char> = seq![];
    let args = seq![program, a, b];
    assert(opts_run(args, 1, (false, e, e)) == opts_run(args, 2, (false, a, e)));
}
} // verus!
