use vstd::prelude::*;

use crate::text::{append_zero_padded, chars_of, decimal, is_whitespace, is_ws, zero_pad};
use crate::vtt::{models, views, Cue, TimeStamp, VttBlock};

verus! {

// ---------------------------------------------------------------------
// Time tags
// ---------------------------------------------------------------------

/// The minutes of a time, its hours counted in.
pub open spec fn total_minutes(t: TimeStamp) -> int {
    t.min + t.hour * 60
}

/// Whether the minutes of `t` fit in a `u32`, as the LRC writer counts them.
pub open spec fn minutes_fit(t: TimeStamp) -> bool {
    total_minutes(t) <= u32::MAX
}

/// `c` divided by ten until it is below 100.
pub open spec fn two_digits(c: nat) -> nat
    decreases c,
{
    if c >= 100 {
        two_digits(c / 10)
    } else {
        c
    }
}

/// The hundredths of a second that the LRC tag gives `milli`: its first
/// two digits after the tenth is dropped.
pub open spec fn centiseconds(milli: nat) -> nat {
    two_digits(milli / 10)
}

/// The LRC tag of `t`, `[mm:ss.xx]`: the minutes zero-padded to
/// `min_digits`, the seconds and hundredths to two digits.
pub open spec fn lrc_tag(t: TimeStamp, min_digits: nat) -> Seq<char> {
    "["@ + zero_pad(decimal(total_minutes(t) as nat), min_digits) + ":"@ + zero_pad(
        decimal(t.sec as nat),
        2,
    ) + "."@ + zero_pad(decimal(centiseconds(t.milli as nat)), 2) + "]"@
}

/// How many digits the minutes of the tags take when `last` is the time
/// of the last cue: as many as its minutes have when it has hours, else 2.
pub open spec fn min_digits_spec(last: TimeStamp) -> nat {
    if last.hour > 0 {
        decimal(total_minutes(last) as nat).len()
    } else {
        2
    }
}

/// The LRC tag of `timestamp`, `[mm:ss.xx]`.
pub fn format_lrc_timestamp(timestamp: &TimeStamp, min_digits: usize) -> (s: String)
    requires
        minutes_fit(*timestamp),
    ensures
        s@ == lrc_tag(*timestamp, min_digits as nat),
{
    let min = timestamp.min + timestamp.hour * 60;
    let mut centisecs = timestamp.milli / 10;
    while centisecs >= 100
        invariant
            two_digits(centisecs as nat) == centiseconds(timestamp.milli as nat),
        decreases centisecs,
    {
        centisecs = centisecs / 10;
    }
    let mut s = String::from_str("[");
    append_zero_padded(&mut s, min as u64, min_digits);
    s.append(":");
    append_zero_padded(&mut s, timestamp.sec as u64, 2);
    s.append(".");
    append_zero_padded(&mut s, centisecs as u64, 2);
    s.append("]");
    proof {
        assert(s@ =~= lrc_tag(*timestamp, min_digits as nat));
    }
    s
}

/// How many digits the minutes of the tags take, `last` being the time of
/// the last cue.
pub fn get_min_digits(timestamp: &TimeStamp) -> (d: usize)
    requires
        minutes_fit(*timestamp),
    ensures
        d == min_digits_spec(*timestamp),
{
    let mut min_digits: usize = 2;
    let mut min = timestamp.min;
    if timestamp.hour > 0 {
        min = min + timestamp.hour * 60;
        proof {
            assert(min >= 60);
        }
        min_digits = 0;
        let ghost total = min as nat;
        proof {
            lemma_decimal_len_u32(min as nat);
        }
        while min != 0
            invariant
                total == total_minutes(*timestamp),
                min > 0 ==> min_digits + decimal(min as nat).len() == decimal(total).len(),
                min == 0 ==> min_digits == decimal(total).len(),
                min_digits <= 10,
                min_digits + decimal(min as nat).len() <= 10 || min == 0,
            decreases min,
        {
            proof {
                crate::text::lemma_decimal_len(min as nat);
                lemma_decimal_len_u32(min as nat);
            }
            min_digits = min_digits + 1;
            min = min / 10;
        }
    }
    min_digits
}

/// A `u32` has at most ten digits.
proof fn lemma_decimal_len_u32(n: nat)
    requires
        n <= u32::MAX,
    ensures
        decimal(n).len() <= 10,
{
    reveal_with_fuel(crate::text::pow10, 11);
    crate::text::lemma_decimal_len_bound(n, 10);
}

// ---------------------------------------------------------------------
// Lines
// ---------------------------------------------------------------------

/// The LRC lines of one cue: each of its text lines behind the tag of its
/// start time.
pub open spec fn cue_lrc_lines(c: Cue, min_digits: nat) -> Seq<Seq<char>> {
    c.1.map_values(|d: Seq<char>| lrc_tag(c.0.start, min_digits) + d)
}

/// The LRC lines of `cues`, cue after cue.
pub open spec fn all_lrc_lines(cues: Seq<Cue>, min_digits: nat) -> Seq<Seq<char>>
    decreases cues.len(),
{
    if cues.len() == 0 {
        seq![]
    } else {
        all_lrc_lines(cues.drop_last(), min_digits) + cue_lrc_lines(cues.last(), min_digits)
    }
}

/// The LRC file for `cues`: the minutes of every tag padded to the width
/// that the start of the last cue asks for.
pub open spec fn lrc_spec(cues: Seq<Cue>) -> Seq<Seq<char>> {
    if cues.len() == 0 {
        seq![]
    } else {
        all_lrc_lines(cues, min_digits_spec(cues.last().0.start))
    }
}

/// Whether the minutes of every cue start fit in a `u32`.
pub open spec fn all_minutes_fit(blocks: Seq<VttBlock>) -> bool {
    forall|i: int| 0 <= i < blocks.len() ==> minutes_fit(#[trigger] blocks[i].timestamp.start)
}

/// The lines of the LRC file for `blocks`, in order, without line ends.
pub fn lrc_lines(blocks: &[VttBlock]) -> (lines: Vec<String>)
    requires
        all_minutes_fit(blocks@),
    ensures
        views(lines@) == lrc_spec(models(blocks@)),
{
    let mut out: Vec<String> = Vec::new();
    if blocks.len() == 0 {
        proof {
            assert(views(out@) =~= seq![]);
        }
        return out;
    }
    let min_digits = get_min_digits(&blocks[blocks.len() - 1].timestamp.start);
    let ghost cues = models(blocks@);
    proof {
        assert(cues.last().0.start == blocks@[blocks@.len() - 1].timestamp.start);
    }
    let mut i: usize = 0;
    while i < blocks.len()
        invariant
            cues == models(blocks@),
            all_minutes_fit(blocks@),
            i <= blocks@.len(),
            views(out@) == all_lrc_lines(cues.take(i as int), min_digits as nat),
        decreases blocks.len() - i,
    {
        let block = &blocks[i];
        let tag = format_lrc_timestamp(&block.timestamp.start, min_digits);
        let ghost before = views(out@);
        let mut j: usize = 0;
        while j < block.data.len()
            invariant
                0 <= i < blocks@.len(),
                block == &blocks@[i as int],
                tag@ == lrc_tag(block.timestamp.start, min_digits as nat),
                j <= block.data@.len(),
                views(out@) == before + cue_lrc_lines(cues[i as int], min_digits as nat).take(
                    j as int,
                ),
                cues == models(blocks@),
            decreases block.data.len() - j,
        {
            let mut line = tag.clone();
            line.append(block.data[j].as_str());
            let ghost out_before = out@;
            out.push(line);
            proof {
                assert(views(out@) =~= views(out_before).push(line@));
                let cl = cue_lrc_lines(cues[i as int], min_digits as nat);
                assert(cues[i as int].1[j as int] == block.data@[j as int]@);
                assert(cl.take(j + 1) =~= cl.take(j as int).push(cl[j as int]));
                assert(views(out@) =~= before + cl.take(j + 1));
            }
            j = j + 1;
        }
        proof {
            let cl = cue_lrc_lines(cues[i as int], min_digits as nat);
            assert(cl.take(j as int) =~= cl);
            assert(cues.take(i + 1).drop_last() =~= cues.take(i as int));
            assert(cues.take(i + 1).last() == cues[i as int]);
        }
        i = i + 1;
    }
    proof {
        assert(cues.take(i as int) =~= cues);
    }
    out
}

// ---------------------------------------------------------------------
// Answers
// ---------------------------------------------------------------------

/// `s` without its leading whitespace.
pub open spec fn trim_start(s: Seq<char>) -> Seq<char>
    decreases s.len(),
{
    if s.len() > 0 && is_ws(s[0]) {
        trim_start(s.drop_first())
    } else {
        s
    }
}

/// `s` without its trailing whitespace.
pub open spec fn trim_end(s: Seq<char>) -> Seq<char>
    decreases s.len(),
{
    if s.len() > 0 && is_ws(s.last()) {
        trim_end(s.drop_last())
    } else {
        s
    }
}

/// `s` without whitespace at either end, as `str::trim` gives it.
pub open spec fn trim(s: Seq<char>) -> Seq<char> {
    trim_end(trim_start(s))
}

/// What to do when the output file is already there.
#[derive(Debug, Clone, Copy, PartialEq, Eq, Structural)]
pub enum OverwriteChoice {
    Overwrite,
    Cancel,
    AskAgain,
}

/// What the answer `answer` to the overwrite question chooses: `Y` or `y`
/// overwrites, `N` or `n` cancels, whitespace around them aside; anything
/// else asks again.
pub open spec fn overwrite_choice_spec(answer: Seq<char>) -> OverwriteChoice {
    let t = trim(answer);
    if t == seq!['Y'] || t == seq!['y'] {
        OverwriteChoice::Overwrite
    } else if t == seq!['N'] || t == seq!['n'] {
        OverwriteChoice::Cancel
    } else {
        OverwriteChoice::AskAgain
    }
}

proof fn lemma_trim_start(s: Seq<char>, lo: int)
    requires
        0 <= lo <= s.len(),
        forall|m: int| 0 <= m < lo ==> is_ws(#[trigger] s[m]),
        lo == s.len() || !is_ws(s[lo]),
    ensures
        trim_start(s) == s.skip(lo),
    decreases lo,
{
    if lo > 0 {
        assert forall|m: int| 0 <= m < lo - 1 implies is_ws(#[trigger] s.drop_first()[m]) by {
            assert(s.drop_first()[m] == s[m + 1]);
        }
        if lo - 1 < s.drop_first().len() {
            assert(s.drop_first()[lo - 1] == s[lo]);
        }
        lemma_trim_start(s.drop_first(), lo - 1);
        assert(s.drop_first().skip(lo - 1) =~= s.skip(lo));
    } else {
        assert(s.skip(0) =~= s);
    }
}

proof fn lemma_trim_end(s: Seq<char>, hi: int)
    requires
        0 <= hi <= s.len(),
        forall|m: int| hi <= m < s.len() ==> is_ws(#[trigger] s[m]),
        hi == 0 || !is_ws(s[hi - 1]),
    ensures
        trim_end(s) == s.take(hi),
    decreases s.len() - hi,
{
    if hi < s.len() {
        assert forall|m: int| hi <= m < s.drop_last().len() implies is_ws(
            #[trigger] s.drop_last()[m],
        ) by {
            assert(s.drop_last()[m] == s[m]);
        }
        if hi > 0 {
            assert(s.drop_last()[hi - 1] == s[hi - 1]);
        }
        lemma_trim_end(s.drop_last(), hi);
        assert(s.drop_last().take(hi) =~= s.take(hi));
    } else {
        assert(s.take(hi) =~= s);
    }
}

/// What the answer `answer` to the overwrite question chooses.
pub fn overwrite_choice(answer: &str) -> (c: OverwriteChoice)
    ensures
        c == overwrite_choice_spec(answer@),
{
    let chars = chars_of(answer);
    let n = chars.len();
    let mut lo: usize = 0;
    while lo < n && is_whitespace(chars[lo])
        invariant
            n == chars@.len(),
            lo <= n,
            forall|m: int| 0 <= m < lo ==> is_ws(#[trigger] chars@[m]),
        decreases n - lo,
    {
        lo = lo + 1;
    }
    let mut hi: usize = n;
    while hi > lo && is_whitespace(chars[hi - 1])
        invariant
            n == chars@.len(),
            lo <= hi <= n,
            forall|m: int| hi <= m < n ==> is_ws(#[trigger] chars@[m]),
        decreases hi,
    {
        hi = hi - 1;
    }
    proof {
        lemma_trim_start(chars@, lo as int);
        let t0 = chars@.skip(lo as int);
        assert forall|m: int| hi - lo <= m < t0.len() implies is_ws(#[trigger] t0[m]) by {
            assert(t0[m] == chars@[lo + m]);
        }
        if hi > lo {
            assert(t0[hi - lo - 1] == chars@[hi - 1]);
        }
        lemma_trim_end(t0, hi - lo);
        assert(t0.take(hi - lo) =~= chars@.subrange(lo as int, hi as int));
    }
    if hi - lo == 1 {
        let c = chars[lo];
        proof {
            assert(chars@.subrange(lo as int, hi as int) =~= seq![c]);
        }
        if c == 'Y' || c == 'y' {
            OverwriteChoice::Overwrite
        } else if c == 'N' || c == 'n' {
            OverwriteChoice::Cancel
        } else {
            OverwriteChoice::AskAgain
        }
    } else {
        proof {
            assert(chars@.subrange(lo as int, hi as int).len() != 1);
        }
        OverwriteChoice::AskAgain
    }
}
} // verus!
