use vstd::prelude::*;

verus! {

/// Why a decimal text is not a `u32`, as `ParseIntError::kind` tells.
#[derive(Debug, Clone, Copy, PartialEq, Eq, Structural)]
pub enum IntErrorKind {
    Empty,
    InvalidDigit,
    PosOverflow,
}

pub open spec fn is_digit(c: char) -> bool {
    '0' <= c <= '9'
}

pub open spec fn digit_value(c: char) -> nat {
    (c as int - 48) as nat
}

/// Reads `digits` left to right onto `acc`: the first character that is not
/// a digit, or the first digit that takes the value past `u32::MAX`, ends
/// the reading with that error.
pub open spec fn scan_digits(digits: Seq<char>, acc: nat) -> Result<nat, IntErrorKind>
    decreases digits.len(),
{
    if digits.len() == 0 {
        Ok(acc)
    } else if !is_digit(digits[0]) {
        Err(IntErrorKind::InvalidDigit)
    } else if acc * 10 + digit_value(digits[0]) > u32::MAX {
        Err(IntErrorKind::PosOverflow)
    } else {
        scan_digits(digits.drop_first(), acc * 10 + digit_value(digits[0]))
    }
}

/// What `str::parse::<u32>` gives for `s`: an optional `+`, then at least
/// one decimal digit and nothing else, for a value that fits in a `u32`.
pub open spec fn parse_u32_spec(s: Seq<char>) -> Result<u32, IntErrorKind> {
    let r = if s.len() == 0 {
        Err(IntErrorKind::Empty)
    } else if s[0] == '+' {
        if s.len() == 1 {
            Err(IntErrorKind::InvalidDigit)
        } else {
            scan_digits(s.drop_first(), 0)
        }
    } else {
        scan_digits(s, 0)
    };
    match r {
        Ok(v) => Ok(v as u32),
        Err(e) => Err(e),
    }
}

/// What the error of `str::parse::<u32>` prints.
pub open spec fn int_error_text(e: IntErrorKind) -> Seq<char> {
    match e {
        IntErrorKind::Empty => "cannot parse integer from empty string"@,
        IntErrorKind::InvalidDigit => "invalid digit found in string"@,
        IntErrorKind::PosOverflow => "number too large to fit in target type"@,
    }
}

pub proof fn lemma_scan_digits_bound(digits: Seq<char>, acc: nat)
    requires
        acc <= u32::MAX,
    ensures
        scan_digits(digits, acc) matches Ok(v) ==> v <= u32::MAX,
    decreases digits.len(),
{
    if digits.len() > 0 && is_digit(digits[0]) && acc * 10 + digit_value(digits[0]) <= u32::MAX {
        lemma_scan_digits_bound(digits.drop_first(), acc * 10 + digit_value(digits[0]));
    }
}

/// Reads `chars[start..]` as decimal digits onto 0, as `scan_digits` says.
fn scan_digits_exec(chars: &Vec<char>, start: usize) -> (r: Result<u32, IntErrorKind>)
    requires
        start <= chars@.len(),
    ensures
        match scan_digits(chars@.skip(start as int), 0) {
            Ok(v) => r == Ok::<u32, IntErrorKind>(v as u32) && v <= u32::MAX,
            Err(e) => r == Err::<u32, IntErrorKind>(e),
        },
{
    let mut acc: u64 = 0;
    let mut i: usize = start;
    proof {
        lemma_scan_digits_bound(chars@.skip(start as int), 0);
    }
    while i < chars.len()
        invariant
            start <= i <= chars@.len(),
            acc <= u32::MAX,
            scan_digits(chars@.skip(start as int), 0) == scan_digits(chars@.skip(i as int), acc as nat),
        decreases chars.len() - i,
    {
        let c = chars[i];
        assert(chars@.skip(i as int)[0] == c);
        assert(chars@.skip(i as int).drop_first() =~= chars@.skip(i + 1));
        if !('0' <= c && c <= '9') {
            return Err(IntErrorKind::InvalidDigit);
        }
        let d: u64 = (c as u64) - 48;
        assert(d == digit_value(c));
        if acc * 10 + d > 4294967295u64 {
            return Err(IntErrorKind::PosOverflow);
        }
        acc = acc * 10 + d;
        i = i + 1;
    }
    proof {
        assert(chars@.skip(i as int).len() == 0);
    }
    Ok(acc as u32)
}

/// `s` read as a `u32` the way `str::parse::<u32>` reads it.
pub fn parse_u32(s: &str) -> (r: Result<u32, IntErrorKind>)
    ensures
        r == parse_u32_spec(s@),
{
    let chars = crate::text::chars_of(s);
    if chars.len() == 0 {
        return Err(IntErrorKind::Empty);
    }
    if chars[0] == '+' {
        if chars.len() == 1 {
            return Err(IntErrorKind::InvalidDigit);
        }
        assert(chars@.skip(1) =~= s@.drop_first());
        scan_digits_exec(&chars, 1)
    } else {
        assert(chars@.skip(0) =~= s@);
        scan_digits_exec(&chars, 0)
    }
}

/// The text that the error of `str::parse::<u32>` prints.
pub fn int_error_message(e: IntErrorKind) -> (s: String)
    ensures
        s@ == int_error_text(e),
{
    match e {
        IntErrorKind::Empty => String::from_str("cannot parse integer from empty string"),
        IntErrorKind::InvalidDigit => String::from_str("invalid digit found in string"),
        IntErrorKind::PosOverflow => String::from_str("number too large to fit in target type"),
    }
}

} // verus!
