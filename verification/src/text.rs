use vstd::prelude::*;

verus! {

// ---------------------------------------------------------------------
// Decimal numbers
// ---------------------------------------------------------------------

/// The ASCII digit for `d` (`d < 10`).
pub open spec fn digit_char(d: nat) -> char {
    (48 + d) as char
}

/// The decimal representation of `n`, without leading zeros, as `{}`
/// prints an unsigned integer.
pub open spec fn decimal(n: nat) -> Seq<char>
    decreases n,
{
    if n < 10 {
        seq![digit_char(n)]
    } else {
        decimal(n / 10).push(digit_char(n % 10))
    }
}

/// `s` left-padded with `'0'` up to `width` characters, as `{:0width$}`
/// prints a decimal number; a longer `s` is kept whole.
pub open spec fn zero_pad(s: Seq<char>, width: nat) -> Seq<char> {
    if s.len() >= width {
        s
    } else {
        Seq::new((width - s.len()) as nat, |i: int| '0') + s
    }
}

/// The number of decimal digits of `n`.
pub proof fn lemma_decimal_len(n: nat)
    ensures
        decimal(n).len() >= 1,
        n < 10 ==> decimal(n).len() == 1,
        10 <= n < 100 ==> decimal(n).len() == 2,
        n >= 10 ==> decimal(n).len() == decimal(n / 10).len() + 1,
    decreases n,
{
    if n >= 10 {
        lemma_decimal_len(n / 10);
    }
}

/// `n` below `10^k` has at most `k` digits.
pub proof fn lemma_decimal_len_bound(n: nat, k: nat)
    requires
        k >= 1,
        n < pow10(k),
    ensures
        decimal(n).len() <= k,
    decreases k,
{
    lemma_decimal_len(n);
    reveal_with_fuel(pow10, 2);
    if n >= 10 {
        assert(k >= 2) by {
            if k == 1 {
                assert(pow10(1) == 10);
            }
        }
        assert(n / 10 < pow10((k - 1) as nat)) by {
            assert(pow10(k) == 10 * pow10((k - 1) as nat));
        }
        lemma_decimal_len_bound(n / 10, (k - 1) as nat);
    }
}

pub open spec fn pow10(k: nat) -> nat
    decreases k,
{
    if k == 0 {
        1
    } else {
        10 * pow10((k - 1) as nat)
    }
}


/// Appends one character to a string.
#[verifier::external_body]
pub(crate) fn push_char(s: &mut String, c: char)
    ensures
        final(s)@ == old(s)@.push(c),
{
    s.push(c);
}

/// The ASCII digit for `d`.
pub fn digit_to_char(d: u32) -> (c: char)
    requires
        d < 10,
    ensures
        c == digit_char(d as nat),
{
    let b: u8 = 48u8 + (d as u8);
    b as char
}

/// Appends the decimal representation of `n` to `s`.
pub fn append_decimal(s: &mut String, n: u64)
    ensures
        final(s)@ == old(s)@ + decimal(n as nat),
    decreases n,
{
    if n >= 10 {
        append_decimal(s, n / 10);
    }
    let d: u32 = (n % 10) as u32;
    push_char(s, digit_to_char(d));
    proof {
        assert(decimal(n as nat) == if n < 10 {
            seq![digit_char(n as nat)]
        } else {
            decimal((n / 10) as nat).push(digit_char((n % 10) as nat))
        });
    }
}

/// Appends `n` in decimal, left-padded with `'0'` to `width` characters.
pub fn append_zero_padded(s: &mut String, n: u64, width: usize)
    ensures
        final(s)@ == old(s)@ + zero_pad(decimal(n as nat), width as nat),
{
    let mut digits = String::new();
    append_decimal(&mut digits, n);
    let len = digits.unicode_len();
    let mut i: usize = len;
    while i < width
        invariant
            len == decimal(n as nat).len(),
            len <= i,
            i <= width || i == len,
            s@ == old(s)@ + Seq::new((i - len) as nat, |k: int| '0'),
        decreases width - i,
    {
        push_char(s, '0');
        i = i + 1;
        proof {
            assert(s@ == old(s)@ + Seq::new((i - len) as nat, |k: int| '0'));
        }
    }
    s.append(digits.as_str());
    proof {
        if len >= width {
            assert(s@ == old(s)@ + decimal(n as nat));
        } else {
            assert(i == width);
        }
    }
}


// ---------------------------------------------------------------------
// Characters and whitespace
// ---------------------------------------------------------------------

/// Unicode `White_Space`, the set `char::is_whitespace` tests for.
pub open spec fn is_ws(c: char) -> bool {
    ||| '\t' <= c <= '\r'
    ||| c == ' '
    ||| c == '\u{85}'
    ||| c == '\u{a0}'
    ||| c == '\u{1680}'
    ||| '\u{2000}' <= c <= '\u{200a}'
    ||| c == '\u{2028}'
    ||| c == '\u{2029}'
    ||| c == '\u{202f}'
    ||| c == '\u{205f}'
    ||| c == '\u{3000}'
}

/// Whether `c` is Unicode whitespace.
pub fn is_whitespace(c: char) -> (b: bool)
    ensures
        b == is_ws(c),
{
    ('\t' <= c && c <= '\r') || c == ' ' || c == '\u{85}' || c == '\u{a0}' || c == '\u{1680}'
        || ('\u{2000}' <= c && c <= '\u{200a}') || c == '\u{2028}' || c == '\u{2029}'
        || c == '\u{202f}' || c == '\u{205f}' || c == '\u{3000}'
}

/// The characters of `s`, in order.
pub fn chars_of(s: &str) -> (v: Vec<char>)
    ensures
        v@ == s@,
{
    let mut v: Vec<char> = Vec::new();
    for c in it: s.chars()
        invariant
            v@ == it.seq().take(it.index()),
            it.seq() == s@,
    {
        v.push(c);
        proof {
            assert(v@ =~= it.seq().take(it.index() + 1));
        }
    }
    proof {
        assert(v@ =~= s@);
    }
    v
}

// ---------------------------------------------------------------------
// Splitting on whitespace
// ---------------------------------------------------------------------

/// The maximal runs of non-whitespace characters of `s`, in order: what
/// `str::split_whitespace` yields. Defined on prefixes: a character either
/// is whitespace, extends the token the previous character ended, or starts
/// a new one.
pub open spec fn split_ws(s: Seq<char>) -> Seq<Seq<char>>
    decreases s.len(),
{
    if s.len() == 0 {
        Seq::empty()
    } else {
        let rest = s.drop_last();
        let c = s.last();
        let toks = split_ws(rest);
        if is_ws(c) {
            toks
        } else if rest.len() > 0 && !is_ws(rest.last()) {
            toks.update(toks.len() - 1, toks.last().push(c))
        } else {
            toks.push(seq![c])
        }
    }
}

/// Start and end positions (in characters) of the whitespace-separated
/// tokens of `chars`.
fn token_bounds(chars: &Vec<char>) -> (b: Vec<(usize, usize)>)
    ensures
        b@.len() == split_ws(chars@).len(),
        forall|i: int|
            #![trigger b@[i]]
            0 <= i < b@.len() ==> b@[i].0 < b@[i].1 <= chars@.len() && chars@.subrange(
                b@[i].0 as int,
                b@[i].1 as int,
            ) == split_ws(chars@)[i],
{
    let mut b: Vec<(usize, usize)> = Vec::new();
    let n = chars.len();
    let mut i: usize = 0;
    while i < n
        invariant
            n == chars@.len(),
            i <= n,
            b@.len() == split_ws(chars@.take(i as int)).len(),
            forall|k: int|
                #![trigger b@[k]]
                0 <= k < b@.len() ==> b@[k].0 < b@[k].1 <= i && chars@.subrange(
                    b@[k].0 as int,
                    b@[k].1 as int,
                ) == split_ws(chars@.take(i as int))[k],
            i > 0 && !is_ws(chars@[i - 1]) ==> b@.len() > 0 && b@.last().1 == i,
        decreases n - i,
    {
        let c = chars[i];
        let ghost prefix = chars@.take(i as int);
        let ghost next = chars@.take(i + 1);
        assert(next.drop_last() == prefix);
        assert(next.last() == c);
        if is_whitespace(c) {
        } else if i > 0 && !is_whitespace(chars[i - 1]) {
            let last = b.len() - 1;
            let start = b[last].0;
            b.set(last, (start, i + 1));
            proof {
                assert(prefix.last() == chars@[i - 1]);
                assert forall|k: int| #![trigger b@[k]] 0 <= k < b@.len() implies b@[k].0 < b@[k].1
                    <= i + 1 && chars@.subrange(b@[k].0 as int, b@[k].1 as int) == split_ws(
                    next,
                )[k] by {
                    if k == last {
                        assert(chars@.subrange(start as int, i + 1) =~= chars@.subrange(
                            start as int,
                            i as int,
                        ).push(c));
                    }
                }
            }
        } else {
            b.push((i, i + 1));
            proof {
                if i > 0 {
                    assert(prefix.last() == chars@[i - 1]);
                }
                assert forall|k: int| #![trigger b@[k]] 0 <= k < b@.len() implies b@[k].0 < b@[k].1
                    <= i + 1 && chars@.subrange(b@[k].0 as int, b@[k].1 as int) == split_ws(
                    next,
                )[k] by {
                    if k == b@.len() - 1 {
                        assert(chars@.subrange(i as int, i + 1) =~= seq![c]);
                    }
                }
            }
        }
        i = i + 1;
    }
    proof {
        assert(chars@.take(n as int) =~= chars@);
    }
    b
}

/// The whitespace-separated tokens of `s`, as slices of it.
pub fn split_whitespace(s: &str) -> (toks: Vec<&str>)
    ensures
        toks@.len() == split_ws(s@).len(),
        forall|i: int| 0 <= i < toks@.len() ==> #[trigger] toks@[i]@ == split_ws(s@)[i],
{
    let chars = chars_of(s);
    let bounds = token_bounds(&chars);
    let mut toks: Vec<&str> = Vec::new();
    let mut i: usize = 0;
    while i < bounds.len()
        invariant
            chars@ == s@,
            bounds@.len() == split_ws(s@).len(),
            forall|k: int|
                #![trigger bounds@[k]]
                0 <= k < bounds@.len() ==> bounds@[k].0 < bounds@[k].1 <= chars@.len()
                    && chars@.subrange(bounds@[k].0 as int, bounds@[k].1 as int) == split_ws(
                    chars@,
                )[k],
            i <= bounds@.len(),
            toks@.len() == i,
            forall|k: int| 0 <= k < i ==> #[trigger] toks@[k]@ == split_ws(s@)[k],
        decreases bounds.len() - i,
    {
        let (start, end) = bounds[i];
        let t = s.substring_char(start, end);
        toks.push(t);
        i = i + 1;
    }
    toks
}


/// Whether `a` and `b` hold the same text.
pub fn str_eq(a: &str, b: &str) -> (r: bool)
    ensures
        r == (a@ == b@),
{
    let x = chars_of(a);
    let y = chars_of(b);
    if x.len() != y.len() {
        return false;
    }
    let mut i: usize = 0;
    while i < x.len()
        invariant
            x@ == a@,
            y@ == b@,
            x@.len() == y@.len(),
            i <= x@.len(),
            forall|k: int| 0 <= k < i ==> x@[k] == y@[k],
        decreases x.len() - i,
    {
        if x[i] != y[i] {
            return false;
        }
        i = i + 1;
    }
    proof {
        assert(x@ =~= y@);
    }
    true
}

} // verus!
