use vstd::prelude::*;

use crate::error::FractionError;
use crate::fraction::LIMIT;

verus! {

/// The Unicode `White_Space` property, which `char::is_whitespace` tests and
/// by which `str::trim` and `str::split_whitespace` cut.
pub open spec fn is_white(c: char) -> bool {
    let n = c as u32;
    ||| 0x09 <= n <= 0x0d
    ||| n == 0x20
    ||| n == 0x85
    ||| n == 0xa0
    ||| n == 0x1680
    ||| 0x2000 <= n <= 0x200a
    ||| n == 0x2028
    ||| n == 0x2029
    ||| n == 0x202f
    ||| n == 0x205f
    ||| n == 0x3000
}

/// Whether `c` is a white-space character.
pub fn is_white_char(c: char) -> (r: bool)
    ensures
        r == is_white(c),
{
    let n = c as u32;
    (0x09 <= n && n <= 0x0d) || n == 0x20 || n == 0x85 || n == 0xa0 || n == 0x1680 || (0x2000 <= n
        && n <= 0x200a) || n == 0x2028 || n == 0x2029 || n == 0x202f || n == 0x205f || n == 0x3000
}

/// An ASCII decimal digit.
pub open spec fn is_digit(c: char) -> bool {
    '0' <= c <= '9'
}

/// The number that a string of decimal digits denotes.
pub open spec fn digits_value(s: Seq<char>) -> int
    decreases s.len(),
{
    if s.len() == 0 {
        0
    } else {
        digits_value(s.drop_last()) * 10 + (s.last() as int - '0' as int)
    }
}

/// The digits of an unsigned number with an optional leading `+` removed.
pub open spec fn unsigned_digits(s: Seq<char>) -> Seq<char> {
    if s.len() > 0 && s[0] == '+' {
        s.drop_first()
    } else {
        s
    }
}

/// What `u32::from_str` makes of `s`: an optional `+`, then one or more
/// decimal digits whose value fits in a `u32`.
pub open spec fn parsed_u32(s: Seq<char>) -> Option<u32> {
    let t = unsigned_digits(s);
    if t.len() > 0 && (forall|i: int| 0 <= i < t.len() ==> is_digit(#[trigger] t[i]))
        && digits_value(t) <= LIMIT {
        Some(digits_value(t) as u32)
    } else {
        None
    }
}

/// `s` without its leading white space.
pub open spec fn trim_start(s: Seq<char>) -> Seq<char>
    decreases s.len(),
{
    if s.len() > 0 && is_white(s[0]) {
        trim_start(s.drop_first())
    } else {
        s
    }
}

/// `s` without its trailing white space.
pub open spec fn trim_end(s: Seq<char>) -> Seq<char>
    decreases s.len(),
{
    if s.len() > 0 && is_white(s.last()) {
        trim_end(s.drop_last())
    } else {
        s
    }
}

/// `s` without white space at either end, as `str::trim` leaves it.
pub open spec fn trim(s: Seq<char>) -> Seq<char> {
    trim_end(trim_start(s))
}

/// The maximal runs of non-white characters of `s`, in order, as
/// `str::split_whitespace` yields them; defined by adding one character at a time.
pub open spec fn words(s: Seq<char>) -> Seq<Seq<char>>
    decreases s.len(),
{
    if s.len() == 0 {
        seq![]
    } else {
        let before = words(s.drop_last());
        let c = s.last();
        if is_white(c) {
            before
        } else if s.len() >= 2 && !is_white(s[s.len() - 2]) {
            before.update(before.len() - 1, before.last().push(c))
        } else {
            before.push(seq![c])
        }
    }
}

/// What parsing a single number yields: the `u32` that `s` denotes once
/// trimmed, or `MalformedInput`.
pub open spec fn number_outcome(s: Seq<char>) -> Result<u32, FractionError> {
    match parsed_u32(trim(s)) {
        Some(n) => Ok(n),
        None => Err(FractionError::MalformedInput),
    }
}

/// `s` holds exactly four words, each an unsigned 32-bit number.
pub open spec fn four_numbers(s: Seq<char>) -> bool {
    &&& words(s).len() == 4
    &&& forall|j: int| 0 <= j < 4 ==> (#[trigger] parsed_u32(words(s)[j])) is Some
}

/// A line that ends in a non-white character has at least one word.
proof fn lemma_words_nonempty(s: Seq<char>)
    requires
        s.len() > 0,
        !is_white(s.last()),
    ensures
        words(s).len() > 0,
    decreases s.len(),
{
    if s.len() >= 2 && !is_white(s[s.len() - 2]) {
        lemma_words_nonempty(s.drop_last());
    }
}

/// The characters of `s`, in order.
fn chars_of(s: &str) -> (r: Vec<char>)
    ensures
        r@ == s@,
{
    let n = s.unicode_len();
    let mut r: Vec<char> = Vec::new();
    let mut i: usize = 0;
    while i < n
        invariant
            n == s@.len(),
            i <= n,
            r@ == s@.take(i as int),
        decreases n - i,
    {
        r.push(s.get_char(i));
        i = i + 1;
    }
    assert(r@ =~= s@);
    r
}

/// Reads `t[lo..hi]` as an unsigned 32-bit number, as `u32::from_str` does.
fn parse_unsigned(t: &Vec<char>, lo: usize, hi: usize) -> (r: Option<u32>)
    requires
        lo <= hi <= t@.len(),
    ensures
        r == parsed_u32(t@.subrange(lo as int, hi as int)),
{
    let ghost s = t@.subrange(lo as int, hi as int);
    let mut start = lo;
    if lo < hi && t[lo] == '+' {
        start = lo + 1;
    }
    let ghost u = t@.subrange(start as int, hi as int);
    assert(u =~= unsigned_digits(s));
    if start == hi {
        return None;
    }
    let mut value: u64 = 0;
    let mut too_big = false;
    let mut i = start;
    while i < hi
        invariant
            lo <= start <= i <= hi <= t@.len(),
            u == t@.subrange(start as int, hi as int),
            u == unsigned_digits(s),
            s == t@.subrange(lo as int, hi as int),
            forall|k: int| start <= k < i ==> is_digit(#[trigger] t@[k]),
            !too_big ==> value == digits_value(t@.subrange(start as int, i as int)),
            !too_big ==> value <= LIMIT,
            too_big ==> digits_value(t@.subrange(start as int, i as int)) > LIMIT,
        decreases hi - i,
    {
        let c = t[i];
        if !('0' <= c && c <= '9') {
            assert(!is_digit(u[i - start]));
            return None;
        }
        let ghost prefix = t@.subrange(start as int, i as int + 1);
        assert(prefix.drop_last() =~= t@.subrange(start as int, i as int));
        assert(prefix.last() == c);
        if !too_big {
            let next = value * 10 + (c as u64 - '0' as u64);
            if next > LIMIT as u64 {
                too_big = true;
            } else {
                value = next;
            }
        } else {
            assert(digits_value(prefix) >= digits_value(prefix.drop_last()));
        }
        i = i + 1;
    }
    assert(t@.subrange(start as int, i as int) =~= u);
    if too_big {
        None
    } else {
        Some(value as u32)
    }
}

/// Reads one unsigned number, ignoring white space around it.
pub fn parse_int_from_str(input_str: &str) -> (r: Result<u32, FractionError>)
    ensures
        r == number_outcome(input_str@),
{
    let v = chars_of(input_str);
    let n = v.len();
    let mut lo: usize = 0;
    assert(v@.subrange(0, n as int) =~= v@);
    while lo < n && is_white_char(v[lo])
        invariant
            n == v@.len(),
            lo <= n,
            trim_start(v@.subrange(lo as int, n as int)) == trim_start(v@),
        decreases n - lo,
    {
        assert(v@.subrange(lo as int, n as int).drop_first() =~= v@.subrange(lo as int + 1, n as int));
        lo = lo + 1;
    }
    let mut hi: usize = n;
    while hi > lo && is_white_char(v[hi - 1])
        invariant
            n == v@.len(),
            lo <= hi <= n,
            trim_start(v@) == v@.subrange(lo as int, n as int),
            trim_end(v@.subrange(lo as int, hi as int)) == trim(v@),
        decreases hi,
    {
        assert(v@.subrange(lo as int, hi as int).drop_last() =~= v@.subrange(lo as int, hi as int - 1));
        hi = hi - 1;
    }
    match parse_unsigned(&v, lo, hi) {
        Some(x) => Ok(x),
        None => Err(FractionError::MalformedInput),
    }
}

/// Cuts `v` into its words.
fn split_words(v: &Vec<char>) -> (r: Vec<Vec<char>>)
    ensures
        r@.len() == words(v@).len(),
        forall|j: int| 0 <= j < r@.len() ==> (#[trigger] r@[j])@ == words(v@)[j],
{
    let mut toks: Vec<Vec<char>> = Vec::new();
    let mut i: usize = 0;
    while i < v.len()
        invariant
            i <= v@.len(),
            toks@.len() == words(v@.take(i as int)).len(),
            forall|j: int| 0 <= j < toks@.len() ==> (#[trigger] toks@[j])@ == words(v@.take(i as int))[j],
        decreases v@.len() - i,
    {
        let c = v[i];
        let ghost s = v@.take(i as int + 1);
        assert(s.drop_last() =~= v@.take(i as int));
        assert(s.last() == c);
        if is_white_char(c) {
        } else if i >= 1 && !is_white_char(v[i - 1]) {
            assert(s[s.len() - 2] == v@[i - 1]);
            proof {
                lemma_words_nonempty(v@.take(i as int));
            }
            let mut w = toks.pop().unwrap();
            w.push(c);
            toks.push(w);
        } else {
            toks.push(vec![c]);
        }
        i = i + 1;
    }
    assert(v@.take(i as int) =~= v@);
    toks
}

/// Reads the four numbers `a b c d` from one line of input, separated by
/// white space.
pub fn parse_input_vals(line: &str) -> (r: Result<[u32; 4], FractionError>)
    ensures
        r is Ok <==> four_numbers(line@),
        r is Err ==> r == Err::<[u32; 4], FractionError>(FractionError::MalformedInput),
        r matches Ok(v) ==> forall|j: int| 0 <= j < 4 ==> parsed_u32(words(line@)[j]) == Some(#[trigger] v[j]),
{
    let v = chars_of(line);
    let toks = split_words(&v);
    if toks.len() != 4 {
        return Err(FractionError::MalformedInput);
    }
    let ghost ws = words(line@);
    let mut vals: Vec<u32> = Vec::new();
    let mut j: usize = 0;
    while j < 4
        invariant
            toks@.len() == 4,
            ws == words(line@),
            ws.len() == 4,
            forall|k: int| 0 <= k < 4 ==> (#[trigger] toks@[k])@ == ws[k],
            j <= 4,
            vals@.len() == j,
            forall|k: int| 0 <= k < j ==> parsed_u32(ws[k]) == Some(#[trigger] vals@[k]),
        decreases 4 - j,
    {
        let t = &toks[j];
        assert(t@.subrange(0, t@.len() as int) =~= t@);
        match parse_unsigned(t, 0, t.len()) {
            Some(x) => vals.push(x),
            None => {
                assert(parsed_u32(ws[j as int]) is None);
                return Err(FractionError::MalformedInput);
            },
        }
        j = j + 1;
    }
    let r = [vals[0], vals[1], vals[2], vals[3]];
    assert forall|k: int| 0 <= k < 4 implies parsed_u32(ws[k]) == Some(#[trigger] r[k]) by {
        assert(r[k] == vals@[k]);
    }
    Ok(r)
}

} // verus!
