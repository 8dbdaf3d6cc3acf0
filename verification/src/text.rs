//! Character-level helpers shared by the value codec and the request decoder.
use vstd::prelude::*;
use vstd::string::*;

verus! {

/// Unicode white space, as `str::trim` understands it.
pub open spec fn is_space(c: char) -> bool {
    let u = c as u32;
    (0x09 <= u <= 0x0D) || u == 0x20 || u == 0x85 || u == 0xA0 || u == 0x1680 || (0x2000 <= u
        <= 0x200A) || u == 0x2028 || u == 0x2029 || u == 0x202F || u == 0x205F || u == 0x3000
}

/// Whether the character is white space.
pub fn char_is_space(c: char) -> (r: bool)
    ensures
        r == is_space(c),
{
    let u: u32 = c as u32;
    (0x09 <= u && u <= 0x0D) || u == 0x20 || u == 0x85 || u == 0xA0 || u == 0x1680 || (0x2000 <= u
        && u <= 0x200A) || u == 0x2028 || u == 0x2029 || u == 0x202F || u == 0x205F || u == 0x3000
}

/// First index at or after `i` that holds no white space (the length if none).
pub open spec fn first_kept(s: Seq<char>, i: int) -> int
    decreases s.len() - i,
{
    if 0 <= i < s.len() && is_space(s[i]) {
        first_kept(s, i + 1)
    } else {
        i
    }
}

/// End of the text once white space is dropped from its tail, never below `lo`.
pub open spec fn last_kept(s: Seq<char>, j: int, lo: int) -> int
    decreases j,
{
    if 0 < j <= s.len() && lo < j && is_space(s[j - 1]) {
        last_kept(s, j - 1, lo)
    } else {
        j
    }
}

/// The text without its leading and trailing white space.
pub open spec fn trimmed(s: Seq<char>) -> Seq<char> {
    let a = first_kept(s, 0);
    s.subrange(a, last_kept(s, s.len() as int, a))
}

/// The text without the white space around it.
pub fn trim(text: &str) -> (r: &str)
    ensures
        r@ == trimmed(text@),
        r@.len() <= text@.len(),
{
    let n: usize = text.unicode_len();
    let mut a: usize = 0;
    while a < n && char_is_space(text.get_char(a))
        invariant
            a <= n == text@.len(),
            first_kept(text@, 0) == first_kept(text@, a as int),
        decreases n - a,
    {
        a += 1;
    }
    let mut b: usize = n;
    while a < b && char_is_space(text.get_char(b - 1))
        invariant
            a <= b <= n == text@.len(),
            last_kept(text@, n as int, a as int) == last_kept(text@, b as int, a as int),
        decreases b,
    {
        b -= 1;
    }
    text.substring_char(a, b)
}

/// First index at or after `i` that holds `c` (the length if none).
pub open spec fn index_from(s: Seq<char>, c: char, i: int) -> int
    decreases s.len() - i,
{
    if 0 <= i < s.len() && s[i] != c {
        index_from(s, c, i + 1)
    } else {
        i
    }
}

/// Position of the first `c` in the text, or its length where it has none.
pub fn find_char(text: &str, c: char) -> (r: usize)
    ensures
        r == index_from(text@, c, 0),
        r <= text@.len(),
        r < text@.len() ==> text@[r as int] == c,
{
    let n: usize = text.unicode_len();
    let mut i: usize = 0;
    while i < n && text.get_char(i) != c
        invariant
            i <= n == text@.len(),
            index_from(text@, c, 0) == index_from(text@, c, i as int),
        decreases n - i,
    {
        i += 1;
    }
    i
}

/// The text with every double quote taken out.
pub open spec fn without_quotes(s: Seq<char>) -> Seq<char>
    decreases s.len(),
{
    if s.len() == 0 {
        s
    } else if s.last() == '"' {
        without_quotes(s.drop_last())
    } else {
        without_quotes(s.drop_last()).push(s.last())
    }
}

/// `String::push`: the character is appended and nothing else changes.
#[verifier::external_body]
pub(crate) fn push_char(s: &mut String, c: char)
    ensures
        final(s)@ == old(s)@.push(c),
{
    s.push(c)
}

/// A copy of the text without its double quotes.
pub fn strip_quotes(text: &str) -> (r: String)
    ensures
        r@ == without_quotes(text@),
{
    let n: usize = text.unicode_len();
    let mut out = String::new();
    let mut i: usize = 0;
    proof {
        assert(text@.take(0).len() == 0);
    }
    while i < n
        invariant
            i <= n == text@.len(),
            out@ == without_quotes(text@.take(i as int)),
        decreases n - i,
    {
        let c = text.get_char(i);
        proof {
            assert(text@.take(i + 1).drop_last() == text@.take(i as int));
            assert(text@.take(i + 1).last() == c);
        }
        if c != '"' {
            push_char(&mut out, c);
        }
        i += 1;
    }
    proof {
        assert(text@.take(n as int) == text@);
    }
    out
}

/// A decimal digit.
pub open spec fn is_digit(c: char) -> bool {
    '0' <= c <= '9'
}

/// Every character is a decimal digit.
pub open spec fn all_digits(s: Seq<char>) -> bool {
    forall|i: int| 0 <= i < s.len() ==> is_digit(#[trigger] s[i])
}

/// The number that a run of decimal digits writes.
pub open spec fn digits_value(s: Seq<char>) -> nat
    decreases s.len(),
{
    if s.len() == 0 {
        0
    } else {
        digits_value(s.drop_last()) * 10 + ((s.last() as u32 - '0' as u32) as nat)
    }
}

/// The value of a non-empty run of digits that does not pass `max`.
pub open spec fn bounded_digits(s: Seq<char>, max: nat) -> Option<nat> {
    if s.len() > 0 && all_digits(s) && digits_value(s) <= max {
        Some(digits_value(s))
    } else {
        None
    }
}

/// Reads the digits from `from` to the end as a number up to `max`.
pub(crate) fn read_digits(text: &str, from: usize, max: u64) -> (r: Option<u64>)
    requires
        from <= text@.len(),
    ensures
        match r {
            Some(v) => bounded_digits(text@.skip(from as int), max as nat) == Some(v as nat),
            None => bounded_digits(text@.skip(from as int), max as nat) is None,
        },
{
    let n: usize = text.unicode_len();
    if from == n {
        return None;
    }
    let ghost d = text@.skip(from as int);
    let mut acc: u64 = 0;
    let mut over: bool = false;
    let mut i: usize = from;
    proof {
        assert(d.take(0).len() == 0);
    }
    while i < n
        invariant
            from <= i <= n == text@.len(),
            d == text@.skip(from as int),
            all_digits(d.take(i - from)),
            !over ==> acc == digits_value(d.take(i - from)) && acc <= max,
            over ==> digits_value(d.take(i - from)) > max,
        decreases n - i,
    {
        let c = text.get_char(i);
        proof {
            assert(d[i - from] == c);
            assert(d.take(i - from + 1).drop_last() == d.take(i - from));
            assert(d.take(i - from + 1).last() == c);
        }
        if !('0' <= c && c <= '9') {
            return None;
        }
        let dv: u64 = (c as u32 - '0' as u32) as u64;
        if !over {
            let next: u128 = acc as u128 * 10 + dv as u128;
            if next > max as u128 {
                over = true;
            } else {
                acc = next as u64;
            }
        }
        i += 1;
    }
    proof {
        assert(d.take(n - from) == d);
    }
    if over {
        None
    } else {
        Some(acc)
    }
}

/// What `i32`'s `FromStr` reads: an optional sign, then digits, within range.
pub open spec fn int_of_text(s: Seq<char>) -> Option<i32> {
    if s.len() > 0 && s[0] == '-' {
        match bounded_digits(s.skip(1), 0x8000_0000) {
            Some(v) => Some((-(v as int)) as i32),
            None => None,
        }
    } else if s.len() > 0 && s[0] == '+' {
        match bounded_digits(s.skip(1), 0x7fff_ffff) {
            Some(v) => Some(v as i32),
            None => None,
        }
    } else {
        match bounded_digits(s, 0x7fff_ffff) {
            Some(v) => Some(v as i32),
            None => None,
        }
    }
}

/// Reads a 32-bit integer; nothing where the text writes none.
pub fn parse_int(text: &str) -> (r: Option<i32>)
    ensures
        r == int_of_text(text@),
{
    let n: usize = text.unicode_len();
    proof {
        assert(text@.skip(0) == text@);
    }
    if n > 0 && text.get_char(0) == '-' {
        match read_digits(text, 1, 0x8000_0000) {
            Some(v) => Some((-(v as i64)) as i32),
            None => None,
        }
    } else if n > 0 && text.get_char(0) == '+' {
        match read_digits(text, 1, 0x7fff_ffff) {
            Some(v) => Some(v as i32),
            None => None,
        }
    } else {
        match read_digits(text, 0, 0x7fff_ffff) {
            Some(v) => Some(v as i32),
            None => None,
        }
    }
}

/// What an unsigned length reads: an optional `+`, then digits, within `usize`.
pub open spec fn length_of_text(s: Seq<char>) -> Option<usize> {
    let d = if s.len() > 0 && s[0] == '+' {
        s.skip(1)
    } else {
        s
    };
    match bounded_digits(d, usize::MAX as nat) {
        Some(v) => Some(v as usize),
        None => None,
    }
}

/// Reads a length; nothing where the text writes none.
pub fn parse_length(text: &str) -> (r: Option<usize>)
    ensures
        r == length_of_text(text@),
{
    let n: usize = text.unicode_len();
    proof {
        assert(text@.skip(0) == text@);
    }
    let from: usize = if n > 0 && text.get_char(0) == '+' {
        1
    } else {
        0
    };
    match read_digits(text, from, usize::MAX as u64) {
        Some(v) => Some(v as usize),
        None => None,
    }
}

} // verus!
