//! Scanners over text: the bracket-aware splitter and the recogniser for
//! decimal literals.
use vstd::prelude::*;
use vstd::string::*;

verus! {

/// What the splitter knows after reading a prefix of the text.
pub struct Scan {
    /// Brackets opened and not yet closed, innermost last.
    pub stack: Seq<char>,
    /// Where the part under way began.
    pub start: int,
    /// The parts completed so far.
    pub parts: Seq<Seq<char>>,
    /// A closing bracket met no matching opener.
    pub failed: bool,
}

/// The splitter's state after the first `i` characters of `s`.
pub open spec fn scan(s: Seq<char>, i: int) -> Scan
    decreases i,
{
    if i <= 0 {
        Scan { stack: Seq::empty(), start: 0, parts: Seq::empty(), failed: false }
    } else {
        let p = scan(s, i - 1);
        let c = s[i - 1];
        if p.failed {
            p
        } else if c == '{' || c == '[' {
            Scan { stack: p.stack.push(c), ..p }
        } else if c == '}' || c == ']' {
            let opener = if c == '}' {
                '{'
            } else {
                '['
            };
            if p.stack.len() > 0 && p.stack.last() == opener {
                Scan { stack: p.stack.drop_last(), ..p }
            } else {
                Scan { failed: true, ..p }
            }
        } else if c == ',' && p.stack.len() == 0 {
            Scan { parts: p.parts.push(s.subrange(p.start, i - 1)), start: i, ..p }
        } else {
            p
        }
    }
}

/// The parts between the commas that stand outside every bracket pair, in
/// order; nothing where the brackets do not nest. A comma at the very end
/// opens no further part.
pub open spec fn split_top(s: Seq<char>) -> Option<Seq<Seq<char>>> {
    let e = scan(s, s.len() as int);
    if e.failed || e.stack.len() > 0 {
        None
    } else if e.start != s.len() {
        Some(e.parts.push(s.subrange(e.start, s.len() as int)))
    } else {
        Some(e.parts)
    }
}

/// The parts as the vector holds them.
pub open spec fn parts_are(v: Seq<&str>, parts: Seq<Seq<char>>) -> bool {
    v.len() == parts.len() && forall|k: int| 0 <= k < v.len() ==> (#[trigger] v[k])@ == parts[k]
}

/// Splits the interior of a container at its top-level commas.
pub fn split_json<'a>(json_str: &'a str) -> (r: Option<Vec<&'a str>>)
    ensures
        match r {
            Some(v) => split_top(json_str@) matches Some(parts) && parts_are(v@, parts)
                && forall|k: int| 0 <= k < v@.len() ==> (#[trigger] v@[k])@.len() <= json_str@.len(),
            None => split_top(json_str@) is None,
        },
{
    let n: usize = json_str.unicode_len();
    let mut lines: Vec<&'a str> = Vec::new();
    let mut stack: Vec<char> = Vec::new();
    let mut start: usize = 0;
    let mut i: usize = 0;
    while i < n
        invariant
            i <= n == json_str@.len(),
            start <= i,
            !scan(json_str@, i as int).failed,
            scan(json_str@, i as int).stack == stack@,
            scan(json_str@, i as int).start == start,
            parts_are(lines@, scan(json_str@, i as int).parts),
            forall|k: int| 0 <= k < lines@.len() ==> (#[trigger] lines@[k])@.len() <= n,
        decreases n - i,
    {
        let c = json_str.get_char(i);
        if c == '{' || c == '[' {
            stack.push(c);
        } else if c == '}' || c == ']' {
            let opener = if c == '}' {
                '{'
            } else {
                '['
            };
            if stack.len() > 0 && stack[stack.len() - 1] == opener {
                stack.pop();
            } else {
                proof {
                    lemma_failed_stays(json_str@, i + 1, n as int);
                }
                return None;
            }
        } else if c == ',' && stack.len() == 0 {
            lines.push(json_str.substring_char(start, i));
            start = i + 1;
        }
        i += 1;
    }
    if stack.len() > 0 {
        return None;
    }
    if start != n {
        lines.push(json_str.substring_char(start, n));
    }
    Some(lines)
}

/// Once a closing bracket has failed, the rest of the text changes nothing.
pub proof fn lemma_failed_stays(s: Seq<char>, i: int, j: int)
    requires
        0 <= i <= j,
        scan(s, i).failed,
    ensures
        scan(s, j).failed,
    decreases j - i,
{
    if i < j {
        lemma_failed_stays(s, i, j - 1);
    }
}

/// The first `n` parts written one after the other, a comma after each.
pub open spec fn with_commas(parts: Seq<Seq<char>>, n: nat) -> Seq<char>
    decreases n,
{
    if n == 0 || n > parts.len() {
        Seq::empty()
    } else {
        with_commas(parts, (n - 1) as nat) + parts[n - 1] + seq![',']
    }
}

/// A further part changes nothing in what the parts before it write.
pub proof fn lemma_with_commas_push(parts: Seq<Seq<char>>, x: Seq<char>, n: nat)
    requires
        n <= parts.len(),
    ensures
        with_commas(parts.push(x), n) == with_commas(parts, n),
    decreases n,
{
    if n > 0 {
        lemma_with_commas_push(parts, x, (n - 1) as nat);
        assert(parts.push(x)[n - 1] == parts[n - 1]);
    }
}

/// While the scan has not failed, the completed parts and their commas are
/// the text up to where the part under way begins.
pub proof fn lemma_scan_covers(s: Seq<char>, i: int)
    requires
        0 <= i <= s.len(),
        !scan(s, i).failed,
    ensures
        0 <= scan(s, i).start <= i,
        with_commas(scan(s, i).parts, scan(s, i).parts.len()) == s.take(scan(s, i).start),
    decreases i,
{
    if i > 0 {
        let p = scan(s, i - 1);
        lemma_scan_covers(s, i - 1);
        let c = s[i - 1];
        if c == ',' && p.stack.len() == 0 {
            let part = s.subrange(p.start, i - 1);
            lemma_with_commas_push(p.parts, part, p.parts.len());
            assert(p.parts.push(part)[p.parts.len() as int] == part);
            assert(s.take(p.start) + part + seq![','] =~= s.take(i));
        }
    } else {
        assert(s.take(0) =~= Seq::<char>::empty());
    }
}

/// The parts of a text, each followed by a comma, give the text back: as it
/// is where it is empty or ends in a top-level comma, and else with one comma
/// more. So the parts are the stretches between the separating commas, in
/// order, and nothing of the text is lost.
pub proof fn lemma_split_covers(s: Seq<char>)
    ensures
        split_top(s) matches Some(parts) ==> with_commas(parts, parts.len()) == (if scan(
            s,
            s.len() as int,
        ).start == s.len() {
            s
        } else {
            s.push(',')
        }),
{
    let e = scan(s, s.len() as int);
    if !e.failed {
        lemma_scan_covers(s, s.len() as int);
        assert(s.take(s.len() as int) =~= s);
        if e.start != s.len() {
            let last = s.subrange(e.start, s.len() as int);
            lemma_with_commas_push(e.parts, last, e.parts.len());
            assert(e.parts.push(last)[e.parts.len() as int] == last);
            assert(s.take(e.start) + last + seq![','] =~= s.push(','));
        }
    }
}

/// ASCII letters in lower case, every other character as it is.
pub open spec fn lower(c: char) -> char {
    if 'A' <= c <= 'Z' {
        ((c as u8) + 32u8) as char
    } else {
        c
    }
}

/// The character in lower case, where it is an ASCII letter.
pub fn to_lower(c: char) -> (r: char)
    ensures
        r == lower(c),
{
    if 'A' <= c && c <= 'Z' {
        ((c as u8) + 32u8) as char
    } else {
        c
    }
}

/// `w` stands in `s` at `from`, letter case apart.
pub open spec fn word_at(s: Seq<char>, from: int, w: Seq<char>) -> bool {
    from + w.len() <= s.len() && forall|k: int|
        0 <= k < w.len() ==> lower(#[trigger] s[from + k]) == w[k]
}

/// Whether `word` stands in the text at `from`, letter case apart.
pub(crate) fn has_word_at(text: &str, from: usize, word: &str) -> (r: bool)
    requires
        from <= text@.len(),
    ensures
        r == word_at(text@, from as int, word@),
{
    let n: usize = text.unicode_len();
    let m: usize = word.unicode_len();
    if n - from < m {
        return false;
    }
    let mut k: usize = 0;
    while k < m
        invariant
            k <= m == word@.len(),
            from + m <= n == text@.len(),
            forall|j: int| 0 <= j < k ==> lower(#[trigger] text@[from + j]) == word@[j],
        decreases m - k,
    {
        if to_lower(text.get_char(from + k)) != word.get_char(k) {
            return false;
        }
        k += 1;
    }
    true
}

/// First index at or after `i` that holds no decimal digit (the length if none).
pub open spec fn digits_end(s: Seq<char>, i: int) -> int
    decreases s.len() - i,
{
    if 0 <= i < s.len() && '0' <= s[i] <= '9' {
        digits_end(s, i + 1)
    } else {
        i
    }
}

/// Passes over the digits that start at `from`.
pub(crate) fn skip_digits(text: &str, from: usize) -> (r: usize)
    requires
        from <= text@.len(),
    ensures
        r == digits_end(text@, from as int),
        from <= r <= text@.len(),
{
    let n: usize = text.unicode_len();
    let mut i: usize = from;
    while i < n && '0' <= text.get_char(i) && text.get_char(i) <= '9'
        invariant
            from <= i <= n == text@.len(),
            digits_end(text@, from as int) == digits_end(text@, i as int),
        decreases n - i,
    {
        i += 1;
    }
    i
}

/// A sign.
pub open spec fn is_sign(c: char) -> bool {
    c == '+' || c == '-'
}

/// Whether the text is a decimal literal beyond the plain integers: an
/// optional sign, then `inf`, `infinity` or `nan` in any letter case, or
/// digits with an optional point and an optional exponent, at least one digit
/// beside the point.
pub open spec fn is_decimal(s: Seq<char>) -> bool {
    let a: int = if s.len() > 0 && is_sign(s[0]) {
        1
    } else {
        0
    };
    let b = digits_end(s, a);
    let c = if b < s.len() && s[b] == '.' {
        digits_end(s, b + 1)
    } else {
        b
    };
    let d = if c + 1 < s.len() && is_sign(s[c + 1]) {
        c + 2
    } else {
        c + 1
    };
    if s.len() == a + 3 && (word_at(s, a, "inf"@) || word_at(s, a, "nan"@)) {
        true
    } else if s.len() == a + 8 && word_at(s, a, "infinity"@) {
        true
    } else if !(b > a || c > b + 1) {
        false
    } else if c == s.len() {
        true
    } else if s[c] == 'e' || s[c] == 'E' {
        digits_end(s, d) > d && digits_end(s, d) == s.len()
    } else {
        false
    }
}

/// Whether the text is a decimal literal.
pub fn check_decimal(text: &str) -> (r: bool)
    ensures
        r == is_decimal(text@),
{
    let n: usize = text.unicode_len();
    let a: usize = if n > 0 && (text.get_char(0) == '+' || text.get_char(0) == '-') {
        1
    } else {
        0
    };
    if n - a == 3 && (has_word_at(text, a, "inf") || has_word_at(text, a, "nan")) {
        return true;
    }
    if n - a == 8 && has_word_at(text, a, "infinity") {
        return true;
    }
    let b = skip_digits(text, a);
    let c = if b < n && text.get_char(b) == '.' {
        skip_digits(text, b + 1)
    } else {
        b
    };
    if !(b > a || c > b + 1) {
        return false;
    }
    if c == n {
        return true;
    }
    let x = text.get_char(c);
    if x == 'e' || x == 'E' {
        let d: usize = if c + 1 < n && (text.get_char(c + 1) == '+' || text.get_char(c + 1) == '-') {
            c + 2
        } else {
            c + 1
        };
        let e = skip_digits(text, d);
        e > d && e == n
    } else {
        false
    }
}

} // verus!
