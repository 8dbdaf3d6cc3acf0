//! The message decoder: request line, header fields and an optional body
//! value out of the framer's lines.
use vstd::prelude::*;
use vstd::string::*;
use crate::framer::line_texts;
use crate::json::{JsonModel, JsonValue};
use crate::parse::{json_of, model_of, parse_json, text_is};
use crate::response::{http_error, Body, HttpCode, HttpResponse};
use crate::text::{char_is_space, find_char, first_kept, index_from, is_space, trim, trimmed};

verus! {

/// One header field.
pub struct Header {
    pub name: String,
    pub value: String,
}

/// A decoded request. No two headers bear the same name.
pub struct HttpRequest {
    pub method: String,
    pub uri: String,
    pub headers: Vec<Header>,
    pub body: Option<JsonValue>,
}

/// First index at or after `i` that holds white space (the length if none).
pub open spec fn token_end(s: Seq<char>, i: int) -> int
    decreases s.len() - i,
{
    if 0 <= i < s.len() && !is_space(s[i]) {
        token_end(s, i + 1)
    } else {
        i
    }
}

/// The methods that the decoder accepts.
pub open spec fn is_method(t: Seq<char>) -> bool {
    t == "GET"@ || t == "POST"@ || t == "PATCH"@ || t == "DELETE"@
}

/// Method and target of a request line: its first two words, where the first
/// is an accepted method and the second exists.
pub open spec fn request_line(s: Seq<char>) -> Option<(Seq<char>, Seq<char>)> {
    let a = first_kept(s, 0);
    let b = token_end(s, a);
    let c = first_kept(s, b);
    let d = token_end(s, c);
    if a >= s.len() || !is_method(s.subrange(a, b)) || c >= s.len() {
        None
    } else {
        Some((s.subrange(a, b), s.subrange(c, d)))
    }
}

/// A request line whose first word is no accepted method is rejected.
pub proof fn lemma_unknown_method_rejected(line: Seq<char>)
    requires
        !is_method(
            line.subrange(first_kept(line, 0), token_end(line, first_kept(line, 0))),
        ),
    ensures
        request_line(line) is None,
{
}

/// Name and value of a header line: what stands before and after its first
/// colon, trimmed. Nothing for a line without a colon.
pub open spec fn header_of(line: Seq<char>) -> Option<(Seq<char>, Seq<char>)> {
    let c = index_from(line, ':', 0);
    if 0 <= c < line.len() {
        Some((trimmed(line.subrange(0, c)), trimmed(line.subrange(c + 1, line.len() as int))))
    } else {
        None
    }
}

/// First index at or after `i` whose header bears the name (the length if none).
pub open spec fn name_at(hs: Seq<(Seq<char>, Seq<char>)>, name: Seq<char>, i: int) -> int
    decreases hs.len() - i,
{
    if 0 <= i < hs.len() && hs[i].0 != name {
        name_at(hs, name, i + 1)
    } else {
        i
    }
}

/// The headers with `name` set to `value`: in place where the name is there,
/// at the end where it is new.
pub open spec fn set_header(hs: Seq<(Seq<char>, Seq<char>)>, name: Seq<char>, value: Seq<char>) -> Seq<
    (Seq<char>, Seq<char>),
> {
    let p = name_at(hs, name, 0);
    if p < hs.len() {
        hs.update(p, (name, value))
    } else {
        hs.push((name, value))
    }
}

/// The headers that the lines after the request line give, among the first
/// `n` lines; a later line of a name replaces the value of an earlier one.
pub open spec fn headers_of(lines: Seq<Seq<char>>, n: nat) -> Seq<(Seq<char>, Seq<char>)>
    decreases n,
{
    if n <= 1 || n > lines.len() {
        Seq::empty()
    } else {
        match header_of(lines[n - 1]) {
            Some((k, v)) => set_header(headers_of(lines, (n - 1) as nat), k, v),
            None => headers_of(lines, (n - 1) as nat),
        }
    }
}

/// The headers as pairs of name and value.
pub open spec fn headers_model(hs: Seq<Header>) -> Seq<(Seq<char>, Seq<char>)> {
    Seq::new(hs.len(), |i: int| (hs[i].name@, hs[i].value@))
}

/// No name twice.
pub open spec fn distinct_names(hs: Seq<(Seq<char>, Seq<char>)>) -> bool {
    forall|i: int, j: int| 0 <= i < j < hs.len() ==> (#[trigger] hs[i]).0 != (#[trigger] hs[j]).0
}

/// Setting a header keeps the names distinct.
pub proof fn lemma_set_header_distinct(
    hs: Seq<(Seq<char>, Seq<char>)>,
    name: Seq<char>,
    value: Seq<char>,
)
    requires
        distinct_names(hs),
    ensures
        distinct_names(set_header(hs, name, value)),
{
    lemma_name_at(hs, name, 0);
}

/// `name_at` finds the first header of the name at or after `i`.
pub proof fn lemma_name_at(hs: Seq<(Seq<char>, Seq<char>)>, name: Seq<char>, i: int)
    requires
        0 <= i <= hs.len(),
    ensures
        i <= name_at(hs, name, i) <= hs.len(),
        name_at(hs, name, i) < hs.len() ==> hs[name_at(hs, name, i)].0 == name,
        forall|j: int| i <= j < name_at(hs, name, i) ==> (#[trigger] hs[j]).0 != name,
    decreases hs.len() - i,
{
    if i < hs.len() && hs[i].0 != name {
        lemma_name_at(hs, name, i + 1);
    }
}

/// The headers of any lines bear distinct names.
pub proof fn lemma_headers_distinct(lines: Seq<Seq<char>>, n: nat)
    ensures
        distinct_names(headers_of(lines, n)),
    decreases n,
{
    if !(n <= 1 || n > lines.len()) {
        lemma_headers_distinct(lines, (n - 1) as nat);
        match header_of(lines[n - 1]) {
            Some((k, v)) => {
                lemma_set_header_distinct(headers_of(lines, (n - 1) as nat), k, v);
            },
            None => {},
        }
    }
}

/// Sets a header, replacing the value where the name is already there.
pub fn insert_header(headers: &mut Vec<Header>, name: String, value: String)
    ensures
        headers_model(final(headers)@) == set_header(headers_model(old(headers)@), name@, value@),
{
    let ghost before = headers_model(headers@);
    let n: usize = headers.len();
    let mut p: usize = 0;
    while p < n && headers[p].name != name
        invariant
            p <= n == headers@.len(),
            before == headers_model(headers@),
            name_at(before, name@, 0) == name_at(before, name@, p as int),
        decreases n - p,
    {
        p += 1;
    }
    let ghost k = name@;
    let ghost v = value@;
    if p < n {
        headers.remove(p);
        headers.insert(p, Header { name, value });
        assert(headers_model(headers@) =~= before.update(p as int, (k, v)));
    } else {
        headers.push(Header { name, value });
        assert(headers_model(headers@) =~= before.push((k, v)));
    }
}

impl HttpRequest {
    /// The value of the header of this name, if the request has one.
    pub fn header(&self, name: &str) -> (r: Option<&String>)
        ensures
            ({
                let hs = headers_model(self.headers@);
                let p = name_at(hs, name@, 0);
                match r {
                    Some(v) => 0 <= p < hs.len() && v@ == hs[p].1,
                    None => p >= hs.len(),
                }
            }),
    {
        let ghost hs = headers_model(self.headers@);
        let n: usize = self.headers.len();
        let mut p: usize = 0;
        while p < n && !text_is(self.headers[p].name.as_str(), name)
            invariant
                p <= n == self.headers@.len(),
                hs == headers_model(self.headers@),
                name_at(hs, name@, 0) == name_at(hs, name@, p as int),
            decreases n - p,
        {
            p += 1;
        }
        if p < n {
            Some(&self.headers[p].value)
        } else {
            None
        }
    }
}

/// Passes over the white space that starts at `from`.
pub(crate) fn skip_spaces(text: &str, from: usize) -> (r: usize)
    requires
        from <= text@.len(),
    ensures
        r == first_kept(text@, from as int),
        from <= r <= text@.len(),
{
    let n: usize = text.unicode_len();
    let mut i: usize = from;
    while i < n && char_is_space(text.get_char(i))
        invariant
            from <= i <= n == text@.len(),
            first_kept(text@, from as int) == first_kept(text@, i as int),
        decreases n - i,
    {
        i += 1;
    }
    i
}

/// Passes over the word that starts at `from`.
pub(crate) fn skip_token(text: &str, from: usize) -> (r: usize)
    requires
        from <= text@.len(),
    ensures
        r == token_end(text@, from as int),
        from <= r <= text@.len(),
{
    let n: usize = text.unicode_len();
    let mut i: usize = from;
    while i < n && !char_is_space(text.get_char(i))
        invariant
            from <= i <= n == text@.len(),
            token_end(text@, from as int) == token_end(text@, i as int),
        decreases n - i,
    {
        i += 1;
    }
    i
}

/// Reads method and target off a request line.
pub fn read_request_line(line: &str) -> (r: Option<(String, String)>)
    ensures
        match r {
            Some((method, uri)) => request_line(line@) == Some((method@, uri@)),
            None => request_line(line@) is None,
        },
{
    let n: usize = line.unicode_len();
    let a = skip_spaces(line, 0);
    let b = skip_token(line, a);
    let c = skip_spaces(line, b);
    let d = skip_token(line, c);
    if a >= n {
        return None;
    }
    let method = line.substring_char(a, b);
    if !(text_is(method, "GET") || text_is(method, "POST") || text_is(method, "PATCH") || text_is(
        method,
        "DELETE",
    )) {
        return None;
    }
    if c >= n {
        return None;
    }
    Some((String::from_str(method), String::from_str(line.substring_char(c, d))))
}

/// What a rejected request is answered with.
pub open spec fn is_parse_error(e: HttpResponse) -> bool {
    e.code is BadRequest && (e.body matches Body::Json(v) && v.model() == JsonModel::Text(
        "could not parse request"@,
    ))
}

/// Decodes a framed message. It is rejected exactly where there is no request
/// line, or that line names no accepted method or no target.
pub fn parse_request(http_request_lines: Vec<String>, body: String) -> (r: Result<
    HttpRequest,
    HttpResponse,
>)
    ensures
        ({
            let texts = line_texts(http_request_lines@);
            match r {
                Ok(req) => texts.len() > 0 && request_line(texts[0]) == Some(
                    (req.method@, req.uri@),
                ) && headers_model(req.headers@) == headers_of(texts, texts.len())
                    && distinct_names(headers_model(req.headers@)) && model_of(req.body)
                    == json_of(body@),
                Err(e) => (texts.len() == 0 || request_line(texts[0]) is None) && is_parse_error(
                    e,
                ),
            }
        }),
{
    let ghost texts = line_texts(http_request_lines@);
    if http_request_lines.len() == 0 {
        return Err(http_error(HttpCode::BadRequest, "could not parse request"));
    }
    let (method, uri) = match read_request_line(http_request_lines[0].as_str()) {
        Some(pair) => pair,
        None => {
            return Err(http_error(HttpCode::BadRequest, "could not parse request"));
        },
    };
    let mut headers: Vec<Header> = Vec::new();
    let mut k: usize = 1;
    assert(headers_model(headers@) =~= headers_of(texts, 1));
    while k < http_request_lines.len()
        invariant
            1 <= k <= http_request_lines@.len(),
            texts == line_texts(http_request_lines@),
            headers_model(headers@) == headers_of(texts, k as nat),
        decreases http_request_lines@.len() - k,
    {
        let line = http_request_lines[k].as_str();
        assert(line@ == texts[k as int]);
        assert(headers_model(headers@) == headers_of(texts, (k + 1 - 1) as nat));
        let c = find_char(line, ':');
        let m: usize = line.unicode_len();
        if c < m {
            let name = String::from_str(trim(line.substring_char(0, c)));
            let value = String::from_str(trim(line.substring_char(c + 1, m)));
            insert_header(&mut headers, name, value);
        }
        k += 1;
    }
    proof {
        lemma_headers_distinct(texts, texts.len());
    }
    let parsed = parse_json(body.as_str());
    Ok(HttpRequest { method, uri, headers, body: parsed })
}

} // verus!
