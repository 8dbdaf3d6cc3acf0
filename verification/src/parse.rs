//! The recursive-descent parser: dispatch on the surface of the trimmed text,
//! containers built from the parts that parse.
use vstd::prelude::*;
use vstd::string::*;
use crate::json::{items_model, members_model, put, JsonModel, JsonValue, Members};
use crate::order::{lemma_value_well_formed, well_formed};
use crate::scan::{check_decimal, is_decimal, parts_are, split_json, split_top};
use crate::text::{
    find_char, index_from, int_of_text, parse_int, strip_quotes, trim, trimmed, without_quotes,
};

verus! {

/// The text starts with `open` and ends with `close`.
pub open spec fn wrapped(t: Seq<char>, open: char, close: char) -> bool {
    t.len() >= 1 && t[0] == open && t.last() == close
}

/// The value that a trimmed text denotes, if any.
pub open spec fn value_of(t: Seq<char>) -> Option<JsonModel>
    decreases t.len(), 0nat, 0nat,
{
    if t.len() == 0 {
        None
    } else if t.len() >= 2 && wrapped(t, '{', '}') {
        match split_top(t.subrange(1, t.len() - 1)) {
            Some(parts) => Some(
                JsonModel::Object(members_of(parts, parts.len(), (t.len() - 2) as nat)),
            ),
            None => None,
        }
    } else if t.len() >= 2 && wrapped(t, '[', ']') {
        match split_top(t.subrange(1, t.len() - 1)) {
            Some(parts) => Some(
                JsonModel::Array(items_of(parts, parts.len(), (t.len() - 2) as nat)),
            ),
            None => None,
        }
    } else if wrapped(t, '"', '"') {
        Some(JsonModel::Text(without_quotes(t)))
    } else if int_of_text(t) is Some {
        Some(JsonModel::Int(int_of_text(t).unwrap()))
    } else if is_decimal(t) {
        Some(JsonModel::Float(t))
    } else if t == "null"@ {
        Some(JsonModel::Null)
    } else if t == "true"@ {
        Some(JsonModel::Bool(true))
    } else if t == "false"@ {
        Some(JsonModel::Bool(false))
    } else {
        None
    }
}

/// The value of one part of a container: the part is trimmed first. `bound`
/// is the length of the container's interior, which no part exceeds.
pub open spec fn element(part: Seq<char>, bound: nat) -> Option<JsonModel>
    decreases bound, 0nat, 1nat,
{
    let t = trimmed(part);
    if t.len() <= bound {
        value_of(t)
    } else {
        None
    }
}

/// The values of the first `n` parts, in order, without the parts that
/// denote none.
pub open spec fn items_of(parts: Seq<Seq<char>>, n: nat, bound: nat) -> Seq<JsonModel>
    decreases bound, 1nat, n,
{
    if n == 0 || n > parts.len() {
        Seq::empty()
    } else {
        match element(parts[n - 1], bound) {
            Some(v) => items_of(parts, (n - 1) as nat, bound).push(v),
            None => items_of(parts, (n - 1) as nat, bound),
        }
    }
}

/// Key and value of one part of an object: divided at the first colon, the
/// key trimmed and freed of quotes. Nothing without a colon or a value.
pub open spec fn member_of(part: Seq<char>, bound: nat) -> Option<(Seq<char>, JsonModel)>
    decreases bound, 0nat, 2nat,
{
    let c = index_from(part, ':', 0);
    if 0 <= c < part.len() {
        match element(part.subrange(c + 1, part.len() as int), bound) {
            Some(v) => Some((without_quotes(trimmed(part.subrange(0, c))), v)),
            None => None,
        }
    } else {
        None
    }
}

/// The members that the first `n` parts give, a later one replacing an
/// earlier one of the same key.
pub open spec fn members_of(parts: Seq<Seq<char>>, n: nat, bound: nat) -> Seq<
    (Seq<char>, JsonModel),
>
    decreases bound, 1nat, n,
{
    if n == 0 || n > parts.len() {
        Seq::empty()
    } else {
        match member_of(parts[n - 1], bound) {
            Some((k, v)) => put(members_of(parts, (n - 1) as nat, bound), k, v),
            None => members_of(parts, (n - 1) as nat, bound),
        }
    }
}

/// The value that a text denotes: that of the text without the white space
/// around it.
pub open spec fn json_of(s: Seq<char>) -> Option<JsonModel> {
    value_of(trimmed(s))
}

/// The model of an optional value.
pub open spec fn model_of(r: Option<JsonValue>) -> Option<JsonModel> {
    match r {
        Some(v) => Some(v.model()),
        None => None,
    }
}

/// Whether two texts hold the same characters.
pub fn text_is(a: &str, b: &str) -> (r: bool)
    ensures
        r == (a@ == b@),
{
    let n: usize = a.unicode_len();
    if n != b.unicode_len() {
        return false;
    }
    let mut i: usize = 0;
    while i < n
        invariant
            i <= n == a@.len(),
            n == b@.len(),
            forall|j: int| 0 <= j < i ==> a@[j] == b@[j],
        decreases n - i,
    {
        if a.get_char(i) != b.get_char(i) {
            return false;
        }
        i += 1;
    }
    assert(a@ =~= b@);
    true
}

/// Whether the text starts with `open` and ends with `close`.
pub fn is_wrapped(t: &str, open: char, close: char) -> (r: bool)
    ensures
        r == wrapped(t@, open, close),
{
    let n: usize = t.unicode_len();
    n >= 1 && t.get_char(0) == open && t.get_char(n - 1) == close
}

/// Parses a text into a value; `None` where it denotes none. Every object
/// in the value has its keys ascending.
pub fn parse_json(json_str: &str) -> (r: Option<JsonValue>)
    ensures
        model_of(r) == json_of(json_str@),
        r matches Some(v) ==> well_formed(v.model()),
{
    proof {
        lemma_value_well_formed(trimmed(json_str@));
    }
    parse_value(trim(json_str))
}

/// Parses a text that has no white space around it.
pub fn parse_value(t: &str) -> (r: Option<JsonValue>)
    ensures
        model_of(r) == value_of(t@),
    decreases t@.len(), 1nat,
{
    let n: usize = t.unicode_len();
    if n == 0 {
        return None;
    }
    if n >= 2 && is_wrapped(t, '{', '}') {
        return parse_object(t);
    }
    if n >= 2 && is_wrapped(t, '[', ']') {
        return parse_array(t);
    }
    if is_wrapped(t, '"', '"') {
        return Some(JsonValue::String(strip_quotes(t)));
    }
    match parse_int(t) {
        Some(v) => {
            return Some(JsonValue::Int(v));
        },
        None => {},
    }
    if check_decimal(t) {
        Some(JsonValue::Float(String::from_str(t)))
    } else if text_is(t, "null") {
        Some(JsonValue::Null)
    } else if text_is(t, "true") {
        Some(JsonValue::Bool(true))
    } else if text_is(t, "false") {
        Some(JsonValue::Bool(false))
    } else {
        None
    }
}

/// Parses `{ .. }`: the interior is split at its top-level commas, and each
/// part that has a colon and a value becomes a member.
fn parse_object(object_str: &str) -> (r: Option<JsonValue>)
    requires
        object_str@.len() >= 2,
        wrapped(object_str@, '{', '}'),
    ensures
        model_of(r) == value_of(object_str@),
    decreases object_str@.len(), 0nat,
{
    let n: usize = object_str.unicode_len();
    let inner = object_str.substring_char(1, n - 1);
    let lines = match split_json(inner) {
        Some(v) => v,
        None => {
            return None;
        },
    };
    let ghost parts = split_top(inner@).unwrap();
    let ghost bound = (n - 2) as nat;
    let mut members = Members::new();
    let mut k: usize = 0;
    assert(members_model(members@) =~= members_of(parts, 0, bound));
    while k < lines.len()
        invariant
            k <= lines@.len(),
            n == object_str@.len(),
            bound == n - 2,
            inner@.len() == bound,
            parts_are(lines@, parts),
            forall|j: int| 0 <= j < lines@.len() ==> (#[trigger] lines@[j])@.len() <= bound,
            members_model(members@) == members_of(parts, k as nat, bound),
        decreases lines@.len() - k,
    {
        let line = lines[k];
        assert(line@ == parts[k as int]);
        let c = find_char(line, ':');
        let m: usize = line.unicode_len();
        let ghost before = members_model(members@);
        proof {
            assert(before == members_of(parts, (k + 1 - 1) as nat, bound));
        }
        if c < m {
            let rest = trim(line.substring_char(c + 1, m));
            let found = parse_value(rest);
            proof {
                assert(rest@.len() <= bound);
                assert(element(line@.subrange(c + 1, m as int), bound) == model_of(found));
            }
            match found {
                Some(v) => {
                    let key = strip_quotes(trim(line.substring_char(0, c)));
                    assert(member_of(parts[k as int], bound) == Some((key@, v.model())));
                    members = members.insert(key, v);
                },
                None => {
                    assert(member_of(parts[k as int], bound) is None);
                },
            }
        } else {
            assert(member_of(parts[k as int], bound) is None);
        }
        k += 1;
    }
    Some(JsonValue::Object(members))
}

/// Parses `[ .. ]`: the interior is split at its top-level commas, and each
/// part that denotes a value becomes an item.
fn parse_array(array_str: &str) -> (r: Option<JsonValue>)
    requires
        array_str@.len() >= 2,
        wrapped(array_str@, '[', ']'),
    ensures
        model_of(r) == value_of(array_str@),
    decreases array_str@.len(), 0nat,
{
    let n: usize = array_str.unicode_len();
    let inner = array_str.substring_char(1, n - 1);
    let lines = match split_json(inner) {
        Some(v) => v,
        None => {
            return None;
        },
    };
    let ghost parts = split_top(inner@).unwrap();
    let ghost bound = (n - 2) as nat;
    let mut items: Vec<JsonValue> = Vec::new();
    let mut k: usize = 0;
    assert(items_model(items@) =~= items_of(parts, 0, bound));
    while k < lines.len()
        invariant
            k <= lines@.len(),
            n == array_str@.len(),
            bound == n - 2,
            inner@.len() == bound,
            parts_are(lines@, parts),
            forall|j: int| 0 <= j < lines@.len() ==> (#[trigger] lines@[j])@.len() <= bound,
            items_model(items@) == items_of(parts, k as nat, bound),
        decreases lines@.len() - k,
    {
        let line = lines[k];
        assert(line@ == parts[k as int]);
        let ghost before = items_model(items@);
        let found = parse_value(trim(line));
        proof {
            assert(trimmed(line@).len() <= bound);
            assert(element(parts[k as int], bound) == model_of(found));
            assert(before == items_of(parts, (k + 1 - 1) as nat, bound));
        }
        match found {
            Some(v) => {
                let ghost vm = v.model();
                items.push(v);
                assert(items_model(items@) =~= before.push(vm));
            },
            None => {},
        }
        k += 1;
    }
    Some(JsonValue::Array(items))
}

} // verus!
