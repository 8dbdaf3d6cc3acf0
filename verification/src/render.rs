//! Rendering of values as text, and equality of values.
use vstd::prelude::*;
use vstd::string::*;
use vstd::std_specs::cmp::PartialEqSpecImpl;
use crate::json::{ascending, items_model, members_model, JsonModel, JsonValue};
use crate::order::well_formed;
use crate::text::push_char;

verus! {

/// The character of one decimal digit.
pub open spec fn digit_char(d: nat) -> char {
    ((48 + d % 10) as u8) as char
}

/// A natural number in decimal, without leading zeros.
pub open spec fn nat_text(n: nat) -> Seq<char>
    decreases n,
{
    if n < 10 {
        seq![digit_char(n)]
    } else {
        nat_text(n / 10).push(digit_char(n % 10))
    }
}

/// An integer in decimal, with `-` before a negative one.
pub open spec fn decimal_text(v: int) -> Seq<char> {
    if v < 0 {
        seq!['-'] + nat_text((-v) as nat)
    } else {
        nat_text(v as nat)
    }
}

/// The character of a digit.
pub(crate) fn digit_of(d: u32) -> (c: char)
    requires
        d < 10,
    ensures
        c == digit_char(d as nat),
{
    ((48 + d) as u8) as char
}

/// Writes an integer in decimal.
pub fn int_text(v: i32) -> (r: String)
    ensures
        r@ == decimal_text(v as int),
{
    let mut out = String::new();
    let magnitude: u32 = if v < 0 {
        push_char(&mut out, '-');
        (-(v as i64)) as u32
    } else {
        v as u32
    };
    let ghost sign = out@;
    let mut digits: Vec<char> = Vec::new();
    let mut m: u32 = magnitude;
    assert(nat_text(m as nat) + digits@.reverse() =~= nat_text(m as nat));
    while m >= 10
        invariant
            nat_text(magnitude as nat) == nat_text(m as nat) + digits@.reverse(),
        decreases m,
    {
        let d = digit_of(m % 10);
        proof {
            let low = nat_text((m / 10) as nat);
            assert(nat_text(m as nat) == low.push(d));
            assert(digits@.push(d).reverse() =~= seq![d] + digits@.reverse());
            assert(low.push(d) + digits@.reverse() =~= low + (seq![d] + digits@.reverse()));
        }
        digits.push(d);
        m = m / 10;
    }
    push_char(&mut out, digit_of(m));
    let ghost head = out@;
    let ghost tail = digits@.reverse();
    assert(head =~= sign + nat_text(m as nat));
    let mut k: usize = digits.len();
    assert(head + tail.take(0) =~= head);
    while k > 0
        invariant
            k <= digits@.len(),
            tail == digits@.reverse(),
            out@ == head + tail.take(digits@.len() - k),
        decreases k,
    {
        k -= 1;
        push_char(&mut out, digits[k]);
        proof {
            let j = digits@.len() - k - 1;
            assert(tail[j] == digits@[k as int]);
            assert(tail.take(j + 1) =~= tail.take(j).push(tail[j]));
            assert((head + tail.take(j)).push(tail[j]) =~= head + tail.take(j + 1));
        }
    }
    proof {
        assert(tail.take(digits@.len() as int) =~= tail);
        assert(out@ =~= sign + (nat_text(m as nat) + tail));
        if v < 0 {
            assert(sign =~= seq!['-']);
        } else {
            assert(sign + nat_text(magnitude as nat) =~= nat_text(magnitude as nat));
        }
    }
    out
}

/// The text of a value: literals as they are written, a string between
/// quotes, the items of an array joined by `", "` between brackets, the
/// members of an object one per line in the order of the model.
pub open spec fn render_text(m: JsonModel) -> Seq<char>
    decreases m, 0nat,
{
    match m {
        JsonModel::Null => "null"@,
        JsonModel::Bool(b) => if b {
            "true"@
        } else {
            "false"@
        },
        JsonModel::Float(t) => t,
        JsonModel::Int(v) => decimal_text(v as int),
        JsonModel::Text(t) => "\""@ + t + "\""@,
        JsonModel::Array(items) => "["@ + joined_items(items, items.len()) + "]"@,
        JsonModel::Object(ms) => "{\r\n"@ + joined_members(ms, ms.len()) + "\r\n}"@,
    }
}

/// The first `n` items, rendered and joined by `", "`.
pub open spec fn joined_items(items: Seq<JsonModel>, n: nat) -> Seq<char>
    decreases items, n,
{
    if n == 0 || n > items.len() {
        Seq::empty()
    } else if n == 1 {
        render_text(items[0])
    } else {
        joined_items(items, (n - 1) as nat) + ", "@ + render_text(items[n - 1])
    }
}

/// One member as `"key": value`.
pub open spec fn member_text(k: Seq<char>, v: Seq<char>) -> Seq<char> {
    "\""@ + k + "\": "@ + v
}

/// The first `n` members, rendered and joined by a comma and a line break.
pub open spec fn joined_members(ms: Seq<(Seq<char>, JsonModel)>, n: nat) -> Seq<char>
    decreases ms, n,
{
    if n == 0 || n > ms.len() {
        Seq::empty()
    } else if n == 1 {
        member_text(ms[0].0, render_text(ms[0].1))
    } else {
        joined_members(ms, (n - 1) as nat) + ",\r\n"@ + member_text(
            ms[n - 1].0,
            render_text(ms[n - 1].1),
        )
    }
}

impl JsonValue {
    /// Renders the value as text. The members of every object come by
    /// ascending key, since no value holds them otherwise.
    pub fn to_string(&self) -> (r: String)
        ensures
            r@ == render_text(self.model()),
            well_formed(self.model()),
        decreases self,
    {
        match self {
            JsonValue::Null => String::from_str("null"),
            JsonValue::Bool(true) => String::from_str("true"),
            JsonValue::Bool(false) => String::from_str("false"),
            JsonValue::Float(t) => t.clone(),
            JsonValue::Int(v) => int_text(*v),
            JsonValue::String(t) => {
                let mut out = String::from_str("\"");
                out.append(t.as_str());
                out.append("\"");
                out
            },
            JsonValue::Array(items) => {
                let ghost ms = items_model(items@);
                let mut body = String::new();
                let mut i: usize = 0;
                assert(body@ =~= joined_items(ms, 0));
                while i < items.len()
                    invariant
                        i <= items@.len(),
                        *self == JsonValue::Array(*items),
                        ms == items_model(items@),
                        body@ == joined_items(ms, i as nat),
                        forall|j: int| 0 <= j < i ==> well_formed(#[trigger] ms[j]),
                    decreases items@.len() - i,
                {
                    let ghost before = body@;
                    if i > 0 {
                        body.append(", ");
                    }
                    proof {
                        assert(*items == self->Array_0);
                    }
                    let one = items[i].to_string();
                    body.append(one.as_str());
                    proof {
                        assert(ms[i as int] == items@[i as int].model());
                        if i == 0 {
                            assert(body@ =~= one@);
                        } else {
                            assert(before == joined_items(ms, (i + 1 - 1) as nat));
                        }
                    }
                    i += 1;
                }
                assert(JsonModel::Array(ms)->Array_0 == ms);
                let mut out = String::from_str("[");
                out.append(body.as_str());
                out.append("]");
                out
            },
            JsonValue::Object(members) => {
                let ghost ms = members_model(members@);
                let mut body = String::new();
                let mut i: usize = 0;
                assert(body@ =~= joined_members(ms, 0));
                while i < members.len()
                    invariant
                        i <= members@.len(),
                        *self == JsonValue::Object(*members),
                        ms == members_model(members@),
                        body@ == joined_members(ms, i as nat),
                        forall|j: int| 0 <= j < i ==> well_formed((#[trigger] ms[j]).1),
                    decreases members@.len() - i,
                {
                    let ghost before = body@;
                    let member = members.at(i);
                    if i > 0 {
                        body.append(",\r\n");
                    }
                    let mut one = String::from_str("\"");
                    one.append(member.key.as_str());
                    one.append("\": ");
                    proof {
                        members.lemma_member_smaller(i as int);
                        assert(*members == self->Object_0);
                    }
                    let value = member.value.to_string();
                    one.append(value.as_str());
                    body.append(one.as_str());
                    proof {
                        assert(ms[i as int] == (members@[i as int].key@, members@[i as int].value.model()));
                        assert(one@ == member_text(ms[i as int].0, render_text(ms[i as int].1)));
                        if i == 0 {
                            assert(body@ =~= one@);
                        } else {
                            assert(before == joined_members(ms, (i + 1 - 1) as nat));
                        }
                    }
                    i += 1;
                }
                assert(JsonModel::Object(ms)->Object_0 == ms);
                let mut out = String::from_str("{\r\n");
                out.append(body.as_str());
                out.append("\r\n}");
                out
            },
        }
    }

    /// Whether two values have the same content: the same variant, and by
    /// variant the same literal, the same items in the same order, or the same
    /// members.
    pub fn same(&self, other: &JsonValue) -> (r: bool)
        ensures
            r == (self.model() == other.model()),
        decreases self,
    {
        match (self, other) {
            (JsonValue::Null, JsonValue::Null) => true,
            (JsonValue::Bool(l), JsonValue::Bool(r)) => *l == *r,
            (JsonValue::Int(l), JsonValue::Int(r)) => *l == *r,
            (JsonValue::Float(l), JsonValue::Float(r)) => *l == *r,
            (JsonValue::String(l), JsonValue::String(r)) => *l == *r,
            (JsonValue::Array(l), JsonValue::Array(r)) => {
                if l.len() != r.len() {
                    assert(items_model(l@).len() != items_model(r@).len());
                    return false;
                }
                let mut i: usize = 0;
                while i < l.len()
                    invariant
                        i <= l@.len(),
                        l@.len() == r@.len(),
                        *self == JsonValue::Array(*l),
                        *other == JsonValue::Array(*r),
                        forall|j: int| 0 <= j < i ==> l@[j].model() == r@[j].model(),
                    decreases l@.len() - i,
                {
                    if !l[i].same(&r[i]) {
                        assert(items_model(l@)[i as int] != items_model(r@)[i as int]);
                        return false;
                    }
                    i += 1;
                }
                assert(items_model(l@) =~= items_model(r@));
                true
            },
            (JsonValue::Object(l), JsonValue::Object(r)) => {
                if l.len() != r.len() {
                    assert(members_model(l@).len() != members_model(r@).len());
                    return false;
                }
                let mut i: usize = 0;
                while i < l.len()
                    invariant
                        i <= l@.len(),
                        l@.len() == r@.len(),
                        *self == JsonValue::Object(*l),
                        *other == JsonValue::Object(*r),
                        forall|j: int|
                            0 <= j < i ==> l@[j].key@ == r@[j].key@ && l@[j].value.model()
                                == r@[j].value.model(),
                    decreases l@.len() - i,
                {
                    let a = l.at(i);
                    let b = r.at(i);
                    proof {
                        l.lemma_member_smaller(i as int);
                        assert(*l == self->Object_0);
                    }
                    if !(a.key == b.key && a.value.same(&b.value)) {
                        assert(members_model(l@)[i as int] != members_model(r@)[i as int]);
                        return false;
                    }
                    i += 1;
                }
                assert(members_model(l@) =~= members_model(r@));
                true
            },
            _ => false,
        }
    }
}

impl PartialEq for JsonValue {
    fn eq(&self, other: &JsonValue) -> (r: bool) {
        self.same(other)
    }
}

impl PartialEqSpecImpl for JsonValue {
    open spec fn obeys_eq_spec() -> bool {
        true
    }

    open spec fn eq_spec(&self, other: &JsonValue) -> bool {
        self.model() == other.model()
    }
}

} // verus!
