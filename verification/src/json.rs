//! The values of the JSON-like language, their mathematical content, and the
//! order in which an object keeps its members.
use vstd::prelude::*;
use vstd::string::*;
use crate::order::lemma_put_ascending;

verus! {

/// One entry of an object.
#[derive(Debug)]
pub struct Member {
    pub key: String,
    pub value: JsonValue,
}

/// The members of an object, kept by ascending key, each key once.
#[derive(Debug)]
pub struct Members {
    entries: Vec<Member>,
}

/// A value of the language. A `Float` keeps the decimal literal as written.
#[derive(Debug)]
pub enum JsonValue {
    Null,
    Bool(bool),
    Float(String),
    Int(i32),
    String(String),
    Array(Vec<JsonValue>),
    Object(Members),
}

/// The mathematical content of a value.
pub ghost enum JsonModel {
    Null,
    Bool(bool),
    Float(Seq<char>),
    Int(i32),
    Text(Seq<char>),
    Array(Seq<JsonModel>),
    Object(Seq<(Seq<char>, JsonModel)>),
}

/// `a` comes before `b` in code-point order, both read from index `i`.
pub open spec fn lex_from(a: Seq<char>, b: Seq<char>, i: int) -> bool
    decreases a.len() - i,
{
    if i < 0 || i >= b.len() {
        false
    } else if i >= a.len() {
        true
    } else if a[i] != b[i] {
        a[i] < b[i]
    } else {
        lex_from(a, b, i + 1)
    }
}

/// Lexicographic order on keys.
pub open spec fn lex_lt(a: Seq<char>, b: Seq<char>) -> bool {
    lex_from(a, b, 0)
}

/// Whether key `a` comes before key `b`.
pub fn key_lt(a: &str, b: &str) -> (r: bool)
    ensures
        r == lex_lt(a@, b@),
{
    let la: usize = a.unicode_len();
    let lb: usize = b.unicode_len();
    let mut i: usize = 0;
    loop
        invariant
            i <= la == a@.len(),
            i <= lb == b@.len(),
            lex_lt(a@, b@) == lex_from(a@, b@, i as int),
        decreases la - i,
    {
        if i >= lb {
            return false;
        }
        if i >= la {
            return true;
        }
        let x = a.get_char(i);
        let y = b.get_char(i);
        if x != y {
            return x < y;
        }
        i += 1;
    }
}

/// Keys strictly ascending: sorted, and none twice.
pub open spec fn ascending(entries: Seq<(Seq<char>, JsonModel)>) -> bool {
    forall|i: int, j: int|
        0 <= i < j < entries.len() ==> lex_lt(#[trigger] entries[i].0, #[trigger] entries[j].0)
}

/// First index at or after `i` whose key does not come before `k`.
pub open spec fn slot(entries: Seq<(Seq<char>, JsonModel)>, k: Seq<char>, i: int) -> int
    decreases entries.len() - i,
{
    if 0 <= i < entries.len() && lex_lt(entries[i].0, k) {
        slot(entries, k, i + 1)
    } else {
        i
    }
}

/// The entries with `k` bound to `v`: in place of an entry of that key, or
/// else at the key's place in the order.
pub open spec fn put(entries: Seq<(Seq<char>, JsonModel)>, k: Seq<char>, v: JsonModel) -> Seq<
    (Seq<char>, JsonModel),
> {
    let p = slot(entries, k, 0);
    if p < entries.len() && entries[p].0 == k {
        entries.update(p, (k, v))
    } else {
        entries.insert(p, (k, v))
    }
}

/// The members as pairs of key and content.
pub open spec fn members_model(ms: Seq<Member>) -> Seq<(Seq<char>, JsonModel)>
    decreases ms,
{
    Seq::new(ms.len(), |i: int| (ms[i].key@, if 0 <= i < ms.len() { ms[i].value.model() } else { JsonModel::Null }))
}

/// The contents of the items.
pub open spec fn items_model(items: Seq<JsonValue>) -> Seq<JsonModel>
    decreases items,
{
    Seq::new(items.len(), |i: int| if 0 <= i < items.len() { items[i].model() } else { JsonModel::Null })
}

impl Members {
    #[verifier::type_invariant]
    spec fn ordered(self) -> bool {
        ascending(members_model(self.entries@))
    }

    /// The members in their order.
    pub closed spec fn view(&self) -> Seq<Member> {
        self.entries@
    }

    /// No members.
    pub fn new() -> (r: Members)
        ensures
            r@ == Seq::<Member>::empty(),
    {
        let entries: Vec<Member> = Vec::new();
        assert(members_model(entries@) =~= Seq::empty());
        Members { entries }
    }

    /// The number of members, whose keys ascend.
    pub fn len(&self) -> (n: usize)
        ensures
            n == self@.len(),
            ascending(members_model(self@)),
    {
        proof {
            use_type_invariant(self);
        }
        self.entries.len()
    }

    /// The member at a position; none past the last.
    pub fn get(&self, i: usize) -> (r: Option<&Member>)
        ensures
            match r {
                Some(m) => i < self@.len() && *m == self@[i as int],
                None => i >= self@.len(),
            },
    {
        if i < self.entries.len() {
            Some(&self.entries[i])
        } else {
            None
        }
    }

    /// The member at a position within the members.
    pub(crate) fn at(&self, i: usize) -> (m: &Member)
        requires
            i < self@.len(),
        ensures
            *m == self@[i as int],
    {
        &self.entries[i]
    }

    /// The members with `key` bound to `value`.
    pub fn insert(self, key: String, value: JsonValue) -> (r: Members)
        ensures
            members_model(r@) == put(members_model(self@), key@, value.model()),
    {
        proof {
            use_type_invariant(&self);
        }
        let mut entries = self.entries;
        insert_member(&mut entries, key, value);
        Members { entries }
    }

    /// A member is smaller than the members it stands among.
    pub proof fn lemma_member_smaller(&self, i: int)
        requires
            0 <= i < self@.len(),
        ensures
            decreases_to!(*self => self@[i]),
    {
    }
}

impl JsonValue {
    /// The content of the value.
    pub open spec fn model(&self) -> JsonModel
        decreases self,
    {
        match self {
            JsonValue::Null => JsonModel::Null,
            JsonValue::Bool(b) => JsonModel::Bool(*b),
            JsonValue::Float(t) => JsonModel::Float(t@),
            JsonValue::Int(v) => JsonModel::Int(*v),
            JsonValue::String(t) => JsonModel::Text(t@),
            JsonValue::Array(items) => JsonModel::Array(items_model(items@)),
            JsonValue::Object(ms) => JsonModel::Object(members_model(ms@)),
        }
    }
}

/// The models of a list of pairs.
pub open spec fn pairs_model(pairs: Seq<(String, JsonValue)>) -> Seq<(Seq<char>, JsonModel)> {
    Seq::new(pairs.len(), |i: int| (pairs[i].0@, pairs[i].1.model()))
}

/// The entries that the first `n` pairs give, put one after the other.
pub open spec fn entries_of(pairs: Seq<(Seq<char>, JsonModel)>, n: nat) -> Seq<
    (Seq<char>, JsonModel),
>
    decreases n,
{
    if n == 0 || n > pairs.len() {
        Seq::empty()
    } else {
        put(entries_of(pairs, (n - 1) as nat), pairs[n - 1].0, pairs[n - 1].1)
    }
}

impl JsonValue {
    /// An object of the given pairs; of two pairs with one key the later stays.
    pub fn object(pairs: Vec<(String, JsonValue)>) -> (r: JsonValue)
        ensures
            r.model() == JsonModel::Object(
                entries_of(pairs_model(pairs@), pairs@.len()),
            ),
    {
        let ghost all = pairs_model(pairs@);
        let mut pairs = pairs;
        let mut members = Members::new();
        let ghost mut done: nat = 0;
        assert(members_model(members@) =~= entries_of(all, 0));
        assert(pairs_model(pairs@) =~= all.skip(0));
        while pairs.len() > 0
            invariant
                done + pairs@.len() == all.len(),
                pairs_model(pairs@) == all.skip(done as int),
                members_model(members@) == entries_of(all, done),
            decreases pairs@.len(),
        {
            let ghost rest = pairs_model(pairs@);
            let (key, value) = pairs.remove(0);
            proof {
                assert(rest[0] == (key@, value.model()));
                assert(all.skip(done as int)[0] == all[done as int]);
                assert forall|i: int| 0 <= i < pairs@.len() implies pairs_model(pairs@)[i]
                    == all.skip(done as int + 1)[i] by {
                    assert(pairs_model(pairs@)[i] == rest[i + 1]);
                }
                assert(pairs_model(pairs@) =~= all.skip(done as int + 1));
                assert(members_model(members@) == entries_of(all, (done + 1 - 1) as nat));
                done = done + 1;
            }
            members = members.insert(key, value);
        }
        JsonValue::Object(members)
    }
}

/// Binds `key` to `value` among members kept by ascending key.
fn insert_member(members: &mut Vec<Member>, key: String, value: JsonValue)
    ensures
        members_model(final(members)@) == put(members_model(old(members)@), key@, value.model()),
        ascending(members_model(old(members)@)) ==> ascending(members_model(final(members)@)),
{
    let ghost before = members_model(members@);
    proof {
        if ascending(before) {
            lemma_put_ascending(before, key@, value.model());
        }
    }
    let n: usize = members.len();
    let mut p: usize = 0;
    while p < n && key_lt(members[p].key.as_str(), key.as_str())
        invariant
            p <= n == members@.len(),
            before == members_model(members@),
            slot(before, key@, 0) == slot(before, key@, p as int),
        decreases n - p,
    {
        p += 1;
    }
    let ghost k = key@;
    let ghost v = value.model();
    if p < n && members[p].key == key {
        members.remove(p);
        members.insert(p, Member { key, value });
        assert(members_model(members@) =~= before.update(p as int, (k, v)));
    } else {
        members.insert(p, Member { key, value });
        assert(members_model(members@) =~= before.insert(p as int, (k, v)));
    }
}

} // verus!
