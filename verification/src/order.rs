//! Facts on the order of keys: it is a strict total order, objects stay in
//! that order, and the order of insertion leaves no trace.
use vstd::prelude::*;
use crate::json::{ascending, entries_of, lex_from, lex_lt, put, slot, JsonModel};
use crate::parse::{element, items_of, member_of, members_of, value_of};
use crate::render::render_text;

verus! {

/// No key comes before itself.
pub proof fn lemma_lex_irreflexive(a: Seq<char>, i: int)
    requires
        0 <= i,
    ensures
        !lex_from(a, a, i),
    decreases a.len() - i,
{
    if i < a.len() {
        lemma_lex_irreflexive(a, i + 1);
    }
}

/// The order is transitive.
pub proof fn lemma_lex_transitive(a: Seq<char>, b: Seq<char>, c: Seq<char>, i: int)
    requires
        0 <= i,
        lex_from(a, b, i),
        lex_from(b, c, i),
    ensures
        lex_from(a, c, i),
    decreases a.len() - i,
{
    if i < a.len() && i < b.len() && i < c.len() && a[i] == b[i] && b[i] == c[i] {
        lemma_lex_transitive(a, b, c, i + 1);
    }
}

/// Of two keys that agree before `i`, one comes before the other, or they
/// are one key.
pub proof fn lemma_lex_total(a: Seq<char>, b: Seq<char>, i: int)
    requires
        0 <= i <= a.len(),
        i <= b.len(),
        forall|j: int| 0 <= j < i ==> a[j] == b[j],
        !lex_from(a, b, i),
        !lex_from(b, a, i),
    ensures
        a == b,
    decreases a.len() - i,
{
    if i < a.len() && i < b.len() {
        lemma_lex_total(a, b, i + 1);
    } else {
        assert(a =~= b);
    }
}

/// Where `slot` stops: every key before it comes before `k`, the key at it
/// does not.
pub proof fn lemma_slot(entries: Seq<(Seq<char>, JsonModel)>, k: Seq<char>, i: int)
    requires
        0 <= i <= entries.len(),
    ensures
        i <= slot(entries, k, i) <= entries.len(),
        forall|j: int| i <= j < slot(entries, k, i) ==> lex_lt((#[trigger] entries[j]).0, k),
        slot(entries, k, i) < entries.len() ==> !lex_lt(entries[slot(entries, k, i)].0, k),
    decreases entries.len() - i,
{
    if i < entries.len() && lex_lt(entries[i].0, k) {
        lemma_slot(entries, k, i + 1);
    }
}

/// Putting a member into an object keeps its keys ascending.
pub proof fn lemma_put_ascending(entries: Seq<(Seq<char>, JsonModel)>, k: Seq<char>, v: JsonModel)
    requires
        ascending(entries),
    ensures
        ascending(put(entries, k, v)),
{
    let p = slot(entries, k, 0);
    lemma_slot(entries, k, 0);
    let after = put(entries, k, v);
    if p < entries.len() && entries[p].0 == k {
        assert forall|i: int, j: int| 0 <= i < j < after.len() implies lex_lt(
            #[trigger] after[i].0,
            #[trigger] after[j].0,
        ) by {
            assert(after[i].0 == entries[i].0);
            assert(after[j].0 == entries[j].0);
        }
    } else {
        assert forall|i: int, j: int| 0 <= i < j < after.len() implies lex_lt(
            #[trigger] after[i].0,
            #[trigger] after[j].0,
        ) by {
            if j < p {
                assert(after[i] == entries[i] && after[j] == entries[j]);
            } else if j == p {
                assert(after[i] == entries[i]);
            } else if i == p {
                assert(after[j] == entries[j - 1]);
                if !lex_lt(k, entries[p].0) {
                    lemma_lex_total(k, entries[p].0, 0);
                }
                if j - 1 > p {
                    lemma_lex_transitive(k, entries[p].0, entries[j - 1].0, 0);
                }
            } else if i < p {
                assert(after[i] == entries[i] && after[j] == entries[j - 1]);
            } else {
                assert(after[i] == entries[i - 1] && after[j] == entries[j - 1]);
            }
        }
    }
}

/// What an object holds after a member is put: that member, and every member
/// of another key that it held before.
pub proof fn lemma_put_members(entries: Seq<(Seq<char>, JsonModel)>, k: Seq<char>, v: JsonModel)
    requires
        ascending(entries),
    ensures
        forall|x: (Seq<char>, JsonModel)|
            #[trigger] put(entries, k, v).contains(x) <==> (x == (k, v) || (entries.contains(x)
                && x.0 != k)),
{
    let p = slot(entries, k, 0);
    lemma_slot(entries, k, 0);
    lemma_lex_irreflexive(k, 0);
    let after = put(entries, k, v);
    let hit = p < entries.len() && entries[p].0 == k;
    assert forall|n: int| 0 <= n < entries.len() && n != p implies (#[trigger] entries[n]).0
        != k by {
        if n > p {
            if !lex_lt(k, entries[p].0) {
                lemma_lex_total(k, entries[p].0, 0);
            }
            lemma_lex_irreflexive(entries[n].0, 0);
            if entries[n].0 == k {
                assert(lex_lt(entries[p].0, entries[n].0));
                if hit {
                } else {
                    lemma_lex_transitive(k, entries[p].0, k, 0);
                }
            }
        }
    }
    if !hit && p < entries.len() {
        assert(entries[p].0 != k);
    }
    assert forall|x: (Seq<char>, JsonModel)|
        #[trigger] after.contains(x) <==> (x == (k, v) || (entries.contains(x) && x.0 != k)) by {
        if after.contains(x) {
            let n = choose|n: int| 0 <= n < after.len() && after[n] == x;
            if n != p {
                if hit {
                    assert(after[n] == entries[n]);
                } else if n < p {
                    assert(after[n] == entries[n]);
                } else {
                    assert(after[n] == entries[n - 1]);
                }
            }
        }
        if x == (k, v) {
            assert(after[p] == x);
        }
        if entries.contains(x) && x.0 != k {
            let n = choose|n: int| 0 <= n < entries.len() && entries[n] == x;
            if hit {
                assert(after[n] == x);
            } else if n < p {
                assert(after[n] == x);
            } else {
                assert(after[n + 1] == x);
            }
        }
    }
}

/// Every object inside the value keeps its keys ascending.
pub open spec fn well_formed(m: JsonModel) -> bool
    decreases m,
{
    match m {
        JsonModel::Array(items) => forall|i: int|
            0 <= i < items.len() ==> well_formed(#[trigger] items[i]),
        JsonModel::Object(ms) => ascending(ms) && forall|i: int|
            0 <= i < ms.len() ==> well_formed((#[trigger] ms[i]).1),
        _ => true,
    }
}

/// Putting a well-formed value among well-formed members keeps them so.
pub proof fn lemma_put_well_formed(
    entries: Seq<(Seq<char>, JsonModel)>,
    k: Seq<char>,
    v: JsonModel,
)
    requires
        well_formed(JsonModel::Object(entries)),
        well_formed(v),
    ensures
        well_formed(JsonModel::Object(put(entries, k, v))),
{
    lemma_put_ascending(entries, k, v);
    lemma_slot(entries, k, 0);
    let p = slot(entries, k, 0);
    let after = put(entries, k, v);
    assert forall|i: int| 0 <= i < after.len() implies well_formed((#[trigger] after[i]).1) by {
        if i != p {
            if p < entries.len() && entries[p].0 == k {
                assert(after[i] == entries[i]);
            } else if i < p {
                assert(after[i] == entries[i]);
            } else {
                assert(after[i] == entries[i - 1]);
            }
        }
    }
}

/// Whatever a text denotes is well formed.
pub proof fn lemma_value_well_formed(t: Seq<char>)
    ensures
        value_of(t) matches Some(m) ==> well_formed(m),
    decreases t.len(), 0nat, 0nat,
{
    if t.len() >= 2 {
        let inner = t.subrange(1, t.len() - 1);
        match crate::scan::split_top(inner) {
            Some(parts) => {
                lemma_members_well_formed(parts, parts.len(), (t.len() - 2) as nat);
                lemma_items_well_formed(parts, parts.len(), (t.len() - 2) as nat);
            },
            None => {},
        }
    }
}

/// The items that parts give are well formed.
pub proof fn lemma_items_well_formed(parts: Seq<Seq<char>>, n: nat, bound: nat)
    ensures
        well_formed(JsonModel::Array(items_of(parts, n, bound))),
    decreases bound, 1nat, n,
{
    if !(n == 0 || n > parts.len()) {
        lemma_items_well_formed(parts, (n - 1) as nat, bound);
        let t = crate::text::trimmed(parts[n - 1]);
        if t.len() <= bound {
            lemma_value_well_formed(t);
        }
        let before = items_of(parts, (n - 1) as nat, bound);
        let after = items_of(parts, n, bound);
        match element(parts[n - 1], bound) {
            Some(v) => {
                assert(after == before.push(v));
                assert(well_formed(v));
            },
            None => {
                assert(after == before);
            },
        }
        assert(well_formed(JsonModel::Array(before)));
        assert forall|i: int| 0 <= i < after.len() implies well_formed(#[trigger] after[i]) by {
            if i < before.len() {
                assert(after[i] == before[i]);
                assert(JsonModel::Array(before)->Array_0 == before);
                assert(well_formed(before[i]));
            } else {
                assert(element(parts[n - 1], bound) == Some(after[i]));
            }
        }
    }
}

/// The members that parts give are well formed, their keys ascending.
pub proof fn lemma_members_well_formed(parts: Seq<Seq<char>>, n: nat, bound: nat)
    ensures
        well_formed(JsonModel::Object(members_of(parts, n, bound))),
    decreases bound, 1nat, n,
{
    if !(n == 0 || n > parts.len()) {
        lemma_members_well_formed(parts, (n - 1) as nat, bound);
        let part = parts[n - 1];
        let c = crate::text::index_from(part, ':', 0);
        if 0 <= c < part.len() {
            let t = crate::text::trimmed(part.subrange(c + 1, part.len() as int));
            if t.len() <= bound {
                lemma_value_well_formed(t);
            }
        }
        match member_of(part, bound) {
            Some((k, v)) => {
                lemma_put_well_formed(members_of(parts, (n - 1) as nat, bound), k, v);
            },
            None => {},
        }
    }
}

/// Members put one after the other stand by ascending key.
pub proof fn lemma_entries_ascending(pairs: Seq<(Seq<char>, JsonModel)>, n: nat)
    ensures
        ascending(entries_of(pairs, n)),
    decreases n,
{
    if !(n == 0 || n > pairs.len()) {
        lemma_entries_ascending(pairs, (n - 1) as nat);
        lemma_put_ascending(entries_of(pairs, (n - 1) as nat), pairs[n - 1].0, pairs[n - 1].1);
    }
}

/// Well-formed values put one after the other make a well-formed object.
pub proof fn lemma_entries_well_formed(pairs: Seq<(Seq<char>, JsonModel)>, n: nat)
    requires
        forall|i: int| 0 <= i < pairs.len() ==> well_formed((#[trigger] pairs[i]).1),
    ensures
        well_formed(JsonModel::Object(entries_of(pairs, n))),
    decreases n,
{
    if !(n == 0 || n > pairs.len()) {
        lemma_entries_well_formed(pairs, (n - 1) as nat);
        lemma_put_well_formed(entries_of(pairs, (n - 1) as nat), pairs[n - 1].0, pairs[n - 1].1);
    }
}

/// Two objects with ascending keys that hold the same members are one
/// object: in what order the members were put leaves no trace.
pub proof fn lemma_ascending_unique(
    a: Seq<(Seq<char>, JsonModel)>,
    b: Seq<(Seq<char>, JsonModel)>,
)
    requires
        ascending(a),
        ascending(b),
        forall|x: (Seq<char>, JsonModel)| a.contains(x) <==> b.contains(x),
    ensures
        a == b,
    decreases a.len(),
{
    if a.len() == 0 {
        if b.len() > 0 {
            assert(b.contains(b[0]));
        }
        assert(a =~= b);
    } else {
        assert(a.contains(a[0]));
        assert(b.contains(a[0]));
        let j = choose|j: int| 0 <= j < b.len() && b[j] == a[0];
        assert(b.contains(b[0]));
        let i = choose|i: int| 0 <= i < a.len() && a[i] == b[0];
        lemma_lex_irreflexive(a[0].0, 0);
        if j > 0 {
            assert(lex_lt(b[0].0, b[j].0));
            if i > 0 {
                assert(lex_lt(a[0].0, a[i].0));
                lemma_lex_transitive(a[0].0, a[i].0, a[0].0, 0);
            }
        }
        assert(a[0] == b[0]);
        let ta = a.skip(1);
        let tb = b.skip(1);
        assert forall|x: (Seq<char>, JsonModel)| ta.contains(x) <==> tb.contains(x) by {
            if ta.contains(x) {
                let m = choose|m: int| 0 <= m < ta.len() && ta[m] == x;
                assert(a[m + 1] == x);
                assert(a.contains(x));
                let n = choose|n: int| 0 <= n < b.len() && b[n] == x;
                assert(lex_lt(a[0].0, a[m + 1].0));
                assert(n > 0);
                assert(tb[n - 1] == x);
            }
            if tb.contains(x) {
                let m = choose|m: int| 0 <= m < tb.len() && tb[m] == x;
                assert(b[m + 1] == x);
                assert(b.contains(x));
                let n = choose|n: int| 0 <= n < a.len() && a[n] == x;
                assert(lex_lt(b[0].0, b[m + 1].0));
                assert(n > 0);
                assert(ta[n - 1] == x);
            }
        }
        assert(ascending(ta)) by {
            assert forall|i: int, j: int| 0 <= i < j < ta.len() implies lex_lt(
                #[trigger] ta[i].0,
                #[trigger] ta[j].0,
            ) by {
                assert(ta[i] == a[i + 1] && ta[j] == a[j + 1]);
            }
        }
        assert(ascending(tb)) by {
            assert forall|i: int, j: int| 0 <= i < j < tb.len() implies lex_lt(
                #[trigger] tb[i].0,
                #[trigger] tb[j].0,
            ) by {
                assert(tb[i] == b[i + 1] && tb[j] == b[j + 1]);
            }
        }
        lemma_ascending_unique(ta, tb);
        assert(a =~= seq![a[0]] + ta);
        assert(b =~= seq![b[0]] + tb);
    }
}

/// Putting two members of different keys gives the same object in either
/// order, and so the same text.
pub proof fn lemma_put_commutes(
    entries: Seq<(Seq<char>, JsonModel)>,
    k1: Seq<char>,
    v1: JsonModel,
    k2: Seq<char>,
    v2: JsonModel,
)
    requires
        ascending(entries),
        k1 != k2,
    ensures
        put(put(entries, k1, v1), k2, v2) == put(put(entries, k2, v2), k1, v1),
        render_text(JsonModel::Object(put(put(entries, k1, v1), k2, v2))) == render_text(
            JsonModel::Object(put(put(entries, k2, v2), k1, v1)),
        ),
{
    let a1 = put(entries, k1, v1);
    let b1 = put(entries, k2, v2);
    lemma_put_ascending(entries, k1, v1);
    lemma_put_ascending(entries, k2, v2);
    lemma_put_ascending(a1, k2, v2);
    lemma_put_ascending(b1, k1, v1);
    lemma_put_members(entries, k1, v1);
    lemma_put_members(entries, k2, v2);
    lemma_put_members(a1, k2, v2);
    lemma_put_members(b1, k1, v1);
    let a2 = put(a1, k2, v2);
    let b2 = put(b1, k1, v1);
    assert forall|x: (Seq<char>, JsonModel)| a2.contains(x) <==> b2.contains(x) by {
        assert(a1.contains(x) <==> (x == (k1, v1) || (entries.contains(x) && x.0 != k1)));
        assert(b1.contains(x) <==> (x == (k2, v2) || (entries.contains(x) && x.0 != k2)));
        assert(a2.contains(x) <==> (x == (k2, v2) || (a1.contains(x) && x.0 != k2)));
        assert(b2.contains(x) <==> (x == (k1, v1) || (b1.contains(x) && x.0 != k1)));
    }
    lemma_ascending_unique(a2, b2);
}

/// Objects that hold the same members render to the same text, in whatever
/// order each was built.
pub proof fn lemma_same_members_same_text(
    a: Seq<(Seq<char>, JsonModel)>,
    b: Seq<(Seq<char>, JsonModel)>,
)
    requires
        ascending(a),
        ascending(b),
        forall|x: (Seq<char>, JsonModel)| a.contains(x) <==> b.contains(x),
    ensures
        render_text(JsonModel::Object(a)) == render_text(JsonModel::Object(b)),
{
    lemma_ascending_unique(a, b);
}

} // verus!
