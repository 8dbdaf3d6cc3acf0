//! What rendering and parsing have to do with each other.
use vstd::prelude::*;
use crate::json::JsonModel;
use crate::parse::{json_of, value_of, wrapped};
use crate::render::{decimal_text, digit_char, nat_text, render_text};
use crate::text::{
    all_digits, bounded_digits, digits_value, first_kept, int_of_text, is_digit, is_space,
    last_kept, trimmed,
};

verus! {

/// The decimal text of a number is a non-empty run of digits that writes
/// that number.
pub proof fn lemma_nat_text(n: nat)
    ensures
        nat_text(n).len() >= 1,
        all_digits(nat_text(n)),
        digits_value(nat_text(n)) == n,
    decreases n,
{
    let c = digit_char(n);
    assert(is_digit(c) && (c as u32 - '0' as u32) as nat == n % 10);
    if n < 10 {
        let t = seq![c];
        assert(t.drop_last() =~= Seq::<char>::empty());
        assert(digits_value(t.drop_last()) == 0);
    } else {
        lemma_nat_text(n / 10);
        let low = nat_text(n / 10);
        assert(low.push(c).drop_last() =~= low);
    }
}

/// A text that neither starts nor ends with white space is its own trimming.
pub proof fn lemma_trimmed_self(t: Seq<char>)
    requires
        t.len() > 0,
        !is_space(t[0]),
        !is_space(t.last()),
    ensures
        trimmed(t) == t,
{
    assert(first_kept(t, 0) == 0);
    assert(last_kept(t, t.len() as int, 0) == t.len());
    assert(t.subrange(0, t.len() as int) =~= t);
}

/// An integer that is rendered and parsed again is the same integer.
pub proof fn lemma_int_round_trip(v: i32)
    ensures
        json_of(render_text(JsonModel::Int(v))) == Some(JsonModel::Int(v)),
{
    let t = decimal_text(v as int);
    let n: nat = if v < 0 {
        (-v) as nat
    } else {
        v as nat
    };
    lemma_nat_text(n);
    let d = nat_text(n);
    assert(is_digit(d[0]) && is_digit(d.last()));
    if v < 0 {
        assert(t == seq!['-'] + d);
        assert(t[0] == '-');
        assert(t.last() == d.last());
        assert(t.skip(1) =~= d);
        assert(bounded_digits(d, 0x8000_0000) == Some(n));
    } else {
        assert(t == d);
        assert(bounded_digits(d, 0x7fff_ffff) == Some(n));
    }
    lemma_trimmed_self(t);
    assert(!wrapped(t, '{', '}') && !wrapped(t, '[', ']') && !wrapped(t, '"', '"'));
    assert(int_of_text(t) == Some(v));
    assert(value_of(t) == Some(JsonModel::Int(v)));
}

} // verus!
