use vstd::prelude::*;
use crate::lexer::{lex, Tok};
use crate::parser::{
    find_key, lemma_find_key, parse_array, parse_elements, parse_members, parse_object, parse_value, read_spec,
    set_member,
};
use crate::value::{JValue, JsonError};

verus! {

/// No two members of `m` share a key.
pub open spec fn keys_distinct(m: Seq<(Seq<char>, JValue)>) -> bool {
    forall|i: int, j: int| 0 <= i < j < m.len() ==> #[trigger] m[i].0 != #[trigger] m[j].0
}

/// Every object inside `v`, `v` included, has distinct keys.
pub open spec fn unique_keys(v: JValue) -> bool
    decreases v,
{
    match v {
        JValue::Object(m) => keys_distinct(m) && forall|i: int|
            0 <= i < m.len() ==> unique_keys(#[trigger] m[i].1),
        JValue::Array(a) => forall|i: int| 0 <= i < a.len() ==> unique_keys(#[trigger] a[i]),
        _ => true,
    }
}

pub open spec fn members_ok(m: Seq<(Seq<char>, JValue)>) -> bool {
    keys_distinct(m) && forall|i: int| 0 <= i < m.len() ==> unique_keys(#[trigger] m[i].1)
}

pub open spec fn values_ok(a: Seq<JValue>) -> bool {
    forall|i: int| 0 <= i < a.len() ==> unique_keys(#[trigger] a[i])
}

proof fn lemma_set_member_ok(m: Seq<(Seq<char>, JValue)>, k: Seq<char>, v: JValue)
    requires
        members_ok(m),
        unique_keys(v),
    ensures
        members_ok(set_member(m, k, v)),
{
    let r = set_member(m, k, v);
    let f = find_key(m, k, 0);
    lemma_find_key(m, k, 0);
    assert forall|i: int| 0 <= i < r.len() implies unique_keys(#[trigger] r[i].1) by {
        if i < m.len() && i != f {
            assert(r[i] == m[i]);
        }
    }
    assert forall|i: int, j: int| 0 <= i < j < r.len() implies #[trigger] r[i].0
        != #[trigger] r[j].0 by {
        if f == -1 {
            if j == m.len() {
                assert(r[i] == m[i]);
            } else {
                assert(r[i] == m[i] && r[j] == m[j]);
            }
        } else {
            if i != f {
                assert(r[i] == m[i]);
            }
            if j != f {
                assert(r[j] == m[j]);
            }
        }
    }
}

proof fn lemma_value_ok(t: Seq<Tok>, pos: int, d: nat, limit: nat)
    requires
        parse_value(t, pos, d, limit) is Ok,
    ensures
        unique_keys(parse_value(t, pos, d, limit)->Ok_0.0),
    decreases t.len() - pos, 0int,
{
    match t[pos] {
        Tok::LBrace => {
            lemma_object_ok(t, pos + 1, d + 1, limit);
        },
        Tok::LBracket => {
            lemma_array_ok(t, pos + 1, d + 1, limit);
        },
        _ => {},
    }
}

proof fn lemma_object_ok(t: Seq<Tok>, pos: int, d: nat, limit: nat)
    requires
        parse_object(t, pos, d, limit) is Ok,
    ensures
        unique_keys(parse_object(t, pos, d, limit)->Ok_0.0),
    decreases t.len() - pos, 2int,
{
    if !(0 <= pos < t.len() && t[pos] is RBrace) {
        lemma_members_ok(t, pos, d, limit, Seq::empty());
    }
}

proof fn lemma_members_ok(
    t: Seq<Tok>,
    pos: int,
    d: nat,
    limit: nat,
    acc: Seq<(Seq<char>, JValue)>,
)
    requires
        parse_members(t, pos, d, limit, acc) is Ok,
        members_ok(acc),
    ensures
        unique_keys(parse_members(t, pos, d, limit, acc)->Ok_0.0),
    decreases t.len() - pos, 1int,
{
    let k = t[pos]->Str_0;
    lemma_value_ok(t, pos + 2, d, limit);
    let (v, e) = parse_value(t, pos + 2, d, limit)->Ok_0;
    lemma_set_member_ok(acc, k, v);
    if t[e] is Comma {
        lemma_members_ok(t, e + 1, d, limit, set_member(acc, k, v));
    }
}

proof fn lemma_array_ok(t: Seq<Tok>, pos: int, d: nat, limit: nat)
    requires
        parse_array(t, pos, d, limit) is Ok,
    ensures
        unique_keys(parse_array(t, pos, d, limit)->Ok_0.0),
    decreases t.len() - pos, 2int,
{
    if !(0 <= pos < t.len() && t[pos] is RBracket) {
        lemma_elements_ok(t, pos, d, limit, Seq::empty());
    }
}

proof fn lemma_elements_ok(t: Seq<Tok>, pos: int, d: nat, limit: nat, acc: Seq<JValue>)
    requires
        parse_elements(t, pos, d, limit, acc) is Ok,
        values_ok(acc),
    ensures
        unique_keys(parse_elements(t, pos, d, limit, acc)->Ok_0.0),
    decreases t.len() - pos, 1int,
{
    lemma_value_ok(t, pos, d, limit);
    let (v, e) = parse_value(t, pos, d, limit)->Ok_0;
    let next = acc.push(v);
    assert(values_ok(next)) by {
        assert forall|i: int| 0 <= i < next.len() implies unique_keys(#[trigger] next[i]) by {
            if i < acc.len() {
                assert(next[i] == acc[i]);
            }
        }
    }
    if t[e] is Comma {
        lemma_elements_ok(t, e + 1, d, limit, next);
    }
}

/// Every object in a successfully read document has distinct keys: a key
/// written twice keeps one member, holding the last value written.
pub proof fn read_keys_are_unique(json: Seq<char>, max_depth: nat, v: JValue)
    requires
        read_spec(json, max_depth) == Ok::<JValue, JsonError>(v),
    ensures
        unique_keys(v),
{
    lemma_value_ok(lex(json)->0, 0, 0, max_depth);
}

} // verus!
