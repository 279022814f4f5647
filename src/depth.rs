use vstd::prelude::*;
use crate::lexer::{lex, Tok};
use crate::parser::{
    find_key, lemma_find_key, parse_array, parse_document, parse_elements, parse_members,
    parse_object, parse_value, read_spec, set_member,
};
use crate::value::{JValue, JsonError};

verus! {

/// `v` holds objects and arrays nested at most `n` deep.
pub open spec fn within(v: JValue, n: int) -> bool
    decreases v,
{
    match v {
        JValue::Object(m) => n >= 1 && forall|i: int|
            0 <= i < m.len() ==> within(#[trigger] m[i].1, n - 1),
        JValue::Array(a) => n >= 1 && forall|i: int| 0 <= i < a.len() ==> within(#[trigger] a[i], n - 1),
        _ => true,
    }
}

pub open spec fn members_within(m: Seq<(Seq<char>, JValue)>, n: int) -> bool {
    forall|i: int| 0 <= i < m.len() ==> within(#[trigger] m[i].1, n)
}

pub open spec fn values_within(a: Seq<JValue>, n: int) -> bool {
    forall|i: int| 0 <= i < a.len() ==> within(#[trigger] a[i], n)
}

proof fn lemma_within_mono(v: JValue, n: int, m: int)
    requires
        within(v, n),
        n <= m,
    ensures
        within(v, m),
    decreases v,
{
    match v {
        JValue::Object(mm) => {
            assert forall|i: int| 0 <= i < mm.len() implies within(#[trigger] mm[i].1, m - 1) by {
                lemma_within_mono(mm[i].1, n - 1, m - 1);
            }
        },
        JValue::Array(a) => {
            assert forall|i: int| 0 <= i < a.len() implies within(#[trigger] a[i], m - 1) by {
                lemma_within_mono(a[i], n - 1, m - 1);
            }
        },
        _ => {},
    }
}

proof fn lemma_set_member_within(m: Seq<(Seq<char>, JValue)>, k: Seq<char>, v: JValue, n: int)
    requires
        members_within(m, n),
        within(v, n),
    ensures
        members_within(set_member(m, k, v), n),
{
    let r = set_member(m, k, v);
    let j = find_key(m, k, 0);
    lemma_find_key(m, k, 0);
    assert forall|i: int| 0 <= i < r.len() implies within(#[trigger] r[i].1, n) by {
        if j >= 0 {
            if i != j {
                assert(r[i] == m[i]);
            }
        } else if i < m.len() {
            assert(r[i] == m[i]);
        }
    }
}

/// What a successful parse at depth `d` returns nests at most `limit - d` deep.
proof fn lemma_value_within(t: Seq<Tok>, pos: int, d: nat, limit: nat)
    requires
        parse_value(t, pos, d, limit) is Ok,
    ensures
        within(parse_value(t, pos, d, limit)->Ok_0.0, limit - d),
    decreases t.len() - pos, 0int,
{
    match t[pos] {
        Tok::LBrace => {
            lemma_object_within(t, pos + 1, d + 1, limit);
        },
        Tok::LBracket => {
            lemma_array_within(t, pos + 1, d + 1, limit);
        },
        _ => {},
    }
}

proof fn lemma_object_within(t: Seq<Tok>, pos: int, d: nat, limit: nat)
    requires
        parse_object(t, pos, d, limit) is Ok,
        d <= limit,
    ensures
        within(parse_object(t, pos, d, limit)->Ok_0.0, limit - d + 1),
    decreases t.len() - pos, 2int,
{
    if !(0 <= pos < t.len() && t[pos] is RBrace) {
        lemma_members_within(t, pos, d, limit, Seq::empty());
    }
}

proof fn lemma_members_within(
    t: Seq<Tok>,
    pos: int,
    d: nat,
    limit: nat,
    acc: Seq<(Seq<char>, JValue)>,
)
    requires
        parse_members(t, pos, d, limit, acc) is Ok,
        members_within(acc, limit - d),
        d <= limit,
    ensures
        within(parse_members(t, pos, d, limit, acc)->Ok_0.0, limit - d + 1),
    decreases t.len() - pos, 1int,
{
    let k = t[pos]->Str_0;
    lemma_value_within(t, pos + 2, d, limit);
    let (v, e) = parse_value(t, pos + 2, d, limit)->Ok_0;
    lemma_set_member_within(acc, k, v, limit - d);
    if t[e] is Comma {
        lemma_members_within(t, e + 1, d, limit, set_member(acc, k, v));
    }
}

proof fn lemma_array_within(t: Seq<Tok>, pos: int, d: nat, limit: nat)
    requires
        parse_array(t, pos, d, limit) is Ok,
        d <= limit,
    ensures
        within(parse_array(t, pos, d, limit)->Ok_0.0, limit - d + 1),
    decreases t.len() - pos, 2int,
{
    if !(0 <= pos < t.len() && t[pos] is RBracket) {
        lemma_elements_within(t, pos, d, limit, Seq::empty());
    }
}

proof fn lemma_elements_within(t: Seq<Tok>, pos: int, d: nat, limit: nat, acc: Seq<JValue>)
    requires
        parse_elements(t, pos, d, limit, acc) is Ok,
        values_within(acc, limit - d),
        d <= limit,
    ensures
        within(parse_elements(t, pos, d, limit, acc)->Ok_0.0, limit - d + 1),
    decreases t.len() - pos, 1int,
{
    lemma_value_within(t, pos, d, limit);
    let (v, e) = parse_value(t, pos, d, limit)->Ok_0;
    let next = acc.push(v);
    assert(values_within(next, limit - d)) by {
        assert forall|i: int| 0 <= i < next.len() implies within(#[trigger] next[i], limit - d) by {
            if i < acc.len() {
                assert(next[i] == acc[i]);
            }
        }
    }
    if t[e] is Comma {
        lemma_elements_within(t, e + 1, d, limit, next);
    }
}

/// The outcome under a lower limit: the same, or `DepthExceeded`.
pub open spec fn same_or_too_deep(
    low: Result<(JValue, int), JsonError>,
    high: Result<(JValue, int), JsonError>,
) -> bool {
    low == high || low == Err::<(JValue, int), JsonError>(JsonError::DepthExceeded)
}

proof fn lemma_lower_value(t: Seq<Tok>, pos: int, d: nat, lo: nat, hi: nat)
    requires
        lo <= hi,
        parse_value(t, pos, d, hi) is Ok,
    ensures
        same_or_too_deep(parse_value(t, pos, d, lo), parse_value(t, pos, d, hi)),
    decreases t.len() - pos, 0int,
{
    match t[pos] {
        Tok::LBrace => if d < lo {
            lemma_lower_object(t, pos + 1, d + 1, lo, hi);
        },
        Tok::LBracket => if d < lo {
            lemma_lower_array(t, pos + 1, d + 1, lo, hi);
        },
        _ => {},
    }
}

proof fn lemma_lower_object(t: Seq<Tok>, pos: int, d: nat, lo: nat, hi: nat)
    requires
        lo <= hi,
        parse_object(t, pos, d, hi) is Ok,
    ensures
        same_or_too_deep(parse_object(t, pos, d, lo), parse_object(t, pos, d, hi)),
    decreases t.len() - pos, 2int,
{
    if !(0 <= pos < t.len() && t[pos] is RBrace) {
        lemma_lower_members(t, pos, d, lo, hi, Seq::empty());
    }
}

proof fn lemma_lower_members(
    t: Seq<Tok>,
    pos: int,
    d: nat,
    lo: nat,
    hi: nat,
    acc: Seq<(Seq<char>, JValue)>,
)
    requires
        lo <= hi,
        parse_members(t, pos, d, hi, acc) is Ok,
    ensures
        same_or_too_deep(parse_members(t, pos, d, lo, acc), parse_members(t, pos, d, hi, acc)),
    decreases t.len() - pos, 1int,
{
    let k = t[pos]->Str_0;
    lemma_lower_value(t, pos + 2, d, lo, hi);
    let (v, e) = parse_value(t, pos + 2, d, hi)->Ok_0;
    if t[e] is Comma && parse_value(t, pos + 2, d, lo) is Ok {
        lemma_lower_members(t, e + 1, d, lo, hi, set_member(acc, k, v));
    }
}

proof fn lemma_lower_array(t: Seq<Tok>, pos: int, d: nat, lo: nat, hi: nat)
    requires
        lo <= hi,
        parse_array(t, pos, d, hi) is Ok,
    ensures
        same_or_too_deep(parse_array(t, pos, d, lo), parse_array(t, pos, d, hi)),
    decreases t.len() - pos, 2int,
{
    if !(0 <= pos < t.len() && t[pos] is RBracket) {
        lemma_lower_elements(t, pos, d, lo, hi, Seq::empty());
    }
}

proof fn lemma_lower_elements(
    t: Seq<Tok>,
    pos: int,
    d: nat,
    lo: nat,
    hi: nat,
    acc: Seq<JValue>,
)
    requires
        lo <= hi,
        parse_elements(t, pos, d, hi, acc) is Ok,
    ensures
        same_or_too_deep(parse_elements(t, pos, d, lo, acc), parse_elements(t, pos, d, hi, acc)),
    decreases t.len() - pos, 1int,
{
    lemma_lower_value(t, pos, d, lo, hi);
    let (v, e) = parse_value(t, pos, d, hi)->Ok_0;
    if t[e] is Comma && parse_value(t, pos, d, lo) is Ok {
        lemma_lower_elements(t, e + 1, d, lo, hi, acc.push(v));
    }
}

/// A successful read never holds objects and arrays nested deeper than its
/// limit.
pub proof fn read_stays_within_limit(json: Seq<char>, max_depth: nat, v: JValue)
    requires
        read_spec(json, max_depth) == Ok::<JValue, JsonError>(v),
    ensures
        within(v, max_depth as int),
{
    lemma_value_within(lex(json)->0, 0, 0, max_depth);
}

/// A document that reads, under some limit, as a tree nesting deeper than
/// `max_depth` fails with `DepthExceeded` under `max_depth`.
pub proof fn too_deep_fails(json: Seq<char>, limit: nat, max_depth: nat, v: JValue)
    requires
        read_spec(json, limit) == Ok::<JValue, JsonError>(v),
        !within(v, max_depth as int),
    ensures
        read_spec(json, max_depth) == Err::<JValue, JsonError>(JsonError::DepthExceeded),
{
    read_stays_within_limit(json, limit, v);
    if max_depth >= limit {
        lemma_within_mono(v, limit as int, max_depth as int);
    }
    let t = lex(json)->0;
    lemma_lower_value(t, 0, 0, max_depth, limit);
    if parse_document(t, max_depth) is Ok {
        read_stays_within_limit(json, max_depth, v);
    }
}

} // verus!
