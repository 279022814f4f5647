use vstd::prelude::*;
use crate::classify::{int_lexeme, int_value_of, integral_value};
use crate::lexer::{lex, tokenize, toks_view, Tok, Token};
use crate::text::chars_of;
use crate::value::{JValue, JsonError, JsonValue};

verus! {

/// The nesting limit that `read` applies.
pub const DEFAULT_MAX_DEPTH: usize = 128;

/// The value of a number lexeme: an `Int` where it is an integer that fits
/// in 32 signed bits, else a `Float` that keeps the lexeme.
pub open spec fn number_value(n: Seq<char>) -> JValue {
    if int_lexeme(n) {
        JValue::Int(integral_value(n))
    } else {
        JValue::Float(n)
    }
}

/// The first index of `m` from `i` on whose key is `k`, or -1.
pub open spec fn find_key(m: Seq<(Seq<char>, JValue)>, k: Seq<char>, i: int) -> int
    decreases m.len() - i,
{
    if i < 0 || i >= m.len() {
        -1
    } else if m[i].0 == k {
        i
    } else {
        find_key(m, k, i + 1)
    }
}

pub(crate) proof fn lemma_find_key(m: Seq<(Seq<char>, JValue)>, k: Seq<char>, i: int)
    requires
        0 <= i,
    ensures
        find_key(m, k, i) == -1 ==> forall|j: int| i <= j < m.len() ==> #[trigger] m[j].0 != k,
        find_key(m, k, i) != -1 ==> i <= find_key(m, k, i) < m.len() && m[find_key(m, k, i)].0
            == k,
    decreases m.len() - i,
{
    if i < m.len() && m[i].0 != k {
        lemma_find_key(m, k, i + 1);
    }
}

/// Stores `v` under `k`: a value already there is replaced in place, a new
/// key goes to the end.
pub open spec fn set_member(m: Seq<(Seq<char>, JValue)>, k: Seq<char>, v: JValue) -> Seq<
    (Seq<char>, JValue),
> {
    let i = find_key(m, k, 0);
    if i >= 0 {
        m.update(i, (k, v))
    } else {
        m.push((k, v))
    }
}

/// The value that starts at token `pos`, with the position after it.
/// `depth` counts the objects and arrays around it; opening one more than
/// `limit` fails with `DepthExceeded`.
pub open spec fn parse_value(t: Seq<Tok>, pos: int, depth: nat, limit: nat) -> Result<
    (JValue, int),
    JsonError,
>
    decreases t.len() - pos, 0int,
{
    if pos < 0 || pos >= t.len() {
        Err(JsonError::ParseError)
    } else {
        match t[pos] {
            Tok::Str(s) => Ok((JValue::Str(s), pos + 1)),
            Tok::Num(n) => Ok((number_value(n), pos + 1)),
            Tok::True => Ok((JValue::Bool(true), pos + 1)),
            Tok::False => Ok((JValue::Bool(false), pos + 1)),
            Tok::Null => Ok((JValue::Null, pos + 1)),
            Tok::LBrace => if depth >= limit {
                Err(JsonError::DepthExceeded)
            } else {
                parse_object(t, pos + 1, depth + 1, limit)
            },
            Tok::LBracket => if depth >= limit {
                Err(JsonError::DepthExceeded)
            } else {
                parse_array(t, pos + 1, depth + 1, limit)
            },
            _ => Err(JsonError::ParseError),
        }
    }
}

/// An object whose `{` stands just before `pos`.
pub open spec fn parse_object(t: Seq<Tok>, pos: int, depth: nat, limit: nat) -> Result<
    (JValue, int),
    JsonError,
>
    decreases t.len() - pos, 2int,
{
    if 0 <= pos < t.len() && t[pos] is RBrace {
        Ok((JValue::Object(Seq::empty()), pos + 1))
    } else {
        parse_members(t, pos, depth, limit, Seq::empty())
    }
}

/// The members of an object from the key at `pos` on, after those in `acc`.
pub open spec fn parse_members(
    t: Seq<Tok>,
    pos: int,
    depth: nat,
    limit: nat,
    acc: Seq<(Seq<char>, JValue)>,
) -> Result<(JValue, int), JsonError>
    decreases t.len() - pos, 1int,
{
    if 0 <= pos && pos + 1 < t.len() && t[pos] is Str && t[pos + 1] is Colon {
        let k = t[pos]->Str_0;
        match parse_value(t, pos + 2, depth, limit) {
            Err(e) => Err(e),
            Ok((v, e)) => if pos < e < t.len() {
                if t[e] is Comma {
                    parse_members(t, e + 1, depth, limit, set_member(acc, k, v))
                } else if t[e] is RBrace {
                    Ok((JValue::Object(set_member(acc, k, v)), e + 1))
                } else {
                    Err(JsonError::ParseError)
                }
            } else {
                Err(JsonError::ParseError)
            },
        }
    } else {
        Err(JsonError::ParseError)
    }
}

/// An array whose `[` stands just before `pos`.
pub open spec fn parse_array(t: Seq<Tok>, pos: int, depth: nat, limit: nat) -> Result<
    (JValue, int),
    JsonError,
>
    decreases t.len() - pos, 2int,
{
    if 0 <= pos < t.len() && t[pos] is RBracket {
        Ok((JValue::Array(Seq::empty()), pos + 1))
    } else {
        parse_elements(t, pos, depth, limit, Seq::empty())
    }
}

/// The elements of an array from `pos` on, after those in `acc`.
pub open spec fn parse_elements(
    t: Seq<Tok>,
    pos: int,
    depth: nat,
    limit: nat,
    acc: Seq<JValue>,
) -> Result<(JValue, int), JsonError>
    decreases t.len() - pos, 1int,
{
    match parse_value(t, pos, depth, limit) {
        Err(e) => Err(e),
        Ok((v, e)) => if 0 <= pos < e < t.len() {
            if t[e] is Comma {
                parse_elements(t, e + 1, depth, limit, acc.push(v))
            } else if t[e] is RBracket {
                Ok((JValue::Array(acc.push(v)), e + 1))
            } else {
                Err(JsonError::ParseError)
            }
        } else {
            Err(JsonError::ParseError)
        },
    }
}

/// A whole token sequence: one value and nothing after it.
pub open spec fn parse_document(t: Seq<Tok>, limit: nat) -> Result<JValue, JsonError> {
    match parse_value(t, 0, 0, limit) {
        Err(e) => Err(e),
        Ok((v, e)) => if e == t.len() {
            Ok(v)
        } else {
            Err(JsonError::ParseError)
        },
    }
}

/// What reading the text `s` gives, with objects and arrays nested at most
/// `limit` deep.
pub open spec fn read_spec(s: Seq<char>, limit: nat) -> Result<JValue, JsonError> {
    match lex(s) {
        None => Err(JsonError::LexError),
        Some(t) => parse_document(t, limit),
    }
}

pub open spec fn members_view(m: Seq<(String, JsonValue)>) -> Seq<(Seq<char>, JValue)> {
    Seq::new(m.len(), |i: int| (m[i].0@, m[i].1.view()))
}

pub open spec fn values_view(a: Seq<JsonValue>) -> Seq<JValue> {
    Seq::new(a.len(), |i: int| a[i].view())
}

/// `r` is what the model result `s` describes.
pub open spec fn agrees(r: Result<(JsonValue, usize), JsonError>, s: Result<(JValue, int), JsonError>) -> bool {
    match r {
        Ok((v, e)) => s == Ok::<(JValue, int), JsonError>((v.view(), e as int)),
        Err(x) => s == Err::<(JValue, int), JsonError>(x),
    }
}

proof fn lemma_object_view(m: Vec<(String, JsonValue)>)
    ensures
        JsonValue::JsonObject(m).view() == JValue::Object(members_view(m@)),
{
    assert(JsonValue::JsonObject(m).view()->Object_0 =~= members_view(m@));
}

proof fn lemma_array_view(a: Vec<JsonValue>)
    ensures
        JsonValue::JsonArray(a).view() == JValue::Array(values_view(a@)),
{
    assert(JsonValue::JsonArray(a).view()->Array_0 =~= values_view(a@));
}

fn number_json(n: &String) -> (r: JsonValue)
    ensures
        r.view() == number_value(n@),
{
    let c = chars_of(n.as_str());
    match int_value_of(&c) {
        Some(i) => JsonValue::JsonInt(i),
        None => JsonValue::JsonFloat(n.clone()),
    }
}

/// Stores `v` under `k` in `m`, replacing the value of an equal key.
fn store_member(m: &mut Vec<(String, JsonValue)>, k: String, v: JsonValue)
    ensures
        members_view(final(m)@) == set_member(members_view(old(m)@), k@, v.view()),
{
    let ghost mv = members_view(m@);
    let mut j: usize = 0;
    while j < m.len()
        invariant
            mv == members_view(m@),
            mv == members_view(old(m)@),
            j <= m@.len(),
            find_key(mv, k@, 0) == find_key(mv, k@, j as int),
        decreases m@.len() - j,
    {
        if m[j].0 == k {
            assert(mv[j as int].0 == k@);
            assert(find_key(mv, k@, j as int) == j);
            m.set(j, (k, v));
            assert(members_view(m@) =~= mv.update(j as int, (k@, v.view())));
            return;
        }
        j = j + 1;
    }
    m.push((k, v));
    assert(members_view(m@) =~= mv.push((k@, v.view())));
}

/// Parses the value at token `pos`, returning it with the position after it.
pub fn parse_value_at(t: &Vec<Token>, pos: usize, depth: usize, limit: usize) -> (r: Result<
    (JsonValue, usize),
    JsonError,
>)
    ensures
        agrees(r, parse_value(toks_view(t@), pos as int, depth as nat, limit as nat)),
        r matches Ok((_, e)) ==> pos < e <= t@.len(),
    decreases t@.len() - pos, 0int,
{
    let ghost tv = toks_view(t@);
    if pos >= t.len() {
        return Err(JsonError::ParseError);
    }
    assert(tv[pos as int] == t@[pos as int].view());
    match &t[pos] {
        Token::Str(s) => Ok((JsonValue::JsonString(s.clone()), pos + 1)),
        Token::Num(n) => Ok((number_json(n), pos + 1)),
        Token::True => Ok((JsonValue::JsonBoolean(true), pos + 1)),
        Token::False => Ok((JsonValue::JsonBoolean(false), pos + 1)),
        Token::Null => Ok((JsonValue::JsonNull, pos + 1)),
        Token::LBrace => {
            if depth >= limit {
                Err(JsonError::DepthExceeded)
            } else {
                parse_object_at(t, pos + 1, depth + 1, limit)
            }
        },
        Token::LBracket => {
            if depth >= limit {
                Err(JsonError::DepthExceeded)
            } else {
                parse_array_at(t, pos + 1, depth + 1, limit)
            }
        },
        _ => Err(JsonError::ParseError),
    }
}

fn parse_object_at(t: &Vec<Token>, pos: usize, depth: usize, limit: usize) -> (r: Result<
    (JsonValue, usize),
    JsonError,
>)
    requires
        pos <= t@.len(),
    ensures
        agrees(r, parse_object(toks_view(t@), pos as int, depth as nat, limit as nat)),
        r matches Ok((_, e)) ==> pos < e <= t@.len(),
    decreases t@.len() - pos, 2int,
{
    let ghost tv = toks_view(t@);
    if pos < t.len() && matches!(t[pos], Token::RBrace) {
        let m: Vec<(String, JsonValue)> = Vec::new();
        proof {
            lemma_object_view(m);
            assert(members_view(m@) =~= Seq::empty());
        }
        return Ok((JsonValue::JsonObject(m), pos + 1));
    }
    let mut members: Vec<(String, JsonValue)> = Vec::new();
    let mut p: usize = pos;
    assert(members_view(members@) =~= Seq::empty());
    loop
        invariant
            pos <= p <= t@.len(),
            tv == toks_view(t@),
            parse_object(tv, pos as int, depth as nat, limit as nat) == parse_members(
                tv,
                p as int,
                depth as nat,
                limit as nat,
                members_view(members@),
            ),
        decreases t@.len() - p,
    {
        if t.len() - p < 2 {
            return Err(JsonError::ParseError);
        }
        assert(tv[p as int] == t@[p as int].view());
        assert(tv[p + 1] == t@[p + 1].view());
        let key = match &t[p] {
            Token::Str(k) => k.clone(),
            _ => {
                return Err(JsonError::ParseError);
            },
        };
        if !(matches!(t[p + 1], Token::Colon)) {
            return Err(JsonError::ParseError);
        }
        let (v, e) = match parse_value_at(t, p + 2, depth, limit) {
            Ok(x) => x,
            Err(x) => {
                return Err(x);
            },
        };
        if e >= t.len() {
            return Err(JsonError::ParseError);
        }
        assert(tv[e as int] == t@[e as int].view());
        store_member(&mut members, key, v);
        if matches!(t[e], Token::Comma) {
            p = e + 1;
        } else if matches!(t[e], Token::RBrace) {
            proof {
                lemma_object_view(members);
            }
            return Ok((JsonValue::JsonObject(members), e + 1));
        } else {
            return Err(JsonError::ParseError);
        }
    }
}

fn parse_array_at(t: &Vec<Token>, pos: usize, depth: usize, limit: usize) -> (r: Result<
    (JsonValue, usize),
    JsonError,
>)
    requires
        pos <= t@.len(),
    ensures
        agrees(r, parse_array(toks_view(t@), pos as int, depth as nat, limit as nat)),
        r matches Ok((_, e)) ==> pos < e <= t@.len(),
    decreases t@.len() - pos, 2int,
{
    let ghost tv = toks_view(t@);
    if pos < t.len() && matches!(t[pos], Token::RBracket) {
        let a: Vec<JsonValue> = Vec::new();
        proof {
            lemma_array_view(a);
            assert(values_view(a@) =~= Seq::empty());
        }
        return Ok((JsonValue::JsonArray(a), pos + 1));
    }
    let mut items: Vec<JsonValue> = Vec::new();
    let mut p: usize = pos;
    assert(values_view(items@) =~= Seq::empty());
    loop
        invariant
            pos <= p <= t@.len(),
            tv == toks_view(t@),
            parse_array(tv, pos as int, depth as nat, limit as nat) == parse_elements(
                tv,
                p as int,
                depth as nat,
                limit as nat,
                values_view(items@),
            ),
        decreases t@.len() - p,
    {
        let (v, e) = match parse_value_at(t, p, depth, limit) {
            Ok(x) => x,
            Err(x) => {
                return Err(x);
            },
        };
        if e >= t.len() {
            return Err(JsonError::ParseError);
        }
        assert(tv[e as int] == t@[e as int].view());
        let ghost before = values_view(items@);
        items.push(v);
        assert(values_view(items@) =~= before.push(v.view()));
        if matches!(t[e], Token::Comma) {
            p = e + 1;
        } else if matches!(t[e], Token::RBracket) {
            proof {
                lemma_array_view(items);
            }
            return Ok((JsonValue::JsonArray(items), e + 1));
        } else {
            return Err(JsonError::ParseError);
        }
    }
}

/// The outcome of a read, in the model.
pub open spec fn outcome(r: Result<JsonValue, JsonError>) -> Result<JValue, JsonError> {
    match r {
        Ok(v) => Ok(v.view()),
        Err(e) => Err(e),
    }
}

/// Parses a whole token sequence: one value and no token after it.
pub fn parse_tokens(t: &Vec<Token>, max_depth: usize) -> (r: Result<JsonValue, JsonError>)
    ensures
        outcome(r) == parse_document(toks_view(t@), max_depth as nat),
{
    match parse_value_at(t, 0, 0, max_depth) {
        Ok((v, e)) => {
            if e == t.len() {
                Ok(v)
            } else {
                Err(JsonError::ParseError)
            }
        },
        Err(x) => Err(x),
    }
}

/// Reads the JSON document `json`, with objects and arrays nested at most
/// `max_depth` deep.
pub fn read_with_depth(json: &str, max_depth: usize) -> (r: Result<JsonValue, JsonError>)
    ensures
        outcome(r) == read_spec(json@, max_depth as nat),
{
    match tokenize(json) {
        Ok(t) => parse_tokens(&t, max_depth),
        Err(x) => Err(x),
    }
}

/// Reads the JSON document `json`, with objects and arrays nested at most
/// `DEFAULT_MAX_DEPTH` deep.
pub fn read(json: &str) -> (r: Result<JsonValue, JsonError>)
    ensures
        outcome(r) == read_spec(json@, DEFAULT_MAX_DEPTH as nat),
{
    read_with_depth(json, DEFAULT_MAX_DEPTH)
}

/// Reading is a function of the text and the limit: two reads of one text
/// under one limit give equal trees, or the same error.
pub proof fn read_is_deterministic(
    json: Seq<char>,
    max_depth: nat,
    a: Result<JsonValue, JsonError>,
    b: Result<JsonValue, JsonError>,
)
    requires
        outcome(a) == read_spec(json, max_depth),
        outcome(b) == read_spec(json, max_depth),
    ensures
        outcome(a) == outcome(b),
        a is Ok <==> b is Ok,
        a matches Ok(x) ==> b matches Ok(y) && x.view() == y.view(),
{
}

} // verus!
