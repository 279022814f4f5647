use vstd::prelude::*;
use crate::lexer::is_quote;
use crate::text::{chars_of, string_of};
use crate::value::{JValue, JsonValue};

verus! {

pub open spec fn is_digit(c: char) -> bool {
    '0' <= c && c <= '9'
}

pub open spec fn is_sign(c: char) -> bool {
    c == '-' || c == '+'
}

pub open spec fn all_digits(s: Seq<char>) -> bool {
    forall|i: int| 0 <= i < s.len() ==> is_digit(#[trigger] s[i])
}

/// 1 where `s` holds a sign at `i`, else 0.
pub open spec fn sign_at(s: Seq<char>, i: int) -> int {
    if 0 <= i < s.len() && is_sign(s[i]) {
        1
    } else {
        0
    }
}

/// The number of consecutive digits of `s` from `i` on.
pub open spec fn digit_run(s: Seq<char>, i: int) -> int
    decreases s.len() - i,
{
    if 0 <= i < s.len() && is_digit(s[i]) {
        1 + digit_run(s, i + 1)
    } else {
        0
    }
}

/// The value of a string of decimal digits.
pub open spec fn digits_value(s: Seq<char>) -> int
    decreases s.len(),
{
    if s.len() == 0 {
        0
    } else {
        digits_value(s.drop_last()) * 10 + (s.last() as int - '0' as int)
    }
}

/// An optional sign followed by one or more digits.
pub open spec fn integral_lexeme(s: Seq<char>) -> bool {
    s.len() > sign_at(s, 0) && all_digits(s.subrange(sign_at(s, 0), s.len() as int))
}

/// The value written by an integral lexeme.
pub open spec fn integral_value(s: Seq<char>) -> int {
    let d = digits_value(s.subrange(sign_at(s, 0), s.len() as int));
    if s.len() > 0 && s[0] == '-' {
        -d
    } else {
        d
    }
}

/// An integral lexeme whose value fits in 32 signed bits.
pub open spec fn int_lexeme(s: Seq<char>) -> bool {
    integral_lexeme(s) && i32::MIN <= integral_value(s) <= i32::MAX
}

/// What may follow the mantissa from `q` on: nothing, or `e`/`E`, an
/// optional sign and one or more digits.
pub open spec fn exponent_tail(s: Seq<char>, q: int) -> bool {
    q == s.len() || (0 <= q < s.len() && (s[q] == 'e' || s[q] == 'E') && {
        let r = q + 1 + sign_at(s, q + 1);
        digit_run(s, r) > 0 && r + digit_run(s, r) == s.len()
    })
}

/// `[sign] digits [. digits] [(e|E) [sign] digits]`.
pub open spec fn number_lexeme(s: Seq<char>) -> bool {
    let a = sign_at(s, 0);
    let p = a + digit_run(s, a);
    digit_run(s, a) > 0 && if p < s.len() && s[p] == '.' {
        digit_run(s, p + 1) > 0 && exponent_tail(s, p + 1 + digit_run(s, p + 1))
    } else {
        exponent_tail(s, p)
    }
}

/// A number that is not an `int_lexeme`: it has a fraction or an exponent,
/// or its value lies outside 32 signed bits.
pub open spec fn float_lexeme(s: Seq<char>) -> bool {
    number_lexeme(s) && !int_lexeme(s)
}

pub open spec fn bool_lexeme(s: Seq<char>) -> bool {
    s == seq!['t', 'r', 'u', 'e'] || s == seq!['f', 'a', 'l', 's', 'e']
}

/// `'{` ... `}'`: an object wrapped in single quotes.
pub open spec fn quoted_object_lexeme(s: Seq<char>) -> bool {
    s.len() >= 2 && s[0] == '\'' && s[1] == '{' && s[s.len() - 2] == '}' && s[s.len() - 1] == '\''
}

/// `'[` ... `]'`: an array wrapped in single quotes.
pub open spec fn quoted_array_lexeme(s: Seq<char>) -> bool {
    s.len() >= 2 && s[0] == '\'' && s[1] == '[' && s[s.len() - 2] == ']' && s[s.len() - 1] == '\''
}

proof fn lemma_digits_value_prefix(s: Seq<char>, k: int)
    requires
        all_digits(s),
        0 <= k <= s.len(),
    ensures
        0 <= digits_value(s.subrange(0, k)) <= digits_value(s),
    decreases s.len(),
{
    if k == s.len() {
        assert(s.subrange(0, k) =~= s);
        if s.len() > 0 {
            assert(all_digits(s.drop_last()));
            lemma_digits_value_prefix(s.drop_last(), k - 1);
        }
    } else {
        let t = s.drop_last();
        assert(all_digits(t));
        assert(t.subrange(0, k) =~= s.subrange(0, k));
        lemma_digits_value_prefix(t, k);
        lemma_digits_value_prefix(t, t.len() as int);
        assert(t.subrange(0, t.len() as int) =~= t);
    }
}

fn digit(c: char) -> (r: bool)
    ensures
        r == is_digit(c),
{
    '0' <= c && c <= '9'
}

fn sign_len(c: &Vec<char>, i: usize) -> (r: usize)
    ensures
        r as int == sign_at(c@, i as int),
{
    if i < c.len() && (c[i] == '-' || c[i] == '+') {
        1
    } else {
        0
    }
}

fn run_of_digits(c: &Vec<char>, i: usize) -> (r: usize)
    ensures
        r as int == digit_run(c@, i as int),
        i + r <= c@.len() || r == 0,
{
    let mut j: usize = i;
    while j < c.len() && digit(c[j])
        invariant
            i <= j,
            j == i || j <= c@.len(),
            digit_run(c@, i as int) == (j - i) + digit_run(c@, j as int),
        decreases c@.len() - j,
    {
        j = j + 1;
    }
    j - i
}

/// The value of `c` when it is an integral lexeme that fits in an `i32`.
pub fn int_value_of(c: &Vec<char>) -> (r: Option<i32>)
    ensures
        r is Some <==> int_lexeme(c@),
        r matches Some(v) ==> v as int == integral_value(c@),
{
    let k = sign_len(c, 0);
    if c.len() <= k {
        return None;
    }
    let ghost body = c@.subrange(k as int, c@.len() as int);
    let mut acc: i64 = 0;
    let mut j: usize = k;
    while j < c.len()
        invariant
            k <= j <= c@.len(),
            k as int == sign_at(c@, 0),
            body == c@.subrange(k as int, c@.len() as int),
            all_digits(c@.subrange(k as int, j as int)),
            acc as int == digits_value(c@.subrange(k as int, j as int)),
            0 <= acc <= 2147483648,
        decreases c@.len() - j,
    {
        if !digit(c[j]) {
            assert(body[j - k] == c@[j as int]);
            assert(!all_digits(body));
            return None;
        }
        let ghost prev = c@.subrange(k as int, j as int);
        let ghost next = c@.subrange(k as int, j + 1);
        assert(next.drop_last() =~= prev);
        acc = acc * 10 + (c[j] as u32 - '0' as u32) as i64;
        assert(all_digits(next));
        j = j + 1;
        if acc > 2147483648 {
            proof {
                if all_digits(body) {
                    assert(body.subrange(0, j - k) =~= next);
                    lemma_digits_value_prefix(body, j - k);
                    assert(digits_value(body) > 2147483648);
                }
                assert(!int_lexeme(c@));
            }
            return None;
        }
    }
    assert(c@.subrange(k as int, j as int) =~= body);
    if c[0] == '-' {
        Some((0 - acc) as i32)
    } else if acc <= 2147483647 {
        Some(acc as i32)
    } else {
        None
    }
}

/// Whether `c` is a number lexeme.
pub fn number_chars(c: &Vec<char>) -> (r: bool)
    ensures
        r == number_lexeme(c@),
{
    let a = sign_len(c, 0);
    let d = run_of_digits(c, a);
    if d == 0 {
        return false;
    }
    let n = c.len();
    assert(a + d <= n);
    let p = a + d;
    if p < c.len() && c[p] == '.' {
        let f = run_of_digits(c, p + 1);
        f > 0 && exponent_chars(c, p + 1 + f)
    } else {
        exponent_chars(c, p)
    }
}

fn exponent_chars(c: &Vec<char>, q: usize) -> (r: bool)
    requires
        q <= c@.len(),
    ensures
        r == exponent_tail(c@, q as int),
{
    if q == c.len() {
        return true;
    }
    if c[q] != 'e' && c[q] != 'E' {
        return false;
    }
    let r = q + 1 + sign_len(c, q + 1);
    let d = run_of_digits(c, r);
    d > 0 && r + d == c.len()
}

/// Whether `s` is an integer that fits in 32 signed bits: an optional sign
/// and one or more decimal digits.
pub fn is_int(s: &str) -> (r: bool)
    ensures
        r == int_lexeme(s@),
{
    let c = chars_of(s);
    int_value_of(&c).is_some()
}

/// Whether `s` is a number that is not an `is_int` integer: it carries a
/// fraction or an exponent, or lies outside 32 signed bits.
pub fn is_float(s: &str) -> (r: bool)
    ensures
        r == float_lexeme(s@),
{
    let c = chars_of(s);
    number_chars(&c) && int_value_of(&c).is_none()
}

/// Whether `s` is exactly `true` or `false`.
pub fn is_bool(s: &str) -> (r: bool)
    ensures
        r == bool_lexeme(s@),
{
    let c = chars_of(s);
    bool_chars(&c)
}

pub fn bool_chars(c: &Vec<char>) -> (r: bool)
    ensures
        r == bool_lexeme(c@),
{
    if c.len() == 4 {
        let r = c[0] == 't' && c[1] == 'r' && c[2] == 'u' && c[3] == 'e';
        assert(r ==> c@ =~= seq!['t', 'r', 'u', 'e']);
        r
    } else if c.len() == 5 {
        let r = c[0] == 'f' && c[1] == 'a' && c[2] == 'l' && c[3] == 's' && c[4] == 'e';
        assert(r ==> c@ =~= seq!['f', 'a', 'l', 's', 'e']);
        r
    } else {
        false
    }
}

/// Whether `s` starts with `'{` and ends with `}'`.
pub fn is_json_object(s: &str) -> (r: bool)
    ensures
        r == quoted_object_lexeme(s@),
{
    let c = chars_of(s);
    let n = c.len();
    n >= 2 && c[0] == '\'' && c[1] == '{' && c[n - 2] == '}' && c[n - 1] == '\''
}

/// Whether `s` starts with `'[` and ends with `]'`.
pub fn is_json_arr(s: &str) -> (r: bool)
    ensures
        r == quoted_array_lexeme(s@),
{
    let c = chars_of(s);
    let n = c.len();
    n >= 2 && c[0] == '\'' && c[1] == '[' && c[n - 2] == ']' && c[n - 1] == '\''
}

/// `s` without the pair of equal quotes around it, if it has one.
pub open spec fn unquote(s: Seq<char>) -> Seq<char> {
    if s.len() >= 2 && is_quote(s[0]) && s[s.len() - 1] == s[0] {
        s.subrange(1, s.len() - 1)
    } else {
        s
    }
}

/// The value of an isolated lexeme: an integer if it is one, else a float,
/// else a boolean, else a string without its quotes.
pub open spec fn scalar_of(s: Seq<char>) -> JValue {
    if int_lexeme(s) {
        JValue::Int(integral_value(s))
    } else if float_lexeme(s) {
        JValue::Float(s)
    } else if bool_lexeme(s) {
        JValue::Bool(s == seq!['t', 'r', 'u', 'e'])
    } else {
        JValue::Str(unquote(s))
    }
}

/// Decodes an isolated scalar lexeme, trying integer, float and boolean in
/// that order and falling back to a string.
pub fn classify_scalar(s: &str) -> (r: JsonValue)
    ensures
        r.view() == scalar_of(s@),
{
    let c = chars_of(s);
    assert(c@.subrange(0, c@.len() as int) =~= c@);
    if let Some(i) = int_value_of(&c) {
        return JsonValue::JsonInt(i);
    }
    if number_chars(&c) {
        return JsonValue::JsonFloat(string_of(&c, 0, c.len()));
    }
    if bool_chars(&c) {
        let t = c.len() == 4;
        assert(t == (c@ == seq!['t', 'r', 'u', 'e']));
        return JsonValue::JsonBoolean(t);
    }
    let n = c.len();
    if n >= 2 && (c[0] == '"' || c[0] == '\'') && c[n - 1] == c[0] {
        JsonValue::JsonString(string_of(&c, 1, n - 1))
    } else {
        JsonValue::JsonString(string_of(&c, 0, n))
    }
}

} // verus!
