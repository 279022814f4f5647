use vstd::prelude::*;
use crate::classify::{is_digit, is_sign, number_chars, number_lexeme};
use crate::text::{chars_of, slice_chars, string_of};
use crate::value::JsonError;

verus! {

/// A lexical unit of a JSON document.
#[derive(Debug)]
pub enum Token {
    LBrace,
    RBrace,
    LBracket,
    RBracket,
    Colon,
    Comma,
    /// The characters between the quotes, escape sequences kept as written.
    Str(String),
    /// A number lexeme, as written.
    Num(String),
    True,
    False,
    Null,
}

/// The model of a token.
pub enum Tok {
    LBrace,
    RBrace,
    LBracket,
    RBracket,
    Colon,
    Comma,
    Str(Seq<char>),
    Num(Seq<char>),
    True,
    False,
    Null,
}

impl Token {
    pub open spec fn view(&self) -> Tok {
        match self {
            Token::LBrace => Tok::LBrace,
            Token::RBrace => Tok::RBrace,
            Token::LBracket => Tok::LBracket,
            Token::RBracket => Tok::RBracket,
            Token::Colon => Tok::Colon,
            Token::Comma => Tok::Comma,
            Token::Str(s) => Tok::Str(s@),
            Token::Num(s) => Tok::Num(s@),
            Token::True => Tok::True,
            Token::False => Tok::False,
            Token::Null => Tok::Null,
        }
    }
}

pub open spec fn toks_view(v: Seq<Token>) -> Seq<Tok> {
    v.map_values(|t: Token| t.view())
}

/// Insignificant whitespace between tokens.
pub open spec fn is_space(c: char) -> bool {
    c == ' ' || c == '\t' || c == '\n' || c == '\r'
}

pub open spec fn is_quote(c: char) -> bool {
    c == '"' || c == '\''
}

pub open spec fn is_number_char(c: char) -> bool {
    is_digit(c) || is_sign(c) || c == '.' || c == 'e' || c == 'E'
}

/// The token that a structural character stands for.
pub open spec fn punct(c: char) -> Option<Tok> {
    if c == '{' {
        Some(Tok::LBrace)
    } else if c == '}' {
        Some(Tok::RBrace)
    } else if c == '[' {
        Some(Tok::LBracket)
    } else if c == ']' {
        Some(Tok::RBracket)
    } else if c == ':' {
        Some(Tok::Colon)
    } else if c == ',' {
        Some(Tok::Comma)
    } else {
        None
    }
}

/// Where the string whose body starts at `j` is closed by `q`: a backslash
/// takes the character after it along, so an escaped quote does not close it.
pub open spec fn string_end(s: Seq<char>, j: int, q: char) -> Option<int>
    decreases s.len() - j,
{
    if j < 0 || j >= s.len() {
        None
    } else if s[j] == '\\' {
        if j + 1 < s.len() {
            string_end(s, j + 2, q)
        } else {
            None
        }
    } else if s[j] == q {
        Some(j)
    } else {
        string_end(s, j + 1, q)
    }
}

/// The end of the run of number characters that starts at `j`.
pub open spec fn number_end(s: Seq<char>, j: int) -> int
    decreases s.len() - j,
{
    if 0 <= j < s.len() && is_number_char(s[j]) {
        number_end(s, j + 1)
    } else {
        j
    }
}

pub open spec fn keyword_at(s: Seq<char>, i: int, w: Seq<char>) -> bool {
    0 <= i && i + w.len() <= s.len() && s.subrange(i, i + w.len()) == w
}

pub open spec fn cons(t: Tok, r: Option<Seq<Tok>>) -> Option<Seq<Tok>> {
    match r {
        Some(x) => Some(seq![t] + x),
        None => None,
    }
}

pub open spec fn prepend(p: Seq<Tok>, r: Option<Seq<Tok>>) -> Option<Seq<Tok>> {
    match r {
        Some(x) => Some(p + x),
        None => None,
    }
}

/// The tokens of `s` from position `i` on, or `None` where lexing fails.
pub open spec fn lex_from(s: Seq<char>, i: int) -> Option<Seq<Tok>>
    decreases s.len() - i,
{
    if i < 0 || i >= s.len() {
        Some(Seq::empty())
    } else {
        let c = s[i];
        if is_space(c) {
            lex_from(s, i + 1)
        } else if punct(c) is Some {
            cons(punct(c)->0, lex_from(s, i + 1))
        } else if is_quote(c) {
            match string_end(s, i + 1, c) {
                Some(e) => if i < e < s.len() {
                    cons(Tok::Str(s.subrange(i + 1, e)), lex_from(s, e + 1))
                } else {
                    None
                },
                None => None,
            }
        } else if is_digit(c) || is_sign(c) {
            let e = number_end(s, i);
            if i < e <= s.len() && number_lexeme(s.subrange(i, e)) {
                cons(Tok::Num(s.subrange(i, e)), lex_from(s, e))
            } else {
                None
            }
        } else if keyword_at(s, i, seq!['t', 'r', 'u', 'e']) {
            cons(Tok::True, lex_from(s, i + 4))
        } else if keyword_at(s, i, seq!['f', 'a', 'l', 's', 'e']) {
            cons(Tok::False, lex_from(s, i + 5))
        } else if keyword_at(s, i, seq!['n', 'u', 'l', 'l']) {
            cons(Tok::Null, lex_from(s, i + 4))
        } else {
            None
        }
    }
}

/// The tokens of a whole text.
pub open spec fn lex(s: Seq<char>) -> Option<Seq<Tok>> {
    lex_from(s, 0)
}

proof fn lemma_prepend_cons(p: Seq<Tok>, t: Tok, r: Option<Seq<Tok>>)
    ensures
        prepend(p, cons(t, r)) == prepend(p.push(t), r),
{
    if let Some(x) = r {
        assert(p + (seq![t] + x) =~= p.push(t) + x);
    }
}

fn punct_token(c: char) -> (r: Option<Token>)
    ensures
        match r {
            Some(t) => punct(c) == Some(t.view()),
            None => punct(c) is None,
        },
{
    if c == '{' {
        Some(Token::LBrace)
    } else if c == '}' {
        Some(Token::RBrace)
    } else if c == '[' {
        Some(Token::LBracket)
    } else if c == ']' {
        Some(Token::RBracket)
    } else if c == ':' {
        Some(Token::Colon)
    } else if c == ',' {
        Some(Token::Comma)
    } else {
        None
    }
}

fn find_string_end(c: &Vec<char>, start: usize, q: char) -> (r: Option<usize>)
    ensures
        match r {
            Some(e) => string_end(c@, start as int, q) == Some(e as int) && start <= e < c@.len(),
            None => string_end(c@, start as int, q) is None,
        },
{
    let mut j: usize = start;
    while j < c.len()
        invariant
            start <= j,
            string_end(c@, start as int, q) == string_end(c@, j as int, q),
        decreases c@.len() - j,
    {
        if c[j] == '\\' {
            if c.len() - j < 2 {
                return None;
            }
            j = j + 2;
        } else if c[j] == q {
            return Some(j);
        } else {
            j = j + 1;
        }
    }
    None
}

fn find_number_end(c: &Vec<char>, start: usize) -> (r: usize)
    requires
        start <= c@.len(),
    ensures
        r as int == number_end(c@, start as int),
        start <= r <= c@.len(),
{
    let mut j: usize = start;
    while j < c.len() && (('0' <= c[j] && c[j] <= '9') || c[j] == '-' || c[j] == '+' || c[j]
        == '.' || c[j] == 'e' || c[j] == 'E')
        invariant
            start <= j <= c@.len(),
            number_end(c@, start as int) == number_end(c@, j as int),
        decreases c@.len() - j,
    {
        j = j + 1;
    }
    j
}

fn keyword_here(c: &Vec<char>, i: usize, w: &str) -> (r: bool)
    ensures
        r == keyword_at(c@, i as int, w@),
{
    let wc = chars_of(w);
    let n = wc.len();
    if n > c.len() || i > c.len() - n {
        return false;
    }
    let m = c.len();
    let mut k: usize = 0;
    while k < n
        invariant
            m == c@.len(),
            i + n <= m,
            n == wc@.len(),
            wc@ == w@,
            k <= n,
            c@.subrange(i as int, i + k) == wc@.subrange(0, k as int),
        decreases n - k,
    {
        if c[i + k] != wc[k] {
            assert(c@.subrange(i as int, i + n)[k as int] != w@[k as int]);
            return false;
        }
        k = k + 1;
        assert(c@.subrange(i as int, i + k) =~= wc@.subrange(0, k as int));
    }
    assert(wc@.subrange(0, n as int) =~= wc@);
    true
}

/// Splits `text` into tokens; fails with `LexError` on an unterminated
/// string, a malformed number or a character that starts no token.
pub fn tokenize(text: &str) -> (r: Result<Vec<Token>, JsonError>)
    ensures
        match lex(text@) {
            Some(t) => r matches Ok(v) && toks_view(v@) == t,
            None => r == Err::<Vec<Token>, JsonError>(JsonError::LexError),
        },
{
    let c = chars_of(text);
    let mut out: Vec<Token> = Vec::new();
    let mut i: usize = 0;
    while i < c.len()
        invariant
            c@ == text@,
            i <= c@.len(),
            lex_from(c@, 0) == prepend(toks_view(out@), lex_from(c@, i as int)),
        decreases c@.len() - i,
    {
        let ch = c[i];
        let ghost before = toks_view(out@);
        if ch == ' ' || ch == '\t' || ch == '\n' || ch == '\r' {
            i = i + 1;
        } else if let Some(t) = punct_token(ch) {
            proof {
                lemma_prepend_cons(before, t.view(), lex_from(c@, i + 1));
            }
            out.push(t);
            assert(toks_view(out@) =~= before.push(t.view()));
            i = i + 1;
        } else if ch == '"' || ch == '\'' {
            match find_string_end(&c, i + 1, ch) {
                Some(e) => {
                    let body = string_of(&c, i + 1, e);
                    let t = Token::Str(body);
                    proof {
                        lemma_prepend_cons(before, t.view(), lex_from(c@, e + 1));
                    }
                    out.push(t);
                    assert(toks_view(out@) =~= before.push(t.view()));
                    i = e + 1;
                },
                None => {
                    return Err(JsonError::LexError);
                },
            }
        } else if ('0' <= ch && ch <= '9') || ch == '-' || ch == '+' {
            let e = find_number_end(&c, i);
            let lexeme = slice_chars(&c, i, e);
            if !number_chars(&lexeme) {
                return Err(JsonError::LexError);
            }
            let t = Token::Num(string_of(&c, i, e));
            proof {
                lemma_prepend_cons(before, t.view(), lex_from(c@, e as int));
            }
            out.push(t);
            assert(toks_view(out@) =~= before.push(t.view()));
            i = e;
        } else if keyword_here(&c, i, "true") {
            proof {
                reveal_strlit("true");
                assert("true"@ =~= seq!['t', 'r', 'u', 'e']);
                lemma_prepend_cons(before, Tok::True, lex_from(c@, i + 4));
            }
            out.push(Token::True);
            assert(toks_view(out@) =~= before.push(Tok::True));
            i = i + 4;
        } else if keyword_here(&c, i, "false") {
            proof {
                reveal_strlit("false");
                assert("false"@ =~= seq!['f', 'a', 'l', 's', 'e']);
                lemma_prepend_cons(before, Tok::False, lex_from(c@, i + 5));
            }
            out.push(Token::False);
            assert(toks_view(out@) =~= before.push(Tok::False));
            i = i + 5;
        } else if keyword_here(&c, i, "null") {
            proof {
                reveal_strlit("null");
                assert("null"@ =~= seq!['n', 'u', 'l', 'l']);
                lemma_prepend_cons(before, Tok::Null, lex_from(c@, i + 4));
            }
            out.push(Token::Null);
            assert(toks_view(out@) =~= before.push(Tok::Null));
            i = i + 4;
        } else {
            proof {
                reveal_strlit("true");
                reveal_strlit("false");
                reveal_strlit("null");
                assert("true"@ =~= seq!['t', 'r', 'u', 'e']);
                assert("false"@ =~= seq!['f', 'a', 'l', 's', 'e']);
                assert("null"@ =~= seq!['n', 'u', 'l', 'l']);
            }
            return Err(JsonError::LexError);
        }
    }
    assert(toks_view(out@) + Seq::<Tok>::empty() =~= toks_view(out@));
    Ok(out)
}

} // verus!
