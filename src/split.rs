use vstd::prelude::*;
use crate::lexer::is_quote;
use crate::text::{chars_of, slice_chars, string_of};

verus! {

/// Where a scan over a text stands: inside quotes or not (and which quote
/// opened them), where the current piece started, and the pieces closed so far.
pub struct Scan {
    pub in_quotes: bool,
    pub quote: char,
    pub start: Option<int>,
    pub pieces: Seq<(int, int)>,
}

/// A character of Unicode's `White_Space` property.
pub open spec fn is_unicode_space(c: char) -> bool {
    ('\u{9}' <= c && c <= '\u{D}') || c == ' ' || c == '\u{85}' || c == '\u{A0}' || c
        == '\u{1680}' || ('\u{2000}' <= c && c <= '\u{200A}') || c == '\u{2028}' || c
        == '\u{2029}' || c == '\u{202F}' || c == '\u{205F}' || c == '\u{3000}'
}

/// The character that ends a piece outside quotes: a comma, or Unicode
/// whitespace.
pub open spec fn is_separator(c: char, commas: bool) -> bool {
    if commas {
        c == ','
    } else {
        is_unicode_space(c)
    }
}

pub open spec fn started(st: Scan, i: int) -> Option<int> {
    match st.start {
        Some(a) => Some(a),
        None => Some(i),
    }
}

/// The scan after the character at `i`.
pub open spec fn scan_step(s: Seq<char>, st: Scan, i: int, commas: bool) -> Scan {
    let c = s[i];
    if is_quote(c) && !st.in_quotes {
        Scan { in_quotes: true, quote: c, start: started(st, i), ..st }
    } else if st.in_quotes && c == st.quote {
        Scan { in_quotes: false, ..st }
    } else if is_separator(c, commas) && !st.in_quotes {
        match st.start {
            Some(a) => Scan { start: None, pieces: st.pieces.push((a, i)), ..st },
            None => st,
        }
    } else {
        Scan { start: started(st, i), ..st }
    }
}

/// The scan after the first `n` characters of `s`.
pub open spec fn scan(s: Seq<char>, n: nat, commas: bool) -> Scan
    decreases n,
{
    if n == 0 {
        Scan { in_quotes: false, quote: '\0', start: None, pieces: Seq::empty() }
    } else {
        scan_step(s, scan(s, (n - 1) as nat, commas), n - 1, commas)
    }
}

/// The pieces of `s`, as ranges: a quoted part never ends a piece, and a
/// piece left open at the end of the text runs to its end.
pub open spec fn pieces(s: Seq<char>, commas: bool) -> Seq<(int, int)> {
    let st = scan(s, s.len(), commas);
    match st.start {
        Some(a) => st.pieces.push((a, s.len() as int)),
        None => st.pieces,
    }
}

/// The index of the first non-whitespace character of `s` from `i` on.
pub open spec fn lead(s: Seq<char>, i: int) -> int
    decreases s.len() - i,
{
    if 0 <= i < s.len() && is_unicode_space(s[i]) {
        lead(s, i + 1)
    } else {
        i
    }
}

/// The end of `s[..j]` without its trailing whitespace.
pub open spec fn trail(s: Seq<char>, j: int) -> int
    decreases j,
{
    if 0 < j <= s.len() && is_unicode_space(s[j - 1]) {
        trail(s, j - 1)
    } else {
        j
    }
}

/// `s` without leading and trailing Unicode whitespace.
pub open spec fn trim(s: Seq<char>) -> Seq<char> {
    let a = lead(s, 0);
    let b = trail(s, s.len() as int);
    if b <= a {
        Seq::empty()
    } else {
        s.subrange(a, b)
    }
}

/// The character at `i` ends a piece: a separator outside quotes.
pub open spec fn cuts_at(s: Seq<char>, i: int, commas: bool) -> bool {
    is_separator(s[i], commas) && !scan(s, i as nat, commas).in_quotes
}

/// Position `i` lies in one of the ranges `ps`.
pub open spec fn in_piece(ps: Seq<(int, int)>, i: int) -> bool {
    exists|k: int| 0 <= k < ps.len() && (#[trigger] ps[k]).0 <= i < ps[k].1
}

/// Position `i` lies in a range of `ps` or in the piece `st` has open.
pub open spec fn held(st: Scan, i: int) -> bool {
    in_piece(st.pieces, i) || (st.start matches Some(a) && a <= i)
}

/// What holds of the scan after the first `n` characters.
spec fn scan_inv(s: Seq<char>, n: nat, commas: bool) -> bool {
    let st = scan(s, n, commas);
    let ps = st.pieces;
    &&& st.in_quotes ==> st.start is Some
    &&& forall|k: int| 0 <= k < ps.len() ==> 0 <= (#[trigger] ps[k]).0 < ps[k].1 < n
    &&& forall|j: int, k: int| 0 <= j < k < ps.len() ==> (#[trigger] ps[j]).1 <= (#[trigger] ps[k]).0
    &&& st.start matches Some(a) ==> 0 <= a < n && forall|k: int| 0 <= k < ps.len() ==> (#[trigger] ps[k]).1 <= a
    &&& forall|i: int| 0 <= i < n ==> (held(st, i) <==> !#[trigger] cuts_at(s, i, commas))
}

proof fn lemma_scan_inv(s: Seq<char>, n: nat, commas: bool)
    requires
        n <= s.len(),
    ensures
        scan_inv(s, n, commas),
    decreases n,
{
    if n > 0 {
        let m = (n - 1) as nat;
        lemma_scan_inv(s, m, commas);
        let st = scan(s, m, commas);
        let nx = scan(s, n, commas);
        assert(nx == scan_step(s, st, m as int, commas));
        let c = s[m as int];
        assert forall|i: int| 0 <= i < n implies (held(nx, i) <==> !#[trigger] cuts_at(s, i, commas)) by {
            if i < m {
                if in_piece(st.pieces, i) {
                    let k = choose|k: int| 0 <= k < st.pieces.len() && (#[trigger] st.pieces[k]).0 <= i < st.pieces[k].1;
                    assert(nx.pieces.len() >= st.pieces.len());
                    assert(nx.pieces[k] == st.pieces[k]);
                }
                if in_piece(nx.pieces, i) {
                    let k = choose|k: int| 0 <= k < nx.pieces.len() && (#[trigger] nx.pieces[k]).0 <= i < nx.pieces[k].1;
                    if k < st.pieces.len() {
                        assert(nx.pieces[k] == st.pieces[k]);
                        assert(in_piece(st.pieces, i));
                    }
                }
                if let Some(a) = st.start {
                    if a <= i && nx.pieces.len() > st.pieces.len() {
                        assert(nx.pieces[st.pieces.len() as int] == (a, m as int));
                    }
                }
            } else {
                if in_piece(nx.pieces, i) {
                    let k = choose|k: int| 0 <= k < nx.pieces.len() && (#[trigger] nx.pieces[k]).0 <= i < nx.pieces[k].1;
                    if k < st.pieces.len() {
                        assert(nx.pieces[k] == st.pieces[k]);
                    }
                }
            }
        }
        let ps = nx.pieces;
        assert forall|k: int| 0 <= k < ps.len() implies 0 <= (#[trigger] ps[k]).0 < ps[k].1 < n by {
            if k < st.pieces.len() {
                assert(ps[k] == st.pieces[k]);
            }
        }
        assert forall|j: int, k: int| 0 <= j < k < ps.len() implies (#[trigger] ps[j]).1 <= (#[trigger] ps[k]).0 by {
            assert(ps[j] == st.pieces[j]);
            if k < st.pieces.len() {
                assert(ps[k] == st.pieces[k]);
            }
        }
        if let Some(a) = nx.start {
            assert forall|k: int| 0 <= k < ps.len() implies (#[trigger] ps[k]).1 <= a by {
                assert(ps[k] == st.pieces[k]);
            }
        }
    }
}

/// The pieces of `s` are non-empty ranges of `s`, in order and apart; a
/// character lies in a piece exactly when it is not a separator outside
/// quotes. So a piece holds no separator outside quotes, and together the
/// pieces cover every other character.
pub proof fn pieces_are_runs_between_cuts(s: Seq<char>, commas: bool)
    ensures
        forall|k: int|
            0 <= k < pieces(s, commas).len() ==> 0 <= (#[trigger] pieces(s, commas)[k]).0
                < pieces(s, commas)[k].1 <= s.len(),
        forall|j: int, k: int|
            0 <= j < k < pieces(s, commas).len() ==> (#[trigger] pieces(s, commas)[j]).1
                <= (#[trigger] pieces(s, commas)[k]).0,
        forall|k: int, i: int|
            0 <= k < pieces(s, commas).len() && (#[trigger] pieces(s, commas)[k]).0 <= i
                < pieces(s, commas)[k].1 ==> !#[trigger] cuts_at(s, i, commas),
        forall|i: int|
            0 <= i < s.len() ==> (in_piece(pieces(s, commas), i) <==> !#[trigger] cuts_at(
                s,
                i,
                commas,
            )),
{
    lemma_scan_inv(s, s.len(), commas);
    let st = scan(s, s.len(), commas);
    let ps = pieces(s, commas);
    assert forall|k: int| 0 <= k < ps.len() implies 0 <= (#[trigger] ps[k]).0 < ps[k].1 <= s.len() by {
        if k < st.pieces.len() {
            assert(ps[k] == st.pieces[k]);
        }
    }
    assert forall|j: int, k: int| 0 <= j < k < ps.len() implies (#[trigger] ps[j]).1 <= (#[trigger] ps[k]).0 by {
        assert(ps[j] == st.pieces[j]);
        if k < st.pieces.len() {
            assert(ps[k] == st.pieces[k]);
        }
    }
    assert forall|i: int| 0 <= i < s.len() implies (in_piece(ps, i) <==> !#[trigger] cuts_at(s, i, commas)) by {
        if in_piece(st.pieces, i) {
            let k = choose|k: int| 0 <= k < st.pieces.len() && (#[trigger] st.pieces[k]).0 <= i < st.pieces[k].1;
            assert(ps[k] == st.pieces[k]);
        }
        if in_piece(ps, i) {
            let k = choose|k: int| 0 <= k < ps.len() && (#[trigger] ps[k]).0 <= i < ps[k].1;
            if k < st.pieces.len() {
                assert(ps[k] == st.pieces[k]);
                assert(in_piece(st.pieces, i));
            }
        }
        if let Some(a) = st.start {
            if a <= i {
                assert(ps[st.pieces.len() as int] == (a, s.len() as int));
            }
        }
    }
    assert forall|k: int, i: int|
        0 <= k < ps.len() && (#[trigger] ps[k]).0 <= i < ps[k].1 implies !#[trigger] cuts_at(s, i, commas) by {
        assert(in_piece(ps, i));
    }
}

proof fn lemma_lead(s: Seq<char>, i: int)
    requires
        0 <= i <= s.len(),
    ensures
        i <= lead(s, i) <= s.len(),
        lead(s, i) < s.len() ==> !is_unicode_space(s[lead(s, i)]),
    decreases s.len() - i,
{
    if i < s.len() && is_unicode_space(s[i]) {
        lemma_lead(s, i + 1);
    }
}

proof fn lemma_trail(s: Seq<char>, j: int)
    requires
        0 <= j <= s.len(),
    ensures
        0 <= trail(s, j) <= j,
        trail(s, j) > 0 ==> !is_unicode_space(s[trail(s, j) - 1]),
    decreases j,
{
    if 0 < j && is_unicode_space(s[j - 1]) {
        lemma_trail(s, j - 1);
    }
}

/// A trimmed text neither starts nor ends with Unicode whitespace.
pub proof fn trim_has_no_outer_whitespace(s: Seq<char>)
    ensures
        trim(s).len() > 0 ==> !is_unicode_space(trim(s)[0]) && !is_unicode_space(
            trim(s)[trim(s).len() - 1],
        ),
{
    lemma_lead(s, 0);
    lemma_trail(s, s.len() as int);
}

/// Whether `c` is Unicode whitespace.
pub fn unicode_space(c: char) -> (r: bool)
    ensures
        r == is_unicode_space(c),
{
    ('\u{9}' <= c && c <= '\u{D}') || c == ' ' || c == '\u{85}' || c == '\u{A0}' || c
        == '\u{1680}' || ('\u{2000}' <= c && c <= '\u{200A}') || c == '\u{2028}' || c
        == '\u{2029}' || c == '\u{202F}' || c == '\u{205F}' || c == '\u{3000}'
}

/// The piece ranges of `c`, as `pieces` gives them.
fn piece_ranges(c: &Vec<char>, commas: bool) -> (r: Vec<(usize, usize)>)
    ensures
        r@.len() == pieces(c@, commas).len(),
        forall|k: int|
            0 <= k < r@.len() ==> (#[trigger] r@[k]).0 as int == pieces(c@, commas)[k].0
                && r@[k].1 as int == pieces(c@, commas)[k].1 && r@[k].0 <= r@[k].1 <= c@.len(),
{
    let mut in_quotes = false;
    let mut quote: char = '\0';
    let mut start: Option<usize> = None;
    let mut out: Vec<(usize, usize)> = Vec::new();
    let mut i: usize = 0;
    while i < c.len()
        invariant
            i <= c@.len(),
            ({
                let st = scan(c@, i as nat, commas);
                &&& st.in_quotes == in_quotes
                &&& st.quote == quote
                &&& st.start == match start {
                    Some(a) => Some(a as int),
                    None => None::<int>,
                }
                &&& st.pieces.len() == out@.len()
                &&& forall|k: int|
                    0 <= k < out@.len() ==> (#[trigger] out@[k]).0 as int == st.pieces[k].0
                        && out@[k].1 as int == st.pieces[k].1
            }),
            start matches Some(a) ==> a <= i,
            forall|k: int| 0 <= k < out@.len() ==> (#[trigger] out@[k]).0 <= out@[k].1 <= i,
        decreases c@.len() - i,
    {
        let ch = c[i];
        let sep = if commas {
            ch == ','
        } else {
            unicode_space(ch)
        };
        if (ch == '"' || ch == '\'') && !in_quotes {
            in_quotes = true;
            quote = ch;
            if start.is_none() {
                start = Some(i);
            }
        } else if in_quotes && ch == quote {
            in_quotes = false;
        } else if sep && !in_quotes {
            if let Some(a) = start {
                out.push((a, i));
                start = None;
            }
        } else {
            if start.is_none() {
                start = Some(i);
            }
        }
        i = i + 1;
    }
    let n = c.len();
    if let Some(a) = start {
        out.push((a, n));
    }
    out
}

/// Splits `input` on Unicode whitespace outside quotes; a quoted part, with the
/// quotes around it, stays inside its piece.
pub fn split_preserving_quotes(input: &str) -> (r: Vec<String>)
    ensures
        r@.len() == pieces(input@, false).len(),
        forall|k: int|
            0 <= k < r@.len() ==> (#[trigger] r@[k])@ == input@.subrange(
                pieces(input@, false)[k].0,
                pieces(input@, false)[k].1,
            ),
{
    let c = chars_of(input);
    let ranges = piece_ranges(&c, false);
    let mut out: Vec<String> = Vec::new();
    let mut k: usize = 0;
    while k < ranges.len()
        invariant
            c@ == input@,
            k <= ranges@.len(),
            out@.len() == k,
            ranges@.len() == pieces(c@, false).len(),
            forall|j: int|
                0 <= j < ranges@.len() ==> (#[trigger] ranges@[j]).0 as int == pieces(
                    c@,
                    false,
                )[j].0 && ranges@[j].1 as int == pieces(c@, false)[j].1 && ranges@[j].0
                    <= ranges@[j].1 <= c@.len(),
            forall|j: int|
                0 <= j < k ==> (#[trigger] out@[j])@ == c@.subrange(
                    pieces(c@, false)[j].0,
                    pieces(c@, false)[j].1,
                ),
        decreases ranges@.len() - k,
    {
        let (a, b) = ranges[k];
        out.push(string_of(&c, a, b));
        k = k + 1;
    }
    out
}

/// Splits `input` on commas outside quotes and trims the Unicode whitespace
/// around each piece.
pub fn split_on_commas_preserving_quotes(input: &str) -> (r: Vec<String>)
    ensures
        r@.len() == pieces(input@, true).len(),
        forall|k: int|
            0 <= k < r@.len() ==> (#[trigger] r@[k])@ == trim(
                input@.subrange(pieces(input@, true)[k].0, pieces(input@, true)[k].1),
            ),
{
    let c = chars_of(input);
    let ranges = piece_ranges(&c, true);
    let mut out: Vec<String> = Vec::new();
    let mut k: usize = 0;
    while k < ranges.len()
        invariant
            c@ == input@,
            k <= ranges@.len(),
            out@.len() == k,
            ranges@.len() == pieces(c@, true).len(),
            forall|j: int|
                0 <= j < ranges@.len() ==> (#[trigger] ranges@[j]).0 as int == pieces(
                    c@,
                    true,
                )[j].0 && ranges@[j].1 as int == pieces(c@, true)[j].1 && ranges@[j].0
                    <= ranges@[j].1 <= c@.len(),
            forall|j: int|
                0 <= j < k ==> (#[trigger] out@[j])@ == trim(
                    c@.subrange(pieces(c@, true)[j].0, pieces(c@, true)[j].1),
                ),
        decreases ranges@.len() - k,
    {
        let (a, b) = ranges[k];
        let piece = slice_chars(&c, a, b);
        out.push(trimmed(&piece));
        k = k + 1;
    }
    out
}

/// `c` without leading and trailing Unicode whitespace.
fn trimmed(c: &Vec<char>) -> (r: String)
    ensures
        r@ == trim(c@),
{
    let mut a: usize = 0;
    while a < c.len() && unicode_space(c[a])
        invariant
            a <= c@.len(),
            lead(c@, 0) == lead(c@, a as int),
        decreases c@.len() - a,
    {
        a = a + 1;
    }
    let mut b: usize = c.len();
    while b > 0 && unicode_space(c[b - 1])
        invariant
            b <= c@.len(),
            trail(c@, c@.len() as int) == trail(c@, b as int),
        decreases b,
    {
        b = b - 1;
    }
    if b <= a {
        String::new()
    } else {
        string_of(c, a, b)
    }
}

} // verus!
