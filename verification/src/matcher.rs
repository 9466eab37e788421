//! The citation marker grammar. A sentence is scanned left to right; at each
//! position the three marker forms are tried in a fixed priority order:
//! parenthetical author-year `(Author, 1234)`, bracketed numeric `[12]`, and
//! bare author-year `Name Name 1234`. The first form that matches at the
//! leftmost possible position wins, and scanning resumes after the match, so
//! the reported matches are non-overlapping and in textual order.

use crate::text::is_ws;
use vstd::prelude::*;

verus! {

/// An ASCII decimal digit. Years and bracketed numbers are recognized in
/// ASCII digits only.
pub open spec fn is_digit(c: char) -> bool {
    48 <= c as u32 && c as u32 <= 57
}

/// An ASCII upper-case letter.
pub open spec fn is_upper(c: char) -> bool {
    65 <= c as u32 && c as u32 <= 90
}

/// An ASCII letter.
pub open spec fn is_letter(c: char) -> bool {
    is_upper(c) || (97 <= c as u32 && c as u32 <= 122)
}

/// A word character for the purpose of word boundaries: an ASCII letter, an
/// ASCII digit, or an underscore. This deliberately restricts the boundary
/// test to ASCII: a marker sitting next to a non-ASCII letter is treated as
/// boundary-adjacent, where a fully Unicode-aware word boundary would not
/// be. Author names and years inside the markers themselves are ASCII by the
/// grammar, so the restriction only shows on non-ASCII text butted directly
/// against a marker.
pub open spec fn is_word_char(c: char) -> bool {
    is_letter(c) || is_digit(c) || c == '_'
}

/// A character allowed inside the first token of a bare author-year marker:
/// a letter or a period.
pub open spec fn is_letter_dot(c: char) -> bool {
    is_letter(c) || c == '.'
}

pub fn digit_char(c: char) -> (r: bool)
    ensures
        r == is_digit(c),
{
    let u = c as u32;
    48 <= u && u <= 57
}

pub fn upper_char(c: char) -> (r: bool)
    ensures
        r == is_upper(c),
{
    let u = c as u32;
    65 <= u && u <= 90
}

pub fn letter_char(c: char) -> (r: bool)
    ensures
        r == is_letter(c),
{
    let u = c as u32;
    (65 <= u && u <= 90) || (97 <= u && u <= 122)
}

pub fn word_char(c: char) -> (r: bool)
    ensures
        r == is_word_char(c),
{
    letter_char(c) || digit_char(c) || c == '_'
}

pub fn letter_dot_char(c: char) -> (r: bool)
    ensures
        r == is_letter_dot(c),
{
    letter_char(c) || c == '.'
}

/// The end of the run of digits beginning at `q`.
pub open spec fn digit_run(s: Seq<char>, q: int) -> int
    decreases s.len() - q,
{
    if 0 <= q < s.len() && is_digit(s[q]) {
        digit_run(s, q + 1)
    } else {
        q
    }
}

/// The end of the run of whitespace beginning at `q`.
pub open spec fn ws_run(s: Seq<char>, q: int) -> int
    decreases s.len() - q,
{
    if 0 <= q < s.len() && is_ws(s[q]) {
        ws_run(s, q + 1)
    } else {
        q
    }
}

/// The end of the run of non-comma characters beginning at `q`.
pub open spec fn noncomma_run(s: Seq<char>, q: int) -> int
    decreases s.len() - q,
{
    if 0 <= q < s.len() && s[q] != ',' {
        noncomma_run(s, q + 1)
    } else {
        q
    }
}

/// The end of the run of letters beginning at `q`.
pub open spec fn letter_run(s: Seq<char>, q: int) -> int
    decreases s.len() - q,
{
    if 0 <= q < s.len() && is_letter(s[q]) {
        letter_run(s, q + 1)
    } else {
        q
    }
}

/// The end of the run of letters and periods beginning at `q`.
pub open spec fn letter_dot_run(s: Seq<char>, q: int) -> int
    decreases s.len() - q,
{
    if 0 <= q < s.len() && is_letter_dot(s[q]) {
        letter_dot_run(s, q + 1)
    } else {
        q
    }
}

pub proof fn lemma_digit_run(s: Seq<char>, q: int)
    requires
        0 <= q <= s.len(),
    ensures
        q <= digit_run(s, q) <= s.len(),
    decreases s.len() - q,
{
    if q < s.len() && is_digit(s[q]) {
        lemma_digit_run(s, q + 1);
    }
}

pub proof fn lemma_ws_run(s: Seq<char>, q: int)
    requires
        0 <= q <= s.len(),
    ensures
        q <= ws_run(s, q) <= s.len(),
    decreases s.len() - q,
{
    if q < s.len() && is_ws(s[q]) {
        lemma_ws_run(s, q + 1);
    }
}

pub proof fn lemma_noncomma_run(s: Seq<char>, q: int)
    requires
        0 <= q <= s.len(),
    ensures
        q <= noncomma_run(s, q) <= s.len(),
        noncomma_run(s, q) < s.len() ==> s[noncomma_run(s, q)] == ',',
    decreases s.len() - q,
{
    if q < s.len() && s[q] != ',' {
        lemma_noncomma_run(s, q + 1);
    }
}

pub proof fn lemma_letter_run(s: Seq<char>, q: int)
    requires
        0 <= q <= s.len(),
    ensures
        q <= letter_run(s, q) <= s.len(),
    decreases s.len() - q,
{
    if q < s.len() && is_letter(s[q]) {
        lemma_letter_run(s, q + 1);
    }
}

pub proof fn lemma_letter_dot_run(s: Seq<char>, q: int)
    requires
        0 <= q <= s.len(),
    ensures
        q <= letter_dot_run(s, q) <= s.len(),
    decreases s.len() - q,
{
    if q < s.len() && is_letter_dot(s[q]) {
        lemma_letter_dot_run(s, q + 1);
    }
}

pub fn digit_run_exec(s: &Vec<char>, q: usize) -> (r: usize)
    requires
        q <= s@.len(),
    ensures
        r == digit_run(s@, q as int),
        q <= r <= s@.len(),
{
    let mut i = q;
    while i < s.len() && digit_char(s[i])
        invariant
            q <= i <= s@.len(),
            digit_run(s@, q as int) == digit_run(s@, i as int),
        decreases s@.len() - i,
    {
        proof {
            assert(digit_run(s@, i as int) == digit_run(s@, i + 1));
        }
        i = i + 1;
    }
    proof {
        assert(digit_run(s@, i as int) == i as int);
    }
    i
}

pub fn ws_run_exec(s: &Vec<char>, q: usize) -> (r: usize)
    requires
        q <= s@.len(),
    ensures
        r == ws_run(s@, q as int),
        q <= r <= s@.len(),
{
    let mut i = q;
    while i < s.len() && crate::text::ws_char(s[i])
        invariant
            q <= i <= s@.len(),
            ws_run(s@, q as int) == ws_run(s@, i as int),
        decreases s@.len() - i,
    {
        proof {
            assert(ws_run(s@, i as int) == ws_run(s@, i + 1));
        }
        i = i + 1;
    }
    proof {
        assert(ws_run(s@, i as int) == i as int);
    }
    i
}

pub fn noncomma_run_exec(s: &Vec<char>, q: usize) -> (r: usize)
    requires
        q <= s@.len(),
    ensures
        r == noncomma_run(s@, q as int),
        q <= r <= s@.len(),
{
    let mut i = q;
    while i < s.len() && s[i] != ','
        invariant
            q <= i <= s@.len(),
            noncomma_run(s@, q as int) == noncomma_run(s@, i as int),
        decreases s@.len() - i,
    {
        proof {
            assert(noncomma_run(s@, i as int) == noncomma_run(s@, i + 1));
        }
        i = i + 1;
    }
    proof {
        assert(noncomma_run(s@, i as int) == i as int);
    }
    i
}

pub fn letter_run_exec(s: &Vec<char>, q: usize) -> (r: usize)
    requires
        q <= s@.len(),
    ensures
        r == letter_run(s@, q as int),
        q <= r <= s@.len(),
{
    let mut i = q;
    while i < s.len() && letter_char(s[i])
        invariant
            q <= i <= s@.len(),
            letter_run(s@, q as int) == letter_run(s@, i as int),
        decreases s@.len() - i,
    {
        proof {
            assert(letter_run(s@, i as int) == letter_run(s@, i + 1));
        }
        i = i + 1;
    }
    proof {
        assert(letter_run(s@, i as int) == i as int);
    }
    i
}

pub fn letter_dot_run_exec(s: &Vec<char>, q: usize) -> (r: usize)
    requires
        q <= s@.len(),
    ensures
        r == letter_dot_run(s@, q as int),
        q <= r <= s@.len(),
{
    let mut i = q;
    while i < s.len() && letter_dot_char(s[i])
        invariant
            q <= i <= s@.len(),
            letter_dot_run(s@, q as int) == letter_dot_run(s@, i as int),
        decreases s@.len() - i,
    {
        proof {
            assert(letter_dot_run(s@, i as int) == letter_dot_run(s@, i + 1));
        }
        i = i + 1;
    }
    proof {
        assert(letter_dot_run(s@, i as int) == i as int);
    }
    i
}

/// A parenthetical author-year marker starting at `p`: an opening
/// parenthesis, a non-empty author fragment free of commas, a comma,
/// optional whitespace, exactly four digits, and a closing parenthesis.
/// The result is the position just past the marker together with the
/// citation identifier, `author year`.
pub open spec fn paren_at(s: Seq<char>, p: int) -> Option<(int, Seq<char>)> {
    if !(0 <= p < s.len() && s[p] == '(') {
        None
    } else {
        let a = noncomma_run(s, p + 1);
        if a == p + 1 || a >= s.len() {
            None
        } else {
            let d = ws_run(s, a + 1);
            if d + 5 <= s.len() && is_digit(s[d]) && is_digit(s[d + 1]) && is_digit(s[d + 2])
                && is_digit(s[d + 3]) && s[d + 4] == ')' {
                Some((d + 5, s.subrange(p + 1, a) + seq![' '] + s.subrange(d, d + 4)))
            } else {
                None
            }
        }
    }
}

/// A bracketed numeric marker starting at `p`: an opening bracket, one or
/// more digits, and a closing bracket. The identifier is the matched text,
/// brackets included.
pub open spec fn bracket_at(s: Seq<char>, p: int) -> Option<(int, Seq<char>)> {
    if !(0 <= p < s.len() && s[p] == '[') {
        None
    } else {
        let d = digit_run(s, p + 1);
        if d > p + 1 && d < s.len() && s[d] == ']' {
            Some((d + 1, s.subrange(p, d + 1)))
        } else {
            None
        }
    }
}

/// The position after the last complete whitespace-separated capitalized
/// token reachable from `q`: repeatedly consume whitespace followed by an
/// upper-case letter and at least one more letter, as long as both are there.
pub open spec fn tokens_end(s: Seq<char>, q: int) -> int
    decreases s.len() - q,
{
    if !(0 <= q <= s.len()) {
        q
    } else {
        let w = ws_run(s, q);
        if w > q && w < s.len() && is_upper(s[w]) {
            let t = letter_run(s, w + 1);
            if w + 1 < t && t <= s.len() {
                tokens_end(s, t)
            } else {
                q
            }
        } else {
            q
        }
    }
}

pub proof fn lemma_tokens_end(s: Seq<char>, q: int)
    requires
        0 <= q <= s.len(),
    ensures
        q <= tokens_end(s, q) <= s.len(),
    decreases s.len() - q,
{
    let w = ws_run(s, q);
    lemma_ws_run(s, q);
    if w > q && w < s.len() && is_upper(s[w]) {
        let t = letter_run(s, w + 1);
        lemma_letter_run(s, w + 1);
        if w + 1 < t && t <= s.len() {
            lemma_tokens_end(s, t);
        }
    }
}

/// A bare author-year marker starting at `p`: at a word boundary, a
/// capitalized first token of letters and periods, further whitespace-separated
/// capitalized tokens, then whitespace and exactly four digits ending at a
/// word boundary. The identifier is the matched text.
pub open spec fn bare_at(s: Seq<char>, p: int) -> Option<(int, Seq<char>)> {
    if !(0 <= p < s.len() && is_upper(s[p]) && (p == 0 || !is_word_char(s[p - 1]))) {
        None
    } else {
        let t1 = letter_dot_run(s, p + 1);
        if t1 == p + 1 {
            None
        } else {
            let g = tokens_end(s, t1);
            let w = ws_run(s, g);
            if w > g && w + 4 <= s.len() && is_digit(s[w]) && is_digit(s[w + 1])
                && is_digit(s[w + 2]) && is_digit(s[w + 3])
                && (w + 4 == s.len() || !is_word_char(s[w + 4])) {
                Some((w + 4, s.subrange(p, w + 4)))
            } else {
                None
            }
        }
    }
}

/// The match starting exactly at `p`, if any, trying the three marker forms
/// in priority order.
pub open spec fn match_at(s: Seq<char>, p: int) -> Option<(int, Seq<char>)> {
    if paren_at(s, p) is Some {
        paren_at(s, p)
    } else if bracket_at(s, p) is Some {
        bracket_at(s, p)
    } else {
        bare_at(s, p)
    }
}

/// Every match ends after its starting position and within the sentence.
pub proof fn lemma_match_at_bounds(s: Seq<char>, p: int)
    requires
        0 <= p < s.len(),
        match_at(s, p) is Some,
    ensures
        p < match_at(s, p)->Some_0.0 <= s.len(),
{
    if paren_at(s, p) is Some {
        lemma_noncomma_run(s, p + 1);
        let a = noncomma_run(s, p + 1);
        lemma_ws_run(s, a + 1);
    } else if bracket_at(s, p) is Some {
        lemma_digit_run(s, p + 1);
    } else {
        lemma_letter_dot_run(s, p + 1);
        let t1 = letter_dot_run(s, p + 1);
        lemma_tokens_end(s, t1);
        let g = tokens_end(s, t1);
        lemma_ws_run(s, g);
    }
}

/// The identifiers of the matches found scanning `s` from `p` to the end,
/// in textual order.
pub open spec fn match_ids_from(s: Seq<char>, p: int) -> Seq<Seq<char>>
    decreases s.len() - p,
{
    if !(0 <= p < s.len()) {
        Seq::empty()
    } else {
        match match_at(s, p) {
            Some(m) => if p < m.0 && m.0 <= s.len() {
                seq![m.1] + match_ids_from(s, m.0)
            } else {
                Seq::empty()
            },
            None => match_ids_from(s, p + 1),
        }
    }
}

/// The identifiers of all citation markers in the sentence `s`, in the order
/// their matches occur.
pub open spec fn sentence_ids(s: Seq<char>) -> Seq<Seq<char>> {
    match_ids_from(s, 0)
}

/// Appends `s[a..b]` to `out`.
pub fn append_range(out: &mut Vec<char>, s: &Vec<char>, a: usize, b: usize)
    requires
        a <= b <= s@.len(),
    ensures
        final(out)@ == old(out)@ + s@.subrange(a as int, b as int),
{
    let mut i = a;
    while i < b
        invariant
            a <= i <= b <= s@.len(),
            out@ == old(out)@ + s@.subrange(a as int, i as int),
        decreases b - i,
    {
        out.push(s[i]);
        i = i + 1;
        proof {
            assert(out@ =~= old(out)@ + s@.subrange(a as int, i as int));
        }
    }
    proof {
        assert(old(out)@ + s@.subrange(a as int, a as int) =~= old(out)@);
    }
}

fn paren_try(s: &Vec<char>, p: usize) -> (r: Option<(usize, Vec<char>)>)
    requires
        p < s@.len(),
    ensures
        match r {
            Some(m) => paren_at(s@, p as int) == Some((m.0 as int, m.1@)),
            None => paren_at(s@, p as int) is None,
        },
{
    let n = s.len();
    if s[p] != '(' {
        return None;
    }
    let a = noncomma_run_exec(s, p + 1);
    if a == p + 1 || a >= s.len() {
        return None;
    }
    let d = ws_run_exec(s, a + 1);
    if s.len() - d >= 5 && digit_char(s[d]) && digit_char(s[d + 1]) && digit_char(s[d + 2])
        && digit_char(s[d + 3]) && s[d + 4] == ')' {
        let mut id: Vec<char> = Vec::new();
        append_range(&mut id, s, p + 1, a);
        id.push(' ');
        append_range(&mut id, s, d, d + 4);
        proof {
            assert(id@ =~= s@.subrange(p + 1, a as int) + seq![' '] + s@.subrange(
                d as int,
                d + 4,
            ));
        }
        Some((d + 5, id))
    } else {
        None
    }
}

fn bracket_try(s: &Vec<char>, p: usize) -> (r: Option<(usize, Vec<char>)>)
    requires
        p < s@.len(),
    ensures
        match r {
            Some(m) => bracket_at(s@, p as int) == Some((m.0 as int, m.1@)),
            None => bracket_at(s@, p as int) is None,
        },
{
    let n = s.len();
    if s[p] != '[' {
        return None;
    }
    let d = digit_run_exec(s, p + 1);
    if d > p + 1 && d < s.len() && s[d] == ']' {
        let mut id: Vec<char> = Vec::new();
        append_range(&mut id, s, p, d + 1);
        proof {
            assert(id@ =~= s@.subrange(p as int, d + 1));
        }
        Some((d + 1, id))
    } else {
        None
    }
}

fn tokens_end_exec(s: &Vec<char>, q: usize) -> (r: usize)
    requires
        q <= s@.len(),
    ensures
        r == tokens_end(s@, q as int),
        q <= r <= s@.len(),
    decreases s@.len() - q,
{
    let w = ws_run_exec(s, q);
    if w > q && w < s.len() && upper_char(s[w]) {
        let t = letter_run_exec(s, w + 1);
        if t > w + 1 {
            tokens_end_exec(s, t)
        } else {
            q
        }
    } else {
        q
    }
}

fn bare_try(s: &Vec<char>, p: usize) -> (r: Option<(usize, Vec<char>)>)
    requires
        p < s@.len(),
    ensures
        match r {
            Some(m) => bare_at(s@, p as int) == Some((m.0 as int, m.1@)),
            None => bare_at(s@, p as int) is None,
        },
{
    let n = s.len();
    if !upper_char(s[p]) || (p > 0 && word_char(s[p - 1])) {
        return None;
    }
    let t1 = letter_dot_run_exec(s, p + 1);
    if t1 == p + 1 {
        return None;
    }
    let g = tokens_end_exec(s, t1);
    let w = ws_run_exec(s, g);
    if w > g && s.len() - w >= 4 && digit_char(s[w]) && digit_char(s[w + 1]) && digit_char(
        s[w + 2],
    ) && digit_char(s[w + 3]) && (w + 4 == s.len() || !word_char(s[w + 4])) {
        let mut id: Vec<char> = Vec::new();
        append_range(&mut id, s, p, w + 4);
        proof {
            assert(id@ =~= s@.subrange(p as int, w + 4));
        }
        Some((w + 4, id))
    } else {
        None
    }
}

fn match_try(s: &Vec<char>, p: usize) -> (r: Option<(usize, Vec<char>)>)
    requires
        p < s@.len(),
    ensures
        match r {
            Some(m) => match_at(s@, p as int) == Some((m.0 as int, m.1@)) && p < m.0 <= s@.len(),
            None => match_at(s@, p as int) is None,
        },
{
    let r = if let Some(m) = paren_try(s, p) {
        Some(m)
    } else if let Some(m) = bracket_try(s, p) {
        Some(m)
    } else {
        bare_try(s, p)
    };
    proof {
        if match_at(s@, p as int) is Some {
            lemma_match_at_bounds(s@, p as int);
        }
    }
    r
}

/// The identifiers of all citation markers in `s`, scanning left to right,
/// in textual order.
pub fn sentence_match_ids(s: &Vec<char>) -> (r: Vec<Vec<char>>)
    ensures
        r.deep_view() == sentence_ids(s@),
{
    let mut out: Vec<Vec<char>> = Vec::new();
    let mut p: usize = 0;
    while p < s.len()
        invariant
            p <= s@.len(),
            sentence_ids(s@) == out.deep_view() + match_ids_from(s@, p as int),
        decreases s@.len() - p,
    {
        match match_try(s, p) {
            Some(m) => {
                proof {
                    assert(match_ids_from(s@, p as int) =~~= seq![m.1@] + match_ids_from(
                        s@,
                        m.0 as int,
                    ));
                }
                let e = m.0;
                out.push(m.1);
                proof {
                    assert(sentence_ids(s@) =~~= out.deep_view() + match_ids_from(s@, e as int));
                }
                p = e;
            },
            None => {
                proof {
                    assert(match_ids_from(s@, p as int) == match_ids_from(s@, p + 1));
                }
                p = p + 1;
            },
        }
    }
    proof {
        assert(match_ids_from(s@, p as int) =~~= Seq::<Seq<char>>::empty());
        assert(sentence_ids(s@) =~~= out.deep_view());
    }
    out
}

/// Every match carries a non-empty identifier.
pub proof fn lemma_match_id_nonempty(s: Seq<char>, p: int)
    requires
        0 <= p < s.len(),
        match_at(s, p) is Some,
    ensures
        match_at(s, p)->Some_0.1.len() > 0,
{
    if paren_at(s, p) is Some {
        lemma_noncomma_run(s, p + 1);
    } else if bracket_at(s, p) is Some {
        lemma_digit_run(s, p + 1);
    } else {
        lemma_letter_dot_run(s, p + 1);
        let t1 = letter_dot_run(s, p + 1);
        lemma_tokens_end(s, t1);
        let g = tokens_end(s, t1);
        lemma_ws_run(s, g);
    }
}

/// Every identifier a sentence scan reports is non-empty.
pub proof fn lemma_scan_ids_nonempty(s: Seq<char>, p: int, k: int)
    requires
        0 <= k < match_ids_from(s, p).len(),
    ensures
        match_ids_from(s, p)[k].len() > 0,
    decreases s.len() - p,
{
    if 0 <= p < s.len() {
        match match_at(s, p) {
            Some(m) => {
                if p < m.0 && m.0 <= s.len() {
                    lemma_match_id_nonempty(s, p);
                    if k > 0 {
                        lemma_scan_ids_nonempty(s, m.0, k - 1);
                    }
                }
            },
            None => {
                lemma_scan_ids_nonempty(s, p + 1, k);
            },
        }
    }
}

} // verus!
