//! Character classes and whitespace handling shared by the extraction
//! pipeline: trimming, control-character flattening, whitespace collapsing,
//! sentence splitting, substring search, and lower-casing.

use vstd::prelude::*;

verus! {

/// A control character in the sense of the normalizer: the two C0/C1 control
/// ranges, which include `\n`, `\r`, and `\t`.
pub open spec fn is_ctrl(c: char) -> bool {
    (c as u32) < 32 || (127 <= c as u32 && c as u32 <= 159)
}

/// A white-space character: the Unicode White_Space set, the one `str::trim`
/// removes and a pattern engine's `\s` accepts. It is trimmed from sentence
/// ends, collapsed by the normalizer, and allowed between the tokens of a
/// citation marker.
pub open spec fn is_ws(c: char) -> bool {
    let u = c as u32;
    u == 32 || (9 <= u && u <= 13) || u == 0x85 || u == 0xa0 || u == 0x1680 || (0x2000 <= u && u
        <= 0x200a) || u == 0x2028 || u == 0x2029 || u == 0x202f || u == 0x205f || u == 0x3000
}

pub fn ctrl_char(c: char) -> (r: bool)
    ensures
        r == is_ctrl(c),
{
    let u = c as u32;
    u < 32 || (127 <= u && u <= 159)
}

pub fn ws_char(c: char) -> (r: bool)
    ensures
        r == is_ws(c),
{
    let u = c as u32;
    u == 32 || (9 <= u && u <= 13) || u == 0x85 || u == 0xa0 || u == 0x1680 || (0x2000 <= u && u
        <= 0x200a) || u == 0x2028 || u == 0x2029 || u == 0x202f || u == 0x205f || u == 0x3000
}

/// What remains of `s` once its leading whitespace is removed.
pub open spec fn trim_left_ws(s: Seq<char>) -> Seq<char>
    decreases s.len(),
{
    if s.len() > 0 && is_ws(s.first()) {
        trim_left_ws(s.drop_first())
    } else {
        s
    }
}

/// What remains of `s` once its trailing whitespace is removed.
pub open spec fn trim_right_ws(s: Seq<char>) -> Seq<char>
    decreases s.len(),
{
    if s.len() > 0 && is_ws(s.last()) {
        trim_right_ws(s.drop_last())
    } else {
        s
    }
}

/// `s` with whitespace removed from both ends.
pub open spec fn trim_ws(s: Seq<char>) -> Seq<char> {
    trim_right_ws(trim_left_ws(s))
}

proof fn lemma_trim_left_skip(s: Seq<char>, a: int)
    requires
        0 <= a <= s.len(),
        forall|k: int| 0 <= k < a ==> is_ws(#[trigger] s[k]),
        a == s.len() || !is_ws(s[a]),
    ensures
        trim_left_ws(s) == s.skip(a),
    decreases a,
{
    if a == 0 {
        assert(s.skip(0) =~= s);
    } else {
        assert(is_ws(s[0]));
        lemma_trim_left_skip(s.drop_first(), a - 1);
        assert(s.drop_first().skip(a - 1) =~= s.skip(a));
    }
}

proof fn lemma_trim_right_take(s: Seq<char>, b: int)
    requires
        0 <= b <= s.len(),
        forall|k: int| b <= k < s.len() ==> is_ws(#[trigger] s[k]),
        b == 0 || !is_ws(s[b - 1]),
    ensures
        trim_right_ws(s) == s.take(b),
    decreases s.len(),
{
    if b == s.len() {
        assert(s.take(b) =~= s);
    } else {
        assert(is_ws(s.last()));
        lemma_trim_right_take(s.drop_last(), b);
        assert(s.drop_last().take(b) =~= s.take(b));
    }
}

/// `v` with whitespace removed from both ends.
pub fn trim_chars(v: &Vec<char>) -> (r: Vec<char>)
    ensures
        r@ == trim_ws(v@),
{
    let n = v.len();
    let mut a: usize = 0;
    while a < n && ws_char(v[a])
        invariant
            n == v@.len(),
            a <= n,
            forall|k: int| 0 <= k < a ==> is_ws(#[trigger] v@[k]),
        decreases n - a,
    {
        a = a + 1;
    }
    let mut b: usize = n;
    while b > a && ws_char(v[b - 1])
        invariant
            n == v@.len(),
            a <= b <= n,
            forall|k: int| b <= k < n ==> is_ws(#[trigger] v@[k]),
        decreases b,
    {
        b = b - 1;
    }
    proof {
        lemma_trim_left_skip(v@, a as int);
        lemma_trim_right_take(v@.skip(a as int), b - a);
        assert(v@.skip(a as int).take(b - a) =~= v@.subrange(a as int, b as int));
    }
    let mut r: Vec<char> = Vec::new();
    let mut i: usize = a;
    while i < b
        invariant
            b <= v@.len(),
            a <= i <= b,
            r@ == v@.subrange(a as int, i as int),
        decreases b - i,
    {
        r.push(v[i]);
        i = i + 1;
        proof {
            assert(r@ =~= v@.subrange(a as int, i as int));
        }
    }
    r
}

/// `s` with every control character replaced by a space.
pub open spec fn flatten_ctrl(s: Seq<char>) -> Seq<char> {
    s.map_values(|c: char| if is_ctrl(c) { ' ' } else { c })
}

/// `s` with every run of consecutive whitespace characters replaced by a
/// single space.
pub open spec fn collapse_ws(s: Seq<char>) -> Seq<char>
    decreases s.len(),
{
    if s.len() == 0 {
        s
    } else {
        let pre = collapse_ws(s.drop_last());
        if is_ws(s.last()) {
            if pre.len() > 0 && pre.last() == ' ' {
                pre
            } else {
                pre.push(' ')
            }
        } else {
            pre.push(s.last())
        }
    }
}

/// The normalized form of `s`: control characters flattened to spaces,
/// whitespace runs collapsed to single spaces, and the ends trimmed.
pub open spec fn normalize_spec(s: Seq<char>) -> Seq<char> {
    trim_ws(collapse_ws(flatten_ctrl(s)))
}

fn flatten_collapse(v: &Vec<char>) -> (r: Vec<char>)
    ensures
        r@ == collapse_ws(flatten_ctrl(v@)),
{
    let n = v.len();
    let mut out: Vec<char> = Vec::new();
    let mut i: usize = 0;
    while i < n
        invariant
            n == v@.len(),
            i <= n,
            out@ == collapse_ws(flatten_ctrl(v@.take(i as int))),
        decreases n - i,
    {
        let c = v[i];
        let f = if ctrl_char(c) {
            ' '
        } else {
            c
        };
        proof {
            assert(flatten_ctrl(v@.take(i + 1)) =~= flatten_ctrl(v@.take(i as int)).push(f));
            assert(flatten_ctrl(v@.take(i as int)).push(f).drop_last() =~= flatten_ctrl(
                v@.take(i as int),
            ));
        }
        if ws_char(f) {
            if out.len() > 0 && *out.last().unwrap() == ' ' {
            } else {
                out.push(' ');
            }
        } else {
            out.push(f);
        }
        i = i + 1;
    }
    proof {
        assert(v@.take(n as int) =~= v@);
    }
    out
}

/// The normalized form of `v`.
pub fn normalize_chars(v: &Vec<char>) -> (r: Vec<char>)
    ensures
        r@ == normalize_spec(v@),
{
    let fc = flatten_collapse(v);
    trim_chars(&fc)
}

/// The pieces of `s` between occurrences of the period character, in order.
/// A string with no period yields one piece; every period opens a new piece,
/// so `n` periods yield `n + 1` pieces, some possibly empty.
pub open spec fn split_dots(s: Seq<char>) -> Seq<Seq<char>>
    decreases s.len(),
{
    if s.len() == 0 {
        seq![Seq::<char>::empty()]
    } else if s.first() == '.' {
        seq![Seq::<char>::empty()] + split_dots(s.drop_first())
    } else {
        let rest = split_dots(s.drop_first());
        seq![seq![s.first()] + rest.first()] + rest.drop_first()
    }
}

pub proof fn lemma_split_dots_len(s: Seq<char>)
    ensures
        split_dots(s).len() >= 1,
    decreases s.len(),
{
    if s.len() > 0 {
        lemma_split_dots_len(s.drop_first());
    }
}

proof fn lemma_split_dots_push(s: Seq<char>, c: char)
    ensures
        c == '.' ==> split_dots(s.push(c)) == split_dots(s).push(Seq::<char>::empty()),
        c != '.' ==> split_dots(s.push(c)) == split_dots(s).drop_last().push(
            split_dots(s).last().push(c),
        ),
    decreases s.len(),
{
    lemma_split_dots_len(s);
    if s.len() == 0 {
        assert(s.push(c).drop_first() =~= Seq::<char>::empty());
        assert(split_dots(Seq::<char>::empty()) =~~= seq![Seq::<char>::empty()]);
        assert(s.push(c).first() == c);
        if c == '.' {
            assert(split_dots(s.push(c)) =~~= seq![Seq::<char>::empty()] + split_dots(
                Seq::<char>::empty(),
            ));
            assert(split_dots(s.push(c)) =~~= split_dots(s).push(Seq::<char>::empty()));
        } else {
            assert(split_dots(s.push(c)) =~~= seq![seq![c] + Seq::<char>::empty()]);
            assert(split_dots(s.push(c)) =~~= split_dots(s).drop_last().push(
                split_dots(s).last().push(c),
            ));
        }
    } else {
        lemma_split_dots_push(s.drop_first(), c);
        lemma_split_dots_len(s.drop_first());
        assert(s.push(c).drop_first() =~= s.drop_first().push(c));
        assert(s.push(c).first() == s.first());
        let rest = split_dots(s.drop_first());
        let restp = split_dots(s.drop_first().push(c));
        if s.first() == '.' {
            if c == '.' {
                assert(split_dots(s.push(c)) =~~= split_dots(s).push(Seq::<char>::empty()));
            } else {
                assert(split_dots(s.push(c)) =~~= split_dots(s).drop_last().push(
                    split_dots(s).last().push(c),
                ));
            }
        } else {
            if c == '.' {
                assert(restp.first() =~= rest.first());
                assert(split_dots(s.push(c)) =~~= split_dots(s).push(Seq::<char>::empty()));
            } else {
                if rest.len() == 1 {
                    assert(restp.first() =~= rest.first().push(c));
                    assert(split_dots(s.push(c)) =~= split_dots(s).drop_last().push(
                        split_dots(s).last().push(c),
                    ));
                } else {
                    assert(restp.first() =~= rest.first());
                    assert(split_dots(s.push(c)) =~= split_dots(s).drop_last().push(
                        split_dots(s).last().push(c),
                    ));
                }
            }
        }
    }
}

/// The sentence units of a document: the text split on periods, each piece
/// trimmed of surrounding whitespace.
pub open spec fn sentences_spec(s: Seq<char>) -> Seq<Seq<char>> {
    split_dots(s).map_values(|p: Seq<char>| trim_ws(p))
}

/// The sentence units of `v`: pieces split on periods, each trimmed.
pub fn split_sentences(v: &Vec<char>) -> (r: Vec<Vec<char>>)
    ensures
        r.deep_view() == sentences_spec(v@),
{
    let n = v.len();
    let mut done: Vec<Vec<char>> = Vec::new();
    let mut cur: Vec<char> = Vec::new();
    let mut i: usize = 0;
    proof {
        assert(v@.take(0) =~= Seq::<char>::empty());
    }
    while i < n
        invariant
            n == v@.len(),
            i <= n,
            split_dots(v@.take(i as int)).len() == done@.len() + 1,
            done.deep_view() == split_dots(v@.take(i as int)).drop_last().map_values(
                |p: Seq<char>| trim_ws(p),
            ),
            cur@ == split_dots(v@.take(i as int)).last(),
        decreases n - i,
    {
        let c = v[i];
        proof {
            assert(v@.take(i + 1) =~= v@.take(i as int).push(c));
            lemma_split_dots_push(v@.take(i as int), c);
            lemma_split_dots_len(v@.take(i as int));
        }
        if c == '.' {
            let ghost s0 = split_dots(v@.take(i as int));
            let ghost s1 = split_dots(v@.take(i + 1));
            let t = trim_chars(&cur);
            done.push(t);
            cur = Vec::new();
            proof {
                assert(s1 == s0.push(Seq::<char>::empty()));
                assert(s1.drop_last() =~~= s0);
                assert(done.deep_view().len() == s1.drop_last().len());
                let m1 = s1.drop_last().map_values(|p: Seq<char>| trim_ws(p));
                assert forall|k: int| 0 <= k < done.deep_view().len() implies done.deep_view()[k]
                    == #[trigger] m1[k] by {
                    if k < done.deep_view().len() - 1 {
                        assert(done.deep_view()[k] == s0.drop_last().map_values(
                            |p: Seq<char>| trim_ws(p),
                        )[k]);
                        assert(s1.drop_last()[k] == s0.drop_last()[k]);
                    } else {
                        assert(done.deep_view()[k] =~= t@);
                        assert(s1.drop_last()[k] == s0.last());
                    }
                }
                assert(done.deep_view() =~= m1);
            }
        } else {
            let ghost s0 = split_dots(v@.take(i as int));
            let ghost s1 = split_dots(v@.take(i + 1));
            cur.push(c);
            proof {
                assert(s1 == s0.drop_last().push(s0.last().push(c)));
                assert(s1.drop_last() =~~= s0.drop_last());
                assert(cur@ == s1.last());
                assert(done.deep_view() =~~= s1.drop_last().map_values(|p: Seq<char>| trim_ws(p)));
            }
        }
        i = i + 1;
    }
    proof {
        assert(v@.take(n as int) =~= v@);
    }
    let ghost s0 = split_dots(v@);
    let t = trim_chars(&cur);
    done.push(t);
    proof {
        lemma_split_dots_len(v@);
        assert(done.deep_view().len() == s0.len());
        let m1 = sentences_spec(v@);
        assert forall|k: int| 0 <= k < done.deep_view().len() implies done.deep_view()[k]
            == #[trigger] m1[k] by {
            if k < done.deep_view().len() - 1 {
                assert(done.deep_view()[k] == s0.drop_last().map_values(
                    |p: Seq<char>| trim_ws(p),
                )[k]);
            } else {
                assert(done.deep_view()[k] =~= t@);
                assert(s0[k] == s0.last());
            }
        }
        assert(done.deep_view() =~= m1);
    }
    done
}

/// The characters of `s`, in order, as a vector.
pub fn str_to_chars(s: &str) -> (r: Vec<char>)
    ensures
        r@ == s@,
{
    let n = s.unicode_len();
    let mut r: Vec<char> = Vec::new();
    let mut i: usize = 0;
    while i < n
        invariant
            n == s@.len(),
            i <= n,
            r@ == s@.take(i as int),
        decreases n - i,
    {
        r.push(s.get_char(i));
        i = i + 1;
        proof {
            assert(r@ =~= s@.take(i as int));
        }
    }
    proof {
        assert(s@.take(n as int) =~= s@);
    }
    r
}

/// Relies on `String`'s `FromIterator<char>` implementation, through
/// `Iterator::collect`: the resulting string holds exactly the characters
/// of `v`, in order.
#[verifier::external_body]
pub fn chars_to_string(v: &Vec<char>) -> (r: String)
    ensures
        r@ == v@,
{
    v.iter().collect()
}

/// The lower-case form of `c`: ASCII upper-case letters are lowered,
/// every other character is unchanged.
pub open spec fn lower_char(c: char) -> char {
    if 65 <= c as u32 && c as u32 <= 90 {
        ((c as u32 + 32) as u8) as char
    } else {
        c
    }
}

/// `s` lower-cased character by character.
pub open spec fn lower_seq(s: Seq<char>) -> Seq<char> {
    s.map_values(|c: char| lower_char(c))
}

/// The lower-case form of a character.
pub fn to_lower_char(c: char) -> (r: char)
    ensures
        r == lower_char(c),
{
    let u = c as u32;
    if 65 <= u && u <= 90 {
        (u + 32) as u8 as char
    } else {
        c
    }
}

/// `v` lower-cased character by character.
pub fn to_lower_chars(v: &Vec<char>) -> (r: Vec<char>)
    ensures
        r@ == lower_seq(v@),
{
    let n = v.len();
    let mut r: Vec<char> = Vec::new();
    let mut i: usize = 0;
    while i < n
        invariant
            n == v@.len(),
            i <= n,
            r@ == lower_seq(v@.take(i as int)),
        decreases n - i,
    {
        r.push(to_lower_char(v[i]));
        i = i + 1;
        proof {
            assert(r@ =~= lower_seq(v@.take(i as int)));
        }
    }
    proof {
        assert(v@.take(n as int) =~= v@);
    }
    r
}

/// `needle` occurs in `hay` starting at position `k`.
pub open spec fn occurs_at(hay: Seq<char>, needle: Seq<char>, k: int) -> bool {
    0 <= k && k + needle.len() <= hay.len() && hay.subrange(k, k + needle.len()) == needle
}

/// `needle` occurs somewhere in `hay`.
pub open spec fn contains_seq(hay: Seq<char>, needle: Seq<char>) -> bool {
    exists|k: int| occurs_at(hay, needle, k)
}

/// Whether `needle` occurs as a contiguous substring of `hay`.
pub fn contains_chars(hay: &Vec<char>, needle: &Vec<char>) -> (r: bool)
    ensures
        r == contains_seq(hay@, needle@),
{
    let n = hay.len();
    let m = needle.len();
    if m > n {
        proof {
            assert(forall|k: int| !occurs_at(hay@, needle@, k));
        }
        return false;
    }
    let mut k: usize = 0;
    while k <= n - m
        invariant
            m <= n,
            n == hay@.len(),
            m == needle@.len(),
            k <= n - m + 1,
            forall|j: int| 0 <= j < k ==> !occurs_at(hay@, needle@, j),
        decreases n - m + 1 - k,
    {
        let mut i: usize = 0;
        while i < m && hay[k + i] == needle[i]
            invariant
                m <= n,
                n == hay@.len(),
                m == needle@.len(),
                k + m <= n,
                i <= m,
                forall|j: int| 0 <= j < i ==> hay@[k + j] == needle@[j],
            decreases m - i,
        {
            i = i + 1;
        }
        if i == m {
            proof {
                assert(hay@.subrange(k as int, k + m) =~= needle@);
                assert(occurs_at(hay@, needle@, k as int));
            }
            return true;
        }
        proof {
            assert(hay@[k + i] != needle@[i as int]);
            assert(!occurs_at(hay@, needle@, k as int)) by {
                if occurs_at(hay@, needle@, k as int) {
                    assert(hay@.subrange(k as int, k + m)[i as int] == needle@[i as int]);
                }
            }
        }
        k = k + 1;
    }
    proof {
        assert(forall|j: int| occurs_at(hay@, needle@, j) ==> 0 <= j <= n - m);
    }
    false
}

/// `s` holds no control character.
pub open spec fn no_ctrl(s: Seq<char>) -> bool {
    forall|j: int| 0 <= j < s.len() ==> !is_ctrl(#[trigger] s[j])
}

/// `s` holds no two consecutive spaces.
pub open spec fn no_double_space(s: Seq<char>) -> bool {
    forall|j: int| 0 <= j && j + 1 < s.len() ==> !((#[trigger] s[j]) == ' ' && s[j + 1] == ' ')
}

proof fn lemma_collapse_clean(s: Seq<char>)
    requires
        no_ctrl(s),
    ensures
        no_ctrl(collapse_ws(s)),
        no_double_space(collapse_ws(s)),
    decreases s.len(),
{
    if s.len() > 0 {
        assert(no_ctrl(s.drop_last())) by {
            assert(forall|j: int|
                0 <= j < s.drop_last().len() ==> #[trigger] s.drop_last()[j] == s[j]);
        }
        lemma_collapse_clean(s.drop_last());
        let pre = collapse_ws(s.drop_last());
        let c = if is_ws(s.last()) {
            ' '
        } else {
            s.last()
        };
        if is_ws(s.last()) && pre.len() > 0 && pre.last() == ' ' {
        } else {
            assert(no_double_space(pre.push(c))) by {
                assert(forall|j: int| 0 <= j < pre.len() ==> #[trigger] pre.push(c)[j] == pre[j]);
                assert(pre.push(c)[pre.len() as int] == c);
            }
            assert(no_ctrl(pre.push(c))) by {
                assert(forall|j: int| 0 <= j < pre.len() ==> #[trigger] pre.push(c)[j] == pre[j]);
                assert(!is_ctrl(c));
            }
        }
    }
}

proof fn lemma_trim_left_clean(s: Seq<char>)
    requires
        no_ctrl(s),
        no_double_space(s),
    ensures
        no_ctrl(trim_left_ws(s)),
        no_double_space(trim_left_ws(s)),
    decreases s.len(),
{
    if s.len() > 0 && is_ws(s.first()) {
        assert(forall|j: int| 0 <= j < s.drop_first().len() ==> #[trigger] s.drop_first()[j] == s[j
            + 1]);
        lemma_trim_left_clean(s.drop_first());
    }
}

proof fn lemma_trim_right_clean(s: Seq<char>)
    requires
        no_ctrl(s),
        no_double_space(s),
    ensures
        no_ctrl(trim_right_ws(s)),
        no_double_space(trim_right_ws(s)),
    decreases s.len(),
{
    if s.len() > 0 && is_ws(s.last()) {
        assert(forall|j: int|
            0 <= j < s.drop_last().len() ==> #[trigger] s.drop_last()[j] == s[j]);
        lemma_trim_right_clean(s.drop_last());
    }
}

/// The normalized form of any text is clean: it holds no control character
/// and no run of two or more consecutive spaces.
pub proof fn lemma_normalize_clean(s: Seq<char>)
    ensures
        no_ctrl(normalize_spec(s)),
        no_double_space(normalize_spec(s)),
{
    let f = flatten_ctrl(s);
    assert(no_ctrl(f)) by {
        assert(forall|j: int|
            0 <= j < s.len() ==> #[trigger] f[j] == if is_ctrl(s[j]) {
                ' '
            } else {
                s[j]
            });
        assert(!is_ctrl(' '));
    }
    lemma_collapse_clean(f);
    lemma_trim_left_clean(collapse_ws(f));
    lemma_trim_right_clean(trim_left_ws(collapse_ws(f)));
}

/// The number of bytes the UTF-8 encoding of `c` takes.
pub open spec fn char_utf8_len(c: char) -> int {
    if (c as u32) < 0x80 {
        1
    } else if (c as u32) < 0x800 {
        2
    } else if (c as u32) < 0x10000 {
        3
    } else {
        4
    }
}

/// The number of bytes the UTF-8 encoding of `s` takes.
pub open spec fn utf8_len(s: Seq<char>) -> int
    decreases s.len(),
{
    if s.len() == 0 {
        0
    } else {
        utf8_len(s.drop_last()) + char_utf8_len(s.last())
    }
}

/// Every prefix encodes to at most as many bytes as the whole.
pub proof fn lemma_utf8_len_prefix(s: Seq<char>, i: int)
    requires
        0 <= i <= s.len(),
    ensures
        utf8_len(s.take(i)) <= utf8_len(s),
    decreases s.len() - i,
{
    if i == s.len() {
        assert(s.take(i) =~= s);
    } else {
        assert(s.take(i + 1).drop_last() =~= s.take(i));
        assert(s.take(i + 1).last() == s[i]);
        lemma_utf8_len_prefix(s, i + 1);
    }
}

} // verus!
