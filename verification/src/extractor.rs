//! Citation extraction over a whole document: the text is split on periods
//! into trimmed sentence units, each unit is scanned for citation markers,
//! and every match is paired with a normalized context window made of the
//! previous, current, and next sentence. A match whose window is shorter
//! than the minimum usable length is dropped; a document with no usable
//! match at all is an error.

use crate::matcher::sentence_ids;
use crate::matcher::sentence_match_ids;
use crate::models::Citation;
use crate::models::ExtractError;
use crate::text::chars_to_string;
use crate::text::normalize_chars;
use crate::text::normalize_spec;
use crate::text::sentences_spec;
use crate::text::split_sentences;
use crate::text::str_to_chars;
use crate::text::trim_chars;
use crate::text::no_ctrl;
use crate::text::no_double_space;
use crate::text::lemma_normalize_clean;
use crate::text::trim_ws;
use vstd::prelude::*;

verus! {

/// The shortest context window that is kept with a citation.
pub const MIN_CONTEXT_LEN: usize = 5;

/// The separator inserted between the sentences of a context window.
pub open spec fn window_sep() -> Seq<char> {
    seq!['.', ' ']
}

/// The context window of sentence `i`: the previous, current, and next
/// sentence joined by `". "` and normalized. A missing neighbor is the
/// empty string; in particular the first sentence has an empty previous
/// sentence, never a wrap-around to the end of the document.
pub open spec fn window_spec(sents: Seq<Seq<char>>, i: int) -> Seq<char> {
    let prev = if i >= 1 {
        sents[i - 1]
    } else {
        Seq::empty()
    };
    let next = if i + 1 < sents.len() {
        sents[i + 1]
    } else {
        Seq::empty()
    };
    normalize_spec(prev + window_sep() + sents[i] + window_sep() + next)
}

/// The citation records contributed by sentence `i`, as (identifier,
/// context) pairs: one per marker matched in the sentence, in match order,
/// all sharing the sentence's context window. An empty sentence unit, or
/// one whose window is shorter than the minimum usable length, contributes
/// nothing.
pub open spec fn sentence_citations(sents: Seq<Seq<char>>, i: int) -> Seq<(Seq<char>, Seq<char>)> {
    if sents[i].len() == 0 || window_spec(sents, i).len() < MIN_CONTEXT_LEN as int {
        Seq::empty()
    } else {
        sentence_ids(sents[i]).map_values(|id: Seq<char>| (id, window_spec(sents, i)))
    }
}

/// The citation records of the first `n` sentences, in document order:
/// sentence order first, match order within a sentence.
pub open spec fn citations_upto(sents: Seq<Seq<char>>, n: int) -> Seq<(Seq<char>, Seq<char>)>
    decreases n,
{
    if n <= 0 {
        Seq::empty()
    } else {
        citations_upto(sents, n - 1) + sentence_citations(sents, n - 1)
    }
}

/// All citation records of a document's text.
pub open spec fn doc_citations(text: Seq<char>) -> Seq<(Seq<char>, Seq<char>)> {
    citations_upto(sentences_spec(text), sentences_spec(text).len() as int)
}

/// What extraction returns on a document's text: `EmptyInput` if the text
/// trims to nothing, `NoCitationsFound` if no usable citation was matched,
/// and the ordered citation records otherwise.
pub open spec fn extract_spec(text: Seq<char>) -> Result<
    Seq<(Seq<char>, Seq<char>)>,
    ExtractError,
> {
    if trim_ws(text).len() == 0 {
        Err(ExtractError::EmptyInput)
    } else if doc_citations(text).len() == 0 {
        Err(ExtractError::NoCitationsFound)
    } else {
        Ok(doc_citations(text))
    }
}

/// `cs` holds exactly the records `m`, in order, each still unclassified.
pub open spec fn models_citations(cs: Seq<Citation>, m: Seq<(Seq<char>, Seq<char>)>) -> bool {
    cs.len() == m.len() && forall|k: int|
        0 <= k < m.len() ==> (#[trigger] cs[k]).id@ == m[k].0 && cs[k].context@ == m[k].1
            && cs[k].sentiment is None
}

/// The context window of sentence `i`, built from the trimmed sentence units.
pub fn build_window(sents: &Vec<Vec<char>>, i: usize) -> (r: Vec<char>)
    requires
        i < sents@.len(),
    ensures
        r@ == window_spec(sents.deep_view(), i as int),
{
    let n = sents.len();
    let mut joined: Vec<char> = Vec::new();
    if i >= 1 {
        let prev = &sents[i - 1];
        crate::matcher::append_range(&mut joined, prev, 0, prev.len());
    }
    joined.push('.');
    joined.push(' ');
    let cur = &sents[i];
    crate::matcher::append_range(&mut joined, cur, 0, cur.len());
    joined.push('.');
    joined.push(' ');
    if i + 1 < n {
        let next = &sents[i + 1];
        crate::matcher::append_range(&mut joined, next, 0, next.len());
    }
    proof {
        let sv = sents.deep_view();
        let prev = if i >= 1 {
            sv[i - 1]
        } else {
            Seq::<char>::empty()
        };
        let next = if i + 1 < sv.len() {
            sv[i + 1]
        } else {
            Seq::<char>::empty()
        };
        assert(joined@ =~= prev + window_sep() + sv[i as int] + window_sep() + next);
    }
    normalize_chars(&joined)
}

/// Extracts all citations of a document: each marker matched in a sentence
/// unit yields one record with its identifier, its normalized context
/// window, and no stance yet, in document order. Fails with `EmptyInput`
/// when the text trims to nothing and with `NoCitationsFound` when no
/// sentence yields a usable citation.
pub fn extract_citations(content: &str) -> (r: Result<Vec<Citation>, ExtractError>)
    ensures
        match r {
            Ok(cs) => extract_spec(content@) matches Ok(m) && models_citations(cs@, m),
            Err(e) => extract_spec(content@) == Err::<Seq<(Seq<char>, Seq<char>)>, ExtractError>(
                e,
            ),
        },
{
    let chars = str_to_chars(content);
    let trimmed = trim_chars(&chars);
    if trimmed.len() == 0 {
        return Err(ExtractError::EmptyInput);
    }
    let sents = split_sentences(&chars);
    let ghost sv = sents.deep_view();
    let n = sents.len();
    let mut out: Vec<Citation> = Vec::new();
    let mut i: usize = 0;
    while i < n
        invariant
            n == sents@.len(),
            i <= n,
            sv == sents.deep_view(),
            models_citations(out@, citations_upto(sv, i as int)),
        decreases n - i,
    {
        let cur = &sents[i];
        proof {
            assert(cur@ =~= sv[i as int]);
        }
        if cur.len() > 0 {
            let ids = sentence_match_ids(cur);
            if ids.len() > 0 {
                let ctx = build_window(&sents, i);
                if ctx.len() >= MIN_CONTEXT_LEN {
                    let ghost w = window_spec(sv, i as int);
                    let ghost idv = ids.deep_view();
                    let m = ids.len();
                    let mut j: usize = 0;
                    while j < m
                        invariant
                            m == ids@.len(),
                            j <= m,
                            idv == ids.deep_view(),
                            ctx@ == w,
                            w.len() >= MIN_CONTEXT_LEN as int,
                            models_citations(
                                out@,
                                citations_upto(sv, i as int) + idv.take(j as int).map_values(
                                    |id: Seq<char>| (id, w),
                                ),
                            ),
                        decreases m - j,
                    {
                        let idj = &ids[j];
                        let c = Citation {
                            id: chars_to_string(idj),
                            context: chars_to_string(&ctx),
                            sentiment: None,
                        };
                        out.push(c);
                        j = j + 1;
                        proof {
                            assert(idv.take(j as int) =~~= idv.take(j - 1).push(idv[j - 1]));
                            assert(idv.take(j as int).map_values(|id: Seq<char>| (id, w))
                                =~= idv.take(j - 1).map_values(|id: Seq<char>| (id, w)).push(
                                (idv[j - 1], w),
                            ));
                            assert(idj@ == idv[j - 1]);
                        }
                    }
                    proof {
                        assert(idv.take(m as int) =~~= idv);
                        assert(sentence_citations(sv, i as int) == idv.map_values(
                            |id: Seq<char>| (id, w),
                        ));
                    }
                } else {
                    proof {
                        assert(sentence_citations(sv, i as int) =~= Seq::<(
                            Seq<char>,
                            Seq<char>,
                        )>::empty());
                    }
                }
            } else {
                proof {
                    assert(ids.deep_view() =~~= Seq::<Seq<char>>::empty());
                    assert(sentence_citations(sv, i as int) =~= Seq::<(
                        Seq<char>,
                        Seq<char>,
                    )>::empty());
                }
            }
        } else {
            proof {
                assert(sentence_citations(sv, i as int) =~= Seq::<(Seq<char>, Seq<char>)>::empty());
            }
        }
        i = i + 1;
        proof {
            assert(citations_upto(sv, i as int) == citations_upto(sv, i - 1)
                + sentence_citations(sv, i - 1));
            if sentence_citations(sv, i - 1).len() == 0 {
                assert(citations_upto(sv, i - 1) + sentence_citations(sv, i - 1)
                    =~= citations_upto(sv, i - 1));
            }
        }
    }
    proof {
        assert(sv == sentences_spec(content@));
        assert(citations_upto(sv, n as int) == doc_citations(content@));
    }
    if out.len() == 0 {
        Err(ExtractError::NoCitationsFound)
    } else {
        Ok(out)
    }
}

/// An empty document fails: whenever the text trims to nothing, extraction
/// returns `EmptyInput`.
pub proof fn lemma_empty_input_fails(text: Seq<char>)
    requires
        trim_ws(text).len() == 0,
    ensures
        extract_spec(text) == Err::<Seq<(Seq<char>, Seq<char>)>, ExtractError>(
            ExtractError::EmptyInput,
        ),
{
}

proof fn lemma_citations_upto_none(sents: Seq<Seq<char>>, n: int)
    requires
        n <= sents.len(),
        forall|i: int| 0 <= i < n ==> sentence_ids(#[trigger] sents[i]).len() == 0,
    ensures
        citations_upto(sents, n).len() == 0,
    decreases n,
{
    if n > 0 {
        lemma_citations_upto_none(sents, n - 1);
        assert(sentence_citations(sents, n - 1).len() == 0);
    }
}

/// A document with no citation-shaped substring fails: when the text is not
/// blank but no sentence unit matches any marker, extraction returns
/// `NoCitationsFound`.
pub proof fn lemma_no_citations_fails(text: Seq<char>)
    requires
        trim_ws(text).len() > 0,
        forall|i: int|
            0 <= i < sentences_spec(text).len() ==> sentence_ids(
                #[trigger] sentences_spec(text)[i],
            ).len() == 0,
    ensures
        extract_spec(text) == Err::<Seq<(Seq<char>, Seq<char>)>, ExtractError>(
            ExtractError::NoCitationsFound,
        ),
{
    lemma_citations_upto_none(sentences_spec(text), sentences_spec(text).len() as int);
}

proof fn lemma_citations_upto_clean(sents: Seq<Seq<char>>, n: int, k: int)
    requires
        0 <= k < citations_upto(sents, n).len(),
    ensures
        citations_upto(sents, n)[k].1.len() >= MIN_CONTEXT_LEN as int,
        no_ctrl(citations_upto(sents, n)[k].1),
        no_double_space(citations_upto(sents, n)[k].1),
    decreases n,
{
    if n > 0 {
        let pre = citations_upto(sents, n - 1);
        let sc = sentence_citations(sents, n - 1);
        if k < pre.len() {
            lemma_citations_upto_clean(sents, n - 1, k);
            assert(citations_upto(sents, n)[k] == pre[k]);
        } else {
            assert(sc.len() > 0);
            let w = window_spec(sents, n - 1);
            assert(sc[k - pre.len()].1 == w);
            let prev = if n - 1 >= 1 {
                sents[n - 2]
            } else {
                Seq::<char>::empty()
            };
            let next = if n < sents.len() {
                sents[n - 1 + 1]
            } else {
                Seq::<char>::empty()
            };
            lemma_normalize_clean(prev + window_sep() + sents[n - 1] + window_sep() + next);
        }
    }
}

/// Every citation of a successful extraction has a usable context: at least
/// the minimum length, no control characters, and no two consecutive spaces.
pub proof fn lemma_extracted_contexts_clean(text: Seq<char>, k: int)
    requires
        extract_spec(text) is Ok,
        0 <= k < extract_spec(text)->Ok_0.len(),
    ensures
        extract_spec(text)->Ok_0[k].1.len() >= MIN_CONTEXT_LEN as int,
        no_ctrl(extract_spec(text)->Ok_0[k].1),
        no_double_space(extract_spec(text)->Ok_0[k].1),
{
    lemma_citations_upto_clean(sentences_spec(text), sentences_spec(text).len() as int, k);
}

/// Extraction is a pure function of the document text: re-extracting from
/// the same text yields the identical ordered sequence of records.
pub proof fn lemma_extraction_idempotent(
    text: Seq<char>,
    r1: Result<Seq<(Seq<char>, Seq<char>)>, ExtractError>,
    r2: Result<Seq<(Seq<char>, Seq<char>)>, ExtractError>,
)
    requires
        r1 == extract_spec(text),
        r2 == extract_spec(text),
    ensures
        r1 == r2,
{
}

/// Records appear in document order: the citations of the first `i`
/// sentences stand unchanged, as a prefix, among those of the first `n`.
pub proof fn lemma_document_order(sents: Seq<Seq<char>>, i: int, n: int)
    requires
        0 <= i <= n,
    ensures
        citations_upto(sents, i).is_prefix_of(citations_upto(sents, n)),
    decreases n,
{
    if n == i {
        assert(citations_upto(sents, i).is_prefix_of(citations_upto(sents, i))) by {
            assert(citations_upto(sents, i) =~= citations_upto(sents, i).subrange(
                0,
                citations_upto(sents, i).len() as int,
            ));
        }
    } else {
        lemma_document_order(sents, i, n - 1);
        let pre = citations_upto(sents, n - 1);
        let whole = citations_upto(sents, n);
        assert(pre.is_prefix_of(whole)) by {
            assert(pre =~= whole.subrange(0, pre.len() as int));
        }
        assert(citations_upto(sents, i) =~= whole.subrange(
            0,
            citations_upto(sents, i).len() as int,
        ));
    }
}

/// A match in the first sentence uses an empty previous-sentence slot: the
/// window never wraps around to the end of the document.
pub proof fn lemma_first_window_empty_prev(sents: Seq<Seq<char>>)
    requires
        sents.len() > 0,
    ensures
        window_spec(sents, 0) == normalize_spec(
            Seq::<char>::empty() + window_sep() + sents[0] + window_sep() + (if sents.len() > 1 {
                sents[1]
            } else {
                Seq::<char>::empty()
            }),
        ),
{
}

proof fn lemma_citations_upto_ids(sents: Seq<Seq<char>>, n: int, k: int)
    requires
        0 <= k < citations_upto(sents, n).len(),
    ensures
        citations_upto(sents, n)[k].0.len() > 0,
    decreases n,
{
    if n > 0 {
        let pre = citations_upto(sents, n - 1);
        let sc = sentence_citations(sents, n - 1);
        if k < pre.len() {
            lemma_citations_upto_ids(sents, n - 1, k);
            assert(citations_upto(sents, n)[k] == pre[k]);
        } else {
            assert(sc[k - pre.len()].0 == sentence_ids(sents[n - 1])[k - pre.len()]);
            crate::matcher::lemma_scan_ids_nonempty(sents[n - 1], 0, k - pre.len());
        }
    }
}

/// Every citation of a successful extraction has a non-empty identifier.
pub proof fn lemma_extracted_ids_nonempty(text: Seq<char>, k: int)
    requires
        extract_spec(text) is Ok,
        0 <= k < extract_spec(text)->Ok_0.len(),
    ensures
        extract_spec(text)->Ok_0[k].0.len() > 0,
{
    lemma_citations_upto_ids(sentences_spec(text), sentences_spec(text).len() as int, k);
}

} // verus!
