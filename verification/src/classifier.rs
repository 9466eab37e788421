//! The stance classification policy. Each citation's stance is decided from
//! its own normalized context alone, by keyword rules applied to the
//! lower-cased text: disagreement keywords win over agreement keywords, and
//! a context with neither is neutral. The embedding signal an external
//! provider may supply never takes part in the decision; this module also
//! states which texts such a provider accepts, so a caller can predict when
//! the whole batch is rejected and the rules run on their own.

use crate::models::Citation;
use crate::models::Sentiment;
use crate::text::contains_chars;
use crate::text::contains_seq;
use crate::text::lower_seq;
use crate::text::str_to_chars;
use crate::text::to_lower_chars;
use crate::text::char_utf8_len;
use crate::text::lemma_utf8_len_prefix;
use crate::text::trim_chars;
use crate::text::trim_ws;
use crate::text::utf8_len;
use vstd::pervasive::VecAdditionalExecFns;
use vstd::prelude::*;

verus! {

/// The lower-cased text signals disagreement with the cited work.
pub open spec fn has_disagreement(low: Seq<char>) -> bool {
    contains_seq(low, "contrary to"@) || contains_seq(low, "disagree"@) || contains_seq(
        low,
        "contradicts"@,
    )
}

/// The lower-cased text signals agreement with the cited work.
pub open spec fn has_agreement(low: Seq<char>) -> bool {
    contains_seq(low, "consistent with"@) || contains_seq(low, "supports"@) || contains_seq(
        low,
        "in line with"@,
    )
}

/// The stance assigned to a citation with context `ctx`: disagreement
/// keywords are checked first, agreement keywords second, and a context
/// with neither is neutral.
pub open spec fn classify_spec(ctx: Seq<char>) -> Sentiment {
    if has_disagreement(lower_seq(ctx)) {
        Sentiment::Disagreement
    } else if has_agreement(lower_seq(ctx)) {
        Sentiment::Agreement
    } else {
        Sentiment::Neutral
    }
}

fn contains_lit(low: &Vec<char>, kw: &str) -> (r: bool)
    ensures
        r == contains_seq(low@, kw@),
{
    let k = str_to_chars(kw);
    contains_chars(low, &k)
}

/// The stance the keyword rules assign to one context.
pub fn classify_context(context: &str) -> (r: Sentiment)
    ensures
        r == classify_spec(context@),
{
    let chars = str_to_chars(context);
    let low = to_lower_chars(&chars);
    if contains_lit(&low, "contrary to") || contains_lit(&low, "disagree") || contains_lit(
        &low,
        "contradicts",
    ) {
        Sentiment::Disagreement
    } else if contains_lit(&low, "consistent with") || contains_lit(&low, "supports")
        || contains_lit(&low, "in line with") {
        Sentiment::Agreement
    } else {
        Sentiment::Neutral
    }
}

/// The rule-based stance classifier. It holds no state: every decision is a
/// function of the classified citation's context alone.
pub struct Classifier {}

impl Classifier {
    /// A new classifier. Nothing can fail here: the keyword rules need no
    /// model or other resource.
    pub fn new() -> (c: Classifier) {
        Classifier {  }
    }

    /// Assigns every citation the stance the keyword rules give its context,
    /// leaving identifier and context unchanged. Every citation ends
    /// classified: the stance is never left unset.
    pub fn classify(&self, citations: &mut Vec<Citation>)
        ensures
            final(citations)@.len() == old(citations)@.len(),
            forall|k: int|
                0 <= k < old(citations)@.len() ==> {
                    &&& (#[trigger] final(citations)@[k]).id@ == old(citations)@[k].id@
                    &&& final(citations)@[k].context@ == old(citations)@[k].context@
                    &&& final(citations)@[k].sentiment == Some(
                        classify_spec(old(citations)@[k].context@),
                    )
                },
    {
        let n = citations.len();
        let mut i: usize = 0;
        while i < n
            invariant
                n == old(citations)@.len(),
                citations@.len() == n,
                i <= n,
                forall|k: int| i <= k < n ==> citations@[k] == old(citations)@[k],
                forall|k: int|
                    0 <= k < i ==> {
                        &&& (#[trigger] citations@[k]).id@ == old(citations)@[k].id@
                        &&& citations@[k].context@ == old(citations)@[k].context@
                        &&& citations@[k].sentiment == Some(
                            classify_spec(old(citations)@[k].context@),
                        )
                    },
            decreases n - i,
        {
            let context = citations[i].context.clone();
            let id = citations[i].id.clone();
            let stance = classify_context(context.as_str());
            citations.set(
                i,
                Citation { id, context, sentiment: Some(stance) },
            );
            i = i + 1;
        }
    }
}

/// The embedding provider accepts a text only if it still measures at least
/// five bytes of UTF-8 once trimmed of surrounding whitespace.
pub open spec fn embed_input_ok(t: Seq<char>) -> bool {
    utf8_len(trim_ws(t)) >= 5
}

/// Whether the embedding provider would accept this text.
pub fn is_valid_embedding_input(text: &str) -> (r: bool)
    ensures
        r == embed_input_ok(text@),
{
    let chars = str_to_chars(text);
    let t = trim_chars(&chars);
    let n = t.len();
    let mut total: usize = 0;
    let mut i: usize = 0;
    while i < n && total < 5
        invariant
            n == t@.len(),
            i <= n,
            total == utf8_len(t@.take(i as int)),
            total <= 8,
        decreases n - i,
    {
        let u = t[i] as u32;
        let step: usize = if u < 0x80 {
            1
        } else if u < 0x800 {
            2
        } else if u < 0x10000 {
            3
        } else {
            4
        };
        proof {
            assert(t@.take(i + 1).drop_last() =~= t@.take(i as int));
            assert(t@.take(i + 1).last() == t@[i as int]);
            assert(step == char_utf8_len(t@[i as int]));
        }
        total = total + step;
        i = i + 1;
    }
    proof {
        if total >= 5 {
            lemma_utf8_len_prefix(t@, i as int);
        } else {
            assert(t@.take(n as int) =~= t@);
        }
    }
    total >= 5
}

/// The texts of a batch the embedding provider accepts, in order.
pub open spec fn valid_embed_inputs(ts: Seq<Seq<char>>) -> Seq<Seq<char>>
    decreases ts.len(),
{
    if ts.len() == 0 {
        Seq::empty()
    } else {
        let pre = valid_embed_inputs(ts.drop_last());
        if embed_input_ok(ts.last()) {
            pre.push(ts.last())
        } else {
            pre
        }
    }
}

/// The embedding provider's input filter: the texts it accepts, in order,
/// or nothing when it rejects every text and therefore fails as a unit.
pub fn select_embedding_inputs(texts: &Vec<String>) -> (r: Option<Vec<String>>)
    ensures
        match r {
            Some(v) => v.deep_view() == valid_embed_inputs(texts.deep_view()) && v@.len() > 0,
            None => valid_embed_inputs(texts.deep_view()).len() == 0,
        },
{
    let ghost tv = texts.deep_view();
    let n = texts.len();
    let mut out: Vec<String> = Vec::new();
    let mut i: usize = 0;
    while i < n
        invariant
            n == texts@.len(),
            i <= n,
            tv == texts.deep_view(),
            out.deep_view() == valid_embed_inputs(tv.take(i as int)),
        decreases n - i,
    {
        proof {
            assert(tv.take(i + 1).drop_last() =~~= tv.take(i as int));
            assert(tv.take(i + 1).last() == tv[i as int]);
            assert(texts@[i as int]@ == tv[i as int]);
        }
        let ti = &texts[i];
        if is_valid_embedding_input(ti.as_str()) {
            out.push(ti.clone());
            proof {
                assert(out.deep_view() =~~= valid_embed_inputs(tv.take(i + 1)));
            }
        } else {
            proof {
                assert(out.deep_view() =~~= valid_embed_inputs(tv.take(i + 1)));
            }
        }
        i = i + 1;
    }
    proof {
        assert(tv.take(n as int) =~~= tv);
    }
    if out.len() == 0 {
        None
    } else {
        Some(out)
    }
}

/// Disagreement keywords take priority: a context holding one classifies as
/// disagreement, whether or not an agreement keyword is present too.
pub proof fn lemma_disagreement_priority(ctx: Seq<char>)
    requires
        has_disagreement(lower_seq(ctx)),
    ensures
        classify_spec(ctx) == Sentiment::Disagreement,
{
}

/// Classification is deterministic: any two stances computed for the same
/// context are the same stance.
pub proof fn lemma_classification_deterministic(ctx: Seq<char>, s1: Sentiment, s2: Sentiment)
    requires
        s1 == classify_spec(ctx),
        s2 == classify_spec(ctx),
    ensures
        s1 == s2,
{
}

} // verus!
