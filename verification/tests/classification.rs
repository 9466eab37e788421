use citestance::classifier::classify_context;
use citestance::classifier::is_valid_embedding_input;
use citestance::classifier::select_embedding_inputs;
use citestance::classifier::Classifier;
use citestance::extractor::extract_citations;
use citestance::models::Citation;
use citestance::models::Report;
use citestance::models::Sentiment;

#[test]
fn disagreement_keywords_classify_as_disagreement() {
    assert_eq!(
        classify_context("this is contrary to earlier findings"),
        Sentiment::Disagreement
    );
    assert_eq!(classify_context("we disagree with that"), Sentiment::Disagreement);
    assert_eq!(classify_context("it contradicts the model"), Sentiment::Disagreement);
}

#[test]
fn agreement_keywords_classify_as_agreement() {
    assert_eq!(
        classify_context("this is consistent with earlier findings"),
        Sentiment::Agreement
    );
    assert_eq!(classify_context("the data supports it"), Sentiment::Agreement);
    assert_eq!(classify_context("results are in line with ours"), Sentiment::Agreement);
}

#[test]
fn context_without_keywords_is_neutral() {
    assert_eq!(classify_context("See [7] for details"), Sentiment::Neutral);
    assert_eq!(classify_context(""), Sentiment::Neutral);
}

#[test]
fn keyword_matching_is_case_insensitive() {
    assert_eq!(classify_context("THIS CONTRADICTS THE CLAIM"), Sentiment::Disagreement);
    assert_eq!(classify_context("Consistent With the record"), Sentiment::Agreement);
}

#[test]
fn disagreement_takes_priority_over_agreement() {
    assert_eq!(
        classify_context("this runs contrary to X but is consistent with Y"),
        Sentiment::Disagreement
    );
}

#[test]
fn classify_fills_every_stance_and_keeps_fields() {
    let mut citations = extract_citations(
        "Prior work varied. This contradicts Smith 2020 on the topic. Further tests confirm this.",
    )
    .unwrap();
    let ids: Vec<String> = citations.iter().map(|c| c.id.clone()).collect();
    let contexts: Vec<String> = citations.iter().map(|c| c.context.clone()).collect();
    let classifier = Classifier::new();
    classifier.classify(&mut citations);
    assert_eq!(citations.len(), ids.len());
    for (i, c) in citations.iter().enumerate() {
        assert_eq!(c.id, ids[i]);
        assert_eq!(c.context, contexts[i]);
        assert!(c.sentiment.is_some());
    }
    assert_eq!(citations[0].sentiment, Some(Sentiment::Disagreement));
}

#[test]
fn classification_is_deterministic_across_runs() {
    let text = "Early studies (Lee, 1999) ran contrary to ours. Later ones [4] were in line with ours. Kim 2010 summarized.";
    let classifier = Classifier::new();
    let mut a = extract_citations(text).unwrap();
    let mut b = extract_citations(text).unwrap();
    classifier.classify(&mut a);
    classifier.classify(&mut b);
    assert_eq!(a.len(), b.len());
    for (x, y) in a.iter().zip(b.iter()) {
        assert_eq!(x.sentiment, y.sentiment);
        assert!(x.sentiment.is_some());
    }
}

#[test]
fn agreement_example_end_to_end() {
    let mut citations =
        extract_citations("(Jones, 2019) found consistent with earlier claims.").unwrap();
    let classifier = Classifier::new();
    classifier.classify(&mut citations);
    assert_eq!(citations.len(), 1);
    assert_eq!(citations[0].id, "Jones 2019");
    assert_eq!(citations[0].sentiment, Some(Sentiment::Agreement));
}

#[test]
fn neutral_example_end_to_end() {
    let mut citations = extract_citations("See [7] for details.").unwrap();
    let classifier = Classifier::new();
    classifier.classify(&mut citations);
    assert_eq!(citations.len(), 1);
    assert_eq!(citations[0].id, "[7]");
    assert_eq!(citations[0].sentiment, Some(Sentiment::Neutral));
}

#[test]
fn embedding_input_policy_trims_and_requires_five_bytes() {
    assert!(is_valid_embedding_input("long enough"));
    assert!(is_valid_embedding_input("  12345  "));
    assert!(!is_valid_embedding_input("1234"));
    assert!(!is_valid_embedding_input("   "));
    assert!(!is_valid_embedding_input(""));
    // The length policy counts bytes of the trimmed text, so a four-character
    // text with one two-byte character passes.
    assert!(is_valid_embedding_input("h\u{e9}ll"));
    // Unicode whitespace is trimmed away before measuring.
    assert!(!is_valid_embedding_input("\u{a0}\u{a0}\u{a0}\u{a0}\u{a0}"));
    assert!(!is_valid_embedding_input("\u{a0}hey\u{a0}"));
}

#[test]
fn embedding_batch_keeps_only_valid_texts() {
    let texts = vec![
        String::from("hi"),
        String::from("a context long enough"),
        String::from("  \t "),
        String::from("another usable context"),
    ];
    let kept = select_embedding_inputs(&texts).unwrap();
    assert_eq!(kept, vec![
        String::from("a context long enough"),
        String::from("another usable context"),
    ]);
}

#[test]
fn embedding_batch_with_no_valid_text_fails_as_a_unit() {
    let texts = vec![String::from("hi"), String::from(" "), String::from("1234")];
    assert!(select_embedding_inputs(&texts).is_none());
}

#[test]
fn report_holds_classified_citations_in_order() {
    let mut citations = extract_citations(
        "First came (Adams, 2001) here. Then came Brown 2005 too. Nothing else.",
    )
    .unwrap();
    let classifier = Classifier::new();
    classifier.classify(&mut citations);
    let report = Report { citations };
    assert_eq!(report.citations.len(), 2);
    assert_eq!(report.citations[0].id, "Adams 2001");
    assert_eq!(report.citations[1].id, "Brown 2005");
}

#[test]
fn citation_fields_are_public_and_plain() {
    let c = Citation {
        id: String::from("[1]"),
        context: String::from("a context"),
        sentiment: None,
    };
    assert_eq!(c.id, "[1]");
    assert_eq!(c.context, "a context");
    assert!(c.sentiment.is_none());
}
