use citestance::extractor::extract_citations;
use citestance::models::ExtractError;

#[test]
fn empty_document_fails_with_empty_input() {
    let r = extract_citations("");
    assert!(matches!(r, Err(ExtractError::EmptyInput)));
}

#[test]
fn whitespace_only_document_fails_with_empty_input() {
    let r = extract_citations("  \n\t  \r\n ");
    assert!(matches!(r, Err(ExtractError::EmptyInput)));
}

#[test]
fn document_without_citations_fails_with_no_citations_found() {
    let r = extract_citations("This text mentions no prior work. It just talks. Nothing here.");
    assert!(matches!(r, Err(ExtractError::NoCitationsFound)));
}

#[test]
fn parenthetical_author_year_is_extracted() {
    let r = extract_citations("(Jones, 2019) found consistent with earlier claims.").unwrap();
    assert_eq!(r.len(), 1);
    assert_eq!(r[0].id, "Jones 2019");
    assert!(r[0].sentiment.is_none());
}

#[test]
fn bracketed_numeric_is_extracted() {
    let r = extract_citations("See [7] for details.").unwrap();
    assert_eq!(r.len(), 1);
    assert_eq!(r[0].id, "[7]");
}

#[test]
fn bare_author_year_is_extracted_with_three_sentence_context() {
    let r = extract_citations(
        "Prior work varied. This contradicts Smith 2020 on the topic. Further tests confirm this.",
    )
    .unwrap();
    assert_eq!(r.len(), 1);
    assert_eq!(r[0].id, "Smith 2020");
    assert_eq!(
        r[0].context,
        "Prior work varied. This contradicts Smith 2020 on the topic. Further tests confirm this"
    );
}

#[test]
fn multi_token_bare_author_year_is_extracted() {
    let r = extract_citations("The claim follows Smith Jones 2020 closely.").unwrap();
    assert_eq!(r.len(), 1);
    assert_eq!(r[0].id, "Smith Jones 2020");
}

#[test]
fn five_digit_number_is_not_a_year() {
    let r = extract_citations("A figure of Smith 20205 units was reported.");
    assert!(matches!(r, Err(ExtractError::NoCitationsFound)));
}

#[test]
fn bracket_with_non_digits_does_not_match() {
    let r = extract_citations("See [12a] and [x] for details.");
    assert!(matches!(r, Err(ExtractError::NoCitationsFound)));
}

#[test]
fn parenthetical_without_comma_falls_back_to_bare_form() {
    let r = extract_citations("Results match (Jones 2019) closely.").unwrap();
    assert_eq!(r.len(), 1);
    assert_eq!(r[0].id, "Jones 2019");
}

#[test]
fn citations_appear_in_document_order() {
    let r = extract_citations(
        "First came (Adams, 2001) and [3] together. Then came Brown 2005 too. Nothing else.",
    )
    .unwrap();
    let ids: Vec<&str> = r.iter().map(|c| c.id.as_str()).collect();
    assert_eq!(ids, vec!["Adams 2001", "[3]", "Brown 2005"]);
}

#[test]
fn extraction_is_idempotent() {
    let text = "Early studies (Lee, 1999) disagreed. Later ones [4] aligned. Kim 2010 summarized.";
    let a = extract_citations(text).unwrap();
    let b = extract_citations(text).unwrap();
    assert_eq!(a.len(), b.len());
    for (x, y) in a.iter().zip(b.iter()) {
        assert_eq!(x.id, y.id);
        assert_eq!(x.context, y.context);
    }
}

#[test]
fn contexts_are_normalized_and_long_enough() {
    let text = "Noisy\twhitespace   here. The work of (Crane,\t2003) stands.\nMore\r\nfollows.";
    let r = extract_citations(text).unwrap();
    assert!(!r.is_empty());
    for c in &r {
        assert!(c.context.chars().count() >= 5);
        assert!(!c.context.contains("  "));
        assert!(!c.context.chars().any(|ch| ch.is_control()));
        assert!(!c.context.starts_with(' '));
        assert!(!c.context.ends_with(' '));
    }
}

#[test]
fn first_sentence_match_uses_empty_previous_neighbor() {
    let text = "Smith 2020 leads here. Middle sentence follows. Final sentence ends.";
    let r = extract_citations(text).unwrap();
    assert_eq!(r.len(), 1);
    assert_eq!(r[0].id, "Smith 2020");
    assert_eq!(r[0].context, ". Smith 2020 leads here. Middle sentence follows");
    assert!(!r[0].context.contains("Final sentence ends"));
}

#[test]
fn last_sentence_match_uses_empty_next_neighbor() {
    let text = "An opening thought. The end cites [9] here";
    let r = extract_citations(text).unwrap();
    assert_eq!(r.len(), 1);
    assert_eq!(r[0].id, "[9]");
    assert_eq!(r[0].context, "An opening thought. The end cites [9] here.");
}

#[test]
fn parenthetical_keeps_author_fragment_verbatim() {
    let r = extract_citations("As shown in (Garcia et al, 2014) already.").unwrap();
    assert_eq!(r.len(), 1);
    assert_eq!(r[0].id, "Garcia et al 2014");
}

#[test]
fn same_work_twice_yields_two_records() {
    let text = "One view (Nolan, 2018) here. Another view (Nolan, 2018) there.";
    let r = extract_citations(text).unwrap();
    assert_eq!(r.len(), 2);
    assert_eq!(r[0].id, "Nolan 2018");
    assert_eq!(r[1].id, "Nolan 2018");
    assert_ne!(r[0].context, r[1].context);
}

#[test]
fn no_break_space_only_document_fails_with_empty_input() {
    let r = extract_citations("\u{a0}\u{a0}");
    assert!(matches!(r, Err(ExtractError::EmptyInput)));
}

#[test]
fn unicode_whitespace_is_collapsed_and_trimmed_in_contexts() {
    let r = extract_citations("Results\u{a0}\u{a0}follow (Lee, 2020) here. Next one.").unwrap();
    assert_eq!(r.len(), 1);
    assert_eq!(r[0].id, "Lee 2020");
    assert_eq!(r[0].context, ". Results follow (Lee, 2020) here. Next one");
}

#[test]
fn no_break_space_separates_marker_tokens() {
    let r = extract_citations("As noted in (Smith,\u{a0}2020) by Doe\u{a0}2021 too.").unwrap();
    let ids: Vec<&str> = r.iter().map(|c| c.id.as_str()).collect();
    assert_eq!(ids, vec!["Smith 2020", "Doe\u{a0}2021"]);
}
