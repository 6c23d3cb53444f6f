use clawcam::webhook::{parse_targets, TargetsError};

fn s(v: &[&str]) -> Vec<String> {
    v.iter().map(|x| x.to_string()).collect()
}

#[test]
fn empty_urls_is_error() {
    assert!(parse_targets(&[], &[]).is_err());
}

#[test]
fn no_tokens_means_all_none() {
    let t = parse_targets(&s(&["a", "b"]), &[]).unwrap();
    assert_eq!(t.len(), 2);
    assert!(t.iter().all(|x| x.token.is_none()));
}

#[test]
fn single_token_broadcasts() {
    let t = parse_targets(&s(&["a", "b", "c"]), &s(&["TOK"])).unwrap();
    assert_eq!(t.len(), 3);
    assert!(t.iter().all(|x| x.token.as_deref() == Some("TOK")));
}

#[test]
fn single_empty_token_broadcasts_none() {
    let t = parse_targets(&s(&["a", "b"]), &s(&[""])).unwrap();
    assert!(t.iter().all(|x| x.token.is_none()));
}

#[test]
fn paired_tokens() {
    let t = parse_targets(&s(&["a", "b"]), &s(&["TA", "TB"])).unwrap();
    assert_eq!(t[0].token.as_deref(), Some("TA"));
    assert_eq!(t[1].token.as_deref(), Some("TB"));
}

#[test]
fn paired_empty_slot_means_none() {
    let t = parse_targets(&s(&["a", "b"]), &s(&["TA", ""])).unwrap();
    assert_eq!(t[0].token.as_deref(), Some("TA"));
    assert!(t[1].token.is_none());
}

#[test]
fn mismatched_count_is_error() {
    assert!(parse_targets(&s(&["a", "b", "c"]), &s(&["TA", "TB"])).is_err());
    assert!(parse_targets(&s(&["a"]), &s(&["TA", "TB"])).is_err());
}

#[test]
fn errors_name_their_cause() {
    assert_eq!(parse_targets(&[], &s(&["T"])).unwrap_err(), TargetsError::NoUrls);
    assert_eq!(
        parse_targets(&s(&["a", "b", "c"]), &s(&["TA", "TB"])).unwrap_err(),
        TargetsError::TokenCount { tokens: 2, urls: 3 }
    );
}

#[test]
fn targets_keep_url_order() {
    let t = parse_targets(&s(&["https://x/h", "http://10.0.0.2/h"]), &s(&["A", "B"])).unwrap();
    assert_eq!(t[0].url, "https://x/h");
    assert_eq!(t[1].url, "http://10.0.0.2/h");
}

#[test]
fn one_url_one_token() {
    let t = parse_targets(&s(&["a"]), &s(&["T"])).unwrap();
    assert_eq!(t.len(), 1);
    assert_eq!(t[0].token.as_deref(), Some("T"));
}

#[test]
fn targets_error_messages() {
    assert_eq!(TargetsError::NoUrls.message(), "at least one webhook URL is required");
    assert_eq!(
        TargetsError::TokenCount { tokens: 2, urls: 3 }.message(),
        "webhook token count (2) must be 0, 1, or 3 (one per --webhook)"
    );
}
