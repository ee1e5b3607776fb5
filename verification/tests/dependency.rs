use tagd::tagger::{Dependency, TagRequest};

#[test]
fn dependency_without_filter_accepts_anything() {
    let d = Dependency::on("text-lines");
    assert_eq!(d.key, "text-lines");
    assert!(d.matches.is_none());
    assert!(d.accepts(""));
    assert!(d.accepts("42"));
}

#[test]
fn dependency_glob_filters_values() {
    let d = Dependency::matching("mime", "image/*");
    assert_eq!(d.matches.as_deref(), Some("image/*"));
    assert!(d.accepts("image/png"));
    assert!(d.accepts("image/"));
    assert!(!d.accepts("text/plain"));
    assert!(!d.accepts("image"));
}

#[test]
fn dependency_question_mark_matches_one_character() {
    let d = Dependency::matching("k", "c?t");
    assert!(d.accepts("cat"));
    assert!(d.accepts("cot"));
    assert!(!d.accepts("ct"));
    assert!(!d.accepts("cart"));
}

#[test]
fn dependency_literal_filter_matches_only_itself() {
    let d = Dependency::matching("is-text", "true");
    assert!(d.accepts("true"));
    assert!(!d.accepts("false"));
    assert!(!d.accepts("TRUE"));
    assert!(!d.accepts("true "));
}

#[test]
fn dependency_star_matches_empty_and_everything() {
    let d = Dependency::matching("k", "*");
    assert!(d.accepts(""));
    assert!(d.accepts("anything at all"));
    let e = Dependency::matching("k", "");
    assert!(e.accepts(""));
    assert!(!e.accepts("x"));
}

#[test]
fn request_dep_returns_first_value_for_key() {
    let req = TagRequest {
        path: "/tmp/a.png".to_string(),
        deps: vec![
            ("mime".to_string(), "image/png".to_string()),
            ("group".to_string(), "image".to_string()),
            ("mime".to_string(), "later".to_string()),
        ],
    };
    assert_eq!(req.dep("mime"), Some("image/png"));
    assert_eq!(req.dep("group"), Some("image"));
    assert_eq!(req.dep("missing"), None);
}
