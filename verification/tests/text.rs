use algoprims::text::{extract_emails, slugify};

#[test]
fn slugify_hello_world() {
    assert_eq!(slugify("Hello, World!"), "hello-world");
}

#[test]
fn slugify_only_separators_is_empty() {
    assert_eq!(slugify("   "), "");
    assert_eq!(slugify(""), "");
    assert_eq!(slugify("!!!"), "");
}

#[test]
fn slugify_collapses_runs_and_trims() {
    assert_eq!(slugify("--A--b--"), "a-b");
    assert_eq!(slugify("  Rust 2021 Edition  "), "rust-2021-edition");
    assert_eq!(slugify("X"), "x");
}

#[test]
fn slugify_shape_on_samples() {
    for input in ["a  b", "-a-", "..x..y..", "A!B@C#D", "7 up", "ünïcödé"] {
        let out = slugify(input);
        assert!(!out.starts_with('-'));
        assert!(!out.ends_with('-'));
        assert!(!out.contains("--"));
    }
}

#[test]
fn extract_emails_scenario() {
    let found = extract_emails("contact a.b@example.com or foo@bar and x@y.");
    assert_eq!(found, vec!["a.b@example.com".to_string(), "x@y".to_string()]);
}

#[test]
fn extract_emails_deduplicates_in_first_seen_order() {
    let found = extract_emails("z@q.r then a@b.c then z@q.r again");
    assert_eq!(found, vec!["z@q.r".to_string(), "a@b.c".to_string()]);
}

#[test]
fn extract_emails_rejects_edge_anchors() {
    assert_eq!(extract_emails("@x.com"), Vec::<String>::new());
    assert_eq!(extract_emails("user@"), Vec::<String>::new());
    assert_eq!(extract_emails("@"), Vec::<String>::new());
}

#[test]
fn extract_emails_requires_domain_dot() {
    assert_eq!(extract_emails("say hi to me@localhost please"), Vec::<String>::new());
    assert_eq!(extract_emails("me@host.domain ok"), vec!["me@host.domain".to_string()]);
}

#[test]
fn extract_emails_allows_plus_and_underscore_in_local_part() {
    let found = extract_emails("write a_b+c@mail.example.org now");
    assert_eq!(found, vec!["a_b+c@mail.example.org".to_string()]);
}
