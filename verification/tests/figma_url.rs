use figma_code_dl::figma_url::{parse, target_of, FigmaUrlError, UrlParts};

#[test]
fn parses_standard_design_url() {
    let t = parse("https://www.figma.com/design/AbCdEfGhIjKlMnOpQrStUv/Foo?node-id=1-2&m=dev")
        .unwrap();
    assert_eq!(t.file_key, "AbCdEfGhIjKlMnOpQrStUv");
    assert_eq!(t.node_id, "1:2");
}

#[test]
fn parses_branch_url() {
    let t = parse("https://www.figma.com/design/ABCD/branch/BRANCH123/Bar?node-id=1-2").unwrap();
    assert_eq!(t.file_key, "BRANCH123");
    assert_eq!(t.node_id, "1:2");
}

#[test]
fn parses_make_url() {
    let t = parse("https://www.figma.com/make/MAKE123/Baz?node-id=10-20").unwrap();
    assert_eq!(t.file_key, "MAKE123");
    assert_eq!(t.node_id, "10:20");
}

#[test]
fn rejects_non_figma_host() {
    assert!(parse("https://example.com/design/x/y?node-id=1-2").is_err());
}

#[test]
fn requires_node_id() {
    assert!(parse("https://www.figma.com/design/X/Y").is_err());
}

fn message(url: &str) -> String {
    parse(url).unwrap_err().message()
}

#[test]
fn every_error_says_why() {
    assert_eq!(message("not a url"), "invalid URL");
    assert_eq!(message("unix:/run/foo"), "URL has no host");
    assert_eq!(
        message("https://example.com/design/x"),
        "not a Figma URL (host: example.com)"
    );
    assert_eq!(
        message("https://figma.com//file/x?node-id=1-2"),
        "URL path doesn't look like a Figma design/make URL: /file/x"
    );
    assert_eq!(
        message("https://figma.com/design/x?id=1"),
        "URL has no node-id query parameter"
    );
    let no_path = UrlParts {
        host: Some("figma.com".into()),
        segments: None,
        query: vec![],
    };
    let err = target_of(&no_path).unwrap_err();
    assert!(matches!(err, FigmaUrlError::NoPath));
    assert_eq!(err.message(), "URL has no path");
}

#[test]
fn empty_segments_do_not_count() {
    let t = parse("https://figma.com//design//K//?node-id=1-2-3").unwrap();
    assert_eq!(t.file_key, "K");
    assert_eq!(t.node_id, "1:2:3");
}

#[test]
fn parameters_are_decoded_and_the_first_counts() {
    let t = parse("https://figma.com/design/K?node%2Did=1%3A2&node-id=3-4").unwrap();
    assert_eq!(t.node_id, "1:2");
}

#[test]
fn a_branch_needs_its_key() {
    let t = parse("https://figma.com/design/K/branch?node-id=1-2").unwrap();
    assert_eq!(t.file_key, "K");
    assert!(parse("https://figma.com/make?node-id=1-2").is_err());
}
