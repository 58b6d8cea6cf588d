use nginx_log_stats::endpoint::{char_is_whitespace, endpoint};

#[test]
fn endpoint_is_the_second_token() {
    assert_eq!(
        endpoint("GET /downloads/product_1 HTTP/1.1"),
        "/downloads/product_1"
    );
    assert_eq!(endpoint("POST /api/v1/items?id=3 HTTP/2.0"), "/api/v1/items?id=3");
}

#[test]
fn endpoint_of_two_tokens_ends_with_the_line() {
    assert_eq!(endpoint("GET /a"), "/a");
    assert_eq!(endpoint("GET x"), "x");
}

#[test]
fn endpoint_defaults_to_root_with_fewer_than_two_tokens() {
    assert_eq!(endpoint("GET"), "/");
    assert_eq!(endpoint("GET   "), "/");
    assert_eq!(endpoint("   GET"), "/");
    assert_eq!(endpoint(""), "/");
    assert_eq!(endpoint(" \t\n "), "/");
    assert_eq!(endpoint("-"), "/");
}

#[test]
fn endpoint_skips_runs_of_whitespace() {
    assert_eq!(endpoint("  GET   /a  HTTP/1.1 "), "/a");
    assert_eq!(endpoint("GET\t/x\nHTTP/1.1"), "/x");
    assert_eq!(endpoint("\r\nGET\r\n/y\r\n"), "/y");
}

#[test]
fn endpoint_splits_on_unicode_whitespace() {
    assert_eq!(endpoint("GET\u{3000}/y\u{2003}HTTP/1.1"), "/y");
    assert_eq!(endpoint("GET\u{a0}/z\u{85}HTTP/1.1"), "/z");
    assert_eq!(endpoint("GET\u{1680}/w\u{205f}HTTP/1.1"), "/w");
}

#[test]
fn endpoint_keeps_characters_that_only_look_like_whitespace() {
    assert_eq!(endpoint("GET /a\u{200b}b HTTP/1.1"), "/a\u{200b}b");
    assert_eq!(endpoint("GET\u{180e}/a /b"), "/b");
}

#[test]
fn endpoint_keeps_characters_of_several_bytes() {
    assert_eq!(
        endpoint("GET /caf\u{e9}/\u{1f600}/\u{4e2d} HTTP/1.1"),
        "/caf\u{e9}/\u{1f600}/\u{4e2d}"
    );
    assert_eq!(endpoint("\u{e9}\u{e9} \u{1f600}"), "\u{1f600}");
}

#[test]
fn endpoint_agrees_with_split_whitespace() {
    let samples = [
        "GET /downloads/product_1 HTTP/1.1",
        "",
        " ",
        "a",
        "a b",
        " a b ",
        "a  b  c  d",
        "\ta\u{2028}b\u{2029}c",
        "GET\u{202f}/p\u{2000}\u{200a}q",
        "\u{feff}GET /bom HTTP/1.1",
        "a\u{b}b\u{c}c",
        "x\u{1c}y z",
    ];
    for sample in samples {
        let expected = sample.split_whitespace().nth(1).unwrap_or("/");
        assert_eq!(endpoint(sample), expected, "request line {:?}", sample);
    }
}

#[test]
fn whitespace_is_the_unicode_white_space_property() {
    for code in 0..=0x10ffff_u32 {
        if let Some(c) = char::from_u32(code) {
            assert_eq!(char_is_whitespace(c), c.is_whitespace(), "U+{:04X}", code);
        }
    }
}

#[test]
fn whitespace_examples() {
    assert!(char_is_whitespace(' '));
    assert!(char_is_whitespace('\t'));
    assert!(char_is_whitespace('\n'));
    assert!(char_is_whitespace('\u{3000}'));
    assert!(!char_is_whitespace('/'));
    assert!(!char_is_whitespace('\u{8}'));
    assert!(!char_is_whitespace('\u{e}'));
    assert!(!char_is_whitespace('\u{200b}'));
}
