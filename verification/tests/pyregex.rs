use engramark::pyregex::{
    ascii_anchor_present, find_code_tokens, find_domains, find_paths, find_query_tokens, find_urls, is_caps_acronym,
    is_caps_identifier, is_domain_full, is_path_full, is_url_full,
};

#[test]
fn urls_and_query_tokens() {
    assert_eq!(find_urls("see https://a.b/c?x=1 and HTTP://Q.io>z"), vec![(4, 21), (26, 37)]);
    assert!(is_url_full("https://example.com/x"));
    assert!(!is_url_full("x https://example.com"));
    assert_eq!(
        find_query_tokens("查询 CEF 下载 v1.2 docs.rs"),
        vec![(0, 6), (7, 10), (11, 17), (18, 22), (23, 30)]
    );
}

#[test]
fn domains_check_boundaries() {
    assert_eq!(find_domains("visit docs.rs, or mail a@b.io now"), vec![(6, 13)]);
    assert!(is_domain_full("docs.rs"));
    assert!(!is_domain_full("docs.rs."));
}

#[test]
fn paths_and_code_tokens() {
    assert_eq!(find_paths("配置在 ~/engramark/cards 和 /tmp/x；还有a/b"), vec![(10, 27), (32, 38)]);
    assert!(is_path_full("/tmp/x"));
    assert_eq!(
        find_code_tokens("use serde_json::Value and x9 ok"),
        vec![(0, 3), (4, 14), (16, 21), (22, 25), (26, 28), (29, 31)]
    );
}

#[test]
fn caps_and_anchor_words() {
    assert!(is_caps_identifier("CEF_URL"));
    assert!(!is_caps_identifier("Cef"));
    assert!(is_caps_acronym("CEF2"));
    assert!(!is_caps_acronym("CEF-2"));
    assert!(ascii_anchor_present("cef", "the cef runtime"));
    assert!(!ascii_anchor_present("cef", "the cefs runtime"));
}

#[test]
fn code_tokens_back_off_to_word_boundary() {
    assert_eq!(find_code_tokens("use foo_bar.v2, x and 中abc"), vec![(0, 3), (4, 14), (18, 21)]);
    assert_eq!(find_code_tokens("call foo."), vec![(0, 4), (5, 8)]);
    assert_eq!(find_code_tokens("see a.b- now"), vec![(0, 3), (4, 7), (9, 12)]);
    assert_eq!(find_code_tokens("ab.cé"), vec![(0, 3)]);
    assert_eq!(find_code_tokens("x."), Vec::<(usize, usize)>::new());
}
