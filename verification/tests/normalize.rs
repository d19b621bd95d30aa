use engramark::normalize::{casefold, contains_cjk, normalize_text, py_len, py_repr_str, py_repr_str_list, py_rstrip, py_strip};

#[test]
fn unicode_data_is_16() {
    assert_eq!(engramark::casefold_table::UNICODE_DATA_VERSION, (16, 0, 0));
}

#[test]
fn smoke() {
    assert_eq!(normalize_text("  Straße　Ⅷ "), "strasse viii");
    assert_eq!(normalize_text("ΣΊΣΥΦΟΣ"), "σίσυφοσ");
    assert_eq!(normalize_text("a\x1cb\u{2028}c"), "a b c");
}

#[test]
fn casefold_expands_and_folds() {
    assert_eq!(casefold("Straße"), "strasse");
    assert_eq!(casefold("ǅ"), "ǆ");
    assert_eq!(casefold("ABC"), "abc");
}

#[test]
fn strip_uses_python_whitespace() {
    assert_eq!(py_strip("\x1c a b \u{3000}"), "a b");
    assert_eq!(py_rstrip("  a b \t\n"), "  a b");
    assert_eq!(py_strip(""), "");
}

#[test]
fn cjk_and_length() {
    assert!(contains_cjk("abc中d"));
    assert!(!contains_cjk("abc"));
    assert_eq!(py_len("é中"), 2);
}

#[test]
fn repr_follows_python() {
    assert_eq!(py_repr_str("fact"), "'fact'");
    assert_eq!(py_repr_str("it's"), "\"it's\"");
    assert_eq!(py_repr_str("a\nb"), "'a\\nb'");
    assert_eq!(py_repr_str_list(&["decision", "fact"]), "['decision', 'fact']");
}

#[test]
fn casefold_documented_examples_and_concatenation() {
    assert_eq!(casefold("ΣΑΣ"), "σασ");
    assert_eq!(casefold("İ"), "i\u{307}");
    let (a, b) = ("Straße", "ΣΑΣ İ");
    assert_eq!(casefold(&format!("{a}{b}")), format!("{}{}", casefold(a), casefold(b)));
}
