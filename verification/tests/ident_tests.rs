use text_align::ident::{classify, remove_numerical_suffix, Alignment};

#[test]
fn test_remove_numerical_suffix() {
    assert_eq!(remove_numerical_suffix(b"foo"), b"foo");
    assert_eq!(remove_numerical_suffix(b"foo1"), b"foo");
    assert_eq!(remove_numerical_suffix(b"foo123"), b"foo");
    assert_eq!(remove_numerical_suffix(b"foo_123"), b"foo");
    assert_eq!(remove_numerical_suffix(b"foo_"), b"foo");
    assert_eq!(remove_numerical_suffix(b"f_oo_"), b"f_oo");
}

#[test]
fn classify_plain_keywords() {
    assert_eq!(classify(b"title_left"), Some(Alignment::Left));
    assert_eq!(classify(b"title_center"), Some(Alignment::Center));
    assert_eq!(classify(b"title_right"), Some(Alignment::Right));
    assert_eq!(classify(b"heading"), None);
}

#[test]
fn classify_with_numeric_suffix() {
    assert_eq!(classify(b"title_left_2"), Some(Alignment::Left));
    assert_eq!(classify(b"far_left_12"), Some(Alignment::Left));
    assert_eq!(classify(b"box_center_3"), Some(Alignment::Center));
    assert_eq!(classify(b"box_right777"), Some(Alignment::Right));
}

#[test]
fn classify_no_keyword() {
    assert_eq!(classify(b"footer_99"), None);
    assert_eq!(classify(b"12345"), None);
    assert_eq!(classify(b""), None);
    assert_eq!(classify(b"lefty"), None);
}

#[test]
fn classify_exact_bytes_no_case_folding() {
    assert_eq!(classify(b"title_LEFT"), None);
    assert_eq!(classify(b"title_Left_2"), None);
}

#[test]
fn classify_stable_on_stripped_form() {
    let stripped = remove_numerical_suffix(b"title_left_2");
    assert_eq!(classify(stripped), classify(b"title_left_2"));
    let stripped2 = remove_numerical_suffix(b"footer_99");
    assert_eq!(classify(stripped2), classify(b"footer_99"));
}
