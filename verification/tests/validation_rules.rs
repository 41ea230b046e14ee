use raft_election::validation::{validate_price, validate_product_name};

#[test]
fn product_name_nonempty() {
    assert!(validate_product_name("monitor"));
    assert!(validate_product_name(" "));
    assert!(!validate_product_name(""));
}

#[test]
fn price_plain_digits() {
    assert!(validate_price("123"));
    assert!(validate_price("0"));
    assert!(validate_price("12.99"));
}

#[test]
fn price_with_currency_marker_and_spaces() {
    assert!(validate_price("12.99 lei"));
    assert!(validate_price("lei 5"));
    assert!(validate_price(" 1 2 3 "));
}

#[test]
fn price_rejects_empty_after_cleaning() {
    assert!(!validate_price(""));
    assert!(!validate_price("lei"));
    assert!(!validate_price("   "));
    assert!(!validate_price(" lei lei "));
}

#[test]
fn price_rejects_other_characters() {
    assert!(!validate_price("12a"));
    assert!(!validate_price("12,99"));
    assert!(!validate_price("-5"));
    assert!(!validate_price("12.99 EUR"));
}

#[test]
fn price_marker_removed_left_to_right() {
    // Only contiguous `lei` is removed, and removal does not rescan what
    // it brings together.
    assert!(!validate_price("l e i"));
    assert!(validate_price("le1i".replace("1", "lei").as_str()) == false);
    assert!(!validate_price("5x"));
    assert!(validate_price("5lei"));
}
