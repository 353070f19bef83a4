use pog_bilder::text::{decimal_string, replace_str};

#[test]
fn decimal_of_small_and_large() {
    assert_eq!(decimal_string(0), "0");
    assert_eq!(decimal_string(7), "7");
    assert_eq!(decimal_string(6969), "6969");
    assert_eq!(decimal_string(65535), "65535");
    assert_eq!(decimal_string(u64::MAX), u64::MAX.to_string());
}

#[test]
fn replace_every_occurrence() {
    assert_eq!(replace_str("a:b:c", ":", ";"), "a;b;c");
    assert_eq!(replace_str("%X%%X%", "%X%", "yy"), "yyyy");
    assert_eq!(replace_str("none here", "%X%", "yy"), "none here");
    assert_eq!(replace_str("", ":", ";"), "");
}

#[test]
fn replace_is_leftmost_and_non_overlapping() {
    assert_eq!(replace_str("aaa", "aa", "b"), "aaa".replace("aa", "b"));
    assert_eq!(replace_str("aaaa", "aa", "b"), "bb");
}

#[test]
fn replace_handles_non_ascii() {
    assert_eq!(replace_str("ä:ö", ":", "ß"), "äßö");
}
