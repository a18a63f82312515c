use incsync::names::{candidate_id, ext_matches, ext_split_at, extract_id};

#[test]
fn first_digit_run_is_taken() {
    assert_eq!(extract_id("img_3"), Some(3));
    assert_eq!(extract_id("a10"), Some(10));
    assert_eq!(extract_id("42abc7"), Some(42));
    assert_eq!(extract_id("x9y8"), Some(9));
}

#[test]
fn no_digits_means_no_identifier() {
    assert_eq!(extract_id("photo"), None);
    assert_eq!(extract_id(""), None);
    assert_eq!(extract_id("_-~"), None);
}

#[test]
fn leading_zeroes_parse() {
    assert_eq!(extract_id("007"), Some(7));
    assert_eq!(extract_id("img_000"), Some(0));
}

#[test]
fn overflow_is_no_identifier() {
    assert_eq!(extract_id("99999999999"), None);
    assert_eq!(extract_id("4294967295"), Some(u32::MAX));
    assert_eq!(extract_id("4294967296"), None);
}

#[test]
fn extension_match_is_ascii_case_insensitive() {
    assert!(ext_matches("raw", "RAW"));
    assert!(ext_matches("NeF", "nef"));
    assert!(ext_matches("", ""));
    assert!(!ext_matches("jpg", "raw"));
    assert!(!ext_matches("ra", "raw"));
    assert!(!ext_matches("rawx", "raw"));
}

#[test]
fn extension_split_follows_the_last_dot() {
    assert_eq!(ext_split_at("img_3.raw"), Some(5));
    assert_eq!(ext_split_at("archive.tar.gz"), Some(11));
    assert_eq!(ext_split_at("noext"), None);
    assert_eq!(ext_split_at(".hidden"), None);
    assert_eq!(ext_split_at(""), None);
}

#[test]
fn candidate_id_needs_matching_extension_and_digits() {
    assert_eq!(candidate_id("img_7.raw", "raw"), Some(7));
    assert_eq!(candidate_id("IMG_7.RAW", "raw"), Some(7));
    assert_eq!(candidate_id("photo.raw", "raw"), None);
    assert_eq!(candidate_id("img_7.jpg", "raw"), None);
    assert_eq!(candidate_id("img_7", "raw"), None);
    assert_eq!(candidate_id(".hidden", "raw"), None);
    assert_eq!(candidate_id("a.b.10.gz", "gz"), Some(10));
}
