use std::cmp::Ordering;

use yadict::lang::{compare, decode, detect_locale_from_text, try_compare};
use yadict::text::DecodeFailure;

#[test]
fn test_compare() {
    assert_eq!(Ordering::Less, compare("Benedictine", "bird"));
}

#[test]
fn try_compare_orders_english_words_alphabetically_ignoring_case() {
    assert_eq!(try_compare("cat", "dog"), Some(Ordering::Less));
    assert_eq!(try_compare("dog", "cat"), Some(Ordering::Greater));
    assert_eq!(try_compare("apple", "apple"), Some(Ordering::Equal));
}

#[test]
fn decode_reads_utf8_and_refuses_unknown_labels() {
    assert_eq!(decode("utf-8", "héllo".as_bytes()).unwrap(), "héllo");
    assert!(matches!(decode("no-such-encoding", b"abc"), Err(DecodeFailure::UnknownLabel)));
}

#[test]
fn decode_reads_gbk() {
    // "中文" in GBK.
    assert_eq!(decode("gbk", &[0xd6, 0xd0, 0xce, 0xc4]).unwrap(), "中文");
}

#[test]
fn the_language_of_a_text_picks_the_collation() {
    assert_eq!(detect_locale_from_text("The quick brown fox jumps over the lazy dog near the river bank"), "en");
    assert_eq!(detect_locale_from_text("我们今天一起去公园散步，天气非常好，大家都很开心。"), "zh");
    assert_eq!(detect_locale_from_text(""), "en");
}
