use ratioup::algorithm::{digit_range_transformed_to_hex_without_leading_zero, hash, regex, upper_hex};
use regex::Regex;

#[test]
fn is_hash_ok() {
    assert_eq!(hash(8, false, None).len(), 8usize);
    let h = hash(8, true, None);
    assert_eq!(h.len(), 8usize);
    assert_eq!(h.chars().nth(0).unwrap() == '0', false);
}

#[test]
fn is_hash_case_ok() {
    let re_uc = Regex::new(r"[A-Z0-9]{64}").unwrap();
    let re_lc = Regex::new(r"[a-z0-9]{64}").unwrap();
    assert_eq!(re_uc.is_match(&hash(64, false, None)), true);
    assert_eq!(re_uc.is_match(&hash(64, false, Some(true))), true);
    assert_eq!(re_lc.is_match(&hash(64, false, Some(false))), true);
}

#[test]
fn is_digit_range_to_hex_ok() {
    let re = Regex::new(r"[A-Z0-9]+").unwrap();
    assert_eq!(re.is_match(&digit_range_transformed_to_hex_without_leading_zero()), true);
}

#[test]
fn hash_symbols_stay_in_their_range() {
    let h = hash(200, true, Some(true));
    assert!(h.chars().all(|c| "123456789ABCDE".contains(c)));
    let h = hash(200, false, Some(false));
    assert!(h.chars().all(|c| "abcdef012345678".contains(c)));
    assert_eq!(hash(0, false, None), "");
}

#[test]
fn upper_hex_values() {
    assert_eq!(upper_hex(0), "0");
    assert_eq!(upper_hex(10), "A");
    assert_eq!(upper_hex(255), "FF");
    assert_eq!(upper_hex(2147483646), "7FFFFFFE");
    assert_eq!(upper_hex(0x1234ABCD), format!("{:x}", 0x1234ABCDu32).to_uppercase());
}

#[test]
fn is_regex_ok() {
    let mut re = Regex::new("-lt0D60-[\u{0001}-\u{00ff}]{12}").unwrap();
    assert_eq!(re.is_match(&regex("-lt0D60-[\u{0001}-\u{00ff}]{12}").unwrap()), true);
    re = Regex::new("-AZ5750-[a-zA-Z0-9]{12}").unwrap();
    assert_eq!(re.is_match(&regex("-AZ5750-[a-zA-Z0-9]{12}").unwrap()), true)
}

#[test]
fn regex_rejects_a_bad_pattern() {
    assert!(regex("(unclosed").is_none());
}
