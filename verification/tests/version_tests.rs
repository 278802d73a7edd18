use efistub_update::pattern::check_pattern;
use efistub_update::version::{ParseError, Version, VersionInfo};

#[test]
fn parse_plain_version() {
    let v = Version::new(String::from("5.10.0"), None).unwrap();
    assert_eq!(v.major, 5);
    assert_eq!(v.minor, 10);
    assert_eq!(v.patch, 0);
    assert!(v.rest.is_empty());
    assert_eq!(v.string, "5.10.0");
}

#[test]
fn parse_decorated_filename_without_pattern() {
    let v = Version::new(String::from("vmlinuz-5.10.0-amd64"), None).unwrap();
    assert_eq!(v.major, 5);
    assert_eq!(v.minor, 10);
    assert_eq!(v.patch, 0);
    assert!(v.rest.is_empty());
    assert_eq!(v.string, "vmlinuz-5.10.0-amd64");
}

#[test]
fn parse_with_pattern_extracts_canonical_string() {
    let v = Version::new(String::from("vmlinuz-5.10.1"), Some("vmlinuz-%v")).unwrap();
    assert_eq!(v.major, 5);
    assert_eq!(v.minor, 10);
    assert_eq!(v.patch, 1);
    assert_eq!(v.string, "5.10.1");
}

#[test]
fn parse_with_prefix_and_suffix_pattern() {
    let v = Version::new(String::from("kernel-4.19.88.img"), Some("kernel-%v.img")).unwrap();
    assert_eq!(v.string, "4.19.88");
    assert_eq!(v.major, 4);
    assert_eq!(v.minor, 19);
    assert_eq!(v.patch, 88);
}

#[test]
fn parse_keeps_further_groups_in_rest() {
    let v = Version::new(String::from("4.19.88_1-2"), None).unwrap();
    assert_eq!(v.major, 4);
    assert_eq!(v.minor, 19);
    assert_eq!(v.patch, 88);
    assert_eq!(v.rest, vec![1, 2]);
}

#[test]
fn parse_two_groups_is_insufficient() {
    let r = Version::new(String::from("5.10"), None);
    assert_eq!(r.unwrap_err(), ParseError::InsufficientComponents);
}

#[test]
fn parse_no_digits_is_insufficient() {
    let r = Version::new(String::from("vmlinuz-generic"), None);
    assert_eq!(r.unwrap_err(), ParseError::InsufficientComponents);
}

#[test]
fn parse_pattern_without_placeholder_is_bad() {
    let r = Version::new(String::from("vmlinuz-5.10.0"), Some("vmlinuz-"));
    assert_eq!(r.unwrap_err(), ParseError::BadPattern);
}

#[test]
fn parse_pattern_with_two_placeholders_is_bad() {
    let r = Version::new(String::from("vmlinuz-5.10.0"), Some("vm%vlinuz-%v"));
    assert_eq!(r.unwrap_err(), ParseError::BadPattern);
}

#[test]
fn parse_discards_oversized_groups() {
    let v = Version::new(String::from("5.10.0.99999999999"), None).unwrap();
    assert_eq!(v.major, 5);
    assert_eq!(v.minor, 10);
    assert_eq!(v.patch, 0);
    assert!(v.rest.is_empty());
}

#[test]
fn parse_largest_group_value_survives() {
    let v = Version::new(String::from("4294967295.0.1"), None).unwrap();
    assert_eq!(v.major, u32::MAX);
    assert_eq!(v.minor, 0);
    assert_eq!(v.patch, 1);
}

#[test]
fn parse_empty_input_is_insufficient() {
    let r = Version::new(String::new(), None);
    assert_eq!(r.unwrap_err(), ParseError::InsufficientComponents);
}

#[test]
fn version_info_num_parses_bare_string() {
    let v = VersionInfo::num(String::from("5.4.9")).parse().unwrap();
    assert_eq!((v.major, v.minor, v.patch), (5, 4, 9));
    assert_eq!(v.string, "5.4.9");
}

#[test]
fn version_info_filename_uses_the_format() {
    let info = VersionInfo::filename(String::from("vmlinuz-5.4.9"), String::from("vmlinuz-%v"));
    let v = info.parse().unwrap();
    assert_eq!(v.string, "5.4.9");
}

#[test]
fn check_pattern_accepts_exactly_one_placeholder() {
    assert!(check_pattern("vmlinuz-%v"));
    assert!(check_pattern("%v"));
    assert!(check_pattern("kernel-%v.img"));
    assert!(!check_pattern("vmlinuz-"));
    assert!(!check_pattern("%v-%v"));
    assert!(!check_pattern(""));
}
