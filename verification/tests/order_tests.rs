use std::cmp::Ordering;

use efistub_update::order::max_version;
use efistub_update::version::Version;

fn v(s: &str) -> Version {
    Version::new(String::from(s), None).unwrap()
}

#[test]
fn compare_by_major() {
    assert_eq!(v("6.0.0").compare(&v("5.99.99")), Ordering::Greater);
    assert_eq!(v("4.9.9").compare(&v("5.0.0")), Ordering::Less);
}

#[test]
fn compare_by_minor_and_patch() {
    assert_eq!(v("5.10.0").compare(&v("5.4.9")), Ordering::Greater);
    assert_eq!(v("5.10.0").compare(&v("5.10.1")), Ordering::Less);
}

#[test]
fn compare_equal_keys() {
    assert_eq!(v("5.10.0").compare(&v("5.10.0")), Ordering::Equal);
}

#[test]
fn compare_ignores_the_canonical_string() {
    let a = Version::new(String::from("vmlinuz-5.10.0"), None).unwrap();
    let b = Version::new(String::from("5.10.0"), None).unwrap();
    assert_eq!(a.compare(&b), Ordering::Equal);
}

#[test]
fn shorter_rest_ranks_lower_on_tie() {
    assert_eq!(v("5.10.0").compare(&v("5.10.0.1")), Ordering::Less);
    assert_eq!(v("5.10.0.1").compare(&v("5.10.0")), Ordering::Greater);
    assert_eq!(v("5.10.0.1").compare(&v("5.10.0.2")), Ordering::Less);
}

#[test]
fn max_picks_the_newest() {
    let versions = vec![v("5.10.0"), v("5.4.9"), v("5.10.1")];
    let m = max_version(versions).unwrap();
    assert_eq!(m.string, "5.10.1");
}

#[test]
fn max_of_directory_listing_with_pattern() {
    let names = ["vmlinuz-5.10.0", "vmlinuz-5.4.9", "vmlinuz-5.10.1"];
    let versions: Vec<Version> = names
        .iter()
        .map(|n| Version::new(String::from(*n), Some("vmlinuz-%v")).unwrap())
        .collect();
    let m = max_version(versions).unwrap();
    assert_eq!(m.string, "5.10.1");
}

#[test]
fn max_of_empty_is_none() {
    assert!(max_version(Vec::new()).is_none());
}

#[test]
fn max_keeps_the_last_of_equal_keys() {
    let a = Version::new(String::from("first-5.10.0"), None).unwrap();
    let b = Version::new(String::from("second-5.10.0"), None).unwrap();
    let m = max_version(vec![a, b]).unwrap();
    assert_eq!(m.string, "second-5.10.0");
}
