//! Tests of versions, ranges and constraints.
use mvn_core::version::{Version, VersionConstraint, VersionRange};
use std::collections::HashSet;

fn v(s: &str) -> Version {
    Version::new(s)
}

#[test]
fn test_version_equality_trailing_zeros() {
    assert_eq!(v("1"), v("1.0"));
    assert_eq!(v("1"), v("1.0.0"));
    assert_eq!(v("1.0"), v("1.0.0"));
}

#[test]
fn test_case_insensitive() {
    assert_eq!(v("1.0-ALPHA"), v("1.0-alpha"));
    assert_eq!(v("1.0-Beta"), v("1.0-beta"));
    assert_eq!(v("1.0-SNAPSHOT"), v("1.0-snapshot"));
}

#[test]
fn test_major_minor_ordering() {
    assert!(v("1") < v("1.1"));
    assert!(v("1.1") < v("1.2"));
    assert!(v("1.2") < v("2"));
}

#[test]
fn test_qualifier_ordering() {
    assert!(v("1.0-alpha") < v("1.0-beta"));
    assert!(v("1.0-beta") < v("1.0-milestone"));
    assert!(v("1.0-milestone") < v("1.0-rc"));
    assert!(v("1.0-rc") < v("1.0-SNAPSHOT"));
    assert!(v("1.0-SNAPSHOT") < v("1.0"));
    assert!(v("1.0") < v("1.0-sp"));
    assert!(v("1.0-sp") < v("1.0.1"));
}

#[test]
fn test_alpha_beta_sub_versions() {
    assert!(v("1.0-alpha-1") < v("1.0-alpha-2"));
    assert!(v("1.0-alpha-2") < v("1.0-beta-1"));
}

#[test]
fn test_snapshot_less_than_release() {
    assert!(v("1.0-SNAPSHOT") < v("1.0"));
}

#[test]
fn test_numeric_after_dash() {
    assert!(v("1.0.0-1") < v("1.0.0-2"));
}

#[test]
fn test_range_closed_open() {
    let range: VersionRange = "[1.0,2.0)".parse().unwrap();
    assert!(range.contains(&v("1.0")));
    assert!(range.contains(&v("1.5")));
    assert!(!range.contains(&v("2.0")));
    assert!(!range.contains(&v("0.9")));
}

#[test]
fn test_range_exact() {
    let range: VersionRange = "[1.0]".parse().unwrap();
    assert!(range.contains(&v("1.0")));
    assert!(range.contains(&v("1.0.0"))); // 1.0 == 1.0.0
    assert!(!range.contains(&v("1.1")));
    assert!(!range.contains(&v("0.9")));
}

#[test]
fn test_range_lower_unbounded() {
    let range: VersionRange = "(,1.0]".parse().unwrap();
    assert!(range.contains(&v("0.5")));
    assert!(range.contains(&v("1.0")));
    assert!(!range.contains(&v("1.1")));
}

#[test]
fn test_range_upper_unbounded() {
    let range: VersionRange = "[1.5,)".parse().unwrap();
    assert!(range.contains(&v("1.5")));
    assert!(range.contains(&v("2.0")));
    assert!(!range.contains(&v("1.4")));
}

#[test]
fn test_range_multi() {
    let range: VersionRange = "(,1.0],[1.2,)".parse().unwrap();
    assert!(range.contains(&v("0.5")));
    assert!(range.contains(&v("1.0")));
    assert!(!range.contains(&v("1.1")));
    assert!(range.contains(&v("1.2")));
    assert!(range.contains(&v("2.0")));
}

#[test]
fn test_range_closed_closed() {
    let range: VersionRange = "[1.0,2.0]".parse().unwrap();
    assert!(range.contains(&v("1.0")));
    assert!(range.contains(&v("2.0")));
    assert!(!range.contains(&v("2.1")));
}

#[test]
fn test_constraint_recommended() {
    let c = VersionConstraint::parse("1.0").unwrap();
    assert!(matches!(c, VersionConstraint::Recommended(_)));
    assert!(c.contains(&v("999.0"))); // always true
}

#[test]
fn test_constraint_range() {
    let c = VersionConstraint::parse("[1.0,2.0)").unwrap();
    assert!(matches!(c, VersionConstraint::Range(_)));
    assert!(c.contains(&v("1.5")));
    assert!(!c.contains(&v("2.0")));
}

#[test]
fn test_version_display() {
    let ver = v("1.2.3-beta-1");
    assert_eq!(ver.to_string(), "1.2.3-beta-1");
}

#[test]
fn test_version_from_str() {
    let ver: Version = "2.0.0".parse().unwrap();
    assert_eq!(ver, v("2.0.0"));
}

#[test]
fn test_version_range_display() {
    let r: VersionRange = "[1.0,2.0)".parse().unwrap();
    assert_eq!(r.to_string(), "[1.0,2.0)");
}

#[test]
fn version_empty_string() {
    let ver: Version = "".parse().unwrap();
    assert_eq!(ver.to_string(), "");
}

#[test]
fn version_single_number() {
    assert_eq!(v("42"), v("42.0"));
}

#[test]
fn version_very_long() {
    let ver = v("1.2.3.4.5.6.7.8.9.10.11.12");
    assert!(ver < v("1.2.3.4.5.6.7.8.9.10.11.13"));
    assert!(ver > v("1.2.3.4.5.6.7.8.9.10.11.11"));
    assert_eq!(ver, v("1.2.3.4.5.6.7.8.9.10.11.12"));
}

#[test]
fn version_all_qualifiers_ordering() {
    let chain = [
        "1-alpha", "1-beta", "1-milestone", "1-rc", "1-snapshot", "1", "1-sp", "1.1",
    ];
    for pair in chain.windows(2) {
        assert!(
            v(pair[0]) < v(pair[1]),
            "expected {} < {}",
            pair[0],
            pair[1]
        );
    }
}

#[test]
fn version_qualifier_aliases() {
    assert_eq!(v("1-a1"), v("1-alpha-1"));
    assert_eq!(v("1-b2"), v("1-beta-2"));
    assert_eq!(v("1-m3"), v("1-milestone-3"));
    assert_eq!(v("1-cr1"), v("1-rc-1"));
}

#[test]
fn version_numeric_after_dash() {
    assert!(v("1.0-1") < v("1.0-2"));
    assert!(v("1.0-2") < v("1.0-11"));
}

#[test]
fn version_mixed_separators() {
    assert!(v("1.0-alpha.1") < v("1.0-alpha.2"));
}

#[test]
fn version_zero_padding() {
    assert_eq!(v("1.0"), v("1.0.0.0.0"));
}

#[test]
fn version_display_preserves_original() {
    let ver = Version::new("1.0-ALPHA");
    assert_eq!(ver.to_string(), "1.0-ALPHA");
}

#[test]
fn version_hash_equality() {
    let mut set = HashSet::new();
    set.insert(v("1.0"));
    // "1" == "1.0", so inserting "1" should not grow the set
    set.insert(v("1"));
    assert_eq!(set.len(), 1, "equal versions must have the same hash");
}

#[test]
fn range_exactly_one() {
    let range: VersionRange = "[1.5]".parse().unwrap();
    assert!(range.contains(&v("1.5")));
    assert!(!range.contains(&v("1.4")));
    assert!(!range.contains(&v("1.6")));
}

#[test]
fn range_open_ended_right() {
    let range: VersionRange = "[2.0,)".parse().unwrap();
    assert!(range.contains(&v("2.0")));
    assert!(range.contains(&v("3.0")));
    assert!(range.contains(&v("999.0")));
    assert!(!range.contains(&v("1.9")));
}

#[test]
fn range_open_ended_left() {
    let range: VersionRange = "(,1.0]".parse().unwrap();
    assert!(range.contains(&v("0.1")));
    assert!(range.contains(&v("1.0")));
    assert!(!range.contains(&v("1.1")));
}

#[test]
fn range_exclusive_bounds() {
    let range: VersionRange = "(1.0,2.0)".parse().unwrap();
    assert!(!range.contains(&v("1.0")));
    assert!(!range.contains(&v("2.0")));
    assert!(range.contains(&v("1.5")));
}

#[test]
fn range_multi_range() {
    let range: VersionRange = "(,1.0],[2.0,)".parse().unwrap();
    assert!(range.contains(&v("0.5")));
    assert!(range.contains(&v("1.0")));
    assert!(range.contains(&v("2.0")));
    assert!(range.contains(&v("3.0")));
    assert!(!range.contains(&v("1.5")));
}

#[test]
fn range_display_roundtrip() {
    let input = "(,1.0],[2.0,)";
    let r1: VersionRange = input.parse().unwrap();
    let displayed = r1.to_string();
    let r2: VersionRange = displayed.parse().unwrap();
    // verify they agree on containment
    for ver in &["0.5", "1.0", "1.5", "2.0", "3.0"] {
        assert_eq!(
            r1.contains(&v(ver)),
            r2.contains(&v(ver)),
            "mismatch for {ver}"
        );
    }
}

#[test]
fn constraint_recommended_always_matches() {
    let c = VersionConstraint::parse("1.0").unwrap();
    assert!(c.contains(&v("0.1")));
    assert!(c.contains(&v("1.0")));
    assert!(c.contains(&v("999.0")));
}

#[test]
fn constraint_range_strict() {
    let c = VersionConstraint::parse("[1.0,2.0)").unwrap();
    assert!(c.contains(&v("1.0")));
    assert!(c.contains(&v("1.5")));
    assert!(!c.contains(&v("2.0")));
    assert!(!c.contains(&v("0.9")));
}

#[test]
fn constraint_parse_distinguishes() {
    let rec = VersionConstraint::parse("1.0").unwrap();
    assert!(matches!(rec, VersionConstraint::Recommended(_)));

    let rng = VersionConstraint::parse("[1.0,2.0)").unwrap();
    assert!(matches!(rng, VersionConstraint::Range(_)));
}

#[test]
fn order_is_flipped_by_swapping() {
    let texts = ["1", "1.0", "1-alpha", "1.0-sp", "2.0-x", "1.1", "1-1", "", "abc"];
    for a in texts {
        assert_eq!(v(a), v(a));
        for b in texts {
            assert_eq!(v(a) < v(b), v(b) > v(a), "{a} and {b}");
            assert_eq!(v(a) == v(b), v(b) == v(a), "{a} and {b}");
        }
    }
}

#[test]
fn unknown_qualifiers_come_after_releases() {
    assert!(v("1.0-xyz") > v("1.0"));
    assert!(v("1.0-abc") < v("1.0-xyz"));
    assert!(v("1.0-sp") < v("1.0-abc"));
    assert!(v("1.0-xyz") < v("1.0.1"));
}

#[test]
fn equal_versions_lie_in_the_same_ranges() {
    let range: VersionRange = "[1.0,2.0),[3.0]".parse().unwrap();
    for (a, b) in [("1", "1.0.0"), ("2", "2.0"), ("3", "3.0.0"), ("2.0-RC1", "2.0-rc-1")] {
        assert_eq!(range.contains(&v(a)), range.contains(&v(b)), "{a} and {b}");
    }
}

#[test]
fn invalid_ranges_are_refused() {
    for s in ["", "1.0", "[1.0", "[1.0,2.0", "x[1.0]", "[1.0],x"] {
        assert!(s.parse::<VersionRange>().is_err(), "{s}");
    }
}

#[test]
fn constraints_are_written_back() {
    assert_eq!(VersionConstraint::parse(" 1.0 ").unwrap().to_string(), "1.0");
    assert_eq!(VersionConstraint::parse("[1.0, 2.0)").unwrap().to_string(), "[1.0,2.0)");
    assert_eq!("[1.5]".parse::<VersionRange>().unwrap().to_string(), "[1.5]");
}

#[test]
fn qualifiers_stand_between_the_releases_around_them() {
    // Each version comes before all that follow it
    let ordered = [
        "1-alpha", "1.0-alpha-1", "1.0.0-beta", "1.rc", "1.0-SNAPSHOT", "1", "1.0-sp", "1-xyz",
        "1.0-1", "1.0.2", "1.1", "1-2", "1.10", "2",
    ];
    for i in 0..ordered.len() {
        for j in i + 1..ordered.len() {
            assert!(v(ordered[i]) < v(ordered[j]), "{} < {}", ordered[i], ordered[j]);
        }
    }
}

#[test]
fn zeros_before_qualifiers_do_not_matter() {
    assert_eq!(v("1.0-alpha"), v("1-alpha"));
    assert_eq!(v("1.0.0.alpha"), v("1-alpha"));
    assert_eq!(v("1.0rc1"), v("1-rc-1"));
    assert!(v("1.0-alpha") < v("1-sp"));
    assert!(v("1.0.alpha") < v("1-sp"));
    // A zero before a number counts
    assert!(v("1.0.1") < v("1.1"));
    assert!(v("1.0-1") < v("1.0.5"));
}

#[test]
fn numbers_of_any_size_compare_by_value() {
    assert!(v("1.100000000000000000000") > v("1.2"));
    assert!(v("1.18446744073709551616") > v("1.18446744073709551615"));
    assert!(v("1.99999999999999999999") < v("1.100000000000000000000"));
    assert_eq!(v("1.0007"), v("1.7"));
    assert_eq!(v("1.000000000000000000000000"), v("1"));
}

#[test]
fn intervals_may_stand_between_spaces() {
    let range: VersionRange = "  [1.0,2.0) , [3.0] ".parse().unwrap();
    assert!(range.contains(&v("1.5")));
    assert!(range.contains(&v("3")));
    assert!(!range.contains(&v("2")));
}
