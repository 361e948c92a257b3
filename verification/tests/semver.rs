use lxs_registry::semver::{parse_semver, semver_gt};

#[test]
fn parses_full_version_with_leading_v() {
    assert_eq!(parse_semver("v1.2.3"), (1, 2, 3));
    assert_eq!(parse_semver("1.2.3"), (1, 2, 3));
}

#[test]
fn missing_pieces_read_as_zero() {
    assert_eq!(parse_semver("1.2"), (1, 2, 0));
    assert_eq!(parse_semver("4"), (4, 0, 0));
    assert_eq!(parse_semver(""), (0, 0, 0));
    assert_eq!(parse_semver("v"), (0, 0, 0));
}

#[test]
fn every_leading_v_is_dropped() {
    assert_eq!(parse_semver("vv2.0.5"), (2, 0, 5));
    assert_eq!(parse_semver("V1.2"), (0, 2, 0));
}

#[test]
fn unreadable_pieces_read_as_zero() {
    assert_eq!(parse_semver("2.x.5"), (2, 0, 5));
    assert_eq!(parse_semver("1..3"), (1, 0, 3));
    assert_eq!(parse_semver("-1.2.3"), (0, 2, 3));
    assert_eq!(parse_semver("+.1"), (0, 1, 0));
    assert_eq!(parse_semver("1.2.3-beta"), (1, 2, 0));
    assert_eq!(parse_semver(" 1.2.3"), (0, 2, 3));
}

#[test]
fn plus_sign_and_leading_zeros_are_accepted() {
    assert_eq!(parse_semver("+7.08.0"), (7, 8, 0));
    assert_eq!(parse_semver("007.0.010"), (7, 0, 10));
}

#[test]
fn pieces_after_the_third_are_ignored() {
    assert_eq!(parse_semver("1.2.3.4"), (1, 2, 3));
    assert_eq!(parse_semver("1.2.3.x.y"), (1, 2, 3));
}

#[test]
fn numbers_beyond_u64_read_as_zero() {
    assert_eq!(parse_semver("18446744073709551615.1"), (u64::MAX, 1, 0));
    assert_eq!(parse_semver("18446744073709551616.1"), (0, 1, 0));
    assert_eq!(parse_semver("99999999999999999999999.2.3"), (0, 2, 3));
}

#[test]
fn newer_compares_numerically_most_significant_first() {
    assert!(semver_gt("1.10.0", "1.9.9"));
    assert!(!semver_gt("1.9.9", "1.10.0"));
    assert!(semver_gt("v2", "1.99.99"));
    assert!(semver_gt("1.0.1", "1.0.0"));
    assert!(semver_gt("0.2.0", "0.1.99"));
}

#[test]
fn equal_triples_are_not_newer() {
    assert!(!semver_gt("1.0", "1.0.0"));
    assert!(!semver_gt("1.0.0", "1.0"));
    assert!(!semver_gt("v1.2.3", "1.2.3"));
    assert!(!semver_gt("1.2.3", "1.2.3"));
}

#[test]
fn leading_v_does_not_change_the_version() {
    for s in ["1.2.3", "", "0.9", "x.1", "10.0.7"] {
        assert_eq!(parse_semver(&format!("v{}", s)), parse_semver(s));
    }
}

#[test]
fn newer_is_a_strict_total_order_on_samples() {
    let vs = ["1.0.0", "1.0", "1.2", "v1.10", "0.9.9", "2", "x", "1.2.3.4"];
    for a in vs {
        assert!(!semver_gt(a, a));
        for b in vs {
            assert!(!(semver_gt(a, b) && semver_gt(b, a)));
            assert!(semver_gt(a, b) || semver_gt(b, a) || parse_semver(a) == parse_semver(b));
            for c in vs {
                if semver_gt(a, b) && semver_gt(b, c) {
                    assert!(semver_gt(a, c));
                }
            }
        }
    }
}
