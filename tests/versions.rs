use std::cmp::Ordering;

use rs_versions::{convert_to_semver, parse_version, CompareOp, RsVersion, Shape};

fn parsed(label: &str) -> RsVersion {
    parse_version(label).unwrap()
}

#[test]
fn test_convert_to_semver() {
    assert!(convert_to_semver("resin-1.2.3").is_some());
    assert!(convert_to_semver("resin-1.2.3-alpha").is_some());
    assert!(convert_to_semver("resin-1.2.3-alpha+build").is_some());
    assert!(convert_to_semver("resin-1.2.3-alpha+build.1").is_some());
    assert!(convert_to_semver("resin-1.2.3-alpha+build.1.2.3").is_some());
    assert!(convert_to_semver("resin-1.2.3-alpha+build.1.2.3-beta").is_some());

    assert!(convert_to_semver("2020.1.2").is_some());
    assert!(convert_to_semver("2020.1.2-alpha").is_some());

    assert!(convert_to_semver("20220202").is_some());
    assert!(convert_to_semver("20220202-alpha").is_some());
}

#[test]
fn three_numbers_are_ideal() {
    for label in ["1.2.3", "0.0.0", "10.20.30", "2020.1.2"].iter() {
        let v = parsed(label);
        assert!(v.is_ideal(), "{}", label);
        assert!(!v.is_general() && !v.is_complex(), "{}", label);
        assert_eq!(v.shape(), Shape::Ideal);
    }
}

#[test]
fn one_or_two_numbers_are_general() {
    for label in ["5", "5.2", "0", "20220202"].iter() {
        let v = parsed(label);
        assert!(v.is_general(), "{}", label);
        assert!(!v.is_ideal() && !v.is_complex(), "{}", label);
    }
}

#[test]
fn a_match_that_does_not_parse_gives_no_version() {
    assert_eq!(rs_versions::extract_text("1.2.3-+build"), Some("1.2.3-+build"));
    assert!(parse_version("1.2.3-+build").is_none());
    assert!(convert_to_semver("1.2.3-+build").is_none());
}

#[test]
fn ordering_is_a_strict_total_order_on_samples() {
    let labels = [
        "0.0.1", "0.1.0", "1.0.0-alpha", "1.0.0-alpha.1", "1.0.0-alpha.beta", "1.0.0-beta",
        "1.0.0-beta.2", "1.0.0-beta.11", "1.0.0-rc.1", "1.0.0", "1.2.3", "2.0.0",
    ];
    let values: Vec<RsVersion> = labels.iter().map(|l| parsed(l)).collect();
    for (i, a) in values.iter().enumerate() {
        for (j, b) in values.iter().enumerate() {
            let lt = a.richcmp(b, CompareOp::Lt);
            let eq = a.richcmp(b, CompareOp::Eq);
            let gt = a.richcmp(b, CompareOp::Gt);
            assert_eq!([lt, eq, gt].iter().filter(|x| **x).count(), 1);
            assert_eq!(lt, i < j, "{} {}", labels[i], labels[j]);
            assert_eq!(eq, i == j);
            assert_eq!(gt, i > j);
            assert_eq!(a.richcmp(b, CompareOp::Le), i <= j);
            assert_eq!(a.richcmp(b, CompareOp::Ge), i >= j);
            assert_eq!(a.richcmp(b, CompareOp::Ne), i != j);
        }
    }
}

#[test]
fn release_outranks_its_prerelease() {
    let release = parsed("1.2.3");
    let pre = parsed("1.2.3-alpha");
    assert!(release.richcmp(&pre, CompareOp::Gt));
    assert!(pre.richcmp(&release, CompareOp::Lt));
    assert_eq!(release.compare(&pre), Ordering::Greater);
}

#[test]
fn build_metadata_does_not_affect_equality() {
    let a = parsed("1.2.3-alpha+build.1");
    let b = parsed("1.2.3-alpha+build.2");
    assert!(a.richcmp(&b, CompareOp::Eq));
    assert!(!a.richcmp(&b, CompareOp::Ne));
    assert!(a.equals(&b));
    assert_eq!(a.compare(&b), Ordering::Equal);
}

#[test]
fn equal_values_hash_equally() {
    let pairs = [
        ("1.2.3-alpha+build.1", "1.2.3-alpha+build.2"),
        ("resin-1.2.3", "1.2.3"),
        ("v20220202", "20220202-final"),
        ("image 5.2 x", "5.2"),
    ];
    for (a, b) in pairs.iter() {
        let va = parsed(a);
        let vb = parsed(b);
        assert!(va.equals(&vb), "{} {}", a, b);
        assert_eq!(va.hash_value(), vb.hash_value(), "{} {}", a, b);
    }
}

#[test]
fn leftmost_match_ignores_the_prefix() {
    let a = parsed("resin-1.2.3");
    let b = parsed("1.2.3");
    assert!(a.richcmp(&b, CompareOp::Eq));
    assert_eq!(a.display(), b.display());
    assert_eq!(a.debug_repr(), b.debug_repr());
    assert!(a.is_ideal());
}

#[test]
fn date_like_label_is_general() {
    let v = parse_version("20220202");
    assert!(v.is_some());
    assert!(v.unwrap().is_general());
}

#[test]
fn nth_gives_the_numeric_components() {
    let v = parsed("resin-1.2.3");
    assert_eq!(v.nth(0), Some(1));
    assert_eq!(v.nth(1), Some(2));
    assert_eq!(v.nth(2), Some(3));
    assert_eq!(v.nth(3), None);
    assert_eq!(v.nth(100), None);

    let g = parsed("5");
    assert_eq!(g.nth(0), Some(5));
    assert_eq!(g.nth(1), None);

    let d = parsed("20220202");
    assert_eq!(d.nth(0), Some(20220202));
}

#[test]
fn no_digits_no_version() {
    assert!(parse_version("not-a-version").is_none());
    assert!(parse_version("").is_none());
    assert!(convert_to_semver("latest").is_none());
}

#[test]
fn display_renders_the_parsed_value() {
    assert_eq!(parsed("release-1.2.3").display(), "1.2.3");
    assert_eq!(parsed("1.2.3-rc.1+build").display(), "1.2.3-rc.1");
    assert!(parsed("1.2.3").debug_repr().contains("Ideal"));
}

#[test]
fn missing_patch_ranks_below_zero_patch() {
    let two = parsed("1.2");
    let three = parsed("1.2.0");
    assert!(three.richcmp(&two, CompareOp::Gt));
    assert!(two.richcmp(&three, CompareOp::Lt));
    assert!(!two.richcmp(&three, CompareOp::Eq));
}

#[test]
fn ideal_has_no_fourth_component() {
    let v = parsed("2020.1.2");
    assert!(v.is_ideal());
    assert_eq!(v.nth(0), Some(2020));
    assert_eq!(v.nth(3), None);
}

#[test]
fn prerelease_or_build_makes_it_complex() {
    for label in ["1.2.3-alpha", "2020.1.2-alpha", "1.2-rc.1", "1.2.3-4", "1.2-1-+b"].iter() {
        let v = parsed(label);
        assert!(v.is_complex(), "{}", label);
        assert!(!v.is_ideal() && !v.is_general(), "{}", label);
        assert_eq!(v.shape(), Shape::Complex);
    }
}

#[test]
fn extra_numeric_chunks_are_general() {
    let v = parsed("1.2.3.4");
    assert!(v.is_general());
    assert_eq!(v.shape(), Shape::General);
}

#[test]
fn build_part_is_not_hashed() {
    let a = parsed("1.2-1-+b");
    let b = parsed("1.2-1-+c");
    assert!(a.richcmp(&b, CompareOp::Eq));
    assert_eq!(a.hash_value(), b.hash_value());
    assert_ne!(a.hash_value(), parsed("1.2-2").hash_value());
}

#[test]
fn equality_is_neither_less_nor_greater() {
    let a = parsed("1.2.r1.5");
    let b = parsed("1.2.r1x.5");
    let lt = a.richcmp(&b, CompareOp::Lt);
    let eq = a.richcmp(&b, CompareOp::Eq);
    let gt = a.richcmp(&b, CompareOp::Gt);
    assert_eq!([lt, eq, gt].iter().filter(|x| **x).count(), 1);
    assert_eq!(eq, a.compare(&b) == Ordering::Equal);
    assert_eq!(a.richcmp(&b, CompareOp::Le), lt || eq);
    assert_eq!(a.richcmp(&b, CompareOp::Ge), gt || eq);
    assert_eq!(a.richcmp(&b, CompareOp::Ne), !eq);
}
