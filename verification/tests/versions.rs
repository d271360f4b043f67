//! Versions, ranges and the updates they have.
use version_lens::tiers::{compute_tiers, Color};
use version_lens::version::{range_numbers, spec_version, Version};

fn version(text: &str) -> Version {
    let v = semver::Version::parse(text).unwrap();
    Version {
        major: v.major,
        minor: v.minor,
        patch: v.patch,
        pre: v.pre.as_str().to_string(),
        build: v.build.as_str().to_string(),
    }
}

const WRITTEN: [&str; 12] = [
    "0.0.0",
    "1.0.0-alpha",
    "1.0.0-alpha.1",
    "1.0.0-alpha.beta",
    "1.0.0-beta.2",
    "1.0.0-beta.11",
    "1.0.0-rc.1+b",
    "1.0.0",
    "1.0.0+a",
    "1.0.0+b.1",
    "1.2.3-x-y.7+0.0.1",
    "18446744073709551615.18446744073709551615.18446744073709551615",
];

#[test]
fn versions_are_written_as_semver_writes_them() {
    for text in WRITTEN {
        assert_eq!(version(text).to_text(), text);
    }
    assert_eq!(Version::new(1, 20, 300).to_text(), "1.20.300");
}

#[test]
fn versions_are_ordered_as_semver_orders_them() {
    for a in WRITTEN {
        for b in WRITTEN {
            let expected = semver::Version::parse(a).unwrap() <= semver::Version::parse(b).unwrap();
            assert_eq!(version(a).no_later_than(&version(b)), expected, "{a} {b}");
        }
    }
}

#[test]
fn a_text_that_is_no_pre_release_counts_as_none() {
    let odd = Version { pre: "not one".to_string(), ..Version::new(1, 0, 0) };
    assert!(odd.no_later_than(&Version::new(1, 0, 0)));
    assert!(Version::new(1, 0, 0).no_later_than(&odd));
}

#[test]
fn clones_say_the_same() {
    let v = version("1.2.3-x+y");
    assert_eq!(v.clone(), v);
}

#[test]
fn ranges_start_from_their_first_version() {
    let expected = [
        ("1.2.3", Some((1, 2, 3))),
        (" ^1.2.3 ", Some((1, 2, 3))),
        (">=1.2.3 <2.0.0", Some((1, 2, 3))),
        (">= 1.2", Some((1, 2, 0))),
        ("v2.0.0", Some((2, 0, 0))),
        ("1.2.3-beta.1", Some((1, 2, 3))),
        ("1.2.3+build", Some((1, 2, 3))),
        ("1.2.3.4", Some((1, 2, 3))),
        ("1.X.*", Some((1, 0, 0))),
        ("x", Some((0, 0, 0))),
        ("18446744073709551615.0.0", Some((u64::MAX, 0, 0))),
        ("18446744073709551616.0.0", None),
        ("01.2.3", None),
        ("1..3", None),
        ("1.2.x.3", Some((1, 2, 0))),
        ("", None),
        ("   ", None),
        ("^", None),
        ("*", None),
        ("latest", None),
        ("next", None),
        ("npm:react@18.0.0", None),
        ("https://example.com/x.tgz", None),
        ("git+ssh://git@example.com/x.git#v1.0.0", None),
    ];
    for (range, numbers) in expected {
        let version = numbers.map(|(a, b, c)| Version::new(a, b, c));
        assert_eq!(spec_version(range), version, "{range:?}");
    }
}

#[test]
fn ranges_are_filled_up_to_three_numbers() {
    assert_eq!(range_numbers("~1").as_deref(), Some("1.0.0"));
    assert_eq!(range_numbers("1.x.7-pre").as_deref(), Some("1.0.7"));
    assert_eq!(range_numbers("next").as_deref(), Some("next.0.0"));
    assert_eq!(range_numbers("catalog:"), None);
}

#[test]
fn updates_are_the_newest_of_their_kind() {
    let versions: Vec<Version> =
        ["0.9.0", "1.1.9", "1.2.3", "1.2.4", "1.2.10", "1.3.0", "1.10.1", "2.0.0", "10.0.0"]
            .iter()
            .map(|text| version(text))
            .collect();
    let tiers = compute_tiers(&Version::new(1, 2, 3), &versions);
    assert_eq!(tiers.patch, Some(version("1.2.10")));
    assert_eq!(tiers.minor, Some(version("1.10.1")));
    assert_eq!(tiers.major, Some(version("10.0.0")));
    assert!(!tiers.is_empty());
    assert!(compute_tiers(&Version::new(10, 0, 0), &versions).is_empty());
    assert!(compute_tiers(&Version::new(1, 0, 0), &[]).is_empty());
}

#[test]
fn build_metadata_alone_is_a_patch() {
    let tiers = compute_tiers(&Version::new(1, 0, 0), &[version("1.0.0+a")]);
    assert_eq!(tiers.patch, Some(version("1.0.0+a")));
    assert_eq!(tiers.minor, None);
}

#[test]
fn badges_climb_from_patch_to_major() {
    let versions = [Version::new(1, 0, 1), Version::new(1, 1, 0), Version::new(2, 0, 0)];
    let badges = compute_tiers(&Version::new(1, 0, 0), &versions).badges();
    let shown: Vec<(&str, Color)> =
        badges.iter().map(|badge| (badge.label.as_str(), badge.color)).collect();
    assert_eq!(
        shown,
        vec![
            ("↑ patch 1.0.1", Color::Success),
            ("↑ minor 1.1.0", Color::Warning),
            ("↑ major 2.0.0", Color::Error),
        ]
    );
    assert_eq!(badges[1].version, Version::new(1, 1, 0));
    assert_eq!(compute_tiers(&Version::new(1, 0, 1), &versions).badges().len(), 2);
}
