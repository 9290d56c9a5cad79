use sandpack_cdn::semver::{highest_version, Identifier, Version, VersionText};

fn ident(text: &str) -> Identifier {
    match text.parse::<u64>() {
        Ok(n) => Identifier::Numeric(n),
        Err(_) => Identifier::AlphaNumeric(text.to_string()),
    }
}

fn version(numbers: (u64, u64, u64), pre_release: &[&str], build: &[&str]) -> VersionText {
    let version = Version {
        major: numbers.0,
        minor: numbers.1,
        patch: numbers.2,
        pre_release: pre_release.iter().map(|s| ident(s)).collect(),
        build: build.iter().map(|s| ident(s)).collect(),
    };
    VersionText { text: format!("{:?}{:?}{:?}", numbers, pre_release, build), version }
}

/// Versions in ascending order.
fn ladder() -> Vec<VersionText> {
    vec![
        version((0, 9, 9), &[], &[]),
        version((1, 0, 0), &["1"], &[]),
        version((1, 0, 0), &["2"], &["z"]),
        version((1, 0, 0), &["10"], &[]),
        version((1, 0, 0), &["alpha"], &[]),
        version((1, 0, 0), &["alpha", "1"], &[]),
        version((1, 0, 0), &["alpha", "beta"], &[]),
        version((1, 0, 0), &["beta"], &[]),
        version((1, 0, 0), &["beta", "2"], &[]),
        version((1, 0, 0), &["beta", "11"], &[]),
        version((1, 0, 0), &["rc", "1"], &[]),
        version((1, 0, 0), &[], &[]),
        version((1, 0, 1), &["0"], &[]),
        version((1, 2, 0), &[], &[]),
        version((1, 10, 0), &[], &[]),
        version((2, 0, 0), &["0"], &[]),
    ]
}

#[test]
fn highest_of_each_beginning_is_its_last() {
    for n in 1..=ladder().len() {
        let mut versions = ladder();
        versions.truncate(n);
        assert_eq!(highest_version(&versions), Some(n - 1));
        versions.reverse();
        assert_eq!(highest_version(&versions), Some(0));
    }
}

#[test]
fn of_no_versions_none_is_the_highest() {
    assert_eq!(highest_version(&Vec::new()), None);
}

#[test]
fn build_metadata_plays_no_part() {
    let a = version((1, 0, 0), &[], &["a"]);
    let b = version((1, 0, 0), &[], &["b"]);
    assert!(a.text < b.text);
    assert_eq!(highest_version(&vec![a, b]), Some(1));
    let mut a = version((1, 0, 0), &[], &["a"]);
    let b = version((1, 0, 0), &[], &["b"]);
    a.text = "z".to_string();
    assert_eq!(highest_version(&vec![b, a]), Some(1));
}
