use pypi_resolver::version::Version;

fn v(text: &str) -> Version {
    Version::new(text).unwrap()
}

#[test]
fn display_test() {
    let version = Version::new("2!1.2.3pre3.rev4.dev1").unwrap();
    assert_eq!(version.to_text(), String::from("2!1.2.3rc3.post4.dev1"));
    assert_eq!(Version::zero().to_text(), String::from("0"));
}

#[test]
fn equality_test() {
    let left = Version::new("0.1").unwrap();
    let right = Version::new("0.1.0.0.0.0").unwrap();
    assert_eq!(left, right);

    let random = Version::new("2!1.2.3pre3.post4.dev1").unwrap();
    assert_eq!(random, random);
}

#[test]
fn version_impl_test() {
    let version = Version::new("0.1.3").unwrap();
    assert_eq!(version.bump(), Version::new("0.1.4").unwrap());
}

#[test]
fn compare_test() {
    let v0_1 = Version::new("0.1").unwrap();
    let v0_1_pre1 = Version::new("0.1a1").unwrap();
    let v0_1_post2 = Version::new("0.1.post2").unwrap();
    let v0_1_dev3 = Version::new("0.1.dev3").unwrap();
    let v0_2_0_0 = Version::new("0.2.0.0").unwrap();

    assert!(v0_1 < v0_2_0_0);
    assert!(v0_2_0_0 >= v0_1);
    assert!(v0_1_pre1 < v0_1);
    assert!(v0_1 <= v0_1_post2);
    assert!(v0_1_dev3 < v0_1);
}

#[test]
fn trailing_zero_invariance() {
    assert_eq!(v("1.0"), v("1"));
    assert_eq!(v("1"), v("1.0.0.0"));
    assert_eq!(v("1.0"), v("1.0.0.0"));
    assert!(!(v("1.0") < v("1")));
    assert!(!(v("1") < v("1.0.0.0")));
}

#[test]
fn strict_order_on_samples() {
    let samples = [
        v("0"),
        v("0.dev0"),
        v("0.1.dev3"),
        v("0.1a1"),
        v("0.1"),
        v("0.1.post2"),
        v("0.2"),
        v("1!0.1"),
    ];
    for a in &samples {
        assert!(!(a < a));
        assert!(a == a);
    }
    // dev-of-zero sorts below the plain zero release
    assert!(v("0.dev0") < v("0"));
    // transitivity spot check along a chain
    assert!(v("0.1.dev3") < v("0.1a1"));
    assert!(v("0.1a1") < v("0.1"));
    assert!(v("0.1.dev3") < v("0.1"));
    // antisymmetry spot check
    assert!(v("0.1") < v("0.2") && !(v("0.2") < v("0.1")));
}

#[test]
fn sentinel_ordering() {
    // dev < pre (any ordinal) < final < post, at one release
    assert!(v("1.2.dev1") < v("1.2.pre0"));
    assert!(v("1.2.dev1") < v("1.2.pre5"));
    assert!(v("1.2.pre0") < v("1.2"));
    assert!(v("1.2.pre5") < v("1.2"));
    assert!(v("1.2") < v("1.2.post1"));
    assert!(v("1.2.dev1") < v("1.2.dev2"));
}

#[test]
fn bump_grows_and_keeps_length() {
    for text in ["0", "1.2.3", "2!7.0", "1.0rc3", "3.4.post1.dev2", "0.0.0.9"] {
        let a = v(text);
        let b = a.bump();
        assert!(a < b);
        assert_eq!(a.release.len(), b.release.len());
    }
    assert_eq!(v("1.0rc3").bump(), v("1.1rc3"));
}

#[test]
fn epoch_dominates() {
    assert!(v("9999.9.post3") < v("1!0.0.dev0"));
    assert!(v("1!9999.9") < v("2!0.1"));
    assert!(v("0!5") < v("1!0"));
}

#[test]
fn composite_round_trip() {
    let composite = v("2!1.2.3.pre3.post4.dev1");
    let reparsed = v(&composite.to_text());
    assert_eq!(composite, reparsed);
    let plain = v("2!1.2.3");
    assert_ne!(composite, plain);
    // by the comparison key the pre-release rank of the composite sits
    // below the final release's absent-pre sentinel
    assert!(composite < plain);
}

#[test]
fn parse_rejects_malformed() {
    for text in ["", "abc", "1..2", "1.0xyz", "!1", "1.0.post1.post2", "1.0 "] {
        let e = Version::new(text).unwrap_err();
        assert_eq!(e.text, String::from(text));
    }
}

#[test]
fn parse_accepts_spellings() {
    assert_eq!(v("1.0ALPHA2"), v("1.0a2"));
    assert_eq!(v("1.0beta3"), v("1.0b3"));
    assert_eq!(v("1.0c1"), v("1.0rc1"));
    assert_eq!(v("1.0preview7"), v("1.0pre7"));
    assert_eq!(v("1.0r4"), v("1.0.post4"));
    assert_eq!(v("1.0rev4"), v("1.0.post4"));
    // a bare marker defaults its ordinal to zero
    assert_eq!(v("1.0.pre"), v("1.0rc0"));
    assert_eq!(v("1.0.dev"), v("1.0.dev0"));
}

#[test]
fn lowest_is_floor_of_plain_versions() {
    let zero = Version::lowest();
    for text in ["0", "0.0.1", "1", "2!0", "0.1.post1"] {
        assert!(zero <= v(text));
    }
}

#[test]
fn render_normalizes() {
    assert_eq!(v("1.0.0").to_text(), String::from("1.0.0"));
    assert_eq!(v("1.0.post0").to_text(), String::from("1.0.post0"));
    assert_eq!(v("07.010").to_text(), String::from("7.10"));
    assert_eq!(v("1.0PRE2").to_text(), String::from("1.0rc2"));
}
