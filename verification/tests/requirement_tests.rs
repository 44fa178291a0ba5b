use pypi_resolver::ranges::VersionRange;
use pypi_resolver::registry::{metadata_answer, versions_answer, HttpReply, RegistryAnswer, VersionsAnswer};
use pypi_resolver::requirement::Requirement;
use pypi_resolver::version::Version;

fn ver(text: &str) -> Version {
    Version::new(text).unwrap()
}

#[test]
fn requirement_with_two_specifiers() {
    let req = Requirement::parse("foo>=1.0,<2.0").unwrap();
    assert_eq!(req.name, String::from("foo"));
    assert!(req.range.contains(&ver("1.0")));
    assert!(req.range.contains(&ver("1.999")));
    assert!(!req.range.contains(&ver("2.0")));
    assert!(!req.range.contains(&ver("0.9.9")));
}

#[test]
fn requirement_without_specifiers_is_universal() {
    let req = Requirement::parse("bar").unwrap();
    assert_eq!(req.name, String::from("bar"));
    assert!(req.range.contains(&ver("0.0.dev0")));
    assert!(req.range.contains(&ver("5!1.2.3")));
}

#[test]
fn requirement_name_is_lowercased() {
    let req = Requirement::parse("Django >= 2.0").unwrap();
    assert_eq!(req.name, String::from("django"));
    assert!(req.range.contains(&ver("2.0")));
    assert!(!req.range.contains(&ver("1.11")));
}

#[test]
fn requirement_ignores_extras_and_marker() {
    let req = Requirement::parse("requests[security] >=2.8.1, <3 ; python_version < \"2.7\"")
        .unwrap();
    assert_eq!(req.name, String::from("requests"));
    assert!(req.range.contains(&ver("2.8.1")));
    assert!(req.range.contains(&ver("2.99")));
    assert!(!req.range.contains(&ver("3.0")));
    assert!(!req.range.contains(&ver("2.8.0")));
}

#[test]
fn requirement_operators() {
    let eq = Requirement::parse("a==1.1").unwrap();
    assert!(eq.range.contains(&ver("1.1")));
    assert!(eq.range.contains(&ver("1.1.0")));
    assert!(!eq.range.contains(&ver("1.1.1")));

    let ne = Requirement::parse("a!=1.1").unwrap();
    assert!(!ne.range.contains(&ver("1.1.0")));
    assert!(ne.range.contains(&ver("1.1.1")));
    assert!(ne.range.contains(&ver("0.1")));

    let gt = Requirement::parse("a>1.1").unwrap();
    assert!(!gt.range.contains(&ver("1.1")));
    assert!(gt.range.contains(&ver("1.1.1")));

    let le = Requirement::parse("a<=1.1").unwrap();
    assert!(le.range.contains(&ver("1.1")));
    assert!(le.range.contains(&ver("1.0.9")));
    assert!(!le.range.contains(&ver("1.2")));
}

#[test]
fn requirement_rejects_malformed() {
    for text in ["", "   ", ">=1.0", "foo>=abc", "foo>=1.0 extra", "foo[bar>=1.0", "foo>="] {
        let e = Requirement::parse(text).unwrap_err();
        assert_eq!(e.text, String::from(text));
    }
}

#[test]
fn conflicting_specifiers_make_an_empty_range() {
    let req = Requirement::parse("a>2.0,<1.0").unwrap();
    for text in ["0.5", "1.5", "2.5"] {
        assert!(!req.range.contains(&ver(text)));
    }
}

#[test]
fn intersect_and_universal() {
    let a = Requirement::parse("x>=1.0").unwrap().range;
    let b = Requirement::parse("x<2.0").unwrap().range;
    let both = a.intersect(&b);
    assert!(both.contains(&ver("1.5")));
    assert!(!both.contains(&ver("2.0")));
    assert!(!both.contains(&ver("0.5")));
    let all = VersionRange::universal();
    assert!(all.contains(&ver("0.dev0")));
    let none = VersionRange::empty_range();
    assert!(!none.contains(&ver("1.0")));
}

#[test]
fn metadata_answer_reads_requires_dist() {
    let body = String::from(
        "{\"info\": {\"requires_dist\": [\"foo>=1.0,<2.0\", \"bar\"]}}",
    );
    match metadata_answer(HttpReply::Answer(200, body)) {
        RegistryAnswer::Requirements(reqs) => {
            assert_eq!(reqs, vec![String::from("foo>=1.0,<2.0"), String::from("bar")]);
        },
        _ => panic!("a well-formed 200 body yields the requirement strings"),
    }
}

#[test]
fn metadata_answer_null_requires_dist_is_empty() {
    let body = String::from("{\"info\": {\"requires_dist\": null}}");
    match metadata_answer(HttpReply::Answer(200, body)) {
        RegistryAnswer::Requirements(reqs) => assert!(reqs.is_empty()),
        _ => panic!("a null requires_dist is an empty requirement set"),
    }
}

#[test]
fn metadata_answer_classifies_failures() {
    assert!(matches!(
        metadata_answer(HttpReply::Answer(404, String::from("not found"))),
        RegistryAnswer::NoSuchVersion
    ));
    assert!(matches!(
        metadata_answer(HttpReply::Answer(200, String::from("not json"))),
        RegistryAnswer::Malformed(_)
    ));
    assert!(matches!(
        metadata_answer(HttpReply::Answer(500, String::from(""))),
        RegistryAnswer::Transport(_)
    ));
    assert!(matches!(
        metadata_answer(HttpReply::Failed(String::from("timed out"))),
        RegistryAnswer::Transport(_)
    ));
}

#[test]
fn versions_answer_reads_release_keys() {
    let body = String::from(
        "{\"releases\": {\"0.9\": [], \"1.0.0\": [{}], \"1.2\": []}}",
    );
    match versions_answer(HttpReply::Answer(200, body)) {
        VersionsAnswer::Published(vs) => {
            assert_eq!(
                vs,
                vec![String::from("0.9"), String::from("1.0.0"), String::from("1.2")]
            );
        },
        _ => panic!("a well-formed 200 body yields the release keys"),
    }
    assert!(matches!(
        versions_answer(HttpReply::Answer(404, String::from(""))),
        VersionsAnswer::NoSuchPackage
    ));
    assert!(matches!(
        versions_answer(HttpReply::Answer(200, String::from("[]"))),
        VersionsAnswer::Malformed(_)
    ));
}
