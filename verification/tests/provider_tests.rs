use pypi_resolver::provider::{
    interpret_metadata, interpret_versions, Dependencies, Provider, ResolveError, VersionsOutcome,
};
use pypi_resolver::ranges::VersionRange;
use pypi_resolver::registry::{Registry, RegistryAnswer, VersionsAnswer};
use pypi_resolver::requirement::Requirement;
use pypi_resolver::version::Version;

/// An in-memory registry for tests: fixed answers, counted calls.
struct FakeRegistry {
    /// (package, version text, requirement strings); a pair not listed is
    /// answered as no such version.
    metadata: Vec<(String, String, Vec<String>)>,
    /// (package, published version texts)
    releases: Vec<(String, Vec<String>)>,
    calls: usize,
    fail_transport: bool,
}

impl FakeRegistry {
    fn new() -> FakeRegistry {
        FakeRegistry { metadata: Vec::new(), releases: Vec::new(), calls: 0, fail_transport: false }
    }

    fn with_metadata(mut self, package: &str, version: &str, reqs: &[&str]) -> FakeRegistry {
        self.metadata.push((
            String::from(package),
            String::from(version),
            reqs.iter().map(|r| String::from(*r)).collect(),
        ));
        self
    }

    fn with_releases(mut self, package: &str, versions: &[&str]) -> FakeRegistry {
        self.releases.push((
            String::from(package),
            versions.iter().map(|v| String::from(*v)).collect(),
        ));
        self
    }
}

impl Registry for FakeRegistry {
    fn requirements(&mut self, package: &String, version_text: &String) -> RegistryAnswer {
        self.calls += 1;
        if self.fail_transport {
            return RegistryAnswer::Transport(String::from("connection refused"));
        }
        for (p, v, reqs) in &self.metadata {
            if p == package && v == version_text {
                return RegistryAnswer::Requirements(reqs.clone());
            }
        }
        RegistryAnswer::NoSuchVersion
    }

    fn versions(&mut self, package: &String) -> VersionsAnswer {
        self.calls += 1;
        if self.fail_transport {
            return VersionsAnswer::Transport(String::from("connection refused"));
        }
        for (p, vs) in &self.releases {
            if p == package {
                return VersionsAnswer::Published(vs.clone());
            }
        }
        VersionsAnswer::NoSuchPackage
    }
}

fn ver(text: &str) -> Version {
    Version::new(text).unwrap()
}

fn req_names(deps: &Dependencies) -> Vec<String> {
    match deps {
        Dependencies::Known(reqs) => reqs.iter().map(|r| r.name.clone()).collect(),
        Dependencies::Unavailable => panic!("expected a known requirement set"),
    }
}

fn find_req<'a>(reqs: &'a [Requirement], name: &str) -> &'a Requirement {
    reqs.iter().find(|r| r.name == name).expect("requirement present")
}

#[test]
fn get_dependencies_test() {
    let registry = FakeRegistry::new().with_metadata(
        "matisse-controller",
        "0.4.0",
        &["matisse >=0.1", "pyserial"],
    );
    let mut provider = Provider::new(registry);
    let deps = provider
        .get_dependencies(&String::from("matisse-controller"), &ver("0.4.0"))
        .unwrap();
    assert_eq!(req_names(&deps), vec![String::from("matisse"), String::from("pyserial")]);
}

#[test]
fn cache_answers_second_call_without_network() {
    let registry = FakeRegistry::new().with_metadata("pkg", "1.0.0", &["foo>=1.0,<2.0"]);
    let mut provider = Provider::new(registry);
    let p = String::from("pkg");
    let first = provider.get_dependencies(&p, &ver("1.0.0")).unwrap();
    assert_eq!(provider.registry.calls, 1);
    assert_eq!(provider.fetches, 1);
    let second = provider.get_dependencies(&p, &ver("1.0.0")).unwrap();
    // identical outcome, and no further registry traffic
    assert_eq!(req_names(&first), req_names(&second));
    assert_eq!(provider.registry.calls, 1);
    assert_eq!(provider.fetches, 1);
}

#[test]
fn cache_key_is_the_comparison_key() {
    let registry = FakeRegistry::new().with_metadata("pkg", "1.0.0", &["bar"]);
    let mut provider = Provider::new(registry);
    let p = String::from("pkg");
    provider.get_dependencies(&p, &ver("1.0.0")).unwrap();
    // an equal version under another spelling hits the same entry
    provider.get_dependencies(&p, &ver("1.0")).unwrap();
    assert_eq!(provider.registry.calls, 1);
}

#[test]
fn not_found_differs_from_empty() {
    let registry = FakeRegistry::new().with_metadata("pkg", "1.0.0", &[]);
    let mut provider = Provider::new(registry);
    let p = String::from("pkg");
    let present = provider.get_dependencies(&p, &ver("1.0.0")).unwrap();
    match present {
        Dependencies::Known(reqs) => assert!(reqs.is_empty()),
        Dependencies::Unavailable => panic!("a present version must not read as unavailable"),
    }
    let absent = provider.get_dependencies(&p, &ver("9.9.9")).unwrap();
    assert!(matches!(absent, Dependencies::Unavailable));
}

#[test]
fn requirement_ranges_from_registry() {
    let registry =
        FakeRegistry::new().with_metadata("pkg", "1.0.0", &["foo>=1.0,<2.0", "bar"]);
    let mut provider = Provider::new(registry);
    let deps = provider.get_dependencies(&String::from("pkg"), &ver("1.0.0")).unwrap();
    let reqs = match deps {
        Dependencies::Known(reqs) => reqs,
        Dependencies::Unavailable => panic!("version is present"),
    };
    assert_eq!(reqs.len(), 2);
    let foo = find_req(&reqs, "foo");
    // the half-open interval [1.0.0, 2.0.0)
    assert!(foo.range.contains(&ver("1.0.0")));
    assert!(foo.range.contains(&ver("1.0")));
    assert!(foo.range.contains(&ver("1.9.9")));
    assert!(!foo.range.contains(&ver("2.0.0")));
    assert!(!foo.range.contains(&ver("2.0")));
    assert!(!foo.range.contains(&ver("0.9")));
    let bar = find_req(&reqs, "bar");
    // the universal range
    assert!(bar.range.contains(&ver("0.0.dev0")));
    assert!(bar.range.contains(&ver("3!99999.9")));
}

#[test]
fn bad_requirement_fails_whole_call() {
    let registry =
        FakeRegistry::new().with_metadata("pkg", "1.0.0", &["good>=1.0", "???nonsense"]);
    let mut provider = Provider::new(registry);
    let err = provider.get_dependencies(&String::from("pkg"), &ver("1.0.0")).unwrap_err();
    match err {
        ResolveError::Schema(text) => assert_eq!(text, String::from("???nonsense")),
        ResolveError::Network(_) => panic!("a parse failure is a schema error"),
    }
    // a failed call is not cached: the next call asks the registry again
    assert_eq!(provider.registry.calls, 1);
    let _ = provider.get_dependencies(&String::from("pkg"), &ver("1.0.0"));
    assert_eq!(provider.registry.calls, 2);
}

#[test]
fn transport_failure_propagates() {
    let mut registry = FakeRegistry::new();
    registry.fail_transport = true;
    let mut provider = Provider::new(registry);
    let err = provider.get_dependencies(&String::from("pkg"), &ver("1.0.0")).unwrap_err();
    assert!(matches!(err, ResolveError::Network(_)));
}

#[test]
fn choose_picks_greatest_satisfying_version() {
    let registry = FakeRegistry::new().with_releases("pkg", &["0.9", "1.4.0", "2.1", "1.2"]);
    let mut provider = Provider::new(registry);
    let candidates = vec![(String::from("pkg"), range_between("1.0", "2.0"))];
    let (name, chosen) = provider.choose_package_version(&candidates).unwrap();
    assert_eq!(name, String::from("pkg"));
    assert_eq!(chosen.unwrap(), ver("1.4.0"));
}

#[test]
fn choose_is_deterministic_and_cached() {
    let registry = FakeRegistry::new().with_releases("pkg", &["1.0", "1.5"]);
    let mut provider = Provider::new(registry);
    let candidates = vec![(String::from("pkg"), VersionRange::universal())];
    let first = provider.choose_package_version(&candidates).unwrap();
    let calls_after_first = provider.registry.calls;
    let second = provider.choose_package_version(&candidates).unwrap();
    assert_eq!(first.0, second.0);
    assert_eq!(first.1, second.1);
    assert_eq!(provider.registry.calls, calls_after_first);
}

#[test]
fn choose_reports_unknown_package_as_no_candidate() {
    let registry = FakeRegistry::new();
    let mut provider = Provider::new(registry);
    let candidates = vec![(String::from("ghost"), VersionRange::universal())];
    let (name, chosen) = provider.choose_package_version(&candidates).unwrap();
    assert_eq!(name, String::from("ghost"));
    assert!(chosen.is_none());
}

#[test]
fn choose_skips_version_known_unavailable() {
    // the index lists 9.9.9 among the releases but answers 404 for it
    let registry = FakeRegistry::new()
        .with_releases("pkg", &["1.0.0", "9.9.9"])
        .with_metadata("pkg", "1.0.0", &[]);
    let mut provider = Provider::new(registry);
    let p = String::from("pkg");
    let candidates = vec![(p.clone(), VersionRange::universal())];
    let (_, first_choice) = provider.choose_package_version(&candidates).unwrap();
    assert_eq!(first_choice.unwrap(), ver("9.9.9"));
    let outcome = provider.get_dependencies(&p, &ver("9.9.9")).unwrap();
    assert!(matches!(outcome, Dependencies::Unavailable));
    // after the unavailable answer the pair is never chosen again
    let (_, second_choice) = provider.choose_package_version(&candidates).unwrap();
    assert_eq!(second_choice.unwrap(), ver("1.0.0"));
}

fn range_between(lo: &str, hi: &str) -> VersionRange {
    let text = format!("x>={},<{}", lo, hi);
    Requirement::parse(&text).unwrap().range
}

#[test]
fn interpret_metadata_maps_each_answer() {
    // not-found becomes the unavailable outcome, never an error
    assert!(matches!(
        interpret_metadata(RegistryAnswer::NoSuchVersion),
        Ok(Dependencies::Unavailable)
    ));
    // an empty requirement list is a known, empty set
    match interpret_metadata(RegistryAnswer::Requirements(Vec::new())) {
        Ok(Dependencies::Known(reqs)) => assert!(reqs.is_empty()),
        _ => panic!("an empty list is a definite outcome"),
    }
    // transport failures abort as network errors
    match interpret_metadata(RegistryAnswer::Transport(String::from("timed out"))) {
        Err(ResolveError::Network(m)) => assert_eq!(m, String::from("timed out")),
        _ => panic!("a transport failure is a network error"),
    }
    // malformed responses abort as schema errors
    assert!(matches!(
        interpret_metadata(RegistryAnswer::Malformed(String::from("bad shape"))),
        Err(ResolveError::Schema(_))
    ));
    // an unparseable requirement fails the whole answer
    assert!(matches!(
        interpret_metadata(RegistryAnswer::Requirements(vec![String::from("???")])),
        Err(ResolveError::Schema(_))
    ));
}

#[test]
fn interpret_versions_maps_each_answer() {
    match interpret_versions(VersionsAnswer::Published(vec![String::from("1.0")])) {
        Ok(VersionsOutcome::Published(vs)) => assert_eq!(vs, vec![String::from("1.0")]),
        _ => panic!("a published list is a definite outcome"),
    }
    assert!(matches!(
        interpret_versions(VersionsAnswer::NoSuchPackage),
        Ok(VersionsOutcome::NoPackage)
    ));
    assert!(matches!(
        interpret_versions(VersionsAnswer::Transport(String::from("timed out"))),
        Err(ResolveError::Network(_))
    ));
    assert!(matches!(
        interpret_versions(VersionsAnswer::Malformed(String::from("bad shape"))),
        Err(ResolveError::Schema(_))
    ));
}

fn table(entries: &[(&str, &[(&str, bool)])]) -> (Vec<String>, Vec<Vec<Version>>, Vec<Vec<bool>>) {
    let mut names: Vec<String> = Vec::new();
    let mut versions: Vec<Vec<Version>> = Vec::new();
    let mut satisfies: Vec<Vec<bool>> = Vec::new();
    for (name, cands) in entries {
        names.push(String::from(*name));
        versions.push(cands.iter().map(|(t, _)| ver(t)).collect());
        satisfies.push(cands.iter().map(|(_, f)| *f).collect());
    }
    (names, versions, satisfies)
}

#[test]
fn choose_from_candidates_prefers_fewest_usable() {
    let provider = Provider::new(FakeRegistry::new());
    let (names, versions, satisfies) = table(&[
        ("many", &[("1.0", true), ("1.1", true), ("1.2", true)]),
        ("few", &[("0.5", false), ("2.0", true)]),
    ]);
    let (idx, chosen) = provider.choose_from_candidates(&names, &versions, &satisfies);
    assert_eq!(idx, 1);
    assert_eq!(chosen.unwrap(), ver("2.0"));
}

#[test]
fn choose_from_candidates_ties_break_to_first() {
    let provider = Provider::new(FakeRegistry::new());
    let (names, versions, satisfies) = table(&[
        ("a", &[("1.0", true)]),
        ("b", &[("3.0", true)]),
    ]);
    let (idx, _) = provider.choose_from_candidates(&names, &versions, &satisfies);
    assert_eq!(idx, 0);
}

#[test]
fn choose_from_candidates_takes_greatest_usable() {
    let provider = Provider::new(FakeRegistry::new());
    let (names, versions, satisfies) = table(&[(
        "pkg",
        &[("1.0", true), ("2.5", false), ("2.0", true), ("0.9", true)],
    )]);
    let (idx, chosen) = provider.choose_from_candidates(&names, &versions, &satisfies);
    assert_eq!(idx, 0);
    assert_eq!(chosen.unwrap(), ver("2.0"));
}

#[test]
fn choose_from_candidates_none_when_nothing_usable() {
    let provider = Provider::new(FakeRegistry::new());
    let (names, versions, satisfies) =
        table(&[("pkg", &[("1.0", false), ("2.0", false)])]);
    let (idx, chosen) = provider.choose_from_candidates(&names, &versions, &satisfies);
    assert_eq!(idx, 0);
    assert!(chosen.is_none());
}

#[test]
fn choose_from_candidates_skips_cached_unavailable() {
    // the index lists 9.9.9 but answers 404 for it; once that answer is
    // cached, the plain-value choice never picks 9.9.9 again
    let registry = FakeRegistry::new().with_metadata("pkg", "1.0.0", &[]);
    let mut provider = Provider::new(registry);
    let p = String::from("pkg");
    let outcome = provider.get_dependencies(&p, &ver("9.9.9")).unwrap();
    assert!(matches!(outcome, Dependencies::Unavailable));
    let (names, versions, satisfies) =
        table(&[("pkg", &[("1.0.0", true), ("9.9.9", true)])]);
    let (idx, chosen) = provider.choose_from_candidates(&names, &versions, &satisfies);
    assert_eq!(idx, 0);
    assert_eq!(chosen.unwrap(), ver("1.0.0"));
}
