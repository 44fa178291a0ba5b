//! The dependency provider: answers the solver's two questions against a
//! registry, with a per-run cache. A cache hit returns the same outcome
//! with no registry traffic; the not-found outcome is distinct from an
//! empty requirement set; transport and schema failures abort the call and
//! are never cached.

use vstd::prelude::*;
use vstd::utf8::encode_utf8;
use crate::ranges::{range_has, VersionRange};
use crate::registry::{Registry, RegistryAnswer, VersionsAnswer};
use crate::requirement::{parse_req_of, req_sat, Requirement};
use crate::text::parse_of;
use crate::version::{
    key_eq, key_le, lemma_order_eq_symmetric, lemma_order_le_lt, lemma_order_total, lt_by_key,
    Version, VersionKey,
};

verus! {

/// The dependencies of one exact package version: either its requirement
/// set (possibly empty) or the index's word that the version does not
/// exist. The two are never conflated.
#[derive(Debug)]
pub enum Dependencies {
    Known(Vec<Requirement>),
    Unavailable,
}

/// A failure that aborts the current call: transport trouble (which aborts
/// the whole run) or a response/requirement that could not be understood
/// (silently ignoring it could make the solver accept a wrong assignment).
#[derive(Debug)]
pub enum ResolveError {
    Network(String),
    Schema(String),
}

/// The mathematical content of a requirement list: each name with the set
/// of keys its range accepts.
pub open spec fn reqs_view(v: Seq<Requirement>) -> Seq<(Seq<char>, Set<VersionKey>)> {
    v.map_values(|r: Requirement| (r.name@, Set::new(|k: VersionKey| range_has(r.range, k))))
}

/// The mathematical content of a dependencies outcome; `None` stands for
/// the unavailable marker.
pub open spec fn deps_view(d: Dependencies) -> Option<Seq<(Seq<char>, Set<VersionKey>)>> {
    match d {
        Dependencies::Known(v) => Some(reqs_view(v@)),
        Dependencies::Unavailable => None,
    }
}

/// What one requirement string means: its lowercased name and accepted key
/// set, or nothing when it does not parse.
pub open spec fn req_sem(text: Seq<char>) -> Option<(Seq<char>, Set<VersionKey>)> {
    match parse_req_of(encode_utf8(text)) {
        None => None,
        Some(p) => Some(
            (p.0.map_values(|b: u8| b as char), Set::new(|k: VersionKey| req_sat(p.1, k))),
        ),
    }
}

/// What a requirement list means: every line parsed, or nothing when any
/// line fails.
pub open spec fn deps_sem(reqs: Seq<Seq<char>>) -> Option<Seq<(Seq<char>, Set<VersionKey>)>> {
    if forall|i: int| 0 <= i < reqs.len() ==> (#[trigger] req_sem(reqs[i])) is Some {
        Some(Seq::new(reqs.len(), |i: int| req_sem(reqs[i])->Some_0))
    } else {
        None
    }
}

/// The views of a list of strings.
pub open spec fn str_views(v: Seq<String>) -> Seq<Seq<char>> {
    v.map_values(|s: String| s@)
}

/// What parsing a published version text means.
pub open spec fn parse_chars(s: Seq<char>) -> Option<VersionKey> {
    parse_of(encode_utf8(s))
}

impl Dependencies {
    /// An independent outcome with the same content.
    pub fn duplicate(&self) -> (r: Dependencies)
        ensures
            deps_view(r) == deps_view(*self),
    {
        match self {
            Dependencies::Unavailable => Dependencies::Unavailable,
            Dependencies::Known(v) => {
                let mut out: Vec<Requirement> = Vec::new();
                let mut i: usize = 0;
                while i < v.len()
                    invariant
                        i <= v@.len(),
                        out@.len() == i,
                        forall|j: int| 0 <= j < i ==> (#[trigger] out@[j]).name@ == v@[j].name@,
                        forall|j: int, k: VersionKey|
                            0 <= j < i ==> #[trigger] range_has(out@[j].range, k) == range_has(
                                v@[j].range,
                                k,
                            ),
                    decreases v@.len() - i,
                {
                    out.push(v[i].duplicate());
                    i = i + 1;
                }
                proof {
                    assert forall|j: int| 0 <= j < v@.len() implies reqs_view(out@)[j]
                        == reqs_view(v@)[j] by {
                        assert(Set::new(|k: VersionKey| range_has(out@[j].range, k)) =~= Set::new(
                            |k: VersionKey| range_has(v@[j].range, k),
                        ));
                    }
                    assert(reqs_view(out@) =~= reqs_view(v@));
                }
                Dependencies::Known(out)
            },
        }
    }
}

/// Turn the registry's requirement strings into requirements. Succeeds
/// exactly when every line parses; otherwise the schema error names the
/// first offending line, and nothing partial is produced.
pub fn build_dependencies(reqs: &Vec<String>) -> (r: Result<Vec<Requirement>, ResolveError>)
    ensures
        match r {
            Ok(v) => deps_sem(str_views(reqs@)) == Some(reqs_view(v@)),
            Err(e) => {
                &&& deps_sem(str_views(reqs@)) is None
                &&& e matches ResolveError::Schema(t) && (exists|i: int|
                    0 <= i < reqs@.len() && req_sem((#[trigger] reqs@[i])@) is None && t@
                        == reqs@[i]@)
            },
        },
{
    let mut out: Vec<Requirement> = Vec::new();
    let mut i: usize = 0;
    while i < reqs.len()
        invariant
            i <= reqs@.len(),
            out@.len() == i,
            forall|j: int| 0 <= j < i ==> req_sem((#[trigger] reqs@[j])@) is Some,
            forall|j: int|
                0 <= j < i ==> #[trigger] reqs_view(out@)[j] == req_sem(reqs@[j]@)->Some_0,
        decreases reqs@.len() - i,
    {
        match Requirement::parse(reqs[i].as_str()) {
            Err(_) => {
                let offending = reqs[i].clone();
                proof {
                    let views = str_views(reqs@);
                    assert(views[i as int] == reqs@[i as int]@);
                    assert(req_sem(reqs@[i as int]@) is None);
                    assert(req_sem(views[i as int]) is None);
                    assert(deps_sem(views) is None);
                }
                return Err(ResolveError::Schema(offending));
            },
            Ok(req) => {
                let ghost out_old = out@;
                out.push(req);
                proof {
                    let p = parse_req_of(encode_utf8(reqs@[i as int]@))->Some_0;
                    assert(req.name@ == p.0.map_values(|b: u8| b as char));
                    assert(Set::new(|k: VersionKey| range_has(req.range, k)) =~= Set::new(
                        |k: VersionKey| req_sat(p.1, k),
                    ));
                    assert(out@[i as int] == req);
                    assert(reqs_view(out@)[i as int] == req_sem(reqs@[i as int]@)->Some_0);
                    assert forall|j: int| 0 <= j < i implies #[trigger] reqs_view(out@)[j]
                        == req_sem(reqs@[j]@)->Some_0 by {
                        assert(out@[j] == out_old[j]);
                        assert(reqs_view(out_old)[j] == req_sem(reqs@[j]@)->Some_0);
                    }
                }
                i = i + 1;
            },
        }
    }
    proof {
        let views = str_views(reqs@);
        assert forall|j: int| 0 <= j < views.len() implies (#[trigger] req_sem(views[j])) is Some
            by {
            assert(views[j] == reqs@[j]@);
        }
        assert(deps_sem(views) == Some(Seq::new(views.len(), |i: int| req_sem(views[i])->Some_0)));
        assert forall|j: int| 0 <= j < views.len() implies reqs_view(out@)[j] == Seq::new(
            views.len(),
            |i: int| req_sem(views[i])->Some_0,
        )[j] by {
            assert(views[j] == reqs@[j]@);
        }
        assert(reqs_view(out@) =~= Seq::new(views.len(), |i: int| req_sem(views[i])->Some_0));
    }
    Ok(out)
}

/// What a registry answer about one exact package version means for the
/// call: the index's not-found word is absorbed as the unavailable outcome
/// (never an empty requirement set), the requirement strings become
/// requirements or a schema error, and transport or malformed answers
/// abort the call as a network or schema error, never as an outcome.
pub fn interpret_metadata(answer: RegistryAnswer) -> (r: Result<Dependencies, ResolveError>)
    ensures
        match answer {
            RegistryAnswer::Requirements(reqs) => match r {
                Ok(d) => deps_view(d) == deps_sem(str_views(reqs@)) && deps_view(d) is Some,
                Err(e) => {
                    &&& deps_sem(str_views(reqs@)) is None
                    &&& e matches ResolveError::Schema(t) && (exists|i: int|
                        0 <= i < reqs@.len() && req_sem((#[trigger] reqs@[i])@) is None && t@
                            == reqs@[i]@)
                },
            },
            RegistryAnswer::NoSuchVersion => r matches Ok(d) && deps_view(d) is None,
            RegistryAnswer::Transport(m) => r matches Err(e) && (e matches ResolveError::Network(t)
                && t@ == m@),
            RegistryAnswer::Malformed(m) => r matches Err(e) && (e matches ResolveError::Schema(t)
                && t@ == m@),
        },
{
    match answer {
        RegistryAnswer::Requirements(reqs) => match build_dependencies(&reqs) {
            Ok(list) => Ok(Dependencies::Known(list)),
            Err(e) => Err(e),
        },
        RegistryAnswer::NoSuchVersion => Ok(Dependencies::Unavailable),
        RegistryAnswer::Transport(m) => Err(ResolveError::Network(m)),
        RegistryAnswer::Malformed(m) => Err(ResolveError::Schema(m)),
    }
}

/// What a registry answer about a package's published versions means for
/// the call: an unknown package is a definite outcome, not an error;
/// transport or malformed answers abort the call.
pub fn interpret_versions(answer: VersionsAnswer) -> (r: Result<VersionsOutcome, ResolveError>)
    ensures
        match answer {
            VersionsAnswer::Published(list) => r matches Ok(o) && vers_view(o) == Some(
                str_views(list@),
            ),
            VersionsAnswer::NoSuchPackage => r matches Ok(o) && vers_view(o) is None,
            VersionsAnswer::Transport(m) => r matches Err(e) && (e matches ResolveError::Network(t)
                && t@ == m@),
            VersionsAnswer::Malformed(m) => r matches Err(e) && (e matches ResolveError::Schema(t)
                && t@ == m@),
        },
{
    match answer {
        VersionsAnswer::Published(list) => Ok(VersionsOutcome::Published(list)),
        VersionsAnswer::NoSuchPackage => Ok(VersionsOutcome::NoPackage),
        VersionsAnswer::Transport(m) => Err(ResolveError::Network(m)),
        VersionsAnswer::Malformed(m) => Err(ResolveError::Schema(m)),
    }
}

/// One cached answer about an exact package version.
#[derive(Debug)]
pub struct DepsEntry {
    pub package: String,
    pub version: Version,
    pub outcome: Dependencies,
}

/// One cached answer about a package's published versions; `None` marks a
/// package the index does not know.
#[derive(Debug)]
pub enum VersionsOutcome {
    Published(Vec<String>),
    NoPackage,
}

/// One cached published-versions answer.
#[derive(Debug)]
pub struct VersionsEntry {
    pub package: String,
    pub outcome: VersionsOutcome,
}

/// The mathematical content of a published-versions outcome.
pub open spec fn vers_view(o: VersionsOutcome) -> Option<Seq<Seq<char>>> {
    match o {
        VersionsOutcome::Published(v) => Some(str_views(v@)),
        VersionsOutcome::NoPackage => None,
    }
}

/// The entry holds the answer for this package and exact version.
pub open spec fn deps_entry_matches(e: DepsEntry, p: Seq<char>, k: VersionKey) -> bool {
    e.package@ == p && key_eq(e.version@, k)
}

/// The first cached answer for the pair, by key equality.
pub open spec fn deps_lookup(c: Seq<DepsEntry>, p: Seq<char>, k: VersionKey) -> Option<
    Option<Seq<(Seq<char>, Set<VersionKey>)>>,
>
    decreases c.len(),
{
    if c.len() == 0 {
        None
    } else if deps_entry_matches(c[0], p, k) {
        Some(deps_view(c[0].outcome))
    } else {
        deps_lookup(c.drop_first(), p, k)
    }
}

/// The pair is cached as the unavailable outcome.
pub open spec fn known_unavailable(c: Seq<DepsEntry>, p: Seq<char>, k: VersionKey) -> bool {
    match deps_lookup(c, p, k) {
        Some(dv) => dv is None,
        None => false,
    }
}

/// The first cached published-versions answer for the package.
pub open spec fn vers_lookup(c: Seq<VersionsEntry>, p: Seq<char>) -> Option<
    Option<Seq<Seq<char>>>,
>
    decreases c.len(),
{
    if c.len() == 0 {
        None
    } else if c[0].package@ == p {
        Some(vers_view(c[0].outcome))
    } else {
        vers_lookup(c.drop_first(), p)
    }
}

proof fn lemma_deps_lookup_skip(c: Seq<DepsEntry>, p: Seq<char>, k: VersionKey, i: int)
    requires
        0 <= i <= c.len(),
        forall|j: int| 0 <= j < i ==> !deps_entry_matches(#[trigger] c[j], p, k),
    ensures
        deps_lookup(c, p, k) == deps_lookup(c.skip(i), p, k),
    decreases i,
{
    if i == 0 {
        assert(c.skip(0) =~= c);
    } else {
        lemma_deps_lookup_skip(c, p, k, i - 1);
        let s = c.skip(i - 1);
        assert(s[0] == c[i - 1]);
        assert(s.drop_first() =~= c.skip(i));
    }
}

proof fn lemma_deps_lookup_push(c: Seq<DepsEntry>, e: DepsEntry, p: Seq<char>, k: VersionKey)
    requires
        deps_lookup(c, p, k) is None,
        deps_entry_matches(e, p, k),
    ensures
        deps_lookup(c.push(e), p, k) == Some(deps_view(e.outcome)),
    decreases c.len(),
{
    if c.len() == 0 {
        assert(c.push(e)[0] == e);
    } else {
        assert(c.push(e)[0] == c[0]);
        assert(c.push(e).drop_first() =~= c.drop_first().push(e));
        lemma_deps_lookup_push(c.drop_first(), e, p, k);
    }
}

proof fn lemma_vers_lookup_skip(c: Seq<VersionsEntry>, p: Seq<char>, i: int)
    requires
        0 <= i <= c.len(),
        forall|j: int| 0 <= j < i ==> (#[trigger] c[j]).package@ != p,
    ensures
        vers_lookup(c, p) == vers_lookup(c.skip(i), p),
    decreases i,
{
    if i == 0 {
        assert(c.skip(0) =~= c);
    } else {
        lemma_vers_lookup_skip(c, p, i - 1);
        let s = c.skip(i - 1);
        assert(s[0] == c[i - 1]);
        assert(s.drop_first() =~= c.skip(i));
    }
}

proof fn lemma_vers_lookup_push(c: Seq<VersionsEntry>, e: VersionsEntry, p: Seq<char>)
    requires
        vers_lookup(c, p) is None,
        e.package@ == p,
    ensures
        vers_lookup(c.push(e), p) == Some(vers_view(e.outcome)),
    decreases c.len(),
{
    if c.len() == 0 {
        assert(c.push(e)[0] == e);
    } else {
        assert(c.push(e)[0] == c[0]);
        assert(c.push(e).drop_first() =~= c.drop_first().push(e));
        lemma_vers_lookup_push(c.drop_first(), e, p);
    }
}

fn find_deps(cache: &Vec<DepsEntry>, package: &String, version: &Version) -> (r: Option<usize>)
    ensures
        match r {
            Some(i) => i < cache@.len() && deps_entry_matches(cache@[i as int], package@, version@)
                && deps_lookup(cache@, package@, version@) == Some(
                deps_view(cache@[i as int].outcome),
            ),
            None => deps_lookup(cache@, package@, version@) is None,
        },
{
    let mut i: usize = 0;
    while i < cache.len()
        invariant
            i <= cache@.len(),
            forall|j: int| 0 <= j < i ==> !deps_entry_matches(#[trigger] cache@[j], package@, version@),
        decreases cache@.len() - i,
    {
        let e = &cache[i];
        if e.package == *package && e.version == *version {
            proof {
                lemma_deps_lookup_skip(cache@, package@, version@, i as int);
                assert(cache@.skip(i as int)[0] == cache@[i as int]);
            }
            return Some(i);
        }
        i = i + 1;
    }
    proof {
        lemma_deps_lookup_skip(cache@, package@, version@, i as int);
        assert(cache@.skip(i as int).len() == 0);
    }
    None
}

fn find_vers(cache: &Vec<VersionsEntry>, package: &String) -> (r: Option<usize>)
    ensures
        match r {
            Some(i) => i < cache@.len() && cache@[i as int].package@ == package@ && vers_lookup(
                cache@,
                package@,
            ) == Some(vers_view(cache@[i as int].outcome)),
            None => vers_lookup(cache@, package@) is None,
        },
{
    let mut i: usize = 0;
    while i < cache.len()
        invariant
            i <= cache@.len(),
            forall|j: int| 0 <= j < i ==> (#[trigger] cache@[j]).package@ != package@,
        decreases cache@.len() - i,
    {
        if cache[i].package == *package {
            proof {
                lemma_vers_lookup_skip(cache@, package@, i as int);
                assert(cache@.skip(i as int)[0] == cache@[i as int]);
            }
            return Some(i);
        }
        i = i + 1;
    }
    proof {
        lemma_vers_lookup_skip(cache@, package@, i as int);
        assert(cache@.skip(i as int).len() == 0);
    }
    None
}

impl VersionsOutcome {
    /// An independent outcome with the same content.
    pub fn duplicate(&self) -> (r: VersionsOutcome)
        ensures
            vers_view(r) == vers_view(*self),
    {
        match self {
            VersionsOutcome::NoPackage => VersionsOutcome::NoPackage,
            VersionsOutcome::Published(v) => {
                let c = v.clone();
                proof {
                    assert forall|j: int| 0 <= j < v@.len() implies c@[j]@ == v@[j]@ by {
                        assert(vstd::pervasive::cloned::<String>(v@[j], c@[j]));
                    }
                    assert(str_views(c@) =~= str_views(v@));
                }
                VersionsOutcome::Published(c)
            },
        }
    }
}

/// The published string at `i` parses to a key that the range accepts and
/// that is not cached as unavailable.
pub open spec fn usable(
    cache: Seq<DepsEntry>,
    p: Seq<char>,
    range: VersionRange,
    list: Seq<Seq<char>>,
    i: int,
) -> bool {
    &&& 0 <= i < list.len()
    &&& match parse_chars(list[i]) {
        Some(k) => range_has(range, k) && !known_unavailable(cache, p, k),
        None => false,
    }
}

/// The choice the provider owes for a candidate: the greatest usable
/// published version, or nothing when none is usable.
pub open spec fn best_choice(
    cache: Seq<DepsEntry>,
    p: Seq<char>,
    range: VersionRange,
    list: Seq<Seq<char>>,
    ch: Option<Version>,
) -> bool {
    match ch {
        Some(v) => {
            &&& v.wf()
            &&& exists|i: int| usable(cache, p, range, list, i) && parse_chars(#[trigger] list[i])
                == Some(v@)
            &&& forall|i: int|
                #[trigger] usable(cache, p, range, list, i) ==> key_le(
                    parse_chars(list[i])->Some_0,
                    v@,
                )
        },
        None => forall|i: int| 0 <= i < list.len() ==> !(#[trigger] usable(cache, p, range, list, i)),
    }
}

/// The candidate at `j` of a package's version table is usable: the
/// caller's range accepts it and the pair is not cached as unavailable.
pub open spec fn cand_usable(
    cache: Seq<DepsEntry>,
    name: Seq<char>,
    vs: Seq<Version>,
    flags: Seq<bool>,
    j: int,
) -> bool {
    &&& 0 <= j < vs.len()
    &&& flags[j]
    &&& !known_unavailable(cache, name, vs[j]@)
}

/// How many of the first `j` candidates of the table are usable.
pub open spec fn cand_count(
    cache: Seq<DepsEntry>,
    name: Seq<char>,
    vs: Seq<Version>,
    flags: Seq<bool>,
    j: int,
) -> nat
    decreases j,
{
    if j <= 0 {
        0
    } else {
        cand_count(cache, name, vs, flags, j - 1) + (if cand_usable(cache, name, vs, flags, j - 1) {
            1nat
        } else {
            0nat
        })
    }
}

/// The usable-candidate count of package `i` of a candidate table.
pub open spec fn package_usable_count(
    cache: Seq<DepsEntry>,
    names: Seq<String>,
    versions: Seq<Vec<Version>>,
    satisfies: Seq<Vec<bool>>,
    i: int,
) -> nat {
    cand_count(cache, names[i]@, versions[i]@, satisfies[i]@, versions[i]@.len() as int)
}

/// The provider: a registry collaborator plus the per-run caches and a
/// count of registry calls made.
#[derive(Debug)]
pub struct Provider<R> {
    pub registry: R,
    pub deps_cache: Vec<DepsEntry>,
    pub versions_cache: Vec<VersionsEntry>,
    pub fetches: u64,
}

impl<R: Registry> Provider<R> {
    /// A fresh provider for one resolution run: empty caches, no traffic
    /// yet.
    pub fn new(registry: R) -> (r: Provider<R>)
        ensures
            r.registry == registry,
            r.deps_cache@.len() == 0,
            r.versions_cache@.len() == 0,
            r.fetches == 0,
    {
        Provider { registry, deps_cache: Vec::new(), versions_cache: Vec::new(), fetches: 0 }
    }

    fn is_unavailable(&self, package: &String, v: &Version) -> (r: bool)
        ensures
            r == known_unavailable(self.deps_cache@, package@, v@),
    {
        match find_deps(&self.deps_cache, package, v) {
            None => false,
            Some(i) => matches!(&self.deps_cache[i].outcome, Dependencies::Unavailable),
        }
    }

    /// The requirement set of one exact package version. A cached pair is
    /// answered from the cache, unchanged and with no registry call;
    /// otherwise one registry call is made and only a definite outcome
    /// (the requirement set, or the index's not-found word) is cached and
    /// returned. Transport and schema failures change no cache.
    pub fn get_dependencies(&mut self, package: &String, version: &Version) -> (r: Result<
        Dependencies,
        ResolveError,
    >)
        requires
            version.wf(),
        ensures
            match deps_lookup(old(self).deps_cache@, package@, version@) {
                Some(dv) => {
                    &&& r matches Ok(d) && deps_view(d) == dv
                    &&& *final(self) == *old(self)
                },
                None => {
                    &&& final(self).fetches == (if old(self).fetches < u64::MAX {
                        old(self).fetches + 1
                    } else {
                        old(self).fetches as int
                    })
                    &&& final(self).versions_cache@ == old(self).versions_cache@
                    &&& match r {
                        Ok(d) => {
                            &&& deps_lookup(final(self).deps_cache@, package@, version@) == Some(
                                deps_view(d),
                            )
                            &&& final(self).deps_cache@.len() == old(self).deps_cache@.len() + 1
                            &&& final(self).deps_cache@.take(old(self).deps_cache@.len() as int)
                                == old(self).deps_cache@
                        },
                        Err(_) => final(self).deps_cache@ == old(self).deps_cache@,
                    }
                },
            },
    {
        match find_deps(&self.deps_cache, package, version) {
            Some(i) => {
                let out = self.deps_cache[i].outcome.duplicate();
                return Ok(out);
            },
            None => {},
        }
        if self.fetches < u64::MAX {
            self.fetches = self.fetches + 1;
        }
        let vtext = version.to_text();
        let answer = self.registry.requirements(package, &vtext);
        match interpret_metadata(answer) {
            Ok(outcome) => {
                let entry = DepsEntry {
                    package: package.clone(),
                    version: version.duplicate(),
                    outcome: outcome.duplicate(),
                };
                proof {
                    lemma_deps_lookup_push(self.deps_cache@, entry, package@, version@);
                }
                self.deps_cache.push(entry);
                Ok(outcome)
            },
            Err(e) => Err(e),
        }
    }

    /// The cached published versions of a package, fetching once on a
    /// miss; only definite answers are cached.
    pub fn published(&mut self, package: &String) -> (r: Result<VersionsOutcome, ResolveError>)
        ensures
            match vers_lookup(old(self).versions_cache@, package@) {
                Some(ov) => {
                    &&& r matches Ok(o) && vers_view(o) == ov
                    &&& *final(self) == *old(self)
                },
                None => {
                    &&& final(self).deps_cache@ == old(self).deps_cache@
                    &&& match r {
                        Ok(o) => {
                            &&& vers_lookup(final(self).versions_cache@, package@) == Some(
                                vers_view(o),
                            )
                        },
                        Err(_) => final(self).versions_cache@ == old(self).versions_cache@,
                    }
                },
            },
    {
        match find_vers(&self.versions_cache, package) {
            Some(i) => {
                let out = self.versions_cache[i].outcome.duplicate();
                return Ok(out);
            },
            None => {},
        }
        if self.fetches < u64::MAX {
            self.fetches = self.fetches + 1;
        }
        let answer = self.registry.versions(package);
        match interpret_versions(answer) {
            Ok(outcome) => {
                let entry = VersionsEntry {
                    package: package.clone(),
                    outcome: outcome.duplicate(),
                };
                proof {
                    lemma_vers_lookup_push(self.versions_cache@, entry, package@);
                }
                self.versions_cache.push(entry);
                Ok(outcome)
            },
            Err(e) => Err(e),
        }
    }

    fn best_published(&self, package: &String, range: &VersionRange, list: &Vec<String>) -> (r:
        Option<Version>)
        ensures
            best_choice(self.deps_cache@, package@, *range, str_views(list@), r),
    {
        let ghost views = str_views(list@);
        let mut best: Option<Version> = None;
        let mut i: usize = 0;
        while i < list.len()
            invariant
                i <= list@.len(),
                views == str_views(list@),
                match best {
                    Some(b) => {
                        &&& b.wf()
                        &&& exists|t: int|
                            0 <= t < i && usable(self.deps_cache@, package@, *range, views, t)
                                && parse_chars(#[trigger] views[t]) == Some(b@)
                        &&& forall|t: int|
                            0 <= t < i && #[trigger] usable(
                                self.deps_cache@,
                                package@,
                                *range,
                                views,
                                t,
                            ) ==> key_le(parse_chars(views[t])->Some_0, b@)
                    },
                    None => forall|t: int|
                        0 <= t < i ==> !usable(self.deps_cache@, package@, *range, views, t),
                },
            decreases list@.len() - i,
        {
            proof {
                assert(views[i as int] == list@[i as int]@);
            }
            match Version::new(list[i].as_str()) {
                Err(_) => {
                    proof {
                        assert(parse_chars(views[i as int]) is None);
                    }
                },
                Ok(v) => {
                    proof {
                        assert(parse_chars(views[i as int]) == Some(v@));
                    }
                    if range.contains(&v) && !self.is_unavailable(package, &v) {
                        assert(usable(self.deps_cache@, package@, *range, views, i as int));
                        match &best {
                            None => {
                                best = Some(v);
                            },
                            Some(b) => {
                                if lt_by_key(b, &v) {
                                    proof {
                                        assert forall|t: int|
                                            0 <= t < i + 1 && #[trigger] usable(
                                                self.deps_cache@,
                                                package@,
                                                *range,
                                                views,
                                                t,
                                            ) implies key_le(parse_chars(views[t])->Some_0, v@) by {
                                            if t < i {
                                                lemma_order_le_lt(
                                                    parse_chars(views[t])->Some_0,
                                                    b@,
                                                    v@,
                                                );
                                            }
                                        }
                                    }
                                    best = Some(v);
                                } else {
                                    proof {
                                        lemma_order_total(b@, v@);
                                    }
                                }
                            },
                        }
                    }
                },
            }
            i = i + 1;
        }
        proof {
            assert(views.len() == list@.len());
        }
        best
    }

    /// Choose the next pair to try: always the first candidate package,
    /// with the greatest published version that its range accepts and that
    /// is not already cached as unavailable; `None` as the version when no
    /// published version qualifies (including an unknown package). The
    /// decision depends only on the caches once the package's version list
    /// is cached, so repeated calls with the same candidates repeat the
    /// choice.
    pub fn choose_package_version(&mut self, candidates: &Vec<(String, VersionRange)>) -> (r:
        Result<(String, Option<Version>), ResolveError>)
        requires
            candidates@.len() >= 1,
        ensures
            final(self).deps_cache@ == old(self).deps_cache@,
            vers_lookup(old(self).versions_cache@, candidates@[0].0@) is Some ==> *final(self)
                == *old(self),
            vers_lookup(old(self).versions_cache@, candidates@[0].0@) is Some ==> r is Ok,
            match r {
                Ok(choice) => {
                    &&& choice.0@ == candidates@[0].0@
                    &&& vers_lookup(final(self).versions_cache@, candidates@[0].0@) matches Some(
                        ov,
                    ) && (match ov {
                        Some(list) => best_choice(
                            final(self).deps_cache@,
                            candidates@[0].0@,
                            candidates@[0].1,
                            list,
                            choice.1,
                        ),
                        None => choice.1 is None,
                    })
                },
                Err(_) => final(self).versions_cache@ == old(self).versions_cache@,
            },
    {
        let package = &candidates[0].0;
        let range = &candidates[0].1;
        match self.published(package) {
            Err(e) => Err(e),
            Ok(VersionsOutcome::NoPackage) => Ok((package.clone(), None)),
            Ok(VersionsOutcome::Published(list)) => {
                let best = self.best_published(package, range, &list);
                Ok((package.clone(), best))
            },
        }
    }

    fn count_usable(&self, name: &String, vs: &Vec<Version>, flags: &Vec<bool>) -> (c: usize)
        requires
            flags@.len() == vs@.len(),
        ensures
            c == cand_count(self.deps_cache@, name@, vs@, flags@, vs@.len() as int),
            c <= vs@.len(),
    {
        let mut c: usize = 0;
        let mut j: usize = 0;
        while j < vs.len()
            invariant
                j <= vs@.len(),
                flags@.len() == vs@.len(),
                c <= j,
                c == cand_count(self.deps_cache@, name@, vs@, flags@, j as int),
            decreases vs@.len() - j,
        {
            if flags[j] && !self.is_unavailable(name, &vs[j]) {
                c = c + 1;
            }
            j = j + 1;
        }
        c
    }

    fn best_usable(&self, name: &String, vs: &Vec<Version>, flags: &Vec<bool>) -> (r: Option<
        Version,
    >)
        requires
            flags@.len() == vs@.len(),
        ensures
            match r {
                Some(v) => {
                    &&& exists|j: int|
                        cand_usable(self.deps_cache@, name@, vs@, flags@, j) && v@ == (
                        #[trigger] vs@[j])@
                    &&& forall|j: int|
                        #[trigger] cand_usable(self.deps_cache@, name@, vs@, flags@, j)
                            ==> key_le(vs@[j]@, v@)
                },
                None => forall|j: int|
                    0 <= j < vs@.len() ==> !(#[trigger] cand_usable(
                        self.deps_cache@,
                        name@,
                        vs@,
                        flags@,
                        j,
                    )),
            },
    {
        let mut best: Option<Version> = None;
        let mut i: usize = 0;
        while i < vs.len()
            invariant
                i <= vs@.len(),
                flags@.len() == vs@.len(),
                match best {
                    Some(b) => {
                        &&& exists|j: int|
                            0 <= j < i && cand_usable(self.deps_cache@, name@, vs@, flags@, j)
                                && b@ == (#[trigger] vs@[j])@
                        &&& forall|j: int|
                            0 <= j < i && #[trigger] cand_usable(
                                self.deps_cache@,
                                name@,
                                vs@,
                                flags@,
                                j,
                            ) ==> key_le(vs@[j]@, b@)
                    },
                    None => forall|j: int|
                        0 <= j < i ==> !(#[trigger] cand_usable(
                            self.deps_cache@,
                            name@,
                            vs@,
                            flags@,
                            j,
                        )),
                },
            decreases vs@.len() - i,
        {
            if flags[i] && !self.is_unavailable(name, &vs[i]) {
                assert(cand_usable(self.deps_cache@, name@, vs@, flags@, i as int));
                match &best {
                    None => {
                        best = Some(vs[i].duplicate());
                    },
                    Some(b) => {
                        if lt_by_key(b, &vs[i]) {
                            let ghost bk = b@;
                            let nv = vs[i].duplicate();
                            proof {
                                assert forall|j: int|
                                    0 <= j < i + 1 && #[trigger] cand_usable(
                                        self.deps_cache@,
                                        name@,
                                        vs@,
                                        flags@,
                                        j,
                                    ) implies key_le(vs@[j]@, nv@) by {
                                    if j < i {
                                        lemma_order_le_lt(vs@[j]@, bk, nv@);
                                    }
                                }
                            }
                            best = Some(nv);
                        } else {
                            proof {
                                lemma_order_total(b@, vs@[i as int]@);
                                if key_eq(b@, vs@[i as int]@) {
                                    lemma_order_eq_symmetric(b@, vs@[i as int]@);
                                }
                            }
                        }
                    },
                }
            }
            i = i + 1;
        }
        best
    }

    /// The choice over plain values: candidate package names, each
    /// package's parsed published versions, and a flag per version for
    /// whether the caller's range accepts it. Picks the package with the
    /// fewest usable candidates (the first such package on ties) and its
    /// greatest usable version, `None` when none is usable; usable means
    /// flagged and not cached as unavailable.
    pub fn choose_from_candidates(
        &self,
        names: &Vec<String>,
        versions: &Vec<Vec<Version>>,
        satisfies: &Vec<Vec<bool>>,
    ) -> (r: (usize, Option<Version>))
        requires
            names@.len() >= 1,
            versions@.len() == names@.len(),
            satisfies@.len() == names@.len(),
            forall|i: int|
                0 <= i < versions@.len() ==> (#[trigger] satisfies@[i])@.len()
                    == versions@[i]@.len(),
        ensures
            r.0 < names@.len(),
            forall|i: int|
                0 <= i < names@.len() ==> package_usable_count(
                    self.deps_cache@,
                    names@,
                    versions@,
                    satisfies@,
                    r.0 as int,
                ) <= #[trigger] package_usable_count(
                    self.deps_cache@,
                    names@,
                    versions@,
                    satisfies@,
                    i,
                ),
            forall|i: int|
                0 <= i < r.0 ==> #[trigger] package_usable_count(
                    self.deps_cache@,
                    names@,
                    versions@,
                    satisfies@,
                    i,
                ) > package_usable_count(
                    self.deps_cache@,
                    names@,
                    versions@,
                    satisfies@,
                    r.0 as int,
                ),
            match r.1 {
                Some(v) => {
                    &&& exists|j: int|
                        cand_usable(
                            self.deps_cache@,
                            names@[r.0 as int]@,
                            versions@[r.0 as int]@,
                            satisfies@[r.0 as int]@,
                            j,
                        ) && v@ == (#[trigger] versions@[r.0 as int]@[j])@
                    &&& forall|j: int|
                        #[trigger] cand_usable(
                            self.deps_cache@,
                            names@[r.0 as int]@,
                            versions@[r.0 as int]@,
                            satisfies@[r.0 as int]@,
                            j,
                        ) ==> key_le(versions@[r.0 as int]@[j]@, v@)
                },
                None => forall|j: int|
                    0 <= j < versions@[r.0 as int]@.len() ==> !(#[trigger] cand_usable(
                        self.deps_cache@,
                        names@[r.0 as int]@,
                        versions@[r.0 as int]@,
                        satisfies@[r.0 as int]@,
                        j,
                    )),
            },
    {
        let mut best_i: usize = 0;
        let mut best_c = self.count_usable(&names[0], &versions[0], &satisfies[0]);
        let mut i: usize = 1;
        while i < names.len()
            invariant
                1 <= i <= names@.len(),
                best_i < i,
                versions@.len() == names@.len(),
                satisfies@.len() == names@.len(),
                forall|t: int|
                    0 <= t < versions@.len() ==> (#[trigger] satisfies@[t])@.len()
                        == versions@[t]@.len(),
                best_c == package_usable_count(
                    self.deps_cache@,
                    names@,
                    versions@,
                    satisfies@,
                    best_i as int,
                ),
                forall|t: int|
                    0 <= t < i ==> package_usable_count(
                        self.deps_cache@,
                        names@,
                        versions@,
                        satisfies@,
                        best_i as int,
                    ) <= #[trigger] package_usable_count(
                        self.deps_cache@,
                        names@,
                        versions@,
                        satisfies@,
                        t,
                    ),
                forall|t: int|
                    0 <= t < best_i ==> #[trigger] package_usable_count(
                        self.deps_cache@,
                        names@,
                        versions@,
                        satisfies@,
                        t,
                    ) > package_usable_count(
                        self.deps_cache@,
                        names@,
                        versions@,
                        satisfies@,
                        best_i as int,
                    ),
            decreases names@.len() - i,
        {
            let c = self.count_usable(&names[i], &versions[i], &satisfies[i]);
            if c < best_c {
                best_i = i;
                best_c = c;
            }
            i = i + 1;
        }
        let chosen = self.best_usable(&names[best_i], &versions[best_i], &satisfies[best_i]);
        (best_i, chosen)
    }
}

} // verus!
