//! The registry collaborator: the index answers two questions, the
//! requirement strings of one exact package version and the published
//! version texts of a package. The HTTP transport is a black box behind
//! trusted wrappers; every decision on what an answer means is verified
//! code over the name given to the parsed response.

use vstd::prelude::*;
use vstd::string::StringExecFns;

verus! {

/// What the index said about one exact package version.
#[derive(Debug)]
pub enum RegistryAnswer {
    /// The version exists; these are its requirement strings.
    Requirements(Vec<String>),
    /// The index reports no such package version.
    NoSuchVersion,
    /// Transport failure or timeout.
    Transport(String),
    /// The response did not have the expected shape.
    Malformed(String),
}

/// What the index said about a package's published versions.
#[derive(Debug)]
pub enum VersionsAnswer {
    /// The version texts the index publishes for the package.
    Published(Vec<String>),
    /// The index reports no such package.
    NoSuchPackage,
    /// Transport failure or timeout.
    Transport(String),
    /// The response did not have the expected shape.
    Malformed(String),
}

/// The two questions a registry answers. Implementations decide how; the
/// provider is verified against every possible answer.
pub trait Registry {
    /// The requirement strings of one exact package version, or why not.
    fn requirements(&mut self, package: &String, version_text: &String) -> RegistryAnswer;

    /// The published version texts of a package, or why not.
    fn versions(&mut self, package: &String) -> VersionsAnswer;
}

/// A raw HTTP exchange: a status with a body, or a transport failure.
#[derive(Debug)]
pub enum HttpReply {
    Answer(u16, String),
    Failed(String),
}

/// The `info.requires_dist` list that a metadata response body holds:
/// nothing when the body is not a metadata object, an absent or null field,
/// or the requirement strings. A function of the body text alone.
pub uninterp spec fn requires_dist_of(body: Seq<char>) -> Option<Option<Seq<Seq<char>>>>;

/// The keys of the `releases` table that a package response body holds, in
/// the order the parsed table yields them. A function of the body text
/// alone.
pub uninterp spec fn release_keys_of(body: Seq<char>) -> Option<Seq<Seq<char>>>;

/// Relies on reqwest::blocking::get (whose default client bounds the
/// exchange with its timeout): fetches `<base>/pypi/<package>/<version>/json`
/// and hands back the status and body text, or the transport error.
#[verifier::external_body]
fn http_get_metadata(base: &String, package: &String, version_text: &String) -> (r: HttpReply) {
    let url = format!("{}/pypi/{}/{}/json", base, package, version_text);
    match reqwest::blocking::get(&url) {
        Ok(resp) => {
            let status = resp.status().as_u16();
            match resp.text() {
                Ok(body) => HttpReply::Answer(status, body),
                Err(e) => HttpReply::Failed(e.to_string()),
            }
        },
        Err(e) => HttpReply::Failed(e.to_string()),
    }
}

/// Relies on reqwest::blocking::get (whose default client bounds the
/// exchange with its timeout): fetches `<base>/pypi/<package>/json` and
/// hands back the status and body text, or the transport error.
#[verifier::external_body]
fn http_get_package(base: &String, package: &String) -> (r: HttpReply) {
    let url = format!("{}/pypi/{}/json", base, package);
    match reqwest::blocking::get(&url) {
        Ok(resp) => {
            let status = resp.status().as_u16();
            match resp.text() {
                Ok(body) => HttpReply::Answer(status, body),
                Err(e) => HttpReply::Failed(e.to_string()),
            }
        },
        Err(e) => HttpReply::Failed(e.to_string()),
    }
}

/// Relies on serde_json::from_str and Value::get: pulls `info.requires_dist`
/// out of a metadata body. `None` when the body is not JSON with an `info`
/// object; `Some(None)` when the field is null or absent; otherwise the
/// requirement strings. Deterministic in the body, which names it.
#[verifier::external_body]
fn json_requires_dist(body: &String) -> (r: Option<Option<Vec<String>>>)
    ensures
        match r {
            None => requires_dist_of(body@) is None,
            Some(inner) => match inner {
                None => requires_dist_of(body@) matches Some(f) && f is None,
                Some(v) => requires_dist_of(body@) matches Some(f) && f matches Some(l)
                    && v.deep_view() == l,
            },
        },
{
    match serde_json::from_str::<serde_json::Value>(body) {
        Err(_) => None,
        Ok(v) => match v.get("info") {
            None => None,
            Some(info) => match info.get("requires_dist") {
                None => Some(None),
                Some(serde_json::Value::Null) => Some(None),
                Some(rd) => serde_json::from_value::<Vec<String>>(rd.clone()).ok().map(Some),
            },
        },
    }
}

/// Relies on serde_json::from_str: pulls the keys of the `releases` table
/// out of a package body, in the parsed table's order. Deterministic in the
/// body, which names it.
#[verifier::external_body]
fn json_release_keys(body: &String) -> (r: Option<Vec<String>>)
    ensures
        match r {
            None => release_keys_of(body@) is None,
            Some(v) => release_keys_of(body@) matches Some(l) && v.deep_view() == l,
        },
{
    match serde_json::from_str::<serde_json::Value>(body) {
        Ok(serde_json::Value::Object(m)) => match m.get("releases") {
            Some(serde_json::Value::Object(rel)) => Some(rel.keys().cloned().collect()),
            _ => None,
        },
        _ => None,
    }
}

/// What a raw metadata exchange means: a 404 is the not-found outcome, a
/// 200 is read by `requires_dist_of` (a null or absent field is an empty
/// requirement list), anything else is a transport or schema failure.
pub fn metadata_answer(reply: HttpReply) -> (r: RegistryAnswer)
    ensures
        match reply {
            HttpReply::Failed(m) => r matches RegistryAnswer::Transport(t) && t@ == m@,
            HttpReply::Answer(status, body) => {
                if status == 404 {
                    r is NoSuchVersion
                } else if status != 200 {
                    r is Transport
                } else {
                    match requires_dist_of(body@) {
                        None => r is Malformed,
                        Some(f) => match f {
                            None => r matches RegistryAnswer::Requirements(v) && v@.len() == 0,
                            Some(l) => r matches RegistryAnswer::Requirements(v) && v.deep_view()
                                == l,
                        },
                    }
                }
            },
        },
{
    match reply {
        HttpReply::Failed(m) => RegistryAnswer::Transport(m),
        HttpReply::Answer(status, body) => {
            if status == 404 {
                RegistryAnswer::NoSuchVersion
            } else if status != 200 {
                RegistryAnswer::Transport(String::from_str("unexpected response status"))
            } else {
                match json_requires_dist(&body) {
                    None => RegistryAnswer::Malformed(
                        String::from_str("metadata response shape unexpected"),
                    ),
                    Some(None) => RegistryAnswer::Requirements(Vec::new()),
                    Some(Some(list)) => RegistryAnswer::Requirements(list),
                }
            }
        },
    }
}

/// What a raw package exchange means, as `metadata_answer` but over the
/// `releases` table.
pub fn versions_answer(reply: HttpReply) -> (r: VersionsAnswer)
    ensures
        match reply {
            HttpReply::Failed(m) => r matches VersionsAnswer::Transport(t) && t@ == m@,
            HttpReply::Answer(status, body) => {
                if status == 404 {
                    r is NoSuchPackage
                } else if status != 200 {
                    r is Transport
                } else {
                    match release_keys_of(body@) {
                        None => r is Malformed,
                        Some(l) => r matches VersionsAnswer::Published(v) && v.deep_view() == l,
                    }
                }
            },
        },
{
    match reply {
        HttpReply::Failed(m) => VersionsAnswer::Transport(m),
        HttpReply::Answer(status, body) => {
            if status == 404 {
                VersionsAnswer::NoSuchPackage
            } else if status != 200 {
                VersionsAnswer::Transport(String::from_str("unexpected response status"))
            } else {
                match json_release_keys(&body) {
                    None => VersionsAnswer::Malformed(
                        String::from_str("package response shape unexpected"),
                    ),
                    Some(list) => VersionsAnswer::Published(list),
                }
            }
        },
    }
}

/// The live index over HTTP: answers both questions from the JSON
/// endpoints under `base`.
#[derive(Debug)]
pub struct HttpRegistry {
    pub base: String,
}

impl Registry for HttpRegistry {
    fn requirements(&mut self, package: &String, version_text: &String) -> RegistryAnswer {
        let reply = http_get_metadata(&self.base, package, version_text);
        metadata_answer(reply)
    }

    fn versions(&mut self, package: &String) -> VersionsAnswer {
        let reply = http_get_package(&self.base, package);
        versions_answer(reply)
    }
}

} // verus!
