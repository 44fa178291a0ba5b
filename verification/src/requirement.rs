//! Requirement lines: `name [extras] specifiers ; marker`, where the
//! specifiers are comma-separated comparisons against version texts.
//! Extras and the environment marker are recognized and ignored; the name
//! and the specifiers are extracted. A requirement becomes a package name
//! and the range of versions accepted by every specifier.

use vstd::prelude::*;
use vstd::string::StringSliceAdditionalSpecFns;
use crate::ranges::{range_has, Endpoint, Interval, VersionRange};
use crate::text::{
    ascii_to_string, lit1, lit2, lower_bytes, lower_seq, parse_lowered, parse_version, ParseError,
};
use crate::version::{
    key_eq, key_le, key_lt, lemma_order_eq_not_lt, lemma_order_total, Version, VersionKey,
};

verus! {

/// A comparison operator of a version specifier.
#[derive(Clone, Copy, Debug)]
pub enum CompOp {
    EqKey,
    NeKey,
    LeKey,
    GeKey,
    LtKey,
    GtKey,
}

/// One specifier: an operator and the version it compares against.
#[derive(Debug)]
pub struct Specifier {
    pub op: CompOp,
    pub ver: Version,
}

/// What a specifier accepts, by comparison key.
pub open spec fn sat_op(op: CompOp, v: VersionKey, k: VersionKey) -> bool {
    match op {
        CompOp::EqKey => key_eq(k, v),
        CompOp::NeKey => !key_eq(k, v),
        CompOp::LeKey => key_le(k, v),
        CompOp::GeKey => key_le(v, k),
        CompOp::LtKey => key_lt(k, v),
        CompOp::GtKey => key_lt(v, k),
    }
}

/// The mathematical content of a specifier list.
pub open spec fn specs_view(v: Seq<Specifier>) -> Seq<(CompOp, VersionKey)> {
    v.map_values(|sp: Specifier| (sp.op, sp.ver@))
}

/// A key satisfies a specifier list when it satisfies every entry.
pub open spec fn req_sat(specs: Seq<(CompOp, VersionKey)>, k: VersionKey) -> bool {
    forall|i: int| 0 <= i < specs.len() ==> sat_op((#[trigger] specs[i]).0, specs[i].1, k)
}

/// Whitespace inside a requirement line.
pub open spec fn is_space(b: u8) -> bool {
    b == 32 || b == 9
}

/// A byte a (lowercased) package name may hold.
pub open spec fn is_name_char(b: u8) -> bool {
    (48 <= b <= 57) || (97 <= b <= 122) || b == 45 || b == 95 || b == 46
}

/// A byte that may stand inside one specifier's version text.
pub open spec fn is_ver_char(b: u8) -> bool {
    !is_space(b) && b != 44 && b != 59
}

/// First non-space position at or after `i`.
pub open spec fn skip_ws(s: Seq<u8>, i: int) -> int
    decreases s.len() - i,
{
    if 0 <= i < s.len() && is_space(s[i]) {
        skip_ws(s, i + 1)
    } else {
        i
    }
}

/// End of the name-character run that starts at `i`.
pub open spec fn name_end(s: Seq<u8>, i: int) -> int
    decreases s.len() - i,
{
    if 0 <= i < s.len() && is_name_char(s[i]) {
        name_end(s, i + 1)
    } else {
        i
    }
}

/// End of the version-text run that starts at `i`.
pub open spec fn ver_end(s: Seq<u8>, i: int) -> int
    decreases s.len() - i,
{
    if 0 <= i < s.len() && is_ver_char(s[i]) {
        ver_end(s, i + 1)
    } else {
        i
    }
}

/// One past the first `]` at or after `i`, if any.
pub open spec fn bracket_end(s: Seq<u8>, i: int) -> Option<int>
    decreases s.len() - i,
{
    if !(0 <= i < s.len()) {
        None
    } else if s[i] == 93 {
        Some(i + 1)
    } else {
        bracket_end(s, i + 1)
    }
}

proof fn lemma_skip_ws(s: Seq<u8>, i: int)
    requires
        0 <= i <= s.len(),
    ensures
        i <= skip_ws(s, i) <= s.len(),
    decreases s.len() - i,
{
    if i < s.len() && is_space(s[i]) {
        lemma_skip_ws(s, i + 1);
    }
}

proof fn lemma_name_end(s: Seq<u8>, i: int)
    requires
        0 <= i <= s.len(),
    ensures
        i <= name_end(s, i) <= s.len(),
        forall|j: int| i <= j < name_end(s, i) ==> is_name_char(s[j]),
    decreases s.len() - i,
{
    if i < s.len() && is_name_char(s[i]) {
        lemma_name_end(s, i + 1);
    }
}

proof fn lemma_ver_end(s: Seq<u8>, i: int)
    requires
        0 <= i <= s.len(),
    ensures
        i <= ver_end(s, i) <= s.len(),
    decreases s.len() - i,
{
    if i < s.len() && is_ver_char(s[i]) {
        lemma_ver_end(s, i + 1);
    }
}

proof fn lemma_bracket_end(s: Seq<u8>, i: int)
    requires
        0 <= i,
    ensures
        match bracket_end(s, i) {
            Some(j) => i < j <= s.len(),
            None => true,
        },
    decreases s.len() - i,
{
    if 0 <= i < s.len() && s[i] != 93 {
        lemma_bracket_end(s, i + 1);
    }
}

/// The comparison operator at `i`, two-byte spellings first.
pub open spec fn op_at(s: Seq<u8>, i: int) -> Option<(CompOp, int)> {
    if lit2(s, i, 61, 61) {  // ==
        Some((CompOp::EqKey, i + 2))
    } else if lit2(s, i, 33, 61) {  // !=
        Some((CompOp::NeKey, i + 2))
    } else if lit2(s, i, 60, 61) {  // <=
        Some((CompOp::LeKey, i + 2))
    } else if lit2(s, i, 62, 61) {  // >=
        Some((CompOp::GeKey, i + 2))
    } else if lit1(s, i, 60) {  // <
        Some((CompOp::LtKey, i + 1))
    } else if lit1(s, i, 62) {  // >
        Some((CompOp::GtKey, i + 1))
    } else {
        None
    }
}

/// One or more comma-separated specifiers from `i`; an environment marker
/// after `;` ends the list. Fails on an empty or unparseable version text
/// or trailing garbage.
pub open spec fn parse_specs(s: Seq<u8>, i: int) -> Option<Seq<(CompOp, VersionKey)>>
    decreases s.len() - i,
    via parse_specs_decreases
{
    if !(0 <= i <= s.len()) {
        None
    } else {
        let j = skip_ws(s, i);
        match op_at(s, j) {
            None => None,
            Some(om) => {
                let vstart = skip_ws(s, om.1);
                let vend = ver_end(s, vstart);
                if vend <= vstart {
                    None
                } else {
                    match parse_version(s.subrange(vstart, vend)) {
                        None => None,
                        Some(key) => {
                            let rest = skip_ws(s, vend);
                            if rest == s.len() {
                                Some(seq![(om.0, key)])
                            } else if s[rest] == 59 {  // ;
                                Some(seq![(om.0, key)])
                            } else if s[rest] == 44 {  // ,
                                match parse_specs(s, rest + 1) {
                                    None => None,
                                    Some(t) => Some(seq![(om.0, key)] + t),
                                }
                            } else {
                                None
                            }
                        },
                    }
                }
            },
        }
    }
}

#[via_fn]
proof fn parse_specs_decreases(s: Seq<u8>, i: int) {
    if 0 <= i <= s.len() {
        lemma_skip_ws(s, i);
        let j = skip_ws(s, i);
        match op_at(s, j) {
            Some(om) => {
                lemma_skip_ws(s, om.1);
                let vstart = skip_ws(s, om.1);
                lemma_ver_end(s, vstart);
                let vend = ver_end(s, vstart);
                if vstart < vend {
                    lemma_skip_ws(s, vend);
                }
            },
            None => {},
        }
    }
}

/// The whole requirement line over lowercased bytes: the package name, an
/// optional bracketed extras list, then either nothing, a marker, or a
/// specifier list.
pub open spec fn parse_req(s: Seq<u8>) -> Option<(Seq<u8>, Seq<(CompOp, VersionKey)>)> {
    let i0 = skip_ws(s, 0);
    let ne = name_end(s, i0);
    if ne <= i0 {
        None
    } else {
        let name = s.subrange(i0, ne);
        let i1 = skip_ws(s, ne);
        let after_extras = if i1 < s.len() && s[i1] == 91 {  // [
            bracket_end(s, i1 + 1)
        } else {
            Some(i1)
        };
        match after_extras {
            None => None,
            Some(i2raw) => {
                let i2 = skip_ws(s, i2raw);
                if i2 == s.len() {
                    Some((name, Seq::empty()))
                } else if s[i2] == 59 {  // ;
                    Some((name, Seq::empty()))
                } else {
                    match parse_specs(s, i2) {
                        None => None,
                        Some(sp) => Some((name, sp)),
                    }
                }
            },
        }
    }
}

/// What parsing a requirement string means: the grammar applied to its
/// lowercased UTF-8 bytes.
pub open spec fn parse_req_of(text: Seq<u8>) -> Option<(Seq<u8>, Seq<(CompOp, VersionKey)>)> {
    parse_req(lower_seq(text))
}

fn skip_ws_x(s: &Vec<u8>, i: usize) -> (r: usize)
    requires
        i <= s@.len(),
    ensures
        r as int == skip_ws(s@, i as int),
        i <= r <= s@.len(),
{
    proof {
        lemma_skip_ws(s@, i as int);
    }
    let mut j = i;
    while j < s.len() && (s[j] == 32 || s[j] == 9)
        invariant
            i <= j <= s@.len(),
            skip_ws(s@, i as int) == skip_ws(s@, j as int),
        decreases s@.len() - j,
    {
        j = j + 1;
    }
    j
}

fn name_end_x(s: &Vec<u8>, i: usize) -> (r: usize)
    requires
        i <= s@.len(),
    ensures
        r as int == name_end(s@, i as int),
        i <= r <= s@.len(),
{
    proof {
        lemma_name_end(s@, i as int);
    }
    let mut j = i;
    while j < s.len() && ((48 <= s[j] && s[j] <= 57) || (97 <= s[j] && s[j] <= 122) || s[j] == 45
        || s[j] == 95 || s[j] == 46)
        invariant
            i <= j <= s@.len(),
            name_end(s@, i as int) == name_end(s@, j as int),
        decreases s@.len() - j,
    {
        j = j + 1;
    }
    j
}

fn ver_end_x(s: &Vec<u8>, i: usize) -> (r: usize)
    requires
        i <= s@.len(),
    ensures
        r as int == ver_end(s@, i as int),
        i <= r <= s@.len(),
{
    proof {
        lemma_ver_end(s@, i as int);
    }
    let mut j = i;
    while j < s.len() && !(s[j] == 32 || s[j] == 9 || s[j] == 44 || s[j] == 59)
        invariant
            i <= j <= s@.len(),
            ver_end(s@, i as int) == ver_end(s@, j as int),
        decreases s@.len() - j,
    {
        j = j + 1;
    }
    j
}

fn bracket_end_x(s: &Vec<u8>, i: usize) -> (r: Option<usize>)
    requires
        i <= s@.len(),
    ensures
        match r {
            Some(j) => bracket_end(s@, i as int) == Some(j as int) && i < j <= s@.len(),
            None => bracket_end(s@, i as int) is None,
        },
{
    let mut j = i;
    while j < s.len() && s[j] != 93
        invariant
            i <= j <= s@.len(),
            bracket_end(s@, i as int) == bracket_end(s@, j as int),
        decreases s@.len() - j,
    {
        j = j + 1;
    }
    if j < s.len() {
        Some(j + 1)
    } else {
        None
    }
}

fn op_at_x(s: &Vec<u8>, i: usize) -> (r: Option<(CompOp, usize)>)
    requires
        i <= s@.len(),
    ensures
        match r {
            Some(om) => op_at(s@, i as int) == Some((om.0, om.1 as int)) && i < om.1 <= s@.len(),
            None => op_at(s@, i as int) is None,
        },
{
    let n = s.len();
    if n - i >= 2 && s[i] == 61 && s[i + 1] == 61 {
        return Some((CompOp::EqKey, i + 2));
    }
    if n - i >= 2 && s[i] == 33 && s[i + 1] == 61 {
        return Some((CompOp::NeKey, i + 2));
    }
    if n - i >= 2 && s[i] == 60 && s[i + 1] == 61 {
        return Some((CompOp::LeKey, i + 2));
    }
    if n - i >= 2 && s[i] == 62 && s[i + 1] == 61 {
        return Some((CompOp::GeKey, i + 2));
    }
    if n - i >= 1 && s[i] == 60 {
        return Some((CompOp::LtKey, i + 1));
    }
    if n - i >= 1 && s[i] == 62 {
        return Some((CompOp::GtKey, i + 1));
    }
    None
}

fn copy_slice(s: &Vec<u8>, from: usize, to: usize) -> (r: Vec<u8>)
    requires
        from <= to <= s@.len(),
    ensures
        r@ == s@.subrange(from as int, to as int),
{
    let mut out: Vec<u8> = Vec::new();
    let mut k = from;
    while k < to
        invariant
            from <= k <= to <= s@.len(),
            out@.len() == k - from,
            forall|t: int| 0 <= t < out@.len() ==> out@[t] == s@[from + t],
        decreases to - k,
    {
        out.push(s[k]);
        k = k + 1;
    }
    proof {
        assert(out@ =~= s@.subrange(from as int, to as int));
    }
    out
}

fn parse_specs_x(s: &Vec<u8>, i: usize) -> (r: Option<Vec<Specifier>>)
    requires
        i <= s@.len(),
    ensures
        match r {
            Some(v) => parse_specs(s@, i as int) == Some(specs_view(v@)),
            None => parse_specs(s@, i as int) is None,
        },
    decreases s@.len() - i,
{
    let j = skip_ws_x(s, i);
    match op_at_x(s, j) {
        None => None,
        Some(om) => {
            let (op, m) = om;
            let vstart = skip_ws_x(s, m);
            let vend = ver_end_x(s, vstart);
            if vend <= vstart {
                return None;
            }
            let vtext = copy_slice(s, vstart, vend);
            match parse_lowered(&vtext) {
                None => None,
                Some(ver) => {
                    let rest = skip_ws_x(s, vend);
                    if rest == s.len() || s[rest] == 59 {
                        let mut out: Vec<Specifier> = Vec::new();
                        let ghost vk = ver@;
                        out.push(Specifier { op, ver });
                        proof {
                            assert(specs_view(out@) =~= seq![(op, vk)]);
                        }
                        Some(out)
                    } else if s[rest] == 44 {
                        match parse_specs_x(s, rest + 1) {
                            None => None,
                            Some(tail) => {
                                let ghost tail_view = specs_view(tail@);
                                let ghost vk = ver@;
                                let mut out = tail;
                                out.insert(0, Specifier { op, ver });
                                proof {
                                    assert(specs_view(out@) =~= seq![(op, vk)] + tail_view);
                                }
                                Some(out)
                            },
                        }
                    } else {
                        None
                    }
                },
            }
        },
    }
}

fn specifier_range(sp: &Specifier) -> (r: VersionRange)
    ensures
        forall|k: VersionKey| #[trigger] range_has(r, k) <==> sat_op(sp.op, sp.ver@, k),
{
    let mut parts: Vec<Interval> = Vec::new();
    match sp.op {
        CompOp::EqKey => {
            parts.push(
                Interval {
                    lo: Endpoint::Closed(sp.ver.duplicate()),
                    hi: Endpoint::Closed(sp.ver.duplicate()),
                },
            );
            let r = VersionRange { parts };
            proof {
                assert forall|k: VersionKey| #[trigger] range_has(r, k) <==> sat_op(
                    sp.op,
                    sp.ver@,
                    k,
                ) by {
                    lemma_order_total(sp.ver@, k);
                    if key_eq(k, sp.ver@) {
                        lemma_order_eq_not_lt(k, sp.ver@);
                        crate::version::lemma_order_eq_symmetric(k, sp.ver@);
                        assert(in_interval_of(r, 0, k));
                    } else if range_has(r, k) {
                        assert(crate::ranges::in_interval(r.parts@[0], k));
                        if key_eq(sp.ver@, k) {
                            crate::version::lemma_order_eq_symmetric(sp.ver@, k);
                        }
                        if key_lt(sp.ver@, k) && key_lt(k, sp.ver@) {
                            crate::version::lemma_order_asymmetric(sp.ver@, k);
                        }
                    }
                }
            }
            r
        },
        CompOp::NeKey => {
            parts.push(Interval { lo: Endpoint::Unlimited, hi: Endpoint::Open(sp.ver.duplicate()) });
            parts.push(Interval { lo: Endpoint::Open(sp.ver.duplicate()), hi: Endpoint::Unlimited });
            let r = VersionRange { parts };
            proof {
                assert forall|k: VersionKey| #[trigger] range_has(r, k) <==> sat_op(
                    sp.op,
                    sp.ver@,
                    k,
                ) by {
                    lemma_order_total(sp.ver@, k);
                    if key_lt(k, sp.ver@) {
                        assert(in_interval_of(r, 0, k));
                        crate::version::lemma_order_asymmetric(k, sp.ver@);
                    } else if key_lt(sp.ver@, k) {
                        assert(in_interval_of(r, 1, k));
                        crate::version::lemma_order_asymmetric(sp.ver@, k);
                    } else {
                        crate::version::lemma_order_eq_symmetric(sp.ver@, k);
                        crate::version::lemma_order_eq_not_lt(k, sp.ver@);
                    }
                }
            }
            r
        },
        CompOp::LeKey => {
            parts.push(
                Interval { lo: Endpoint::Unlimited, hi: Endpoint::Closed(sp.ver.duplicate()) },
            );
            let r = VersionRange { parts };
            proof {
                assert forall|k: VersionKey| #[trigger] range_has(r, k) <==> sat_op(
                    sp.op,
                    sp.ver@,
                    k,
                ) by {
                    if sat_op(sp.op, sp.ver@, k) {
                        assert(in_interval_of(r, 0, k));
                    }
                }
            }
            r
        },
        CompOp::GeKey => {
            parts.push(
                Interval { lo: Endpoint::Closed(sp.ver.duplicate()), hi: Endpoint::Unlimited },
            );
            let r = VersionRange { parts };
            proof {
                assert forall|k: VersionKey| #[trigger] range_has(r, k) <==> sat_op(
                    sp.op,
                    sp.ver@,
                    k,
                ) by {
                    if sat_op(sp.op, sp.ver@, k) {
                        assert(in_interval_of(r, 0, k));
                    }
                }
            }
            r
        },
        CompOp::LtKey => {
            parts.push(Interval { lo: Endpoint::Unlimited, hi: Endpoint::Open(sp.ver.duplicate()) });
            let r = VersionRange { parts };
            proof {
                assert forall|k: VersionKey| #[trigger] range_has(r, k) <==> sat_op(
                    sp.op,
                    sp.ver@,
                    k,
                ) by {
                    if sat_op(sp.op, sp.ver@, k) {
                        assert(in_interval_of(r, 0, k));
                    }
                }
            }
            r
        },
        CompOp::GtKey => {
            parts.push(Interval { lo: Endpoint::Open(sp.ver.duplicate()), hi: Endpoint::Unlimited });
            let r = VersionRange { parts };
            proof {
                assert forall|k: VersionKey| #[trigger] range_has(r, k) <==> sat_op(
                    sp.op,
                    sp.ver@,
                    k,
                ) by {
                    if sat_op(sp.op, sp.ver@, k) {
                        assert(in_interval_of(r, 0, k));
                    }
                }
            }
            r
        },
    }
}

/// The interval at index `i` of the range accepts `k`.
pub open spec fn in_interval_of(r: VersionRange, i: int, k: VersionKey) -> bool {
    0 <= i < r.parts@.len() && crate::ranges::in_interval(r.parts@[i], k)
}

/// The range accepted by a whole specifier list: the intersection of its
/// entries, the universal range when the list is empty.
pub fn specs_range(specs: &Vec<Specifier>) -> (r: VersionRange)
    ensures
        forall|k: VersionKey| #[trigger] range_has(r, k) <==> req_sat(specs_view(specs@), k),
{
    let mut acc = VersionRange::universal();
    let mut i: usize = 0;
    while i < specs.len()
        invariant
            i <= specs@.len(),
            forall|k: VersionKey| #[trigger] range_has(acc, k) <==> req_sat(
                specs_view(specs@.subrange(0, i as int)),
                k,
            ),
        decreases specs@.len() - i,
    {
        let one = specifier_range(&specs[i]);
        let next = acc.intersect(&one);
        proof {
            let prefix = specs_view(specs@.subrange(0, i as int));
            let extended = specs_view(specs@.subrange(0, i + 1 as int));
            assert(extended =~= prefix.push((specs@[i as int].op, specs@[i as int].ver@)));
            assert forall|k: VersionKey| #[trigger] range_has(next, k) <==> req_sat(extended, k)
                by {
                if req_sat(extended, k) {
                    assert forall|t: int| 0 <= t < prefix.len() implies sat_op(
                        (#[trigger] prefix[t]).0,
                        prefix[t].1,
                        k,
                    ) by {
                        assert(extended[t] == prefix[t]);
                    }
                    assert(sat_op(extended[prefix.len() as int].0, extended[prefix.len() as int].1, k));
                }
                if range_has(next, k) {
                    assert forall|t: int| 0 <= t < extended.len() implies sat_op(
                        (#[trigger] extended[t]).0,
                        extended[t].1,
                        k,
                    ) by {
                        if t < prefix.len() {
                            assert(extended[t] == prefix[t]);
                        }
                    }
                }
            }
        }
        acc = next;
        i = i + 1;
    }
    proof {
        assert(specs@.subrange(0, specs@.len() as int) =~= specs@);
    }
    acc
}

/// A dependency requirement: a package name and the range of acceptable
/// versions.
#[derive(Debug)]
pub struct Requirement {
    pub name: String,
    pub range: VersionRange,
}

impl Requirement {
    /// Parse one requirement line. Succeeds exactly on the recognized
    /// grammar; the name comes back lowercased and the range accepts
    /// exactly the versions every specifier accepts.
    pub fn parse(text: &str) -> (r: Result<Requirement, ParseError>)
        ensures
            match r {
                Ok(req) => {
                    &&& parse_req_of(text.spec_bytes()) matches Some(p)
                    &&& req.name@ == p.0.map_values(|b: u8| b as char)
                    &&& forall|k: VersionKey| #[trigger] range_has(req.range, k) <==> req_sat(
                        p.1,
                        k,
                    )
                },
                Err(e) => parse_req_of(text.spec_bytes()) is None && e.text@ == text@,
            },
    {
        let s = lower_bytes(text);
        let i0 = skip_ws_x(&s, 0);
        let ne = name_end_x(&s, i0);
        if ne <= i0 {
            return Err(ParseError { text: text.to_owned() });
        }
        let name_vec = copy_slice(&s, i0, ne);
        proof {
            lemma_name_end(s@, i0 as int);
            assert forall|t: int| 0 <= t < name_vec@.len() implies name_vec@[t] < 128 by {
                assert(name_vec@[t] == s@[i0 + t]);
                assert(is_name_char(s@[i0 + t]));
            }
        }
        let name = ascii_to_string(name_vec);
        let i1 = skip_ws_x(&s, ne);
        let after_extras: Option<usize> = if i1 < s.len() && s[i1] == 91 {
            bracket_end_x(&s, i1 + 1)
        } else {
            Some(i1)
        };
        match after_extras {
            None => Err(ParseError { text: text.to_owned() }),
            Some(i2raw) => {
                let i2 = skip_ws_x(&s, i2raw);
                if i2 == s.len() || s[i2] == 59 {
                    let range = VersionRange::universal();
                    Ok(Requirement { name, range })
                } else {
                    match parse_specs_x(&s, i2) {
                        None => Err(ParseError { text: text.to_owned() }),
                        Some(specs) => {
                            let range = specs_range(&specs);
                            Ok(Requirement { name, range })
                        },
                    }
                }
            },
        }
    }

    /// An independent requirement with the same name and an equivalent
    /// range.
    pub fn duplicate(&self) -> (r: Requirement)
        ensures
            r.name@ == self.name@,
            forall|k: VersionKey| #[trigger] range_has(r.range, k) == range_has(self.range, k),
    {
        Requirement { name: self.name.clone(), range: self.range.duplicate() }
    }
}

} // verus!
