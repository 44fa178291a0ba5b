//! Textual form of versions: the grammar `[epoch!]release(qualifier)*`,
//! where `release` is a dot-separated run of decimal numbers and each
//! qualifier is a pre/post/dev marker (under any of its accepted spellings,
//! case-insensitively, with or without a leading dot) carrying an optional
//! ordinal that defaults to zero. Rendering normalizes the spelling; only
//! the comparison key survives a round trip.

use vstd::prelude::*;
use vstd::string::StringSliceAdditionalSpecFns;
use crate::version::{Version, VersionKey};

verus! {

/// Malformed version text, reported with the offending input.
#[derive(Debug)]
pub struct ParseError {
    pub text: String,
}

/// ASCII lowercasing of one byte.
pub open spec fn lower(b: u8) -> u8 {
    if 65 <= b <= 90 {
        (b + 32) as u8
    } else {
        b
    }
}

/// ASCII lowercasing of a byte sequence.
pub open spec fn lower_seq(s: Seq<u8>) -> Seq<u8> {
    s.map_values(|b: u8| lower(b))
}

/// ASCII decimal digit.
pub open spec fn is_digit(b: u8) -> bool {
    48 <= b <= 57
}

/// End of the digit run that starts at `i`.
pub open spec fn num_end(s: Seq<u8>, i: int) -> int
    decreases s.len() - i,
{
    if 0 <= i < s.len() && is_digit(s[i]) {
        num_end(s, i + 1)
    } else {
        i
    }
}

/// Value of the digit run `s[i..j)`, most significant first.
pub open spec fn num_val(s: Seq<u8>, i: int, j: int) -> int
    decreases j - i,
{
    if i < j {
        num_val(s, i, j - 1) * 10 + (s[j - 1] - 48)
    } else {
        0
    }
}

proof fn lemma_num_end(s: Seq<u8>, i: int)
    requires
        0 <= i <= s.len(),
    ensures
        i <= num_end(s, i) <= s.len(),
        forall|j: int| i <= j < num_end(s, i) ==> is_digit(s[j]),
        num_end(s, i) == s.len() || !is_digit(s[num_end(s, i)]),
    decreases s.len() - i,
{
    if i < s.len() && is_digit(s[i]) {
        lemma_num_end(s, i + 1);
    }
}

proof fn lemma_num_val_bounds(s: Seq<u8>, i: int, j: int)
    requires
        0 <= i <= j <= s.len(),
        forall|k: int| i <= k < j ==> is_digit(s[k]),
    ensures
        num_val(s, i, j) >= 0,
        forall|k: int| i <= k <= j ==> num_val(s, i, j) >= num_val(s, i, k),
    decreases j - i,
{
    if i < j {
        lemma_num_val_bounds(s, i, j - 1);
    }
}

/// The qualifier positions a marker can fill.
#[derive(Clone, Copy, Debug)]
pub enum QualKind {
    Pre,
    Post,
    Dev,
}

/// A one-byte literal occurs in `s` at position `i`.
pub open spec fn lit1(s: Seq<u8>, i: int, a: u8) -> bool {
    0 <= i && i + 1 <= s.len() && s[i] == a
}

/// A two-byte literal occurs in `s` at position `i`.
pub open spec fn lit2(s: Seq<u8>, i: int, a: u8, b: u8) -> bool {
    0 <= i && i + 2 <= s.len() && s[i] == a && s[i + 1] == b
}

/// A three-byte literal occurs in `s` at position `i`.
pub open spec fn lit3(s: Seq<u8>, i: int, a: u8, b: u8, c: u8) -> bool {
    0 <= i && i + 3 <= s.len() && s[i] == a && s[i + 1] == b && s[i + 2] == c
}

/// A four-byte literal occurs in `s` at position `i`.
pub open spec fn lit4(s: Seq<u8>, i: int, a: u8, b: u8, c: u8, d: u8) -> bool {
    lit3(s, i, a, b, c) && i + 4 <= s.len() && s[i + 3] == d
}

/// A five-byte literal occurs in `s` at position `i`.
pub open spec fn lit5(s: Seq<u8>, i: int, a: u8, b: u8, c: u8, d: u8, e: u8) -> bool {
    lit4(s, i, a, b, c, d) && i + 5 <= s.len() && s[i + 4] == e
}

/// A seven-byte literal occurs in `s` at position `i`.
pub open spec fn lit7(
    s: Seq<u8>,
    i: int,
    a: u8,
    b: u8,
    c: u8,
    d: u8,
    e: u8,
    f: u8,
    g: u8,
) -> bool {
    lit5(s, i, a, b, c, d, e) && i + 7 <= s.len() && s[i + 5] == f && s[i + 6] == g
}

/// The accepted qualifier spellings, tried longest first, each with the
/// position it fills and its length: `preview`, `alpha`, `beta`, `post`,
/// `pre`, `rev`, `dev`, `rc`, `a`, `b`, `c`, `r`.
pub open spec fn marker_at(s: Seq<u8>, i: int) -> Option<(QualKind, int)> {
    if lit7(s, i, 112, 114, 101, 118, 105, 101, 119) {  // preview
        Some((QualKind::Pre, i + 7))
    } else if lit5(s, i, 97, 108, 112, 104, 97) {  // alpha
        Some((QualKind::Pre, i + 5))
    } else if lit4(s, i, 98, 101, 116, 97) {  // beta
        Some((QualKind::Pre, i + 4))
    } else if lit4(s, i, 112, 111, 115, 116) {  // post
        Some((QualKind::Post, i + 4))
    } else if lit3(s, i, 112, 114, 101) {  // pre
        Some((QualKind::Pre, i + 3))
    } else if lit3(s, i, 114, 101, 118) {  // rev
        Some((QualKind::Post, i + 3))
    } else if lit3(s, i, 100, 101, 118) {  // dev
        Some((QualKind::Dev, i + 3))
    } else if lit2(s, i, 114, 99) {  // rc
        Some((QualKind::Pre, i + 2))
    } else if lit1(s, i, 97) {  // a
        Some((QualKind::Pre, i + 1))
    } else if lit1(s, i, 98) {  // b
        Some((QualKind::Pre, i + 1))
    } else if lit1(s, i, 99) {  // c
        Some((QualKind::Pre, i + 1))
    } else if lit1(s, i, 114) {  // r
        Some((QualKind::Post, i + 1))
    } else {
        None
    }
}

proof fn lemma_marker_at(s: Seq<u8>, i: int)
    ensures
        match marker_at(s, i) {
            Some(qm) => i < qm.1 <= s.len(),
            None => true,
        },
{
}

/// The dot-separated digit runs from `i`: the parsed segments and the
/// position just past them. Fails on a missing first digit or a segment
/// value above the representable ceiling.
pub open spec fn parse_release(s: Seq<u8>, i: int) -> Option<(Seq<u64>, int)>
    decreases s.len() - i,
    via parse_release_decreases
{
    if 0 <= i < s.len() && is_digit(s[i]) {
        let j = num_end(s, i);
        let v = num_val(s, i, j);
        if v > u64::MAX {
            None
        } else if j + 1 < s.len() && s[j] == 46 && is_digit(s[j + 1]) {
            match parse_release(s, j + 1) {
                Some(rest) => Some((seq![v as u64] + rest.0, rest.1)),
                None => None,
            }
        } else {
            Some((seq![v as u64], j))
        }
    } else {
        None
    }
}

#[via_fn]
proof fn parse_release_decreases(s: Seq<u8>, i: int) {
    if 0 <= i < s.len() && is_digit(s[i]) {
        lemma_num_end(s, i);
    }
}

/// The qualifiers from `i` to the end of the text: each is an optional dot,
/// a marker, and an optional ordinal (default zero), with each position
/// filled at most once. Fails on trailing text that is no qualifier.
pub open spec fn parse_quals(
    s: Seq<u8>,
    i: int,
    pre: Option<u64>,
    post: Option<u64>,
    dev: Option<u64>,
) -> Option<(Option<u64>, Option<u64>, Option<u64>)>
    decreases s.len() - i,
    via parse_quals_decreases
{
    if !(0 <= i <= s.len()) {
        None
    } else if i == s.len() {
        Some((pre, post, dev))
    } else {
        let k = if s[i] == 46 {
            i + 1
        } else {
            i
        };
        match marker_at(s, k) {
            None => None,
            Some(qm) => {
                let j = num_end(s, qm.1);
                let v = if j > qm.1 {
                    num_val(s, qm.1, j)
                } else {
                    0
                };
                if v > u64::MAX {
                    None
                } else {
                    match qm.0 {
                        QualKind::Pre => if pre is Some {
                            None
                        } else {
                            parse_quals(s, j, Some(v as u64), post, dev)
                        },
                        QualKind::Post => if post is Some {
                            None
                        } else {
                            parse_quals(s, j, pre, Some(v as u64), dev)
                        },
                        QualKind::Dev => if dev is Some {
                            None
                        } else {
                            parse_quals(s, j, pre, post, Some(v as u64))
                        },
                    }
                }
            },
        }
    }
}

#[via_fn]
proof fn parse_quals_decreases(
    s: Seq<u8>,
    i: int,
    pre: Option<u64>,
    post: Option<u64>,
    dev: Option<u64>,
) {
    if 0 <= i < s.len() {
        let k = if s[i] == 46 {
            i + 1
        } else {
            i
        };
        lemma_marker_at(s, k);
        match marker_at(s, k) {
            Some(qm) => {
                lemma_num_end(s, qm.1);
            },
            None => {},
        }
    }
}

/// The whole grammar over (lowercased) bytes: an optional `epoch!`, the
/// release segments, then qualifiers to the end of the input.
pub open spec fn parse_version(s: Seq<u8>) -> Option<VersionKey> {
    let e_end = num_end(s, 0);
    let has_epoch = 0 < e_end < s.len() && s[e_end] == 33;  // '!'
    let epoch_val = if has_epoch {
        num_val(s, 0, e_end)
    } else {
        0
    };
    let rel_start = if has_epoch {
        e_end + 1
    } else {
        0
    };
    if epoch_val > u64::MAX {
        None
    } else {
        match parse_release(s, rel_start) {
            None => None,
            Some(rel) => match parse_quals(s, rel.1, None, None, None) {
                None => None,
                Some(q) => Some(
                    VersionKey {
                        epoch: epoch_val as u64,
                        release: rel.0,
                        pre: q.0,
                        post: q.1,
                        dev: q.2,
                    },
                ),
            },
        }
    }
}

/// What parsing a string means: the grammar applied to its lowercased
/// UTF-8 bytes.
pub open spec fn parse_of(text: Seq<u8>) -> Option<VersionKey> {
    parse_version(lower_seq(text))
}

fn is_digit_x(b: u8) -> (r: bool)
    ensures
        r == is_digit(b),
{
    48 <= b && b <= 57
}

fn lower_byte(b: u8) -> (r: u8)
    ensures
        r == lower(b),
{
    if 65 <= b && b <= 90 {
        b + 32
    } else {
        b
    }
}

fn scan_num_end(s: &Vec<u8>, i: usize) -> (r: usize)
    requires
        i <= s@.len(),
    ensures
        r as int == num_end(s@, i as int),
        i <= r <= s@.len(),
{
    proof {
        lemma_num_end(s@, i as int);
    }
    let mut j = i;
    while j < s.len() && is_digit_x(s[j])
        invariant
            i <= j <= s@.len(),
            num_end(s@, i as int) == num_end(s@, j as int),
        decreases s@.len() - j,
    {
        j = j + 1;
    }
    j
}

fn scan_num_val(s: &Vec<u8>, i: usize, j: usize) -> (r: Option<u64>)
    requires
        i <= j <= s@.len(),
        forall|k: int| i <= k < j ==> is_digit(s@[k]),
    ensures
        match r {
            Some(v) => v as int == num_val(s@, i as int, j as int),
            None => num_val(s@, i as int, j as int) > u64::MAX,
        },
{
    proof {
        lemma_num_val_bounds(s@, i as int, j as int);
    }
    let mut acc: u64 = 0;
    let mut k = i;
    while k < j
        invariant
            i <= k <= j <= s@.len(),
            forall|t: int| i <= t < j ==> is_digit(s@[t]),
            acc as int == num_val(s@, i as int, k as int),
        decreases j - k,
    {
        let d: u64 = (s[k] - 48) as u64;
        proof {
            vstd::arithmetic::div_mod::lemma_fundamental_div_mod((u64::MAX - d) as int, 10);
        }
        if acc > (u64::MAX - d) / 10 {
            proof {
                lemma_num_val_bounds(s@, i as int, j as int);
                assert(num_val(s@, i as int, k as int + 1) > u64::MAX);
                assert(num_val(s@, i as int, j as int) >= num_val(s@, i as int, k as int + 1));
            }
            return None;
        }
        acc = acc * 10 + d;
        k = k + 1;
    }
    Some(acc)
}

fn marker_at_x(s: &Vec<u8>, k: usize) -> (r: Option<(QualKind, usize)>)
    requires
        k <= s@.len(),
    ensures
        match r {
            Some(qm) => marker_at(s@, k as int) == Some((qm.0, qm.1 as int)) && k < qm.1
                <= s@.len(),
            None => marker_at(s@, k as int) is None,
        },
{
    let n = s.len();
    if n - k >= 7 && s[k] == 112 && s[k + 1] == 114 && s[k + 2] == 101 && s[k + 3] == 118
        && s[k + 4] == 105 && s[k + 5] == 101 && s[k + 6] == 119 {
        return Some((QualKind::Pre, k + 7));
    }
    if n - k >= 5 && s[k] == 97 && s[k + 1] == 108 && s[k + 2] == 112 && s[k + 3] == 104
        && s[k + 4] == 97 {
        return Some((QualKind::Pre, k + 5));
    }
    if n - k >= 4 && s[k] == 98 && s[k + 1] == 101 && s[k + 2] == 116 && s[k + 3] == 97 {
        return Some((QualKind::Pre, k + 4));
    }
    if n - k >= 4 && s[k] == 112 && s[k + 1] == 111 && s[k + 2] == 115 && s[k + 3] == 116 {
        return Some((QualKind::Post, k + 4));
    }
    if n - k >= 3 && s[k] == 112 && s[k + 1] == 114 && s[k + 2] == 101 {
        return Some((QualKind::Pre, k + 3));
    }
    if n - k >= 3 && s[k] == 114 && s[k + 1] == 101 && s[k + 2] == 118 {
        return Some((QualKind::Post, k + 3));
    }
    if n - k >= 3 && s[k] == 100 && s[k + 1] == 101 && s[k + 2] == 118 {
        return Some((QualKind::Dev, k + 3));
    }
    if n - k >= 2 && s[k] == 114 && s[k + 1] == 99 {
        return Some((QualKind::Pre, k + 2));
    }
    if n - k >= 1 && s[k] == 97 {
        return Some((QualKind::Pre, k + 1));
    }
    if n - k >= 1 && s[k] == 98 {
        return Some((QualKind::Pre, k + 1));
    }
    if n - k >= 1 && s[k] == 99 {
        return Some((QualKind::Pre, k + 1));
    }
    if n - k >= 1 && s[k] == 114 {
        return Some((QualKind::Post, k + 1));
    }
    None
}

fn parse_release_x(s: &Vec<u8>, i: usize) -> (r: Option<(Vec<u64>, usize)>)
    requires
        i <= s@.len(),
    ensures
        match r {
            Some(p) => {
                &&& parse_release(s@, i as int) == Some((p.0@, p.1 as int))
                &&& i <= p.1 <= s@.len()
                &&& p.0@.len() >= 1
            },
            None => parse_release(s@, i as int) is None,
        },
    decreases s@.len() - i,
{
    if !(i < s.len() && is_digit_x(s[i])) {
        return None;
    }
    let j = scan_num_end(s, i);
    proof {
        lemma_num_end(s@, i as int);
    }
    match scan_num_val(s, i, j) {
        None => None,
        Some(v) => {
            if j < s.len() && s[j] == 46 && j + 1 < s.len() && is_digit_x(s[j + 1]) {
                match parse_release_x(s, j + 1) {
                    Some(p) => {
                        let (rest, k) = p;
                        let mut out = rest;
                        out.insert(0, v);
                        proof {
                            assert(out@ =~= seq![v] + p.0@);
                        }
                        Some((out, k))
                    },
                    None => None,
                }
            } else {
                let mut out: Vec<u64> = Vec::new();
                out.push(v);
                proof {
                    assert(out@ =~= seq![v]);
                }
                Some((out, j))
            }
        },
    }
}

fn parse_quals_x(
    s: &Vec<u8>,
    i: usize,
    pre: Option<u64>,
    post: Option<u64>,
    dev: Option<u64>,
) -> (r: Option<(Option<u64>, Option<u64>, Option<u64>)>)
    requires
        i <= s@.len(),
    ensures
        r == parse_quals(s@, i as int, pre, post, dev),
    decreases s@.len() - i,
{
    if i == s.len() {
        return Some((pre, post, dev));
    }
    let k = if s[i] == 46 {
        i + 1
    } else {
        i
    };
    match marker_at_x(s, k) {
        None => None,
        Some(qm) => {
            let (kind, m) = qm;
            let j = scan_num_end(s, m);
            proof {
                lemma_num_end(s@, m as int);
            }
            let v_opt = if j > m {
                scan_num_val(s, m, j)
            } else {
                Some(0u64)
            };
            match v_opt {
                None => None,
                Some(v) => match kind {
                    QualKind::Pre => {
                        if pre.is_some() {
                            None
                        } else {
                            parse_quals_x(s, j, Some(v), post, dev)
                        }
                    },
                    QualKind::Post => {
                        if post.is_some() {
                            None
                        } else {
                            parse_quals_x(s, j, pre, Some(v), dev)
                        }
                    },
                    QualKind::Dev => {
                        if dev.is_some() {
                            None
                        } else {
                            parse_quals_x(s, j, pre, post, Some(v))
                        }
                    },
                },
            }
        },
    }
}

/// The lowercased UTF-8 bytes of a string.
pub(crate) fn lower_bytes(text: &str) -> (r: Vec<u8>)
    ensures
        r@ == lower_seq(text.spec_bytes()),
{
    let bytes = text.as_bytes_vec();
    let mut s: Vec<u8> = Vec::new();
    let mut idx: usize = 0;
    while idx < bytes.len()
        invariant
            idx <= bytes@.len(),
            s@.len() == idx,
            forall|t: int| 0 <= t < idx ==> s@[t] == lower(bytes@[t]),
        decreases bytes@.len() - idx,
    {
        s.push(lower_byte(bytes[idx]));
        idx = idx + 1;
    }
    proof {
        assert(s@ =~= lower_seq(text.spec_bytes()));
    }
    s
}

/// The version grammar applied to already-lowercased bytes.
pub(crate) fn parse_lowered(s: &Vec<u8>) -> (r: Option<Version>)
    ensures
        match r {
            Some(v) => v.wf() && parse_version(s@) == Some(v@),
            None => parse_version(s@) is None,
        },
{
    {
        let e_end = scan_num_end(s, 0);
        let has_epoch = 0 < e_end && e_end < s.len() && s[e_end] == 33;
        let mut epoch: u64 = 0;
        if has_epoch {
            proof {
                lemma_num_end(s@, 0);
            }
            match scan_num_val(s, 0, e_end) {
                Some(v) => {
                    epoch = v;
                },
                None => {
                    return None;
                },
            }
        }
        let rel_start = if has_epoch {
            e_end + 1
        } else {
            0
        };
        match parse_release_x(s, rel_start) {
            None => None,
            Some(p) => {
                let (release, qual_start) = p;
                match parse_quals_x(s, qual_start, None, None, None) {
                    None => None,
                    Some(q) => {
                        let (pre, post, dev) = q;
                        Some(Version { epoch, release, pre, post, dev })
                    },
                }
            },
        }
    }
}

impl Version {
    /// Parse version text. Succeeds exactly on the recognized grammar,
    /// case-insensitively; the error carries the offending text.
    pub fn new(text: &str) -> (r: Result<Version, ParseError>)
        ensures
            match r {
                Ok(v) => v.wf() && parse_of(text.spec_bytes()) == Some(v@),
                Err(e) => parse_of(text.spec_bytes()) is None && e.text@ == text@,
            },
    {
        let s = lower_bytes(text);
        match parse_lowered(&s) {
            Some(v) => Ok(v),
            None => Err(ParseError { text: text.to_owned() }),
        }
    }
}

/// Decimal digits of `n`, most significant first.
pub open spec fn dec_digits(n: nat) -> Seq<u8>
    decreases n,
    via dec_digits_decreases
{
    if n < 10 {
        seq![(48 + n) as u8]
    } else {
        dec_digits(n / 10) + seq![(48 + n % 10) as u8]
    }
}

#[via_fn]
proof fn dec_digits_decreases(n: nat) {
    if n >= 10 {
        vstd::arithmetic::div_mod::lemma_fundamental_div_mod(n as int, 10);
    }
}

/// The rendered segments after the first: a dot before each.
pub open spec fn render_tail(r: Seq<u64>, i: int) -> Seq<u8>
    decreases r.len() - i,
{
    if 0 <= i < r.len() {
        seq![46u8] + dec_digits(r[i] as nat) + render_tail(r, i + 1)
    } else {
        Seq::empty()
    }
}

/// The rendered epoch: its digits and `!`, or nothing when it is zero.
pub open spec fn epoch_bytes(epoch: u64) -> Seq<u8> {
    if epoch != 0 {
        dec_digits(epoch as nat) + seq![33u8]
    } else {
        Seq::<u8>::empty()
    }
}

/// The rendered release: its segments, dot-separated.
pub open spec fn release_bytes(r: Seq<u64>) -> Seq<u8> {
    if r.len() == 0 {
        Seq::<u8>::empty()
    } else {
        dec_digits(r[0] as nat) + render_tail(r, 1)
    }
}

/// The rendered pre-release: `rc` and its ordinal, or nothing.
pub open spec fn pre_bytes(pre: Option<u64>) -> Seq<u8> {
    match pre {
        Some(n) => seq![114u8, 99] + dec_digits(n as nat),
        None => Seq::<u8>::empty(),
    }
}

/// The rendered post-release: `.post` and its ordinal, or nothing.
pub open spec fn post_bytes(post: Option<u64>) -> Seq<u8> {
    match post {
        Some(n) => seq![46u8, 112, 111, 115, 116] + dec_digits(n as nat),
        None => Seq::<u8>::empty(),
    }
}

/// The rendered dev-release: `.dev` and its ordinal, or nothing.
pub open spec fn dev_bytes(dev: Option<u64>) -> Seq<u8> {
    match dev {
        Some(n) => seq![46u8, 100, 101, 118] + dec_digits(n as nat),
        None => Seq::<u8>::empty(),
    }
}

/// The canonical text of a comparison key: epoch only when nonzero, the
/// release segments dot-separated, a present pre-release as `rc`, post as
/// `.post`, dev as `.dev`, each with its ordinal.
pub open spec fn spec_render(k: VersionKey) -> Seq<u8> {
    epoch_bytes(k.epoch) + release_bytes(k.release) + pre_bytes(k.pre) + post_bytes(k.post)
        + dev_bytes(k.dev)
}

proof fn lemma_dec_digits_ascii(n: nat)
    ensures
        forall|i: int| 0 <= i < dec_digits(n).len() ==> 48 <= #[trigger] dec_digits(n)[i] <= 57,
    decreases n,
{
    if n < 10 {
        assert(dec_digits(n)[0] == (48 + n) as u8);
    } else {
        vstd::arithmetic::div_mod::lemma_fundamental_div_mod(n as int, 10);
        lemma_dec_digits_ascii(n / 10);
        let d = dec_digits(n);
        let h = dec_digits(n / 10);
        assert forall|i: int| 0 <= i < d.len() implies 48 <= #[trigger] d[i] <= 57 by {
            if i < h.len() {
                assert(d[i] == h[i]);
            } else {
                assert(d[i] == (48 + n % 10) as u8);
            }
        }
    }
}

proof fn lemma_render_tail_ascii(r: Seq<u64>, i: int)
    ensures
        forall|t: int|
            0 <= t < render_tail(r, i).len() ==> #[trigger] render_tail(r, i)[t] < 128,
    decreases r.len() - i,
{
    if 0 <= i < r.len() {
        lemma_dec_digits_ascii(r[i] as nat);
        lemma_render_tail_ascii(r, i + 1);
        let d = dec_digits(r[i] as nat);
        let rest = render_tail(r, i + 1);
        let whole = render_tail(r, i);
        assert forall|t: int| 0 <= t < whole.len() implies #[trigger] whole[t] < 128 by {
            if t == 0 {
                assert(whole[t] == 46u8);
            } else if t < 1 + d.len() {
                assert(whole[t] == d[t - 1]);
            } else {
                assert(whole[t] == rest[t - 1 - d.len()]);
            }
        }
    }
}

proof fn lemma_render_ascii(k: VersionKey)
    ensures
        forall|i: int| 0 <= i < spec_render(k).len() ==> #[trigger] spec_render(k)[i] < 128,
{
    lemma_dec_digits_ascii(k.epoch as nat);
    if k.release.len() > 0 {
        lemma_dec_digits_ascii(k.release[0] as nat);
        lemma_render_tail_ascii(k.release, 1);
    }
    match k.pre {
        Some(n) => lemma_dec_digits_ascii(n as nat),
        None => {},
    }
    match k.post {
        Some(n) => lemma_dec_digits_ascii(n as nat),
        None => {},
    }
    match k.dev {
        Some(n) => lemma_dec_digits_ascii(n as nat),
        None => {},
    }
}

fn push_dec(out: &mut Vec<u8>, n: u64)
    ensures
        final(out)@ == old(out)@ + dec_digits(n as nat),
    decreases n,
{
    if n >= 10 {
        proof {
            vstd::arithmetic::div_mod::lemma_fundamental_div_mod(n as int, 10);
        }
        push_dec(out, n / 10);
        out.push(48 + (n % 10) as u8);
        proof {
            assert(out@ =~= old(out)@ + dec_digits(n as nat));
        }
    } else {
        out.push(48 + n as u8);
        proof {
            assert(out@ =~= old(out)@ + dec_digits(n as nat));
        }
    }
}

fn push_release_tail(out: &mut Vec<u8>, r: &Vec<u64>, i: usize)
    requires
        i <= r@.len(),
    ensures
        final(out)@ == old(out)@ + render_tail(r@, i as int),
    decreases r@.len() - i,
{
    if i < r.len() {
        out.push(46);
        push_dec(out, r[i]);
        push_release_tail(out, r, i + 1);
        proof {
            assert(out@ =~= old(out)@ + render_tail(r@, i as int));
        }
    } else {
        proof {
            assert(out@ =~= old(out)@ + render_tail(r@, i as int));
        }
    }
}

/// Relies on String::from_utf8: a vector of ASCII bytes becomes the string
/// whose characters are exactly those bytes.
#[verifier::external_body]
pub(crate) fn ascii_to_string(v: Vec<u8>) -> (r: String)
    requires
        forall|i: int| 0 <= i < v@.len() ==> v@[i] < 128,
    ensures
        r@ == v@.map_values(|b: u8| b as char),
{
    String::from_utf8(v).unwrap_or_default()
}

impl Version {
    /// Render the canonical text of this version: reparsing it yields an
    /// equal comparison key, though the spelling of qualifiers may differ
    /// from the original input.
    #[verifier::rlimit(100)]
    pub fn to_text(&self) -> (r: String)
        requires
            self.wf(),
        ensures
            r@ == spec_render(self@).map_values(|b: u8| b as char),
    {
        let mut out: Vec<u8> = Vec::new();
        if self.epoch != 0 {
            push_dec(&mut out, self.epoch);
            out.push(33);
        }
        proof {
            assert(out@ =~= epoch_bytes(self@.epoch));
        }
        let ghost after_epoch = out@;
        push_dec(&mut out, self.release[0]);
        push_release_tail(&mut out, &self.release, 1);
        proof {
            assert(out@ =~= after_epoch + release_bytes(self@.release));
        }
        let ghost after_release = out@;
        match &self.pre {
            Some(n) => {
                out.push(114);
                out.push(99);
                push_dec(&mut out, *n);
            },
            None => {},
        }
        proof {
            assert(out@ =~= after_release + pre_bytes(self@.pre));
        }
        let ghost after_pre = out@;
        match &self.post {
            Some(n) => {
                out.push(46);
                out.push(112);
                out.push(111);
                out.push(115);
                out.push(116);
                push_dec(&mut out, *n);
            },
            None => {},
        }
        proof {
            assert(out@ =~= after_pre + post_bytes(self@.post));
        }
        let ghost after_post = out@;
        match &self.dev {
            Some(n) => {
                out.push(46);
                out.push(100);
                out.push(101);
                out.push(118);
                push_dec(&mut out, *n);
            },
            None => {},
        }
        proof {
            assert(out@ =~= after_post + dev_bytes(self@.dev));
            assert(out@ =~= spec_render(self@));
            lemma_render_ascii(self@);
        }
        ascii_to_string(out)
    }
}

/// The literal `t` stands in `s` at position `i`.
pub open spec fn seq_at(s: Seq<u8>, i: int, t: Seq<u8>) -> bool {
    &&& 0 <= i
    &&& i + t.len() <= s.len()
    &&& forall|j: int| 0 <= j < t.len() ==> s[i + j] == #[trigger] t[j]
}

proof fn lemma_num_end_exact(s: Seq<u8>, i: int, j: int)
    requires
        0 <= i <= j <= s.len(),
        forall|t: int| i <= t < j ==> is_digit(s[t]),
        j == s.len() || !is_digit(s[j]),
    ensures
        num_end(s, i) == j,
    decreases j - i,
{
    if i < j {
        lemma_num_end_exact(s, i + 1, j);
    }
}

proof fn lemma_num_val_of_dec(s: Seq<u8>, i: int, n: nat)
    requires
        seq_at(s, i, dec_digits(n)),
    ensures
        num_val(s, i, i + dec_digits(n).len()) == n,
    decreases n,
{
    let d = dec_digits(n);
    if n < 10 {
        assert(d.len() == 1);
        assert(d[0] == (48 + n) as u8);
        assert(s[i] == d[0]);
        assert(num_val(s, i, i + 1) == num_val(s, i, i) * 10 + (s[i] - 48));
        assert(num_val(s, i, i) == 0);
    } else {
        vstd::arithmetic::div_mod::lemma_fundamental_div_mod(n as int, 10);
        let h = dec_digits(n / 10);
        assert(seq_at(s, i, h)) by {
            assert forall|j: int| 0 <= j < h.len() implies s[i + j] == #[trigger] h[j] by {
                assert(d[j] == h[j]);
                assert(s[i + j] == d[j]);
            }
        }
        lemma_num_val_of_dec(s, i, n / 10);
        assert(h.len() == d.len() - 1);
        assert(d[d.len() - 1] == (48 + n % 10) as u8);
        assert(s[i + d.len() - 1] == d[d.len() - 1]);
        assert(num_val(s, i, i + d.len()) == num_val(s, i, i + d.len() - 1) * 10 + (s[i + d.len()
            - 1] - 48));
    }
}

proof fn lemma_number_region(s: Seq<u8>, i: int, n: nat)
    requires
        seq_at(s, i, dec_digits(n)),
        i + dec_digits(n).len() == s.len() || !is_digit(s[i + dec_digits(n).len()]),
    ensures
        num_end(s, i) == i + dec_digits(n).len(),
        num_end(s, i) > i,
        num_val(s, i, num_end(s, i)) == n,
{
    let d = dec_digits(n);
    lemma_dec_digits_ascii(n);
    assert forall|t: int| i <= t < i + d.len() implies is_digit(s[t]) by {
        assert(s[t] == d[t - i]);
        assert(48 <= d[t - i] <= 57);
    }
    lemma_num_end_exact(s, i, i + d.len());
    lemma_num_val_of_dec(s, i, n);
}

proof fn lemma_parse_release_render(s: Seq<u8>, r: Seq<u64>, p: int, pos: int)
    requires
        0 <= p < r.len(),
        seq_at(s, pos, dec_digits(r[p] as nat) + render_tail(r, p + 1)),
        ({
            let e = pos + dec_digits(r[p] as nat).len() + render_tail(r, p + 1).len();
            e == s.len() || (!is_digit(s[e]) && (s[e] != 46 || e + 1 == s.len() || !is_digit(
                s[e + 1],
            )))
        }),
    ensures
        parse_release(s, pos) == Some(
            (
                r.subrange(p, r.len() as int),
                pos + dec_digits(r[p] as nat).len() + render_tail(r, p + 1).len(),
            ),
        ),
    decreases r.len() - p,
{
    let d = dec_digits(r[p] as nat);
    let tail = render_tail(r, p + 1);
    let e = pos + d.len() + tail.len();
    lemma_dec_digits_ascii(r[p] as nat);
    assert(seq_at(s, pos, d)) by {
        assert forall|j: int| 0 <= j < d.len() implies s[pos + j] == #[trigger] d[j] by {
            assert((d + tail)[j] == d[j]);
            assert(s[pos + j] == (d + tail)[j]);
        }
    }
    assert(s[pos] == d[0]);
    if p + 1 < r.len() {
        let d2 = dec_digits(r[p + 1] as nat);
        let tail2 = render_tail(r, p + 2);
        assert(tail == seq![46u8] + d2 + tail2);
        lemma_dec_digits_ascii(r[p + 1] as nat);
        assert(tail[0] == 46u8);
        assert(s[pos + d.len()] == (d + tail)[d.len() as int]);
        assert(s[pos + d.len()] == 46u8);
        assert(tail[1] == d2[0]);
        assert(s[pos + d.len() + 1] == (d + tail)[d.len() as int + 1]);
        assert((d + tail)[d.len() as int + 1] == tail[1]);
        assert(s[pos + d.len() + 1] == d2[0]);
        assert(48 <= d2[0] <= 57);
        lemma_number_region(s, pos, r[p] as nat);
        let pos2 = pos + d.len() + 1;
        assert(seq_at(s, pos2, d2 + tail2)) by {
            assert forall|t: int| 0 <= t < (d2 + tail2).len() implies s[pos2 + t] == #[trigger] (d2
                + tail2)[t] by {
                assert(tail[1 + t] == (d2 + tail2)[t]);
                assert(s[pos + d.len() + (1 + t)] == (d + tail)[d.len() + 1 + t]);
            }
        }
        lemma_parse_release_render(s, r, p + 1, pos2);
        assert(r.subrange(p, r.len() as int) =~= seq![r[p]] + r.subrange(p + 1, r.len() as int));
    } else {
        assert(tail.len() == 0);
        lemma_number_region(s, pos, r[p] as nat);
        assert(r.subrange(p, r.len() as int) =~= seq![r[p]]);
    }
}

proof fn lemma_parse_quals_dev(
    s: Seq<u8>,
    dev: Option<u64>,
    pos: int,
    pre_acc: Option<u64>,
    post_acc: Option<u64>,
)
    requires
        seq_at(s, pos, dev_bytes(dev)),
        pos + dev_bytes(dev).len() == s.len(),
    ensures
        parse_quals(s, pos, pre_acc, post_acc, None) == Some((pre_acc, post_acc, dev)),
{
    match dev {
        None => {
            assert(pos == s.len());
        },
        Some(n) => {
            let b = dev_bytes(dev);
            let d = dec_digits(n as nat);
            assert(b == seq![46u8, 100, 101, 118] + d);
            assert(b[0] == 46u8 && b[1] == 100u8 && b[2] == 101u8 && b[3] == 118u8);
            assert(s[pos] == b[0] && s[pos + 1] == b[1] && s[pos + 2] == b[2] && s[pos + 3]
                == b[3]);
            let k = pos + 1;
            assert(marker_at(s, k) == Some((QualKind::Dev, k + 3)));
            let m = k + 3;
            assert(seq_at(s, m, d)) by {
                assert forall|j: int| 0 <= j < d.len() implies s[m + j] == #[trigger] d[j] by {
                    assert(b[4 + j] == d[j]);
                    assert(s[pos + (4 + j)] == b[4 + j]);
                }
            }
            lemma_number_region(s, m, n as nat);
            assert(parse_quals(s, s.len() as int, pre_acc, post_acc, Some(n)) == Some(
                (pre_acc, post_acc, Some(n)),
            ));
        },
    }
}

proof fn lemma_parse_quals_post(
    s: Seq<u8>,
    post: Option<u64>,
    dev: Option<u64>,
    pos: int,
    pre_acc: Option<u64>,
)
    requires
        seq_at(s, pos, post_bytes(post) + dev_bytes(dev)),
        pos + post_bytes(post).len() + dev_bytes(dev).len() == s.len(),
    ensures
        parse_quals(s, pos, pre_acc, None, None) == Some((pre_acc, post, dev)),
{
    let pb = post_bytes(post);
    let db = dev_bytes(dev);
    assert(seq_at(s, pos + pb.len(), db)) by {
        assert forall|j: int| 0 <= j < db.len() implies s[pos + pb.len() + j] == #[trigger] db[j]
            by {
            assert((pb + db)[pb.len() + j] == db[j]);
            assert(s[pos + (pb.len() + j)] == (pb + db)[pb.len() + j]);
        }
    }
    match post {
        None => {
            assert(pb.len() == 0);
            lemma_parse_quals_dev(s, dev, pos, pre_acc, None);
        },
        Some(n) => {
            let d = dec_digits(n as nat);
            assert(pb == seq![46u8, 112, 111, 115, 116] + d);
            assert(pb[0] == 46u8 && pb[1] == 112u8 && pb[2] == 111u8 && pb[3] == 115u8 && pb[4]
                == 116u8);
            assert forall|j: int| 0 <= j < pb.len() implies s[pos + j] == #[trigger] pb[j] by {
                assert((pb + db)[j] == pb[j]);
            }
            assert(s[pos] == 46u8 && s[pos + 1] == 112u8 && s[pos + 2] == 111u8 && s[pos + 3]
                == 115u8 && s[pos + 4] == 116u8);
            let k = pos + 1;
            assert(marker_at(s, k) == Some((QualKind::Post, k + 4)));
            let m = k + 4;
            assert(seq_at(s, m, d)) by {
                assert forall|j: int| 0 <= j < d.len() implies s[m + j] == #[trigger] d[j] by {
                    assert(pb[5 + j] == d[j]);
                    assert(s[pos + (5 + j)] == pb[5 + j]);
                }
            }
            // the byte after the ordinal is the start of the dev part or the end
            if db.len() > 0 {
                assert(db[0] == 46u8);
                assert(s[m + d.len()] == 46u8);
            }
            lemma_number_region(s, m, n as nat);
            lemma_parse_quals_dev(s, dev, m + d.len(), pre_acc, Some(n));
        },
    }
}

proof fn lemma_parse_quals_render(
    s: Seq<u8>,
    pre: Option<u64>,
    post: Option<u64>,
    dev: Option<u64>,
    pos: int,
)
    requires
        seq_at(s, pos, pre_bytes(pre) + post_bytes(post) + dev_bytes(dev)),
        pos + pre_bytes(pre).len() + post_bytes(post).len() + dev_bytes(dev).len() == s.len(),
    ensures
        parse_quals(s, pos, None, None, None) == Some((pre, post, dev)),
{
    let rb = pre_bytes(pre);
    let pb = post_bytes(post);
    let db = dev_bytes(dev);
    assert(seq_at(s, pos + rb.len(), pb + db)) by {
        assert forall|j: int| 0 <= j < (pb + db).len() implies s[pos + rb.len() + j] == #[trigger] (
        pb + db)[j] by {
            assert((rb + pb + db)[rb.len() + j] == (pb + db)[j]);
            assert(s[pos + (rb.len() + j)] == (rb + pb + db)[rb.len() + j]);
        }
    }
    match pre {
        None => {
            assert(rb.len() == 0);
            lemma_parse_quals_post(s, post, dev, pos, None);
        },
        Some(n) => {
            let d = dec_digits(n as nat);
            assert(rb == seq![114u8, 99] + d);
            assert(rb[0] == 114u8 && rb[1] == 99u8);
            assert forall|j: int| 0 <= j < rb.len() implies s[pos + j] == #[trigger] rb[j] by {
                assert((rb + pb + db)[j] == rb[j]);
            }
            assert(s[pos] == 114u8 && s[pos + 1] == 99u8);
            assert(marker_at(s, pos) == Some((QualKind::Pre, pos + 2)));
            let m = pos + 2;
            assert(seq_at(s, m, d)) by {
                assert forall|j: int| 0 <= j < d.len() implies s[m + j] == #[trigger] d[j] by {
                    assert(rb[2 + j] == d[j]);
                    assert(s[pos + (2 + j)] == rb[2 + j]);
                }
            }
            // the byte after the ordinal begins the post or dev part, or ends
            if pb.len() > 0 {
                assert(pb[0] == 46u8);
                assert(s[m + d.len()] == (pb + db)[0]);
            } else if db.len() > 0 {
                assert(db[0] == 46u8);
                assert(s[m + d.len()] == (pb + db)[0]);
            }
            lemma_number_region(s, m, n as nat);
            lemma_parse_quals_post(s, post, dev, m + d.len(), Some(n));
        },
    }
}

proof fn lemma_render_tail_not_upper(r: Seq<u64>, i: int)
    ensures
        forall|t: int|
            0 <= t < render_tail(r, i).len() ==> !(65 <= #[trigger] render_tail(r, i)[t] <= 90),
    decreases r.len() - i,
{
    if 0 <= i < r.len() {
        lemma_dec_digits_ascii(r[i] as nat);
        lemma_render_tail_not_upper(r, i + 1);
        let d = dec_digits(r[i] as nat);
        let rest = render_tail(r, i + 1);
        let whole = render_tail(r, i);
        assert forall|t: int| 0 <= t < whole.len() implies !(65 <= #[trigger] whole[t] <= 90) by {
            if t == 0 {
                assert(whole[t] == 46u8);
            } else if t < 1 + d.len() {
                assert(whole[t] == d[t - 1]);
            } else {
                assert(whole[t] == rest[t - 1 - d.len()]);
            }
        }
    }
}

proof fn lemma_render_not_upper(k: VersionKey)
    ensures
        forall|i: int|
            0 <= i < spec_render(k).len() ==> !(65 <= #[trigger] spec_render(k)[i] <= 90),
{
    lemma_dec_digits_ascii(k.epoch as nat);
    if k.release.len() > 0 {
        lemma_dec_digits_ascii(k.release[0] as nat);
        lemma_render_tail_not_upper(k.release, 1);
    }
    match k.pre {
        Some(n) => lemma_dec_digits_ascii(n as nat),
        None => {},
    }
    match k.post {
        Some(n) => lemma_dec_digits_ascii(n as nat),
        None => {},
    }
    match k.dev {
        Some(n) => lemma_dec_digits_ascii(n as nat),
        None => {},
    }
}

/// Round trip: the canonical text of a comparison key parses, and parses
/// back to exactly that key; lowercasing does not disturb it.
#[verifier::rlimit(100)]
pub proof fn lemma_render_round_trip(k: VersionKey)
    requires
        k.release.len() >= 1,
    ensures
        parse_version(spec_render(k)) == Some(k),
        parse_of(spec_render(k)) == Some(k),
{
    let s = spec_render(k);
    let eb = epoch_bytes(k.epoch);
    let rl = release_bytes(k.release);
    let qb = pre_bytes(k.pre) + post_bytes(k.post) + dev_bytes(k.dev);
    let o1 = eb.len() as int;
    let o2 = o1 + rl.len();
    assert(s == eb + rl + pre_bytes(k.pre) + post_bytes(k.post) + dev_bytes(k.dev));
    assert(s.len() == o2 + qb.len());
    assert(seq_at(s, 0, eb)) by {
        assert forall|j: int| 0 <= j < eb.len() implies s[j] == #[trigger] eb[j] by {
            assert(s[j] == (eb + rl + pre_bytes(k.pre) + post_bytes(k.post) + dev_bytes(k.dev))[j]);
        }
    }
    assert(seq_at(s, o1, rl)) by {
        assert forall|j: int| 0 <= j < rl.len() implies s[o1 + j] == #[trigger] rl[j] by {
            assert(s[o1 + j] == (eb + rl + pre_bytes(k.pre) + post_bytes(k.post) + dev_bytes(
                k.dev,
            ))[o1 + j]);
        }
    }
    assert(seq_at(s, o2, qb)) by {
        assert forall|j: int| 0 <= j < qb.len() implies s[o2 + j] == #[trigger] qb[j] by {
            assert(qb[j] == (pre_bytes(k.pre) + post_bytes(k.post) + dev_bytes(k.dev))[j]);
            assert(s[o2 + j] == (eb + rl + pre_bytes(k.pre) + post_bytes(k.post) + dev_bytes(
                k.dev,
            ))[o2 + j]);
        }
    }
    // the first byte of the qualifier region is a marker start, never a
    // digit and never `!`
    if qb.len() > 0 {
        if pre_bytes(k.pre).len() > 0 {
            assert(pre_bytes(k.pre)[0] == 114u8);
            assert(qb[0] == 114u8);
        } else if post_bytes(k.post).len() > 0 {
            assert(qb[0] == (post_bytes(k.post) + dev_bytes(k.dev))[0]);
            assert(qb[0] == 46u8);
            assert(qb[1] == (post_bytes(k.post) + dev_bytes(k.dev))[1]);
            assert(qb[1] == 112u8);
        } else {
            assert(qb[0] == (post_bytes(k.post) + dev_bytes(k.dev))[0]);
            assert(qb[0] == dev_bytes(k.dev)[0]);
            assert(qb[0] == 46u8);
            assert(qb[1] == dev_bytes(k.dev)[1]);
            assert(qb[1] == 100u8);
        }
        assert(s[o2] == qb[0]);
    }
    // the release region parses back to the release segments
    let d0 = dec_digits(k.release[0] as nat);
    let t0 = render_tail(k.release, 1);
    assert(rl == d0 + t0);
    assert(seq_at(s, o1, d0 + t0));
    assert(o1 + d0.len() + t0.len() == o2);
    if qb.len() > 0 {
        assert(!is_digit(s[o2]));
        if s[o2] == 46 {
            assert(s[o2 + 1] == qb[1]);
            assert(!is_digit(s[o2 + 1]));
        }
    }
    lemma_parse_release_render(s, k.release, 0, o1);
    assert(k.release.subrange(0, k.release.len() as int) =~= k.release);
    assert(parse_release(s, o1) == Some((k.release, o2)));
    // the qualifier region parses back to the three options
    lemma_parse_quals_render(s, k.pre, k.post, k.dev, o2);
    // the epoch is recognized exactly when it was rendered
    lemma_dec_digits_ascii(k.epoch as nat);
    if k.epoch != 0 {
        let de = dec_digits(k.epoch as nat);
        assert(eb == de + seq![33u8]);
        assert(seq_at(s, 0, de)) by {
            assert forall|j: int| 0 <= j < de.len() implies s[j] == #[trigger] de[j] by {
                assert(eb[j] == de[j]);
                assert(s[j] == eb[j]);
            }
        }
        assert(eb[de.len() as int] == 33u8);
        assert(s[de.len() as int] == 33u8);
        lemma_number_region(s, 0, k.epoch as nat);
        assert(num_end(s, 0) == de.len());
    } else {
        assert(o1 == 0);
        lemma_dec_digits_ascii(k.release[0] as nat);
        assert(seq_at(s, 0, d0)) by {
            assert forall|j: int| 0 <= j < d0.len() implies s[j] == #[trigger] d0[j] by {
                assert(rl[j] == d0[j]);
                assert(s[o1 + j] == rl[j]);
            }
        }
        // after the first number comes a dot, a marker, or the end
        if t0.len() > 0 {
            assert(t0[0] == 46u8);
            assert(s[d0.len() as int] == rl[d0.len() as int]);
            assert(s[d0.len() as int] == 46u8);
        } else if qb.len() > 0 {
            assert(d0.len() == o2);
        }
        lemma_number_region(s, 0, k.release[0] as nat);
        assert(num_end(s, 0) == d0.len());
        assert(num_end(s, 0) == s.len() || s[num_end(s, 0)] != 33u8);
    }
    // lowercasing fixes every rendered byte
    lemma_render_not_upper(k);
    assert(lower_seq(s) =~= s) by {
        assert forall|i: int| 0 <= i < s.len() implies lower_seq(s)[i] == s[i] by {
            assert(!(65 <= s[i] <= 90));
        }
    }
}

/// Round trip through the string type: the characters `to_text` builds
/// encode back, as UTF-8, to the rendered bytes, so parsing the rendered
/// text yields exactly the comparison key it came from.
pub proof fn lemma_text_round_trip(k: VersionKey)
    requires
        k.release.len() >= 1,
    ensures
        parse_of(
            vstd::utf8::encode_utf8(spec_render(k).map_values(|b: u8| b as char)),
        ) == Some(k),
{
    let s = spec_render(k);
    let chars = s.map_values(|b: u8| b as char);
    lemma_render_ascii(k);
    assert(vstd::utf8::is_ascii_chars(chars)) by {
        assert forall|i: int| 0 <= i < chars.len() implies '\0' <= #[trigger] chars[i] <= '\u{7f}'
            by {
            assert(chars[i] == s[i] as char);
            assert(s[i] < 128);
        }
    }
    vstd::utf8::is_ascii_chars_encode_utf8(chars);
    assert(vstd::utf8::encode_utf8(chars) =~= s) by {
        assert forall|i: int| 0 <= i < s.len() implies vstd::utf8::encode_utf8(chars)[i] == s[i]
            by {
            assert(vstd::utf8::encode_utf8(chars)[i] == chars[i] as u8);
            assert(chars[i] == s[i] as char);
        }
    }
    lemma_render_round_trip(k);
}

} // verus!
