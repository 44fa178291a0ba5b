//! The version model: a PEP 440-style version value with epoch, release
//! segments and pre/post/dev qualifiers, ordered by a normalized comparison
//! key in which trailing zeros of the release are insignificant.

use vstd::prelude::*;
use core::cmp::Ordering;

verus! {

/// A parsed version. `release` always holds at least one segment (`wf`).
/// Ordering and equality go through the comparison key ([`key_lt`],
/// [`key_eq`]), never through the raw segments, so `1.0` equals `1`.
#[derive(Debug)]
pub struct Version {
    pub epoch: u64,
    pub release: Vec<u64>,
    pub pre: Option<u64>,
    pub post: Option<u64>,
    pub dev: Option<u64>,
}

/// The mathematical value of a version: the fields with the release as a
/// sequence. All ordering specifications are stated over this key.
pub ghost struct VersionKey {
    pub epoch: u64,
    pub release: Seq<u64>,
    pub pre: Option<u64>,
    pub post: Option<u64>,
    pub dev: Option<u64>,
}

impl View for Version {
    type V = VersionKey;

    open spec fn view(&self) -> VersionKey {
        VersionKey {
            epoch: self.epoch,
            release: self.release@,
            pre: self.pre,
            post: self.post,
            dev: self.dev,
        }
    }
}

impl Version {
    /// Structural invariant: the release sequence is never empty.
    pub open spec fn wf(self) -> bool {
        self.release@.len() >= 1
    }
}

/// The release segment at position `i`, reading past the end as zero, so
/// that `1.0` and `1` present the same infinite segment stream.
pub open spec fn rel_at(r: Seq<u64>, i: int) -> u64 {
    if 0 <= i < r.len() {
        r[i]
    } else {
        0u64
    }
}

/// Two releases are equal when every (zero-extended) segment agrees.
pub open spec fn rel_eq(a: Seq<u64>, b: Seq<u64>) -> bool {
    forall|i: int| #[trigger] rel_at(a, i) == rel_at(b, i)
}

/// `a` is below `b` with the first difference at position `i`.
pub open spec fn rel_lt_at(a: Seq<u64>, b: Seq<u64>, i: int) -> bool {
    &&& 0 <= i
    &&& rel_at(a, i) < rel_at(b, i)
    &&& forall|j: int| 0 <= j < i ==> rel_at(a, j) == rel_at(b, j)
}

/// Lexicographic order on zero-extended releases.
pub open spec fn rel_lt(a: Seq<u64>, b: Seq<u64>) -> bool {
    exists|i: int| rel_lt_at(a, b, i)
}

/// One past the largest representable ordinal: the rank of a qualifier
/// whose absence sorts after every present ordinal.
pub open spec fn rank_absent_high() -> int {
    0x1_0000_0000_0000_0000
}

/// Rank of the pre-release position. A present ordinal ranks as itself; an
/// absent one ranks below everything when only a dev ordinal is present
/// (a dev build precedes all pre-releases) and above everything otherwise
/// (a final or post release follows all its pre-releases).
pub open spec fn pre_rank(k: VersionKey) -> int {
    match k.pre {
        Some(n) => n as int,
        None => if k.post is None && k.dev is Some {
            -1
        } else {
            rank_absent_high()
        },
    }
}

/// Rank of the post-release position: absence sorts before presence.
pub open spec fn post_rank(k: VersionKey) -> int {
    match k.post {
        Some(n) => n as int,
        None => -1,
    }
}

/// Rank of the dev-release position: absence sorts after presence.
pub open spec fn dev_rank(k: VersionKey) -> int {
    match k.dev {
        Some(n) => n as int,
        None => rank_absent_high(),
    }
}

/// The strict total order on comparison keys: epoch, then release, then the
/// pre/post/dev ranks, lexicographically.
pub open spec fn key_lt(a: VersionKey, b: VersionKey) -> bool {
    if a.epoch != b.epoch {
        a.epoch < b.epoch
    } else if !rel_eq(a.release, b.release) {
        rel_lt(a.release, b.release)
    } else if pre_rank(a) != pre_rank(b) {
        pre_rank(a) < pre_rank(b)
    } else if post_rank(a) != post_rank(b) {
        post_rank(a) < post_rank(b)
    } else {
        dev_rank(a) < dev_rank(b)
    }
}

/// Equality of comparison keys; `1.0` and `1` are equal here.
pub open spec fn key_eq(a: VersionKey, b: VersionKey) -> bool {
    &&& a.epoch == b.epoch
    &&& rel_eq(a.release, b.release)
    &&& pre_rank(a) == pre_rank(b)
    &&& post_rank(a) == post_rank(b)
    &&& dev_rank(a) == dev_rank(b)
}

/// Non-strict order on comparison keys.
pub open spec fn key_le(a: VersionKey, b: VersionKey) -> bool {
    key_lt(a, b) || key_eq(a, b)
}

proof fn lemma_rel_lt_not_eq(a: Seq<u64>, b: Seq<u64>)
    requires
        rel_lt(a, b),
    ensures
        !rel_eq(a, b),
{
    let i = choose|i: int| rel_lt_at(a, b, i);
    assert(rel_at(a, i) < rel_at(b, i));
}

proof fn lemma_rel_asym(a: Seq<u64>, b: Seq<u64>)
    requires
        rel_lt(a, b),
    ensures
        !rel_lt(b, a),
{
    if rel_lt(b, a) {
        let i = choose|i: int| rel_lt_at(a, b, i);
        let j = choose|j: int| rel_lt_at(b, a, j);
        if i < j {
            assert(rel_at(b, i) == rel_at(a, i));
        } else if j < i {
            assert(rel_at(a, j) == rel_at(b, j));
        }
    }
}

proof fn lemma_rel_total_from(a: Seq<u64>, b: Seq<u64>, i: int)
    requires
        0 <= i,
        forall|j: int| 0 <= j < i ==> rel_at(a, j) == rel_at(b, j),
    ensures
        rel_eq(a, b) || rel_lt(a, b) || rel_lt(b, a),
    decreases (if i <= a.len() + b.len() { a.len() + b.len() + 1 - i } else { 0 }),
{
    if i > a.len() + b.len() {
        assert forall|k: int| #[trigger] rel_at(a, k) == rel_at(b, k) by {
            if 0 <= k < i {
            } else {
                assert(rel_at(a, k) == 0u64);
                assert(rel_at(b, k) == 0u64);
            }
        }
    } else if rel_at(a, i) < rel_at(b, i) {
        assert(rel_lt_at(a, b, i));
    } else if rel_at(b, i) < rel_at(a, i) {
        assert(rel_lt_at(b, a, i));
    } else {
        lemma_rel_total_from(a, b, i + 1);
    }
}

proof fn lemma_rel_total(a: Seq<u64>, b: Seq<u64>)
    ensures
        rel_eq(a, b) || rel_lt(a, b) || rel_lt(b, a),
{
    lemma_rel_total_from(a, b, 0);
}

proof fn lemma_rel_trans(a: Seq<u64>, b: Seq<u64>, c: Seq<u64>)
    requires
        rel_lt(a, b),
        rel_lt(b, c),
    ensures
        rel_lt(a, c),
{
    let i = choose|i: int| rel_lt_at(a, b, i);
    let j = choose|j: int| rel_lt_at(b, c, j);
    if i < j {
        assert(rel_at(b, i) == rel_at(c, i));
        assert(rel_lt_at(a, c, i));
    } else if j < i {
        assert(rel_at(a, j) == rel_at(b, j));
        assert(rel_lt_at(a, c, j));
    } else {
        assert(rel_lt_at(a, c, i));
    }
}

proof fn lemma_rel_eq_lt(a: Seq<u64>, b: Seq<u64>, c: Seq<u64>)
    requires
        rel_eq(a, b),
        rel_lt(b, c),
    ensures
        rel_lt(a, c),
{
    let i = choose|i: int| rel_lt_at(b, c, i);
    assert(rel_at(a, i) == rel_at(b, i));
    assert(rel_lt_at(a, c, i));
}

proof fn lemma_rel_lt_eq(a: Seq<u64>, b: Seq<u64>, c: Seq<u64>)
    requires
        rel_lt(a, b),
        rel_eq(b, c),
    ensures
        rel_lt(a, c),
{
    let i = choose|i: int| rel_lt_at(a, b, i);
    assert(rel_at(b, i) == rel_at(c, i));
    assert(rel_lt_at(a, c, i));
}

/// The order is irreflexive: no key is below itself.
pub proof fn lemma_order_irreflexive(a: VersionKey)
    ensures
        !key_lt(a, a),
{
    if key_lt(a, a) {
        lemma_rel_lt_not_eq(a.release, a.release);
    }
}

/// Keys that compare equal are not ordered, in either direction.
pub proof fn lemma_order_eq_not_lt(a: VersionKey, b: VersionKey)
    requires
        key_eq(a, b),
    ensures
        !key_lt(a, b),
        !key_lt(b, a),
{
}

/// The order is asymmetric, hence antisymmetric.
pub proof fn lemma_order_asymmetric(a: VersionKey, b: VersionKey)
    requires
        key_lt(a, b),
    ensures
        !key_lt(b, a),
        !key_eq(a, b),
{
    if a.epoch == b.epoch && !rel_eq(a.release, b.release) {
        lemma_rel_lt_not_eq(a.release, b.release);
        lemma_rel_asym(a.release, b.release);
        if rel_eq(b.release, a.release) {
            assert(rel_at(a.release, 0) == rel_at(b.release, 0));
            assert forall|i: int| #[trigger] rel_at(a.release, i) == rel_at(b.release, i) by {
                assert(rel_at(b.release, i) == rel_at(a.release, i));
            }
        }
    }
}

/// The order is transitive.
pub proof fn lemma_order_transitive(a: VersionKey, b: VersionKey, c: VersionKey)
    requires
        key_lt(a, b),
        key_lt(b, c),
    ensures
        key_lt(a, c),
{
    if a.epoch == b.epoch && b.epoch == c.epoch {
        let ra = a.release;
        let rb = b.release;
        let rc = c.release;
        if !rel_eq(ra, rb) && !rel_eq(rb, rc) {
            lemma_rel_trans(ra, rb, rc);
            lemma_rel_lt_not_eq(ra, rc);
        } else if !rel_eq(ra, rb) && rel_eq(rb, rc) {
            lemma_rel_lt_eq(ra, rb, rc);
            lemma_rel_lt_not_eq(ra, rc);
        } else if rel_eq(ra, rb) && !rel_eq(rb, rc) {
            lemma_rel_eq_lt(ra, rb, rc);
            lemma_rel_lt_not_eq(ra, rc);
        } else {
            assert forall|i: int| #[trigger] rel_at(ra, i) == rel_at(rc, i) by {
                assert(rel_at(ra, i) == rel_at(rb, i));
                assert(rel_at(rb, i) == rel_at(rc, i));
            }
        }
    }
}

/// The order is total: two keys are equal or ordered one way.
pub proof fn lemma_order_total(a: VersionKey, b: VersionKey)
    ensures
        key_eq(a, b) || key_lt(a, b) || key_lt(b, a),
{
    lemma_rel_total(a.release, b.release);
    if rel_eq(a.release, b.release) {
        assert forall|i: int| #[trigger] rel_at(b.release, i) == rel_at(a.release, i) by {
            assert(rel_at(a.release, i) == rel_at(b.release, i));
        }
    }
}

/// Key equality is symmetric.
pub proof fn lemma_order_eq_symmetric(a: VersionKey, b: VersionKey)
    requires
        key_eq(a, b),
    ensures
        key_eq(b, a),
{
    assert forall|i: int| #[trigger] rel_at(b.release, i) == rel_at(a.release, i) by {
        assert(rel_at(a.release, i) == rel_at(b.release, i));
    }
}

/// Key equality is transitive.
pub proof fn lemma_order_eq_transitive(a: VersionKey, b: VersionKey, c: VersionKey)
    requires
        key_eq(a, b),
        key_eq(b, c),
    ensures
        key_eq(a, c),
{
    assert forall|i: int| #[trigger] rel_at(a.release, i) == rel_at(c.release, i) by {
        assert(rel_at(a.release, i) == rel_at(b.release, i));
        assert(rel_at(b.release, i) == rel_at(c.release, i));
    }
}

/// An equal key on the left composes with strict order.
pub proof fn lemma_order_eq_lt(a: VersionKey, b: VersionKey, c: VersionKey)
    requires
        key_eq(a, b),
        key_lt(b, c),
    ensures
        key_lt(a, c),
{
    if b.epoch == c.epoch {
        if !rel_eq(b.release, c.release) {
            lemma_rel_eq_lt(a.release, b.release, c.release);
            lemma_rel_lt_not_eq(a.release, c.release);
        } else {
            assert forall|i: int| #[trigger] rel_at(a.release, i) == rel_at(c.release, i) by {
                assert(rel_at(a.release, i) == rel_at(b.release, i));
                assert(rel_at(b.release, i) == rel_at(c.release, i));
            }
        }
    }
}

/// An equal key on the right composes with strict order.
pub proof fn lemma_order_lt_eq(a: VersionKey, b: VersionKey, c: VersionKey)
    requires
        key_lt(a, b),
        key_eq(b, c),
    ensures
        key_lt(a, c),
{
    if a.epoch == b.epoch {
        if !rel_eq(a.release, b.release) {
            lemma_rel_lt_eq(a.release, b.release, c.release);
            lemma_rel_lt_not_eq(a.release, c.release);
        } else {
            assert forall|i: int| #[trigger] rel_at(a.release, i) == rel_at(c.release, i) by {
                assert(rel_at(a.release, i) == rel_at(b.release, i));
                assert(rel_at(b.release, i) == rel_at(c.release, i));
            }
        }
    }
}

/// Strict order absorbs a non-strict step on the right.
pub proof fn lemma_order_lt_le(a: VersionKey, b: VersionKey, c: VersionKey)
    requires
        key_lt(a, b),
        key_le(b, c),
    ensures
        key_lt(a, c),
{
    if key_lt(b, c) {
        lemma_order_transitive(a, b, c);
    } else {
        lemma_order_lt_eq(a, b, c);
    }
}

/// Strict order absorbs a non-strict step on the left.
pub proof fn lemma_order_le_lt(a: VersionKey, b: VersionKey, c: VersionKey)
    requires
        key_le(a, b),
        key_lt(b, c),
    ensures
        key_lt(a, c),
{
    if key_lt(a, b) {
        lemma_order_transitive(a, b, c);
    } else {
        lemma_order_eq_lt(a, b, c);
    }
}

/// The non-strict order is transitive.
pub proof fn lemma_order_le_transitive(a: VersionKey, b: VersionKey, c: VersionKey)
    requires
        key_le(a, b),
        key_le(b, c),
    ensures
        key_le(a, c),
{
    if key_lt(a, b) {
        lemma_order_lt_le(a, b, c);
    } else if key_lt(b, c) {
        lemma_order_eq_lt(a, b, c);
    } else {
        lemma_order_eq_transitive(a, b, c);
    }
}

/// Epoch dominance: a lower epoch puts a version below every version with a
/// higher epoch, whatever the remaining fields hold.
pub proof fn lemma_epoch_dominates(a: VersionKey, b: VersionKey)
    requires
        a.epoch < b.epoch,
    ensures
        key_lt(a, b),
{
}

/// The version `0` is a floor for every version without qualifiers: a dev
/// or pre build of release `0` still sorts below it, so the floor claim is
/// restricted to plain releases.
pub proof fn lemma_zero_is_floor_of_plain(k: VersionKey)
    requires
        k.pre is None,
        k.post is None,
        k.dev is None,
    ensures
        key_le(VersionKey { epoch: 0, release: seq![0u64], pre: None, post: None, dev: None }, k),
{
    let z = VersionKey { epoch: 0, release: seq![0u64], pre: None, post: None, dev: None };
    if k.epoch == 0 {
        lemma_rel_total(z.release, k.release);
        if rel_lt(k.release, z.release) {
            let i = choose|i: int| rel_lt_at(k.release, z.release, i);
            assert(z.release[0] == 0u64);
            assert(rel_at(z.release, i) == 0u64);
        }
    }
}

/// Sentinel ordering at one release: a dev-only build precedes every
/// pre-release, which precedes the final release, which precedes every
/// post-release, and dev ordinals order dev builds.
pub proof fn lemma_sentinel_ordering(rel: Seq<u64>, epoch: u64, n: u64)
    ensures
        key_lt(
            VersionKey { epoch, release: rel, pre: None, post: None, dev: Some(1u64) },
            VersionKey { epoch, release: rel, pre: Some(n), post: None, dev: None },
        ),
        key_lt(
            VersionKey { epoch, release: rel, pre: Some(n), post: None, dev: None },
            VersionKey { epoch, release: rel, pre: None, post: None, dev: None },
        ),
        key_lt(
            VersionKey { epoch, release: rel, pre: None, post: None, dev: None },
            VersionKey { epoch, release: rel, pre: None, post: Some(1u64), dev: None },
        ),
        key_lt(
            VersionKey { epoch, release: rel, pre: None, post: None, dev: Some(1u64) },
            VersionKey { epoch, release: rel, pre: None, post: None, dev: Some(2u64) },
        ),
{
}

/// Trailing-zero invariance: appending a zero segment leaves the comparison
/// key unchanged.
pub proof fn lemma_trailing_zero(a: VersionKey)
    ensures
        key_eq(a, VersionKey { release: a.release.push(0u64), ..a }),
{
    let b = VersionKey { release: a.release.push(0u64), ..a };
    assert forall|i: int| #[trigger] rel_at(a.release, i) == rel_at(b.release, i) by {
        if 0 <= i < a.release.len() {
            assert(b.release[i] == a.release[i]);
        } else if i == a.release.len() {
            assert(b.release[i] == 0u64);
        }
    }
}

fn cmp_u64(x: u64, y: u64) -> (r: Ordering)
    ensures
        match r {
            Ordering::Less => x < y,
            Ordering::Equal => x == y,
            Ordering::Greater => x > y,
        },
{
    if x < y {
        Ordering::Less
    } else if x == y {
        Ordering::Equal
    } else {
        Ordering::Greater
    }
}

fn cmp_release(a: &Vec<u64>, b: &Vec<u64>) -> (r: Ordering)
    ensures
        match r {
            Ordering::Less => rel_lt(a@, b@),
            Ordering::Equal => rel_eq(a@, b@),
            Ordering::Greater => rel_lt(b@, a@),
        },
{
    let mut i: usize = 0;
    while i < a.len() || i < b.len()
        invariant
            forall|j: int| 0 <= j < i ==> rel_at(a@, j) == rel_at(b@, j),
        decreases a@.len() + b@.len() - i,
    {
        let av: u64 = if i < a.len() { a[i] } else { 0 };
        let bv: u64 = if i < b.len() { b[i] } else { 0 };
        assert(av == rel_at(a@, i as int));
        assert(bv == rel_at(b@, i as int));
        if av < bv {
            assert(rel_lt_at(a@, b@, i as int));
            return Ordering::Less;
        } else if bv < av {
            assert(rel_lt_at(b@, a@, i as int));
            return Ordering::Greater;
        }
        i = i + 1;
    }
    assert forall|j: int| #[trigger] rel_at(a@, j) == rel_at(b@, j) by {
        if 0 <= j < i {
        } else {
            assert(rel_at(a@, j) == 0u64);
            assert(rel_at(b@, j) == 0u64);
        }
    }
    Ordering::Equal
}

fn cmp_pre(a: &Version, b: &Version) -> (r: Ordering)
    ensures
        match r {
            Ordering::Less => pre_rank(a@) < pre_rank(b@),
            Ordering::Equal => pre_rank(a@) == pre_rank(b@),
            Ordering::Greater => pre_rank(a@) > pre_rank(b@),
        },
{
    match (&a.pre, &b.pre) {
        (Some(x), Some(y)) => cmp_u64(*x, *y),
        (Some(_), None) => {
            if b.post.is_none() && b.dev.is_some() {
                Ordering::Greater
            } else {
                Ordering::Less
            }
        },
        (None, Some(_)) => {
            if a.post.is_none() && a.dev.is_some() {
                Ordering::Less
            } else {
                Ordering::Greater
            }
        },
        (None, None) => {
            let a_low = a.post.is_none() && a.dev.is_some();
            let b_low = b.post.is_none() && b.dev.is_some();
            if a_low == b_low {
                Ordering::Equal
            } else if a_low {
                Ordering::Less
            } else {
                Ordering::Greater
            }
        },
    }
}

fn cmp_post(a: &Version, b: &Version) -> (r: Ordering)
    ensures
        match r {
            Ordering::Less => post_rank(a@) < post_rank(b@),
            Ordering::Equal => post_rank(a@) == post_rank(b@),
            Ordering::Greater => post_rank(a@) > post_rank(b@),
        },
{
    match (&a.post, &b.post) {
        (Some(x), Some(y)) => cmp_u64(*x, *y),
        (Some(_), None) => Ordering::Greater,
        (None, Some(_)) => Ordering::Less,
        (None, None) => Ordering::Equal,
    }
}

fn cmp_dev(a: &Version, b: &Version) -> (r: Ordering)
    ensures
        match r {
            Ordering::Less => dev_rank(a@) < dev_rank(b@),
            Ordering::Equal => dev_rank(a@) == dev_rank(b@),
            Ordering::Greater => dev_rank(a@) > dev_rank(b@),
        },
{
    match (&a.dev, &b.dev) {
        (Some(x), Some(y)) => cmp_u64(*x, *y),
        (Some(_), None) => Ordering::Less,
        (None, Some(_)) => Ordering::Greater,
        (None, None) => Ordering::Equal,
    }
}

impl Version {
    /// Three-way comparison by the normalized comparison key.
    pub fn compare_key(&self, other: &Version) -> (r: Ordering)
        ensures
            match r {
                Ordering::Less => key_lt(self@, other@),
                Ordering::Equal => key_eq(self@, other@),
                Ordering::Greater => key_lt(other@, self@),
            },
    {
        let ce = cmp_u64(self.epoch, other.epoch);
        if !matches!(ce, Ordering::Equal) {
            return ce;
        }
        let cr = cmp_release(&self.release, &other.release);
        if !matches!(cr, Ordering::Equal) {
            proof {
                if rel_lt(self@.release, other@.release) {
                    lemma_rel_lt_not_eq(self@.release, other@.release);
                }
                if rel_lt(other@.release, self@.release) {
                    lemma_rel_lt_not_eq(other@.release, self@.release);
                    lemma_rel_total(self@.release, other@.release);
                    lemma_rel_asym(other@.release, self@.release);
                }
            }
            return cr;
        }
        proof {
            assert forall|i: int| #[trigger] rel_at(other@.release, i) == rel_at(self@.release, i)
                by {
                assert(rel_at(self@.release, i) == rel_at(other@.release, i));
            }
        }
        let cp = cmp_pre(self, other);
        if !matches!(cp, Ordering::Equal) {
            return cp;
        }
        let co = cmp_post(self, other);
        if !matches!(co, Ordering::Equal) {
            return co;
        }
        cmp_dev(self, other)
    }

    /// An independent value with the same comparison key and fields.
    pub fn duplicate(&self) -> (r: Version)
        ensures
            r@ == self@,
    {
        let release = self.release.clone();
        proof {
            assert(release@ =~= self.release@);
        }
        let r = Version {
            epoch: self.epoch,
            release,
            pre: self.pre,
            post: self.post,
            dev: self.dev,
        };
        proof {
            assert(r@ =~= self@);
        }
        r
    }

    /// The version `0`: epoch 0, release `[0]`, no qualifiers.
    pub fn zero() -> (r: Version)
        ensures
            r.wf(),
            r@.epoch == 0,
            r@.release =~= seq![0u64],
            r@.pre is None,
            r@.post is None,
            r@.dev is None,
    {
        let mut release: Vec<u64> = Vec::new();
        release.push(0);
        Version { epoch: 0, release, pre: None, post: None, dev: None }
    }

    /// The search floor handed to the solver: the version `0`. It is the
    /// least version among those without qualifiers (a dev or pre build of
    /// release `0` still sorts below it).
    pub fn lowest() -> (r: Version)
        ensures
            r.wf(),
            r@.epoch == 0,
            r@.release =~= seq![0u64],
            r@.pre is None,
            r@.post is None,
            r@.dev is None,
    {
        Version::zero()
    }

    /// The next distinguishable version: the final release segment grows by
    /// one and every other field is carried forward. Always strictly above
    /// `self` and never shorter.
    pub fn bump(&self) -> (r: Version)
        requires
            self.wf(),
            self.release@[self.release@.len() - 1] < u64::MAX,
        ensures
            r.wf(),
            r@.epoch == self@.epoch,
            r@.release =~= self@.release.update(
                self@.release.len() - 1,
                (self@.release[self@.release.len() - 1] + 1) as u64,
            ),
            r@.release.len() == self@.release.len(),
            r@.pre == self@.pre,
            r@.post == self@.post,
            r@.dev == self@.dev,
            key_lt(self@, r@),
    {
        let mut release = self.release.clone();
        proof {
            assert(release@ =~= self.release@);
        }
        let last = release.len() - 1;
        let incremented = release[last] + 1;
        release.set(last, incremented);
        let r = Version {
            epoch: self.epoch,
            release,
            pre: self.pre,
            post: self.post,
            dev: self.dev,
        };
        proof {
            let i = self@.release.len() - 1;
            assert(rel_at(self@.release, i) < rel_at(r@.release, i));
            assert(rel_lt_at(self@.release, r@.release, i));
            lemma_rel_lt_not_eq(self@.release, r@.release);
        }
        r
    }
}

/// Decides the strict key order between two versions.
pub fn lt_by_key(a: &Version, b: &Version) -> (r: bool)
    ensures
        r == key_lt(a@, b@),
{
    let c = a.compare_key(b);
    proof {
        match c {
            Ordering::Less => {},
            Ordering::Equal => lemma_order_eq_not_lt(a@, b@),
            Ordering::Greater => lemma_order_asymmetric(b@, a@),
        }
    }
    matches!(c, Ordering::Less)
}

/// Decides the non-strict key order between two versions.
pub fn le_by_key(a: &Version, b: &Version) -> (r: bool)
    ensures
        r == key_le(a@, b@),
{
    let c = a.compare_key(b);
    proof {
        match c {
            Ordering::Less => {},
            Ordering::Equal => {},
            Ordering::Greater => {
                lemma_order_asymmetric(b@, a@);
                if key_eq(a@, b@) {
                    lemma_order_eq_not_lt(a@, b@);
                }
            },
        }
    }
    matches!(c, Ordering::Less | Ordering::Equal)
}

/// Versions compare equal exactly when their comparison keys are equal.
impl PartialEq for Version {
    fn eq(&self, other: &Self) -> (r: bool) {
        let c = self.compare_key(other);
        proof {
            match c {
                Ordering::Less => lemma_order_asymmetric(self@, other@),
                Ordering::Equal => {},
                Ordering::Greater => {
                    lemma_order_asymmetric(other@, self@);
                    if key_eq(self@, other@) {
                        lemma_order_eq_not_lt(self@, other@);
                    }
                },
            }
        }
        matches!(c, Ordering::Equal)
    }
}

impl vstd::std_specs::cmp::PartialEqSpecImpl for Version {
    open spec fn obeys_eq_spec() -> bool {
        true
    }

    open spec fn eq_spec(&self, other: &Version) -> bool {
        key_eq(self@, other@)
    }
}

/// Versions order exactly by the comparison key.
impl PartialOrd for Version {
    fn partial_cmp(&self, other: &Self) -> (r: Option<Ordering>) {
        let c = self.compare_key(other);
        proof {
            match c {
                Ordering::Less => {},
                Ordering::Equal => lemma_order_eq_not_lt(self@, other@),
                Ordering::Greater => lemma_order_asymmetric(other@, self@),
            }
        }
        Some(c)
    }
}

impl vstd::std_specs::cmp::PartialOrdSpecImpl for Version {
    open spec fn obeys_partial_cmp_spec() -> bool {
        true
    }

    open spec fn partial_cmp_spec(&self, other: &Version) -> Option<Ordering> {
        if key_lt(self@, other@) {
            Some(Ordering::Less)
        } else if key_eq(self@, other@) {
            Some(Ordering::Equal)
        } else {
            Some(Ordering::Greater)
        }
    }
}

} // verus!
