//! Version ranges: finite unions of intervals over the version order, with
//! open, closed and absent endpoints. Membership is always decided by the
//! comparison key.

use vstd::prelude::*;
use crate::version::{
    key_eq, key_le, key_lt, le_by_key, lemma_order_eq_lt, lemma_order_eq_not_lt,
    lemma_order_eq_symmetric, lemma_order_le_lt, lemma_order_le_transitive, lemma_order_lt_eq,
    lemma_order_lt_le, lemma_order_total, lemma_order_transitive, lt_by_key, Version, VersionKey,
};

verus! {

/// One end of an interval: absent, inclusive, or exclusive.
#[derive(Debug)]
pub enum Endpoint {
    Unlimited,
    Closed(Version),
    Open(Version),
}

/// A contiguous interval of versions.
#[derive(Debug)]
pub struct Interval {
    pub lo: Endpoint,
    pub hi: Endpoint,
}

/// A set of acceptable versions: the union of finitely many intervals.
#[derive(Debug)]
pub struct VersionRange {
    pub parts: Vec<Interval>,
}

/// The key satisfies a lower endpoint.
pub open spec fn lo_ok(b: Endpoint, k: VersionKey) -> bool {
    match b {
        Endpoint::Unlimited => true,
        Endpoint::Closed(v) => key_le(v@, k),
        Endpoint::Open(v) => key_lt(v@, k),
    }
}

/// The key satisfies an upper endpoint.
pub open spec fn hi_ok(b: Endpoint, k: VersionKey) -> bool {
    match b {
        Endpoint::Unlimited => true,
        Endpoint::Closed(v) => key_le(k, v@),
        Endpoint::Open(v) => key_lt(k, v@),
    }
}

/// The key lies in the interval.
pub open spec fn in_interval(iv: Interval, k: VersionKey) -> bool {
    lo_ok(iv.lo, k) && hi_ok(iv.hi, k)
}

/// The key lies in some interval of the sequence.
pub open spec fn seq_has(ivs: Seq<Interval>, k: VersionKey) -> bool {
    exists|i: int| 0 <= i < ivs.len() && in_interval(#[trigger] ivs[i], k)
}

/// The key lies in the range.
pub open spec fn range_has(r: VersionRange, k: VersionKey) -> bool {
    seq_has(r.parts@, k)
}

proof fn lemma_seq_has_push(ivs: Seq<Interval>, x: Interval, k: VersionKey)
    ensures
        seq_has(ivs.push(x), k) <==> (seq_has(ivs, k) || in_interval(x, k)),
{
    let p = ivs.push(x);
    if seq_has(p, k) {
        let i = choose|i: int| 0 <= i < p.len() && in_interval(p[i], k);
        if i < ivs.len() {
            assert(ivs[i] == p[i]);
        } else {
            assert(p[i] == x);
        }
    }
    if seq_has(ivs, k) {
        let i = choose|i: int| 0 <= i < ivs.len() && in_interval(ivs[i], k);
        assert(p[i] == ivs[i]);
        assert(in_interval(p[i], k));
    }
    if in_interval(x, k) {
        assert(p[ivs.len() as int] == x);
        assert(in_interval(p[ivs.len() as int], k));
    }
}

proof fn lemma_seq_has_concat(a: Seq<Interval>, b: Seq<Interval>, k: VersionKey)
    ensures
        seq_has(a + b, k) <==> (seq_has(a, k) || seq_has(b, k)),
{
    let c = a + b;
    if seq_has(c, k) {
        let i = choose|i: int| 0 <= i < c.len() && in_interval(c[i], k);
        if i < a.len() {
            assert(a[i] == c[i]);
        } else {
            assert(b[i - a.len()] == c[i]);
            assert(in_interval(b[i - a.len()], k));
        }
    }
    if seq_has(a, k) {
        let i = choose|i: int| 0 <= i < a.len() && in_interval(a[i], k);
        assert(c[i] == a[i]);
        assert(in_interval(c[i], k));
    }
    if seq_has(b, k) {
        let i = choose|i: int| 0 <= i < b.len() && in_interval(b[i], k);
        assert(c[a.len() + i] == b[i]);
        assert(in_interval(c[a.len() + i], k));
    }
}

fn dup_endpoint(b: &Endpoint) -> (r: Endpoint)
    ensures
        forall|k: VersionKey| lo_ok(r, k) == lo_ok(*b, k),
        forall|k: VersionKey| hi_ok(r, k) == hi_ok(*b, k),
{
    match b {
        Endpoint::Unlimited => Endpoint::Unlimited,
        Endpoint::Closed(v) => Endpoint::Closed(v.duplicate()),
        Endpoint::Open(v) => Endpoint::Open(v.duplicate()),
    }
}

fn stricter_lo(a: &Endpoint, b: &Endpoint) -> (r: Endpoint)
    ensures
        forall|k: VersionKey| #[trigger] lo_ok(r, k) <==> (lo_ok(*a, k) && lo_ok(*b, k)),
{
    match (a, b) {
        (Endpoint::Unlimited, _) => dup_endpoint(b),
        (_, Endpoint::Unlimited) => dup_endpoint(a),
        (Endpoint::Closed(u), Endpoint::Closed(w)) => {
            if le_by_key(u, w) {
                let r = Endpoint::Closed(w.duplicate());
                proof {
                    assert forall|k: VersionKey| #[trigger] lo_ok(r, k) <==> (lo_ok(*a, k)
                        && lo_ok(*b, k)) by {
                        if key_le(w@, k) {
                            lemma_order_le_transitive(u@, w@, k);
                        }
                    }
                }
                r
            } else {
                let r = Endpoint::Closed(u.duplicate());
                proof {
                    lemma_order_total(u@, w@);
                    assert forall|k: VersionKey| #[trigger] lo_ok(r, k) <==> (lo_ok(*a, k)
                        && lo_ok(*b, k)) by {
                        if key_le(u@, k) {
                            lemma_order_le_transitive(w@, u@, k);
                        }
                    }
                }
                r
            }
        },
        (Endpoint::Closed(u), Endpoint::Open(w)) => {
            if lt_by_key(w, u) {
                let r = Endpoint::Closed(u.duplicate());
                proof {
                    assert forall|k: VersionKey| #[trigger] lo_ok(r, k) <==> (lo_ok(*a, k)
                        && lo_ok(*b, k)) by {
                        if key_le(u@, k) {
                            lemma_order_lt_le(w@, u@, k);
                        }
                    }
                }
                r
            } else {
                let r = Endpoint::Open(w.duplicate());
                proof {
                    lemma_order_total(u@, w@);
                    assert forall|k: VersionKey| #[trigger] lo_ok(r, k) <==> (lo_ok(*a, k)
                        && lo_ok(*b, k)) by {
                        if key_lt(w@, k) {
                            lemma_order_le_lt(u@, w@, k);
                        }
                    }
                }
                r
            }
        },
        (Endpoint::Open(u), Endpoint::Closed(w)) => {
            if lt_by_key(u, w) {
                let r = Endpoint::Closed(w.duplicate());
                proof {
                    assert forall|k: VersionKey| #[trigger] lo_ok(r, k) <==> (lo_ok(*a, k)
                        && lo_ok(*b, k)) by {
                        if key_le(w@, k) {
                            lemma_order_lt_le(u@, w@, k);
                        }
                    }
                }
                r
            } else {
                let r = Endpoint::Open(u.duplicate());
                proof {
                    lemma_order_total(u@, w@);
                    assert forall|k: VersionKey| #[trigger] lo_ok(r, k) <==> (lo_ok(*a, k)
                        && lo_ok(*b, k)) by {
                        if key_lt(u@, k) {
                            lemma_order_le_lt(w@, u@, k);
                        }
                    }
                }
                r
            }
        },
        (Endpoint::Open(u), Endpoint::Open(w)) => {
            if le_by_key(u, w) {
                let r = Endpoint::Open(w.duplicate());
                proof {
                    assert forall|k: VersionKey| #[trigger] lo_ok(r, k) <==> (lo_ok(*a, k)
                        && lo_ok(*b, k)) by {
                        if key_lt(w@, k) {
                            lemma_order_le_lt(u@, w@, k);
                        }
                    }
                }
                r
            } else {
                let r = Endpoint::Open(u.duplicate());
                proof {
                    lemma_order_total(u@, w@);
                    assert forall|k: VersionKey| #[trigger] lo_ok(r, k) <==> (lo_ok(*a, k)
                        && lo_ok(*b, k)) by {
                        if key_lt(u@, k) {
                            lemma_order_le_lt(w@, u@, k);
                        }
                    }
                }
                r
            }
        },
    }
}

fn stricter_hi(a: &Endpoint, b: &Endpoint) -> (r: Endpoint)
    ensures
        forall|k: VersionKey| #[trigger] hi_ok(r, k) <==> (hi_ok(*a, k) && hi_ok(*b, k)),
{
    match (a, b) {
        (Endpoint::Unlimited, _) => dup_endpoint(b),
        (_, Endpoint::Unlimited) => dup_endpoint(a),
        (Endpoint::Closed(u), Endpoint::Closed(w)) => {
            if le_by_key(u, w) {
                let r = Endpoint::Closed(u.duplicate());
                proof {
                    assert forall|k: VersionKey| #[trigger] hi_ok(r, k) <==> (hi_ok(*a, k)
                        && hi_ok(*b, k)) by {
                        if key_le(k, u@) {
                            lemma_order_le_transitive(k, u@, w@);
                        }
                    }
                }
                r
            } else {
                let r = Endpoint::Closed(w.duplicate());
                proof {
                    lemma_order_total(u@, w@);
                    assert forall|k: VersionKey| #[trigger] hi_ok(r, k) <==> (hi_ok(*a, k)
                        && hi_ok(*b, k)) by {
                        if key_le(k, w@) {
                            lemma_order_le_transitive(k, w@, u@);
                        }
                    }
                }
                r
            }
        },
        (Endpoint::Closed(u), Endpoint::Open(w)) => {
            if lt_by_key(u, w) {
                let r = Endpoint::Closed(u.duplicate());
                proof {
                    assert forall|k: VersionKey| #[trigger] hi_ok(r, k) <==> (hi_ok(*a, k)
                        && hi_ok(*b, k)) by {
                        if key_le(k, u@) {
                            lemma_order_le_lt(k, u@, w@);
                        }
                    }
                }
                r
            } else {
                let r = Endpoint::Open(w.duplicate());
                proof {
                    lemma_order_total(u@, w@);
                    assert forall|k: VersionKey| #[trigger] hi_ok(r, k) <==> (hi_ok(*a, k)
                        && hi_ok(*b, k)) by {
                        if key_lt(k, w@) {
                            lemma_order_lt_le(k, w@, u@);
                        }
                    }
                }
                r
            }
        },
        (Endpoint::Open(u), Endpoint::Closed(w)) => {
            if lt_by_key(w, u) {
                let r = Endpoint::Closed(w.duplicate());
                proof {
                    assert forall|k: VersionKey| #[trigger] hi_ok(r, k) <==> (hi_ok(*a, k)
                        && hi_ok(*b, k)) by {
                        if key_le(k, w@) {
                            lemma_order_le_lt(k, w@, u@);
                        }
                    }
                }
                r
            } else {
                let r = Endpoint::Open(u.duplicate());
                proof {
                    lemma_order_total(u@, w@);
                    assert forall|k: VersionKey| #[trigger] hi_ok(r, k) <==> (hi_ok(*a, k)
                        && hi_ok(*b, k)) by {
                        if key_lt(k, u@) {
                            lemma_order_lt_le(k, u@, w@);
                        }
                    }
                }
                r
            }
        },
        (Endpoint::Open(u), Endpoint::Open(w)) => {
            if le_by_key(u, w) {
                let r = Endpoint::Open(u.duplicate());
                proof {
                    assert forall|k: VersionKey| #[trigger] hi_ok(r, k) <==> (hi_ok(*a, k)
                        && hi_ok(*b, k)) by {
                        if key_lt(k, u@) {
                            lemma_order_lt_le(k, u@, w@);
                        }
                    }
                }
                r
            } else {
                let r = Endpoint::Open(w.duplicate());
                proof {
                    lemma_order_total(u@, w@);
                    assert forall|k: VersionKey| #[trigger] hi_ok(r, k) <==> (hi_ok(*a, k)
                        && hi_ok(*b, k)) by {
                        if key_lt(k, w@) {
                            lemma_order_lt_le(k, w@, u@);
                        }
                    }
                }
                r
            }
        },
    }
}

fn intersect_interval(a: &Interval, b: &Interval) -> (r: Interval)
    ensures
        forall|k: VersionKey| #[trigger] in_interval(r, k) <==> (in_interval(*a, k)
            && in_interval(*b, k)),
{
    Interval { lo: stricter_lo(&a.lo, &b.lo), hi: stricter_hi(&a.hi, &b.hi) }
}

impl Interval {
    fn duplicate(&self) -> (r: Interval)
        ensures
            forall|k: VersionKey| #[trigger] in_interval(r, k) == in_interval(*self, k),
    {
        Interval { lo: dup_endpoint(&self.lo), hi: dup_endpoint(&self.hi) }
    }
}

impl VersionRange {
    /// The range that accepts every version.
    pub fn universal() -> (r: VersionRange)
        ensures
            forall|k: VersionKey| range_has(r, k),
    {
        let mut parts: Vec<Interval> = Vec::new();
        parts.push(Interval { lo: Endpoint::Unlimited, hi: Endpoint::Unlimited });
        let r = VersionRange { parts };
        proof {
            assert forall|k: VersionKey| range_has(r, k) by {
                assert(in_interval(r.parts@[0], k));
            }
        }
        r
    }

    /// The range that accepts no version.
    pub fn empty_range() -> (r: VersionRange)
        ensures
            forall|k: VersionKey| !range_has(r, k),
    {
        VersionRange { parts: Vec::new() }
    }

    /// Decide membership of a version, by its comparison key.
    pub fn contains(&self, v: &Version) -> (r: bool)
        ensures
            r == range_has(*self, v@),
    {
        let mut i: usize = 0;
        while i < self.parts.len()
            invariant
                i <= self.parts@.len(),
                forall|j: int| 0 <= j < i ==> !in_interval(self.parts@[j], v@),
            decreases self.parts@.len() - i,
        {
            let iv = &self.parts[i];
            let lo_sat = match &iv.lo {
                Endpoint::Unlimited => true,
                Endpoint::Closed(u) => le_by_key(u, v),
                Endpoint::Open(u) => lt_by_key(u, v),
            };
            let hi_sat = match &iv.hi {
                Endpoint::Unlimited => true,
                Endpoint::Closed(u) => le_by_key(v, u),
                Endpoint::Open(u) => lt_by_key(v, u),
            };
            if lo_sat && hi_sat {
                assert(in_interval(self.parts@[i as int], v@));
                return true;
            }
            i = i + 1;
        }
        false
    }

    /// An independent range accepting exactly the same versions.
    pub fn duplicate(&self) -> (r: VersionRange)
        ensures
            forall|k: VersionKey| #[trigger] range_has(r, k) == range_has(*self, k),
    {
        let mut parts: Vec<Interval> = Vec::new();
        let mut i: usize = 0;
        while i < self.parts.len()
            invariant
                i <= self.parts@.len(),
                parts@.len() == i,
                forall|j: int, k: VersionKey|
                    0 <= j < i ==> #[trigger] in_interval(parts@[j], k) == in_interval(
                        self.parts@[j],
                        k,
                    ),
            decreases self.parts@.len() - i,
        {
            parts.push(self.parts[i].duplicate());
            i = i + 1;
        }
        let r = VersionRange { parts };
        proof {
            assert forall|k: VersionKey| #[trigger] range_has(r, k) == range_has(*self, k) by {
                if range_has(r, k) {
                    let j = choose|j: int| 0 <= j < r.parts@.len() && in_interval(r.parts@[j], k);
                    assert(in_interval(self.parts@[j], k));
                }
                if range_has(*self, k) {
                    let j = choose|j: int|
                        0 <= j < self.parts@.len() && in_interval(self.parts@[j], k);
                    assert(in_interval(r.parts@[j], k));
                }
            }
        }
        r
    }

    /// The intersection: a version is accepted exactly when both ranges
    /// accept it.
    pub fn intersect(&self, other: &VersionRange) -> (r: VersionRange)
        ensures
            forall|k: VersionKey| #[trigger] range_has(r, k) <==> (range_has(*self, k)
                && range_has(*other, k)),
    {
        let mut acc: Vec<Interval> = Vec::new();
        let mut i: usize = 0;
        while i < self.parts.len()
            invariant
                i <= self.parts@.len(),
                forall|k: VersionKey| #[trigger] seq_has(acc@, k) <==> (seq_has(
                    self.parts@.subrange(0, i as int),
                    k,
                ) && seq_has(other.parts@, k)),
            decreases self.parts@.len() - i,
        {
            let ghost acc_before = acc@;
            let ghost prefix_before = self.parts@.subrange(0, i as int);
            let mut j: usize = 0;
            while j < other.parts.len()
                invariant
                    j <= other.parts@.len(),
                    i < self.parts@.len(),
                    forall|k: VersionKey| #[trigger] seq_has(acc@, k) <==> ((seq_has(
                        prefix_before,
                        k,
                    ) && seq_has(other.parts@, k)) || (in_interval(self.parts@[i as int], k)
                        && seq_has(other.parts@.subrange(0, j as int), k))),
                decreases other.parts@.len() - j,
            {
                let piece = intersect_interval(&self.parts[i], &other.parts[j]);
                let ghost acc_old = acc@;
                acc.push(piece);
                proof {
                    assert forall|k: VersionKey| #[trigger] seq_has(acc@, k) <==> ((seq_has(
                        prefix_before,
                        k,
                    ) && seq_has(other.parts@, k)) || (in_interval(self.parts@[i as int], k)
                        && seq_has(other.parts@.subrange(0, j + 1 as int), k))) by {
                        lemma_seq_has_push(acc_old, piece, k);
                        let sub_old = other.parts@.subrange(0, j as int);
                        let sub_new = other.parts@.subrange(0, j + 1 as int);
                        assert(sub_new =~= sub_old.push(other.parts@[j as int]));
                        lemma_seq_has_push(sub_old, other.parts@[j as int], k);
                    }
                }
                j = j + 1;
            }
            proof {
                assert(other.parts@.subrange(0, other.parts@.len() as int) =~= other.parts@);
                let prefix_after = self.parts@.subrange(0, i + 1 as int);
                assert(prefix_after =~= prefix_before.push(self.parts@[i as int]));
                assert forall|k: VersionKey| #[trigger] seq_has(acc@, k) <==> (seq_has(
                    prefix_after,
                    k,
                ) && seq_has(other.parts@, k)) by {
                    lemma_seq_has_push(prefix_before, self.parts@[i as int], k);
                }
            }
            i = i + 1;
        }
        proof {
            assert(self.parts@.subrange(0, self.parts@.len() as int) =~= self.parts@);
        }
        VersionRange { parts: acc }
    }
}

} // verus!
