//! The hierarchical coverage database.
//!
//! The database maps a prefix length to a map from 64-bit step-hash to a set
//! of distinct coverage traces of exactly that length. Prefix lengths are
//! contiguous from 1, so the outer map is a vector whose index `k` holds the
//! level for length `k + 1`. Within a level the buckets are strictly ordered
//! by hash, and within a bucket the traces are strictly ordered
//! lexicographically; both orders make the in-memory form canonical, so the
//! packed on-disk form is too.

use vstd::prelude::*;

verus! {

/// All traces sharing one step-hash at one prefix length.
pub struct CovBucket {
    pub step_hash: u64,
    pub traces: Vec<Vec<u64>>,
}

/// All buckets of one prefix length.
pub struct CovLevel {
    pub buckets: Vec<CovBucket>,
}

/// The whole database; `levels[k]` holds the traces of length `k + 1`.
pub struct CovDb {
    pub levels: Vec<CovLevel>,
}

/// The traces of a bucket as a sequence of sequences.
pub open spec fn traces_seq(ts: Seq<Vec<u64>>) -> Seq<Seq<u64>> {
    ts.map_values(|t: Vec<u64>| t@)
}

/// A bucket as its hash and its traces.
pub open spec fn bucket_view(b: CovBucket) -> (u64, Seq<Seq<u64>>) {
    (b.step_hash, traces_seq(b.traces@))
}

/// A level as its bucket sequence.
pub open spec fn level_view(l: CovLevel) -> Seq<(u64, Seq<Seq<u64>>)> {
    l.buckets@.map_values(|b: CovBucket| bucket_view(b))
}

/// The database as its level sequence.
pub open spec fn db_view(d: CovDb) -> Seq<Seq<(u64, Seq<Seq<u64>>)>> {
    d.levels@.map_values(|l: CovLevel| level_view(l))
}

/// Strict lexicographic order on traces of equal length.
pub open spec fn trace_lt(a: Seq<u64>, b: Seq<u64>) -> bool
    recommends
        a.len() == b.len(),
    decreases a.len(),
{
    if a.len() == 0 || b.len() == 0 {
        false
    } else if a[0] < b[0] {
        true
    } else if a[0] > b[0] {
        false
    } else {
        trace_lt(a.drop_first(), b.drop_first())
    }
}

/// The traces of one bucket at length `tlen`: all of that length, strictly
/// ascending, hence distinct.
pub open spec fn traces_wf(ts: Seq<Seq<u64>>, tlen: nat) -> bool {
    &&& forall|i: int| 0 <= i < ts.len() ==> (#[trigger] ts[i]).len() == tlen
    &&& forall|i: int, j: int| 0 <= i < j < ts.len() ==> trace_lt(ts[i], ts[j])
}

/// The buckets of one level: strictly ascending hashes, each bucket holding
/// well-formed traces of length `tlen`.
pub open spec fn level_wf(lv: Seq<(u64, Seq<Seq<u64>>)>, tlen: nat) -> bool {
    &&& forall|i: int| 0 <= i < lv.len() ==> traces_wf((#[trigger] lv[i]).1, tlen)
    &&& forall|i: int, j: int| 0 <= i < j < lv.len() ==> lv[i].0 < lv[j].0
}

/// The whole database: level `k` holds traces of length `k + 1`.
pub open spec fn db_wf(dv: Seq<Seq<(u64, Seq<Seq<u64>>)>>) -> bool {
    &&& forall|k: int| 0 <= k < dv.len() ==> level_wf(#[trigger] dv[k], (k + 1) as nat)
}

/// Membership: trace `t` stands under key `(len, h)`.
pub open spec fn db_contains(
    dv: Seq<Seq<(u64, Seq<Seq<u64>>)>>,
    len: nat,
    h: u64,
    t: Seq<u64>,
) -> bool {
    &&& 1 <= len <= dv.len()
    &&& level_contains(dv[len - 1], h, t)
}

impl CovDb {
    /// The database is well-formed.
    pub open spec fn wf(self) -> bool {
        db_wf(db_view(self))
    }

    /// A fresh database with no levels.
    pub fn new() -> (d: CovDb)
        ensures
            d.wf(),
            db_no_empty_buckets(db_view(d)),
            db_view(d) == Seq::<Seq<(u64, Seq<Seq<u64>>)>>::empty(),
    {
        let d = CovDb { levels: Vec::new() };
        proof {
            assert(db_view(d) =~= Seq::<Seq<(u64, Seq<Seq<u64>>)>>::empty());
        }
        d
    }

    /// The number of prefix lengths present, which is also the largest one.
    pub fn num_levels(&self) -> (n: usize)
        ensures
            n == db_view(*self).len(),
    {
        self.levels.len()
    }
}

/// Membership in one level: some bucket with hash `h` holds `t`.
pub open spec fn level_contains(lv: Seq<(u64, Seq<Seq<u64>>)>, h: u64, t: Seq<u64>) -> bool {
    exists|i: int| 0 <= i < lv.len() && (#[trigger] lv[i]).0 == h && lv[i].1.contains(t)
}

/// Equal-length traces compare in exactly one way.
pub proof fn lemma_trace_order_total(a: Seq<u64>, b: Seq<u64>)
    requires
        a.len() == b.len(),
    ensures
        trace_lt(a, b) || trace_lt(b, a) || a == b,
        trace_lt(a, b) ==> !trace_lt(b, a) && a != b,
        trace_lt(b, a) ==> !trace_lt(a, b) && a != b,
    decreases a.len(),
{
    if a.len() == 0 {
        assert(a =~= b);
    } else if a[0] == b[0] {
        lemma_trace_order_total(a.drop_first(), b.drop_first());
        if a.drop_first() == b.drop_first() {
            assert forall|i: int| 0 <= i < a.len() implies a[i] == b[i] by {
                if i > 0 {
                    assert(a[i] == a.drop_first()[i - 1]);
                    assert(b[i] == b.drop_first()[i - 1]);
                }
            }
            assert(a =~= b);
        }
        if a == b {
            assert(a.drop_first() =~= b.drop_first());
        }
    }
}

/// The lexicographic order is transitive on equal-length traces.
pub proof fn lemma_trace_lt_trans(a: Seq<u64>, b: Seq<u64>, c: Seq<u64>)
    requires
        a.len() == b.len(),
        b.len() == c.len(),
        trace_lt(a, b),
        trace_lt(b, c),
    ensures
        trace_lt(a, c),
    decreases a.len(),
{
    if a[0] == b[0] && b[0] == c[0] {
        lemma_trace_lt_trans(a.drop_first(), b.drop_first(), c.drop_first());
    }
}

/// How two traces of equal length stand to one another.
pub enum TraceOrder {
    Less,
    Equal,
    Greater,
}

/// Compares two traces of equal length lexicographically.
pub fn trace_cmp(a: &Vec<u64>, b: &Vec<u64>) -> (r: TraceOrder)
    requires
        a@.len() == b@.len(),
    ensures
        r is Less <==> trace_lt(a@, b@),
        r is Equal <==> a@ == b@,
        r is Greater <==> trace_lt(b@, a@),
{
    let n = a.len();
    let mut i: usize = 0;
    proof {
        assert(a@.skip(0) =~= a@);
        assert(b@.skip(0) =~= b@);
    }
    while i < n
        invariant
            0 <= i <= n,
            n == a@.len(),
            a@.len() == b@.len(),
            forall|j: int| 0 <= j < i ==> a@[j] == b@[j],
            trace_lt(a@, b@) == trace_lt(a@.skip(i as int), b@.skip(i as int)),
            trace_lt(b@, a@) == trace_lt(b@.skip(i as int), a@.skip(i as int)),
        decreases n - i,
    {
        proof {
            assert(a@.skip(i as int)[0] == a@[i as int]);
            assert(b@.skip(i as int)[0] == b@[i as int]);
        }
        if a[i] < b[i] {
            proof {
                lemma_trace_order_total(a@, b@);
            }
            return TraceOrder::Less;
        }
        if a[i] > b[i] {
            proof {
                lemma_trace_order_total(a@, b@);
            }
            return TraceOrder::Greater;
        }
        proof {
            assert(a@.skip(i as int).drop_first() =~= a@.skip(i + 1));
            assert(b@.skip(i as int).drop_first() =~= b@.skip(i + 1));
        }
        i = i + 1;
    }
    proof {
        assert(a@ =~= b@);
        lemma_trace_order_total(a@, b@);
    }
    TraceOrder::Equal
}

/// First index whose bucket hash is at least `h`, in a hash-sorted level.
fn find_bucket_pos(level: &CovLevel, h: u64) -> (bi: usize)
    requires
        forall|i: int, j: int|
            0 <= i < j < level_view(*level).len() ==> level_view(*level)[i].0 < level_view(
                *level,
            )[j].0,
    ensures
        bi <= level_view(*level).len(),
        forall|i: int| 0 <= i < bi ==> (#[trigger] level_view(*level)[i]).0 < h,
        bi < level_view(*level).len() ==> level_view(*level)[bi as int].0 >= h,
{
    let n = level.buckets.len();
    let mut bi: usize = 0;
    while bi < n && level.buckets[bi].step_hash < h
        invariant
            bi <= n,
            n == level_view(*level).len(),
            forall|i: int| 0 <= i < bi ==> (#[trigger] level_view(*level)[i]).0 < h,
        decreases n - bi,
    {
        proof {
            assert(level_view(*level)[bi as int] == bucket_view(level.buckets@[bi as int]));
        }
        bi = bi + 1;
    }
    proof {
        if bi < n {
            assert(level_view(*level)[bi as int] == bucket_view(level.buckets@[bi as int]));
        }
    }
    bi
}

/// First index whose trace is at least `t`, and whether `t` is present, in a
/// sorted bucket of traces of `t`'s length.
fn find_trace_pos(bucket: &CovBucket, t: &Vec<u64>) -> (r: (usize, bool))
    requires
        traces_wf(traces_seq(bucket.traces@), t@.len() as nat),
    ensures
        r.0 <= traces_seq(bucket.traces@).len(),
        forall|i: int| 0 <= i < r.0 ==> trace_lt(#[trigger] traces_seq(bucket.traces@)[i], t@),
        r.1 <==> traces_seq(bucket.traces@).contains(t@),
        r.1 ==> r.0 < traces_seq(bucket.traces@).len() && traces_seq(bucket.traces@)[r.0 as int]
            == t@,
        !r.1 ==> forall|i: int|
            r.0 <= i < traces_seq(bucket.traces@).len() ==> trace_lt(
                t@,
                #[trigger] traces_seq(bucket.traces@)[i],
            ),
{
    let ghost ts = traces_seq(bucket.traces@);
    let n = bucket.traces.len();
    let mut ti: usize = 0;
    while ti < n
        invariant
            ti <= n,
            ts == traces_seq(bucket.traces@),
            n == ts.len(),
            traces_wf(ts, t@.len() as nat),
            forall|i: int| 0 <= i < ti ==> trace_lt(#[trigger] ts[i], t@),
        decreases n - ti,
    {
        proof {
            assert(ts[ti as int] == bucket.traces@[ti as int]@);
        }
        match trace_cmp(&bucket.traces[ti], t) {
            TraceOrder::Less => {
                ti = ti + 1;
            },
            TraceOrder::Equal => {
                proof {
                    assert(ts.contains(t@));
                }
                return (ti, true);
            },
            TraceOrder::Greater => {
                proof {
                    lemma_not_contained(ts, t@, ti as int);
                }
                return (ti, false);
            },
        }
    }
    proof {
        lemma_not_contained(ts, t@, n as int);
    }
    (ti, false)
}

/// A trace below everything from `pos` on and above everything before `pos`
/// is not in the sorted bucket at all; everything from `pos` on lies above it.
proof fn lemma_not_contained(ts: Seq<Seq<u64>>, t: Seq<u64>, pos: int)
    requires
        0 <= pos <= ts.len(),
        forall|i: int| 0 <= i < ts.len() ==> (#[trigger] ts[i]).len() == t.len(),
        forall|i: int, j: int| 0 <= i < j < ts.len() ==> trace_lt(ts[i], ts[j]),
        forall|i: int| 0 <= i < pos ==> trace_lt(#[trigger] ts[i], t),
        pos < ts.len() ==> trace_lt(t, ts[pos]),
    ensures
        !ts.contains(t),
        forall|i: int| pos <= i < ts.len() ==> trace_lt(t, #[trigger] ts[i]),
{
    assert forall|i: int| pos <= i < ts.len() implies trace_lt(t, #[trigger] ts[i]) by {
        if i > pos {
            lemma_trace_lt_trans(t, ts[pos], ts[i]);
        }
    }
    assert forall|i: int| 0 <= i < ts.len() implies ts[i] != t by {
        lemma_trace_order_total(ts[i], t);
    }
}

impl CovDb {
    /// Inserts trace `t` under key `(t.len(), h)`; everything already present
    /// stays, nothing else is added, and a new prefix length may only extend
    /// the contiguous range by one.
    pub fn insert(&mut self, h: u64, t: Vec<u64>)
        requires
            old(self).wf(),
            1 <= t@.len(),
            t@.len() <= db_view(*old(self)).len() + 1,
        ensures
            final(self).wf(),
            db_no_empty_buckets(db_view(*old(self))) ==> db_no_empty_buckets(
                db_view(*final(self)),
            ),
            db_view(*final(self)).len() == if t@.len() > db_view(*old(self)).len() {
                t@.len() as int
            } else {
                db_view(*old(self)).len() as int
            },
            forall|len: nat, hh: u64, tt: Seq<u64>|
                db_contains(db_view(*final(self)), len, hh, tt) <==> (db_contains(
                    db_view(*old(self)),
                    len,
                    hh,
                    tt,
                ) || (len == t@.len() && hh == h && tt == t@)),
    {
        let tlen = t.len();
        let ghost gt = t@;
        let ghost dv0 = db_view(*old(self));
        if tlen > self.levels.len() {
            self.levels.push(CovLevel { buckets: Vec::new() });
            proof {
                assert(level_view(self.levels@.last()) =~= Seq::<(u64, Seq<Seq<u64>>)>::empty());
                assert(db_view(*self) =~= dv0.push(Seq::<(u64, Seq<Seq<u64>>)>::empty()));
                lemma_push_empty_level(dv0, db_view(*self));
            }
        }
        let ghost dv1 = db_view(*self);
        proof {
            assert(db_wf(dv1));
            assert(1 <= tlen <= dv1.len());
            assert(level_wf(dv1[tlen - 1], tlen as nat));
            assert(dv1[tlen - 1] == level_view(self.levels@[tlen - 1]));
        }
        let mut level = self.levels.remove(tlen - 1);
        let ghost lv0 = level_view(level);
        proof {
            assert(lv0 == dv1[tlen - 1]);
        }
        let bi = find_bucket_pos(&level, h);
        let ghost bseq0 = level.buckets@;
        let mut hit = false;
        if bi < level.buckets.len() {
            if level.buckets[bi].step_hash == h {
                hit = true;
            }
        }
        proof {
            if hit {
                assert(lv0[bi as int] == bucket_view(bseq0[bi as int]));
            }
        }
        if hit {
            let mut bucket = level.buckets.remove(bi);
            proof {
                assert(bucket_view(bucket) == lv0[bi as int]);
            }
            let (ti, present) = find_trace_pos(&bucket, &t);
            if present {
                level.buckets.insert(bi, bucket);
                proof {
                    assert(level.buckets@ =~= bseq0);
                    assert(level_view(level) == lv0);
                    assert(lv0[bi as int].0 == h && lv0[bi as int].1.contains(gt));
                    assert(level_contains(lv0, h, gt));
                    assert forall|hh: u64, tt: Seq<u64>|
                        level_contains(lv0, hh, tt) <==> (level_contains(lv0, hh, tt) || (hh == h
                            && tt == gt)) by {}
                    assert((forall|i: int| 0 <= i < lv0.len() ==> (#[trigger] lv0[i]).1.len() > 0)
                        ==> (forall|i: int|
                        0 <= i < level_view(level).len() ==> (#[trigger] level_view(level)[i]).1.len()
                            > 0));
                }
            } else {
                let ghost ts0 = traces_seq(bucket.traces@);
                bucket.traces.insert(ti, t);
                level.buckets.insert(bi, bucket);
                proof {
                    assert(traces_seq(level.buckets@[bi as int].traces@) =~= ts0.insert(
                        ti as int,
                        gt,
                    ));
                    assert(bucket_view(level.buckets@[bi as int]) == (
                        lv0[bi as int].0,
                        ts0.insert(ti as int, gt),
                    ));
                    assert(level_view(level) =~= lv0.update(
                        bi as int,
                        (lv0[bi as int].0, lv0[bi as int].1.insert(ti as int, gt)),
                    ));
                    lemma_level_update(lv0, level_view(level), bi as int, ti as int, gt, tlen as nat);
                    assert forall|i: int|
                        0 <= i < level_view(level).len() && (forall|i0: int|
                            0 <= i0 < lv0.len() ==> (#[trigger] lv0[i0]).1.len()
                                > 0) implies (#[trigger] level_view(level)[i]).1.len() > 0 by {
                        if i != bi {
                            assert(level_view(level)[i] == lv0[i]);
                        } else {
                            assert(level_view(level)[i].1.len() == lv0[bi as int].1.len() + 1);
                        }
                    }
                }
            }
        } else {
            let mut traces: Vec<Vec<u64>> = Vec::new();
            traces.push(t);
            let bucket = CovBucket { step_hash: h, traces };
            level.buckets.insert(bi, bucket);
            proof {
                assert(traces_seq(level.buckets@[bi as int].traces@) =~= seq![gt]);
                assert(bucket_view(level.buckets@[bi as int]) == (h, seq![gt]));
                assert(level_view(level) =~= lv0.insert(bi as int, (h, seq![gt])));
                assert forall|i: int| bi <= i < lv0.len() implies h < (#[trigger] lv0[i]).0 by {
                    if i > bi {
                        assert(lv0[bi as int].0 < lv0[i].0);
                    }
                }
                lemma_level_new_bucket(lv0, level_view(level), bi as int, h, gt, tlen as nat);
                assert forall|i: int|
                    0 <= i < level_view(level).len() && (forall|i0: int|
                        0 <= i0 < lv0.len() ==> (#[trigger] lv0[i0]).1.len()
                            > 0) implies (#[trigger] level_view(level)[i]).1.len() > 0 by {
                    if i < bi {
                        assert(level_view(level)[i] == lv0[i]);
                    } else if i == bi {
                        assert(level_view(level)[i].1 == seq![gt]);
                    } else {
                        assert(level_view(level)[i] == lv0[i - 1]);
                    }
                }
            }
        }
        let ghost lv1 = level_view(level);
        self.levels.insert(tlen - 1, level);
        proof {
            assert(db_view(*self) =~= dv1.update(tlen - 1, lv1));
            lemma_db_update(dv1, db_view(*self), tlen as nat, lv0, lv1, h, gt);
            if db_no_empty_buckets(dv0) {
                assert(db_no_empty_buckets(dv1)) by {
                    assert forall|k: int, i: int|
                        0 <= k < dv1.len() && 0 <= i < dv1[k].len() implies (#[trigger] dv1[k][i]).1.len()
                        > 0 by {
                        if k < dv0.len() {
                            assert(dv1[k] == dv0[k]);
                        }
                    }
                }
                assert forall|k: int, i: int|
                    0 <= k < db_view(*self).len() && 0 <= i < db_view(*self)[k].len() implies (
                #[trigger] db_view(*self)[k][i]).1.len() > 0 by {
                    if k != tlen - 1 {
                        assert(db_view(*self)[k] == dv1[k]);
                    } else {
                        assert(db_view(*self)[k] == lv1);
                    }
                }
            }
        }
    }
}

/// Pushing an empty level extends the view by an empty level and changes no
/// membership.
proof fn lemma_push_empty_level(
    dv0: Seq<Seq<(u64, Seq<Seq<u64>>)>>,
    dv1: Seq<Seq<(u64, Seq<Seq<u64>>)>>,
)
    requires
        db_wf(dv0),
        dv1 == dv0.push(Seq::<(u64, Seq<Seq<u64>>)>::empty()),
    ensures
        db_wf(dv1),
        dv1.len() == dv0.len() + 1,
        forall|len: nat, hh: u64, tt: Seq<u64>|
            db_contains(dv1, len, hh, tt) == db_contains(dv0, len, hh, tt),
{
    assert forall|k: int| 0 <= k < dv1.len() implies level_wf(#[trigger] dv1[k], (k + 1) as nat) by {
        if k < dv0.len() {
            assert(dv1[k] == dv0[k]);
        }
    }
    assert forall|len: nat, hh: u64, tt: Seq<u64>|
        db_contains(dv1, len, hh, tt) == db_contains(dv0, len, hh, tt) by {
        if 1 <= len <= dv0.len() {
            assert(dv1[len - 1] == dv0[len - 1]);
        } else if len == dv1.len() {
            assert(dv1[len - 1] == Seq::<(u64, Seq<Seq<u64>>)>::empty());
        }
    }
}

/// Inserting a trace into an existing bucket keeps the level well formed and
/// adds exactly that trace under exactly that bucket's hash.
proof fn lemma_level_update(
    lv0: Seq<(u64, Seq<Seq<u64>>)>,
    lv1: Seq<(u64, Seq<Seq<u64>>)>,
    bi: int,
    ti: int,
    t: Seq<u64>,
    tlen: nat,
)
    requires
        level_wf(lv0, tlen),
        t.len() == tlen,
        0 <= bi < lv0.len(),
        0 <= ti <= lv0[bi].1.len(),
        forall|i: int| 0 <= i < ti ==> trace_lt(#[trigger] lv0[bi].1[i], t),
        forall|i: int| ti <= i < lv0[bi].1.len() ==> trace_lt(t, #[trigger] lv0[bi].1[i]),
        lv1 == lv0.update(bi, (lv0[bi].0, lv0[bi].1.insert(ti, t))),
    ensures
        level_wf(lv1, tlen),
        lv1.len() == lv0.len(),
        forall|i: int| 0 <= i < lv1.len() ==> (#[trigger] lv1[i]).0 == lv0[i].0,
        forall|hh: u64, tt: Seq<u64>|
            level_contains(lv1, hh, tt) <==> (level_contains(lv0, hh, tt) || (hh == lv0[bi].0 && tt
                == t)),
{
    let ts0 = lv0[bi].1;
    let ts1 = ts0.insert(ti, t);
    assert(ts1.len() == ts0.len() + 1);
    assert forall|i: int| 0 <= i < ts1.len() implies (#[trigger] ts1[i]).len() == tlen by {
        if i < ti {
            assert(ts1[i] == ts0[i]);
        } else if i == ti {
            assert(ts1[i] == t);
        } else {
            assert(ts1[i] == ts0[i - 1]);
        }
    }
    assert forall|i: int, j: int| 0 <= i < j < ts1.len() implies trace_lt(ts1[i], ts1[j]) by {
        assert(i < ti ==> ts1[i] == ts0[i]);
        assert(i == ti ==> ts1[i] == t);
        assert(i > ti ==> ts1[i] == ts0[i - 1]);
        assert(j < ti ==> ts1[j] == ts0[j]);
        assert(j == ti ==> ts1[j] == t);
        assert(j > ti ==> ts1[j] == ts0[j - 1]);
    }
    assert forall|tt: Seq<u64>| ts1.contains(tt) <==> (ts0.contains(tt) || tt == t) by {
        if ts0.contains(tt) {
            let i = choose|i: int| 0 <= i < ts0.len() && ts0[i] == tt;
            if i < ti {
                assert(ts1[i] == tt);
            } else {
                assert(ts1[i + 1] == tt);
            }
            assert(ts1.contains(tt));
        }
        assert(ts1[ti] == t);
        assert(ts1.contains(t));
        if ts1.contains(tt) {
            let i = choose|i: int| 0 <= i < ts1.len() && ts1[i] == tt;
            if i < ti {
                assert(ts0[i] == tt);
                assert(ts0.contains(tt));
            } else if i > ti {
                assert(ts0[i - 1] == tt);
                assert(ts0.contains(tt));
            }
        }
    }
    assert forall|i: int| 0 <= i < lv1.len() implies traces_wf((#[trigger] lv1[i]).1, tlen) by {
        if i != bi {
            assert(lv1[i] == lv0[i]);
        }
    }
    assert forall|hh: u64, tt: Seq<u64>|
        level_contains(lv1, hh, tt) <==> (level_contains(lv0, hh, tt) || (hh == lv0[bi].0 && tt
            == t)) by {
        if level_contains(lv0, hh, tt) {
            let i = choose|i: int| 0 <= i < lv0.len() && lv0[i].0 == hh && lv0[i].1.contains(tt);
            if i == bi {
                assert(lv1[i].0 == hh && lv1[i].1.contains(tt));
            } else {
                assert(lv1[i] == lv0[i]);
            }
            assert(level_contains(lv1, hh, tt));
        }
        if hh == lv0[bi].0 && tt == t {
            assert(lv1[bi].0 == hh && lv1[bi].1.contains(tt));
            assert(level_contains(lv1, hh, tt));
        }
        if level_contains(lv1, hh, tt) {
            let i = choose|i: int| 0 <= i < lv1.len() && lv1[i].0 == hh && lv1[i].1.contains(tt);
            if i == bi {
                assert(lv0[i].0 == hh);
                assert(lv0[i].1.contains(tt) || tt == t);
            } else {
                assert(lv1[i] == lv0[i]);
                assert(level_contains(lv0, hh, tt));
            }
        }
    }
}

/// Inserting a fresh bucket keeps the level well formed and adds exactly the
/// one trace under exactly the new hash.
proof fn lemma_level_new_bucket(
    lv0: Seq<(u64, Seq<Seq<u64>>)>,
    lv1: Seq<(u64, Seq<Seq<u64>>)>,
    bi: int,
    h: u64,
    t: Seq<u64>,
    tlen: nat,
)
    requires
        level_wf(lv0, tlen),
        t.len() == tlen,
        0 <= bi <= lv0.len(),
        forall|i: int| 0 <= i < bi ==> (#[trigger] lv0[i]).0 < h,
        forall|i: int| bi <= i < lv0.len() ==> h < (#[trigger] lv0[i]).0,
        lv1 == lv0.insert(bi, (h, seq![t])),
    ensures
        level_wf(lv1, tlen),
        lv1.len() == lv0.len() + 1,
        forall|hh: u64, tt: Seq<u64>|
            level_contains(lv1, hh, tt) <==> (level_contains(lv0, hh, tt) || (hh == h && tt == t)),
{
    assert forall|i: int| 0 <= i < lv1.len() implies traces_wf((#[trigger] lv1[i]).1, tlen) by {
        if i < bi {
            assert(lv1[i] == lv0[i]);
        } else if i == bi {
            assert(lv1[i].1 == seq![t]);
            assert(seq![t][0] == t);
        } else {
            assert(lv1[i] == lv0[i - 1]);
        }
    }
    assert forall|i: int, j: int| 0 <= i < j < lv1.len() implies lv1[i].0 < lv1[j].0 by {
        assert(i < bi ==> lv1[i] == lv0[i]);
        assert(i == bi ==> lv1[i].0 == h);
        assert(i > bi ==> lv1[i] == lv0[i - 1]);
        assert(j < bi ==> lv1[j] == lv0[j]);
        assert(j == bi ==> lv1[j].0 == h);
        assert(j > bi ==> lv1[j] == lv0[j - 1]);
    }
    assert forall|hh: u64, tt: Seq<u64>|
        level_contains(lv1, hh, tt) <==> (level_contains(lv0, hh, tt) || (hh == h && tt == t)) by {
        if level_contains(lv0, hh, tt) {
            let i = choose|i: int| 0 <= i < lv0.len() && lv0[i].0 == hh && lv0[i].1.contains(tt);
            if i < bi {
                assert(lv1[i] == lv0[i]);
            } else {
                assert(lv1[i + 1] == lv0[i]);
            }
            assert(level_contains(lv1, hh, tt));
        }
        if hh == h && tt == t {
            assert(lv1[bi].0 == h);
            assert(seq![t][0] == t);
            assert(lv1[bi].1.contains(t));
            assert(level_contains(lv1, hh, tt));
        }
        if level_contains(lv1, hh, tt) {
            let i = choose|i: int| 0 <= i < lv1.len() && lv1[i].0 == hh && lv1[i].1.contains(tt);
            if i < bi {
                assert(lv0[i] == lv1[i]);
                assert(level_contains(lv0, hh, tt));
            } else if i == bi {
                assert(hh == h);
                assert(lv1[i].1 == seq![t]);
                let j = choose|j: int| 0 <= j < seq![t].len() && seq![t][j] == tt;
                assert(tt == t);
            } else {
                assert(lv0[i - 1] == lv1[i]);
                assert(level_contains(lv0, hh, tt));
            }
        }
    }
}

/// Replacing one level with one of equal or one-greater content carries the
/// membership change of that level to the whole database.
proof fn lemma_db_update(
    dv1: Seq<Seq<(u64, Seq<Seq<u64>>)>>,
    dv2: Seq<Seq<(u64, Seq<Seq<u64>>)>>,
    tlen: nat,
    lv0: Seq<(u64, Seq<Seq<u64>>)>,
    lv1: Seq<(u64, Seq<Seq<u64>>)>,
    h: u64,
    t: Seq<u64>,
)
    requires
        db_wf(dv1),
        1 <= tlen <= dv1.len(),
        dv1[tlen - 1] == lv0,
        level_wf(lv1, tlen),
        t.len() == tlen,
        dv2 == dv1.update(tlen - 1, lv1),
        forall|hh: u64, tt: Seq<u64>|
            level_contains(lv1, hh, tt) <==> (level_contains(lv0, hh, tt) || (hh == h && tt == t)),
    ensures
        db_wf(dv2),
        dv2.len() == dv1.len(),
        forall|len: nat, hh: u64, tt: Seq<u64>|
            db_contains(dv2, len, hh, tt) <==> (db_contains(dv1, len, hh, tt) || (len == tlen && hh
                == h && tt == t)),
{
    assert forall|k: int| 0 <= k < dv2.len() implies level_wf(#[trigger] dv2[k], (k + 1) as nat) by {
        if k != tlen - 1 {
            assert(dv2[k] == dv1[k]);
        }
    }
    assert forall|len: nat, hh: u64, tt: Seq<u64>|
        db_contains(dv2, len, hh, tt) <==> (db_contains(dv1, len, hh, tt) || (len == tlen && hh == h
            && tt == t)) by {
        if 1 <= len <= dv1.len() && len != tlen {
            assert(dv2[len - 1] == dv1[len - 1]);
        }
    }
}


/// The packed form of a bucket's traces: their samples, in order.
pub open spec fn ser_traces(ts: Seq<Seq<u64>>) -> Seq<u64>
    decreases ts.len(),
{
    if ts.len() == 0 {
        Seq::empty()
    } else {
        ts[0] + ser_traces(ts.drop_first())
    }
}

/// The packed form of a level's buckets: hash, trace count, traces, repeated.
pub open spec fn ser_buckets(bs: Seq<(u64, Seq<Seq<u64>>)>) -> Seq<u64>
    decreases bs.len(),
{
    if bs.len() == 0 {
        Seq::empty()
    } else {
        seq![bs[0].0, bs[0].1.len() as u64] + ser_traces(bs[0].1) + ser_buckets(bs.drop_first())
    }
}

/// The packed form of a database's levels: bucket count then buckets, per
/// level in ascending prefix length.
pub open spec fn ser_levels(ls: Seq<Seq<(u64, Seq<Seq<u64>>)>>) -> Seq<u64>
    decreases ls.len(),
{
    if ls.len() == 0 {
        Seq::empty()
    } else {
        seq![ls[0].len() as u64] + ser_buckets(ls[0]) + ser_levels(ls.drop_first())
    }
}

/// The packed word form of the whole database: the number of prefix lengths,
/// then every level.
pub open spec fn ser_db(dv: Seq<Seq<(u64, Seq<Seq<u64>>)>>) -> Seq<u64> {
    seq![dv.len() as u64] + ser_levels(dv)
}

/// Every count in the database fits the 64-bit fields of the packed form;
/// true of any database actually held in memory.
pub open spec fn db_bounded(dv: Seq<Seq<(u64, Seq<Seq<u64>>)>>) -> bool {
    &&& dv.len() <= u64::MAX
    &&& forall|k: int| 0 <= k < dv.len() ==> (#[trigger] dv[k]).len() <= u64::MAX
    &&& forall|k: int, i: int|
        0 <= k < dv.len() && 0 <= i < dv[k].len() ==> (#[trigger] dv[k][i]).1.len() <= u64::MAX
}

/// Serialization of traces distributes over concatenation.
proof fn lemma_ser_traces_concat(s1: Seq<Seq<u64>>, s2: Seq<Seq<u64>>)
    ensures
        ser_traces(s1 + s2) == ser_traces(s1) + ser_traces(s2),
    decreases s1.len(),
{
    if s1.len() == 0 {
        assert(s1 + s2 =~= s2);
        assert(ser_traces(s1) + ser_traces(s2) =~= ser_traces(s2));
    } else {
        lemma_ser_traces_concat(s1.drop_first(), s2);
        assert((s1 + s2).drop_first() =~= s1.drop_first() + s2);
        assert((s1 + s2)[0] == s1[0]);
        assert(s1[0] + (ser_traces(s1.drop_first()) + ser_traces(s2)) =~= (s1[0] + ser_traces(
            s1.drop_first(),
        )) + ser_traces(s2));
    }
}

/// Serialization of buckets distributes over concatenation.
proof fn lemma_ser_buckets_concat(s1: Seq<(u64, Seq<Seq<u64>>)>, s2: Seq<(u64, Seq<Seq<u64>>)>)
    ensures
        ser_buckets(s1 + s2) == ser_buckets(s1) + ser_buckets(s2),
    decreases s1.len(),
{
    if s1.len() == 0 {
        assert(s1 + s2 =~= s2);
        assert(ser_buckets(s1) + ser_buckets(s2) =~= ser_buckets(s2));
    } else {
        lemma_ser_buckets_concat(s1.drop_first(), s2);
        assert((s1 + s2).drop_first() =~= s1.drop_first() + s2);
        assert((s1 + s2)[0] == s1[0]);
        let head = seq![s1[0].0, s1[0].1.len() as u64] + ser_traces(s1[0].1);
        assert(head + (ser_buckets(s1.drop_first()) + ser_buckets(s2)) =~= (head + ser_buckets(
            s1.drop_first(),
        )) + ser_buckets(s2));
    }
}

/// Serialization of levels distributes over concatenation.
proof fn lemma_ser_levels_concat(
    s1: Seq<Seq<(u64, Seq<Seq<u64>>)>>,
    s2: Seq<Seq<(u64, Seq<Seq<u64>>)>>,
)
    ensures
        ser_levels(s1 + s2) == ser_levels(s1) + ser_levels(s2),
    decreases s1.len(),
{
    if s1.len() == 0 {
        assert(s1 + s2 =~= s2);
        assert(ser_levels(s1) + ser_levels(s2) =~= ser_levels(s2));
    } else {
        lemma_ser_levels_concat(s1.drop_first(), s2);
        assert((s1 + s2).drop_first() =~= s1.drop_first() + s2);
        assert((s1 + s2)[0] == s1[0]);
        let head = seq![s1[0].len() as u64] + ser_buckets(s1[0]);
        assert(head + (ser_levels(s1.drop_first()) + ser_levels(s2)) =~= (head + ser_levels(
            s1.drop_first(),
        )) + ser_levels(s2));
    }
}

/// The serialization of a single trace.
proof fn lemma_ser_one_trace(t: Seq<u64>)
    ensures
        ser_traces(seq![t]) == t,
{
    assert(seq![t].drop_first() =~= Seq::<Seq<u64>>::empty());
    assert(seq![t][0] == t);
    assert(ser_traces(Seq::<Seq<u64>>::empty()) =~= Seq::<u64>::empty());
    assert(t + Seq::<u64>::empty() =~= t);
}

/// The serialization of a single bucket.
proof fn lemma_ser_one_bucket(b: (u64, Seq<Seq<u64>>))
    ensures
        ser_buckets(seq![b]) == seq![b.0, b.1.len() as u64] + ser_traces(b.1),
{
    assert(seq![b].drop_first() =~= Seq::<(u64, Seq<Seq<u64>>)>::empty());
    assert(seq![b][0] == b);
    assert(ser_buckets(Seq::<(u64, Seq<Seq<u64>>)>::empty()) =~= Seq::<u64>::empty());
    assert((seq![b.0, b.1.len() as u64] + ser_traces(b.1)) + Seq::<u64>::empty() =~= seq![
        b.0,
        b.1.len() as u64,
    ] + ser_traces(b.1));
}

/// The serialization of a single level.
proof fn lemma_ser_one_level(lv: Seq<(u64, Seq<Seq<u64>>)>)
    ensures
        ser_levels(seq![lv]) == seq![lv.len() as u64] + ser_buckets(lv),
{
    assert(seq![lv].drop_first() =~= Seq::<Seq<(u64, Seq<Seq<u64>>)>>::empty());
    assert(seq![lv][0] == lv);
    assert(ser_levels(Seq::<Seq<(u64, Seq<Seq<u64>>)>>::empty()) =~= Seq::<u64>::empty());
    assert((seq![lv.len() as u64] + ser_buckets(lv)) + Seq::<u64>::empty() =~= seq![
        lv.len() as u64,
    ] + ser_buckets(lv));
}

impl CovDb {
    /// Serializes the database into its packed word form.
    pub fn to_words(&self) -> (ws: Vec<u64>)
        ensures
            ws@ == ser_db(db_view(*self)),
    {
        let ghost dv = db_view(*self);
        let mut ws: Vec<u64> = Vec::new();
        ws.push(self.levels.len() as u64);
        proof {
            assert(ws@ =~= seq![dv.len() as u64] + ser_levels(dv.take(0)));
        }
        let mut k: usize = 0;
        while k < self.levels.len()
            invariant
                k <= self.levels@.len(),
                dv == db_view(*self),
                dv.len() == self.levels@.len(),
                ws@ == seq![dv.len() as u64] + ser_levels(dv.take(k as int)),
            decreases self.levels@.len() - k,
        {
            let ghost lv = dv[k as int];
            proof {
                assert(lv == level_view(self.levels@[k as int]));
            }
            let level = &self.levels[k];
            ws.push(level.buckets.len() as u64);
            let ghost wsl = ws@;
            proof {
                assert(wsl =~= (seq![dv.len() as u64] + ser_levels(dv.take(k as int))) + (seq![
                    lv.len() as u64,
                ] + ser_buckets(lv.take(0))));
            }
            let mut b: usize = 0;
            while b < level.buckets.len()
                invariant
                    b <= level.buckets@.len(),
                    lv == level_view(*level),
                    lv.len() == level.buckets@.len(),
                    wsl == seq![dv.len() as u64] + ser_levels(dv.take(k as int)) + seq![
                        lv.len() as u64,
                    ],
                    ws@ == wsl + ser_buckets(lv.take(b as int)),
                decreases level.buckets@.len() - b,
            {
                let ghost bv = lv[b as int];
                proof {
                    assert(bv == bucket_view(level.buckets@[b as int]));
                }
                let bucket = &level.buckets[b];
                ws.push(bucket.step_hash);
                ws.push(bucket.traces.len() as u64);
                let ghost wsb = ws@;
                proof {
                    assert(wsb =~= wsl + ser_buckets(lv.take(b as int)) + (seq![
                        bv.0,
                        bv.1.len() as u64,
                    ] + ser_traces(bv.1.take(0))));
                }
                let mut j: usize = 0;
                while j < bucket.traces.len()
                    invariant
                        j <= bucket.traces@.len(),
                        bv == bucket_view(*bucket),
                        bv.1.len() == bucket.traces@.len(),
                        wsb == wsl + ser_buckets(lv.take(b as int)) + seq![bv.0, bv.1.len() as u64],
                        ws@ == wsb + ser_traces(bv.1.take(j as int)),
                    decreases bucket.traces@.len() - j,
                {
                    let ghost tv = bv.1[j as int];
                    proof {
                        assert(tv == bucket.traces@[j as int]@);
                    }
                    let t = &bucket.traces[j];
                    let ghost wst = ws@;
                    let mut m: usize = 0;
                    while m < t.len()
                        invariant
                            m <= t@.len(),
                            tv == t@,
                            ws@ == wst + tv.take(m as int),
                        decreases t@.len() - m,
                    {
                        ws.push(t[m]);
                        proof {
                            assert(wst + tv.take(m as int) + seq![tv[m as int]] =~= wst + tv.take(
                                m + 1,
                            ));
                        }
                        m = m + 1;
                    }
                    proof {
                        assert(tv.take(tv.len() as int) =~= tv);
                        assert(bv.1.take(j + 1) =~= bv.1.take(j as int) + seq![tv]);
                        lemma_ser_traces_concat(bv.1.take(j as int), seq![tv]);
                        lemma_ser_one_trace(tv);
                        assert(ws@ =~= wsb + ser_traces(bv.1.take(j + 1)));
                    }
                    j = j + 1;
                }
                proof {
                    assert(bv.1.take(bv.1.len() as int) =~= bv.1);
                    assert(lv.take(b + 1) =~= lv.take(b as int) + seq![bv]);
                    lemma_ser_buckets_concat(lv.take(b as int), seq![bv]);
                    lemma_ser_one_bucket(bv);
                    assert(ws@ =~= wsl + ser_buckets(lv.take(b + 1)));
                }
                b = b + 1;
            }
            proof {
                assert(lv.take(lv.len() as int) =~= lv);
                assert(dv.take(k + 1) =~= dv.take(k as int) + seq![lv]);
                lemma_ser_levels_concat(dv.take(k as int), seq![lv]);
                lemma_ser_one_level(lv);
                assert(ws@ =~= seq![dv.len() as u64] + ser_levels(dv.take(k + 1)));
            }
            k = k + 1;
        }
        proof {
            assert(dv.take(dv.len() as int) =~= dv);
            assert(ws@ =~= ser_db(dv));
        }
        ws
    }

    /// Serializes the database into its packed little-endian byte form, the
    /// exact content of the coverage file.
    pub fn to_bytes(&self) -> (bs: Vec<u8>)
        ensures
            bs@ == crate::bytes::bytes_of_words(ser_db(db_view(*self))),
    {
        let ws = self.to_words();
        crate::bytes::encode_words(&ws)
    }
}


/// Reads `count` traces of `tlen` words each off the front of `w`.
pub open spec fn parse_traces(w: Seq<u64>, count: nat, tlen: nat) -> Option<(Seq<Seq<u64>>, Seq<u64>)>
    decreases count,
{
    if count == 0 {
        Some((Seq::empty(), w))
    } else if w.len() < tlen {
        None
    } else {
        match parse_traces(w.skip(tlen as int), (count - 1) as nat, tlen) {
            None => None,
            Some((ts, rest)) => Some((seq![w.take(tlen as int)] + ts, rest)),
        }
    }
}

/// Reads `count` buckets (hash, trace count, traces) off the front of `w`.
pub open spec fn parse_buckets(w: Seq<u64>, count: nat, tlen: nat) -> Option<
    (Seq<(u64, Seq<Seq<u64>>)>, Seq<u64>),
>
    decreases count,
{
    if count == 0 {
        Some((Seq::empty(), w))
    } else if w.len() < 2 {
        None
    } else {
        match parse_traces(w.skip(2), w[1] as nat, tlen) {
            None => None,
            Some((ts, rest1)) => match parse_buckets(rest1, (count - 1) as nat, tlen) {
                None => None,
                Some((bs, rest)) => Some((seq![(w[0], ts)] + bs, rest)),
            },
        }
    }
}

/// Reads `count` levels off the front of `w`, the first holding traces of
/// length `tlen`, each following level one longer.
pub open spec fn parse_levels(w: Seq<u64>, count: nat, tlen: nat) -> Option<
    (Seq<Seq<(u64, Seq<Seq<u64>>)>>, Seq<u64>),
>
    decreases count,
{
    if count == 0 {
        Some((Seq::empty(), w))
    } else if w.len() < 1 {
        None
    } else {
        match parse_buckets(w.skip(1), w[0] as nat, tlen) {
            None => None,
            Some((bs, rest1)) => match parse_levels(rest1, (count - 1) as nat, tlen + 1) {
                None => None,
                Some((ls, rest)) => Some((seq![bs] + ls, rest)),
            },
        }
    }
}

/// Reads a whole database; every word must be consumed.
pub open spec fn parse_db(w: Seq<u64>) -> Option<Seq<Seq<(u64, Seq<Seq<u64>>)>>> {
    if w.len() < 1 {
        None
    } else {
        match parse_levels(w.skip(1), w[0] as nat, 1) {
            None => None,
            Some((ls, rest)) => if rest.len() == 0 {
                Some(ls)
            } else {
                None
            },
        }
    }
}

/// What a coverage file means: its words must parse exactly and the database
/// they describe must be canonically ordered.
pub open spec fn loadable(bs: Seq<u8>) -> Option<Seq<Seq<(u64, Seq<Seq<u64>>)>>> {
    if bs.len() % 8 != 0 {
        None
    } else {
        match parse_db(crate::bytes::words_of_bytes(bs)) {
            None => None,
            Some(dv) => if db_wf(dv) {
                Some(dv)
            } else {
                None
            },
        }
    }
}

/// Prefixes an already-parsed run onto a parse of the remainder.
pub open spec fn prepend_parsed<A>(acc: Seq<A>, r: Option<(Seq<A>, Seq<u64>)>) -> Option<
    (Seq<A>, Seq<u64>),
> {
    match r {
        None => None,
        Some((v, rest)) => Some((acc + v, rest)),
    }
}

/// Prefixing composes.
proof fn lemma_prepend_compose<A>(a: Seq<A>, b: Seq<A>, r: Option<(Seq<A>, Seq<u64>)>)
    ensures
        prepend_parsed(a, prepend_parsed(b, r)) == prepend_parsed(a + b, r),
{
    match r {
        None => {},
        Some((v, rest)) => {
            assert(a + (b + v) =~= (a + b) + v);
        },
    }
}

/// Prefixing the empty run changes nothing.
proof fn lemma_prepend_empty<A>(r: Option<(Seq<A>, Seq<u64>)>)
    ensures
        prepend_parsed(Seq::<A>::empty(), r) == r,
{
    match r {
        None => {},
        Some((v, rest)) => {
            assert(Seq::<A>::empty() + v =~= v);
        },
    }
}

/// A successful trace parse leaves a suffix no longer than its input.
proof fn lemma_parse_traces_suffix(w: Seq<u64>, count: nat, tlen: nat)
    ensures
        parse_traces(w, count, tlen) matches Some(p) ==> p.1.len() <= w.len(),
    decreases count,
{
    if count > 0 && w.len() >= tlen {
        lemma_parse_traces_suffix(w.skip(tlen as int), (count - 1) as nat, tlen);
    }
}

/// A successful bucket parse consumes at least two words per bucket.
proof fn lemma_parse_buckets_suffix(w: Seq<u64>, count: nat, tlen: nat)
    ensures
        parse_buckets(w, count, tlen) matches Some(p) ==> p.1.len() + 2 * count <= w.len(),
    decreases count,
{
    if count > 0 && w.len() >= 2 {
        match parse_traces(w.skip(2), w[1] as nat, tlen) {
            None => {},
            Some((ts, rest1)) => {
                lemma_parse_traces_suffix(w.skip(2), w[1] as nat, tlen);
                lemma_parse_buckets_suffix(rest1, (count - 1) as nat, tlen);
            },
        }
    }
}

/// More levels than words cannot parse: each level takes at least one word.
proof fn lemma_parse_levels_short(w: Seq<u64>, count: nat, tlen: nat)
    requires
        count > w.len(),
    ensures
        parse_levels(w, count, tlen) is None,
    decreases count,
{
    if w.len() >= 1 {
        match parse_buckets(w.skip(1), w[0] as nat, tlen) {
            None => {},
            Some((bs, rest1)) => {
                lemma_parse_buckets_suffix(w.skip(1), w[0] as nat, tlen);
                lemma_parse_levels_short(rest1, (count - 1) as nat, (tlen + 1) as nat);
            },
        }
    }
}

/// Reads `count` traces of `tlen` words each, starting at word `pos`.
fn parse_traces_exec(ws: &Vec<u64>, pos: usize, count: u64, tlen: usize) -> (r: Option<
    (Vec<Vec<u64>>, usize),
>)
    requires
        pos <= ws@.len(),
    ensures
        match r {
            Some(p) => {
                &&& pos <= p.1 <= ws@.len()
                &&& parse_traces(ws@.skip(pos as int), count as nat, tlen as nat) == Some(
                    (traces_seq(p.0@), ws@.skip(p.1 as int)),
                )
            },
            None => parse_traces(ws@.skip(pos as int), count as nat, tlen as nat) is None,
        },
{
    let ghost w0 = ws@.skip(pos as int);
    let wslen = ws.len();
    let mut acc: Vec<Vec<u64>> = Vec::new();
    let mut done: u64 = 0;
    let mut cur: usize = pos;
    proof {
        assert(traces_seq(acc@) =~= Seq::<Seq<u64>>::empty());
        lemma_prepend_empty(parse_traces(w0, count as nat, tlen as nat));
    }
    while done < count
        invariant
            pos <= cur <= ws@.len(),
            wslen == ws@.len(),
            done <= count,
            w0 == ws@.skip(pos as int),
            parse_traces(w0, count as nat, tlen as nat) == prepend_parsed(
                traces_seq(acc@),
                parse_traces(ws@.skip(cur as int), (count - done) as nat, tlen as nat),
            ),
        decreases count - done,
    {
        if tlen > wslen - cur {
            proof {
                assert(ws@.skip(cur as int).len() < tlen);
                assert(parse_traces(ws@.skip(cur as int), (count - done) as nat, tlen as nat)
                    is None);
            }
            return None;
        }
        let mut t: Vec<u64> = Vec::new();
        let mut m: usize = 0;
        while m < tlen
            invariant
                m <= tlen,
                cur + tlen <= ws@.len(),
                ws@.len() <= usize::MAX,
                t@ == ws@.subrange(cur as int, cur + m),
            decreases tlen - m,
        {
            t.push(ws[cur + m]);
            proof {
                assert(ws@.subrange(cur as int, cur + m).push(ws@[cur + m]) =~= ws@.subrange(
                    cur as int,
                    cur + m + 1,
                ));
            }
            m = m + 1;
        }
        let ghost oldcur = cur as int;
        let ghost oldacc = acc@;
        let ghost tv = t@;
        acc.push(t);
        cur = cur + tlen;
        done = done + 1;
        proof {
            let c = (count - done + 1) as nat;
            let wa = ws@.skip(oldcur);
            assert(wa.len() >= tlen);
            assert(wa.skip(tlen as int) =~= ws@.skip(cur as int));
            assert(wa.take(tlen as int) =~= ws@.subrange(oldcur, oldcur + tlen));
            assert(wa.take(tlen as int) == tv);
            assert(parse_traces(wa, c, tlen as nat) == prepend_parsed(
                seq![tv],
                parse_traces(ws@.skip(cur as int), (c - 1) as nat, tlen as nat),
            ));
            lemma_prepend_compose(
                traces_seq(oldacc),
                seq![tv],
                parse_traces(ws@.skip(cur as int), (c - 1) as nat, tlen as nat),
            );
            assert(traces_seq(acc@) =~= traces_seq(oldacc) + seq![tv]);
        }
    }
    proof {
        assert(parse_traces(ws@.skip(cur as int), 0, tlen as nat) == Some(
            (Seq::<Seq<u64>>::empty(), ws@.skip(cur as int)),
        ));
        assert(traces_seq(acc@) + Seq::<Seq<u64>>::empty() =~= traces_seq(acc@));
    }
    Some((acc, cur))
}

/// Reads `count` buckets, starting at word `pos`.
fn parse_buckets_exec(ws: &Vec<u64>, pos: usize, count: u64, tlen: usize) -> (r: Option<
    (Vec<CovBucket>, usize),
>)
    requires
        pos <= ws@.len(),
    ensures
        match r {
            Some(p) => {
                &&& pos <= p.1 <= ws@.len()
                &&& parse_buckets(ws@.skip(pos as int), count as nat, tlen as nat) == Some(
                    (p.0@.map_values(|b: CovBucket| bucket_view(b)), ws@.skip(p.1 as int)),
                )
            },
            None => parse_buckets(ws@.skip(pos as int), count as nat, tlen as nat) is None,
        },
{
    let ghost w0 = ws@.skip(pos as int);
    let mut acc: Vec<CovBucket> = Vec::new();
    let mut done: u64 = 0;
    let mut cur: usize = pos;
    proof {
        assert(acc@.map_values(|b: CovBucket| bucket_view(b)) =~= Seq::<
            (u64, Seq<Seq<u64>>),
        >::empty());
        lemma_prepend_empty(parse_buckets(w0, count as nat, tlen as nat));
    }
    while done < count
        invariant
            pos <= cur <= ws@.len(),
            done <= count,
            w0 == ws@.skip(pos as int),
            parse_buckets(w0, count as nat, tlen as nat) == prepend_parsed(
                acc@.map_values(|b: CovBucket| bucket_view(b)),
                parse_buckets(ws@.skip(cur as int), (count - done) as nat, tlen as nat),
            ),
        decreases count - done,
    {
        if ws.len() - cur < 2 {
            proof {
                assert(ws@.skip(cur as int).len() < 2);
            }
            return None;
        }
        let h = ws[cur];
        let tc = ws[cur + 1];
        let ghost wa = ws@.skip(cur as int);
        proof {
            assert(wa[0] == ws@[cur as int]);
            assert(wa[1] == ws@[cur as int + 1]);
            assert(wa.skip(2) =~= ws@.skip(cur + 2));
        }
        match parse_traces_exec(ws, cur + 2, tc, tlen) {
            None => {
                proof {
                    assert(parse_buckets(wa, (count - done) as nat, tlen as nat) is None);
                }
                return None;
            },
            Some((tsv, newpos)) => {
                let ghost oldacc = acc@;
                let ghost tsview = traces_seq(tsv@);
                acc.push(CovBucket { step_hash: h, traces: tsv });
                cur = newpos;
                done = done + 1;
                proof {
                    let c = (count - done + 1) as nat;
                    let newb = acc@.last();
                    assert(bucket_view(newb) == (h, tsview));
                    assert(parse_buckets(wa, c, tlen as nat) == prepend_parsed(
                        seq![bucket_view(newb)],
                        parse_buckets(ws@.skip(cur as int), (c - 1) as nat, tlen as nat),
                    ));
                    lemma_prepend_compose(
                        oldacc.map_values(|b: CovBucket| bucket_view(b)),
                        seq![bucket_view(newb)],
                        parse_buckets(ws@.skip(cur as int), (c - 1) as nat, tlen as nat),
                    );
                    assert(acc@.map_values(|b: CovBucket| bucket_view(b)) =~= oldacc.map_values(
                        |b: CovBucket| bucket_view(b),
                    ) + seq![bucket_view(newb)]);
                }
            },
        }
    }
    proof {
        assert(parse_buckets(ws@.skip(cur as int), 0, tlen as nat) == Some(
            (Seq::<(u64, Seq<Seq<u64>>)>::empty(), ws@.skip(cur as int)),
        ));
        assert(acc@.map_values(|b: CovBucket| bucket_view(b)) + Seq::<(u64, Seq<Seq<u64>>)>::empty()
            =~= acc@.map_values(|b: CovBucket| bucket_view(b)));
    }
    Some((acc, cur))
}

/// Parses a whole packed word stream into a database, requiring every word
/// to be consumed; the result may still need its ordering checked.
fn parse_words_exec(ws: &Vec<u64>) -> (r: Option<CovDb>)
    ensures
        match r {
            Some(db) => parse_db(ws@) == Some(db_view(db)),
            None => parse_db(ws@) is None,
        },
{
    if ws.len() < 1 {
        return None;
    }
    let count = ws[0];
    if count > (ws.len() - 1) as u64 {
        proof {
            lemma_parse_levels_short(ws@.skip(1), count as nat, 1);
        }
        return None;
    }
    let ghost w0 = ws@.skip(1);
    let mut acc: Vec<CovLevel> = Vec::new();
    let mut done: u64 = 0;
    let mut cur: usize = 1;
    proof {
        assert(acc@.map_values(|l: CovLevel| level_view(l)) =~= Seq::<
            Seq<(u64, Seq<Seq<u64>>)>,
        >::empty());
        lemma_prepend_empty(parse_levels(w0, count as nat, 1));
    }
    while done < count
        invariant
            1 <= cur <= ws@.len(),
            ws@.len() <= usize::MAX,
            done <= count,
            count <= ws@.len() - 1,
            count == ws@[0],
            w0 == ws@.skip(1),
            parse_levels(w0, count as nat, 1) == prepend_parsed(
                acc@.map_values(|l: CovLevel| level_view(l)),
                parse_levels(ws@.skip(cur as int), (count - done) as nat, (done + 1) as nat),
            ),
        decreases count - done,
    {
        let tlen = (done as usize) + 1;
        if ws.len() - cur < 1 {
            proof {
                assert(ws@.skip(cur as int).len() < 1);
            }
            return None;
        }
        let bc = ws[cur];
        let ghost wa = ws@.skip(cur as int);
        proof {
            assert(wa[0] == ws@[cur as int]);
            assert(wa.skip(1) =~= ws@.skip(cur + 1));
        }
        match parse_buckets_exec(ws, cur + 1, bc, tlen) {
            None => {
                proof {
                    assert(parse_levels(wa, (count - done) as nat, tlen as nat) is None);
                }
                return None;
            },
            Some((bsv, newpos)) => {
                let ghost oldacc = acc@;
                let ghost bsview = bsv@.map_values(|b: CovBucket| bucket_view(b));
                acc.push(CovLevel { buckets: bsv });
                cur = newpos;
                done = done + 1;
                proof {
                    let c = (count - done + 1) as nat;
                    let newl = acc@.last();
                    assert(level_view(newl) == bsview);
                    assert(parse_levels(wa, c, tlen as nat) == prepend_parsed(
                        seq![level_view(newl)],
                        parse_levels(ws@.skip(cur as int), (c - 1) as nat, (tlen + 1) as nat),
                    ));
                    lemma_prepend_compose(
                        oldacc.map_values(|l: CovLevel| level_view(l)),
                        seq![level_view(newl)],
                        parse_levels(ws@.skip(cur as int), (c - 1) as nat, (tlen + 1) as nat),
                    );
                    assert(acc@.map_values(|l: CovLevel| level_view(l)) =~= oldacc.map_values(
                        |l: CovLevel| level_view(l),
                    ) + seq![level_view(newl)]);
                }
            },
        }
    }
    proof {
        assert(parse_levels(ws@.skip(cur as int), 0, (done + 1) as nat) == Some(
            (Seq::<Seq<(u64, Seq<Seq<u64>>)>>::empty(), ws@.skip(cur as int)),
        ));
        assert(acc@.map_values(|l: CovLevel| level_view(l)) + Seq::<
            Seq<(u64, Seq<Seq<u64>>)>,
        >::empty() =~= acc@.map_values(|l: CovLevel| level_view(l)));
    }
    if cur != ws.len() {
        proof {
            assert(ws@.skip(cur as int).len() != 0);
        }
        return None;
    }
    let db = CovDb { levels: acc };
    proof {
        assert(ws@.skip(cur as int).len() == 0);
        assert(db_view(db) == db.levels@.map_values(|l: CovLevel| level_view(l)));
    }
    Some(db)
}


impl CovDb {
    /// Checks that the database is canonically ordered and sized, level by
    /// level, comparing neighbours only.
    fn is_canonical(&self) -> (b: bool)
        ensures
            b == db_wf(db_view(*self)),
    {
        let ghost dv = db_view(*self);
        let nlevels = self.levels.len();
        let mut k: usize = 0;
        while k < nlevels
            invariant
                k <= nlevels,
                dv == db_view(*self),
                nlevels == dv.len(),
                forall|kk: int| 0 <= kk < k ==> level_wf(#[trigger] dv[kk], (kk + 1) as nat),
            decreases nlevels - k,
        {
            let ghost lv = dv[k as int];
            proof {
                assert(lv == level_view(self.levels@[k as int]));
            }
            let level = &self.levels[k];
            let tlen = k + 1;
            let nbuckets = level.buckets.len();
            let mut b: usize = 0;
            while b < nbuckets
                invariant
                    b <= nbuckets,
                    tlen == k + 1,
                    dv == db_view(*self),
                    k < dv.len(),
                    lv == level_view(*level),
                    lv == dv[k as int],
                    nbuckets == lv.len(),
                    forall|i: int| 0 <= i < b ==> traces_wf((#[trigger] lv[i]).1, tlen as nat),
                    forall|i: int, j: int| 0 <= i < j < b ==> lv[i].0 < lv[j].0,
                decreases nbuckets - b,
            {
                let ghost bv = lv[b as int];
                proof {
                    assert(bv == bucket_view(level.buckets@[b as int]));
                }
                let bucket = &level.buckets[b];
                let ntraces = bucket.traces.len();
                let mut j: usize = 0;
                while j < ntraces
                    invariant
                        j <= ntraces,
                        bv == bucket_view(*bucket),
                        ntraces == bv.1.len(),
                        dv == db_view(*self),
                        k < dv.len(),
                        b < lv.len(),
                        tlen == k + 1,
                        lv == dv[k as int],
                        bv == lv[b as int],
                        forall|i: int| 0 <= i < j ==> (#[trigger] bv.1[i]).len() == tlen,
                        forall|i: int, m: int| 0 <= i < m < j ==> trace_lt(bv.1[i], bv.1[m]),
                    decreases ntraces - j,
                {
                    proof {
                        assert(bv.1[j as int] == bucket.traces@[j as int]@);
                    }
                    if bucket.traces[j].len() != tlen {
                        proof {
                            assert(!traces_wf(bv.1, tlen as nat));
                            assert(!level_wf(lv, tlen as nat));
                            assert(!db_wf(dv));
                        }
                        return false;
                    }
                    if j > 0 {
                        proof {
                            assert(bv.1[j - 1] == bucket.traces@[j - 1]@);
                        }
                        let in_order = match trace_cmp(&bucket.traces[j - 1], &bucket.traces[j]) {
                            TraceOrder::Less => true,
                            TraceOrder::Equal => false,
                            TraceOrder::Greater => false,
                        };
                        if !in_order {
                            proof {
                                assert(!trace_lt(bv.1[j - 1], bv.1[j as int]));
                                assert(!traces_wf(bv.1, tlen as nat));
                                assert(!level_wf(lv, tlen as nat));
                                assert(!db_wf(dv));
                            }
                            return false;
                        }
                    }
                    proof {
                        assert forall|i: int| 0 <= i < j implies trace_lt(
                            bv.1[i],
                            bv.1[j as int],
                        ) by {
                            if i < j - 1 {
                                lemma_trace_lt_trans(bv.1[i], bv.1[j - 1], bv.1[j as int]);
                            }
                        }
                    }
                    j = j + 1;
                }
                if b > 0 {
                    proof {
                        assert(lv[b - 1] == bucket_view(level.buckets@[b - 1]));
                    }
                    if level.buckets[b - 1].step_hash >= level.buckets[b].step_hash {
                        proof {
                            assert(!(lv[b - 1].0 < lv[b as int].0));
                            assert(!level_wf(lv, tlen as nat));
                            assert(!db_wf(dv));
                        }
                        return false;
                    }
                }
                b = b + 1;
            }
            k = k + 1;
        }
        proof {
            assert(db_wf(dv));
        }
        true
    }

    /// Loads a database from the exact content of the coverage file: the
    /// bytes must pack whole words, the words must parse with nothing left
    /// over, and the result must be canonically ordered.
    pub fn from_bytes(bs: &Vec<u8>) -> (r: Option<CovDb>)
        ensures
            match r {
                Some(db) => db.wf() && loadable(bs@) == Some(db_view(db)),
                None => loadable(bs@) is None,
            },
    {
        if bs.len() % 8 != 0 {
            return None;
        }
        let ws = crate::bytes::decode_words(bs);
        match parse_words_exec(&ws) {
            None => None,
            Some(db) => {
                if db.is_canonical() {
                    Some(db)
                } else {
                    None
                }
            },
        }
    }
}

/// Parsing inverts serialization for a run of traces.
proof fn lemma_parse_ser_traces(ts: Seq<Seq<u64>>, tlen: nat, rest: Seq<u64>)
    requires
        forall|i: int| 0 <= i < ts.len() ==> (#[trigger] ts[i]).len() == tlen,
    ensures
        parse_traces(ser_traces(ts) + rest, ts.len(), tlen) == Some((ts, rest)),
    decreases ts.len(),
{
    if ts.len() == 0 {
        assert(ser_traces(ts) + rest =~= rest);
        assert(ts =~= Seq::<Seq<u64>>::empty());
    } else {
        let dt = ts.drop_first();
        lemma_parse_ser_traces(dt, tlen, rest);
        let w = ser_traces(ts) + rest;
        assert(w =~= ts[0] + (ser_traces(dt) + rest));
        assert(w.len() >= tlen);
        assert(w.take(tlen as int) =~= ts[0]);
        assert(w.skip(tlen as int) =~= ser_traces(dt) + rest);
        assert(seq![ts[0]] + dt =~= ts);
    }
}

/// Parsing inverts serialization for a run of buckets.
proof fn lemma_parse_ser_buckets(bs: Seq<(u64, Seq<Seq<u64>>)>, tlen: nat, rest: Seq<u64>)
    requires
        forall|i: int, m: int|
            0 <= i < bs.len() && 0 <= m < bs[i].1.len() ==> (#[trigger] bs[i].1[m]).len() == tlen,
        forall|i: int| 0 <= i < bs.len() ==> (#[trigger] bs[i]).1.len() <= u64::MAX,
    ensures
        parse_buckets(ser_buckets(bs) + rest, bs.len(), tlen) == Some((bs, rest)),
    decreases bs.len(),
{
    if bs.len() == 0 {
        assert(ser_buckets(bs) + rest =~= rest);
        assert(bs =~= Seq::<(u64, Seq<Seq<u64>>)>::empty());
    } else {
        let b0 = bs[0];
        let dbs = bs.drop_first();
        assert(forall|i: int, m: int|
            0 <= i < dbs.len() && 0 <= m < dbs[i].1.len() ==> (#[trigger] dbs[i].1[m]).len()
                == tlen) by {
            assert(forall|i: int| 0 <= i < dbs.len() ==> dbs[i] == bs[i + 1]);
        }
        lemma_parse_ser_buckets(dbs, tlen, rest);
        lemma_parse_ser_traces(b0.1, tlen, ser_buckets(dbs) + rest);
        let w = ser_buckets(bs) + rest;
        assert(w =~= seq![b0.0, b0.1.len() as u64] + (ser_traces(b0.1) + (ser_buckets(dbs)
            + rest)));
        assert(w.len() >= 2);
        assert(w[0] == b0.0);
        assert(w[1] == b0.1.len() as u64);
        assert(w[1] as nat == b0.1.len());
        assert(w.skip(2) =~= ser_traces(b0.1) + (ser_buckets(dbs) + rest));
        assert(parse_traces(w.skip(2), b0.1.len(), tlen) == Some((b0.1, ser_buckets(dbs) + rest)));
        assert(seq![(w[0], b0.1)] + dbs =~= bs);
    }
}

/// Parsing inverts serialization for a run of levels starting at prefix
/// length `k`.
proof fn lemma_parse_ser_levels(ls: Seq<Seq<(u64, Seq<Seq<u64>>)>>, k: nat, rest: Seq<u64>)
    requires
        forall|i: int| 0 <= i < ls.len() ==> level_wf(#[trigger] ls[i], (k + i) as nat),
        forall|i: int| 0 <= i < ls.len() ==> (#[trigger] ls[i]).len() <= u64::MAX,
        forall|i: int, m: int|
            0 <= i < ls.len() && 0 <= m < ls[i].len() ==> (#[trigger] ls[i][m]).1.len()
                <= u64::MAX,
    ensures
        parse_levels(ser_levels(ls) + rest, ls.len(), k) == Some((ls, rest)),
    decreases ls.len(),
{
    if ls.len() == 0 {
        assert(ser_levels(ls) + rest =~= rest);
        assert(ls =~= Seq::<Seq<(u64, Seq<Seq<u64>>)>>::empty());
    } else {
        let l0 = ls[0];
        let dls = ls.drop_first();
        assert(forall|i: int| 0 <= i < dls.len() ==> dls[i] == ls[i + 1]);
        lemma_parse_ser_levels(dls, (k + 1) as nat, rest);
        assert(level_wf(l0, k));
        assert(forall|i: int, m: int|
            0 <= i < l0.len() && 0 <= m < l0[i].1.len() ==> (#[trigger] l0[i].1[m]).len() == k) by {
            assert(forall|i: int| 0 <= i < l0.len() ==> traces_wf((#[trigger] l0[i]).1, k));
        }
        lemma_parse_ser_buckets(l0, k, ser_levels(dls) + rest);
        let w = ser_levels(ls) + rest;
        assert(w =~= seq![l0.len() as u64] + (ser_buckets(l0) + (ser_levels(dls) + rest)));
        assert(w.len() >= 1);
        assert(w[0] == l0.len() as u64);
        assert(w[0] as nat == l0.len());
        assert(w.skip(1) =~= ser_buckets(l0) + (ser_levels(dls) + rest));
        assert(parse_buckets(w.skip(1), l0.len(), k) == Some((l0, ser_levels(dls) + rest)));
        assert(seq![l0] + dls =~= ls);
    }
}

/// Parsing inverts serialization for a whole well-formed database.
proof fn lemma_parse_ser_db(dv: Seq<Seq<(u64, Seq<Seq<u64>>)>>)
    requires
        db_wf(dv),
        db_bounded(dv),
    ensures
        parse_db(ser_db(dv)) == Some(dv),
{
    assert(forall|i: int| 0 <= i < dv.len() ==> level_wf(#[trigger] dv[i], (1 + i) as nat));
    lemma_parse_ser_levels(dv, 1, Seq::<u64>::empty());
    let w = ser_db(dv);
    assert(w.len() >= 1);
    assert(w[0] == dv.len() as u64);
    assert(w[0] as nat == dv.len());
    assert(w.skip(1) =~= ser_levels(dv) + Seq::<u64>::empty());
    assert(parse_levels(w.skip(1), dv.len(), 1) == Some((dv, Seq::<u64>::empty())));
}

/// Any database actually held in memory has counts that fit the packed
/// form's 64-bit fields.
pub proof fn lemma_db_bounded(d: CovDb)
    ensures
        db_bounded(db_view(d)),
{
    let dv = db_view(d);
    assert(dv.len() == d.levels@.len());
    assert(d.levels@.len() <= usize::MAX) by {
        assert(vstd::std_specs::vec::spec_vec_len(&d.levels) == d.levels@.len());
    }
    assert forall|k: int| 0 <= k < dv.len() implies (#[trigger] dv[k]).len() <= u64::MAX by {
        assert(dv[k] == level_view(d.levels@[k]));
        assert(vstd::std_specs::vec::spec_vec_len(&d.levels@[k].buckets) == d.levels@[k].buckets@.len());
    }
    assert forall|k: int, i: int|
        0 <= k < dv.len() && 0 <= i < dv[k].len() implies (#[trigger] dv[k][i]).1.len()
        <= u64::MAX by {
        assert(dv[k] == level_view(d.levels@[k]));
        assert(dv[k][i] == bucket_view(d.levels@[k].buckets@[i]));
        assert(vstd::std_specs::vec::spec_vec_len(&d.levels@[k].buckets@[i].traces)
            == d.levels@[k].buckets@[i].traces@.len());
    }
}

/// Round trip: the exact bytes saved from a well-formed database load back
/// to the bit-identical database.
pub proof fn lemma_save_load_round_trip(d: CovDb)
    requires
        d.wf(),
    ensures
        loadable(crate::bytes::bytes_of_words(ser_db(db_view(d)))) == Some(db_view(d)),
{
    let dv = db_view(d);
    lemma_db_bounded(d);
    lemma_parse_ser_db(dv);
    let bs = crate::bytes::bytes_of_words(ser_db(dv));
    crate::bytes::lemma_bytes_of_words_len(ser_db(dv));
    assert(bs.len() % 8 == 0);
    crate::bytes::lemma_words_of_bytes_of_words(ser_db(dv));
    assert(crate::bytes::words_of_bytes(bs) == ser_db(dv));
}


impl CovDb {
    /// Whether trace `t` stands under key `(t.len(), h)`.
    pub fn contains_trace(&self, h: u64, t: &Vec<u64>) -> (b: bool)
        requires
            self.wf(),
        ensures
            b == db_contains(db_view(*self), t@.len() as nat, h, t@),
    {
        let ghost dv = db_view(*self);
        let tlen = t.len();
        if tlen == 0 || tlen > self.levels.len() {
            return false;
        }
        proof {
            assert(level_wf(dv[tlen - 1], tlen as nat));
            assert(dv[tlen - 1] == level_view(self.levels@[tlen - 1]));
        }
        let level = &self.levels[tlen - 1];
        let ghost lv = level_view(*level);
        let bi = find_bucket_pos(level, h);
        if bi >= level.buckets.len() {
            proof {
                lemma_no_bucket(lv, h, bi as int);
            }
            return false;
        }
        proof {
            assert(lv[bi as int] == bucket_view(level.buckets@[bi as int]));
        }
        if level.buckets[bi].step_hash != h {
            proof {
                lemma_no_bucket(lv, h, bi as int);
            }
            return false;
        }
        let bucket = &level.buckets[bi];
        let (_, present) = find_trace_pos(bucket, t);
        proof {
            if present {
                assert(lv[bi as int].0 == h && lv[bi as int].1.contains(t@));
                assert(level_contains(lv, h, t@));
            } else {
                assert forall|i: int|
                    0 <= i < lv.len() && (#[trigger] lv[i]).0 == h implies !lv[i].1.contains(
                    t@,
                ) by {
                    if i < bi {
                        assert(lv[i].0 < h);
                    } else if i > bi {
                        assert(lv[bi as int].0 < lv[i].0);
                    }
                }
            }
        }
        present
    }
}

/// If the search stopped without landing on a bucket with hash `h`, no
/// bucket of the sorted level has it.
proof fn lemma_no_bucket(lv: Seq<(u64, Seq<Seq<u64>>)>, h: u64, bi: int)
    requires
        0 <= bi <= lv.len(),
        forall|i: int, j: int| 0 <= i < j < lv.len() ==> lv[i].0 < lv[j].0,
        forall|i: int| 0 <= i < bi ==> (#[trigger] lv[i]).0 < h,
        bi < lv.len() ==> lv[bi].0 != h && lv[bi].0 >= h,
    ensures
        forall|t: Seq<u64>| !level_contains(lv, h, t),
{
    assert forall|i: int| 0 <= i < lv.len() implies (#[trigger] lv[i]).0 != h by {
        if i >= bi {
            if bi < lv.len() {
                if i > bi {
                    assert(lv[bi].0 < lv[i].0);
                }
            }
        }
    }
}


/// No bucket is empty: every hash present holds at least one trace. Holds
/// of every database the merge builds; only a loaded file can carry an
/// empty bucket.
pub open spec fn db_no_empty_buckets(dv: Seq<Seq<(u64, Seq<Seq<u64>>)>>) -> bool {
    forall|k: int, i: int|
        0 <= k < dv.len() && 0 <= i < dv[k].len() ==> (#[trigger] dv[k][i]).1.len() > 0
}

/// Two strictly ordered trace sets with the same members are the same
/// sequence.
proof fn lemma_traces_unique(ts1: Seq<Seq<u64>>, ts2: Seq<Seq<u64>>, tlen: nat)
    requires
        traces_wf(ts1, tlen),
        traces_wf(ts2, tlen),
        forall|t: Seq<u64>| ts1.contains(t) <==> ts2.contains(t),
    ensures
        ts1 == ts2,
    decreases ts1.len(),
{
    if ts1.len() == 0 {
        if ts2.len() > 0 {
            assert(ts2.contains(ts2[0]));
            assert(ts1.contains(ts2[0]));
        }
        assert(ts1 =~= ts2);
    } else if ts2.len() == 0 {
        assert(ts1.contains(ts1[0]));
        assert(ts2.contains(ts1[0]));
    } else {
        assert(ts1.contains(ts1[0]));
        assert(ts2.contains(ts2[0]));
        assert(ts2.contains(ts1[0]));
        assert(ts1.contains(ts2[0]));
        let j = choose|j: int| 0 <= j < ts2.len() && (#[trigger] ts2[j]) == ts1[0];
        let i = choose|i: int| 0 <= i < ts1.len() && (#[trigger] ts1[i]) == ts2[0];
        if ts1[0] != ts2[0] {
            lemma_trace_order_total(ts1[0], ts2[0]);
            if trace_lt(ts1[0], ts2[0]) {
                assert(j > 0);
                assert(trace_lt(ts2[0], ts2[j]));
                lemma_trace_order_total(ts2[0], ts2[j]);
            } else {
                assert(i > 0);
                assert(trace_lt(ts1[0], ts1[i]));
                lemma_trace_order_total(ts1[0], ts1[i]);
            }
        }
        let t1 = ts1.drop_first();
        let t2 = ts2.drop_first();
        assert(forall|a: int| 0 <= a < t1.len() ==> t1[a] == ts1[a + 1]);
        assert(forall|a: int| 0 <= a < t2.len() ==> t2[a] == ts2[a + 1]);
        assert(traces_wf(t1, tlen)) by {
            assert(forall|a: int, b: int|
                0 <= a < b < t1.len() ==> trace_lt(#[trigger] ts1[a + 1], #[trigger] ts1[b + 1]));
        }
        assert(traces_wf(t2, tlen)) by {
            assert(forall|a: int, b: int|
                0 <= a < b < t2.len() ==> trace_lt(#[trigger] ts2[a + 1], #[trigger] ts2[b + 1]));
        }
        assert forall|t: Seq<u64>| t1.contains(t) <==> t2.contains(t) by {
            if t1.contains(t) {
                let a = choose|a: int| 0 <= a < t1.len() && (#[trigger] t1[a]) == t;
                assert(ts1[a + 1] == t);
                assert(ts1.contains(t));
                assert(ts2.contains(t));
                let b = choose|b: int| 0 <= b < ts2.len() && (#[trigger] ts2[b]) == t;
                assert(trace_lt(ts1[0], ts1[a + 1]));
                lemma_trace_order_total(ts1[0], t);
                assert(t != ts2[0]);
                assert(b > 0);
                assert(t2[b - 1] == t);
                assert(t2.contains(t));
            }
            if t2.contains(t) {
                let a = choose|a: int| 0 <= a < t2.len() && (#[trigger] t2[a]) == t;
                assert(ts2[a + 1] == t);
                assert(ts2.contains(t));
                assert(ts1.contains(t));
                let b = choose|b: int| 0 <= b < ts1.len() && (#[trigger] ts1[b]) == t;
                assert(trace_lt(ts2[0], ts2[a + 1]));
                lemma_trace_order_total(ts2[0], t);
                assert(t != ts1[0]);
                assert(b > 0);
                assert(t1[b - 1] == t);
                assert(t1.contains(t));
            }
        }
        lemma_traces_unique(t1, t2, tlen);
        assert forall|a: int| 0 <= a < ts1.len() implies ts1[a] == ts2[a] by {
            if a > 0 {
                assert(t1[a - 1] == t2[a - 1]);
            }
        }
        assert(ts1 =~= ts2);
    }
}

/// Two hash-ordered levels without empty buckets and with the same members
/// are the same sequence.
proof fn lemma_level_unique(
    lv1: Seq<(u64, Seq<Seq<u64>>)>,
    lv2: Seq<(u64, Seq<Seq<u64>>)>,
    tlen: nat,
)
    requires
        level_wf(lv1, tlen),
        level_wf(lv2, tlen),
        forall|i: int| 0 <= i < lv1.len() ==> (#[trigger] lv1[i]).1.len() > 0,
        forall|i: int| 0 <= i < lv2.len() ==> (#[trigger] lv2[i]).1.len() > 0,
        forall|h: u64, t: Seq<u64>| level_contains(lv1, h, t) <==> level_contains(lv2, h, t),
    ensures
        lv1 == lv2,
    decreases lv1.len(),
{
    if lv1.len() == 0 {
        if lv2.len() > 0 {
            assert(lv2[0].1.contains(lv2[0].1[0]));
            assert(level_contains(lv2, lv2[0].0, lv2[0].1[0]));
            assert(level_contains(lv1, lv2[0].0, lv2[0].1[0]));
        }
        assert(lv1 =~= lv2);
    } else if lv2.len() == 0 {
        assert(lv1[0].1.contains(lv1[0].1[0]));
        assert(level_contains(lv1, lv1[0].0, lv1[0].1[0]));
        assert(level_contains(lv2, lv1[0].0, lv1[0].1[0]));
    } else {
        // the head hashes are the least members on both sides, so they agree
        assert(lv1[0].1.contains(lv1[0].1[0]));
        assert(level_contains(lv1, lv1[0].0, lv1[0].1[0]));
        assert(level_contains(lv2, lv1[0].0, lv1[0].1[0]));
        assert(lv2[0].1.contains(lv2[0].1[0]));
        assert(level_contains(lv2, lv2[0].0, lv2[0].1[0]));
        assert(level_contains(lv1, lv2[0].0, lv2[0].1[0]));
        if lv1[0].0 < lv2[0].0 {
            let j = choose|j: int|
                0 <= j < lv2.len() && (#[trigger] lv2[j]).0 == lv1[0].0 && lv2[j].1.contains(
                    lv1[0].1[0],
                );
            assert(j > 0 ==> lv2[0].0 < lv2[j].0);
            assert(false);
        }
        if lv2[0].0 < lv1[0].0 {
            let j = choose|j: int|
                0 <= j < lv1.len() && (#[trigger] lv1[j]).0 == lv2[0].0 && lv1[j].1.contains(
                    lv2[0].1[0],
                );
            assert(j > 0 ==> lv1[0].0 < lv1[j].0);
            assert(false);
        }
        assert(lv1[0].0 == lv2[0].0);
        // the head buckets hold the same traces
        assert forall|t: Seq<u64>| lv1[0].1.contains(t) <==> lv2[0].1.contains(t) by {
            if lv1[0].1.contains(t) {
                assert(level_contains(lv1, lv1[0].0, t));
                assert(level_contains(lv2, lv1[0].0, t));
                let j = choose|j: int|
                    0 <= j < lv2.len() && (#[trigger] lv2[j]).0 == lv1[0].0 && lv2[j].1.contains(t);
                assert(j > 0 ==> lv2[0].0 < lv2[j].0);
                assert(j == 0);
            }
            if lv2[0].1.contains(t) {
                assert(level_contains(lv2, lv2[0].0, t));
                assert(level_contains(lv1, lv2[0].0, t));
                let j = choose|j: int|
                    0 <= j < lv1.len() && (#[trigger] lv1[j]).0 == lv2[0].0 && lv1[j].1.contains(t);
                assert(j > 0 ==> lv1[0].0 < lv1[j].0);
                assert(j == 0);
            }
        }
        lemma_traces_unique(lv1[0].1, lv2[0].1, tlen);
        assert(lv1[0] == lv2[0]);
        // the tails hold the same members: nothing under the head hash
        let t1 = lv1.drop_first();
        let t2 = lv2.drop_first();
        assert(forall|a: int| 0 <= a < t1.len() ==> t1[a] == lv1[a + 1]);
        assert(forall|a: int| 0 <= a < t2.len() ==> t2[a] == lv2[a + 1]);
        assert(level_wf(t1, tlen)) by {
            assert(forall|a: int| 0 <= a < t1.len() ==> traces_wf((#[trigger] lv1[a + 1]).1, tlen));
            assert(forall|a: int, b: int|
                0 <= a < b < t1.len() ==> (#[trigger] lv1[a + 1]).0 < (#[trigger] lv1[b + 1]).0);
        }
        assert(level_wf(t2, tlen)) by {
            assert(forall|a: int| 0 <= a < t2.len() ==> traces_wf((#[trigger] lv2[a + 1]).1, tlen));
            assert(forall|a: int, b: int|
                0 <= a < b < t2.len() ==> (#[trigger] lv2[a + 1]).0 < (#[trigger] lv2[b + 1]).0);
        }
        assert forall|h: u64, t: Seq<u64>| level_contains(t1, h, t) <==> level_contains(t2, h, t) by {
            if level_contains(t1, h, t) {
                let a = choose|a: int|
                    0 <= a < t1.len() && (#[trigger] t1[a]).0 == h && t1[a].1.contains(t);
                assert(lv1[a + 1].0 == h && lv1[a + 1].1.contains(t));
                assert(level_contains(lv1, h, t));
                assert(level_contains(lv2, h, t));
                assert(lv1[0].0 < lv1[a + 1].0);
                let b = choose|b: int|
                    0 <= b < lv2.len() && (#[trigger] lv2[b]).0 == h && lv2[b].1.contains(t);
                assert(b > 0);
                assert(t2[b - 1].0 == h && t2[b - 1].1.contains(t));
                assert(level_contains(t2, h, t));
            }
            if level_contains(t2, h, t) {
                let a = choose|a: int|
                    0 <= a < t2.len() && (#[trigger] t2[a]).0 == h && t2[a].1.contains(t);
                assert(lv2[a + 1].0 == h && lv2[a + 1].1.contains(t));
                assert(level_contains(lv2, h, t));
                assert(level_contains(lv1, h, t));
                assert(lv2[0].0 < lv2[a + 1].0);
                let b = choose|b: int|
                    0 <= b < lv1.len() && (#[trigger] lv1[b]).0 == h && lv1[b].1.contains(t);
                assert(b > 0);
                assert(t1[b - 1].0 == h && t1[b - 1].1.contains(t));
                assert(level_contains(t1, h, t));
            }
        }
        assert forall|i: int| 0 <= i < t1.len() implies (#[trigger] t1[i]).1.len() > 0 by {
            assert(t1[i] == lv1[i + 1]);
        }
        assert forall|i: int| 0 <= i < t2.len() implies (#[trigger] t2[i]).1.len() > 0 by {
            assert(t2[i] == lv2[i + 1]);
        }
        lemma_level_unique(t1, t2, tlen);
        assert forall|a: int| 0 <= a < lv1.len() implies lv1[a] == lv2[a] by {
            if a > 0 {
                assert(t1[a - 1] == t2[a - 1]);
            }
        }
        assert(lv1 =~= lv2);
    }
}

/// The canonical form is unique: two well-formed databases without empty
/// buckets, spanning the same prefix lengths and holding the same traces
/// under the same keys, are the same database — so the membership a merge
/// establishes pins the database, and with it the saved file, completely.
pub proof fn lemma_canonical_unique(
    dv1: Seq<Seq<(u64, Seq<Seq<u64>>)>>,
    dv2: Seq<Seq<(u64, Seq<Seq<u64>>)>>,
)
    requires
        db_wf(dv1),
        db_wf(dv2),
        db_no_empty_buckets(dv1),
        db_no_empty_buckets(dv2),
        dv1.len() == dv2.len(),
        forall|len: nat, h: u64, t: Seq<u64>|
            db_contains(dv1, len, h, t) <==> db_contains(dv2, len, h, t),
    ensures
        dv1 == dv2,
{
    assert forall|k: int| 0 <= k < dv1.len() implies dv1[k] == dv2[k] by {
        assert(level_wf(dv1[k], (k + 1) as nat));
        assert(level_wf(dv2[k], (k + 1) as nat));
        assert forall|h: u64, t: Seq<u64>|
            level_contains(dv1[k], h, t) <==> level_contains(dv2[k], h, t) by {
            assert(db_contains(dv1, (k + 1) as nat, h, t) == level_contains(dv1[k], h, t));
            assert(db_contains(dv2, (k + 1) as nat, h, t) == level_contains(dv2[k], h, t));
        }
        assert forall|i: int| 0 <= i < dv1[k].len() implies (#[trigger] dv1[k][i]).1.len() > 0 by {}
        assert forall|i: int| 0 <= i < dv2[k].len() implies (#[trigger] dv2[k][i]).1.len() > 0 by {}
        lemma_level_unique(dv1[k], dv2[k], (k + 1) as nat);
    }
    assert(dv1 =~= dv2);
}

} // verus!
