//! The fuzzing controller: seed corpus bookkeeping and coverage aggregation.
//!
//! The corpus is two directories of integer-named seed files. `tried/` holds
//! exactly the ids below the cursor, `queue/` exactly the ids from the cursor
//! up to the counter; the head of the queue is the current seed. Per-session
//! coverage is folded into the coverage database under rolling step-hashes.
//! The controller works on plain values — directory listings, file bytes —
//! and leaves reading and writing them to its caller.

use vstd::prelude::*;

verus! {

use crate::cov::CovDb;
use crate::cov::db_view;
use crate::cov::db_contains;
use crate::cov::loadable;
use crate::cov::ser_db;
use crate::hash::xxh64_digest;
use crate::hash::xxh64_with_seed;
use crate::hash::xxh64_write_word;
use crate::hash::xxh64_finish;
use crate::bytes::words_of_bytes;
use crate::bytes::bytes_of_words;
use crate::bytes::decode_words;

/// The xxHash seed shared with the guest.
pub const GUEST_XXHASH_SEED: u64 = 1;

/// Why the corpus or a session artifact was rejected.
#[derive(Clone, Copy, Debug, PartialEq, Eq, Structural)]
pub enum CorpusError {
    /// A corpus file name that is not a decimal seed id.
    InvalidSeedName,
    /// The same id stands in both tried and queue.
    OverlappingSeeds,
    /// The tried ids do not form a contiguous range from 0.
    MissingTriedSeed,
    /// The queue ids do not continue contiguously from the tried ids.
    MissingQueueSeed,
    /// The coverage file is not an exactly-consumed, canonical packed database.
    InvalidCoverageFile,
    /// A session coverage stream whose byte length is not a whole number of words.
    InvalidCoverageLength,
}

/// An ASCII decimal digit.
pub open spec fn is_digit_byte(b: u8) -> bool {
    48 <= b <= 57
}

/// The value of a decimal digit string.
pub open spec fn dec_value(s: Seq<u8>) -> int
    decreases s.len(),
{
    if s.len() == 0 {
        0
    } else {
        dec_value(s.drop_last()) * 10 + (s.last() - 48)
    }
}

/// A file name that denotes a seed id: one or more digits whose value fits
/// the id space.
pub open spec fn valid_seed_name(s: Seq<u8>) -> bool {
    &&& s.len() >= 1
    &&& forall|i: int| 0 <= i < s.len() ==> is_digit_byte(#[trigger] s[i])
    &&& dec_value(s) <= usize::MAX
}

/// A longer digit string is worth at least as much as its prefix.
proof fn lemma_dec_value_prefix(s: Seq<u8>, i: int)
    requires
        0 <= i <= s.len(),
        forall|j: int| 0 <= j < s.len() ==> is_digit_byte(#[trigger] s[j]),
    ensures
        dec_value(s.take(i)) <= dec_value(s),
        dec_value(s) >= 0,
    decreases s.len(),
{
    if s.len() == 0 {
        assert(s.take(i) =~= s);
    } else {
        let d = s.drop_last();
        assert(forall|j: int| 0 <= j < d.len() ==> d[j] == s[j]);
        lemma_dec_value_prefix(d, if i <= d.len() {
            i
        } else {
            d.len() as int
        });
        if i <= d.len() {
            assert(s.take(i) =~= d.take(i));
            assert(dec_value(d) * 10 + (s.last() - 48) >= dec_value(d));
        } else {
            assert(s.take(i) =~= s);
        }
    }
}

/// Reads a decimal seed id off a file name.
pub fn parse_seed_name(name: &Vec<u8>) -> (r: Option<usize>)
    ensures
        match r {
            Some(v) => valid_seed_name(name@) && v == dec_value(name@),
            None => !valid_seed_name(name@),
        },
{
    if name.len() == 0 {
        return None;
    }
    let mut value: u128 = 0;
    let mut i: usize = 0;
    while i < name.len()
        invariant
            0 <= i <= name@.len(),
            name@.len() >= 1,
            forall|j: int| 0 <= j < i ==> is_digit_byte(#[trigger] name@[j]),
            value == dec_value(name@.take(i as int)),
            value <= usize::MAX,
        decreases name@.len() - i,
    {
        let b = name[i];
        if b < 48 || b > 57 {
            return None;
        }
        let d = (b - 48) as u128;
        if value > (usize::MAX as u128 - d) / 10 {
            proof {
                assert(value * 10 + d > usize::MAX);
                assert(name@.take(i + 1).drop_last() =~= name@.take(i as int));
                assert(name@.take(i + 1).last() == name@[i as int]);
                assert(dec_value(name@.take(i + 1)) == value * 10 + d);
                if forall|j: int| 0 <= j < name@.len() ==> is_digit_byte(#[trigger] name@[j]) {
                    lemma_dec_value_prefix(name@, i + 1);
                }
            }
            return None;
        }
        value = value * 10 + d;
        proof {
            assert(name@.take(i + 1).drop_last() =~= name@.take(i as int));
            assert(name@.take(i + 1).last() == name@[i as int]);
        }
        i = i + 1;
    }
    proof {
        assert(name@.take(name@.len() as int) =~= name@);
    }
    Some(value as usize)
}

/// Whether `x` is one of the listed ids.
pub open spec fn id_in(ids: Seq<usize>, x: int) -> bool {
    exists|i: int| 0 <= i < ids.len() && ids[i] == x
}

/// The listed ids are exactly the range `[0, t)`.
pub open spec fn ids_are_range(ids: Seq<usize>, lo: int, hi: int) -> bool {
    forall|x: int| id_in(ids, x) <==> lo <= x < hi
}

/// Sequence membership and id membership agree on id values.
proof fn lemma_contains_id_in(ids: Seq<usize>, x: usize)
    ensures
        ids.contains(x) <==> id_in(ids, x as int),
{
    if ids.contains(x) {
        let k = choose|k: int| 0 <= k < ids.len() && (#[trigger] ids[k]) == x;
        assert(id_in(ids, x as int));
    }
    if id_in(ids, x as int) {
        let k = choose|k: int| 0 <= k < ids.len() && (#[trigger] ids[k]) == x as int;
        assert(ids[k] == x);
        assert(ids.contains(x));
    }
}

/// Inserting into a sequence adds exactly one element to its members.
proof fn lemma_insert_contains(s: Seq<usize>, i: int, x: usize)
    requires
        0 <= i <= s.len(),
    ensures
        forall|y: usize| #[trigger] s.insert(i, x).contains(y) <==> s.contains(y) || y == x,
{
    let s1 = s.insert(i, x);
    assert forall|y: usize| s1.contains(y) <==> s.contains(y) || y == x by {
        if s.contains(y) {
            let m = choose|m: int| 0 <= m < s.len() && s[m] == y;
            if m < i {
                assert(s1[m] == y);
            } else {
                assert(s1[m + 1] == y);
            }
            assert(s1.contains(y));
        }
        assert(s1[i] == x);
        assert(s1.contains(x));
        if s1.contains(y) {
            let m = choose|m: int| 0 <= m < s1.len() && s1[m] == y;
            if m < i {
                assert(s[m] == y);
                assert(s.contains(y));
            } else if m > i {
                assert(s[m - 1] == y);
                assert(s.contains(y));
            }
        }
    }
}

/// Sorts the ids ascending and drops duplicates; membership is unchanged.
fn sorted_unique(ids: &Vec<usize>) -> (r: Vec<usize>)
    ensures
        r@.len() <= ids@.len(),
        forall|i: int, j: int| 0 <= i < j < r@.len() ==> r@[i] < r@[j],
        forall|x: usize| r@.contains(x) <==> ids@.contains(x),
{
    let mut r: Vec<usize> = Vec::new();
    let mut i: usize = 0;
    while i < ids.len()
        invariant
            i <= ids@.len(),
            r@.len() <= i,
            forall|a: int, b: int| 0 <= a < b < r@.len() ==> r@[a] < r@[b],
            forall|x: usize| r@.contains(x) <==> ids@.take(i as int).contains(x),
        decreases ids@.len() - i,
    {
        let v = ids[i];
        let mut pos: usize = 0;
        while pos < r.len() && r[pos] < v
            invariant
                pos <= r@.len(),
                forall|a: int| 0 <= a < pos ==> r@[a] < v,
                forall|a: int, b: int| 0 <= a < b < r@.len() ==> r@[a] < r@[b],
            decreases r@.len() - pos,
        {
            pos = pos + 1;
        }
        let ghost r0 = r@;
        let mut present = false;
        if pos < r.len() {
            if r[pos] == v {
                present = true;
            }
        }
        if present {
            proof {
                assert(r@[pos as int] == v);
                assert(r@.contains(v));
                assert(ids@.take(i + 1) =~= ids@.take(i as int).push(ids@[i as int]));
                assert forall|x: usize| r@.contains(x) <==> ids@.take(i + 1).contains(x) by {
                    if r@.contains(x) {
                        assert(ids@.take(i as int).contains(x));
                        let m = choose|m: int|
                            0 <= m < ids@.take(i as int).len() && (#[trigger] ids@.take(
                                i as int,
                            )[m]) == x;
                        assert(ids@.take(i + 1)[m] == x);
                        assert(ids@.take(i + 1).contains(x));
                    }
                    if ids@.take(i + 1).contains(x) {
                        let m = choose|m: int|
                            0 <= m < ids@.take(i + 1).len() && (#[trigger] ids@.take(i + 1)[m])
                                == x;
                        if m < i {
                            assert(ids@.take(i as int)[m] == x);
                            assert(ids@.take(i as int).contains(x));
                            assert(r@.contains(x));
                        } else {
                            assert(x == v);
                            assert(r@.contains(x));
                        }
                    }
                }
            }
        } else {
            r.insert(pos, v);
            proof {
                lemma_insert_contains(r0, pos as int, v);
                assert(r@ == r0.insert(pos as int, v));
                assert(r@.contains(v));
                assert forall|a: int, b: int| 0 <= a < b < r@.len() implies r@[a] < r@[b] by {
                    assert(a < pos ==> r@[a] == r0[a]);
                    assert(a == pos ==> r@[a] == v);
                    assert(a > pos ==> r@[a] == r0[a - 1]);
                    assert(b < pos ==> r@[b] == r0[b]);
                    assert(b == pos ==> r@[b] == v);
                    assert(b > pos ==> r@[b] == r0[b - 1]);
                    if b == pos && a < pos {
                        assert(r0[a] < v);
                    }
                    if a == pos && b > pos {
                        assert(r0[b - 1] >= v);
                        assert(r0[b - 1] != v);
                    }
                }
                assert(ids@.take(i + 1) =~= ids@.take(i as int).push(ids@[i as int]));
                assert forall|x: usize| r@.contains(x) <==> ids@.take(i + 1).contains(x) by {
                    if r@.contains(x) {
                        assert(r0.contains(x) || x == v);
                        if x == v {
                            assert(ids@.take(i + 1).last() == v);
                            assert(ids@.take(i + 1).contains(x));
                        } else {
                            assert(ids@.take(i as int).contains(x));
                            let m = choose|m: int|
                                0 <= m < ids@.take(i as int).len() && (#[trigger] ids@.take(
                                    i as int,
                                )[m]) == x;
                            assert(ids@.take(i + 1)[m] == x);
                            assert(ids@.take(i + 1).contains(x));
                        }
                    }
                    if ids@.take(i + 1).contains(x) {
                        let m = choose|m: int|
                            0 <= m < ids@.take(i + 1).len() && (#[trigger] ids@.take(i + 1)[m])
                                == x;
                        if m < i {
                            assert(ids@.take(i as int)[m] == x);
                            assert(ids@.take(i as int).contains(x));
                            assert(r0.contains(x));
                            assert(r@.contains(x));
                        } else {
                            assert(x == v);
                            assert(r@.contains(x));
                        }
                    }
                }
            }
        }
        i = i + 1;
    }
    proof {
        assert(ids@.take(ids@.len() as int) =~= ids@);
    }
    r
}


/// Checks whether `x` is among the ids.
fn contains_id(ids: &Vec<usize>, x: usize) -> (b: bool)
    ensures
        b == ids@.contains(x),
{
    let mut i: usize = 0;
    while i < ids.len()
        invariant
            i <= ids@.len(),
            forall|j: int| 0 <= j < i ==> ids@[j] != x,
        decreases ids@.len() - i,
    {
        if ids[i] == x {
            proof {
                assert(ids@[i as int] == x);
            }
            return true;
        }
        i = i + 1;
    }
    false
}

/// All names denote seed ids.
pub open spec fn all_valid_names(names: Seq<Vec<u8>>) -> bool {
    forall|i: int| 0 <= i < names.len() ==> valid_seed_name((#[trigger] names[i])@)
}

/// The ids the names denote, in order.
pub open spec fn name_ids(names: Seq<Vec<u8>>) -> Seq<usize> {
    Seq::new(names.len(), |i: int| dec_value(names[i]@) as usize)
}

/// Reads the seed ids off a directory listing, mirroring the check the
/// corpus scan makes on every entry.
pub fn parse_seed_ids(names: &Vec<Vec<u8>>) -> (r: Result<Vec<usize>, CorpusError>)
    ensures
        match r {
            Ok(ids) => all_valid_names(names@) && ids@ == name_ids(names@),
            Err(e) => e == CorpusError::InvalidSeedName && !all_valid_names(names@),
        },
{
    let mut ids: Vec<usize> = Vec::new();
    let mut i: usize = 0;
    while i < names.len()
        invariant
            i <= names@.len(),
            ids@.len() == i,
            forall|j: int| 0 <= j < i ==> valid_seed_name((#[trigger] names@[j])@),
            forall|j: int| 0 <= j < i ==> ids@[j] == name_ids(names@)[j],
        decreases names@.len() - i,
    {
        match parse_seed_name(&names[i]) {
            Some(v) => {
                ids.push(v);
            },
            None => {
                return Err(CorpusError::InvalidSeedName);
            },
        }
        i = i + 1;
    }
    proof {
        assert(ids@ =~= name_ids(names@));
    }
    Ok(ids)
}

/// The fuzzing controller: seed cursor and counter, the coverage database,
/// and the session counter, together with the ghost mirror of the two id
/// sets on disk.
pub struct Fuzzer {
    seed_cursor: usize,
    seed_counter: usize,
    coverage: CovDb,
    session_counter: usize,
    tried_ids: Ghost<Set<int>>,
    queue_ids: Ghost<Set<int>>,
}

/// What one completed session changes: the file content to persist and the
/// renames to mirror on disk.
pub struct SessionOutcome {
    /// Digest of the whole session coverage stream, for the log.
    pub cov_hash: u64,
    /// The new content of the coverage file; absent when the stream was empty.
    pub cov_file: Option<Vec<u8>>,
    /// The id given to the first newly discovered seed.
    pub first_new_id: usize,
    /// How many new seeds were enqueued.
    pub new_seeds: usize,
    /// The id retired from the queue into tried.
    pub retired_id: usize,
}

impl Fuzzer {
    /// The id below which every seed has been tried.
    pub closed spec fn cursor(self) -> int {
        self.seed_cursor as int
    }

    /// One past the largest id handed out.
    pub closed spec fn counter(self) -> int {
        self.seed_counter as int
    }

    /// The current session number.
    pub closed spec fn session(self) -> int {
        self.session_counter as int
    }

    /// The ids in `tried/` on disk.
    pub closed spec fn tried(self) -> Set<int> {
        self.tried_ids@
    }

    /// The ids in `queue/` on disk.
    pub closed spec fn queue(self) -> Set<int> {
        self.queue_ids@
    }

    /// The in-memory coverage database.
    pub closed spec fn cov(self) -> Seq<Seq<(u64, Seq<Seq<u64>>)>> {
        db_view(self.coverage)
    }

    /// The controller is consistent: the coverage database is canonical, the
    /// cursor splits the id space, and the two id sets are exactly the two
    /// sides of the split.
    pub closed spec fn wf(self) -> bool {
        &&& self.coverage.wf()
        &&& self.seed_cursor <= self.seed_counter
        &&& self.tried_ids@ == Set::new(|x: int| 0 <= x < self.seed_cursor)
        &&& self.queue_ids@ == Set::new(|x: int| self.seed_cursor <= x < self.seed_counter)
    }

    /// Builds the controller from the two directory listings and the content
    /// of the coverage file, if one exists. Returns the controller and
    /// whether a bootstrap seed must be deposited at `queue/0`.
    pub fn new(
        tried_names: &Vec<Vec<u8>>,
        queue_names: &Vec<Vec<u8>>,
        cov_bytes: &Option<Vec<u8>>,
    ) -> (r: Result<(Fuzzer, bool), CorpusError>)
        requires
            tried_names@.len() + queue_names@.len() <= usize::MAX,
        ensures
            match r {
                Ok(p) => {
                    &&& all_valid_names(tried_names@) && all_valid_names(queue_names@)
                    &&& p.0.wf()
                    &&& ids_are_range(name_ids(tried_names@), 0, p.0.cursor())
                    &&& p.1 == (tried_names@.len() == 0 && queue_names@.len() == 0)
                    &&& (p.1 ==> p.0.cursor() == 0 && p.0.counter() == 1)
                    &&& (!p.1 ==> ids_are_range(name_ids(queue_names@), p.0.cursor(), p.0.counter()))
                    &&& p.0.session() == 0
                    &&& match cov_bytes {
                        Option::None => p.0.cov().len() == 0,
                        Option::Some(b) => loadable(b@) == Some(p.0.cov()),
                    }
                },
                Err(e) => match e {
                    CorpusError::InvalidSeedName => !all_valid_names(tried_names@)
                        || !all_valid_names(queue_names@),
                    CorpusError::OverlappingSeeds => {
                        &&& all_valid_names(tried_names@) && all_valid_names(queue_names@)
                        &&& exists|x: int|
                            id_in(name_ids(tried_names@), x) && id_in(name_ids(queue_names@), x)
                    },
                    CorpusError::MissingTriedSeed => {
                        &&& all_valid_names(tried_names@) && all_valid_names(queue_names@)
                        &&& forall|x: int|
                            !(id_in(name_ids(tried_names@), x) && id_in(name_ids(queue_names@), x))
                        &&& forall|t: int| !ids_are_range(name_ids(tried_names@), 0, t)
                    },
                    CorpusError::MissingQueueSeed => {
                        &&& all_valid_names(tried_names@) && all_valid_names(queue_names@)
                        &&& forall|x: int|
                            !(id_in(name_ids(tried_names@), x) && id_in(name_ids(queue_names@), x))
                        &&& exists|t: int|
                            ids_are_range(name_ids(tried_names@), 0, t) && (forall|n: int|
                                !ids_are_range(name_ids(queue_names@), t, n))
                    },
                    CorpusError::InvalidCoverageFile => {
                        &&& cov_bytes matches Option::Some(b) && loadable(b@) is None
                    },
                    _ => false,
                },
            },
    {
        let ghost tids = name_ids(tried_names@);
        let ghost qids = name_ids(queue_names@);
        let tried_raw = match parse_seed_ids(tried_names) {
            Ok(v) => v,
            Err(e) => {
                return Err(e);
            },
        };
        let queue_raw = match parse_seed_ids(queue_names) {
            Ok(v) => v,
            Err(e) => {
                return Err(e);
            },
        };
        let st = sorted_unique(&tried_raw);
        let sq = sorted_unique(&queue_raw);

        // check 1: the two id sets are disjoint
        let mut i: usize = 0;
        while i < st.len()
            invariant
                i <= st@.len(),
                tids == name_ids(tried_names@),
                qids == name_ids(queue_names@),
                all_valid_names(tried_names@),
                all_valid_names(queue_names@),
                forall|x: usize| st@.contains(x) <==> tids.contains(x),
                forall|x: usize| sq@.contains(x) <==> qids.contains(x),
                forall|j: int| 0 <= j < i ==> !sq@.contains(#[trigger] st@[j]),
            decreases st@.len() - i,
        {
            if contains_id(&sq, st[i]) {
                proof {
                    let x = st@[i as int];
                    assert(st@.contains(x));
                    assert(tids.contains(x));
                    assert(qids.contains(x));
                    lemma_contains_id_in(tids, x);
                    lemma_contains_id_in(qids, x);
                }
                return Err(CorpusError::OverlappingSeeds);
            }
            i = i + 1;
        }
        proof {
            assert forall|x: int| !(id_in(tids, x) && id_in(qids, x)) by {
                if id_in(tids, x) && id_in(qids, x) {
                    let m = choose|m: int| 0 <= m < tids.len() && (#[trigger] tids[m]) == x;
                    let v = tids[m];
                    lemma_contains_id_in(tids, v);
                    lemma_contains_id_in(qids, v);
                    assert(st@.contains(v));
                    let k = choose|k: int| 0 <= k < st@.len() && (#[trigger] st@[k]) == v;
                    assert(sq@.contains(v));
                    assert(!sq@.contains(st@[k]));
                }
            }
        }

        // check 2: tried ids are exactly [0, cursor)
        let seed_cursor = st.len();
        let mut i: usize = 0;
        while i < st.len()
            invariant
                i <= st@.len(),
                tids == name_ids(tried_names@),
                qids == name_ids(queue_names@),
                all_valid_names(tried_names@),
                all_valid_names(queue_names@),
                forall|x: int| !(id_in(tids, x) && id_in(qids, x)),
                forall|x: usize| st@.contains(x) <==> tids.contains(x),
                forall|a: int, b: int| 0 <= a < b < st@.len() ==> st@[a] < st@[b],
                forall|j: int| 0 <= j < i ==> st@[j] == j,
            decreases st@.len() - i,
        {
            if st[i] != i {
                proof {
                    lemma_sorted_prefix_gap(st@, tids, i as int);
                }
                return Err(CorpusError::MissingTriedSeed);
            }
            i = i + 1;
        }
        proof {
            assert(ids_are_range(tids, 0, seed_cursor as int)) by {
                assert forall|x: int| id_in(tids, x) <==> 0 <= x < seed_cursor by {
                    if id_in(tids, x) {
                        let m = choose|m: int| 0 <= m < tids.len() && (#[trigger] tids[m]) == x;
                        let v = tids[m];
                        lemma_contains_id_in(tids, v);
                        assert(st@.contains(v));
                        let k = choose|k: int| 0 <= k < st@.len() && (#[trigger] st@[k]) == v;
                        assert(st@[k] == k);
                    }
                    if 0 <= x < seed_cursor {
                        assert(st@[x] == x);
                        assert(st@.contains(st@[x]));
                        lemma_contains_id_in(tids, st@[x]);
                    }
                }
            }
        }

        // check 3: queue ids are exactly [cursor, counter)
        proof {
            assert(st@.len() <= tried_names@.len());
            assert(sq@.len() <= queue_names@.len());
        }
        let seed_counter = seed_cursor + sq.len();
        let mut i: usize = 0;
        while i < sq.len()
            invariant
                i <= sq@.len(),
                seed_cursor + sq@.len() <= usize::MAX,
                seed_cursor == st@.len(),
                tids == name_ids(tried_names@),
                qids == name_ids(queue_names@),
                all_valid_names(tried_names@),
                all_valid_names(queue_names@),
                ids_are_range(tids, 0, seed_cursor as int),
                forall|x: int| !(id_in(tids, x) && id_in(qids, x)),
                forall|x: usize| sq@.contains(x) <==> qids.contains(x),
                forall|a: int, b: int| 0 <= a < b < sq@.len() ==> sq@[a] < sq@[b],
                forall|j: int| 0 <= j < i ==> sq@[j] == seed_cursor + j,
            decreases sq@.len() - i,
        {
            let good = sq[i] >= seed_cursor && sq[i] - seed_cursor == i;
            if !good {
                proof {
                    lemma_sorted_offset_gap(sq@, qids, seed_cursor as int, i as int);
                }
                return Err(CorpusError::MissingQueueSeed);
            }
            i = i + 1;
        }
        proof {
            assert(ids_are_range(qids, seed_cursor as int, seed_counter as int)) by {
                assert forall|x: int| id_in(qids, x) <==> seed_cursor <= x < seed_counter by {
                    if id_in(qids, x) {
                        let m = choose|m: int| 0 <= m < qids.len() && (#[trigger] qids[m]) == x;
                        let v = qids[m];
                        lemma_contains_id_in(qids, v);
                        assert(sq@.contains(v));
                        let k = choose|k: int| 0 <= k < sq@.len() && (#[trigger] sq@[k]) == v;
                        assert(sq@[k] == seed_cursor + k);
                    }
                    if seed_cursor <= x < seed_counter {
                        assert(sq@[x - seed_cursor] == x);
                        assert(sq@.contains(sq@[x - seed_cursor]));
                        lemma_contains_id_in(qids, sq@[x - seed_cursor]);
                    }
                }
            }
        }

        // deposit an initial seed if there is nothing at all
        let bootstrap = seed_counter == 0;
        let seed_counter = if bootstrap {
            1
        } else {
            seed_counter
        };
        proof {
            if tried_names@.len() == 0 && queue_names@.len() == 0 {
                assert(st@.len() == 0 && sq@.len() == 0);
            }
            if bootstrap {
                if tried_names@.len() > 0 {
                    assert(tids.contains(tids[0]));
                    assert(st@.contains(tids[0]));
                }
                if queue_names@.len() > 0 {
                    assert(qids.contains(qids[0]));
                    assert(sq@.contains(qids[0]));
                }
            }
        }

        // load the coverage database
        let coverage = match cov_bytes {
            Option::None => CovDb::new(),
            Option::Some(b) => match CovDb::from_bytes(b) {
                Option::Some(db) => db,
                Option::None => {
                    return Err(CorpusError::InvalidCoverageFile);
                },
            },
        };

        let f = Fuzzer {
            seed_cursor,
            seed_counter,
            coverage,
            session_counter: 0,
            tried_ids: Ghost(Set::new(|x: int| 0 <= x < seed_cursor)),
            queue_ids: Ghost(Set::new(|x: int| seed_cursor <= x < seed_counter)),
        };
        Ok((f, bootstrap))
    }
}

/// In a strictly sorted listing whose first `i` entries equal their index, a
/// mismatch at `i` means no range `[0, t)` fits the members.
proof fn lemma_sorted_prefix_gap(st: Seq<usize>, ids: Seq<usize>, i: int)
    requires
        0 <= i < st.len(),
        forall|x: usize| st.contains(x) <==> ids.contains(x),
        forall|a: int, b: int| 0 <= a < b < st.len() ==> st[a] < st[b],
        forall|j: int| 0 <= j < i ==> st[j] == j,
        st[i] != i,
    ensures
        forall|t: int| !ids_are_range(ids, 0, t),
{
    assert(st[i] >= i) by {
        if i > 0 {
            assert(st[i - 1] == i - 1);
            assert(st[i - 1] < st[i]);
        }
    }
    let w = st[i] as int;
    assert(w > i);
    assert(id_in(ids, w)) by {
        assert(st.contains(st[i]));
        assert(ids.contains(st[i]));
        lemma_contains_id_in(ids, st[i]);
    }
    assert(!id_in(ids, w - 1)) by {
        if id_in(ids, w - 1) {
            let m = choose|m: int| 0 <= m < ids.len() && (#[trigger] ids[m]) == w - 1;
            let v = ids[m];
            lemma_contains_id_in(ids, v);
            assert(st.contains(v));
            let k = choose|k: int| 0 <= k < st.len() && (#[trigger] st[k]) == v;
            if k < i {
                assert(st[k] == k);
            } else if k == i {
            } else {
                assert(st[i] < st[k]);
            }
        }
    }
    assert forall|t: int| !ids_are_range(ids, 0, t) by {
        if ids_are_range(ids, 0, t) {
            assert(id_in(ids, w) <==> 0 <= w < t);
            assert(id_in(ids, w - 1) <==> 0 <= w - 1 < t);
        }
    }
}

/// In a strictly sorted listing whose first `i` entries step by one from
/// `lo`, a mismatch at `i` means no range `[lo, n)` fits the members.
proof fn lemma_sorted_offset_gap(sq: Seq<usize>, ids: Seq<usize>, lo: int, i: int)
    requires
        0 <= i < sq.len(),
        0 <= lo,
        forall|x: usize| sq.contains(x) <==> ids.contains(x),
        forall|a: int, b: int| 0 <= a < b < sq.len() ==> sq[a] < sq[b],
        forall|j: int| 0 <= j < i ==> sq[j] == lo + j,
        sq[i] != lo + i,
    ensures
        forall|n: int| !ids_are_range(ids, lo, n),
{
    let w = sq[i] as int;
    if w < lo + i {
        // some member is below lo, or two members collide; find one below lo
        assert(sq[i] >= i) by {
            if i > 0 {
                assert(sq[i - 1] == lo + i - 1);
                assert(sq[i - 1] < sq[i]);
            }
        }
        if i > 0 {
            assert(sq[i - 1] < sq[i]);
            assert(lo + i - 1 < w);
            assert(false);
        }
        // i == 0: the least member is below lo
        assert(id_in(ids, w)) by {
            assert(sq.contains(sq[i]));
            assert(ids.contains(sq[i]));
            lemma_contains_id_in(ids, sq[i]);
        }
        assert forall|n: int| !ids_are_range(ids, lo, n) by {
            if ids_are_range(ids, lo, n) {
                assert(id_in(ids, w) <==> lo <= w < n);
            }
        }
    } else {
        assert(w > lo + i);
        assert(id_in(ids, w)) by {
            assert(sq.contains(sq[i]));
            assert(ids.contains(sq[i]));
            lemma_contains_id_in(ids, sq[i]);
        }
        assert(!id_in(ids, w - 1)) by {
            if id_in(ids, w - 1) {
                let m = choose|m: int| 0 <= m < ids.len() && (#[trigger] ids[m]) == w - 1;
                let v = ids[m];
                lemma_contains_id_in(ids, v);
                assert(sq.contains(v));
                let k = choose|k: int| 0 <= k < sq.len() && (#[trigger] sq[k]) == v;
                if k < i {
                    assert(sq[k] == lo + k);
                } else if k == i {
                } else {
                    assert(sq[i] < sq[k]);
                }
            }
        }
        assert forall|n: int| !ids_are_range(ids, lo, n) by {
            if ids_are_range(ids, lo, n) {
                assert(id_in(ids, w) <==> lo <= w < n);
                assert(id_in(ids, w - 1) <==> lo <= w - 1 < n);
            }
        }
    }
}


/// Copies the first `n` words of a stream.
fn prefix_words(ws: &Vec<u64>, n: usize) -> (t: Vec<u64>)
    requires
        n <= ws@.len(),
    ensures
        t@ == ws@.take(n as int),
{
    let mut t: Vec<u64> = Vec::new();
    let mut j: usize = 0;
    while j < n
        invariant
            j <= n,
            n <= ws@.len(),
            t@ == ws@.take(j as int),
        decreases n - j,
    {
        t.push(ws[j]);
        proof {
            assert(ws@.take(j as int).push(ws@[j as int]) =~= ws@.take(j + 1));
        }
        j = j + 1;
    }
    t
}

/// The one-byte content of the bootstrap seed deposited at `queue/0` when
/// the corpus starts empty.
pub fn bootstrap_seed() -> (r: Vec<u8>)
    ensures
        r@ == seq![88u8],
{
    let mut r: Vec<u8> = Vec::new();
    r.push(88);
    proof {
        assert(r@ =~= seq![88u8]);
    }
    r
}

impl Fuzzer {
    /// There is a seed left to run.
    pub fn has_pending_seeds(&self) -> (r: bool)
        ensures
            r == (self.cursor() != self.counter()),
    {
        self.seed_cursor != self.seed_counter
    }

    /// The id of the current seed: the head of the queue, to be read from
    /// `queue/<id>`.
    pub fn current_seed_id(&self) -> (id: usize)
        ensures
            id == self.cursor(),
    {
        self.seed_cursor
    }

    /// The current session number; its artifacts live under `output/<n>/`.
    pub fn session_counter(&self) -> (n: usize)
        ensures
            n == self.session(),
    {
        self.session_counter
    }

    /// One past the largest id handed out so far.
    pub fn seed_counter(&self) -> (n: usize)
        ensures
            n == self.counter(),
    {
        self.seed_counter
    }

    /// The in-memory coverage database.
    pub fn coverage(&self) -> (db: &CovDb)
        ensures
            db_view(*db) == self.cov(),
    {
        &self.coverage
    }

    /// Moves on to the next session.
    pub fn next_session(&mut self)
        requires
            old(self).session() < usize::MAX,
        ensures
            final(self).session() == old(self).session() + 1,
            final(self).wf() == old(self).wf(),
            final(self).cursor() == old(self).cursor(),
            final(self).counter() == old(self).counter(),
            final(self).tried() == old(self).tried(),
            final(self).queue() == old(self).queue(),
            final(self).cov() == old(self).cov(),
    {
        self.session_counter = self.session_counter + 1;
    }

    /// Retires the current seed without merging anything: the session ended
    /// in a guest reset, but the seed must still advance. Returns the id to
    /// rename from `queue/` into `tried/`.
    pub fn retire_current_seed(&mut self) -> (id: usize)
        requires
            old(self).wf(),
            old(self).cursor() < old(self).counter(),
        ensures
            final(self).wf(),
            id == old(self).cursor(),
            final(self).cursor() == old(self).cursor() + 1,
            final(self).counter() == old(self).counter(),
            final(self).session() == old(self).session(),
            final(self).cov() == old(self).cov(),
            final(self).tried() == old(self).tried().insert(id as int),
            final(self).queue() == old(self).queue().remove(id as int),
    {
        let id = self.seed_cursor;
        self.seed_cursor = self.seed_cursor + 1;
        proof {
            self.tried_ids@ = Set::new(|x: int| 0 <= x < self.seed_cursor);
            self.queue_ids@ = Set::new(|x: int| self.seed_cursor <= x < self.seed_counter);
            assert(self.tried_ids@ =~= old(self).tried_ids@.insert(id as int));
            assert(self.queue_ids@ =~= old(self).queue_ids@.remove(id as int));
        }
        id
    }

    /// Folds one finished session back into the store. The coverage stream
    /// is split into words; for each prefix, the trace is recorded under its
    /// length and its rolling step-hash. Newly discovered seeds get the next
    /// ids, and the current seed is retired. The caller mirrors the outcome
    /// to disk: write the returned coverage file, copy the session's seed
    /// files to `queue/<first_new_id>..`, and rename the retired seed from
    /// `queue/` into `tried/`.
    #[verifier::rlimit(50)]
    pub fn process_session_result(&mut self, cov_raw: &Vec<u8>, new_seeds: usize) -> (r: Result<
        SessionOutcome,
        CorpusError,
    >)
        requires
            old(self).wf(),
            old(self).cursor() < old(self).counter(),
            old(self).counter() + new_seeds <= usize::MAX,
        ensures
            match r {
                Ok(out) => {
                    &&& cov_raw@.len() % 8 == 0
                    &&& final(self).wf()
                    &&& crate::cov::db_no_empty_buckets(old(self).cov())
                        ==> crate::cov::db_no_empty_buckets(final(self).cov())
                    &&& out.cov_hash == xxh64_digest(
                        GUEST_XXHASH_SEED,
                        words_of_bytes(cov_raw@),
                    )
                    &&& out.first_new_id == old(self).counter()
                    &&& out.new_seeds == new_seeds
                    &&& out.retired_id == old(self).cursor()
                    &&& final(self).counter() == old(self).counter() + new_seeds
                    &&& final(self).cursor() == old(self).cursor() + 1
                    &&& final(self).session() == old(self).session()
                    &&& final(self).tried() == old(self).tried().insert(old(self).cursor())
                    &&& (cov_raw@.len() == 0 ==> final(self).cov() == old(self).cov()
                        && out.cov_file is None)
                    &&& (cov_raw@.len() > 0 ==> (out.cov_file matches Some(b) && b@
                        == bytes_of_words(ser_db(final(self).cov()))))
                    &&& forall|len: nat, hh: u64, tt: Seq<u64>|
                        db_contains(final(self).cov(), len, hh, tt) <==> (db_contains(
                            old(self).cov(),
                            len,
                            hh,
                            tt,
                        ) || (exists|i: int|
                            0 <= i < words_of_bytes(cov_raw@).len() && len == i + 1 && tt == (
                            #[trigger] words_of_bytes(cov_raw@).take(i + 1)) && hh == xxh64_digest(
                                GUEST_XXHASH_SEED,
                                words_of_bytes(cov_raw@).take(i + 1),
                            )))
                },
                Err(e) => {
                    &&& e == CorpusError::InvalidCoverageLength
                    &&& cov_raw@.len() % 8 != 0
                    &&& *final(self) == *old(self)
                },
            },
    {
        let n_bytes = cov_raw.len();
        if n_bytes % 8 != 0 {
            return Err(CorpusError::InvalidCoverageLength);
        }
        let ws = decode_words(cov_raw);
        let ghost wsv = words_of_bytes(cov_raw@);
        proof {
            assert(wsv.len() == cov_raw@.len() / 8);
        }
        let ghost dv0 = db_view(old(self).coverage);
        let mut hasher = xxh64_with_seed(GUEST_XXHASH_SEED);
        let mut i: usize = 0;
        while i < ws.len()
            invariant
                i <= wsv.len(),
                ws@ == wsv,
                crate::hash::xxh64_seed_of(hasher) == GUEST_XXHASH_SEED,
                crate::hash::xxh64_words_of(hasher) == wsv.take(i as int),
                self.coverage.wf(),
                i == 0 ==> self.coverage == old(self).coverage,
                crate::cov::db_no_empty_buckets(dv0) ==> crate::cov::db_no_empty_buckets(
                    db_view(self.coverage),
                ),
                self.seed_cursor == old(self).seed_cursor,
                self.seed_counter == old(self).seed_counter,
                self.session_counter == old(self).session_counter,
                self.tried_ids == old(self).tried_ids,
                self.queue_ids == old(self).queue_ids,
                dv0 == db_view(old(self).coverage),
                db_view(self.coverage).len() == if i > dv0.len() {
                    i as int
                } else {
                    dv0.len() as int
                },
                forall|len: nat, hh: u64, tt: Seq<u64>|
                    db_contains(db_view(self.coverage), len, hh, tt) <==> (db_contains(
                        dv0,
                        len,
                        hh,
                        tt,
                    ) || (exists|k: int|
                        0 <= k < i && len == k + 1 && tt == (#[trigger] wsv.take(k + 1)) && hh
                            == xxh64_digest(GUEST_XXHASH_SEED, wsv.take(k + 1)))),
            decreases wsv.len() - i,
        {
            xxh64_write_word(&mut hasher, ws[i]);
            proof {
                assert(wsv.take(i as int).push(wsv[i as int]) =~= wsv.take(i + 1));
            }
            let h = xxh64_finish(&hasher);
            let t = prefix_words(&ws, i + 1);
            let ghost dv_pre = db_view(self.coverage);
            self.coverage.insert(h, t);
            proof {
                lemma_merge_step(dv0, dv_pre, db_view(self.coverage), wsv, i as int, h);
            }
            i = i + 1;
        }
        let cov_hash = xxh64_finish(&hasher);
        proof {
            assert(wsv.take(wsv.len() as int) =~= wsv);
        }
        let cov_file = if n_bytes == 0 {
            None
        } else {
            Some(self.coverage.to_bytes())
        };

        // enqueue the session's new seeds, then retire the current seed
        let first_new_id = self.seed_counter;
        self.seed_counter = self.seed_counter + new_seeds;
        let retired_id = self.seed_cursor;
        self.seed_cursor = self.seed_cursor + 1;
        proof {
            self.tried_ids@ = Set::new(|x: int| 0 <= x < self.seed_cursor);
            self.queue_ids@ = Set::new(|x: int| self.seed_cursor <= x < self.seed_counter);
            assert(self.tried_ids@ =~= old(self).tried_ids@.insert(retired_id as int));
        }
        Ok(
            SessionOutcome {
                cov_hash,
                cov_file,
                first_new_id,
                new_seeds,
                retired_id,
            },
        )
    }
}

/// Adding the trace of prefix length `i + 1` under its step-hash extends the
/// merged-prefix description of the database by exactly that prefix.
proof fn lemma_merge_step(
    dv0: Seq<Seq<(u64, Seq<Seq<u64>>)>>,
    dv_pre: Seq<Seq<(u64, Seq<Seq<u64>>)>>,
    dv_new: Seq<Seq<(u64, Seq<Seq<u64>>)>>,
    wsv: Seq<u64>,
    i: int,
    h: u64,
)
    requires
        0 <= i < wsv.len(),
        h == xxh64_digest(GUEST_XXHASH_SEED, wsv.take(i + 1)),
        forall|len: nat, hh: u64, tt: Seq<u64>|
            db_contains(dv_pre, len, hh, tt) <==> (db_contains(dv0, len, hh, tt) || (exists|k: int|
                0 <= k < i && len == k + 1 && tt == (#[trigger] wsv.take(k + 1)) && hh
                    == xxh64_digest(GUEST_XXHASH_SEED, wsv.take(k + 1)))),
        forall|len: nat, hh: u64, tt: Seq<u64>|
            db_contains(dv_new, len, hh, tt) <==> (db_contains(dv_pre, len, hh, tt) || (len == i + 1
                && hh == h && tt == wsv.take(i + 1))),
    ensures
        forall|len: nat, hh: u64, tt: Seq<u64>|
            db_contains(dv_new, len, hh, tt) <==> (db_contains(dv0, len, hh, tt) || (exists|k: int|
                0 <= k < i + 1 && len == k + 1 && tt == (#[trigger] wsv.take(k + 1)) && hh
                    == xxh64_digest(GUEST_XXHASH_SEED, wsv.take(k + 1)))),
{
    assert forall|len: nat, hh: u64, tt: Seq<u64>|
        db_contains(dv_new, len, hh, tt) <==> (db_contains(dv0, len, hh, tt) || (exists|k: int|
            0 <= k < i + 1 && len == k + 1 && tt == (#[trigger] wsv.take(k + 1)) && hh
                == xxh64_digest(GUEST_XXHASH_SEED, wsv.take(k + 1)))) by {
        if db_contains(dv_new, len, hh, tt) {
            if db_contains(dv_pre, len, hh, tt) {
                if !db_contains(dv0, len, hh, tt) {
                    let k = choose|k: int|
                        0 <= k < i && len == k + 1 && tt == (#[trigger] wsv.take(k + 1)) && hh
                            == xxh64_digest(GUEST_XXHASH_SEED, wsv.take(k + 1));
                    assert(0 <= k < i + 1 && len == k + 1 && tt == wsv.take(k + 1) && hh
                        == xxh64_digest(GUEST_XXHASH_SEED, wsv.take(k + 1)));
                }
            } else {
                assert(len == i + 1 && hh == h && tt == wsv.take(i + 1));
                assert(0 <= i < i + 1 && len == i + 1 && tt == wsv.take(i + 1) && hh
                    == xxh64_digest(GUEST_XXHASH_SEED, wsv.take(i + 1)));
            }
        }
        if db_contains(dv0, len, hh, tt) {
            assert(db_contains(dv_pre, len, hh, tt));
            assert(db_contains(dv_new, len, hh, tt));
        }
        if exists|k: int|
            0 <= k < i + 1 && len == k + 1 && tt == (#[trigger] wsv.take(k + 1)) && hh
                == xxh64_digest(GUEST_XXHASH_SEED, wsv.take(k + 1)) {
            let k = choose|k: int|
                0 <= k < i + 1 && len == k + 1 && tt == (#[trigger] wsv.take(k + 1)) && hh
                    == xxh64_digest(GUEST_XXHASH_SEED, wsv.take(k + 1));
            if k < i {
                assert(db_contains(dv_pre, len, hh, tt));
            } else {
                assert(len == i + 1 && hh == h && tt == wsv.take(i + 1));
            }
            assert(db_contains(dv_new, len, hh, tt));
        }
    }
}

/// Every id is on exactly one side of the cursor: the tried ids are exactly
/// those below it, the queued ids exactly those from it up to the counter,
/// and no id is on both sides.
pub proof fn lemma_seed_partition(f: Fuzzer)
    requires
        f.wf(),
    ensures
        forall|i: int| f.tried().contains(i) <==> 0 <= i < f.cursor(),
        forall|i: int| f.queue().contains(i) <==> f.cursor() <= i < f.counter(),
        forall|i: int| !(f.tried().contains(i) && f.queue().contains(i)),
{
}


/// Every trace in the database stands under the key its own content
/// determines: its length, and its digest under the guest seed.
pub open spec fn hash_consistent(dv: Seq<Seq<(u64, Seq<Seq<u64>>)>>) -> bool {
    forall|len: nat, hh: u64, tt: Seq<u64>|
        db_contains(dv, len, hh, tt) ==> len == tt.len() && hh == xxh64_digest(
            GUEST_XXHASH_SEED,
            tt,
        )
}

/// An empty database is trivially hash-consistent.
pub proof fn lemma_empty_hash_consistent(dv: Seq<Seq<(u64, Seq<Seq<u64>>)>>)
    requires
        dv.len() == 0,
    ensures
        hash_consistent(dv),
{
}

/// Merging a session's coverage keeps the database hash-consistent: every
/// trace it adds is a prefix of the sample stream filed under that prefix's
/// own length and rolling digest.
proof fn lemma_merge_hash_consistent(
    dv0: Seq<Seq<(u64, Seq<Seq<u64>>)>>,
    dv1: Seq<Seq<(u64, Seq<Seq<u64>>)>>,
    ws: Seq<u64>,
)
    requires
        hash_consistent(dv0),
        forall|len: nat, hh: u64, tt: Seq<u64>|
            db_contains(dv1, len, hh, tt) <==> (db_contains(dv0, len, hh, tt) || (exists|i: int|
                0 <= i < ws.len() && len == i + 1 && tt == (#[trigger] ws.take(i + 1)) && hh
                    == xxh64_digest(GUEST_XXHASH_SEED, ws.take(i + 1)))),
    ensures
        hash_consistent(dv1),
{
    assert forall|len: nat, hh: u64, tt: Seq<u64>|
        db_contains(dv1, len, hh, tt) implies len == tt.len() && hh == xxh64_digest(
        GUEST_XXHASH_SEED,
        tt,
    ) by {
        if !db_contains(dv0, len, hh, tt) {
            let i = choose|i: int|
                0 <= i < ws.len() && len == i + 1 && tt == (#[trigger] ws.take(i + 1)) && hh
                    == xxh64_digest(GUEST_XXHASH_SEED, ws.take(i + 1));
            assert(ws.take(i + 1).len() == i + 1);
        }
    }
}


/// Every coverage prefix is filed under exactly its own key. After a merge
/// of the sample stream `ws` into a hash-consistent database, each prefix of
/// length `l` stands under key `(l, digest)` with `digest` its rolling
/// xxHash-64 under the guest seed — and under no other key, since every
/// entry of the merged database still carries the key its content
/// determines.
pub proof fn lemma_prefixes_under_their_keys(
    dv0: Seq<Seq<(u64, Seq<Seq<u64>>)>>,
    dv1: Seq<Seq<(u64, Seq<Seq<u64>>)>>,
    ws: Seq<u64>,
)
    requires
        hash_consistent(dv0),
        forall|len: nat, hh: u64, tt: Seq<u64>|
            db_contains(dv1, len, hh, tt) <==> (db_contains(dv0, len, hh, tt) || (exists|i: int|
                0 <= i < ws.len() && len == i + 1 && tt == (#[trigger] ws.take(i + 1)) && hh
                    == xxh64_digest(GUEST_XXHASH_SEED, ws.take(i + 1)))),
    ensures
        forall|i: int|
            0 <= i < ws.len() ==> db_contains(
                dv1,
                (i + 1) as nat,
                xxh64_digest(GUEST_XXHASH_SEED, #[trigger] ws.take(i + 1)),
                ws.take(i + 1),
            ),
        hash_consistent(dv1),
{
    assert forall|i: int|
        0 <= i < ws.len() implies db_contains(
        dv1,
        (i + 1) as nat,
        xxh64_digest(GUEST_XXHASH_SEED, #[trigger] ws.take(i + 1)),
        ws.take(i + 1),
    ) by {
        let len1 = (i + 1) as nat;
        let tt1 = ws.take(i + 1);
        let hh1 = xxh64_digest(GUEST_XXHASH_SEED, ws.take(i + 1));
        assert(0 <= i < ws.len() && len1 == i + 1 && tt1 == ws.take(i + 1) && hh1 == xxh64_digest(
            GUEST_XXHASH_SEED,
            ws.take(i + 1),
        ));
        assert(exists|k: int|
            0 <= k < ws.len() && len1 == k + 1 && tt1 == (#[trigger] ws.take(k + 1)) && hh1
                == xxh64_digest(GUEST_XXHASH_SEED, ws.take(k + 1)));
        assert(db_contains(dv1, len1, hh1, tt1));
    }
    lemma_merge_hash_consistent(dv0, dv1, ws);
}

} // verus!
