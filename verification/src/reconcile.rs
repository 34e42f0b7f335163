//! Sorted-key reconciliation: one binary-search based merge/upsert walk,
//! shared by every record store.
//!
//! A store is a sequence of records ascending by key. Reconciling a
//! candidate searches the store for the candidate's key; a present key is
//! handed to the caller's found-policy (append a nested score, or leave the
//! record alone), an absent one has the candidate inserted at the search's
//! insertion point, keeping the order. Records without a key are never
//! matched: a keyless candidate is always inserted.

use vstd::prelude::*;
use crate::keys::KeyOrder;
use crate::keys::key_compare;
use crate::keys::key_le;
use crate::keys::key_lt;
use crate::keys::key_view;
use crate::keys::lemma_key_le_trans;
use crate::keys::lemma_key_lt_trans;
use crate::keys::lemma_key_lt_trichotomy;
use crate::ratings::RatingEntry;

verus! {

/// A record that a key-sorted store can hold.
pub trait Keyed: Sized {
    /// The record's key at the specification level.
    spec fn skey(&self) -> Option<Seq<u8>>;

    /// The record's key.
    fn key(&self) -> (k: &Option<Vec<u8>>)
        ensures
            key_view(*k) == self.skey(),
    ;
}

/// The keys of a store, in store order.
pub open spec fn keys_of<R: Keyed>(s: Seq<R>) -> Seq<Option<Seq<u8>>> {
    s.map_values(|r: R| r.skey())
}

/// A key sequence ascending under the key order.
pub open spec fn keys_sorted(ks: Seq<Option<Seq<u8>>>) -> bool {
    forall|i: int, j: int| 0 <= i <= j < ks.len() ==> key_le(ks[i], ks[j])
}

/// A store ascending by key.
pub open spec fn sorted_by_key<R: Keyed>(s: Seq<R>) -> bool {
    keys_sorted(keys_of(s))
}

/// The index of the first key at or after `k`: the insertion point a
/// binary search returns on an ascending key sequence.
pub open spec fn keys_lower_bound(ks: Seq<Option<Seq<u8>>>, k: Option<Seq<u8>>) -> int
    decreases ks.len(),
{
    if ks.len() == 0 {
        0
    } else if !key_lt(ks[0], k) {
        0
    } else {
        1 + keys_lower_bound(ks.drop_first(), k)
    }
}

/// The insertion point for a record with key `k` in a store.
pub open spec fn key_lower_bound<R: Keyed>(s: Seq<R>, k: Option<Seq<u8>>) -> int {
    keys_lower_bound(keys_of(s), k)
}

/// Whether a present key `k` matches some record of the store. An absent
/// key matches nothing.
pub open spec fn key_present<R: Keyed>(s: Seq<R>, k: Option<Seq<u8>>) -> bool {
    k is Some && exists|i: int| 0 <= i < s.len() && s[i].skey() == k
}

/// `keys_lower_bound` is in range, every key before it is strictly below
/// `k`, and the key at it (if any) is not.
pub proof fn lemma_keys_lower_bound_props(ks: Seq<Option<Seq<u8>>>, k: Option<Seq<u8>>)
    ensures
        0 <= keys_lower_bound(ks, k) <= ks.len(),
        forall|j: int| 0 <= j < keys_lower_bound(ks, k) ==> key_lt(ks[j], k),
        keys_lower_bound(ks, k) < ks.len() ==> !key_lt(ks[keys_lower_bound(ks, k)], k),
    decreases ks.len(),
{
    if ks.len() == 0 {
    } else if !key_lt(ks[0], k) {
    } else {
        lemma_keys_lower_bound_props(ks.drop_first(), k);
        assert forall|j: int| 0 <= j < keys_lower_bound(ks, k) implies key_lt(ks[j], k) by {
            if j > 0 {
                assert(ks.drop_first()[j - 1] == ks[j]);
            }
        }
        if keys_lower_bound(ks, k) < ks.len() {
            assert(ks.drop_first()[keys_lower_bound(ks, k) - 1] == ks[keys_lower_bound(ks, k)]);
        }
    }
}

/// Any index with the characteristic properties of `keys_lower_bound` is
/// `keys_lower_bound`.
pub proof fn lemma_keys_lower_bound_unique(ks: Seq<Option<Seq<u8>>>, k: Option<Seq<u8>>, i: int)
    requires
        0 <= i <= ks.len(),
        forall|j: int| 0 <= j < i ==> key_lt(ks[j], k),
        i < ks.len() ==> !key_lt(ks[i], k),
    ensures
        i == keys_lower_bound(ks, k),
    decreases ks.len(),
{
    if ks.len() == 0 {
    } else if !key_lt(ks[0], k) {
        assert(i == 0);
    } else {
        assert(i >= 1);
        assert forall|j: int| 0 <= j < i - 1 implies key_lt(ks.drop_first()[j], k) by {
            assert(ks.drop_first()[j] == ks[j + 1]);
        }
        if i - 1 < ks.len() - 1 {
            assert(ks.drop_first()[i - 1] == ks[i]);
        }
        lemma_keys_lower_bound_unique(ks.drop_first(), k, i - 1);
    }
}

/// The outcome of searching a store for a key: a matching index, or the
/// insertion point where no record matches.
#[derive(Clone, Copy, PartialEq, Eq, Structural, Debug)]
pub enum FindOutcome {
    Found(usize),
    Missing(usize),
}

/// Binary search of an ascending store for a candidate key.
///
/// A present key either matches the first record at or past the insertion
/// point, or matches nothing in the whole store; an absent key never
/// matches. In the missing outcome every record before the insertion point
/// is strictly below the key and every record from it on is at or above it,
/// so inserting there keeps the store ascending.
pub fn find_by_key<R: Keyed>(target: &Vec<R>, key: &Option<Vec<u8>>) -> (r: FindOutcome)
    requires
        sorted_by_key(target@),
    ensures
        match r {
            FindOutcome::Found(i) => {
                &&& key_view(*key) is Some
                &&& i < target@.len()
                &&& target@[i as int].skey() == key_view(*key)
                &&& i as int == key_lower_bound(target@, key_view(*key))
            },
            FindOutcome::Missing(i) => {
                &&& i <= target@.len()
                &&& i as int == key_lower_bound(target@, key_view(*key))
                &&& !key_present(target@, key_view(*key))
                &&& forall|j: int| 0 <= j < i ==> key_lt(target@[j].skey(), key_view(*key))
                &&& forall|j: int|
                    i <= j < target@.len() ==> key_le(key_view(*key), target@[j].skey())
            },
        },
{
    let ghost ks = keys_of(target@);
    let ghost kv = key_view(*key);
    let mut lo: usize = 0;
    let mut hi: usize = target.len();
    proof {
        assert(ks.len() == target@.len());
    }
    while lo < hi
        invariant
            lo <= hi <= target@.len(),
            sorted_by_key(target@),
            ks == keys_of(target@),
            kv == key_view(*key),
            forall|j: int| 0 <= j < lo ==> key_lt(ks[j], kv),
            hi < target@.len() ==> !key_lt(ks[hi as int], kv),
        decreases hi - lo,
    {
        let mid = lo + (hi - lo) / 2;
        let entry = &target[mid];
        let c = key_compare(entry.key(), key);
        proof {
            assert(ks[mid as int] == target@[mid as int].skey());
        }
        if c == KeyOrder::Less {
            proof {
                assert forall|j: int| 0 <= j < mid + 1 implies key_lt(ks[j], kv) by {
                    assert(ks[j] == target@[j].skey());
                    assert(key_le(ks[j], ks[mid as int]));
                    if key_lt(ks[j], ks[mid as int]) {
                        lemma_key_lt_trans(ks[j], ks[mid as int], kv);
                    }
                }
            }
            lo = mid + 1;
        } else {
            hi = mid;
        }
    }
    proof {
        lemma_keys_lower_bound_unique(ks, kv, lo as int);
    }
    if lo < target.len() {
        let entry = &target[lo];
        let c = key_compare(entry.key(), key);
        proof {
            assert(ks[lo as int] == target@[lo as int].skey());
        }
        if c == KeyOrder::Equal {
            match key {
                Option::Some(_) => {
                    return FindOutcome::Found(lo);
                },
                Option::None => {
                },
            }
        }
        proof {
            assert forall|j: int| 0 <= j < lo implies key_lt(target@[j].skey(), kv) by {
                assert(ks[j] == target@[j].skey());
            }
            lemma_find_missing_at(target@, kv, lo as int);
        }
        return FindOutcome::Missing(lo);
    }
    proof {
        assert forall|j: int| 0 <= j < lo implies key_lt(target@[j].skey(), kv) by {
            assert(ks[j] == target@[j].skey());
        }
        if kv is Some {
            assert forall|j: int| 0 <= j < target@.len() implies target@[j].skey() != kv by {
                lemma_key_lt_trichotomy(target@[j].skey(), kv);
            }
        }
    }
    FindOutcome::Missing(lo)
}

/// At an in-range insertion point whose record does not equal the key, a
/// present key matches nothing, and every record from the point on is at
/// or above the key.
proof fn lemma_find_missing_at<R: Keyed>(s: Seq<R>, kv: Option<Seq<u8>>, lo: int)
    requires
        sorted_by_key(s),
        0 <= lo < s.len(),
        forall|j: int| 0 <= j < lo ==> key_lt(s[j].skey(), kv),
        !key_lt(s[lo].skey(), kv),
        kv is Some ==> s[lo].skey() != kv,
    ensures
        forall|j: int| lo <= j < s.len() ==> key_le(kv, s[j].skey()),
        !key_present(s, kv),
{
    let ks = keys_of(s);
    assert forall|j: int| lo <= j < s.len() implies key_le(kv, s[j].skey()) by {
        assert(ks[lo] == s[lo].skey());
        assert(ks[j] == s[j].skey());
        assert(key_le(ks[lo], ks[j]));
        lemma_key_lt_trichotomy(ks[lo], kv);
        if key_lt(kv, ks[lo]) && key_lt(ks[lo], ks[j]) {
            lemma_key_lt_trans(kv, ks[lo], ks[j]);
        }
    }
    if kv is Some {
        assert forall|j: int| 0 <= j < s.len() implies s[j].skey() != kv by {
            if j < lo {
                lemma_key_lt_trichotomy(s[j].skey(), kv);
            } else {
                assert(ks[lo] == s[lo].skey());
                assert(ks[j] == s[j].skey());
                assert(key_le(ks[lo], ks[j]));
                lemma_key_lt_trichotomy(ks[lo], kv);
                if s[j].skey() == kv {
                    assert(key_lt(kv, ks[lo]));
                    if key_lt(ks[lo], ks[j]) {
                        lemma_key_lt_trans(kv, ks[lo], ks[j]);
                        lemma_key_lt_trichotomy(kv, ks[j]);
                    }
                }
            }
        }
    }
}

/// Inserting a record at its insertion point keeps the store ascending.
pub proof fn lemma_insert_sorted<R: Keyed>(s: Seq<R>, i: int, c: R)
    requires
        sorted_by_key(s),
        0 <= i <= s.len(),
        forall|j: int| 0 <= j < i ==> key_lt(s[j].skey(), c.skey()),
        forall|j: int| i <= j < s.len() ==> key_le(c.skey(), s[j].skey()),
    ensures
        sorted_by_key(s.insert(i, c)),
{
    let t = s.insert(i, c);
    s.insert_ensures(i, c);
    let ks = keys_of(s);
    let kt = keys_of(t);
    assert forall|a: int, b: int| 0 <= a <= b < kt.len() implies key_le(kt[a], kt[b]) by {
        assert(kt[a] == t[a].skey());
        assert(kt[b] == t[b].skey());
        if a < i {
            assert(t[a] == s[a]);
            assert(ks[a] == s[a].skey());
        }
        if b < i {
            assert(t[b] == s[b]);
            assert(ks[b] == s[b].skey());
        }
        if a > i {
            assert(t[a] == s[a - 1]);
            assert(ks[a - 1] == s[a - 1].skey());
        }
        if b > i {
            assert(t[b] == s[b - 1]);
            assert(ks[b - 1] == s[b - 1].skey());
        }
        if a < i && b == i {
        } else if a < i && b > i {
            assert(key_lt(s[a].skey(), c.skey()));
            assert(key_le(c.skey(), s[b - 1].skey()));
            lemma_key_le_trans(s[a].skey(), c.skey(), s[b - 1].skey());
        } else if a == i && b > i {
            assert(key_le(c.skey(), s[b - 1].skey()));
        } else if a < i && b < i {
            assert(key_le(ks[a], ks[b]));
        } else if a > i {
            assert(key_le(ks[a - 1], ks[b - 1]));
        }
    }
}

/// One catalog record: the chart's content hash as key, the caller's
/// identity for the record (everything the codec layer keeps for it), and
/// the chart's cached difficulty ratings.
pub struct CatalogEntry {
    pub key: Option<Vec<u8>>,
    pub handle: usize,
    pub ratings: Vec<RatingEntry>,
}

impl Keyed for CatalogEntry {
    open spec fn skey(&self) -> Option<Seq<u8>> {
        key_view(self.key)
    }

    fn key(&self) -> (k: &Option<Vec<u8>>) {
        &self.key
    }
}

/// The catalog after reconciling one candidate: untouched when the
/// candidate's key is already known (imports are informational for known
/// keys), otherwise the candidate stands at its insertion point.
pub open spec fn spec_merge(t: Seq<CatalogEntry>, c: CatalogEntry) -> Seq<CatalogEntry> {
    if key_present(t, c.skey()) {
        t
    } else {
        t.insert(key_lower_bound(t, c.skey()), c)
    }
}

/// Reconciles one candidate into the ascending catalog. A candidate whose
/// key is already present changes nothing — never a duplicate insert; an
/// unknown or absent key has the candidate inserted at its insertion
/// point. Returns whether the candidate was added.
pub fn merge_catalog_entry(target: &mut Vec<CatalogEntry>, candidate: CatalogEntry) -> (added:
    bool)
    requires
        sorted_by_key(old(target)@),
    ensures
        sorted_by_key(final(target)@),
        added == !key_present(old(target)@, candidate.skey()),
        final(target)@ == spec_merge(old(target)@, candidate),
        !added ==> final(target)@ == old(target)@,
{
    match find_by_key(target, &candidate.key) {
        FindOutcome::Found(i) => {
            proof {
                assert(target@[i as int].skey() == candidate.skey());
            }
            false
        },
        FindOutcome::Missing(i) => {
            proof {
                lemma_insert_sorted(target@, i as int, candidate);
            }
            target.insert(i, candidate);
            true
        },
    }
}

/// Reconciling a candidate whose key is present is idempotent: once a
/// merge has put the key into the catalog, merging the same candidate
/// again returns the catalog unchanged, in length and in content.
pub proof fn lemma_merge_idempotent(t: Seq<CatalogEntry>, c: CatalogEntry)
    requires
        c.skey() is Some,
    ensures
        spec_merge(spec_merge(t, c), c) == spec_merge(t, c),
{
    if !key_present(t, c.skey()) {
        let i = key_lower_bound(t, c.skey());
        lemma_keys_lower_bound_props(keys_of(t), c.skey());
        let t1 = t.insert(i, c);
        t.insert_ensures(i, c);
        assert(t1[i] == c);
        assert(key_present(t1, c.skey()));
    }
}

/// A named, unordered membership list of chart keys, never deduplicated
/// internally.
pub struct Collection {
    pub name: Option<Vec<u8>>,
    pub hashes: Vec<Option<Vec<u8>>>,
}

/// The spec-level values of a list of keys.
pub open spec fn hash_views(hs: Seq<Option<Vec<u8>>>) -> Seq<Option<Seq<u8>>> {
    hs.map_values(|k: Option<Vec<u8>>| key_view(k))
}

/// The present keys of a catalog, in catalog order.
pub open spec fn present_keys(s: Seq<CatalogEntry>) -> Seq<Option<Seq<u8>>>
    decreases s.len(),
{
    if s.len() == 0 {
        Seq::empty()
    } else {
        let rest = present_keys(s.drop_last());
        if s.last().skey() is Some {
            rest.push(s.last().skey())
        } else {
            rest
        }
    }
}

/// Copies a key.
fn clone_key(k: &Option<Vec<u8>>) -> (r: Option<Vec<u8>>)
    ensures
        key_view(r) == key_view(*k),
{
    match k {
        Option::None => Option::None,
        Option::Some(v) => {
            let mut out: Vec<u8> = Vec::new();
            let mut i: usize = 0;
            while i < v.len()
                invariant
                    i <= v@.len(),
                    out@ == v@.take(i as int),
                decreases v@.len() - i,
            {
                out.push(v[i]);
                proof {
                    assert(v@.take(i + 1) =~= v@.take(i as int).push(v@[i as int]));
                }
                i = i + 1;
            }
            proof {
                assert(v@.take(v@.len() as int) =~= v@);
            }
            Option::Some(out)
        },
    }
}

/// Builds a named collection of every present key of the catalog, in
/// catalog order; keyless entries are left out. This construction bypasses
/// reconciliation entirely: it is a plain projection.
pub fn build_collection(catalog: &Vec<CatalogEntry>, name: Option<Vec<u8>>) -> (c: Collection)
    ensures
        c.name == name,
        hash_views(c.hashes@) == present_keys(catalog@),
{
    let mut hashes: Vec<Option<Vec<u8>>> = Vec::new();
    let mut i: usize = 0;
    proof {
        assert(hash_views(hashes@) =~= present_keys(catalog@.take(0)));
    }
    while i < catalog.len()
        invariant
            i <= catalog@.len(),
            hash_views(hashes@) == present_keys(catalog@.take(i as int)),
        decreases catalog@.len() - i,
    {
        let entry = &catalog[i];
        proof {
            assert(catalog@.take(i + 1).drop_last() =~= catalog@.take(i as int));
            assert(catalog@.take(i + 1).last() == catalog@[i as int]);
        }
        match &entry.key {
            Option::Some(_) => {
                let ghost before = hashes@;
                let k = clone_key(&entry.key);
                hashes.push(k);
                proof {
                    assert(hash_views(hashes@) =~= hash_views(before).push(key_view(k)));
                }
            },
            Option::None => {},
        }
        i = i + 1;
    }
    proof {
        assert(catalog@.take(catalog@.len() as int) =~= catalog@);
    }
    Collection { name, hashes }
}

/// One recorded play: its content hash as key, and the caller's identity
/// for the replay (everything the codec layer keeps for it).
pub struct ReplayRecord {
    pub key: Option<Vec<u8>>,
    pub handle: usize,
}

/// One score-history record: a chart's content hash, and the plays
/// recorded for that chart in recording order.
pub struct ScoreBucket {
    pub key: Option<Vec<u8>>,
    pub scores: Vec<ReplayRecord>,
}

impl Keyed for ScoreBucket {
    open spec fn skey(&self) -> Option<Seq<u8>> {
        key_view(self.key)
    }

    fn key(&self) -> (k: &Option<Vec<u8>>) {
        &self.key
    }
}

/// The spec-level value of a recorded play.
#[verifier::ext_equal]
pub struct ReplayView {
    pub key: Option<Seq<u8>>,
    pub handle: int,
}

/// The spec-level value of a score-history record.
#[verifier::ext_equal]
pub struct BucketView {
    pub key: Option<Seq<u8>>,
    pub scores: Seq<ReplayView>,
}

/// The spec-level value of a play.
pub open spec fn replay_view(r: ReplayRecord) -> ReplayView {
    ReplayView { key: key_view(r.key), handle: r.handle as int }
}

/// The spec-level value of a score-history record.
pub open spec fn bucket_view(b: ScoreBucket) -> BucketView {
    BucketView {
        key: key_view(b.key),
        scores: b.scores@.map_values(|r: ReplayRecord| replay_view(r)),
    }
}

/// The spec-level value of a whole score history.
pub open spec fn buckets_view(s: Seq<ScoreBucket>) -> Seq<BucketView> {
    s.map_values(|b: ScoreBucket| bucket_view(b))
}

/// The keys of a spec-level score history, in order.
pub open spec fn bucket_keys(bs: Seq<BucketView>) -> Seq<Option<Seq<u8>>> {
    bs.map_values(|b: BucketView| b.key)
}

/// Whether a present replay key already stands among a bucket's plays; an
/// absent replay key never matches.
pub open spec fn has_replay(scores: Seq<ReplayView>, k: Option<Seq<u8>>) -> bool {
    k is Some && exists|i: int| 0 <= i < scores.len() && scores[i].key == k
}

/// A score history after reconciling one play recorded for chart key `k`:
/// a matched bucket either already holds the play's key (a duplicate,
/// nothing changes) or has the play appended; an unmatched chart key gets
/// a fresh single-play bucket at its insertion point.
pub open spec fn spec_import(bs: Seq<BucketView>, k: Option<Seq<u8>>, r: ReplayView) -> Seq<
    BucketView,
> {
    let i = keys_lower_bound(bucket_keys(bs), k);
    if k is Some && 0 <= i < bs.len() && bs[i].key == k {
        if has_replay(bs[i].scores, r.key) {
            bs
        } else {
            bs.update(i, BucketView { key: bs[i].key, scores: bs[i].scores.push(r) })
        }
    } else {
        bs.insert(i, BucketView { key: k, scores: seq![r] })
    }
}

/// Whether importing the play would find it already recorded.
pub open spec fn spec_duplicate(bs: Seq<BucketView>, k: Option<Seq<u8>>, r: ReplayView) -> bool {
    let i = keys_lower_bound(bucket_keys(bs), k);
    k is Some && 0 <= i < bs.len() && bs[i].key == k && has_replay(bs[i].scores, r.key)
}

/// Whether a present replay key already stands among the plays.
fn has_replay_exec(scores: &Vec<ReplayRecord>, key: &Option<Vec<u8>>) -> (r: bool)
    ensures
        r == has_replay(
            scores@.map_values(|x: ReplayRecord| replay_view(x)),
            key_view(*key),
        ),
{
    let ghost svs = scores@.map_values(|x: ReplayRecord| replay_view(x));
    match key {
        Option::None => false,
        Option::Some(_) => {
            let mut i: usize = 0;
            while i < scores.len()
                invariant
                    i <= scores@.len(),
                    svs == scores@.map_values(|x: ReplayRecord| replay_view(x)),
                    key_view(*key) is Some,
                    forall|j: int| 0 <= j < i ==> #[trigger] svs[j].key != key_view(*key),
                decreases scores@.len() - i,
            {
                let entry = &scores[i];
                let c = key_compare(&entry.key, key);
                proof {
                    assert(svs[i as int] == replay_view(scores@[i as int]));
                }
                match c {
                    KeyOrder::Equal => {
                        proof {
                            assert(svs[i as int].key == key_view(*key));
                        }
                        return true;
                    },
                    _ => {},
                }
                i = i + 1;
            }
            false
        },
    }
}

/// Reconciles one recorded play into the ascending score history, keyed by
/// the chart's hash and deduplicated within a bucket by the play's own
/// hash. Returns whether anything was added.
pub fn import_score(
    buckets: &mut Vec<ScoreBucket>,
    chart_key: Option<Vec<u8>>,
    rec: ReplayRecord,
) -> (added: bool)
    requires
        sorted_by_key(old(buckets)@),
    ensures
        sorted_by_key(final(buckets)@),
        buckets_view(final(buckets)@) == spec_import(
            buckets_view(old(buckets)@),
            key_view(chart_key),
            replay_view(rec),
        ),
        added == !spec_duplicate(
            buckets_view(old(buckets)@),
            key_view(chart_key),
            replay_view(rec),
        ),
{
    let ghost bv0 = buckets_view(old(buckets)@);
    let ghost kv = key_view(chart_key);
    let ghost rv = replay_view(rec);
    proof {
        assert(keys_of(old(buckets)@) =~= bucket_keys(bv0));
    }
    match find_by_key(buckets, &chart_key) {
        FindOutcome::Found(i) => {
            proof {
                assert(bv0[i as int] == bucket_view(old(buckets)@[i as int]));
                assert(bv0[i as int].key == kv);
            }
            let mut bucket = buckets.remove(i);
            let dup = has_replay_exec(&bucket.scores, &rec.key);
            if dup {
                buckets.insert(i, bucket);
                proof {
                    old(buckets)@.remove_ensures(i as int);
                    old(buckets)@.remove(i as int).insert_ensures(i as int, old(
                        buckets,
                    )@[i as int]);
                    assert(buckets@ =~= old(buckets)@);
                    assert(spec_duplicate(bv0, kv, rv));
                }
                false
            } else {
                let ghost old_bucket = old(buckets)@[i as int];
                bucket.scores.push(rec);
                buckets.insert(i, bucket);
                proof {
                    old(buckets)@.remove_ensures(i as int);
                    let ghost nb = ScoreBucket {
                        key: old_bucket.key,
                        scores: old_bucket.scores,
                    };
                    old(buckets)@.remove(i as int).insert_ensures(i as int, buckets@[i as int]);
                    assert(buckets@ =~= old(buckets)@.update(i as int, buckets@[i as int]));
                    assert(buckets@[i as int].key == old_bucket.key);
                    assert(buckets@[i as int].scores@ =~= old_bucket.scores@.push(rec));
                    assert(keys_of(buckets@) =~= keys_of(old(buckets)@));
                    assert(sorted_by_key(buckets@));
                    assert(bucket_view(buckets@[i as int]).scores =~= bv0[i as int].scores.push(
                        rv,
                    ));
                    assert(bucket_view(buckets@[i as int]) =~= (BucketView {
                        key: bv0[i as int].key,
                        scores: bv0[i as int].scores.push(rv),
                    }));
                    assert(buckets_view(buckets@) =~~= spec_import(bv0, kv, rv));
                }
                true
            }
        },
        FindOutcome::Missing(i) => {
            let mut scores: Vec<ReplayRecord> = Vec::new();
            scores.push(rec);
            let bucket = ScoreBucket { key: chart_key, scores };
            proof {
                lemma_insert_sorted(old(buckets)@, i as int, bucket);
            }
            buckets.insert(i, bucket);
            proof {
                old(buckets)@.insert_ensures(i as int, bucket);
                bv0.insert_ensures(i as int, BucketView { key: kv, scores: seq![rv] });
                assert(bucket_view(bucket).scores =~= seq![rv]);
                assert(bucket_view(bucket) =~= (BucketView { key: kv, scores: seq![rv] }));
                assert(buckets_view(buckets@) =~~= spec_import(bv0, kv, rv));
            }
            true
        },
    }
}

/// Reconciling the same play into the history twice is idempotent: after
/// the first import has made the chart and play keys present, the second
/// import returns the history unchanged, in length and in content.
pub proof fn lemma_import_idempotent(bs: Seq<BucketView>, k: Option<Seq<u8>>, r: ReplayView)
    requires
        keys_sorted(bucket_keys(bs)),
        k is Some,
        r.key is Some,
    ensures
        spec_import(spec_import(bs, k, r), k, r) == spec_import(bs, k, r),
{
    let ks = bucket_keys(bs);
    let i = keys_lower_bound(ks, k);
    lemma_keys_lower_bound_props(ks, k);
    if 0 <= i < bs.len() && bs[i].key == k {
        if has_replay(bs[i].scores, r.key) {
        } else {
            let nb = BucketView { key: bs[i].key, scores: bs[i].scores.push(r) };
            let b1 = bs.update(i, nb);
            assert(bucket_keys(b1) =~= ks);
            assert(b1[i].scores[b1[i].scores.len() - 1] == r);
            assert(has_replay(b1[i].scores, r.key));
        }
    } else {
        let nb = BucketView { key: k, scores: seq![r] };
        let b1 = bs.insert(i, nb);
        bs.insert_ensures(i, nb);
        assert(bucket_keys(b1) =~= ks.insert(i, k));
        ks.insert_ensures(i, k);
        lemma_key_lt_trichotomy(k, k);
        lemma_keys_lower_bound_unique(ks.insert(i, k), k, i);
        assert(b1[i] == nb);
        assert(nb.scores[0] == r);
        assert(has_replay(b1[i].scores, r.key));
        assert(spec_import(b1, k, r) == b1);
    }
}

/// The whole key sequence is ascending when every adjacent pair is.
proof fn lemma_adjacent_sorted(ks: Seq<Option<Seq<u8>>>, i: int, j: int)
    requires
        forall|x: int| 0 <= x < ks.len() - 1 ==> #[trigger] key_le(ks[x], ks[x + 1]),
        0 <= i <= j < ks.len(),
    ensures
        key_le(ks[i], ks[j]),
    decreases j - i,
{
    if i < j {
        lemma_adjacent_sorted(ks, i, j - 1);
        assert(key_le(ks[j - 1], ks[j - 1 + 1]));
        lemma_key_le_trans(ks[i], ks[j - 1], ks[j]);
    }
}

/// Checks that a store is ascending by key, as every reconciling call
/// requires of its target.
pub fn check_sorted_by_key<R: Keyed>(s: &Vec<R>) -> (r: bool)
    ensures
        r == sorted_by_key(s@),
{
    let ghost ks = keys_of(s@);
    let n = s.len();
    if n == 0 {
        return true;
    }
    let mut i: usize = 0;
    while i + 1 < n
        invariant
            n == s@.len(),
            ks == keys_of(s@),
            0 <= i < n,
            forall|x: int| 0 <= x < i ==> #[trigger] key_le(ks[x], ks[x + 1]),
        decreases n - i,
    {
        let a = &s[i];
        let b = &s[i + 1];
        let c = key_compare(a.key(), b.key());
        proof {
            assert(ks[i as int] == s@[i as int].skey());
            assert(ks[i + 1] == s@[i + 1].skey());
        }
        match c {
            KeyOrder::Greater => {
                proof {
                    lemma_key_lt_trichotomy(ks[i as int], ks[i + 1]);
                    assert(!key_le(ks[i as int], ks[i + 1]));
                }
                return false;
            },
            _ => {
                proof {
                    assert(key_le(ks[i as int], ks[i + 1]));
                }
            },
        }
        i = i + 1;
    }
    proof {
        assert forall|a: int, b: int| 0 <= a <= b < ks.len() implies key_le(ks[a], ks[b]) by {
            lemma_adjacent_sorted(ks, a, b);
        }
    }
    true
}

} // verus!
