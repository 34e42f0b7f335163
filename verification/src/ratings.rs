//! The difficulty-rating cache of a catalog entry, and the planning of its
//! fill.
//!
//! A chart's cached ratings map modifier sets to a rating value. The fill
//! works per entry: first the wanted modifier sets that have no cached
//! rating are listed, then the externally computed ratings for exactly
//! those sets are appended. The rating value itself is carried opaquely, in
//! a caller-chosen fixed bit encoding; the logic only ever compares the
//! modifier sets.

use vstd::prelude::*;

verus! {

/// A set of gameplay modifiers, as a bitset over a small fixed enumeration.
/// Used as an equality-compared cache key.
#[derive(Clone, Copy, PartialEq, Eq, Structural, Debug)]
pub struct ModifierSet {
    pub bits: u32,
}

/// One cached rating: a modifier set and the rating value in the caller's
/// bit encoding.
#[derive(Clone, Copy, PartialEq, Eq, Structural, Debug)]
pub struct RatingEntry {
    pub mods: ModifierSet,
    pub value: u64,
}

/// Whether some cached entry rates the modifier set `m`.
pub open spec fn has_rating(rs: Seq<RatingEntry>, m: ModifierSet) -> bool {
    exists|i: int| 0 <= i < rs.len() && rs[i].mods == m
}

/// The set of modifier sets that the cache rates.
pub open spec fn rated_mods(rs: Seq<RatingEntry>) -> Set<ModifierSet> {
    Set::new(|m: ModifierSet| has_rating(rs, m))
}

/// At most one cached entry per distinct modifier set.
pub open spec fn mods_unique(rs: Seq<RatingEntry>) -> bool {
    forall|i: int, j: int| 0 <= i < j < rs.len() ==> rs[i].mods != rs[j].mods
}

/// The wanted modifier sets that have no cached rating, in wanted order.
pub open spec fn spec_missing(wanted: Seq<ModifierSet>, rs: Seq<RatingEntry>) -> Seq<ModifierSet>
    decreases wanted.len(),
{
    if wanted.len() == 0 {
        Seq::empty()
    } else {
        let rest = spec_missing(wanted.drop_last(), rs);
        if !has_rating(rs, wanted.last()) {
            rest.push(wanted.last())
        } else {
            rest
        }
    }
}

/// Whether some cached entry rates `m`.
fn has_rating_exec(ratings: &Vec<RatingEntry>, m: ModifierSet) -> (r: bool)
    ensures
        r == has_rating(ratings@, m),
{
    let mut i: usize = 0;
    while i < ratings.len()
        invariant
            i <= ratings@.len(),
            forall|j: int| 0 <= j < i ==> ratings@[j].mods != m,
        decreases ratings@.len() - i,
    {
        if ratings[i].mods == m {
            return true;
        }
        i = i + 1;
    }
    false
}

/// Lists the wanted modifier sets that the cache does not rate yet, in
/// wanted order. An empty result means the entry can be skipped whole.
pub fn missing_modsets(wanted: &Vec<ModifierSet>, ratings: &Vec<RatingEntry>) -> (r: Vec<
    ModifierSet,
>)
    ensures
        r@ == spec_missing(wanted@, ratings@),
{
    let mut r: Vec<ModifierSet> = Vec::new();
    let mut i: usize = 0;
    while i < wanted.len()
        invariant
            i <= wanted@.len(),
            r@ == spec_missing(wanted@.take(i as int), ratings@),
        decreases wanted@.len() - i,
    {
        let m = wanted[i];
        proof {
            assert(wanted@.take(i + 1).drop_last() =~= wanted@.take(i as int));
            assert(wanted@.take(i + 1).last() == wanted@[i as int]);
        }
        if !has_rating_exec(ratings, m) {
            r.push(m);
        }
        i = i + 1;
    }
    proof {
        assert(wanted@.take(wanted@.len() as int) =~= wanted@);
    }
    r
}

/// Appends externally computed ratings to a cache, in the order computed.
pub fn record_ratings(ratings: &mut Vec<RatingEntry>, computed: &Vec<RatingEntry>)
    ensures
        final(ratings)@ == old(ratings)@ + computed@,
{
    let mut i: usize = 0;
    while i < computed.len()
        invariant
            i <= computed@.len(),
            ratings@ == old(ratings)@ + computed@.take(i as int),
        decreases computed@.len() - i,
    {
        ratings.push(computed[i]);
        proof {
            assert(old(ratings)@ + computed@.take(i + 1) =~= (old(ratings)@ + computed@.take(
                i as int,
            )).push(computed@[i as int]));
        }
        i = i + 1;
    }
    proof {
        assert(computed@.take(computed@.len() as int) =~= computed@);
    }
}

/// A modifier set is missing exactly when it is wanted and not yet rated.
pub proof fn lemma_missing_contains(wanted: Seq<ModifierSet>, rs: Seq<RatingEntry>, m: ModifierSet)
    ensures
        spec_missing(wanted, rs).contains(m) == (wanted.contains(m) && !has_rating(rs, m)),
    decreases wanted.len(),
{
    if wanted.len() == 0 {
    } else {
        lemma_missing_contains(wanted.drop_last(), rs, m);
        if wanted.drop_last().contains(m) {
            let i = choose|i: int|
                0 <= i < wanted.drop_last().len() && wanted.drop_last()[i] == m;
            assert(wanted[i] == m);
            assert(wanted.contains(m));
        }
        if wanted.contains(m) && m != wanted.last() {
            let i = choose|i: int| 0 <= i < wanted.len() && wanted[i] == m;
            assert(wanted.drop_last()[i] == m);
        }
        let miss = spec_missing(wanted, rs);
        let rest = spec_missing(wanted.drop_last(), rs);
        if !has_rating(rs, wanted.last()) {
            assert(miss == rest.push(wanted.last()));
            if miss.contains(m) {
                let i = choose|i: int| 0 <= i < miss.len() && miss[i] == m;
                if i < rest.len() {
                    assert(rest[i] == m);
                }
            }
            if rest.contains(m) {
                let i = choose|i: int| 0 <= i < rest.len() && rest[i] == m;
                assert(miss[i] == m);
            }
            if m == wanted.last() {
                assert(miss[miss.len() - 1] == m);
                assert(wanted[wanted.len() - 1] == m);
            }
        }
    }
}

/// Filling is exhaustive and order-independent at the level of the rated
/// key set: appending ratings for exactly the missing wanted sets makes
/// the rated set the union of the old rated set and the wanted sets — for
/// an entry with nothing cached, exactly the wanted sets, however the
/// computed ratings were ordered.
pub proof fn lemma_fill_rated_mods(
    rs: Seq<RatingEntry>,
    wanted: Seq<ModifierSet>,
    computed: Seq<RatingEntry>,
)
    requires
        computed.map_values(|r: RatingEntry| r.mods) == spec_missing(wanted, rs),
    ensures
        rated_mods(rs + computed) =~= rated_mods(rs) + wanted.to_set(),
{
    let all = rs + computed;
    assert forall|m: ModifierSet| rated_mods(all).contains(m) == (rated_mods(rs).contains(m)
        || wanted.to_set().contains(m)) by {
        lemma_missing_contains(wanted, rs, m);
        let cmods = computed.map_values(|r: RatingEntry| r.mods);
        if has_rating(all, m) {
            let i = choose|i: int| 0 <= i < all.len() && all[i].mods == m;
            if i < rs.len() {
                assert(rs[i].mods == m);
            } else {
                assert(computed[i - rs.len()].mods == m);
                assert(cmods[i - rs.len()] == m);
                assert(cmods.contains(m));
            }
        }
        if has_rating(rs, m) {
            let i = choose|i: int| 0 <= i < rs.len() && rs[i].mods == m;
            assert(all[i].mods == m);
        }
        if wanted.to_set().contains(m) && !has_rating(rs, m) {
            assert(wanted.contains(m));
            assert(cmods.contains(m));
            let i = choose|i: int| 0 <= i < cmods.len() && cmods[i] == m;
            assert(computed[i].mods == m);
            assert(all[rs.len() + i].mods == m);
        }
    }
}

/// Appending ratings for exactly the missing wanted sets keeps the cache
/// free of duplicate modifier sets, provided the wanted list itself has no
/// repeats.
pub proof fn lemma_fill_mods_unique(
    rs: Seq<RatingEntry>,
    wanted: Seq<ModifierSet>,
    computed: Seq<RatingEntry>,
)
    requires
        mods_unique(rs),
        forall|i: int, j: int| 0 <= i < j < wanted.len() ==> wanted[i] != wanted[j],
        computed.map_values(|r: RatingEntry| r.mods) == spec_missing(wanted, rs),
    ensures
        mods_unique(rs + computed),
{
    let cmods = computed.map_values(|r: RatingEntry| r.mods);
    lemma_missing_unique(wanted, rs);
    let all = rs + computed;
    assert forall|i: int, j: int| 0 <= i < j < all.len() implies all[i].mods != all[j].mods by {
        if i < rs.len() && j >= rs.len() {
            assert(all[i] == rs[i]);
            assert(all[j] == computed[j - rs.len()]);
            assert(cmods[j - rs.len()] == computed[j - rs.len()].mods);
            assert(cmods.contains(computed[j - rs.len()].mods));
            lemma_missing_contains(wanted, rs, computed[j - rs.len()].mods);
            if rs[i].mods == computed[j - rs.len()].mods {
                assert(has_rating(rs, rs[i].mods));
            }
        } else if i >= rs.len() {
            assert(cmods[i - rs.len()] == all[i].mods);
            assert(cmods[j - rs.len()] == all[j].mods);
        }
    }
}

/// The missing list never repeats a modifier set, when the wanted list does
/// not.
pub proof fn lemma_missing_unique(wanted: Seq<ModifierSet>, rs: Seq<RatingEntry>)
    requires
        forall|i: int, j: int| 0 <= i < j < wanted.len() ==> wanted[i] != wanted[j],
    ensures
        forall|i: int, j: int|
            0 <= i < j < spec_missing(wanted, rs).len() ==> spec_missing(wanted, rs)[i]
                != spec_missing(wanted, rs)[j],
    decreases wanted.len(),
{
    if wanted.len() == 0 {
    } else {
        assert forall|i: int, j: int|
            0 <= i < j < wanted.len() - 1 implies wanted.drop_last()[i]
            != wanted.drop_last()[j] by {
            assert(wanted.drop_last()[i] == wanted[i]);
            assert(wanted.drop_last()[j] == wanted[j]);
        }
        lemma_missing_unique(wanted.drop_last(), rs);
        let rest = spec_missing(wanted.drop_last(), rs);
        if !has_rating(rs, wanted.last()) {
            assert forall|i: int| 0 <= i < rest.len() implies rest[i] != wanted.last() by {
                lemma_missing_contains(wanted.drop_last(), rs, rest[i]);
                assert(rest.contains(rest[i]));
                if rest[i] == wanted.last() {
                    let w = choose|w: int|
                        0 <= w < wanted.len() - 1 && wanted.drop_last()[w] == rest[i];
                    assert(wanted[w] == wanted.last());
                }
            }
        }
    }
}

} // verus!
