//! Nearest-color matching over the content index.
//!
//! A target color is matched by a linear scan for the entry whose average
//! minimizes the distance metric; ties go to the earliest entry, so the
//! choice is deterministic for a fixed index. An optional cache memoizes
//! target color to chosen entry; it only ever holds answers the scan would
//! give, so a hit and a fresh scan agree.
use std::collections::HashMap;
use vstd::prelude::*;
use crate::MosaicError;
use crate::color::dist_spec;
use crate::color::distance;
use crate::color::lemma_dist_nonneg;
use crate::color::lemma_dist_zero;
use crate::index::ContentIndex;
use crate::index::EntryModel;

verus! {

broadcast use vstd::std_specs::hash::group_hash_axioms;

/// The index of the entry a scan chooses for `t`: the first one whose
/// average is at minimal distance from `t`.
pub open spec fn closest_idx_spec(s: Seq<EntryModel>, t: (u8, u8, u8)) -> int
    recommends
        s.len() > 0,
    decreases s.len(),
{
    if s.len() <= 1 {
        0
    } else {
        let r = closest_idx_spec(s.drop_last(), t);
        if dist_spec(s.last().average, t) < dist_spec(s[r].average, t) {
            s.len() - 1
        } else {
            r
        }
    }
}

/// The chosen entry is a real entry, at minimal distance, and earliest
/// among the minima.
pub proof fn lemma_closest_minimal(s: Seq<EntryModel>, t: (u8, u8, u8))
    requires
        s.len() > 0,
    ensures
        0 <= closest_idx_spec(s, t) < s.len(),
        forall|j: int|
            0 <= j < s.len() ==> dist_spec(s[closest_idx_spec(s, t)].average, t) <= dist_spec(
                #[trigger] s[j].average,
                t,
            ),
        forall|j: int|
            0 <= j < closest_idx_spec(s, t) ==> dist_spec(#[trigger] s[j].average, t) > dist_spec(
                s[closest_idx_spec(s, t)].average,
                t,
            ),
    decreases s.len(),
{
    if s.len() > 1 {
        lemma_closest_minimal(s.drop_last(), t);
        assert(forall|j: int| 0 <= j < s.len() - 1 ==> s.drop_last()[j] == s[j]);
    }
}

/// Exact match: when exactly one entry's average equals the target, the
/// scan chooses that entry, at distance zero.
pub proof fn lemma_exact_match(s: Seq<EntryModel>, t: (u8, u8, u8), i: int)
    requires
        0 <= i < s.len(),
        s[i].average == t,
        forall|j: int| 0 <= j < s.len() && j != i ==> (#[trigger] s[j].average) != t,
    ensures
        closest_idx_spec(s, t) == i,
        dist_spec(s[i].average, t) == 0,
{
    lemma_dist_zero(s[i].average, t);
    lemma_closest_minimal(s, t);
    let c = closest_idx_spec(s, t);
    assert(dist_spec(s[c].average, t) <= dist_spec(s[i].average, t));
    lemma_dist_zero(s[c].average, t);
    lemma_dist_nonneg(s[c].average, t);
    if c != i {
        assert(s[c].average != t);
        assert(dist_spec(s[c].average, t) != 0);
    }
}

/// Scans the whole index for the entry whose average color is closest to
/// the target; fails exactly when the index is empty.
pub fn closest(index: &ContentIndex, target: (u8, u8, u8)) -> (r: Result<usize, MosaicError>)
    ensures
        match r {
            Ok(i) => index@.len() > 0 && (i as int) < index@.len() && i == closest_idx_spec(
                index@,
                target,
            ),
            Err(e) => e == MosaicError::NoTilesAvailable && index@.len() == 0,
        },
{
    let n: usize = index.entries.len();
    if n == 0 {
        return Err(MosaicError::NoTilesAvailable);
    }
    let mut best: usize = 0;
    let mut best_dist: u32 = distance(index.entries[0].data.average, target);
    let mut i: usize = 1;
    while i < n
        invariant
            1 <= i <= n,
            n == index.entries@.len(),
            n == index@.len(),
            0 <= best < i,
            best_dist == dist_spec(index@[best as int].average, target),
            best == closest_idx_spec(index@.take(i as int), target),
        decreases n - i,
    {
        let d = distance(index.entries[i].data.average, target);
        proof {
            let pre = index@.take(i as int);
            let post = index@.take(i + 1);
            assert(post.drop_last() =~= pre);
            assert(post.last() == index@[i as int]);
            assert(forall|k: int| 0 <= k < i ==> post[k] == index@[k]);
        }
        if d < best_dist {
            best = i;
            best_dist = d;
        }
        i = i + 1;
    }
    proof {
        assert(index@.take(n as int) =~= index@);
    }
    Ok(best)
}

/// Scans for the closest entry and hands back its path, the form in which
/// the compositor's caller refers to a tile file.
pub fn closest_path<'a>(index: &'a ContentIndex, target: (u8, u8, u8)) -> (r: Result<
    &'a Vec<u8>,
    MosaicError,
>)
    ensures
        match r {
            Ok(p) => index@.len() > 0 && p@ == index@[closest_idx_spec(index@, target)].path,
            Err(e) => e == MosaicError::NoTilesAvailable && index@.len() == 0,
        },
{
    match closest(index, target) {
        Ok(i) => Ok(&index.entries[i].path),
        Err(e) => Err(e),
    }
}

/// Packs a color into a single integer key, one byte per channel.
pub open spec fn color_key_spec(t: (u8, u8, u8)) -> u32 {
    (((t.0 as int) * 0x1_0000) + ((t.1 as int) * 0x100) + (t.2 as int)) as u32
}

fn color_key(t: (u8, u8, u8)) -> (r: u32)
    ensures
        r == color_key_spec(t),
{
    (t.0 as u32) * 0x1_0000 + (t.1 as u32) * 0x100 + (t.2 as u32)
}

/// Packing is injective: distinct colors get distinct keys.
proof fn lemma_color_key_injective(a: (u8, u8, u8), b: (u8, u8, u8))
    requires
        color_key_spec(a) == color_key_spec(b),
    ensures
        a == b,
{
    let ka = ((a.0 as int) * 0x1_0000) + ((a.1 as int) * 0x100) + (a.2 as int);
    let kb = ((b.0 as int) * 0x1_0000) + ((b.1 as int) * 0x100) + (b.2 as int);
    assert(0 <= ka < 0x1_0000_0000 && 0 <= kb < 0x1_0000_0000);
    assert(ka == kb);
    assert(a.0 == b.0 && a.1 == b.1 && a.2 == b.2);
    assert(a =~= b);
}

/// A memo of closest-match answers, keyed by packed target color. Purely
/// an in-memory optimization: it is created empty for a run and never holds
/// anything but what a scan of that run's index snapshot would answer.
pub struct ColorMatchCache {
    pub map: HashMap<u32, usize>,
}

impl ColorMatchCache {
    /// The memo's contents as a map from packed color to chosen entry.
    pub open spec fn view(&self) -> Map<u32, usize> {
        self.map@
    }

    /// Every memoized answer is the answer a scan of `s` gives.
    pub open spec fn consistent_with(&self, s: Seq<EntryModel>) -> bool {
        forall|t: (u8, u8, u8)|
            self@.contains_key(#[trigger] color_key_spec(t)) ==> s.len() > 0 && (self@[
                color_key_spec(t)
            ] as int) < s.len() && self@[color_key_spec(t)] == closest_idx_spec(s, t)
    }

    /// An empty memo, consistent with any index.
    pub fn new() -> (r: ColorMatchCache)
        ensures
            r@ =~= Map::<u32, usize>::empty(),
            forall|s: Seq<EntryModel>| r.consistent_with(s),
    {
        let c = ColorMatchCache { map: HashMap::new() };
        proof {
            assert forall|s: Seq<EntryModel>| c.consistent_with(s) by {
                assert(c@ =~= Map::<u32, usize>::empty());
            }
        }
        c
    }
}

/// A memoized answer for a target color, if one is stored. The check half
/// of the cache's check-compute-store discipline.
pub fn cache_get(cache: &ColorMatchCache, target: (u8, u8, u8)) -> (r: Option<usize>)
    ensures
        match r {
            Some(i) => cache@.contains_key(color_key_spec(target)) && cache@[color_key_spec(
                target,
            )] == i,
            None => !cache@.contains_key(color_key_spec(target)),
        },
{
    let key = color_key(target);
    match cache.map.get(&key) {
        Some(i) => Some(*i),
        None => None,
    }
}

/// Memoizes a scan's answer for a target color. The answer must be exactly
/// what the scan gives — `closest` hands one back — so the memo never
/// holds anything else. The store half of the check-compute-store
/// discipline.
pub fn cache_store(cache: &mut ColorMatchCache, index: &ContentIndex, target: (u8, u8, u8), i: usize)
    requires
        old(cache).consistent_with(index@),
        index@.len() > 0,
        (i as int) < index@.len(),
        i == closest_idx_spec(index@, target),
    ensures
        final(cache).consistent_with(index@),
{
    let key = color_key(target);
    cache.map.insert(key, i);
    proof {
        assert forall|t: (u8, u8, u8)|
            cache@.contains_key(#[trigger] color_key_spec(t)) implies index@.len() > 0 && (cache@[
            color_key_spec(t)
        ] as int) < index@.len() && cache@[color_key_spec(t)] == closest_idx_spec(index@, t) by {
            if color_key_spec(t) == key {
                lemma_color_key_injective(t, target);
            }
        }
    }
}

/// Matches a target color through the memo: a hit answers at once, a miss
/// scans the index and records the answer. Either way the result is what a
/// plain scan returns.
pub fn closest_cached(
    cache: &mut ColorMatchCache,
    index: &ContentIndex,
    target: (u8, u8, u8),
) -> (r: Result<usize, MosaicError>)
    requires
        old(cache).consistent_with(index@),
    ensures
        final(cache).consistent_with(index@),
        match r {
            Ok(i) => index@.len() > 0 && (i as int) < index@.len() && i == closest_idx_spec(
                index@,
                target,
            ),
            Err(e) => e == MosaicError::NoTilesAvailable && index@.len() == 0,
        },
{
    match cache_get(cache, target) {
        Some(i) => {
            proof {
                assert(cache@.contains_key(color_key_spec(target)));
            }
            Ok(i)
        },
        None => {
            match closest(index, target) {
                Ok(i) => {
                    cache_store(cache, index, target, i);
                    Ok(i)
                },
                Err(e) => Err(e),
            }
        },
    }
}

} // verus!
