//! The first state of a track, before fitting. Only here does one camera wait for another.
use vstd::prelude::*;

use super::contract::Vec3;
use super::fit::{TABLE_LENGTH_Y, TABLE_SURFACE_Z, TABLE_WIDTH_X};

verus! {

/// How far beyond the table's edges, and below its surface, a seed may lie [µm].
pub const SEED_VOLUME_MARGIN: i32 = 500_000;

/// How high above the playing surface a seed may lie [µm].
pub const SEED_MAX_HEIGHT: i32 = 2_000_000;

/// One pair of views triangulated: the point [µm], how many views reproject
/// onto it closely enough, and the worst of their errors [µpx].
#[derive(Debug, Clone, Copy, PartialEq, Eq, Structural)]
pub struct SeedCandidate {
    pub point: Vec3,
    pub votes: usize,
    pub worst: u64,
}

/// Outside the volume a thrown ball can be in.
pub open spec fn outside_seed_volume(p: Vec3) -> bool {
    p.y < -SEED_VOLUME_MARGIN || p.y > TABLE_LENGTH_Y + SEED_VOLUME_MARGIN || p.x
        < -SEED_VOLUME_MARGIN || p.x > TABLE_WIDTH_X + SEED_VOLUME_MARGIN || p.z < TABLE_SURFACE_Z
        - SEED_VOLUME_MARGIN || p.z > TABLE_SURFACE_Z + SEED_MAX_HEIGHT
}

/// A triangulated point inside the volume that two views or more agree on.
pub open spec fn eligible_seed(c: Option<SeedCandidate>) -> bool {
    c matches Some(x) && !outside_seed_volume(x.point) && x.votes >= 2
}

/// More votes, or as many with a smaller worst error.
pub open spec fn better_seed(a: SeedCandidate, b: SeedCandidate) -> bool {
    a.votes > b.votes || (a.votes == b.votes && a.worst < b.worst)
}

/// `k` is the first of the eligible candidates that none beats.
pub open spec fn is_best_seed(cs: Seq<Option<SeedCandidate>>, k: int) -> bool {
    &&& 0 <= k < cs.len()
    &&& eligible_seed(cs[k])
    &&& forall|j: int|
        0 <= j < cs.len() && eligible_seed(#[trigger] cs[j]) ==> !better_seed(cs[j].unwrap(), cs[k].unwrap())
    &&& forall|j: int|
        0 <= j < k && eligible_seed(#[trigger] cs[j]) ==> better_seed(cs[k].unwrap(), cs[j].unwrap())
}

/// The point of the best candidate, if any is eligible.
pub open spec fn best_seed(cs: Seq<Option<SeedCandidate>>) -> Option<Vec3> {
    if exists|k: int| is_best_seed(cs, k) {
        Some(cs[choose|k: int| is_best_seed(cs, k)].unwrap().point)
    } else {
        None
    }
}

proof fn lemma_best_seed_unique(cs: Seq<Option<SeedCandidate>>, a: int, b: int)
    requires
        is_best_seed(cs, a),
        is_best_seed(cs, b),
    ensures
        a == b,
{
    if a < b {
        assert(eligible_seed(cs[a]));
    } else if b < a {
        assert(eligible_seed(cs[b]));
    }
}

/// A seed lies in the volume a thrown ball can be in, on every axis, and is
/// the point of a candidate that two views or more agree on, with at least as
/// many votes as any other such candidate in the volume.
pub proof fn lemma_a_seed_lies_in_the_flight_volume(cs: Seq<Option<SeedCandidate>>)
    ensures
        best_seed(cs) matches Some(p) ==> {
            &&& -SEED_VOLUME_MARGIN <= p.x <= TABLE_WIDTH_X + SEED_VOLUME_MARGIN
            &&& -SEED_VOLUME_MARGIN <= p.y <= TABLE_LENGTH_Y + SEED_VOLUME_MARGIN
            &&& TABLE_SURFACE_Z - SEED_VOLUME_MARGIN <= p.z <= TABLE_SURFACE_Z + SEED_MAX_HEIGHT
        },
        best_seed(cs) matches Some(p) ==> exists|k: int|
            0 <= k < cs.len() && (#[trigger] cs[k]) is Some && cs[k].unwrap().point == p && cs[k].unwrap().votes >= 2
                && forall|j: int|
                0 <= j < cs.len() && (#[trigger] cs[j]) is Some && cs[j].unwrap().votes >= 2 && -SEED_VOLUME_MARGIN
                    <= cs[j].unwrap().point.x <= TABLE_WIDTH_X + SEED_VOLUME_MARGIN && -SEED_VOLUME_MARGIN
                    <= cs[j].unwrap().point.y <= TABLE_LENGTH_Y + SEED_VOLUME_MARGIN && TABLE_SURFACE_Z
                    - SEED_VOLUME_MARGIN <= cs[j].unwrap().point.z <= TABLE_SURFACE_Z + SEED_MAX_HEIGHT
                    ==> cs[j].unwrap().votes <= cs[k].unwrap().votes,
{
    if exists|k: int| is_best_seed(cs, k) {
        let k = choose|k: int| is_best_seed(cs, k);
        assert(eligible_seed(cs[k]));
        assert forall|j: int|
            0 <= j < cs.len() && (#[trigger] cs[j]) is Some && cs[j].unwrap().votes >= 2 && -SEED_VOLUME_MARGIN
                <= cs[j].unwrap().point.x <= TABLE_WIDTH_X + SEED_VOLUME_MARGIN && -SEED_VOLUME_MARGIN
                <= cs[j].unwrap().point.y <= TABLE_LENGTH_Y + SEED_VOLUME_MARGIN && TABLE_SURFACE_Z
                - SEED_VOLUME_MARGIN <= cs[j].unwrap().point.z <= TABLE_SURFACE_Z + SEED_MAX_HEIGHT implies cs[j].unwrap().votes
                <= cs[k].unwrap().votes by {
            assert(eligible_seed(cs[j]));
        }
    }
}

/// The seed among triangulated pairs of views, given in pair order: inside
/// the volume, agreed on by two views or more, then the most votes, then the
/// smallest worst reprojection error, then the first. A late seed beats a bad one.
pub fn seed_state(candidates: &[Option<SeedCandidate>]) -> (r: Option<Vec3>)
    ensures
        r == best_seed(candidates@),
        r is None ==> forall|j: int| 0 <= j < candidates@.len() ==> !eligible_seed(#[trigger] candidates@[j]),
{
    let mut best: Option<usize> = None;
    let mut i: usize = 0;
    while i < candidates.len()
        invariant
            i <= candidates@.len(),
            match best {
                None => forall|j: int| 0 <= j < i ==> !eligible_seed(#[trigger] candidates@[j]),
                Some(b) => {
                    &&& b < i
                    &&& eligible_seed(candidates@[b as int])
                    &&& forall|j: int|
                        0 <= j < i && eligible_seed(#[trigger] candidates@[j]) ==> !better_seed(
                            candidates@[j].unwrap(),
                            candidates@[b as int].unwrap(),
                        )
                    &&& forall|j: int|
                        0 <= j < b && eligible_seed(#[trigger] candidates@[j]) ==> better_seed(
                            candidates@[b as int].unwrap(),
                            candidates@[j].unwrap(),
                        )
                },
            },
        decreases candidates@.len() - i,
    {
        match candidates[i] {
            Some(c) => {
                let p = c.point;
                let outside = p.y < -SEED_VOLUME_MARGIN || p.y > TABLE_LENGTH_Y + SEED_VOLUME_MARGIN
                    || p.x < -SEED_VOLUME_MARGIN || p.x > TABLE_WIDTH_X + SEED_VOLUME_MARGIN || p.z
                    < TABLE_SURFACE_Z - SEED_VOLUME_MARGIN || p.z > TABLE_SURFACE_Z + SEED_MAX_HEIGHT;
                if !outside && c.votes >= 2 {
                    match best {
                        None => {
                            best = Some(i);
                        },
                        Some(b) => {
                            let w = candidates[b].unwrap();
                            if c.votes > w.votes || (c.votes == w.votes && c.worst < w.worst) {
                                best = Some(i);
                            }
                        },
                    }
                }
            },
            None => {},
        }
        i = i + 1;
    }
    match best {
        None => None,
        Some(b) => {
            proof {
                assert(is_best_seed(candidates@, b as int));
                let c = choose|k: int| is_best_seed(candidates@, k);
                lemma_best_seed_unique(candidates@, c, b as int);
            }
            Some(candidates[b].unwrap().point)
        },
    }
}

/// The latest time among the views.
pub open spec fn newest<P, C>(views: Seq<(P, C, u64)>) -> int
    decreases views.len(),
{
    if views.len() == 0 {
        0
    } else {
        let rest = newest(views.drop_last());
        if views.len() == 1 || views.last().2 > rest {
            views.last().2 as int
        } else {
            rest
        }
    }
}

/// The earliest time among the views.
pub open spec fn oldest<P, C>(views: Seq<(P, C, u64)>) -> int
    decreases views.len(),
{
    if views.len() == 0 {
        0
    } else {
        let rest = oldest(views.drop_last());
        if views.len() == 1 || views.last().2 < rest {
            views.last().2 as int
        } else {
            rest
        }
    }
}

proof fn lemma_extremes<P, C>(views: Seq<(P, C, u64)>)
    requires
        views.len() > 0,
    ensures
        forall|i: int| 0 <= i < views.len() ==> oldest(views) <= #[trigger] views[i].2 <= newest(views),
        exists|i: int| 0 <= i < views.len() && views[i].2 == newest(views),
        exists|i: int| 0 <= i < views.len() && views[i].2 == oldest(views),
    decreases views.len(),
{
    if views.len() > 1 {
        let front = views.drop_last();
        lemma_extremes(front);
        assert forall|i: int| 0 <= i < views.len() implies oldest(views) <= #[trigger] views[i].2
            <= newest(views) by {
            if i < views.len() - 1 {
                assert(views[i] == front[i]);
            }
        }
        let j = choose|j: int| 0 <= j < front.len() && front[j].2 == newest(front);
        let k = choose|k: int| 0 <= k < front.len() && front[k].2 == oldest(front);
        assert(views[j] == front[j] && views[k] == front[k]);
        let last = views.len() - 1;
        if views.last().2 > newest(front) {
            assert(views[last].2 == newest(views));
        } else {
            assert(views[j].2 == newest(views));
        }
        if views.last().2 < oldest(front) {
            assert(views[last].2 == oldest(views));
        } else {
            assert(views[k].2 == oldest(views));
        }
    } else {
        assert(views[0].2 == newest(views));
    }
}

fn extremes<P, C>(views: &[(P, C, u64)]) -> (r: (u64, u64))
    requires
        views@.len() > 0,
    ensures
        r.0 == oldest(views@),
        r.1 == newest(views@),
{
    let mut lo = views[0].2;
    let mut hi = views[0].2;
    let mut i: usize = 1;
    while i < views.len()
        invariant
            1 <= i <= views@.len(),
            lo == oldest(views@.take(i as int)),
            hi == newest(views@.take(i as int)),
        decreases views@.len() - i,
    {
        proof {
            assert(views@.take(i + 1).drop_last() =~= views@.take(i as int));
        }
        if views[i].2 > hi {
            hi = views[i].2;
        }
        if views[i].2 < lo {
            lo = views[i].2;
        }
        i = i + 1;
    }
    assert(views@.take(views@.len() as int) =~= views@);
    (lo, hi)
}

/// How far apart the views are in time — the grounds for inflating the seed's covariance.
pub fn skew<P, C>(views: &[(P, C, u64)]) -> (r: u64)
    ensures
        r == (if views@.len() == 0 {
            0
        } else {
            newest(views@) - oldest(views@)
        }),
{
    if views.len() == 0 {
        return 0;
    }
    let (lo, hi) = extremes(views);
    proof {
        lemma_extremes(views@);
    }
    hi - lo
}

/// The seed time: halfway between the two most distant views, which halves the error.
pub fn midpoint<P, C>(views: &[(P, C, u64)]) -> (r: u64)
    ensures
        r == (if views@.len() == 0 {
            0
        } else {
            oldest(views@) + (newest(views@) - oldest(views@)) / 2
        }),
{
    if views.len() == 0 {
        return 0;
    }
    let (lo, hi) = extremes(views);
    proof {
        lemma_extremes(views@);
    }
    lo + (hi - lo) / 2
}

/// Every view lies within the skew of the seed time on either side, and the
/// seed time lies within the views.
pub proof fn lemma_midpoint_within_views<P, C>(views: Seq<(P, C, u64)>)
    requires
        views.len() > 0,
    ensures
        oldest(views) <= oldest(views) + (newest(views) - oldest(views)) / 2 <= newest(views),
        forall|i: int| 0 <= i < views.len() ==> oldest(views) <= #[trigger] views[i].2 <= newest(views),
{
    lemma_extremes(views);
    let i = choose|i: int| 0 <= i < views.len() && views[i].2 == newest(views);
    let k = choose|k: int| 0 <= k < views.len() && views[k].2 == oldest(views);
    assert(oldest(views) <= newest(views));
}

} // verus!
