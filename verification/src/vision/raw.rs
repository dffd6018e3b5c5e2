//! The raw path of a track — sightings of two cameras paired and triangulated,
//! with no flight model in it — and the bounce found in that path.
//!
//! The path must stay free of the model: the spin solved from the bounce is
//! what the model lacks, so measuring the bounce on the modelled path would
//! only give back the spin that was assumed.
use vstd::prelude::*;
use super::contract::Vec3;
use super::fit::Sighting;

verus! {

/// The cameras are not synchronised: two sightings this close [ns] may be the
/// same instant.
pub const MAX_PAIR_GAP: u64 = 20_000_000;

/// Points on each side of a bounce candidate through which the velocity is fitted.
pub const HALF_WINDOW: usize = 2;

/// Before a bounce the ball comes down faster than this [µm/s].
pub const BOUNCE_IN_Z: i32 = -250_000;

/// After a bounce the ball goes up faster than this [µm/s].
pub const BOUNCE_OUT_Z: i32 = 150_000;

/// One triangulated point of the raw path.
#[derive(Debug, Clone, Copy, PartialEq, Eq, Structural)]
pub struct RawPoint {
    /// Time of the earlier camera's sighting [ns].
    pub t: u64,
    /// [µm]
    pub position: Vec3,
}

/// `|a - b|`.
pub open spec fn gap(a: u64, b: u64) -> int {
    if a >= b {
        a - b
    } else {
        b - a
    }
}

/// Sighting `j` is of camera `camera` when `same`, of any other when not.
pub open spec fn eligible<P>(s: Seq<Sighting<P>>, j: int, camera: usize, same: bool) -> bool {
    (s[j].camera == camera) == same
}

/// `k` is the first of the eligible sightings nearest in time to `t`.
pub open spec fn is_nearest<P>(s: Seq<Sighting<P>>, t: u64, camera: usize, same: bool, k: int) -> bool {
    &&& 0 <= k < s.len()
    &&& eligible(s, k, camera, same)
    &&& forall|j: int|
        0 <= j < s.len() && #[trigger] eligible(s, j, camera, same) ==> gap(t, s[k].t) <= gap(t, s[j].t)
    &&& forall|j: int|
        0 <= j < k && #[trigger] eligible(s, j, camera, same) ==> gap(t, s[k].t) < gap(t, s[j].t)
}

/// The first of the eligible sightings nearest in time to `t`, if any is eligible.
pub open spec fn nearest<P>(s: Seq<Sighting<P>>, t: u64, camera: usize, same: bool) -> Option<usize> {
    if exists|k: usize| #[trigger] is_nearest(s, t, camera, same, k as int) {
        Some(choose|k: usize| #[trigger] is_nearest(s, t, camera, same, k as int))
    } else {
        None
    }
}

/// The partner of sighting `a`: the nearest sighting of another camera, at most
/// [`MAX_PAIR_GAP`] away, whose own nearest sighting of `a`'s camera is as
/// old as `a` — mutual nearest neighbours, so that no sighting is paired with
/// the frame before. Each pair is taken once, from the camera of lower index.
pub open spec fn pair_at<P>(s: Seq<Sighting<P>>, a: int) -> Option<usize> {
    match nearest(s, s[a].t, s[a].camera, false) {
        None => None,
        Some(p) => {
            let mutual = match nearest(s, s[p as int].t, s[a].camera, true) {
                Some(m) => s[m as int].t == s[a].t,
                None => false,
            };
            if gap(s[a].t, s[p as int].t) <= MAX_PAIR_GAP && mutual && s[a].camera <= s[
                p as int
            ].camera {
                Some(p)
            } else {
                None
            }
        },
    }
}

/// The pairs `(anchor, partner)` with the anchor among the first `n` sightings, in order.
pub open spec fn pairs<P>(s: Seq<Sighting<P>>, n: int) -> Seq<(usize, usize)>
    decreases n,
{
    if n <= 0 {
        Seq::empty()
    } else {
        let before = pairs(s, n - 1);
        match pair_at(s, n - 1) {
            Some(p) => before.push(((n - 1) as usize, p)),
            None => before,
        }
    }
}

/// Both velocities were measured, coming down before and going up after.
pub open spec fn passes(w: (Option<Vec3>, Option<Vec3>)) -> bool {
    w.0 matches Some(v_in) && w.1 matches Some(v_out) && v_in.z < BOUNCE_IN_Z && v_out.z
        > BOUNCE_OUT_Z
}

proof fn lemma_nearest_unique<P>(s: Seq<Sighting<P>>, t: u64, camera: usize, same: bool, a: int, b: int)
    requires
        is_nearest(s, t, camera, same, a),
        is_nearest(s, t, camera, same, b),
    ensures
        a == b,
{
    if a < b {
        assert(eligible(s, a, camera, same));
    } else if b < a {
        assert(eligible(s, b, camera, same));
    }
}

/// Pair `pr` has its anchor among the first `n` sightings, joins two cameras,
/// the anchor's of lower index, at most [`MAX_PAIR_GAP`] apart, and is the
/// anchor's partner.
pub open spec fn sound_pair<P>(s: Seq<Sighting<P>>, n: int, pr: (usize, usize)) -> bool {
    let (a, p) = pr;
    &&& a < n && p < s.len()
    &&& s[a as int].camera < s[p as int].camera
    &&& gap(s[a as int].t, s[p as int].t) <= MAX_PAIR_GAP
    &&& pair_at(s, a as int) == Some(p)
}

/// Every pair joins two sightings of different cameras at most
/// [`MAX_PAIR_GAP`] apart, the anchor of lower camera index; every sighting
/// anchors at most one pair, and the pairs come in the order of their anchors.
pub proof fn lemma_pairs_are_sound<P>(s: Seq<Sighting<P>>, n: int)
    requires
        0 <= n <= s.len() <= usize::MAX,
    ensures
        pairs(s, n).len() <= n,
        forall|i: int| 0 <= i < pairs(s, n).len() ==> sound_pair(s, n, #[trigger] pairs(s, n)[i]),
        forall|i: int, j: int|
            0 <= i < j < pairs(s, n).len() ==> #[trigger] pairs(s, n)[i].0 < #[trigger] pairs(
                s,
                n,
            )[j].0,
    decreases n,
{
    if n > 0 {
        lemma_pairs_are_sound(s, n - 1);
        let prev = pairs(s, n - 1);
        let a = n - 1;
        match pair_at(s, a) {
            Some(p) => {
                let c = choose|k: usize| #[trigger] is_nearest(s, s[a].t, s[a].camera, false, k as int);
                assert(c == p);
                assert(is_nearest(s, s[a].t, s[a].camera, false, p as int));
                assert(eligible(s, p as int, s[a].camera, false));
                let cur = prev.push((a as usize, p));
                assert(pairs(s, n) == cur);
                assert forall|i: int| 0 <= i < cur.len() implies sound_pair(s, n, #[trigger] cur[i]) by {
                    if i < prev.len() {
                        assert(cur[i] == prev[i]);
                        assert(sound_pair(s, n - 1, prev[i]));
                    }
                }
                assert forall|i: int, j: int| 0 <= i < j < cur.len() implies #[trigger] cur[i].0
                    < #[trigger] cur[j].0 by {
                    assert(cur[i] == prev[i]);
                    assert(sound_pair(s, n - 1, prev[i]));
                    if j < prev.len() {
                        assert(cur[j] == prev[j]);
                    }
                }
            },
            None => {
                assert(pairs(s, n) == prev);
                assert forall|i: int| 0 <= i < prev.len() implies sound_pair(s, n, #[trigger] prev[i]) by {
                    assert(sound_pair(s, n - 1, prev[i]));
                }
            },
        }
    }
}

/// The first sighting eligible for `camera` and `same` nearest in time to `t`.
fn nearest_index<P: Copy>(s: &[Sighting<P>], t: u64, camera: usize, same: bool) -> (r: Option<usize>)
    ensures
        r == nearest(s@, t, camera, same),
        r matches Some(k) ==> is_nearest(s@, t, camera, same, k as int),
{
    let mut best: Option<usize> = None;
    let mut best_gap: u64 = 0;
    let mut j: usize = 0;
    while j < s.len()
        invariant
            j <= s@.len(),
            match best {
                None => forall|i: int| 0 <= i < j ==> !#[trigger] eligible(s@, i, camera, same),
                Some(b) => {
                    &&& b < j
                    &&& eligible(s@, b as int, camera, same)
                    &&& best_gap == gap(t, s@[b as int].t)
                    &&& forall|i: int|
                        0 <= i < j && #[trigger] eligible(s@, i, camera, same) ==> best_gap <= gap(
                            t,
                            s@[i].t,
                        )
                    &&& forall|i: int|
                        0 <= i < b && #[trigger] eligible(s@, i, camera, same) ==> best_gap < gap(
                            t,
                            s@[i].t,
                        )
                },
            },
        decreases s@.len() - j,
    {
        let x = s[j];
        if (x.camera == camera) == same {
            let g: u64 = if t >= x.t {
                t - x.t
            } else {
                x.t - t
            };
            match best {
                None => {
                    best = Some(j);
                    best_gap = g;
                },
                Some(_) => {
                    if g < best_gap {
                        best = Some(j);
                        best_gap = g;
                    }
                },
            }
        }
        j = j + 1;
    }
    proof {
        match best {
            Some(b) => {
                assert(is_nearest(s@, t, camera, same, b as int));
                let c = choose|k: usize| #[trigger] is_nearest(s@, t, camera, same, k as int);
                lemma_nearest_unique(s@, t, camera, same, c as int, b as int);
            },
            None => {
                assert forall|k: usize| !#[trigger] is_nearest(s@, t, camera, same, k as int) by {
                    if 0 <= k < s@.len() {
                        assert(!eligible(s@, k as int, camera, same));
                    }
                }
            },
        }
    }
    best
}

/// Every mutual-nearest pair of sightings of two cameras, by anchor: see [`pair_at`].
pub fn mutual_pairs<P: Copy>(s: &[Sighting<P>]) -> (r: Vec<(usize, usize)>)
    ensures
        r@ == pairs(s@, s@.len() as int),
{
    let mut out: Vec<(usize, usize)> = Vec::new();
    let mut a: usize = 0;
    while a < s.len()
        invariant
            a <= s@.len(),
            out@ == pairs(s@, a as int),
        decreases s@.len() - a,
    {
        let x = s[a];
        match nearest_index(s, x.t, x.camera, false) {
            Some(p) => {
                let y = s[p];
                let g: u64 = if x.t >= y.t {
                    x.t - y.t
                } else {
                    y.t - x.t
                };
                let mutual = match nearest_index(s, y.t, x.camera, true) {
                    Some(m) => s[m].t == x.t,
                    None => false,
                };
                if g <= MAX_PAIR_GAP && mutual && x.camera <= y.camera {
                    out.push((a, p));
                }
            },
            None => {},
        }
        a = a + 1;
    }
    out
}

/// Index of the first window whose velocities show a bounce: both measured,
/// below [`BOUNCE_IN_Z`] before and above [`BOUNCE_OUT_Z`] after.
pub fn first_bounce(windows: &[(Option<Vec3>, Option<Vec3>)]) -> (r: Option<usize>)
    ensures
        match r {
            Some(k) => k < windows@.len() && passes(windows@[k as int]) && forall|j: int|
                0 <= j < k ==> !passes(#[trigger] windows@[j]),
            None => forall|j: int| 0 <= j < windows@.len() ==> !passes(#[trigger] windows@[j]),
        },
{
    let mut k: usize = 0;
    while k < windows.len()
        invariant
            k <= windows@.len(),
            forall|j: int| 0 <= j < k ==> !passes(#[trigger] windows@[j]),
        decreases windows@.len() - k,
    {
        let (v_in, v_out) = windows[k];
        match (v_in, v_out) {
            (Some(a), Some(b)) => {
                if a.z < BOUNCE_IN_Z && b.z > BOUNCE_OUT_Z {
                    return Some(k);
                }
            },
            _ => {},
        }
        k = k + 1;
    }
    None
}

} // verus!
