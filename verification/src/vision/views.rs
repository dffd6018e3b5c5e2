//! Which sightings a starting guess is made from: per camera, the one nearest
//! to an instant, and the first and last one.
use vstd::prelude::*;
use super::fit::Sighting;
use super::raw::gap;

verus! {

/// `|a - b|` in whole microseconds, the grain at which nearness counts.
pub open spec fn gap_us(a: u64, b: u64) -> int {
    gap(a, b) / 1000
}

/// Sighting `j` is of camera `camera`.
pub open spec fn of_camera<P>(s: Seq<Sighting<P>>, j: int, camera: usize) -> bool {
    s[j].camera == camera
}

/// `k` is the first of camera `camera`'s sightings nearest to `at`, to the microsecond.
pub open spec fn is_closest<P>(s: Seq<Sighting<P>>, at: u64, camera: usize, k: int) -> bool {
    &&& 0 <= k < s.len()
    &&& of_camera(s, k, camera)
    &&& forall|j: int|
        0 <= j < s.len() && #[trigger] of_camera(s, j, camera) ==> gap_us(at, s[k].t) <= gap_us(
            at,
            s[j].t,
        )
    &&& forall|j: int|
        0 <= j < k && #[trigger] of_camera(s, j, camera) ==> gap_us(at, s[k].t) < gap_us(at, s[j].t)
}

/// Index of the first sighting of camera `camera`.
pub open spec fn first_of<P>(s: Seq<Sighting<P>>, camera: usize) -> Option<int> {
    if exists|j: int| 0 <= j < s.len() && s[j].camera == camera && forall|i: int|
        0 <= i < j ==> #[trigger] s[i].camera != camera {
        Some(
            choose|j: int|
                0 <= j < s.len() && s[j].camera == camera && forall|i: int|
                    0 <= i < j ==> #[trigger] s[i].camera != camera,
        )
    } else {
        None
    }
}

/// Index of the last sighting of camera `camera`.
pub open spec fn last_of<P>(s: Seq<Sighting<P>>, camera: usize) -> Option<int> {
    if exists|j: int| 0 <= j < s.len() && s[j].camera == camera && forall|i: int|
        j < i < s.len() ==> #[trigger] s[i].camera != camera {
        Some(
            choose|j: int|
                0 <= j < s.len() && s[j].camera == camera && forall|i: int|
                    j < i < s.len() ==> #[trigger] s[i].camera != camera,
        )
    } else {
        None
    }
}

/// `r` holds, per camera seen, the first of its sightings nearest to `at`
/// (to the microsecond),
/// the cameras in the order they were first seen.
pub open spec fn nearest_per_camera_spec<P>(s: Seq<Sighting<P>>, at: u64, r: Seq<usize>) -> bool {
    &&& forall|k: int|
        #![trigger r[k]]
        0 <= k < r.len() ==> is_closest(s, at, s[r[k] as int].camera, r[k] as int)
    &&& forall|k1: int, k2: int|
        #![trigger r[k1], r[k2]]
        0 <= k1 < k2 < r.len() ==> first_of(s, s[r[k1] as int].camera).unwrap() < first_of(
            s,
            s[r[k2] as int].camera,
        ).unwrap()
    &&& forall|i: int| 0 <= i < s.len() ==> seen_in(s, r, #[trigger] s[i].camera)
}

/// Some index of `r` is a sighting of camera `camera`.
pub open spec fn seen_in<P>(s: Seq<Sighting<P>>, r: Seq<usize>, camera: usize) -> bool {
    exists|k: int| #![trigger r[k]] 0 <= k < r.len() && s[r[k] as int].camera == camera
}

proof fn lemma_first_of<P>(s: Seq<Sighting<P>>, camera: usize, j: int)
    requires
        0 <= j < s.len(),
        s[j].camera == camera,
        forall|i: int| 0 <= i < j ==> #[trigger] s[i].camera != camera,
    ensures
        first_of(s, camera) == Some(j),
{
    let c = choose|c: int|
        0 <= c < s.len() && s[c].camera == camera && forall|i: int|
            0 <= i < c ==> #[trigger] s[i].camera != camera;
    if c < j {
        assert(s[c].camera != camera);
    } else if j < c {
        assert(s[j].camera != camera);
    }
}

proof fn lemma_last_of<P>(s: Seq<Sighting<P>>, camera: usize, j: int)
    requires
        0 <= j < s.len(),
        s[j].camera == camera,
        forall|i: int| j < i < s.len() ==> #[trigger] s[i].camera != camera,
    ensures
        last_of(s, camera) == Some(j),
{
    let c = choose|c: int|
        0 <= c < s.len() && s[c].camera == camera && forall|i: int|
            c < i < s.len() ==> #[trigger] s[i].camera != camera;
    if c < j {
        assert(s[j].camera != camera);
    } else if j < c {
        assert(s[c].camera != camera);
    }
}

/// Extends the nearest sighting of a prefix by one more sighting.
proof fn lemma_nearest_extend<P>(s: Seq<Sighting<P>>, i: int, at: u64, camera: usize, b: int)
    requires
        0 <= i < s.len(),
        is_closest(s.take(i), at, camera, b),
    ensures
        s[i].camera != camera ==> is_closest(s.take(i + 1), at, camera, b),
        s[i].camera == camera && gap_us(at, s[i].t) < gap_us(at, s[b].t) ==> is_closest(
            s.take(i + 1),
            at,
            camera,
            i,
        ),
        s[i].camera == camera && gap_us(at, s[i].t) >= gap_us(at, s[b].t) ==> is_closest(
            s.take(i + 1),
            at,
            camera,
            b,
        ),
{
    let p = s.take(i);
    let q = s.take(i + 1);
    assert forall|j: int| 0 <= j < i implies #[trigger] q[j] == p[j] by {}
    assert(q[i] == s[i]);
    assert(p[b] == q[b]);
    if s[i].camera != camera {
        assert forall|j: int| 0 <= j < q.len() && #[trigger] of_camera(q, j, camera) implies gap_us(
            at,
            q[b].t,
        ) <= gap_us(at, q[j].t) by {
            assert(j < i);
            assert(of_camera(p, j, camera));
        }
        assert forall|j: int| 0 <= j < b && #[trigger] of_camera(q, j, camera) implies gap_us(
            at,
            q[b].t,
        ) < gap_us(at, q[j].t) by {
            assert(of_camera(p, j, camera));
        }
    } else if gap_us(at, s[i].t) < gap_us(at, s[b].t) {
        assert forall|j: int| 0 <= j < q.len() && #[trigger] of_camera(q, j, camera) implies gap_us(
            at,
            q[i].t,
        ) <= gap_us(at, q[j].t) by {
            if j < i {
                assert(of_camera(p, j, camera));
            }
        }
        assert forall|j: int| 0 <= j < i && #[trigger] of_camera(q, j, camera) implies gap_us(
            at,
            q[i].t,
        ) < gap_us(at, q[j].t) by {
            assert(of_camera(p, j, camera));
        }
    } else {
        assert forall|j: int| 0 <= j < q.len() && #[trigger] of_camera(q, j, camera) implies gap_us(
            at,
            q[b].t,
        ) <= gap_us(at, q[j].t) by {
            if j < i {
                assert(of_camera(p, j, camera));
            }
        }
        assert forall|j: int| 0 <= j < b && #[trigger] of_camera(q, j, camera) implies gap_us(
            at,
            q[b].t,
        ) < gap_us(at, q[j].t) by {
            assert(of_camera(p, j, camera));
        }
    }
}

/// Per camera seen, the first of its sightings nearest in time to `at` (to
/// the microsecond), the
/// cameras in the order they were first seen.
pub fn nearest_per_camera<P: Copy>(s: &[Sighting<P>], at: u64) -> (r: Vec<usize>)
    ensures
        nearest_per_camera_spec(s@, at, r@),
{
    let n = s.len();
    let mut best: Vec<usize> = Vec::new();
    let mut gaps: Vec<u64> = Vec::new();
    let mut i: usize = 0;
    assert(s@.take(0).len() == 0);
    while i < n
        invariant
            n == s@.len(),
            i <= n,
            best@.len() == gaps@.len(),
            forall|k: int|
                0 <= k < best@.len() ==> #[trigger] best@[k] < i && is_closest(
                    s@.take(i as int),
                    at,
                    s@[best@[k] as int].camera,
                    best@[k] as int,
                ) && gaps@[k] == gap_us(at, s@[best@[k] as int].t),
            forall|k1: int, k2: int|
                0 <= k1 < k2 < best@.len() ==> s@[#[trigger] best@[k1] as int].camera != s@[#[trigger] best@[k2] as int].camera
                    && first_of(s@, s@[best@[k1] as int].camera).unwrap() < first_of(
                    s@,
                    s@[best@[k2] as int].camera,
                ).unwrap(),
            forall|k: int|
                0 <= k < best@.len() ==> ((#[trigger] first_of(s@, s@[best@[k] as int].camera)) matches Some(f)
                    && f < i),
            forall|j: int| 0 <= j < i ==> seen_in(s@, best@, #[trigger] s@[j].camera),
        decreases n - i,
    {
        let x = s[i];
        let g: u64 = if at >= x.t {
            (at - x.t) / 1000
        } else {
            (x.t - at) / 1000
        };
        let mut k: usize = 0;
        let mut slot: Option<usize> = None;
        while k < best.len()
            invariant
                k <= best@.len(),
                best@.len() == gaps@.len(),
                forall|m: int| 0 <= m < best@.len() ==> #[trigger] best@[m] < s@.len(),
                x == s@[i as int],
                i < s@.len(),
                match slot {
                    None => forall|m: int| 0 <= m < k ==> s@[#[trigger] best@[m] as int].camera != x.camera,
                    Some(m) => m < best@.len() && s@[best@[m as int] as int].camera == x.camera,
                },
            decreases best@.len() - k,
        {
            if slot.is_none() && s[best[k]].camera == x.camera {
                slot = Some(k);
            }
            k = k + 1;
        }
        proof {
            assert forall|m: int| 0 <= m < best@.len() implies is_closest(
                s@.take(i + 1),
                at,
                s@[best@[m] as int].camera,
                best@[m] as int,
            ) || s@[#[trigger] best@[m] as int].camera == x.camera by {
                lemma_nearest_extend(s@, i as int, at, s@[best@[m] as int].camera, best@[m] as int);
            }
        }
        let ghost old_best = best@;
        match slot {
            Some(m) => {
                proof {
                    lemma_nearest_extend(s@, i as int, at, x.camera, old_best[m as int] as int);
                    assert forall|a: int, b: int|
                        0 <= a < b < old_best.len() && (a == m || b == m) implies s@[#[trigger] old_best[a] as int].camera
                        != s@[#[trigger] old_best[b] as int].camera by {}
                }
                if g < gaps[m] {
                    best.set(m, i);
                    gaps.set(m, g);
                }
                proof {
                    assert forall|j: int| 0 <= j < i + 1 implies seen_in(
                        s@,
                        best@,
                        #[trigger] s@[j].camera,
                    ) by {
                        if j < i {
                            assert(seen_in(s@, old_best, s@[j].camera));
                            let k = choose|k: int|
                                #![trigger old_best[k]]
                                0 <= k < old_best.len() && s@[old_best[k] as int].camera == s@[j].camera;
                            assert(s@[best@[k] as int].camera == s@[old_best[k] as int].camera);
                        } else {
                            assert(s@[best@[m as int] as int].camera == s@[j].camera);
                        }
                    }
                }
            },
            None => {
                proof {
                    assert forall|j: int| 0 <= j < i implies #[trigger] s@[j].camera != x.camera by {
                        assert(seen_in(s@, old_best, s@[j].camera));
                        let k2 = choose|k2: int|
                            #![trigger old_best[k2]]
                            0 <= k2 < old_best.len() && s@[old_best[k2] as int].camera == s@[j].camera;
                        assert(s@[old_best[k2] as int].camera != x.camera);
                    }
                    lemma_first_of(s@, x.camera, i as int);
                    let q = s@.take(i + 1);
                    assert(is_closest(q, at, x.camera, i as int)) by {
                        assert(q[i as int] == x);
                        assert forall|j: int| 0 <= j < q.len() && #[trigger] of_camera(q, j, x.camera) implies gap_us(at, q[i as int].t) <= gap_us(at, q[j].t) by {
                            if j < i {
                                assert(q[j] == s@[j]);
                            }
                        }
                        assert forall|j: int| 0 <= j < i && #[trigger] of_camera(q, j, x.camera) implies gap_us(at, q[i as int].t) < gap_us(at, q[j].t) by {
                            assert(q[j] == s@[j]);
                        }
                    }
                }
                best.push(i);
                gaps.push(g);
                proof {
                    assert forall|j: int| 0 <= j < i + 1 implies seen_in(
                        s@,
                        best@,
                        #[trigger] s@[j].camera,
                    ) by {
                        if j < i {
                            assert(seen_in(s@, old_best, s@[j].camera));
                            let k = choose|k: int|
                                #![trigger old_best[k]]
                                0 <= k < old_best.len() && s@[old_best[k] as int].camera == s@[j].camera;
                            assert(best@[k] == old_best[k]);
                        } else {
                            assert(best@[old_best.len() as int] == i);
                        }
                    }
                }
            },
        }
        i = i + 1;
    }
    proof {
        assert(s@.take(n as int) =~= s@);
        assert forall|k1: int, k2: int| 0 <= k1 < k2 < best@.len() implies first_of(
            s@,
            s@[#[trigger] best@[k1] as int].camera,
        ).unwrap() < first_of(s@, s@[#[trigger] best@[k2] as int].camera).unwrap() by {}
        assert forall|k: int| 0 <= k < best@.len() implies is_closest(
            s@,
            at,
            s@[best@[k] as int].camera,
            #[trigger] best@[k] as int,
        ) by {
            assert(is_closest(s@.take(n as int), at, s@[best@[k] as int].camera, best@[k] as int));
        }
    }
    best
}

/// The sightings of camera `camera`, first and last, if it has any.
pub open spec fn extent<P>(s: Seq<Sighting<P>>, camera: usize) -> Option<(int, int)> {
    match (first_of(s, camera), last_of(s, camera)) {
        (Some(a), Some(b)) => Some((a, b)),
        _ => None,
    }
}

/// For each of `cameras` cameras, the indices of its first and last sighting.
pub fn camera_extents<P: Copy>(s: &[Sighting<P>], cameras: usize) -> (r: Vec<Option<(usize, usize)>>)
    ensures
        r@.len() == cameras,
        forall|c: int|
            0 <= c < cameras ==> match #[trigger] r@[c] {
                None => extent(s@, c as usize) is None,
                Some((a, b)) => extent(s@, c as usize) == Some((a as int, b as int)),
            },
{
    let mut out: Vec<Option<(usize, usize)>> = Vec::new();
    let mut c: usize = 0;
    while c < cameras
        invariant
            c <= cameras,
            out@.len() == c,
            forall|d: int|
                0 <= d < c ==> match #[trigger] out@[d] {
                    None => extent(s@, d as usize) is None,
                    Some((a, b)) => extent(s@, d as usize) == Some((a as int, b as int)),
                },
        decreases cameras - c,
    {
        let mut seen: Option<(usize, usize)> = None;
        let mut i: usize = 0;
        while i < s.len()
            invariant
                i <= s@.len(),
                match seen {
                    None => forall|j: int| 0 <= j < i ==> #[trigger] s@[j].camera != c,
                    Some((a, b)) => {
                        &&& a <= b < i
                        &&& s@[a as int].camera == c
                        &&& s@[b as int].camera == c
                        &&& forall|j: int| 0 <= j < a ==> #[trigger] s@[j].camera != c
                        &&& forall|j: int| b < j < i ==> #[trigger] s@[j].camera != c
                    },
                },
            decreases s@.len() - i,
        {
            if s[i].camera == c {
                seen = match seen {
                    None => Some((i, i)),
                    Some((a, _)) => Some((a, i)),
                };
            }
            i = i + 1;
        }
        proof {
            match seen {
                None => {
                    assert(!exists|j: int| 0 <= j < s@.len() && s@[j].camera == c && forall|i: int|
                        0 <= i < j ==> #[trigger] s@[i].camera != c);
                },
                Some((a, b)) => {
                    lemma_first_of(s@, c, a as int);
                    lemma_last_of(s@, c, b as int);
                },
            }
        }
        out.push(seen);
        c = c + 1;
    }
    out
}

} // verus!
