//! Trajectory estimation — one ballistic flight fitted to every pixel seen so far.
//!
//! Not a recursive filter: a flight lasts half a second, so every observation
//! can be kept, and one bad frame is outvoted by the rest instead of dragging
//! the state along. This module holds the track's bookkeeping and decisions —
//! which observations stay, when a fit is tried and from what starting guess,
//! when it stands, when a track ends and what is handed on. The floating-point
//! work (camera models, triangulation, each Gauss-Newton step, integration of
//! the flight) is the caller's: a frame is taken in by [`Fit::observe`],
//! which answers with the next piece of numeric work it needs ([`Ask`]); the
//! caller does it and hands the result back through [`Fit::resume`], until
//! the frame is done with its [`Outcome`].
use vstd::prelude::*;

use super::contract::{State, Track, Trajectory, Vec3, time_ordered};
use super::raw::{first_bounce, lemma_pairs_are_sound, mutual_pairs, pairs, passes, RawPoint, HALF_WINDOW};
use super::views::{camera_extents, extent, first_of, is_closest, nearest_per_camera, nearest_per_camera_spec};
use vstd::slice::slice_subrange;
use super::trigger::{Evidence, Trigger};
use crate::camera;

verus! {

/// Keeps a track while the ball is within this margin around the table [µm].
pub const VOLUME_MARGIN: i32 = 1_000_000;

/// Table length along y [µm]; the robot's edge is at `y = 0`.
pub const TABLE_LENGTH_Y: i32 = 2_740_000;

/// Table width along x [µm].
pub const TABLE_WIDTH_X: i32 = 1_525_000;

/// Height of the playing surface above the floor [µm].
pub const TABLE_SURFACE_Z: i32 = 760_000;

/// Gauss-Newton steps from the previous solution: a few suffice.
pub const ITERATIONS: usize = 6;

/// Steps for a first solution, which starts from two rough triangulations.
pub const ITERATIONS_COLD: usize = 20;

/// One camera's view at one instant.
#[derive(Clone, Copy)]
pub struct Sighting<P> {
    /// Index of the camera in the rig's camera list.
    pub camera: usize,
    pub pixel: P,
    /// Nanoseconds since the first frame.
    pub t: u64,
}

/// What one observation did to the fit.
#[derive(Debug, Clone, Copy, PartialEq)]
pub enum Outcome<R> {
    /// This observation made the first trajectory stand.
    Seeded,
    Accepted,
    /// Too far from the fit, taken out of the window; how far [px].
    Rejected { px: R },
    /// Not enough usable observations yet, or an unusable one: nothing done.
    Idle,
}

/// Tuning of the tracker.
#[derive(Debug, Clone, Copy, PartialEq, Eq, Structural)]
pub struct FitLimits {
    /// Only observations this recent stay in the fit [ns].
    pub window: u64,
    /// A silence this long ends the track [ns].
    pub stale_gap: u64,
    /// Fewer observations than this are not fitted.
    pub min_sightings: usize,
    /// Below this motion within one camera it is no shot, not fitted [µpx].
    pub min_pixel_span: u64,
    /// This many outliers in a row end the track.
    pub outlier_limit: u32,
    /// A ball slower than this is at rest [µm/s].
    pub min_speed: u32,
    /// The spin assumed until one is solved from a bounce [µrad/s].
    pub assumed_spin: Vec3,
}

/// The fitted flight at one observation time.
#[derive(Debug, Clone, Copy, PartialEq, Eq, Structural)]
pub struct Kinematics {
    pub position: Vec3,
    pub velocity: Vec3,
    pub sigma_position: Vec3,
    pub sigma_velocity: Vec3,
}

/// The numeric work an observation needs next, or its outcome. The flight
/// physics every piece of it is done with is the caller's.
pub enum Ask<P, S, R> {
    /// The observation is done with.
    Done(Outcome<R>),
    /// For each camera of the rig, how far apart its first and last pixel in
    /// the window are [µpx], where it has sightings: [`Answer::Distances`].
    Distances(Vec<Option<(P, P)>>),
    /// Where the views of sightings of different cameras meet [µm]: [`Answer::Point`].
    Triangulate(Vec<Sighting<P>>),
    /// The flight leaving the position [µm] with the velocity [µm/s] at the
    /// time [ns]: [`Answer::Solution`].
    Ballistic(u64, Vec3, Vec3),
    /// The flight, told from the time on with the spin: [`Answer::Solution`].
    Advance(S, u64, Vec3),
    /// One Gauss-Newton step of the fit to the sightings' pixels with the
    /// spin, and whether it was negligible; `None` when no step can be taken:
    /// [`Answer::Step`].
    Step(S, Vec<Sighting<P>>, Vec3),
    /// Every number of the flight is finite: [`Answer::Finite`].
    Finite(S),
    /// How far the newest sighting is from the flight, when beyond the
    /// outlier limit: [`Answer::Outlier`].
    Outlier(S, Vec<Sighting<P>>, Vec3),
    /// The flight at each sighting's time, in order: [`Answer::Kinematics`].
    Kinematics(S, Vec<Sighting<P>>, Vec3),
    /// Each pair of sightings of different cameras triangulated: [`Answer::Points`].
    PairPoints(Vec<(Sighting<P>, Sighting<P>)>),
    /// The velocity fitted through each of the ranges `[from, to)` of the raw
    /// path [µm/s]: [`Answer::Velocities`].
    Velocities(Vec<RawPoint>, Vec<(usize, usize)>),
    /// The spin after a rolling bounce, in closed form from the velocities
    /// before and after it; `None` when the ball slipped: [`Answer::Spin`].
    Rolling(Vec3, Vec3),
    /// The spin refitted from the sightings after a slipping bounce, the
    /// flight's start held; `None` unless clearly better than no spin:
    /// [`Answer::Spin`].
    Refine(S, Vec<Sighting<P>>),
    /// The flight from the state on with the spin, integrated up to the
    /// robot, the samples after it: [`Answer::Track`].
    Integrate(State, Vec3),
}

/// The result of an [`Ask`].
pub enum Answer<S, R> {
    Distances(Vec<Option<u64>>),
    Point(Option<Vec3>),
    Solution(S),
    Step(Option<(S, bool)>),
    Finite(bool),
    Outlier(Option<R>),
    Kinematics(Option<Vec<Kinematics>>),
    Points(Vec<Option<Vec3>>),
    Velocities(Vec<Option<Vec3>>),
    Spin(Option<Vec3>),
    Track(Track),
}

/// Why a fit is made: for the newest sighting, or again after it was
/// rejected as an outlier this far from the fit.
#[derive(Clone, Copy)]
pub enum Purpose<R> {
    First,
    Again(R),
}

/// Where an observation stands between its pieces of numeric work.
pub enum Phase<S, R> {
    /// No observation in hand.
    Ready,
    /// The pixel span of the window is awaited.
    Span { purpose: Purpose<R> },
    /// The rough triangulation at the window's first time is awaited.
    Early { purpose: Purpose<R> },
    /// The rough triangulation at the window's last time is awaited.
    Late { purpose: Purpose<R>, early: Vec3 },
    /// The flight to start the steps from is awaited.
    Start { purpose: Purpose<R>, iterations: usize },
    /// Step `k` of `iterations` from `start` is awaited.
    Iterate { purpose: Purpose<R>, start: S, k: usize, iterations: usize },
    /// Whether `fitted` is finite is awaited.
    Finite { purpose: Purpose<R>, fitted: S },
    /// The outlier test of the newest sighting is awaited.
    Outlier,
    /// The flight at the sightings' times is awaited.
    Kinematics,
    /// The raw path's points are awaited, for the spin.
    Pairs { states: Vec<State> },
    /// The velocities around the raw path's points are awaited.
    Windows { states: Vec<State> },
    /// The rolling spin is awaited.
    Rolling { states: Vec<State> },
    /// The refitted spin is awaited.
    Refining { states: Vec<State> },
    /// The prediction is awaited.
    Integrating { states: Vec<State>, spin: Option<Vec3>, ready: bool },
}

/// `b - a` per `span` nanoseconds, as a rate per second, rounded toward zero
/// and held within `i32`.
pub open spec fn rate_spec(a: i32, b: i32, span: u64) -> int {
    let d = b - a;
    let q = (if d < 0 {
        -d
    } else {
        d
    }) * 1_000_000_000 / (span as int);
    let m = if q > i32::MAX {
        i32::MAX as int
    } else {
        q
    };
    if d < 0 {
        -m
    } else {
        m
    }
}

fn rate(a: i32, b: i32, span: u64) -> (r: i32)
    requires
        span > 0,
    ensures
        r == rate_spec(a, b, span),
{
    let d: i64 = b as i64 - a as i64;
    let mag: u64 = if d < 0 {
        (-d) as u64
    } else {
        d as u64
    };
    assert(mag * 1_000_000_000 <= 4_294_967_295 * 1_000_000_000) by (nonlinear_arith)
        requires
            mag <= 4_294_967_295,
    ;
    let q: u64 = mag * 1_000_000_000 / span;
    let m: i32 = if q > 2_147_483_647 {
        2_147_483_647
    } else {
        q as i32
    };
    if d < 0 {
        -m
    } else {
        m
    }
}

/// Index of the first camera named `id`.
pub open spec fn index_of(ids: Seq<camera::Id>, id: camera::Id, from: int) -> Option<int>
    decreases ids.len() - from,
{
    if from < 0 || from >= ids.len() {
        None
    } else if ids[from] == id {
        Some(from)
    } else {
        index_of(ids, id, from + 1)
    }
}

/// The index found for `id` names it.
pub proof fn lemma_index_of_names(ids: Seq<camera::Id>, id: camera::Id, from: int)
    ensures
        index_of(ids, id, from) matches Some(i) ==> 0 <= i < ids.len() && ids[i] == id,
    decreases ids.len() - from,
{
    if 0 <= from < ids.len() && ids[from] != id {
        lemma_index_of_names(ids, id, from + 1);
    }
}

/// The sightings recent enough at time `t` to stay in a window of `window`.
pub open spec fn recent<P>(s: Seq<Sighting<P>>, t: u64, window: u64) -> Seq<Sighting<P>>
    decreases s.len(),
{
    if s.len() == 0 {
        s
    } else {
        let kept = recent(s.drop_last(), t, window);
        if since(s.last().t, t) <= window {
            kept.push(s.last())
        } else {
            kept
        }
    }
}

/// `t - earlier`, or zero when `earlier` is later.
pub open spec fn since(earlier: u64, t: u64) -> int {
    if t >= earlier {
        t - earlier
    } else {
        0
    }
}

pub open spec fn sightings_ordered<P>(s: Seq<Sighting<P>>) -> bool {
    forall|i: int, j: int| 0 <= i <= j < s.len() ==> #[trigger] s[i].t <= #[trigger] s[j].t
}

/// Outside the volume around the table in which a ball is still in play.
pub open spec fn outside_volume_spec(p: Vec3) -> bool {
    p.y < -VOLUME_MARGIN || p.y > TABLE_LENGTH_Y + VOLUME_MARGIN || p.x < -VOLUME_MARGIN || p.x
        > TABLE_WIDTH_X + VOLUME_MARGIN
}

/// The track is over: the ball left the volume, moves away from the robot, or
/// has all but stopped.
pub open spec fn finished_spec(measured: Seq<State>, min_speed: u32) -> bool {
    measured.len() > 0 && {
        let s = measured.last();
        let v = s.velocity;
        outside_volume_spec(s.position) || v.y >= 0 || v.x * v.x + v.y * v.y + v.z * v.z
            < min_speed * min_speed
    }
}


/// Every sighting is from the first one's camera (vacuously so when there is none).
pub open spec fn single_camera<P>(s: Seq<Sighting<P>>) -> bool {
    forall|i: int| 0 <= i < s.len() ==> #[trigger] s[i].camera == s[0].camera
}

/// The window of recent sightings is no longer than the sightings, holds
/// only sightings it was given, each within the window of `t`, and keeps time order.
pub proof fn lemma_recent<P>(s: Seq<Sighting<P>>, t: u64, window: u64)
    ensures
        recent(s, t, window).len() <= s.len(),
        forall|i: int|
            0 <= i < recent(s, t, window).len() ==> s.contains(#[trigger] recent(s, t, window)[i])
                && since(recent(s, t, window)[i].t, t) <= window,
        sightings_ordered(s) ==> sightings_ordered(recent(s, t, window)),
    decreases s.len(),
{
    if s.len() > 0 {
        let front = s.drop_last();
        lemma_recent(front, t, window);
        let kept = recent(front, t, window);
        assert forall|i: int| 0 <= i < kept.len() implies s.contains(#[trigger] kept[i]) by {
            let j = choose|j: int| 0 <= j < front.len() && front[j] == kept[i];
            assert(s[j] == kept[i]);
        }
        if sightings_ordered(s) {
            assert(sightings_ordered(front)) by {
                assert forall|i: int, j: int| 0 <= i <= j < front.len() implies #[trigger] front[i].t
                    <= #[trigger] front[j].t by {
                    assert(front[i] == s[i] && front[j] == s[j]);
                }
            }
            assert forall|i: int| 0 <= i < kept.len() implies #[trigger] kept[i].t <= s.last().t by {
                let j = choose|j: int| 0 <= j < s.len() && s[j] == kept[i];
                assert(s[j].t <= s[s.len() - 1].t);
            }
        }
    }
}

proof fn lemma_recent_push<P>(s: Seq<Sighting<P>>, x: Sighting<P>, window: u64)
    ensures
        recent(s.push(x), x.t, window) == recent(s, x.t, window).push(x),
{
    assert(s.push(x).drop_last() =~= s);
}

proof fn lemma_one_camera_one_view<P>(s: Seq<Sighting<P>>, at: u64, r: Seq<usize>)
    requires
        nearest_per_camera_spec(s, at, r),
        single_camera(s),
    ensures
        r.len() <= 1,
{
    if r.len() >= 2 {
        let (a, b) = (r[0], r[1]);
        assert(is_closest(s, at, s[a as int].camera, a as int));
        assert(is_closest(s, at, s[b as int].camera, b as int));
        assert(s[a as int].camera == s[0].camera);
        assert(s[b as int].camera == s[0].camera);
        assert(first_of(s, s[a as int].camera).unwrap() < first_of(s, s[b as int].camera).unwrap());
    }
}

proof fn lemma_extent_in_bounds<P>(s: Seq<Sighting<P>>, camera: usize)
    ensures
        extent(s, camera) matches Some((a, b)) ==> 0 <= a < s.len() && 0 <= b < s.len(),
{
}

/// A track ends exactly when its last measured state shows the ball out of
/// play: outside the volume around the table, moving away from the robot, or
/// all but stopped (slower than `min_speed`), wherever it is and wherever it
/// heads. Without a measured state nothing has ended.
pub proof fn lemma_a_track_ends_when_the_ball_leaves_turns_or_stops(measured: Seq<State>, min_speed: u32)
    ensures
        measured.len() == 0 ==> !finished_spec(measured, min_speed),
        measured.len() > 0 ==> {
            let p = measured.last().position;
            let v = measured.last().velocity;
            let leaves = p.x < -VOLUME_MARGIN || p.x > TABLE_WIDTH_X + VOLUME_MARGIN || p.y < -VOLUME_MARGIN
                || p.y > TABLE_LENGTH_Y + VOLUME_MARGIN;
            let turns = v.y >= 0;
            let stops = v.x * v.x + v.y * v.y + v.z * v.z < min_speed * min_speed;
            finished_spec(measured, min_speed) <==> (leaves || turns || stops)
        },
{
}

/// The fitted flight at the sightings' times: one state per sighting, as far
/// as the kinematics reach, without spin.
pub open spec fn measured_from<P>(s: Seq<Sighting<P>>, k: Seq<Kinematics>) -> Seq<State> {
    Seq::new(
        if s.len() <= k.len() {
            s.len()
        } else {
            k.len()
        },
        |i: int|
            State {
                t: s[i].t,
                position: k[i].position,
                velocity: k[i].velocity,
                sigma_position: k[i].sigma_position,
                sigma_velocity: k[i].sigma_velocity,
                spin: None,
            },
    )
}

/// States taken at ordered sightings are in time order, and carry no spin.
proof fn lemma_measured_from_ordered<P>(s: Seq<Sighting<P>>, k: Seq<Kinematics>)
    requires
        sightings_ordered(s),
    ensures
        time_ordered(measured_from(s, k)),
        forall|i: int|
            0 <= i < measured_from(s, k).len() ==> (#[trigger] measured_from(s, k)[i]).spin is None,
{
    let m = measured_from(s, k);
    assert forall|a: int, b: int| 0 <= a <= b < m.len() implies #[trigger] m[a].t <= #[trigger] m[b].t by {
        assert(s[a].t <= s[b].t);
    }
}

/// The states at the sightings' times with the fitted kinematics.
fn states_at<P: Copy>(sightings: &[Sighting<P>], kinematics: &[Kinematics]) -> (r: Vec<State>)
    ensures
        r@ == measured_from(sightings@, kinematics@),
{
    let mut states: Vec<State> = Vec::new();
    let mut i: usize = 0;
    while i < sightings.len() && i < kinematics.len()
        invariant
            i <= sightings@.len(),
            i <= kinematics@.len(),
            states@ == measured_from(sightings@, kinematics@).take(i as int),
        decreases sightings@.len() - i,
    {
        let k = kinematics[i];
        states.push(
            State {
                t: sightings[i].t,
                position: k.position,
                velocity: k.velocity,
                sigma_position: k.sigma_position,
                sigma_velocity: k.sigma_velocity,
                // Spin is not estimated.
                spin: None,
            },
        );
        i = i + 1;
        assert(states@ =~= measured_from(sightings@, kinematics@).take(i as int));
    }
    assert(states@ =~= measured_from(sightings@, kinematics@));
    states
}

/// Per camera of the rig (`n` of them), its first and last pixel in the
/// window `s`, where it has sightings there.
pub open spec fn span_pairs_spec<P>(s: Seq<Sighting<P>>, n: int) -> Seq<Option<(P, P)>> {
    Seq::new(
        n as nat,
        |c: int|
            match extent(s, c as usize) {
                Some((a, b)) => Some((s[a].pixel, s[b].pixel)),
                None => None,
            },
    )
}

/// The largest of the distances given; zero when there is none.
pub open spec fn largest(d: Seq<Option<u64>>) -> u64
    decreases d.len(),
{
    if d.len() == 0 {
        0
    } else {
        let rest = largest(d.drop_last());
        match d.last() {
            Some(x) => if x > rest {
                x
            } else {
                rest
            },
            None => rest,
        }
    }
}

fn largest_of(d: &[Option<u64>]) -> (r: u64)
    ensures
        r == largest(d@),
{
    let mut best: u64 = 0;
    let mut i: usize = 0;
    while i < d.len()
        invariant
            i <= d@.len(),
            best == largest(d@.take(i as int)),
        decreases d@.len() - i,
    {
        assert(d@.take(i + 1).drop_last() =~= d@.take(i as int));
        match d[i] {
            Some(x) => if x > best {
                best = x;
            },
            None => {},
        }
        i = i + 1;
    }
    assert(d@.take(d@.len() as int) =~= d@);
    best
}

/// The sightings of each pair, anchor first.
pub open spec fn pair_views<P>(s: Seq<Sighting<P>>, pairs: Seq<(usize, usize)>) -> Seq<(Sighting<P>, Sighting<P>)> {
    Seq::new(pairs.len(), |k: int| (s[pairs[k].0 as int], s[pairs[k].1 as int]))
}

/// The raw path: each pair that the triangulations `points` met, at the time
/// of its anchor, in the order of the pairs.
pub open spec fn raw_path<P>(s: Seq<Sighting<P>>, pairs: Seq<(usize, usize)>, points: Seq<Option<Vec3>>) -> Seq<
    RawPoint,
>
    decreases pairs.len(),
{
    if pairs.len() == 0 {
        Seq::empty()
    } else {
        let k = pairs.len() - 1;
        let rest = raw_path(s, pairs.drop_last(), points);
        if k < points.len() && points[k] is Some {
            rest.push(RawPoint { t: s[pairs[k].0 as int].t, position: points[k].unwrap() })
        } else {
            rest
        }
    }
}

/// For each point of a raw path of `n` points with [`HALF_WINDOW`] points on
/// either side, the ranges `[from, to)` of the points before it and after it,
/// in turn.
pub open spec fn window_ranges(n: int) -> Seq<(usize, usize)> {
    Seq::new(
        (if n > 2 * HALF_WINDOW {
            2 * (n - 2 * HALF_WINDOW)
        } else {
            0
        }) as nat,
        |j: int|
            {
                let i = HALF_WINDOW + j / 2;
                if j % 2 == 0 {
                    ((i - HALF_WINDOW) as usize, i as usize)
                } else {
                    ((i + 1) as usize, (i + 1 + HALF_WINDOW) as usize)
                }
            },
    )
}

/// The velocities before and after each point, from the velocities of the
/// ranges of [`window_ranges`].
pub open spec fn around(velocities: Seq<Option<Vec3>>, m: int) -> Seq<(Option<Vec3>, Option<Vec3>)> {
    Seq::new(
        m as nat,
        |i: int|
            (
                if 2 * i < velocities.len() {
                    velocities[2 * i]
                } else {
                    None
                },
                if 2 * i + 1 < velocities.len() {
                    velocities[2 * i + 1]
                } else {
                    None
                },
            ),
    )
}

/// `k` is the first of `windows` that shows a bounce.
pub open spec fn first_pass(windows: Seq<(Option<Vec3>, Option<Vec3>)>, k: int) -> bool {
    0 <= k < windows.len() && passes(windows[k]) && forall|j: int| 0 <= j < k ==> !passes(#[trigger] windows[j])
}

fn raw_from<P: Copy>(s: &[Sighting<P>], pairs: &[(usize, usize)], points: &[Option<Vec3>]) -> (r: Vec<RawPoint>)
    requires
        forall|k: int| 0 <= k < pairs@.len() ==> (#[trigger] pairs@[k]).0 < s@.len(),
    ensures
        r@ == raw_path(s@, pairs@, points@),
        r@.len() <= pairs@.len(),
{
    let mut out: Vec<RawPoint> = Vec::new();
    let mut k: usize = 0;
    while k < pairs.len()
        invariant
            k <= pairs@.len(),
            forall|j: int| 0 <= j < pairs@.len() ==> (#[trigger] pairs@[j]).0 < s@.len(),
            out@ == raw_path(s@, pairs@.take(k as int), points@),
            out@.len() <= k,
        decreases pairs@.len() - k,
    {
        assert(pairs@.take(k + 1).drop_last() =~= pairs@.take(k as int));
        if k < points.len() {
            match points[k] {
                Some(q) => out.push(RawPoint { t: s[pairs[k].0].t, position: q }),
                None => {},
            }
        }
        k = k + 1;
    }
    assert(pairs@.take(pairs@.len() as int) =~= pairs@);
    out
}

fn ranges_for(n: usize) -> (r: Vec<(usize, usize)>)
    ensures
        r@ == window_ranges(n as int),
{
    let mut out: Vec<(usize, usize)> = Vec::new();
    if n <= 2 * HALF_WINDOW {
        assert(out@ =~= window_ranges(n as int));
        return out;
    }
    let mut i: usize = HALF_WINDOW;
    while i < n - HALF_WINDOW
        invariant
            n > 2 * HALF_WINDOW,
            HALF_WINDOW <= i <= n - HALF_WINDOW,
            out@ == window_ranges(n as int).take(2 * (i - HALF_WINDOW)),
        decreases n - i,
    {
        out.push((i - HALF_WINDOW, i));
        out.push((i + 1, i + 1 + HALF_WINDOW));
        proof {
            let j = 2 * (i - HALF_WINDOW);
            assert(j / 2 == i - HALF_WINDOW && j % 2 == 0);
            assert((j + 1) / 2 == i - HALF_WINDOW && (j + 1) % 2 == 1);
        }
        i = i + 1;
        assert(out@ =~= window_ranges(n as int).take(2 * (i - HALF_WINDOW)));
    }
    assert(out@ =~= window_ranges(n as int));
    out
}

fn around_of(velocities: &[Option<Vec3>], m: usize) -> (r: Vec<(Option<Vec3>, Option<Vec3>)>)
    ensures
        r@ == around(velocities@, m as int),
{
    let mut out: Vec<(Option<Vec3>, Option<Vec3>)> = Vec::new();
    let mut i: usize = 0;
    while i < m
        invariant
            i <= m,
            out@ == around(velocities@, m as int).take(i as int),
        decreases m - i,
    {
        let before = if i < velocities.len() / 2 || (i <= (usize::MAX - 1) / 2 && 2 * i < velocities.len()) {
            velocities[2 * i]
        } else {
            None
        };
        let after = if i <= (usize::MAX - 2) / 2 && 2 * i + 1 < velocities.len() {
            velocities[2 * i + 1]
        } else {
            None
        };
        out.push((before, after));
        i = i + 1;
        assert(out@ =~= around(velocities@, m as int).take(i as int));
    }
    assert(out@ =~= around(velocities@, m as int));
    out
}

/// A copy of a sequence of plain values.
pub(crate) fn copied<T: Copy>(v: &Vec<T>) -> (r: Vec<T>)
    ensures
        r@ == v@,
{
    let mut out: Vec<T> = Vec::new();
    let mut i: usize = 0;
    while i < v.len()
        invariant
            i <= v@.len(),
            out@ == v@.take(i as int),
        decreases v@.len() - i,
    {
        out.push(v[i]);
        i = i + 1;
        assert(out@ =~= v@.take(i as int));
    }
    assert(v@.take(v@.len() as int) =~= v@);
    out
}

fn pair_views_of<P: Copy>(s: &[Sighting<P>], pairs: &[(usize, usize)]) -> (r: Vec<(Sighting<P>, Sighting<P>)>)
    requires
        forall|k: int| 0 <= k < pairs@.len() ==> (#[trigger] pairs@[k]).0 < s@.len() && pairs@[k].1 < s@.len(),
    ensures
        r@ == pair_views(s@, pairs@),
{
    let mut out: Vec<(Sighting<P>, Sighting<P>)> = Vec::new();
    let mut k: usize = 0;
    while k < pairs.len()
        invariant
            k <= pairs@.len(),
            forall|j: int| 0 <= j < pairs@.len() ==> (#[trigger] pairs@[j]).0 < s@.len() && pairs@[j].1 < s@.len(),
            out@ == pair_views(s@, pairs@).take(k as int),
        decreases pairs@.len() - k,
    {
        out.push((s[pairs[k].0], s[pairs[k].1]));
        k = k + 1;
        assert(out@ =~= pair_views(s@, pairs@).take(k as int));
    }
    assert(out@ =~= pair_views(s@, pairs@));
    out
}

/// The views of `s` that triangulate near `at`: per camera, its sighting nearest to it.
pub open spec fn near_views<P>(s: Seq<Sighting<P>>, at: u64, views: Seq<Sighting<P>>) -> bool {
    exists|near: Seq<usize>|
        #![trigger nearest_per_camera_spec(s, at, near)]
        nearest_per_camera_spec(s, at, near) && views.len() == near.len() && forall|k: int|
            0 <= k < near.len() ==> #[trigger] views[k] == s[near[k] as int]
}

/// States as measured: in time order, without spin.
pub open spec fn measured_like(states: Seq<State>) -> bool {
    &&& time_ordered(states)
    &&& forall|i: int| 0 <= i < states.len() ==> (#[trigger] states[i]).spin is None
}

/// One call on a fit, with what it asked: `observe` with its frame, `resume`
/// with its answer, or `drop_track`.
pub enum Call<P, S, R> {
    Observe(camera::Id, Option<P>, u64, Ask<P, S, R>),
    Resume(Answer<S, R>, Ask<P, S, R>),
    Drop,
}

/// The estimate of one ball.
pub struct Fit<P, S, R, T: Trigger> {
    limits: FitLimits,
    cameras: Vec<camera::Id>,
    trigger: T,
    /// Everything seen of the current ball: the input of the fit.
    sightings: Vec<Sighting<P>>,
    solution: Option<S>,
    /// The fitted trajectory sampled at every observation time.
    measured: Track,
    /// Integrated again after every observation once the trigger fired.
    predicted: Track,
    /// The trigger is a latch: once fired it holds until the track ends.
    predicting: bool,
    outliers: u32,
    seq: u64,
    /// The spin solved from this track's bounce, once.
    solved_spin: Option<Vec3>,
    /// Where the observation in hand stands.
    phase: Phase<S, R>,
    /// A fit stood before the observation in hand.
    had: bool,
}

impl<P: Copy, S: Copy, R: Copy, T: Trigger> Fit<P, S, R, T> {
    pub closed spec fn sighting_seq(&self) -> Seq<Sighting<P>> {
        self.sightings@
    }

    pub closed spec fn solution_spec(&self) -> Option<S> {
        self.solution
    }

    pub closed spec fn measured_seq(&self) -> Seq<State> {
        self.measured@
    }

    pub closed spec fn predicted_seq(&self) -> Seq<State> {
        self.predicted@
    }

    pub closed spec fn is_predicting(&self) -> bool {
        self.predicting
    }

    pub closed spec fn outlier_count(&self) -> u32 {
        self.outliers
    }

    pub closed spec fn track_seq(&self) -> u64 {
        self.seq
    }

    pub closed spec fn solved_spin_spec(&self) -> Option<Vec3> {
        self.solved_spin
    }

    pub closed spec fn limits_spec(&self) -> FitLimits {
        self.limits
    }

    pub closed spec fn camera_seq(&self) -> Seq<camera::Id> {
        self.cameras@
    }

    pub closed spec fn trigger_spec(&self) -> T {
        self.trigger
    }

    pub closed spec fn phase_spec(&self) -> Phase<S, R> {
        self.phase
    }

    pub closed spec fn had_spec(&self) -> bool {
        self.had
    }

    /// What always holds of a fit: sightings in time order and all within the
    /// window of the newest; measured states in time order, without spin;
    /// a prediction only while predicting, starting at the last measured
    /// state; fewer consecutive outliers than the limit.
    pub open spec fn wf(&self) -> bool {
        &&& sightings_ordered(self.sighting_seq())
        &&& (self.sighting_seq().len() > 0 ==> forall|i: int|
            0 <= i < self.sighting_seq().len() ==> self.sighting_seq().last().t
                - #[trigger] self.sighting_seq()[i].t <= self.limits_spec().window)
        &&& time_ordered(self.measured_seq())
        &&& forall|i: int| 0 <= i < self.measured_seq().len() ==> (#[trigger] self.measured_seq()[i]).spin is None
        &&& (self.predicted_seq().len() > 0 ==> self.is_predicting() && self.measured_seq().len() > 0
            && self.predicted_seq()[0] == self.measured_seq().last())
        &&& (self.outlier_count() == 0 || self.outlier_count() < self.limits_spec().outlier_limit)
    }

    /// Nothing of a ball is held: the state after a track ends.
    pub open spec fn is_clear(&self) -> bool {
        &&& self.sighting_seq().len() == 0
        &&& self.solution_spec() is None
        &&& self.measured_seq().len() == 0
        &&& self.predicted_seq().len() == 0
        &&& !self.is_predicting()
        &&& self.outlier_count() == 0
        &&& self.solved_spin_spec() is None
    }

    /// `self` has the same configuration as `before`.
    pub open spec fn same_setup(&self, before: &Self) -> bool {
        &&& self.limits_spec() == before.limits_spec()
        &&& self.camera_seq() == before.camera_seq()
        &&& self.trigger_spec() == before.trigger_spec()
    }

    /// `self` is `before` with the track cleared and the sequence number advanced by `step`.
    pub open spec fn cleared_from(&self, before: &Self, step: int) -> bool {
        &&& self.is_clear()
        &&& self.track_seq() == before.track_seq() + step
        &&& self.same_setup(before)
    }

    /// A fresh fit for the rig's cameras, in the order that
    /// [`Sighting::camera`] indexes, with the tracker's tuning.
    pub fn new(cameras: Vec<camera::Id>, limits: FitLimits, trigger: T) -> (r: Self)
        ensures
            r.wf(),
            r.is_clear(),
            r.track_seq() == 0,
            r.trigger_spec() == trigger,
            r.camera_seq() == cameras@,
            r.limits_spec() == limits,
            r.phase_spec() is Ready,
    {
        Fit {
            limits,
            cameras,
            trigger,
            sightings: Vec::new(),
            solution: None,
            measured: Track(Vec::new()),
            predicted: Track(Vec::new()),
            predicting: false,
            outliers: 0,
            seq: 0,
            solved_spin: None,
            phase: Phase::Ready,
            had: false,
        }
    }

    /// `false` while no trajectory stands.
    pub fn has_track(&self) -> (r: bool)
        ensures
            r == self.solution_spec() is Some,
    {
        self.solution.is_some()
    }

    /// The spin solved from this track's bounce, if any — for diagnostics.
    pub fn solved_spin(&self) -> (r: Option<Vec3>)
        ensures
            r == self.solved_spin_spec(),
    {
        self.solved_spin
    }

    /// The spin this track flies with: the solved one, else the assumed one.
    fn assumed_spin(&self) -> (r: Vec3)
        ensures
            r == (match self.solved_spin_spec() {
                Some(s) => s,
                None => self.limits_spec().assumed_spin,
            }),
    {
        match self.solved_spin {
            Some(s) => s,
            None => self.limits.assumed_spin,
        }
    }

    /// The number of the current ball; it grows by one every time a track ends.
    pub fn seq(&self) -> (r: u64)
        ensures
            r == self.track_seq(),
    {
        self.seq
    }

    /// Observations that the fit is using now. For diagnostics.
    pub fn sightings(&self) -> (r: usize)
        ensures
            r == self.sighting_seq().len(),
    {
        self.sightings.len()
    }

    /// The trajectory so far; available before the trigger too.
    pub fn measured(&self) -> (r: &Track)
        requires
            self.wf(),
        ensures
            r@ == self.measured_seq(),
            time_ordered(r@),
            forall|i: int| 0 <= i < r@.len() ==> (#[trigger] r@[i]).spin is None,
    {
        &self.measured
    }

    /// The trajectory handed on, once the trigger fired and a prediction exists.
    ///
    /// `origin` comes from outside: the estimator only knows times since the first frame.
    pub fn trajectory(&self, origin: std::time::Instant) -> (r: Option<Trajectory>)
        requires
            self.wf(),
        ensures
            match r {
                None => !self.is_predicting() || self.predicted_seq().len() == 0,
                Some(tr) => {
                    &&& self.is_predicting()
                    &&& self.predicted_seq().len() > 0
                    &&& tr.predicted@[0] == tr.measured@.last()
                    &&& tr.seq == self.track_seq()
                    &&& tr.origin == origin
                    &&& tr.measured@ == self.measured_seq()
                    &&& tr.predicted@ == self.predicted_seq()
                },
            },
    {
        if !self.predicting || self.predicted.0.len() == 0 {
            return None;
        }
        Some(
            Trajectory {
                seq: self.seq,
                origin,
                measured: copy_track(&self.measured),
                predicted: copy_track(&self.predicted),
            },
        )
    }


    /// A track stood: a fit was made (it may have diverged since), states were
    /// measured from it, or the trigger fired.
    pub open spec fn stood(&self) -> bool {
        self.solution_spec() is Some || self.measured_seq().len() > 0 || self.is_predicting()
    }

    /// The sightings' last time is after `t`: a frame out of order.
    pub open spec fn out_of_order(&self, t: u64) -> bool {
        self.sighting_seq().len() > 0 && t < self.sighting_seq().last().t
    }

    /// No sighting for a silence of at least the stale gap before `t`.
    pub open spec fn stale_at(&self, t: u64) -> bool {
        self.sighting_seq().len() > 0 && t >= self.sighting_seq().last().t && t
            - self.sighting_seq().last().t >= self.limits_spec().stale_gap
    }

    /// Position of camera `camera_id` in the rig.
    fn camera_index(&self, camera_id: camera::Id) -> (r: Option<usize>)
        ensures
            match r {
                Some(i) => index_of(self.camera_seq(), camera_id, 0) == Some(i as int),
                None => index_of(self.camera_seq(), camera_id, 0) is None,
            },
    {
        let mut i: usize = 0;
        while i < self.cameras.len()
            invariant
                i <= self.cameras@.len(),
                index_of(self.cameras@, camera_id, 0) == index_of(self.cameras@, camera_id, i as int),
            decreases self.cameras@.len() - i,
        {
            if self.cameras[i] == camera_id {
                return Some(i);
            }
            i = i + 1;
        }
        None
    }

    /// Keeps only the sightings recent enough at `t`.
    fn keep_recent(&mut self, t: u64)
        ensures
            final(self).sightings@ == recent(old(self).sightings@, t, old(self).limits.window),
            final(self).solution == old(self).solution,
            final(self).measured == old(self).measured,
            final(self).predicted == old(self).predicted,
            final(self).predicting == old(self).predicting,
            final(self).outliers == old(self).outliers,
            final(self).seq == old(self).seq,
            final(self).solved_spin == old(self).solved_spin,
            final(self).same_setup(old(self)),
            final(self).phase == old(self).phase,
            final(self).had == old(self).had,
    {
        let window = self.limits.window;
        let mut kept: Vec<Sighting<P>> = Vec::new();
        let mut i: usize = 0;
        assert(self.sightings@.take(0) =~= Seq::<Sighting<P>>::empty());
        while i < self.sightings.len()
            invariant
                i <= self.sightings@.len(),
                window == self.limits.window,
                kept@ == recent(self.sightings@.take(i as int), t, window),
            decreases self.sightings@.len() - i,
        {
            let s = self.sightings[i];
            proof {
                assert(self.sightings@.take(i + 1).drop_last() =~= self.sightings@.take(i as int));
            }
            let age: u64 = if t >= s.t {
                t - s.t
            } else {
                0
            };
            if age <= window {
                kept.push(s);
            }
            i = i + 1;
        }
        assert(self.sightings@.take(self.sightings@.len() as int) =~= self.sightings@);
        self.sightings = kept;
    }

    /// The outcome of a fit for `purpose` that could not be made: nothing for
    /// a new sighting; the rejection that asked for it again.
    pub open spec fn given_up(purpose: Purpose<R>) -> Outcome<R> {
        match purpose {
            Purpose::First => Outcome::Idle,
            Purpose::Again(px) => Outcome::Rejected { px },
        }
    }

    fn views_near(&self, at: u64) -> (r: Vec<Sighting<P>>)
        ensures
            near_views(self.sightings@, at, r@),
            single_camera(self.sightings@) ==> r@.len() < 2,
    {
        let near = nearest_per_camera(self.sightings.as_slice(), at);
        proof {
            if single_camera(self.sightings@) {
                lemma_one_camera_one_view(self.sightings@, at, near@);
            }
        }
        let mut views: Vec<Sighting<P>> = Vec::new();
        let mut k: usize = 0;
        while k < near.len()
            invariant
                k <= near@.len(),
                nearest_per_camera_spec(self.sightings@, at, near@),
                views@.len() == k,
                forall|j: int| 0 <= j < k ==> #[trigger] views@[j] == self.sightings@[near@[j] as int],
            decreases near@.len() - k,
        {
            assert(is_closest(self.sightings@, at, self.sightings@[near@[k as int] as int].camera, near@[k as int] as int));
            views.push(self.sightings[near[k]]);
            k = k + 1;
        }
        assert(near_views(self.sightings@, at, views@));
        views
    }

    /// Per camera of the rig, its first and last pixel in the window, where it has sightings.
    fn span_pairs(&self) -> (r: Vec<Option<(P, P)>>)
        ensures
            r@ == span_pairs_spec(self.sightings@, self.cameras@.len() as int),
    {
        let n = self.cameras.len();
        let extents = camera_extents(self.sightings.as_slice(), n);
        let mut out: Vec<Option<(P, P)>> = Vec::new();
        let mut c: usize = 0;
        while c < n
            invariant
                n == extents@.len(),
                n == self.cameras@.len(),
                c <= n,
                forall|d: int|
                    0 <= d < n ==> match #[trigger] extents@[d] {
                        None => extent(self.sightings@, d as usize) is None,
                        Some((a, b)) => extent(self.sightings@, d as usize) == Some((a as int, b as int)),
                    },
                out@.len() == c,
                forall|d: int| 0 <= d < c ==> #[trigger] out@[d] == span_pairs_spec(self.sightings@, n as int)[d],
            decreases n - c,
        {
            match extents[c] {
                Some((a, b)) => {
                    proof {
                        lemma_extent_in_bounds(self.sightings@, c as usize);
                    }
                    out.push(Some((self.sightings[a].pixel, self.sightings[b].pixel)));
                },
                None => out.push(None),
            }
            c = c + 1;
        }
        assert(out@ =~= span_pairs_spec(self.sightings@, n as int));
        out
    }

    /// Is the track over?
    fn finished(&self) -> (r: bool)
        ensures
            r == finished_spec(self.measured@, self.limits.min_speed),
    {
        let n = self.measured.0.len();
        if n == 0 {
            return false;
        }
        let s = self.measured.0[n - 1];
        let p = s.position;
        let v = s.velocity;
        let outside = p.y < -VOLUME_MARGIN || p.y > TABLE_LENGTH_Y + VOLUME_MARGIN || p.x
            < -VOLUME_MARGIN || p.x > TABLE_WIDTH_X + VOLUME_MARGIN;
        let (vx, vy, vz) = (v.x as i128, v.y as i128, v.z as i128);
        let min = self.limits.min_speed as i128;
        assert(vx * vx <= 0x4000_0000_0000_0000) by (nonlinear_arith)
            requires
                -0x8000_0000 <= vx <= 0x8000_0000,
        ;
        assert(vy * vy <= 0x4000_0000_0000_0000) by (nonlinear_arith)
            requires
                -0x8000_0000 <= vy <= 0x8000_0000,
        ;
        assert(vz * vz <= 0x4000_0000_0000_0000) by (nonlinear_arith)
            requires
                -0x8000_0000 <= vz <= 0x8000_0000,
        ;
        assert(min * min <= 0x1_0000_0000_0000_0000) by (nonlinear_arith)
            requires
                0 <= min <= 0x1_0000_0000,
        ;
        assert(0 <= vx * vx && 0 <= vy * vy && 0 <= vz * vz) by (nonlinear_arith);
        let slow = vx * vx + vy * vy + vz * vz < min * min;
        outside || v.y >= 0 || slow
    }

    /// Takes in what the numerics made of the standing solution: `states`, the
    /// fitted flight at the sightings' times; `spin`, the spin solved from a
    /// bounce this time (kept only where none was solved before); `ready`, the
    /// trigger's answer; `ahead`, the flight integrated on from the last state.
    /// The trigger latches; while it holds, the prediction is the last measured
    /// state followed by `ahead`.
    fn rebuild(&mut self, states: Vec<State>, spin: Option<Vec3>, ready: bool, ahead: &Track)
        requires
            old(self).wf(),
            time_ordered(states@),
            forall|i: int| 0 <= i < states@.len() ==> (#[trigger] states@[i]).spin is None,
        ensures
            final(self).wf(),
            final(self).measured@ == states@,
            final(self).solved_spin == (match old(self).solved_spin {
                Some(s) => Some(s),
                None => spin,
            }),
            final(self).predicting == (old(self).predicting || ready),
            final(self).predicted@ == (if old(self).predicting || ready {
                if states@.len() > 0 {
                    seq![states@.last()] + ahead@
                } else {
                    Seq::<State>::empty()
                }
            } else {
                old(self).predicted@
            }),
            final(self).sightings == old(self).sightings,
            final(self).solution == old(self).solution,
            final(self).outliers == old(self).outliers,
            final(self).seq == old(self).seq,
            final(self).same_setup(old(self)),
            final(self).phase == old(self).phase,
            final(self).had == old(self).had,
            final(self).rebuilt(old(self), states@, spin, ready, ahead@),
    {
        self.measured = Track(states);
        if self.solved_spin.is_none() {
            self.solved_spin = spin;
        }
        self.predicting = self.predicting || ready;
        if self.predicting {
            let n = self.measured.0.len();
            if n > 0 {
                self.predicted = starting_at(self.measured.0[n - 1], ahead);
            } else {
                self.predicted = Track(Vec::new());
            }
        }
    }

    /// Takes the newest sighting out of the window as an outlier. Returns
    /// whether that made [`FitLimits::outlier_limit`] outliers in a row, which
    /// ends the track.
    fn reject(&mut self) -> (ended: bool)
        requires
            old(self).wf(),
            old(self).sightings@.len() > 0,
            old(self).seq < u64::MAX,
        ensures
            final(self).wf(),
            final(self).same_setup(old(self)),
            ended == (old(self).outliers + 1 >= old(self).limits.outlier_limit),
            ended ==> final(self).cleared_from(old(self), 1) && final(self).phase is Ready,
            !ended ==> final(self).rejected_from(old(self)) && final(self).phase == old(self).phase,
            !ended ==> {
                &&& final(self).sightings@ == old(self).sightings@.drop_last()
                &&& final(self).outliers == old(self).outliers + 1
                &&& final(self).solution == old(self).solution
                &&& final(self).measured == old(self).measured
                &&& final(self).predicted == old(self).predicted
                &&& final(self).predicting == old(self).predicting
                &&& final(self).seq == old(self).seq
                &&& final(self).solved_spin == old(self).solved_spin
            },
    {
        self.sightings.pop();
        proof {
            let sg = self.sightings@;
            if sg.len() > 0 {
                assert forall|i: int| 0 <= i < sg.len() implies sg.last().t - #[trigger] sg[i].t
                    <= self.limits.window by {
                    assert(sg[i].t <= sg[sg.len() - 1].t);
                }
            }
        }
        if self.outliers >= self.limits.outlier_limit || self.limits.outlier_limit - self.outliers <= 1 {
            self.drop_track();
            return true;
        }
        self.outliers = self.outliers + 1;
        false
    }

    /// The outcome of a fit that stood and took the newest sighting: a track
    /// that is over ends here — a standing one (`had`) advancing the sequence
    /// number, a fit that never stood given up — and the observation counts
    /// for nothing; otherwise it seeded the track, or was accepted into it.
    fn conclude(&mut self, had: bool) -> (r: Outcome<R>)
        requires
            old(self).wf(),
            old(self).seq < u64::MAX,
            had == old(self).had,
        ensures
            final(self).wf(),
            final(self).concluded(old(self), Ask::Done(r)),
            old(self).phase is Ready ==> final(self).phase is Ready,
            finished_spec(old(self).measured@, old(self).limits.min_speed) ==> r is Idle
                && final(self).cleared_from(
                old(self),
                if had {
                    1int
                } else {
                    0int
                },
            ),
            !finished_spec(old(self).measured@, old(self).limits.min_speed) ==> *final(self)
                == *old(self) && (if had {
                r is Accepted
            } else {
                r is Seeded
            }),
    {
        if self.finished() {
            // A track that stood and ended differs from a fit that never was a shot:
            // only the former advances `seq`, by which consumers tell balls apart.
            if had {
                self.drop_track();
            } else {
                self.abandon();
            }
            return Outcome::Idle;
        }
        if had {
            Outcome::Accepted
        } else {
            Outcome::Seeded
        }
    }

    /// The spin the track flies with: the solved one, else the assumed one.
    pub open spec fn spin_spec(&self) -> Vec3 {
        match self.solved_spin_spec() {
            Some(s) => s,
            None => self.limits_spec().assumed_spin,
        }
    }

    /// `self` holds all that `before` held but the observation's phase.
    pub open spec fn holds_as(&self, before: &Self) -> bool {
        &&& self.solution_spec() == before.solution_spec()
        &&& self.holds_but_solution(before)
    }

    /// `self` holds all that `before` held but the phase and the solution.
    pub open spec fn holds_but_solution(&self, before: &Self) -> bool {
        &&& self.sighting_seq() == before.sighting_seq()
        &&& self.measured_seq() == before.measured_seq()
        &&& self.predicted_seq() == before.predicted_seq()
        &&& self.is_predicting() == before.is_predicting()
        &&& self.outlier_count() == before.outlier_count()
        &&& self.track_seq() == before.track_seq()
        &&& self.solved_spin_spec() == before.solved_spin_spec()
        &&& self.had_spec() == before.had_spec()
        &&& self.same_setup(before)
    }

    /// `answer` is the kind that the phase waits for.
    pub open spec fn fits(&self, answer: Answer<S, R>) -> bool {
        match self.phase_spec() {
            Phase::Ready => false,
            Phase::Span { .. } => answer is Distances,
            Phase::Early { .. } => answer is Point,
            Phase::Late { .. } => answer is Point,
            Phase::Start { .. } => answer is Solution,
            Phase::Iterate { .. } => answer is Step,
            Phase::Finite { .. } => answer is Finite,
            Phase::Outlier => answer is Outlier,
            Phase::Kinematics => answer is Kinematics,
            Phase::Pairs { .. } => answer is Points,
            Phase::Windows { .. } => answer is Velocities,
            Phase::Rolling { .. } => answer is Spin,
            Phase::Refining { .. } => answer is Spin,
            Phase::Integrating { .. } => answer is Track,
        }
    }

    /// What the phase needs of the rest.
    pub open spec fn phase_ok(&self) -> bool {
        match self.phase_spec() {
            Phase::Ready => true,
            Phase::Outlier => self.solution_spec() is Some && self.sighting_seq().len() > 0,
            Phase::Kinematics => self.solution_spec() is Some,
            Phase::Pairs { states } => self.solution_spec() is Some && measured_like(states@),
            Phase::Windows { states } => self.solution_spec() is Some && measured_like(states@),
            Phase::Rolling { states } => self.solution_spec() is Some && measured_like(states@),
            Phase::Refining { states } => self.solution_spec() is Some && measured_like(states@),
            Phase::Integrating { states, spin, ready } => {
                &&& measured_like(states@)
                &&& states@.len() > 0
                &&& self.is_predicting() || ready
            },
            Phase::Start { iterations, .. } => self.sighting_seq().len() > 0 && iterations > 0,
            Phase::Iterate { k, iterations, .. } => self.sighting_seq().len() > 0 && k < iterations,
            _ => self.sighting_seq().len() > 0,
        }
    }

    /// The fit for `purpose` begun on the window of `before`: a window of
    /// fewer than [`FitLimits::min_sightings`], or of one camera only, is not
    /// fitted; otherwise the pixel span of each camera is asked first.
    pub open spec fn fit_begun(&self, before: &Self, purpose: Purpose<R>, a: Ask<P, S, R>) -> bool {
        let w = before.sighting_seq();
        if w.len() == 0 || w.len() < before.limits_spec().min_sightings || single_camera(w) {
            a == Ask::<P, S, R>::Done(Self::given_up(purpose)) && self.holds_as(before) && self.phase_spec() is Ready
        } else {
            &&& a matches Ask::Distances(d) && d@ == span_pairs_spec(w, before.camera_seq().len() as int)
            &&& self.holds_as(before)
            &&& self.phase_spec() == Phase::<S, R>::Span { purpose }
        }
    }

    /// `self` is `before` after `states`, `spin`, `ready` and `ahead` were taken
    /// in: see [`Self::rebuild`].
    pub open spec fn rebuilt(
        &self,
        before: &Self,
        states: Seq<State>,
        spin: Option<Vec3>,
        ready: bool,
        ahead: Seq<State>,
    ) -> bool {
        &&& self.measured_seq() == states
        &&& self.solved_spin_spec() == (match before.solved_spin_spec() {
            Some(s) => Some(s),
            None => spin,
        })
        &&& self.is_predicting() == (before.is_predicting() || ready)
        &&& self.predicted_seq() == (if before.is_predicting() || ready {
            if states.len() > 0 {
                seq![states.last()] + ahead
            } else {
                Seq::<State>::empty()
            }
        } else {
            before.predicted_seq()
        })
        &&& self.sighting_seq() == before.sighting_seq()
        &&& self.solution_spec() == before.solution_spec()
        &&& self.outlier_count() == before.outlier_count()
        &&& self.track_seq() == before.track_seq()
        &&& self.had_spec() == before.had_spec()
        &&& self.same_setup(before)
    }

    /// `self` is `before` after a fit that stood took the newest sighting:
    /// see [`Self::conclude`].
    pub open spec fn concluded(&self, before: &Self, a: Ask<P, S, R>) -> bool {
        let had = before.had_spec();
        &&& finished_spec(before.measured_seq(), before.limits_spec().min_speed) ==> a == Ask::<P, S, R>::Done(
            Outcome::Idle,
        ) && self.cleared_from(
            before,
            if had {
                1int
            } else {
                0int
            },
        )
        &&& !finished_spec(before.measured_seq(), before.limits_spec().min_speed) ==> self.holds_as(before)
            && a == Ask::<P, S, R>::Done(
            if had {
                Outcome::Accepted
            } else {
                Outcome::Seeded
            },
        )
    }

    /// After the measured states were made: the trigger's answer is taken;
    /// while the trigger holds, the prediction from the last state is asked
    /// for; otherwise the states are taken in and the observation concluded.
    pub open spec fn triggered(&self, before: &Self, states: Seq<State>, spin: Option<Vec3>, a: Ask<P, S, R>) -> bool {
        let spin_now = match before.solved_spin_spec() {
            Some(s) => s,
            None => match spin {
                Some(s) => s,
                None => before.limits_spec().assumed_spin,
            },
        };
        ||| (a matches Ask::Integrate(from, sp) && states.len() > 0 && from == states.last() && sp == spin_now
            && self.holds_as(before) && (self.phase_spec() matches Phase::Integrating { states: st, spin: s2, ready }
            && st@ == states && s2 == spin && (before.is_predicting() || ready)))
        ||| (a is Done && self.phase_spec() is Ready && exists|ready: bool, mid: Self|
            !((before.is_predicting() || ready) && states.len() > 0) && mid.rebuilt(
                before,
                states,
                spin,
                ready,
                Seq::empty(),
            ) && self.concluded(&mid, a))
    }

    /// After the measured states were made: where no spin is solved yet and
    /// the mutual-nearest pairs of the window are more than the windows
    /// around a bounce need, their triangulations are asked for; otherwise
    /// the trigger follows ([`Self::triggered`]).
    pub open spec fn measured_then(&self, before: &Self, states: Seq<State>, a: Ask<P, S, R>) -> bool {
        let joined = pairs(before.sighting_seq(), before.sighting_seq().len() as int);
        if before.solved_spin_spec() is None && joined.len() > 2 * HALF_WINDOW {
            &&& a matches Ask::PairPoints(v) && v@ == pair_views(before.sighting_seq(), joined)
            &&& self.holds_as(before)
            &&& self.phase_spec() matches Phase::Pairs { states: st } && st@ == states
        } else {
            self.triggered(before, states, None, a)
        }
    }

    /// What follows the measured states does not depend on the phase the fit was in.
    proof fn lemma_triggered_any_phase(x: Self, y: Self, s: Self, states: Seq<State>, spin: Option<Vec3>, a: Ask<P, S, R>)
        requires
            y.holds_as(&x),
            s.triggered(&x, states, spin, a),
        ensures
            s.triggered(&y, states, spin, a),
    {
        if a is Done {
            let (ready, mid) = choose|ready: bool, mid: Self|
                !((x.is_predicting() || ready) && states.len() > 0) && mid.rebuilt(&x, states, spin, ready, Seq::empty())
                    && s.concluded(&mid, a);
            assert(mid.rebuilt(&y, states, spin, ready, Seq::empty()));
        }
    }

    /// What follows the measured states does not depend on the phase the fit was in.
    proof fn lemma_measured_then_any_phase(x: Self, y: Self, s: Self, states: Seq<State>, a: Ask<P, S, R>)
        requires
            y.holds_as(&x),
            s.measured_then(&x, states, a),
        ensures
            s.measured_then(&y, states, a),
    {
        if !(x.solved_spin_spec() is None && pairs(x.sighting_seq(), x.sighting_seq().len() as int).len() > 2 * HALF_WINDOW) {
            Self::lemma_triggered_any_phase(x, y, s, states, None, a);
        }
    }

    /// `self` is `before` with its newest sighting rejected, the track going on.
    pub open spec fn rejected_from(&self, before: &Self) -> bool {
        &&& self.sighting_seq() == before.sighting_seq().drop_last()
        &&& self.outlier_count() == before.outlier_count() + 1
        &&& self.solution_spec() == before.solution_spec()
        &&& self.measured_seq() == before.measured_seq()
        &&& self.predicted_seq() == before.predicted_seq()
        &&& self.is_predicting() == before.is_predicting()
        &&& self.track_seq() == before.track_seq()
        &&& self.solved_spin_spec() == before.solved_spin_spec()
        &&& self.had_spec() == before.had_spec()
        &&& self.same_setup(before)
    }

    /// What one frame did: `self` is `before` after `observe(camera_id, found, t)`
    /// returned `a`.
    pub open spec fn observed(
        &self,
        before: &Self,
        camera_id: camera::Id,
        found: Option<P>,
        t: u64,
        a: Ask<P, S, R>,
    ) -> bool {
        let camera = index_of(before.camera_seq(), camera_id, 0);
        let stale = before.stale_at(t);
        let ended_before = if stale && before.stood() {
            1int
        } else {
            0int
        };
        &&& self.same_setup(before)
        // The sequence number advances at a stale gap after a track that stood.
        &&& self.track_seq() == before.track_seq() + ended_before
        // A frame older than the newest sighting changes nothing.
        &&& before.out_of_order(t) ==> a == Ask::<P, S, R>::Done(Outcome::Idle) && *self == *before
        // A silence of the stale gap ends a standing track; a fit that never
        // stood is given up without advancing the sequence number.
        &&& !before.out_of_order(t) && stale && before.stood() ==> self.track_seq() > before.track_seq()
        // A frame that shows nothing, or comes from an unknown camera, only ages the track.
        &&& !before.out_of_order(t) && (found is None || camera is None) ==> a == Ask::<P, S, R>::Done(
            Outcome::Idle,
        ) && (if stale {
            self.cleared_from(before, ended_before)
        } else {
            *self == *before
        })
        // A sighting from a known camera joins the window of recent ones (after a
        // stale gap, the window is empty), and the window is fitted when it
        // holds enough sightings of two cameras at least.
        &&& match found {
            Some(p) => match camera {
                Some(c) => !before.out_of_order(t) ==> {
                    let w = recent(
                        (if stale {
                            Seq::<Sighting<P>>::empty()
                        } else {
                            before.sighting_seq()
                        }),
                        t,
                        before.limits_spec().window,
                    ).push((Sighting { camera: c as usize, pixel: p, t }));
                    &&& self.sighting_seq() == w
                    &&& self.had_spec() == (!stale && before.solution_spec() is Some)
                    &&& stale ==> self.solution_spec() is None && self.measured_seq().len() == 0
                        && self.predicted_seq().len() == 0 && !self.is_predicting() && self.outlier_count()
                        == 0 && self.solved_spin_spec() is None
                    &&& !stale ==> self.solution_spec() == before.solution_spec() && self.measured_seq()
                        == before.measured_seq() && self.predicted_seq() == before.predicted_seq()
                        && self.is_predicting() == before.is_predicting() && self.outlier_count()
                        == before.outlier_count() && self.solved_spin_spec() == before.solved_spin_spec()
                    &&& if w.len() < before.limits_spec().min_sightings || single_camera(w) {
                        a == Ask::<P, S, R>::Done(Outcome::Idle) && self.phase_spec() is Ready
                    } else {
                        (a matches Ask::Distances(d) && d@ == span_pairs_spec(w, before.camera_seq().len() as int))
                            && self.phase_spec() == Phase::<S, R>::Span { purpose: Purpose::First }
                    }
                },
                None => true,
            },
            None => true,
        }
        &&& a is Done ==> self.phase_spec() is Ready
    }

    /// One call on a fit: `observe` with its frame and what it asked, `resume`
    /// with its answer and what it asked next, or `drop_track`.
    pub open spec fn called(&self, before: &Self, call: Call<P, S, R>) -> bool {
        match call {
            Call::Observe(camera_id, found, t, a) => self.observed(before, camera_id, found, t, a),
            Call::Resume(answer, a) => self.resumed(before, answer),
            Call::Drop => self.cleared_from(before, 1),
        }
    }

    /// What every `resume` keeps: the sequence number advances only with a
    /// track that ended, by one; a solved spin stays until the track ends.
    pub open spec fn resumed(&self, before: &Self, answer: Answer<S, R>) -> bool {
        &&& before.fits(answer)
        &&& before.track_seq() <= self.track_seq() <= before.track_seq() + 1
        &&& self.track_seq() > before.track_seq() ==> self.is_clear()
        &&& before.solved_spin_spec() is Some ==> self.solved_spin_spec() == before.solved_spin_spec()
            || self.is_clear()
    }

    /// One camera alone never starts a track: from a fit with no track whose
    /// sightings are all of one camera, frames in which only that camera
    /// detects the ball — the others, and cameras outside the rig, detecting
    /// nothing usable — never begin a fit, so every observation is done at
    /// once and no track stands, across any gaps; every sighting kept stays
    /// one of that camera.
    pub proof fn lemma_one_camera_never_starts_a_track(
        runs: Seq<Self>,
        camera_id: camera::Id,
        ids: Seq<camera::Id>,
        found: Seq<Option<P>>,
        t: Seq<u64>,
        a: Seq<Ask<P, S, R>>,
    )
        requires
            runs.len() == found.len() + 1,
            ids.len() == found.len(),
            t.len() == found.len(),
            a.len() == found.len(),
            runs[0].solution_spec() is None,
            runs[0].phase_spec() is Ready,
            forall|k: int|
                0 <= k < runs[0].sighting_seq().len() ==> #[trigger] runs[0].sighting_seq()[k].camera == index_of(
                    runs[0].camera_seq(),
                    camera_id,
                    0,
                ).unwrap() as usize,
            forall|i: int|
                0 <= i < found.len() ==> (ids[i] == camera_id || #[trigger] found[i] is None || index_of(
                    runs[0].camera_seq(),
                    ids[i],
                    0,
                ) is None),
            forall|i: int|
                0 <= i < found.len() ==> runs[i + 1].observed(
                    &runs[i],
                    ids[i],
                    #[trigger] found[i],
                    t[i],
                    a[i],
                ),
        ensures
            forall|i: int| 0 <= i < runs.len() ==> (#[trigger] runs[i]).solution_spec() is None,
            forall|i: int| 0 <= i < runs.len() ==> (#[trigger] runs[i]).phase_spec() is Ready,
            forall|i: int| 0 <= i < a.len() ==> #[trigger] a[i] == Ask::<P, S, R>::Done(Outcome::Idle),
            forall|i: int| 0 <= i < runs.len() ==> (#[trigger] runs[i]).camera_seq() == runs[0].camera_seq(),
            forall|i: int, k: int|
                0 <= i < runs.len() && 0 <= k < runs[i].sighting_seq().len() ==> #[trigger] runs[i].sighting_seq()[k].camera == index_of(
                    runs[0].camera_seq(),
                    camera_id,
                    0,
                ).unwrap() as usize,
        decreases found.len(),
    {
        if found.len() > 0 {
            let n = found.len() - 1;
            let front = runs.drop_last();
            Self::lemma_one_camera_never_starts_a_track(
                front,
                camera_id,
                ids.drop_last(),
                found.drop_last(),
                t.drop_last(),
                a.drop_last(),
            );
            let before = runs[n];
            let after = runs[n + 1];
            assert(after.observed(&before, ids[n], found[n], t[n], a[n]));
            assert(ids[n] == camera_id || found[n] is None || index_of(runs[0].camera_seq(), ids[n], 0) is None);
            let i0 = 0int;
            assert(front[i0] == runs[0]);
            assert(front[n] == before);
            assert(before.camera_seq() == runs[0].camera_seq());
            assert(before.solution_spec() is None);
            assert forall|k: int| 0 <= k < before.sighting_seq().len() implies #[trigger] before.sighting_seq()[k].camera
                == index_of(runs[0].camera_seq(), camera_id, 0).unwrap() as usize by {
                assert(front[n].sighting_seq()[k] == before.sighting_seq()[k]);
            }
            let c = index_of(runs[0].camera_seq(), camera_id, 0).unwrap() as usize;
            if found[n] is Some && index_of(runs[0].camera_seq(), ids[n], 0) is Some && !before.out_of_order(t[n]) {
                let w = after.sighting_seq();
                let old_w = if before.stale_at(t[n]) {
                    Seq::<Sighting<P>>::empty()
                } else {
                    before.sighting_seq()
                };
                lemma_recent(old_w, t[n], before.limits_spec().window);
                let kept = recent(old_w, t[n], before.limits_spec().window);
                assert(ids[n] == camera_id);
                let cc = index_of(before.camera_seq(), ids[n], 0).unwrap();
                assert(w == kept.push((Sighting { camera: cc as usize, pixel: found[n].unwrap(), t: t[n] })));
                assert(c == cc as usize);
                assert forall|k: int| 0 <= k < w.len() implies #[trigger] w[k].camera == c by {
                    if k < w.len() - 1 {
                        assert(w[k] == kept[k]);
                        assert(old_w.contains(kept[k]));
                        let j = choose|j: int| 0 <= j < old_w.len() && old_w[j] == kept[k];
                        assert(old_w[j] == before.sighting_seq()[j]);
                        assert(before.sighting_seq()[j].camera == c);
                    } else {
                        assert(w[k].camera == cc as usize);
                    }
                }
                assert(single_camera(w)) by {
                    assert forall|k: int| 0 <= k < w.len() implies #[trigger] w[k].camera == w[0].camera by {
                        assert(w[k].camera == c);
                        assert(w[0].camera == c);
                    }
                }
            } else {
                assert forall|k: int| 0 <= k < after.sighting_seq().len() implies #[trigger] after.sighting_seq()[k].camera
                    == c by {
                    assert(after.sighting_seq()[k] == before.sighting_seq()[k]);
                }
            }
            assert(after.solution_spec() is None);
            assert forall|i: int| 0 <= i < runs.len() implies (#[trigger] runs[i]).solution_spec() is None
                && runs[i].camera_seq() == runs[0].camera_seq() && runs[i].phase_spec() is Ready by {
                if i < n + 1 {
                    assert(front[i] == runs[i]);
                }
            }
            assert forall|i: int| 0 <= i < a.len() implies #[trigger] a[i] == Ask::<P, S, R>::Done(Outcome::Idle) by {
                if i < n {
                    assert(a.drop_last()[i] == a[i]);
                }
            }
            assert forall|i: int, k: int|
                0 <= i < runs.len() && 0 <= k < runs[i].sighting_seq().len() implies #[trigger] runs[i].sighting_seq()[k].camera
                    == c by {
                if i < n + 1 {
                    assert(front[i] == runs[i]);
                }
            }
        }
    }

    /// The sequence number tells balls apart: over any run of `observe`,
    /// `resume` and `drop_track` calls it never goes down; `drop_track` raises
    /// it by exactly one; and any other call raises it only where a track
    /// ended — at a stale gap after one that stood, or with a track ended
    /// by the call.
    pub proof fn lemma_sequence_number_never_decreases(runs: Seq<Self>, calls: Seq<Call<P, S, R>>)
        requires
            runs.len() == calls.len() + 1,
            forall|i: int| 0 <= i < calls.len() ==> runs[i + 1].called(&runs[i], #[trigger] calls[i]),
        ensures
            forall|i: int, j: int|
                0 <= i <= j < runs.len() ==> #[trigger] runs[i].track_seq() <= #[trigger] runs[j].track_seq(),
            forall|i: int|
                0 <= i < calls.len() && #[trigger] calls[i] is Drop ==> runs[i + 1].track_seq()
                    == runs[i].track_seq() + 1,
            forall|i: int|
                0 <= i < calls.len() && runs[i + 1].track_seq() > runs[i].track_seq() ==> match #[trigger] calls[i] {
                    Call::Observe(c, f, t, a) => runs[i].stale_at(t) && runs[i].stood(),
                    Call::Resume(answer, a) => runs[i + 1].is_clear(),
                    Call::Drop => true,
                },
        decreases calls.len(),
    {
        if calls.len() > 0 {
            let n = calls.len() - 1;
            let front = runs.drop_last();
            Self::lemma_sequence_number_never_decreases(front, calls.drop_last());
            assert(runs[n + 1].called(&runs[n], calls[n]));
            assert forall|i: int, j: int| 0 <= i <= j < runs.len() implies #[trigger] runs[i].track_seq()
                <= #[trigger] runs[j].track_seq() by {
                if j < n + 1 {
                    assert(front[i] == runs[i]);
                    assert(front[j] == runs[j]);
                } else if i < n + 1 {
                    assert(front[i] == runs[i]);
                    assert(front[n] == runs[n]);
                    assert(front[i].track_seq() <= front[n].track_seq());
                }
            }
            assert forall|i: int| 0 <= i < calls.len() && #[trigger] calls[i] is Drop implies runs[i + 1].track_seq()
                == runs[i].track_seq() + 1 by {
                if i < n {
                    assert(front[i] == runs[i] && front[i + 1] == runs[i + 1]);
                    assert(calls.drop_last()[i] == calls[i]);
                }
            }
            assert forall|i: int|
                0 <= i < calls.len() && runs[i + 1].track_seq() > runs[i].track_seq() implies match #[trigger] calls[i] {
                    Call::Observe(c, f, t, a) => runs[i].stale_at(t) && runs[i].stood(),
                    Call::Resume(answer, a) => runs[i + 1].is_clear(),
                    Call::Drop => true,
                } by {
                if i < n {
                    assert(front[i] == runs[i] && front[i + 1] == runs[i + 1]);
                    assert(calls.drop_last()[i] == calls[i]);
                }
            }
        }
    }

    /// The spin solved from a bounce is solved once per track: over a run of
    /// `observe` and `resume` calls in which no frame comes after a stale gap
    /// and no call ends the track, it stays.
    pub proof fn lemma_solved_spin_stays(runs: Seq<Self>, calls: Seq<Call<P, S, R>>)
        requires
            runs.len() == calls.len() + 1,
            runs[0].solved_spin_spec() is Some,
            forall|i: int|
                0 <= i < calls.len() ==> runs[i + 1].called(&runs[i], #[trigger] calls[i]) && !(calls[i] is Drop)
                    && !runs[i + 1].is_clear() && (calls[i] matches Call::Observe(c, f, t, a) ==> !runs[i].stale_at(
                    t,
                )),
        ensures
            forall|i: int| 0 <= i < runs.len() ==> #[trigger] runs[i].solved_spin_spec() == runs[0].solved_spin_spec(),
        decreases calls.len(),
    {
        if calls.len() > 0 {
            let n = calls.len() - 1;
            let front = runs.drop_last();
            assert forall|i: int|
                0 <= i < calls.drop_last().len() implies front[i + 1].called(&front[i], #[trigger] calls.drop_last()[i])
                    && !(calls.drop_last()[i] is Drop) && !front[i + 1].is_clear() && (calls.drop_last()[i] matches Call::Observe(
                    c,
                    f,
                    t,
                    a,
                ) ==> !front[i].stale_at(t)) by {
                assert(calls.drop_last()[i] == calls[i]);
                assert(front[i] == runs[i] && front[i + 1] == runs[i + 1]);
            }
            Self::lemma_solved_spin_stays(front, calls.drop_last());
            assert(runs[n + 1].called(&runs[n], calls[n]));
            assert forall|i: int| 0 <= i < runs.len() implies #[trigger] runs[i].solved_spin_spec()
                == runs[0].solved_spin_spec() by {
                let i0 = 0int;
                assert(front[i0] == runs[0]);
                if i < n + 1 {
                    assert(front[i] == runs[i]);
                } else {
                    assert(front[n] == runs[n]);
                }
            }
        }
    }

    /// Takes in one frame: `found` is the pixel detected in it, `None` when
    /// nothing was. Answers with the first piece of numeric work the frame
    /// needs, or at once with its outcome; see [`Self::observed`], then
    /// [`Self::resume`].
    ///
    /// Frames without a detection must be fed too: "nothing came after" is the
    /// only sign that the ball left the picture.
    pub fn observe(&mut self, camera_id: camera::Id, found: Option<P>, t: u64) -> (a: Ask<P, S, R>)
        requires
            old(self).wf(),
            old(self).phase_spec() is Ready,
            old(self).track_seq() < u64::MAX,
        ensures
            final(self).wf(),
            final(self).phase_ok(),
            final(self).observed(old(self), camera_id, found, t, a),
    {
        let ghost start = *self;
        let n = self.sightings.len();
        // Frames out of order stop here.
        if n > 0 && t < self.sightings[n - 1].t {
            return Ask::Done(Outcome::Idle);
        }
        if n > 0 && t - self.sightings[n - 1].t >= self.limits.stale_gap {
            // Only a track that stood ends; a fit that never stood is given up.
            if self.solution.is_some() || self.measured.0.len() > 0 || self.predicting {
                self.drop_track();
            } else {
                self.abandon();
            }
        }
        let ghost aged = *self;
        let pixel = match found {
            Some(p) => p,
            None => return Ask::Done(Outcome::Idle),
        };
        let camera = match self.camera_index(camera_id) {
            Some(c) => c,
            None => return Ask::Done(Outcome::Idle),
        };
        let ghost before_push = self.sightings@;
        self.sightings.push(Sighting { camera, pixel, t });
        proof {
            lemma_recent_push(before_push, Sighting { camera, pixel, t }, self.limits.window);
        }
        self.keep_recent(t);
        proof {
            let w = self.limits.window;
            let x = Sighting { camera, pixel, t };
            lemma_recent(before_push, t, w);
            let kept = recent(before_push, t, w);
            assert(self.sightings@ == kept.push(x));
            assert forall|i: int| 0 <= i < kept.len() implies #[trigger] kept[i].t <= t by {
                let j = choose|j: int| 0 <= j < before_push.len() && before_push[j] == kept[i];
                assert(before_push[j].t <= before_push[before_push.len() - 1].t);
            }
            assert(sightings_ordered(self.sightings@)) by {
                assert forall|a: int, b: int| 0 <= a <= b < self.sightings@.len() implies
                    #[trigger] self.sightings@[a].t <= #[trigger] self.sightings@[b].t by {
                    if b < kept.len() {
                        assert(kept[a].t <= kept[b].t);
                    } else if a < kept.len() {
                        assert(kept[a].t <= t);
                    }
                }
            }
            assert forall|i: int| 0 <= i < self.sightings@.len() implies self.sightings@.last().t
                - #[trigger] self.sightings@[i].t <= w by {
                if i < kept.len() {
                    assert(since(kept[i].t, t) <= w);
                }
            }
        }
        let ghost window = self.sightings@;
        assert(window == recent(
            (if start.stale_at(t) {
                Seq::<Sighting<P>>::empty()
            } else {
                start.sighting_seq()
            }),
            t,
            start.limits_spec().window,
        ).push((Sighting { camera: camera, pixel, t })));
        self.had = self.solution.is_some();
        self.begin_fit(Purpose::First)
    }

    /// Begins the fit of the window for `purpose`: see [`Self::fit_begun`].
    fn begin_fit(&mut self, purpose: Purpose<R>) -> (a: Ask<P, S, R>)
        requires
            old(self).wf(),
            old(self).phase is Ready,
        ensures
            final(self).wf(),
            final(self).phase_ok(),
            final(self).fit_begun(old(self), purpose, a),
    {
        let n = self.sightings.len();
        if n == 0 || n < self.limits.min_sightings {
            return Ask::Done(Self::give_up(purpose));
        }
        // Depth needs at least two different cameras.
        let first = self.sightings[0].camera;
        let mut i: usize = 1;
        let mut all_first = true;
        while i < n
            invariant
                1 <= i <= n,
                n == self.sightings@.len(),
                first == self.sightings@[0].camera,
                all_first == forall|j: int| 0 <= j < i ==> #[trigger] self.sightings@[j].camera == first,
            decreases n - i,
        {
            if self.sightings[i].camera != first {
                all_first = false;
            }
            i = i + 1;
        }
        if all_first {
            return Ask::Done(Self::give_up(purpose));
        }
        // Still pixels are no shot: screened before any 3D is solved.
        let pairs = self.span_pairs();
        self.phase = Phase::Span { purpose };
        Ask::Distances(pairs)
    }

    fn give_up(purpose: Purpose<R>) -> (r: Outcome<R>)
        ensures
            r == Self::given_up(purpose),
    {
        match purpose {
            Purpose::First => Outcome::Idle,
            Purpose::Again(px) => Outcome::Rejected { px },
        }
    }

    /// The steps of the fit from `start`, `iterations` at most.
    fn first_step(&mut self, purpose: Purpose<R>, start: S, iterations: usize) -> (a: Ask<P, S, R>)
        requires
            old(self).phase is Ready,
            old(self).sightings@.len() > 0,
        ensures
            (a matches Ask::Step(s, w, sp) && s == start && w@ == old(self).sighting_seq() && sp
                == old(self).spin_spec()),
            final(self).holds_as(old(self)),
            final(self).phase_spec() == (Phase::<S, R>::Iterate { purpose, start, k: 0, iterations }),
            final(self).limits == old(self).limits,
    {
        self.phase = Phase::Iterate { purpose, start, k: 0, iterations };
        Ask::Step(start, copied(&self.sightings), self.assumed_spin())
    }

    /// The measured states made: the spin solved from the bounce, where none
    /// is yet and the raw path is long enough, else the trigger.
    fn after_kinematics(&mut self, states: Vec<State>) -> (a: Ask<P, S, R>)
        requires
            old(self).wf(),
            old(self).phase is Ready,
            old(self).solution is Some,
            old(self).seq < u64::MAX,
            measured_like(states@),
        ensures
            final(self).wf(),
            final(self).phase_ok(),
            final(self).measured_then(old(self), states@, a),
    {
        if self.solved_spin.is_none() {
            let joined = mutual_pairs(self.sightings.as_slice());
            if joined.len() > 2 * HALF_WINDOW {
                let count = self.sightings.len();
                proof {
                    lemma_pairs_are_sound(self.sightings@, count as int);
                }
                let views = pair_views_of(self.sightings.as_slice(), joined.as_slice());
                self.phase = Phase::Pairs { states };
                return Ask::PairPoints(views);
            }
        }
        self.trigger_step(states, None)
    }

    /// See [`Self::triggered`].
    fn trigger_step(&mut self, states: Vec<State>, spin: Option<Vec3>) -> (a: Ask<P, S, R>)
        requires
            old(self).wf(),
            old(self).phase is Ready,
            old(self).seq < u64::MAX,
            measured_like(states@),
        ensures
            final(self).wf(),
            final(self).phase_ok(),
            final(self).triggered(old(self), states@, spin, a),
    {
        let ready = self.trigger.ready(&Evidence::of(states.as_slice()));
        let n = states.len();
        if (self.predicting || ready) && n > 0 {
            let spin_now = match self.solved_spin {
                Some(s) => s,
                None => match spin {
                    Some(s) => s,
                    None => self.limits.assumed_spin,
                },
            };
            let from = states[n - 1];
            self.phase = Phase::Integrating { states, spin, ready };
            return Ask::Integrate(from, spin_now);
        }
        let ghost start = *self;
        self.rebuild(states, spin, ready, &Track(Vec::new()));
        let ghost mid = *self;
        let r = self.conclude(self.had);
        proof {
            assert(mid.rebuilt(&start, states@, spin, ready, Seq::empty()));
        }
        Ask::Done(r)
    }

    /// Takes in the result of the last [`Ask`], which must be of the kind it
    /// asked for, and says what comes next.
    ///
    /// The fit: a window whose largest pixel span within one camera is below
    /// [`FitLimits::min_pixel_span`] is no shot; a standing flight is told
    /// from the window's first time on, else the flight is started from two
    /// rough triangulations, at the window's first and last time, with the
    /// velocity between them; it is then stepped [`ITERATIONS`] times (a
    /// standing flight) or [`ITERATIONS_COLD`] times at most, until no step
    /// can be taken or one is negligible, and stands if it is finite. A fit
    /// that cannot be made or is not finite gives up. A flight that stands
    /// for a new sighting has the sighting tested: an outlier is taken out
    /// ([`Self::rejected_from`]; [`FitLimits::outlier_limit`] of them in a row
    /// end the track) and the window fitted again; otherwise the flight at
    /// the sightings' times becomes the measured states ([`measured_from`]),
    /// the spin is solved from the raw path's first bounce where none was, and
    /// the observation concludes ([`Self::triggered`]).
    /// What `resume` did with `answer` to `before`, by the phase `before`
    /// was in: see [`Self::resume`].
    pub open spec fn resumed_from(&self, before: &Self, answer: Answer<S, R>, a: Ask<P, S, R>) -> bool {
        // The span screen, then the start of the steps.
        &&& (before.phase_spec() matches Phase::Span { purpose } ==> (answer matches Answer::Distances(d) && (
        if largest(d@) < before.limits_spec().min_pixel_span {
            a == Ask::<P, S, R>::Done(Self::given_up(purpose)) && self.holds_as(before)
        } else {
            let w = before.sighting_seq();
            match before.solution_spec() {
                Some(previous) => a == Ask::<P, S, R>::Advance(previous, w[0].t, before.spin_spec())
                    && self.holds_as(before) && self.phase_spec() == Phase::<S, R>::Start {
                    purpose,
                    iterations: ITERATIONS,
                },
                None => (a matches Ask::Triangulate(v) && near_views(before.sighting_seq(), w[0].t, v@) && v@.len()
                    >= 2 && self.holds_as(before) && self.phase_spec() == Phase::<S, R>::Early {
                    purpose,
                }) || (a == Ask::<P, S, R>::Done(Self::given_up(purpose)) && self.holds_as(before)
                    && exists|v: Seq<Sighting<P>>| near_views(before.sighting_seq(), w[0].t, v) && v.len() < 2),
            }
        })))
        &&& (before.phase_spec() matches Phase::Early { purpose } ==> (answer matches Answer::Point(p) && match p {
            None => a == Ask::<P, S, R>::Done(Self::given_up(purpose)) && self.holds_as(before),
            Some(early) => {
                let last = before.sighting_seq().last().t;
                ||| (a matches Ask::Triangulate(v) && near_views(before.sighting_seq(), last, v@) && v@.len() >= 2
                    && self.holds_as(before) && self.phase_spec() == Phase::<S, R>::Late {
                    purpose,
                    early,
                })
                ||| (a == Ask::<P, S, R>::Done(Self::given_up(purpose)) && self.holds_as(before)
                    && exists|v: Seq<Sighting<P>>| near_views(before.sighting_seq(), last, v) && v.len() < 2)
            },
        }))
        &&& (before.phase_spec() matches Phase::Late { purpose, early } ==> (answer matches Answer::Point(p) && match p {
            None => a == Ask::<P, S, R>::Done(Self::given_up(purpose)) && self.holds_as(before),
            Some(late) => {
                let w = before.sighting_seq();
                let span = w.last().t - w[0].t;
                let velocity = if span > 1000 {
                    Vec3 {
                        x: rate_spec(early.x, late.x, span as u64) as i32,
                        y: rate_spec(early.y, late.y, span as u64) as i32,
                        z: rate_spec(early.z, late.z, span as u64) as i32,
                    }
                } else {
                    Vec3 { x: 0, y: 0, z: 0 }
                };
                a == Ask::<P, S, R>::Ballistic(w[0].t, early, velocity) && self.holds_as(before)
                    && self.phase_spec() == Phase::<S, R>::Start { purpose, iterations: ITERATIONS_COLD }
            },
        }))
        // The steps.
        &&& (before.phase_spec() matches Phase::Start { purpose, iterations } ==> (answer matches Answer::Solution(
            start,
        ) && (a matches Ask::Step(s, w, sp) && s == start && w@ == before.sighting_seq() && sp
            == before.spin_spec()) && self.holds_as(before) && self.phase_spec()
            == Phase::<S, R>::Iterate { purpose, start, k: 0, iterations }))
        &&& (before.phase_spec() matches Phase::Iterate { purpose, start, k, iterations } ==> (answer matches Answer::Step(
            step,
        ) && self.holds_as(before) && match step {
            None => a == Ask::<P, S, R>::Finite(start) && self.phase_spec() == Phase::<S, R>::Finite {
                purpose,
                fitted: start,
            },
            Some((next, negligible)) => if negligible || k + 1 >= iterations {
                a == Ask::<P, S, R>::Finite(next) && self.phase_spec() == Phase::<S, R>::Finite {
                    purpose,
                    fitted: next,
                }
            } else {
                (a matches Ask::Step(s, w, sp) && s == next && w@ == before.sighting_seq() && sp
                    == before.spin_spec()) && self.phase_spec() == Phase::<S, R>::Iterate {
                    purpose,
                    start: next,
                    k: (k + 1) as usize,
                    iterations,
                }
            },
        }))
        // The flight stands if finite.
        &&& (before.phase_spec() matches Phase::Finite { purpose, fitted } ==> (answer matches Answer::Finite(finite)
            && self.holds_but_solution(before) && if !finite {
            a == Ask::<P, S, R>::Done(Self::given_up(purpose)) && self.solution_spec() is None
        } else {
            &&& self.solution_spec() == Some(fitted)
            &&& purpose matches Purpose::Again(px) ==> a == Ask::<P, S, R>::Done(Outcome::Rejected { px })
            &&& purpose is First ==> (a matches Ask::Outlier(s, w, sp) && s == fitted && w@
                == before.sighting_seq() && sp == before.spin_spec()) && self.phase_spec() is Outlier
        }))
        // The newest sighting tested.
        &&& (before.phase_spec() is Outlier ==> (answer matches Answer::Outlier(o) && match o {
            Some(px) => if before.outlier_count() + 1 >= before.limits_spec().outlier_limit {
                a == Ask::<P, S, R>::Done(Outcome::Idle) && self.cleared_from(before, 1)
            } else {
                exists|mid: Self| mid.rejected_from(before) && self.fit_begun(&mid, Purpose::Again(px), a)
            },
            None => {
                &&& a matches Ask::Kinematics(s, w, sp) && Some(s) == before.solution_spec() && w@
                    == before.sighting_seq() && sp == before.spin_spec()
                &&& self.outlier_count() == 0
                &&& self.phase_spec() is Kinematics
                &&& self.solution_spec() == before.solution_spec()
                &&& self.sighting_seq() == before.sighting_seq()
                &&& self.measured_seq() == before.measured_seq()
                &&& self.predicted_seq() == before.predicted_seq()
                &&& self.is_predicting() == before.is_predicting()
                &&& self.track_seq() == before.track_seq()
                &&& self.solved_spin_spec() == before.solved_spin_spec()
                &&& self.had_spec() == before.had_spec()
            },
        }))
        // The measured states.
        &&& (before.phase_spec() is Kinematics ==> (answer matches Answer::Kinematics(ks) && match ks {
            None => self.concluded(before, a),
            Some(k) => self.measured_then(before, measured_from(before.sighting_seq(), k@), a),
        }))
        // The spin from the raw path's first bounce.
        &&& (before.phase_spec() matches Phase::Pairs { states } ==> (answer matches Answer::Points(points) && {
            let w = before.sighting_seq();
            let raw = raw_path(w, pairs(w, w.len() as int), points@);
            &&& raw.len() <= 2 * HALF_WINDOW ==> self.triggered(before, states@, None, a)
            &&& raw.len() > 2 * HALF_WINDOW ==> (a matches Ask::Velocities(rp, ranges) && rp@ == raw
                && ranges@ == window_ranges(raw.len() as int)) && self.holds_as(before) && (self.phase_spec() matches Phase::Windows { states: st } && st@ == states@)
        }))
        &&& (before.phase_spec() matches Phase::Windows { states } ==> (answer matches Answer::Velocities(v) && {
            let windows = around(v@, v@.len() as int / 2);
            &&& (forall|j: int| 0 <= j < windows.len() ==> !passes(#[trigger] windows[j])) ==> self.triggered(before, states@, None, a)
            &&& forall|k: int|
                #[trigger] first_pass(windows, k) ==> (windows[k] matches (Some(v_in), Some(v_out)) && a
                    == Ask::<P, S, R>::Rolling(v_in, v_out)) && self.holds_as(before) && (self.phase_spec() matches Phase::Rolling { states: st } && st@ == states@)
        }))
        &&& (before.phase_spec() matches Phase::Rolling { states } ==> (answer matches Answer::Spin(spin) && match spin {
            Some(s) => self.triggered(before, states@, Some(s), a),
            None => (a matches Ask::Refine(s, w) && Some(s) == before.solution_spec() && w@
                == before.sighting_seq()) && self.holds_as(before) && (self.phase_spec() matches Phase::Refining { states: st } && st@ == states@),
        }))
        &&& (before.phase_spec() matches Phase::Refining { states } ==> (answer matches Answer::Spin(spin) && self.triggered(before, states@, spin, a)))
        // The prediction, then the conclusion.
        &&& (before.phase_spec() matches Phase::Integrating { states, spin, ready } ==> (answer matches Answer::Track(
            ahead,
        ) && exists|mid: Self| mid.rebuilt(before, states@, spin, ready, ahead@) && self.concluded(&mid, a)))
    }

    #[verifier::rlimit(100)]
    #[verifier::spinoff_prover]
    pub fn resume(&mut self, answer: Answer<S, R>) -> (a: Ask<P, S, R>)
        requires
            old(self).wf(),
            old(self).phase_ok(),
            old(self).fits(answer),
            old(self).track_seq() < u64::MAX,
        ensures
            final(self).wf(),
            final(self).phase_ok(),
            final(self).same_setup(old(self)),
            a is Done ==> (final(self).phase_spec() is Ready),
            old(self).track_seq() <= final(self).track_seq() <= old(self).track_seq() + 1,
            final(self).resumed(old(self), answer),
            final(self).resumed_from(old(self), answer, a),
    {
        let mut phase = Phase::Ready;
        std::mem::swap(&mut phase, &mut self.phase);
        let ghost swapped = *self;
        match phase {
            Phase::Ready => Ask::Done(Outcome::Idle),
            Phase::Span { purpose } => {
                let d = match answer {
                    Answer::Distances(d) => d,
                    _ => return Ask::Done(Outcome::Idle),
                };
                if largest_of(d.as_slice()) < self.limits.min_pixel_span {
                    return Ask::Done(Self::give_up(purpose));
                }
                let t0 = self.sightings[0].t;
                let spin = self.assumed_spin();
                match self.solution {
                    // The window may have moved on: restart from the state at its new first time.
                    Some(previous) => {
                        self.phase = Phase::Start { purpose, iterations: ITERATIONS };
                        Ask::Advance(previous, t0, spin)
                    },
                    None => {
                        let views = self.views_near(t0);
                        if views.len() < 2 {
                            return Ask::Done(Self::give_up(purpose));
                        }
                        self.phase = Phase::Early { purpose };
                        Ask::Triangulate(views)
                    },
                }
            },
            Phase::Early { purpose } => {
                let early = match answer {
                    Answer::Point(Some(p)) => p,
                    _ => return Ask::Done(Self::give_up(purpose)),
                };
                let last = self.sightings[self.sightings.len() - 1].t;
                let views = self.views_near(last);
                if views.len() < 2 {
                    return Ask::Done(Self::give_up(purpose));
                }
                self.phase = Phase::Late { purpose, early };
                Ask::Triangulate(views)
            },
            Phase::Late { purpose, early } => {
                let late = match answer {
                    Answer::Point(Some(p)) => p,
                    _ => return Ask::Done(Self::give_up(purpose)),
                };
                let t0 = self.sightings[0].t;
                let last = self.sightings[self.sightings.len() - 1].t;
                proof {
                    assert(self.sightings@[0].t <= self.sightings@[self.sightings@.len() - 1].t);
                }
                let span: u64 = last - t0;
                let velocity = if span > 1000 {
                    Vec3 {
                        x: rate(early.x, late.x, span),
                        y: rate(early.y, late.y, span),
                        z: rate(early.z, late.z, span),
                    }
                } else {
                    Vec3 { x: 0, y: 0, z: 0 }
                };
                self.phase = Phase::Start { purpose, iterations: ITERATIONS_COLD };
                Ask::Ballistic(t0, early, velocity)
            },
            Phase::Start { purpose, iterations } => {
                let start = match answer {
                    Answer::Solution(s) => s,
                    _ => return Ask::Done(Outcome::Idle),
                };
                self.first_step(purpose, start, iterations)
            },
            Phase::Iterate { purpose, start, k, iterations } => {
                let step = match answer {
                    Answer::Step(step) => step,
                    _ => return Ask::Done(Outcome::Idle),
                };
                match step {
                    None => {
                        self.phase = Phase::Finite { purpose, fitted: start };
                        Ask::Finite(start)
                    },
                    Some((next, negligible)) => {
                        if negligible || iterations - k <= 1 {
                            self.phase = Phase::Finite { purpose, fitted: next };
                            Ask::Finite(next)
                        } else {
                            self.phase = Phase::Iterate { purpose, start: next, k: k + 1, iterations };
                            Ask::Step(next, copied(&self.sightings), self.assumed_spin())
                        }
                    },
                }
            },
            Phase::Finite { purpose, fitted } => {
                let finite = match answer {
                    Answer::Finite(b) => b,
                    _ => return Ask::Done(Outcome::Idle),
                };
                if !finite {
                    self.solution = None;
                    return Ask::Done(Self::give_up(purpose));
                }
                self.solution = Some(fitted);
                match purpose {
                    Purpose::Again(px) => Ask::Done(Outcome::Rejected { px }),
                    Purpose::First => {
                        // How far the new sighting is from the fit; far enough and it leaves the window.
                        self.phase = Phase::Outlier;
                        Ask::Outlier(fitted, copied(&self.sightings), self.assumed_spin())
                    },
                }
            },
            Phase::Outlier => {
                let o = match answer {
                    Answer::Outlier(o) => o,
                    _ => return Ask::Done(Outcome::Idle),
                };
                match o {
                    Some(px) => {
                        // Outliers in a row are another phase of play, not noise to ride out.
                        if self.reject() {
                            return Ask::Done(Outcome::Idle);
                        }
                        let ghost mid = *self;
                        let a = self.begin_fit(Purpose::Again(px));
                        proof {
                            assert(mid.rejected_from(old(self)));
                        }
                        a
                    },
                    None => {
                        self.outliers = 0;
                        let solution = match self.solution {
                            Some(s) => s,
                            None => return Ask::Done(Outcome::Idle),
                        };
                        self.phase = Phase::Kinematics;
                        Ask::Kinematics(solution, copied(&self.sightings), self.assumed_spin())
                    },
                }
            },
            Phase::Kinematics => {
                let ks = match answer {
                    Answer::Kinematics(ks) => ks,
                    _ => return Ask::Done(Outcome::Idle),
                };
                match ks {
                    None => {
                        let r = self.conclude(self.had);
                        Ask::Done(r)
                    },
                    Some(k) => {
                        let states = states_at(self.sightings.as_slice(), k.as_slice());
                        proof {
                            lemma_measured_from_ordered(self.sightings@, k@);
                        }
                        let ghost st = states@;
                        let a = self.after_kinematics(states);
                        proof {
                            Self::lemma_measured_then_any_phase(swapped, *old(self), *self, st, a);
                        }
                        a
                    },
                }
            },
            Phase::Pairs { states } => {
                let points = match answer {
                    Answer::Points(p) => p,
                    _ => return Ask::Done(Outcome::Idle),
                };
                let joined = mutual_pairs(self.sightings.as_slice());
                let count = self.sightings.len();
                proof {
                    lemma_pairs_are_sound(self.sightings@, count as int);
                }
                let raw = raw_from(self.sightings.as_slice(), joined.as_slice(), points.as_slice());
                if raw.len() <= 2 * HALF_WINDOW {
                    let ghost st = states@;
                    let a = self.trigger_step(states, None);
                    proof {
                        Self::lemma_triggered_any_phase(swapped, *old(self), *self, st, None, a);
                    }
                    return a;
                }
                let ranges = ranges_for(raw.len());
                self.phase = Phase::Windows { states };
                Ask::Velocities(raw, ranges)
            },
            Phase::Windows { states } => {
                let v = match answer {
                    Answer::Velocities(v) => v,
                    _ => return Ask::Done(Outcome::Idle),
                };
                let windows = around_of(v.as_slice(), v.len() / 2);
                match first_bounce(windows.as_slice()) {
                    None => {
                        let ghost st = states@;
                        let a = self.trigger_step(states, None);
                        proof {
                            Self::lemma_triggered_any_phase(swapped, *old(self), *self, st, None, a);
                        }
                        a
                    },
                    Some(k) => match windows[k] {
                        (Some(v_in), Some(v_out)) => {
                            self.phase = Phase::Rolling { states };
                            Ask::Rolling(v_in, v_out)
                        },
                        _ => {
                            let ghost st = states@;
                            let a = self.trigger_step(states, None);
                            proof {
                                Self::lemma_triggered_any_phase(swapped, *old(self), *self, st, None, a);
                            }
                            a
                        },
                    },
                }
            },
            Phase::Rolling { states } => {
                let spin = match answer {
                    Answer::Spin(s) => s,
                    _ => return Ask::Done(Outcome::Idle),
                };
                match spin {
                    Some(s) => {
                        let ghost st = states@;
                        let a = self.trigger_step(states, Some(s));
                        proof {
                            Self::lemma_triggered_any_phase(swapped, *old(self), *self, st, Some(s), a);
                        }
                        a
                    },
                    None => {
                        let solution = match self.solution {
                            Some(s) => s,
                            None => return Ask::Done(Outcome::Idle),
                        };
                        self.phase = Phase::Refining { states };
                        Ask::Refine(solution, copied(&self.sightings))
                    },
                }
            },
            Phase::Refining { states } => {
                let spin = match answer {
                    Answer::Spin(s) => s,
                    _ => return Ask::Done(Outcome::Idle),
                };
                let ghost st = states@;
                let a = self.trigger_step(states, spin);
                proof {
                    Self::lemma_triggered_any_phase(swapped, *old(self), *self, st, spin, a);
                }
                a
            },
            Phase::Integrating { states, spin, ready } => {
                let ahead = match answer {
                    Answer::Track(t) => t,
                    _ => return Ask::Done(Outcome::Idle),
                };
                let ghost start = *self;
                let ghost st = states@;
                self.rebuild(states, spin, ready, &ahead);
                let ghost mid = *self;
                let r = self.conclude(self.had);
                proof {
                    assert(mid.rebuilt(&start, st, spin, ready, ahead@));
                }
                Ask::Done(r)
            },
        }
    }

    /// Ends a standing track: observation gap, turning back, leaving the volume,
    /// stopping. A frame in hand is dropped with it.
    pub fn drop_track(&mut self)
        requires
            old(self).track_seq() < u64::MAX,
        ensures
            final(self).cleared_from(old(self), 1),
            final(self).wf(),
            final(self).phase_spec() is Ready,
            !final(self).had_spec(),
    {
        self.phase = Phase::Ready;
        self.had = false;
        self.sightings = Vec::new();
        self.solution = None;
        self.measured = Track(Vec::new());
        self.predicted = Track(Vec::new());
        self.predicting = false;
        self.outliers = 0;
        self.seq = self.seq + 1;
        self.solved_spin = None;
    }

    /// Gives up a fit that never was a shot. `seq` stays: nothing stood, so nothing ended.
    fn abandon(&mut self)
        ensures
            final(self).cleared_from(old(self), 0),
            final(self).wf(),
            final(self).phase is Ready,
            !final(self).had,
    {
        self.phase = Phase::Ready;
        self.had = false;
        self.sightings = Vec::new();
        self.solution = None;
        self.measured = Track(Vec::new());
        self.predicted = Track(Vec::new());
        self.predicting = false;
        self.outliers = 0;
        self.solved_spin = None;
    }
}

/// `first`, then the states of `rest`.
pub(crate) fn starting_at(first: State, rest: &Track) -> (r: Track)
    ensures
        r@ == seq![first] + rest@,
{
    let mut out: Vec<State> = vec![first];
    let mut i: usize = 0;
    while i < rest.0.len()
        invariant
            i <= rest@.len(),
            out@ == seq![first] + rest@.take(i as int),
        decreases rest@.len() - i,
    {
        out.push(rest.0[i]);
        i = i + 1;
        assert(out@ =~= seq![first] + rest@.take(i as int));
    }
    assert(rest@.take(rest@.len() as int) =~= rest@);
    Track(out)
}

/// A state-for-state copy of a track.
pub(crate) fn copy_track(track: &Track) -> (r: Track)
    ensures
        r@ == track@,
{
    let mut out: Vec<State> = Vec::new();
    let mut i: usize = 0;
    while i < track.0.len()
        invariant
            i <= track@.len(),
            out@ == track@.take(i as int),
        decreases track@.len() - i,
    {
        out.push(track.0[i]);
        i = i + 1;
        assert(out@ =~= track@.take(i as int));
    }
    assert(track@.take(track@.len() as int) =~= track@);
    Track(out)
}

} // verus!
