//! The recursive estimator: an extended Kalman filter on `[x y z vx vy vz]`.
//!
//! This module holds the filter's bookkeeping and decisions — waiting for two
//! cameras before seeding, the chi-square gate, when a track ends and what is
//! handed on. The state, its covariance and the camera and flight models are
//! floating-point work done by the caller: a detection is taken in by
//! [`Ekf::observe`], which answers with the next piece of numeric work it
//! needs ([`Ask`]); the caller does it and hands the result back through
//! [`Ekf::resume`], until the detection is done with its [`Outcome`].
use vstd::prelude::*;

use super::contract::{State, Track, Trajectory, Vec3, time_ordered};
use super::fit::{copied, copy_track, index_of, lemma_index_of_names, outside_volume_spec, since, starting_at};
use super::seed::{best_seed, midpoint, newest, oldest, seed_state, SeedCandidate};
use super::trigger::{Evidence, Trigger};
use crate::camera;

verus! {

/// A squared Mahalanobis distance over this is not the ball (χ², 2 dof, 99 %),
/// in millionths.
pub const GATE_CHI2: u64 = 9_210_000;

/// This many gated detections in a row end the track.
pub const REJECT_LIMIT: u32 = 5;

/// A silence this long ends the track [ns].
pub const STALE_GAP: u64 = 500_000_000;

/// Moving away from the robot by more than this between updates counts as
/// turning back [µm].
pub const RECEDE_STEP: i32 = 50_000;

/// This many turns back in a row end the track: it is the next shot.
pub const RECEDE_LIMIT: u32 = 3;

/// A detection waits this long for another camera's to seed with [ns].
pub const PENDING_TTL: u64 = 50_000_000;

/// What one detection did to the filter.
#[derive(Debug, Clone, Copy, PartialEq, Eq, Structural)]
pub enum Outcome {
    Seeded,
    Accepted,
    /// Too far from the prediction: ignored, the track kept. The squared
    /// Mahalanobis distance, in millionths.
    Rejected { d2: u64 },
    /// No state, or an unusable detection: nothing done.
    Idle,
}

/// The filter's estimate, with per-axis 1σ.
#[derive(Debug, Clone, Copy, PartialEq, Eq, Structural)]
pub struct Estimate {
    pub position: Vec3,
    pub velocity: Vec3,
    pub sigma_position: Vec3,
    pub sigma_velocity: Vec3,
}

/// The numeric work a detection needs next, or its outcome.
pub enum Ask<P> {
    /// The detection is done with.
    Done(Outcome),
    /// Where two pending views `(camera index, pixel, time)` of different
    /// cameras meet [µm], when they do: [`Answer::Point`].
    Triangulate((usize, P, u64), (usize, P, u64)),
    /// How many of the views reproject onto the point within the seed's
    /// pixel tolerance, and the worst error among those [µpx]: [`Answer::Votes`].
    Agree(Vec<(usize, P, u64)>, Vec3),
    /// Start the filter at the point, at rest, with the covariance of a seed
    /// whose views are this many nanoseconds apart; then its estimate:
    /// [`Answer::Estimate`].
    Start(Vec3, u64),
    /// Push the state and covariance this many nanoseconds ahead; then the
    /// innovation of the pixel seen by the camera of that index, kept for
    /// [`Ask::Update`], and its squared Mahalanobis distance in millionths,
    /// `None` when the ball is behind the camera: [`Answer::Distance`].
    Correct(u64, usize, P),
    /// Correct the state with the innovation just computed; then the
    /// estimate: [`Answer::Estimate`].
    Update,
    /// The flight from the current state at this time on, integrated up to
    /// the robot, the samples after it: [`Answer::Track`].
    Integrate(u64),
    /// The track ended: back to rest, zero state and unit covariance:
    /// [`Answer::WasReset`].
    Reset,
}

/// The result of an [`Ask`].
pub enum Answer {
    Point(Option<Vec3>),
    Votes(usize, u64),
    Estimate(Estimate),
    Distance(Option<u64>),
    Track(Track),
    WasReset,
}

/// Where a detection stands between its pieces of numeric work.
pub enum Phase<P> {
    /// No detection in hand.
    Ready,
    /// Seeding: the pair `(a, b)` of `views` is being scored; `point` is its
    /// triangulation while its votes are awaited.
    Pairs {
        views: Vec<(usize, P, u64)>,
        a: usize,
        b: usize,
        candidates: Vec<Option<SeedCandidate>>,
        point: Option<Vec3>,
    },
    /// The seed is being started; its state is at `mid`.
    Starting { mid: u64 },
    /// The distance of the detection at `t` is awaited.
    Gating { t: u64 },
    /// The corrected estimate at `t` is awaited.
    Updating { t: u64 },
    /// The prediction from `t` is awaited; `ready` is the trigger's answer.
    Integrating { t: u64, ready: bool },
    /// The track ended; `outcome` is reported once the filter is reset.
    Resetting { outcome: Outcome },
}

/// `answer` is the kind that `phase` waits for.
pub open spec fn fits<P>(phase: Phase<P>, answer: Answer) -> bool {
    match phase {
        Phase::Ready => false,
        Phase::Pairs { point, .. } => if point is None {
            answer is Point
        } else {
            answer is Votes
        },
        Phase::Starting { .. } => answer is Estimate,
        Phase::Gating { .. } => answer is Distance,
        Phase::Updating { .. } => answer is Estimate,
        Phase::Integrating { .. } => answer is Track,
        Phase::Resetting { .. } => answer is WasReset,
    }
}

/// The pair of views scored after `(a, b)` among `n`: every pair once, in order.
pub open spec fn next_pair(a: int, b: int, n: int) -> Option<(int, int)> {
    if b + 1 < n {
        Some((a, b + 1))
    } else if a + 2 < n {
        Some((a + 1, a + 2))
    } else {
        None
    }
}

/// How far apart views are in time.
pub open spec fn skew_of<P>(views: Seq<(usize, P, u64)>) -> int {
    if views.len() == 0 {
        0
    } else {
        newest(views) - oldest(views)
    }
}

/// The pending detections still usable at `t` for a detection of `camera_id`:
/// those of other cameras at most [`PENDING_TTL`] old.
pub open spec fn kept_pending<P>(pending: Seq<(camera::Id, P, u64)>, camera_id: camera::Id, t: u64) -> Seq<
    (camera::Id, P, u64),
>
    decreases pending.len(),
{
    if pending.len() == 0 {
        pending
    } else {
        let rest = kept_pending(pending.drop_last(), camera_id, t);
        let p = pending.last();
        if p.0 != camera_id && since(p.2, t) <= PENDING_TTL {
            rest.push(p)
        } else {
            rest
        }
    }
}

/// The pending detections of the rig's cameras, by camera index.
pub open spec fn views_of<P>(pending: Seq<(camera::Id, P, u64)>, cameras: Seq<camera::Id>) -> Seq<
    (usize, P, u64),
>
    decreases pending.len(),
{
    if pending.len() == 0 {
        Seq::empty()
    } else {
        let rest = views_of(pending.drop_last(), cameras);
        let p = pending.last();
        match index_of(cameras, p.0, 0) {
            Some(i) => rest.push((i as usize, p.1, p.2)),
            None => rest,
        }
    }
}

/// No two pending detections are of one camera.
pub open spec fn distinct_cameras<P>(pending: Seq<(camera::Id, P, u64)>) -> bool {
    forall|i: int, j: int| 0 <= i < j < pending.len() ==> #[trigger] pending[i].0 != #[trigger] pending[j].0
}

/// The seed time of views: halfway between the oldest and the newest.
pub open spec fn seed_time<P>(views: Seq<(usize, P, u64)>) -> int {
    if views.len() == 0 {
        0
    } else {
        oldest(views) + (newest(views) - oldest(views)) / 2
    }
}

proof fn lemma_kept_pending<P>(pending: Seq<(camera::Id, P, u64)>, camera_id: camera::Id, t: u64)
    ensures
        kept_pending(pending, camera_id, t).len() <= pending.len(),
        forall|i: int|
            0 <= i < kept_pending(pending, camera_id, t).len() ==> pending.contains(
                #[trigger] kept_pending(pending, camera_id, t)[i],
            ) && kept_pending(pending, camera_id, t)[i].0 != camera_id,
        distinct_cameras(pending) ==> distinct_cameras(kept_pending(pending, camera_id, t)),
    decreases pending.len(),
{
    if pending.len() > 0 {
        let front = pending.drop_last();
        lemma_kept_pending(front, camera_id, t);
        let kept = kept_pending(front, camera_id, t);
        assert forall|i: int| 0 <= i < kept.len() implies pending.contains(#[trigger] kept[i]) by {
            let j = choose|j: int| 0 <= j < front.len() && front[j] == kept[i];
            assert(pending[j] == kept[i]);
        }
        if distinct_cameras(pending) {
            assert(distinct_cameras(front)) by {
                assert forall|i: int, j: int| 0 <= i < j < front.len() implies #[trigger] front[i].0
                    != #[trigger] front[j].0 by {
                    assert(front[i] == pending[i] && front[j] == pending[j]);
                }
            }
            let last = pending.last();
            assert forall|i: int| 0 <= i < kept.len() implies #[trigger] kept[i].0 != last.0 by {
                let j = choose|j: int| 0 <= j < front.len() && front[j] == kept[i];
                assert(pending[j] == kept[i]);
                assert(pending[j].0 != pending[pending.len() - 1].0);
            }
        }
    }
}

/// Detections all of camera `camera_id` leave none pending for another of its detections.
proof fn lemma_kept_pending_of_one_camera<P>(pending: Seq<(camera::Id, P, u64)>, camera_id: camera::Id, t: u64)
    requires
        forall|k: int| 0 <= k < pending.len() ==> (#[trigger] pending[k]).0 == camera_id,
    ensures
        kept_pending(pending, camera_id, t).len() == 0,
    decreases pending.len(),
{
    if pending.len() > 0 {
        let front = pending.drop_last();
        assert forall|k: int| 0 <= k < front.len() implies (#[trigger] front[k]).0 == camera_id by {
            assert(front[k] == pending[k]);
        }
        lemma_kept_pending_of_one_camera(front, camera_id, t);
    }
}

/// A seed is triangulated from views of different cameras: no two pending
/// detections share a camera, so no two of their views share a camera index.
pub proof fn lemma_seed_views_are_of_different_cameras<P>(
    pending: Seq<(camera::Id, P, u64)>,
    cameras: Seq<camera::Id>,
)
    requires
        distinct_cameras(pending),
        cameras.len() <= usize::MAX,
    ensures
        forall|i: int, j: int|
            0 <= i < j < views_of(pending, cameras).len() ==> #[trigger] views_of(pending, cameras)[i].0
                != #[trigger] views_of(pending, cameras)[j].0,
        forall|i: int|
            0 <= i < views_of(pending, cameras).len() ==> exists|k: int|
                0 <= k < pending.len() && index_of(cameras, pending[k].0, 0) == Some(
                    #[trigger] views_of(pending, cameras)[i].0 as int,
                ),
    decreases pending.len(),
{
    if pending.len() > 0 {
        let front = pending.drop_last();
        assert(distinct_cameras(front)) by {
            assert forall|i: int, j: int| 0 <= i < j < front.len() implies #[trigger] front[i].0
                != #[trigger] front[j].0 by {
                assert(front[i] == pending[i] && front[j] == pending[j]);
            }
        }
        lemma_seed_views_are_of_different_cameras(front, cameras);
        let rest = views_of(front, cameras);
        let last = pending.last();
        assert forall|i: int| 0 <= i < rest.len() implies exists|k: int|
            0 <= k < pending.len() && index_of(cameras, pending[k].0, 0) == Some(
                #[trigger] rest[i].0 as int,
            ) by {
            let k = choose|k: int|
                0 <= k < front.len() && index_of(cameras, front[k].0, 0) == Some(rest[i].0 as int);
            assert(pending[k] == front[k]);
        }
        match index_of(cameras, last.0, 0) {
            Some(c) => {
                lemma_index_of_names(cameras, last.0, 0);
                let all = rest.push((c as usize, last.1, last.2));
                assert forall|i: int| 0 <= i < rest.len() implies #[trigger] rest[i].0 != c as usize by {
                    let k = choose|k: int|
                        0 <= k < front.len() && index_of(cameras, front[k].0, 0) == Some(
                            rest[i].0 as int,
                        );
                    lemma_index_of_names(cameras, front[k].0, 0);
                    assert(pending[k] == front[k]);
                    assert(pending[k].0 != pending[pending.len() - 1].0);
                }
                assert forall|i: int, j: int| 0 <= i < j < all.len() implies #[trigger] all[i].0
                    != #[trigger] all[j].0 by {
                    if j < rest.len() {
                        assert(all[i] == rest[i] && all[j] == rest[j]);
                    } else {
                        assert(all[i] == rest[i]);
                    }
                }
                assert forall|i: int| 0 <= i < all.len() implies exists|k: int|
                    0 <= k < pending.len() && index_of(cameras, pending[k].0, 0) == Some(
                        #[trigger] all[i].0 as int,
                    ) by {
                    if i < rest.len() {
                        assert(all[i] == rest[i]);
                    } else {
                        assert(index_of(cameras, pending[pending.len() - 1].0, 0) == Some(
                            all[i].0 as int,
                        ));
                    }
                }
            },
            None => {},
        }
    }
}

/// The measured state of the estimate `e` at `t`: spin is not estimated.
pub open spec fn state_of(e: Estimate, t: u64) -> State {
    State {
        t,
        position: e.position,
        velocity: e.velocity,
        sigma_position: e.sigma_position,
        sigma_velocity: e.sigma_velocity,
        spin: None,
    }
}

/// Every measured state, seeded or appended, is the filter's estimate as it
/// stands, field for field, at the time it was taken: its position and
/// velocity and their own uncertainties, and no spin.
pub proof fn lemma_measured_states_are_the_estimates(e: Estimate, t: u64)
    ensures
        state_of(e, t).t == t,
        state_of(e, t).position == e.position,
        state_of(e, t).velocity == e.velocity,
        state_of(e, t).sigma_position == e.sigma_position,
        state_of(e, t).sigma_velocity == e.sigma_velocity,
        state_of(e, t).spin is None,
{
}

/// The estimate of one ball by the filter.
pub struct Ekf<P, T: Trigger> {
    cameras: Vec<camera::Id>,
    trigger: T,
    seq: u64,
    /// One state per accepted detection, from the seed on.
    measured: Track,
    /// Integrated again after every correction once the trigger fired.
    predicted: Track,
    /// The trigger is a latch: once fired it holds until the track ends.
    predicting: bool,
    /// Detections waiting for another camera's, before the seed.
    pending: Vec<(camera::Id, P, u64)>,
    rejects: u32,
    recedes: u32,
    last_seen: Option<u64>,
    /// Where the detection in hand stands.
    phase: Phase<P>,
}

impl<P: Copy, T: Trigger> Ekf<P, T> {
    pub closed spec fn measured_seq(&self) -> Seq<State> {
        self.measured@
    }

    pub closed spec fn predicted_seq(&self) -> Seq<State> {
        self.predicted@
    }

    pub closed spec fn pending_seq(&self) -> Seq<(camera::Id, P, u64)> {
        self.pending@
    }

    pub closed spec fn is_predicting(&self) -> bool {
        self.predicting
    }

    pub closed spec fn reject_count(&self) -> u32 {
        self.rejects
    }

    pub closed spec fn recede_count(&self) -> u32 {
        self.recedes
    }

    pub closed spec fn last_seen_spec(&self) -> Option<u64> {
        self.last_seen
    }

    pub closed spec fn track_seq(&self) -> u64 {
        self.seq
    }

    pub closed spec fn camera_seq(&self) -> Seq<camera::Id> {
        self.cameras@
    }

    pub closed spec fn trigger_spec(&self) -> T {
        self.trigger
    }

    /// What always holds of the filter: the measured states in time order and
    /// none later than the last detection; a prediction only while predicting,
    /// starting at the last measured state; pending detections only before a
    /// seed and of distinct cameras; fewer rejects and turns back than their limits.
    pub open spec fn wf(&self) -> bool {
        &&& time_ordered(self.measured_seq())
        &&& (self.measured_seq().len() > 0 ==> (self.last_seen_spec() matches Some(last)
            && self.measured_seq().last().t <= last))
        &&& (self.predicted_seq().len() > 0 ==> self.is_predicting() && self.measured_seq().len() > 0
            && self.predicted_seq()[0] == self.measured_seq().last())
        &&& (self.measured_seq().len() > 0 ==> self.pending_seq().len() == 0)
        &&& distinct_cameras(self.pending_seq())
        &&& self.reject_count() < REJECT_LIMIT
        &&& self.recede_count() < RECEDE_LIMIT
    }

    /// Nothing of a ball is held: the state after a track ends.
    pub open spec fn is_clear(&self) -> bool {
        &&& self.measured_seq().len() == 0
        &&& self.predicted_seq().len() == 0
        &&& !self.is_predicting()
        &&& self.pending_seq().len() == 0
        &&& self.reject_count() == 0
        &&& self.recede_count() == 0
        &&& self.last_seen_spec() is None
    }

    /// `self` has the same configuration as `before`.
    pub open spec fn same_setup(&self, before: &Self) -> bool {
        &&& self.camera_seq() == before.camera_seq()
        &&& self.trigger_spec() == before.trigger_spec()
    }

    /// `self` is `before` with the track cleared and the sequence number advanced by one.
    pub open spec fn cleared_from(&self, before: &Self) -> bool {
        &&& self.is_clear()
        &&& self.track_seq() == before.track_seq() + 1
        &&& self.same_setup(before)
    }

    pub closed spec fn phase_spec(&self) -> Phase<P> {
        self.phase
    }

    /// `self` holds what `before` held of the ball.
    pub open spec fn holds_as(&self, before: &Self) -> bool {
        &&& self.measured_seq() == before.measured_seq()
        &&& self.predicted_seq() == before.predicted_seq()
        &&& self.is_predicting() == before.is_predicting()
        &&& self.pending_seq() == before.pending_seq()
        &&& self.reject_count() == before.reject_count()
        &&& self.recede_count() == before.recede_count()
        &&& self.last_seen_spec() == before.last_seen_spec()
        &&& self.track_seq() == before.track_seq()
        &&& self.same_setup(before)
    }

    /// `self` is `before` but for the last detection, seen at `t`, and the rejects.
    pub open spec fn kept_but_seen(&self, before: &Self, t: u64) -> bool {
        &&& self.measured_seq() == before.measured_seq()
        &&& self.predicted_seq() == before.predicted_seq()
        &&& self.is_predicting() == before.is_predicting()
        &&& self.pending_seq() == before.pending_seq()
        &&& self.recede_count() == before.recede_count()
        &&& self.track_seq() == before.track_seq()
        &&& self.last_seen_spec() == Some(t)
        &&& self.same_setup(before)
    }

    /// What the phase needs of the rest: seeding only before a track, from
    /// the views of the pending detections; a gate and an update only with a
    /// track, at or after its last detection; a prediction awaited only with
    /// the trigger fired, the old one dropped.
    pub open spec fn phase_ok(&self) -> bool {
        match self.phase_spec() {
            Phase::Ready => true,
            Phase::Pairs { views, a, b, candidates, point } => {
                &&& self.measured_seq().len() == 0
                &&& views@ == views_of(self.pending_seq(), self.camera_seq())
                &&& a < b < views@.len()
            },
            Phase::Starting { mid } => self.measured_seq().len() == 0,
            Phase::Gating { t } => self.measured_seq().len() > 0 && (self.last_seen_spec() matches Some(
                last,
            ) && last <= t),
            Phase::Updating { t } => self.measured_seq().len() > 0 && self.last_seen_spec() == Some(t),
            Phase::Integrating { t, ready } => {
                &&& self.measured_seq().len() > 0
                &&& self.predicted_seq().len() == 0
                &&& self.is_predicting() || ready
            },
            Phase::Resetting { outcome } => true,
        }
    }

    /// A filter with no ball yet, for the rig's cameras in the order that
    /// camera indices count.
    pub fn new(cameras: Vec<camera::Id>, trigger: T) -> (r: Self)
        ensures
            r.wf(),
            r.is_clear(),
            r.track_seq() == 0,
            r.camera_seq() == cameras@,
            r.trigger_spec() == trigger,
            r.phase_spec() is Ready,
    {
        Ekf {
            cameras,
            trigger,
            seq: 0,
            measured: Track(Vec::new()),
            predicted: Track(Vec::new()),
            predicting: false,
            pending: Vec::new(),
            rejects: 0,
            recedes: 0,
            last_seen: None,
            phase: Phase::Ready,
        }
    }

    /// `false` before the seed.
    pub fn has_track(&self) -> (r: bool)
        ensures
            r == (self.measured_seq().len() > 0),
    {
        self.measured.0.len() > 0
    }

    /// The number of the current ball; it grows by one every time a track ends.
    pub fn seq(&self) -> (r: u64)
        ensures
            r == self.track_seq(),
    {
        self.seq
    }

    /// The states so far; available before the trigger too. For tools.
    pub fn measured(&self) -> (r: &Track)
        requires
            self.wf(),
        ensures
            r@ == self.measured_seq(),
            time_ordered(r@),
    {
        &self.measured
    }

    /// The trajectory handed on, once the trigger fired and a prediction exists.
    ///
    /// `origin` comes from outside: the filter only knows times since the first frame.
    pub fn trajectory(&self, origin: std::time::Instant) -> (r: Option<Trajectory>)
        requires
            self.wf(),
        ensures
            match r {
                None => !self.is_predicting() || self.predicted_seq().len() == 0,
                Some(tr) => {
                    &&& self.is_predicting()
                    &&& self.predicted_seq().len() > 0
                    &&& tr.predicted@[0] == tr.measured@.last()
                    &&& tr.seq == self.track_seq()
                    &&& tr.origin == origin
                    &&& tr.measured@ == self.measured_seq()
                    &&& tr.predicted@ == self.predicted_seq()
                },
            },
    {
        if !self.predicting || self.predicted.0.len() == 0 {
            return None;
        }
        Some(
            Trajectory {
                seq: self.seq,
                origin,
                measured: copy_track(&self.measured),
                predicted: copy_track(&self.predicted),
            },
        )
    }

    /// Position of camera `camera_id` in the rig.
    fn camera_index(&self, camera_id: camera::Id) -> (r: Option<usize>)
        ensures
            match r {
                Some(i) => index_of(self.cameras@, camera_id, 0) == Some(i as int),
                None => index_of(self.cameras@, camera_id, 0) is None,
            },
    {
        let mut i: usize = 0;
        while i < self.cameras.len()
            invariant
                i <= self.cameras@.len(),
                index_of(self.cameras@, camera_id, 0) == index_of(self.cameras@, camera_id, i as int),
            decreases self.cameras@.len() - i,
        {
            if self.cameras[i] == camera_id {
                return Some(i);
            }
            i = i + 1;
        }
        None
    }

    /// One camera alone never seeds: before a seed, while only one camera
    /// detects the ball, each of its detections takes the place of the last
    /// one and is done with at once — no pair to triangulate, no track.
    pub proof fn lemma_one_camera_never_seeds(
        runs: Seq<Self>,
        camera_id: camera::Id,
        found: Seq<P>,
        t: Seq<u64>,
        a: Seq<Ask<P>>,
    )
        requires
            runs.len() == found.len() + 1,
            t.len() == found.len(),
            a.len() == found.len(),
            runs[0].measured_seq().len() == 0,
            forall|k: int| 0 <= k < runs[0].pending_seq().len() ==> (#[trigger] runs[0].pending_seq()[k]).0 == camera_id,
            forall|i: int|
                0 <= i < found.len() ==> runs[i + 1].observed_before_seed(&runs[i], camera_id, #[trigger] found[i], t[i], a[i]),
        ensures
            forall|i: int| 0 <= i < a.len() ==> #[trigger] a[i] == Ask::<P>::Done(Outcome::Idle),
            forall|i: int| 0 <= i < runs.len() ==> (#[trigger] runs[i]).measured_seq().len() == 0,
            forall|i: int, k: int|
                0 <= i < runs.len() && 0 <= k < runs[i].pending_seq().len() ==> (#[trigger] runs[i].pending_seq()[k]).0
                    == camera_id,
        decreases found.len(),
    {
        if found.len() > 0 {
            let n = found.len() - 1;
            let front = runs.drop_last();
            Self::lemma_one_camera_never_seeds(front, camera_id, found.drop_last(), t.drop_last(), a.drop_last());
            let before = runs[n];
            let after = runs[n + 1];
            assert(front[n] == before);
            assert(after.observed_before_seed(&before, camera_id, found[n], t[n], a[n]));
            assert forall|k: int| 0 <= k < before.pending_seq().len() implies (#[trigger] before.pending_seq()[k]).0
                == camera_id by {
                assert(front[n].pending_seq()[k] == before.pending_seq()[k]);
            }
            lemma_kept_pending_of_one_camera(before.pending_seq(), camera_id, t[n]);
            let waiting = kept_pending(before.pending_seq(), camera_id, t[n]).push((camera_id, found[n], t[n]));
            assert(waiting.drop_last() =~= Seq::<(camera::Id, P, u64)>::empty());
            assert(views_of(waiting.drop_last(), before.camera_seq()) =~= Seq::<(usize, P, u64)>::empty());
            assert(views_of(waiting, before.camera_seq()).len() < 2);
            assert forall|i: int| 0 <= i < a.len() implies #[trigger] a[i] == Ask::<P>::Done(Outcome::Idle) by {
                if i < n {
                    assert(a.drop_last()[i] == a[i]);
                }
            }
            assert forall|i: int| 0 <= i < runs.len() implies (#[trigger] runs[i]).measured_seq().len() == 0 by {
                if i < n + 1 {
                    assert(front[i] == runs[i]);
                }
            }
            assert forall|i: int, k: int|
                0 <= i < runs.len() && 0 <= k < runs[i].pending_seq().len() implies (#[trigger] runs[i].pending_seq()[k]).0
                    == camera_id by {
                if i < n + 1 {
                    assert(front[i] == runs[i]);
                } else {
                    assert(after.pending_seq() == waiting);
                }
            }
        }
    }

    /// What `observe` does with a detection `pixel` of camera `camera_id` at
    /// `t` before a seed: it waits with the detections of other cameras still
    /// fresh; with two views at least, their first pair is triangulated.
    pub open spec fn observed_before_seed(&self, before: &Self, camera_id: camera::Id, pixel: P, t: u64, a: Ask<P>) -> bool {
        let waiting = kept_pending(before.pending_seq(), camera_id, t).push((camera_id, pixel, t));
        let views = views_of(waiting, before.camera_seq());
        &&& before.measured_seq().len() == 0
        &&& self.pending_seq() == waiting
        &&& self.measured_seq().len() == 0
        &&& views.len() < 2 ==> a == Ask::<P>::Done(Outcome::Idle) && self.phase_spec() is Ready
        &&& views.len() >= 2 ==> a == Ask::Triangulate(views[0], views[1])
    }

    /// Takes in one detection: `found` is the pixel detected, `None` when
    /// nothing was. Without a track the detection waits, with those of other
    /// cameras still fresh, for a seed, which is tried once two cameras' views
    /// are pending: every pair of them is triangulated and scored. With a
    /// track, an unknown camera or a frame older than the last detection
    /// changes nothing, a silence of [`STALE_GAP`] ends the track, and
    /// otherwise the detection is gated against the state pushed to its time.
    pub fn observe(&mut self, camera_id: camera::Id, found: Option<P>, t: u64) -> (a: Ask<P>)
        requires
            old(self).wf(),
            old(self).phase_spec() is Ready,
            old(self).track_seq() < u64::MAX,
        ensures
            final(self).wf(),
            final(self).phase_ok(),
            final(self).same_setup(old(self)),
            // Nothing detected: nothing done.
            found is None ==> a == Ask::<P>::Done(Outcome::Idle) && *final(self) == *old(self),
            // Before the seed.
            match found {
                Some(pixel) => old(self).measured_seq().len() == 0 ==> final(self).observed_before_seed(
                    old(self),
                    camera_id,
                    pixel,
                    t,
                    a,
                ),
                None => true,
            },
            match found {
                Some(pixel) => old(self).measured_seq().len() == 0 ==> {
                    let waiting = kept_pending(old(self).pending_seq(), camera_id, t).push(
                        (camera_id, pixel, t),
                    );
                    let views = views_of(waiting, old(self).camera_seq());
                    &&& final(self).pending_seq() == waiting
                    &&& final(self).measured_seq() == old(self).measured_seq()
                    &&& final(self).predicted_seq() == old(self).predicted_seq()
                    &&& final(self).is_predicting() == old(self).is_predicting()
                    &&& final(self).reject_count() == old(self).reject_count()
                    &&& final(self).recede_count() == old(self).recede_count()
                    &&& final(self).last_seen_spec() == old(self).last_seen_spec()
                    &&& final(self).track_seq() == old(self).track_seq()
                    &&& views.len() < 2 ==> a == Ask::<P>::Done(Outcome::Idle) && final(self).phase_spec() is Ready
                    &&& views.len() >= 2 ==> a == Ask::Triangulate(views[0], views[1]) && (final(self).phase_spec() matches Phase::Pairs { views: vs, a: i, b: j, candidates: cs, point: q }
                        && vs@ == views && i == 0 && j == 1 && cs@.len() == 0 && q is None)
                },
                None => true,
            },
            // With a track.
            match found {
                Some(pixel) => old(self).measured_seq().len() > 0 ==> {
                    let last = old(self).last_seen_spec().unwrap();
                    let index = index_of(old(self).camera_seq(), camera_id, 0);
                    &&& (index is None || t < last) ==> a == Ask::<P>::Done(Outcome::Idle) && *final(self)
                        == *old(self)
                    &&& (index is Some && t >= last && t - last >= STALE_GAP) ==> a == Ask::<P>::Reset
                        && final(self).cleared_from(old(self)) && final(self).phase_spec() == Phase::<
                        P,
                    >::Resetting { outcome: Outcome::Idle }
                    &&& (index is Some && t >= last && t - last < STALE_GAP) ==> a == Ask::Correct(
                        (t - last) as u64,
                        index.unwrap() as usize,
                        pixel,
                    ) && final(self).holds_as(old(self)) && final(self).phase_spec() == Phase::<P>::Gating { t }
                },
                None => true,
            },
    {
        let pixel = match found {
            Some(p) => p,
            None => return Ask::Done(Outcome::Idle),
        };
        if self.measured.0.len() > 0 {
            let index = match self.camera_index(camera_id) {
                Some(i) => i,
                None => return Ask::Done(Outcome::Idle),
            };
            let last = match self.last_seen {
                Some(l) => l,
                None => return Ask::Done(Outcome::Idle),
            };
            // Frames out of order stop here.
            if t < last {
                return Ask::Done(Outcome::Idle);
            }
            let dt = t - last;
            if dt >= STALE_GAP {
                self.drop_track();
                self.phase = Phase::Resetting { outcome: Outcome::Idle };
                return Ask::Reset;
            }
            self.phase = Phase::Gating { t };
            return Ask::Correct(dt, index, pixel);
        }
        // A seed needs different lines of sight: the same camera's older detection goes.
        self.keep_pending(camera_id, t);
        let ghost kept = self.pending@;
        proof {
            lemma_kept_pending(old(self).pending@, camera_id, t);
            assert forall|i: int, j: int|
                0 <= i < j < kept.push((camera_id, pixel, t)).len() implies #[trigger] kept.push(
                (camera_id, pixel, t),
            )[i].0 != #[trigger] kept.push((camera_id, pixel, t))[j].0 by {
                if j == kept.len() {
                    assert(kept[i].0 != camera_id);
                } else {
                    assert(kept[i].0 != kept[j].0);
                }
            }
        }
        self.pending.push((camera_id, pixel, t));
        let views = self.views();
        if views.len() < 2 {
            return Ask::Done(Outcome::Idle);
        }
        let first = views[0];
        let second = views[1];
        self.phase = Phase::Pairs { views, a: 0, b: 1, candidates: Vec::new(), point: None };
        Ask::Triangulate(first, second)
    }

    /// Takes in the result of the last [`Ask`], which must be of the kind it
    /// asked for, and says what comes next.
    ///
    /// Seeding: a pair that does not meet leaves no candidate; one that does
    /// is scored by its votes; after the last pair the best candidate
    /// ([`best_seed`]) starts the track, at rest at the middle of the views'
    /// times, and no candidate leaves the detections waiting. Correcting: see
    /// [`Self::resume`]'s gate, acceptance and prediction clauses below.
    pub fn resume(&mut self, answer: Answer) -> (a: Ask<P>)
        requires
            old(self).wf(),
            old(self).phase_ok(),
            old(self).track_seq() < u64::MAX,
            fits(old(self).phase_spec(), answer),
        ensures
            final(self).wf(),
            final(self).phase_ok(),
            final(self).same_setup(old(self)),
            // Seeding: one pair scored.
            old(self).phase_spec() matches Phase::Pairs { views, a: i, b: j, candidates: cs, point } ==> {
                let n = views@.len() as int;
                let scored = match answer {
                    Answer::Point(None) => Some(cs@.push(None)),
                    Answer::Votes(v, w) => Some(
                        cs@.push(Some(SeedCandidate { point: point.unwrap(), votes: v, worst: w })),
                    ),
                    _ => None,
                };
                &&& final(self).holds_as(old(self))
                &&& answer matches Answer::Point(Some(q)) ==> (a matches Ask::Agree(vs, p) && vs@ == views@
                    && p == q) && (final(self).phase_spec() matches Phase::Pairs {
                    views: vs2,
                    a: i2,
                    b: j2,
                    candidates: cs2,
                    point: p2,
                } && vs2@ == views@ && i2 == i && j2 == j && cs2@ == cs@ && p2 == Some(q))
                &&& scored matches Some(c) ==> match next_pair(i as int, j as int, n) {
                    Some((i2, j2)) => a == Ask::Triangulate(views@[i2], views@[j2]) && (final(self).phase_spec() matches Phase::Pairs {
                        views: vs2,
                        a: i3,
                        b: j3,
                        candidates: cs2,
                        point: p2,
                    } && vs2@ == views@ && i3 == i2 && j3 == j2 && cs2@ == c && p2 is None),
                    None => match best_seed(c) {
                        None => a == Ask::<P>::Done(Outcome::Idle) && final(self).phase_spec() is Ready,
                        Some(q) => a == Ask::<P>::Start(q, skew_of(views@) as u64) && final(self).phase_spec()
                            == Phase::<P>::Starting { mid: seed_time(views@) as u64 },
                    },
                }
            },
            // The seed started: one state, at rest, at the middle of the views' times.
            old(self).phase_spec() matches Phase::Starting { mid } ==> answer matches Answer::Estimate(e)
                && a == Ask::<P>::Done(Outcome::Seeded) && final(self).phase_spec() is Ready
                && final(self).measured_seq() == seq![state_of(e, mid)] && final(self).pending_seq().len() == 0
                && final(self).reject_count() == 0 && final(self).recede_count() == 0
                && final(self).last_seen_spec() == Some(mid) && final(self).predicted_seq()
                == old(self).predicted_seq() && final(self).is_predicting() == old(self).is_predicting()
                && final(self).track_seq() == old(self).track_seq(),
            // Gating: behind the camera nothing is corrected; beyond GATE_CHI2 the
            // detection is rejected, and REJECT_LIMIT rejects in a row end the
            // track; otherwise it passes on to the update.
            old(self).phase_spec() matches Phase::Gating { t } ==> answer matches Answer::Distance(d2) && match d2 {
                None => a == Ask::<P>::Done(Outcome::Idle) && final(self).phase_spec() is Ready
                    && final(self).kept_but_seen(old(self), t) && final(self).reject_count()
                    == old(self).reject_count(),
                Some(d) => if d > GATE_CHI2 {
                    if old(self).reject_count() + 1 >= REJECT_LIMIT {
                        a == Ask::<P>::Reset && final(self).cleared_from(old(self))
                            && final(self).phase_spec() == Phase::<P>::Resetting { outcome: Outcome::Rejected { d2: d } }
                    } else {
                        a == Ask::<P>::Done(Outcome::Rejected { d2: d }) && final(self).phase_spec() is Ready
                            && final(self).kept_but_seen(old(self), t) && final(self).reject_count()
                            == old(self).reject_count() + 1
                    }
                } else {
                    a == Ask::<P>::Update && final(self).phase_spec() == Phase::<P>::Updating { t }
                        && final(self).kept_but_seen(old(self), t) && final(self).reject_count() == 0
                },
            },
            // Acceptance: the state at `t` is the corrected estimate; turning back
            // RECEDE_LIMIT times in a row or leaving the volume ends the track;
            // otherwise it is appended, and a prediction follows once the trigger fired.
            old(self).phase_spec() matches Phase::Updating { t } ==> answer matches Answer::Estimate(e) && {
                let s = state_of(e, t);
                let recedes = if s.position.y > old(self).measured_seq().last().position.y + RECEDE_STEP {
                    old(self).recede_count() + 1
                } else {
                    0
                };
                let ended = recedes >= RECEDE_LIMIT || outside_volume_spec(s.position);
                &&& ended ==> a == Ask::<P>::Reset && final(self).cleared_from(old(self))
                    && final(self).phase_spec() == Phase::<P>::Resetting { outcome: Outcome::Accepted }
                &&& !ended ==> {
                    &&& final(self).measured_seq() == old(self).measured_seq().push(s)
                    &&& final(self).recede_count() == recedes
                    &&& final(self).pending_seq() == old(self).pending_seq()
                    &&& final(self).reject_count() == old(self).reject_count()
                    &&& final(self).last_seen_spec() == old(self).last_seen_spec()
                    &&& final(self).track_seq() == old(self).track_seq()
                    &&& final(self).predicted_seq().len() == 0
                    &&& final(self).is_predicting() == old(self).is_predicting()
                    &&& a == Ask::<P>::Integrate(t) || (a == Ask::<P>::Done(Outcome::Accepted)
                        && !old(self).is_predicting() && final(self).phase_spec() is Ready)
                    &&& a == Ask::<P>::Integrate(t) ==> (final(self).phase_spec() matches Phase::Integrating {
                        t: t2,
                        ready,
                    } && t2 == t)
                }
            },
            // The prediction: the trigger latches, and the prediction is the last
            // state followed by the integrated flight.
            old(self).phase_spec() matches Phase::Integrating { t, ready } ==> answer matches Answer::Track(ahead)
                && a == Ask::<P>::Done(Outcome::Accepted) && final(self).phase_spec() is Ready
                && final(self).is_predicting() && final(self).predicted_seq() == seq![
                old(self).measured_seq().last(),
            ] + ahead@ && final(self).measured_seq() == old(self).measured_seq()
                && final(self).pending_seq() == old(self).pending_seq() && final(self).reject_count()
                == old(self).reject_count() && final(self).recede_count() == old(self).recede_count()
                && final(self).last_seen_spec() == old(self).last_seen_spec() && final(self).track_seq()
                == old(self).track_seq(),
            // The filter was reset: the outcome held back is reported.
            old(self).phase_spec() matches Phase::Resetting { outcome } ==> a == Ask::<P>::Done(outcome)
                && final(self).phase_spec() is Ready && final(self).holds_as(old(self)),
    {
        let mut phase = Phase::Ready;
        std::mem::swap(&mut phase, &mut self.phase);
        match phase {
            Phase::Ready => Ask::Done(Outcome::Idle),
            Phase::Pairs { views, a, b, mut candidates, point } => {
                match (point, answer) {
                    (None, Answer::Point(Some(q))) => {
                        let ask = Ask::Agree(copied(&views), q);
                        self.phase = Phase::Pairs { views, a, b, candidates, point: Some(q) };
                        return ask;
                    },
                    (None, Answer::Point(None)) => {
                        candidates.push(None);
                    },
                    (Some(q), Answer::Votes(votes, worst)) => {
                        candidates.push(Some(SeedCandidate { point: q, votes, worst }));
                    },
                    _ => {
                        return Ask::Done(Outcome::Idle);
                    },
                }
                self.after_pair(views, a, b, candidates)
            },
            Phase::Starting { mid } => {
                let e = match answer {
                    Answer::Estimate(e) => e,
                    _ => return Ask::Done(Outcome::Idle),
                };
                self.rejects = 0;
                self.recedes = 0;
                self.last_seen = Some(mid);
                let s = State {
                    t: mid,
                    position: e.position,
                    velocity: e.velocity,
                    sigma_position: e.sigma_position,
                    sigma_velocity: e.sigma_velocity,
                    spin: None,
                };
                self.measured = Track(vec![s]);
                self.pending = Vec::new();
                Ask::Done(Outcome::Seeded)
            },
            Phase::Gating { t } => {
                let d2 = match answer {
                    Answer::Distance(d2) => d2,
                    _ => return Ask::Done(Outcome::Idle),
                };
                match self.gate(t, d2) {
                    Some(r) => {
                        if self.measured.0.len() == 0 {
                            self.phase = Phase::Resetting { outcome: r };
                            Ask::Reset
                        } else {
                            Ask::Done(r)
                        }
                    },
                    None => {
                        self.phase = Phase::Updating { t };
                        Ask::Update
                    },
                }
            },
            Phase::Updating { t } => {
                let e = match answer {
                    Answer::Estimate(e) => e,
                    _ => return Ask::Done(Outcome::Idle),
                };
                if self.accept(t, e) {
                    self.phase = Phase::Resetting { outcome: Outcome::Accepted };
                    return Ask::Reset;
                }
                // The trigger says from when to predict, not when to predict once: a
                // frozen prediction would ignore every better observation after it.
                let ready = self.trigger.ready(&Evidence::of(self.measured.0.as_slice()));
                if self.predicting || ready {
                    self.phase = Phase::Integrating { t, ready };
                    Ask::Integrate(t)
                } else {
                    Ask::Done(Outcome::Accepted)
                }
            },
            Phase::Integrating { t, ready } => {
                let ahead = match answer {
                    Answer::Track(ahead) => ahead,
                    _ => return Ask::Done(Outcome::Idle),
                };
                self.predict_on(ready, &ahead);
                Ask::Done(Outcome::Accepted)
            },
            Phase::Resetting { outcome } => Ask::Done(outcome),
        }
    }

    /// After pair `(a, b)` was scored into `candidates`: the next pair, or,
    /// after the last, the best candidate started, or the detections left waiting.
    fn after_pair(
        &mut self,
        views: Vec<(usize, P, u64)>,
        a: usize,
        b: usize,
        candidates: Vec<Option<SeedCandidate>>,
    ) -> (r: Ask<P>)
        requires
            old(self).wf(),
            old(self).phase_spec() is Ready,
            old(self).measured@.len() == 0,
            views@ == views_of(old(self).pending@, old(self).cameras@),
            a < b < views@.len(),
        ensures
            final(self).wf(),
            final(self).phase_ok(),
            final(self).holds_as(old(self)),
            match next_pair(a as int, b as int, views@.len() as int) {
                Some((i2, j2)) => r == Ask::Triangulate(views@[i2], views@[j2]) && (final(self).phase_spec() matches Phase::Pairs {
                    views: vs2,
                    a: i3,
                    b: j3,
                    candidates: cs2,
                    point: p2,
                } && vs2@ == views@ && i3 == i2 && j3 == j2 && cs2@ == candidates@ && p2 is None),
                None => match best_seed(candidates@) {
                    None => r == Ask::<P>::Done(Outcome::Idle) && final(self).phase_spec() is Ready,
                    Some(q) => r == Ask::<P>::Start(q, skew_of(views@) as u64) && final(self).phase_spec()
                        == Phase::<P>::Starting { mid: seed_time(views@) as u64 },
                },
            },
    {
        let n = views.len();
        let (a2, b2) = if b + 1 < n {
            (a, b + 1)
        } else if a + 2 < n {
            (a + 1, a + 2)
        } else {
            // Every pair was scored.
            return match seed_state(candidates.as_slice()) {
                None => Ask::Done(Outcome::Idle),
                Some(point) => {
                    let skew_ns = super::seed::skew(views.as_slice());
                    let mid = midpoint(views.as_slice());
                    self.phase = Phase::Starting { mid };
                    Ask::Start(point, skew_ns)
                },
            };
        };
        let first = views[a2];
        let second = views[b2];
        self.phase = Phase::Pairs { views, a: a2, b: b2, candidates, point: None };
        Ask::Triangulate(first, second)
    }

    /// Keeps the pending detections of other cameras at most [`PENDING_TTL`] old at `t`.
    fn keep_pending(&mut self, camera_id: camera::Id, t: u64)
        ensures
            final(self).pending@ == kept_pending(old(self).pending@, camera_id, t),
            final(self).phase == old(self).phase,
            final(self).measured == old(self).measured,
            final(self).predicted == old(self).predicted,
            final(self).predicting == old(self).predicting,
            final(self).rejects == old(self).rejects,
            final(self).recedes == old(self).recedes,
            final(self).last_seen == old(self).last_seen,
            final(self).seq == old(self).seq,
            final(self).same_setup(old(self)),
    {
        let mut kept: Vec<(camera::Id, P, u64)> = Vec::new();
        let mut i: usize = 0;
        assert(self.pending@.take(0) =~= Seq::<(camera::Id, P, u64)>::empty());
        while i < self.pending.len()
            invariant
                i <= self.pending@.len(),
                kept@ == kept_pending(self.pending@.take(i as int), camera_id, t),
            decreases self.pending@.len() - i,
        {
            let p = self.pending[i];
            proof {
                assert(self.pending@.take(i + 1).drop_last() =~= self.pending@.take(i as int));
            }
            let age: u64 = if t >= p.2 {
                t - p.2
            } else {
                0
            };
            if p.0 != camera_id && age <= PENDING_TTL {
                kept.push(p);
            }
            i = i + 1;
        }
        assert(self.pending@.take(self.pending@.len() as int) =~= self.pending@);
        self.pending = kept;
    }

    /// The pending detections of the rig's cameras, by camera index.
    fn views(&self) -> (r: Vec<(usize, P, u64)>)
        ensures
            r@ == views_of(self.pending@, self.cameras@),
    {
        let mut out: Vec<(usize, P, u64)> = Vec::new();
        let mut i: usize = 0;
        assert(self.pending@.take(0) =~= Seq::<(camera::Id, P, u64)>::empty());
        while i < self.pending.len()
            invariant
                i <= self.pending@.len(),
                out@ == views_of(self.pending@.take(i as int), self.cameras@),
            decreases self.pending@.len() - i,
        {
            let p = self.pending[i];
            proof {
                assert(self.pending@.take(i + 1).drop_last() =~= self.pending@.take(i as int));
            }
            match self.camera_index(p.0) {
                Some(c) => out.push((c, p.1, p.2)),
                None => {},
            }
            i = i + 1;
        }
        assert(self.pending@.take(self.pending@.len() as int) =~= self.pending@);
        out
    }

    /// Decides on one detection at time `t` by its squared distance `d2` from
    /// the prediction; `d2` is `None` when the ball is behind the camera, and
    /// then nothing is corrected: `Idle`. Beyond [`GATE_CHI2`] the detection is
    /// rejected, and [`REJECT_LIMIT`] rejects in a row end the track. Otherwise
    /// it passes (`None`) and the rejects start over. Either way the detection
    /// was seen at `t`.
    fn gate(&mut self, t: u64, d2: Option<u64>) -> (r: Option<Outcome>)
        requires
            old(self).phase is Ready,
            old(self).wf(),
            old(self).measured@.len() > 0,
            old(self).seq < u64::MAX,
            old(self).last_seen matches Some(last) && last <= t,
        ensures
            final(self).phase == old(self).phase,
            final(self).wf(),
            final(self).same_setup(old(self)),
            match d2 {
                None => r == Some(Outcome::Idle) && final(self).kept_but_seen(old(self), t)
                    && final(self).rejects == old(self).rejects,
                Some(d) => if d > GATE_CHI2 {
                    &&& r == Some(Outcome::Rejected { d2: d })
                    &&& if old(self).rejects + 1 >= REJECT_LIMIT {
                        final(self).cleared_from(old(self))
                    } else {
                        final(self).kept_but_seen(old(self), t) && final(self).rejects == old(
                            self,
                        ).rejects + 1
                    }
                } else {
                    r is None && final(self).kept_but_seen(old(self), t) && final(self).rejects == 0
                },
            },
    {
        match d2 {
            None => {
                self.last_seen = Some(t);
                Some(Outcome::Idle)
            },
            Some(d) => {
                if d > GATE_CHI2 {
                    self.last_seen = Some(t);
                    if self.rejects + 1 >= REJECT_LIMIT {
                        self.drop_track();
                    } else {
                        self.rejects = self.rejects + 1;
                    }
                    Some(Outcome::Rejected { d2: d })
                } else {
                    self.rejects = 0;
                    self.last_seen = Some(t);
                    None
                }
            },
        }
    }

    /// Takes in the filter's estimate `e` after the correction at `t`: the
    /// state at `t`. Turning back (moving away from the robot by more than
    /// [`RECEDE_STEP`]) [`RECEDE_LIMIT`] times in a row, or leaving the volume
    /// around the table, ends the track (`true`); otherwise the state is
    /// appended, and the prediction, which started at the state before, is
    /// dropped until it is made again.
    fn accept(&mut self, t: u64, e: Estimate) -> (ended: bool)
        requires
            old(self).phase is Ready,
            old(self).wf(),
            old(self).measured@.len() > 0,
            old(self).seq < u64::MAX,
            old(self).last_seen == Some(t),
        ensures
            final(self).phase == old(self).phase,
            final(self).wf(),
            final(self).same_setup(old(self)),
            ({
                let s = state_of(e, t);
                let recedes = if s.position.y > old(self).measured@.last().position.y + RECEDE_STEP {
                    old(self).recedes + 1
                } else {
                    0
                };
                &&& ended == (recedes >= RECEDE_LIMIT || outside_volume_spec(s.position))
                &&& ended ==> final(self).cleared_from(old(self))
                &&& !ended ==> {
                    &&& final(self).measured@ == old(self).measured@.push(s)
                    &&& final(self).recedes == recedes
                    &&& final(self).predicted@.len() == 0
                    &&& final(self).predicting == old(self).predicting
                    &&& final(self).pending == old(self).pending
                    &&& final(self).rejects == old(self).rejects
                    &&& final(self).seq == old(self).seq
                    &&& final(self).last_seen == old(self).last_seen
                }
            }),
    {
        let state = State {
            t,
            position: e.position,
            velocity: e.velocity,
            sigma_position: e.sigma_position,
            sigma_velocity: e.sigma_velocity,
            spin: None,
        };
        let n = self.measured.0.len();
        let previous = self.measured.0[n - 1];
        let receding = state.position.y as i64 > previous.position.y as i64 + RECEDE_STEP as i64;
        let recedes = if receding {
            self.recedes + 1
        } else {
            0
        };
        let p = state.position;
        let outside = p.y < -super::fit::VOLUME_MARGIN || p.y > super::fit::TABLE_LENGTH_Y
            + super::fit::VOLUME_MARGIN || p.x < -super::fit::VOLUME_MARGIN || p.x
            > super::fit::TABLE_WIDTH_X + super::fit::VOLUME_MARGIN;
        if recedes >= RECEDE_LIMIT || outside {
            self.drop_track();
            return true;
        }
        self.recedes = recedes;
        let ghost before = self.measured@;
        self.measured.0.push(state);
        self.predicted = Track(Vec::new());
        proof {
            assert(self.measured@.drop_last() =~= before);
            assert(time_ordered(self.measured@)) by {
                assert forall|a: int, b: int| 0 <= a <= b < self.measured@.len() implies
                    #[trigger] self.measured@[a].t <= #[trigger] self.measured@[b].t by {
                    if b < before.len() {
                        assert(before[a].t <= before[b].t);
                    } else if a < before.len() {
                        assert(before[a].t <= before[before.len() - 1].t);
                    }
                }
            }
        }
        false
    }

    /// Takes in the trigger's answer `ready` and the flight integrated on
    /// from the last state, `ahead`. The trigger latches; while it holds, the
    /// prediction is the last measured state followed by `ahead`.
    fn predict_on(&mut self, ready: bool, ahead: &Track)
        requires
            old(self).wf(),
            old(self).measured@.len() > 0,
        ensures
            final(self).phase == old(self).phase,
            final(self).wf(),
            final(self).same_setup(old(self)),
            final(self).predicting == (old(self).predicting || ready),
            final(self).predicted@ == (if old(self).predicting || ready {
                seq![old(self).measured@.last()] + ahead@
            } else {
                old(self).predicted@
            }),
            final(self).measured == old(self).measured,
            final(self).pending == old(self).pending,
            final(self).rejects == old(self).rejects,
            final(self).recedes == old(self).recedes,
            final(self).seq == old(self).seq,
            final(self).last_seen == old(self).last_seen,
    {
        self.predicting = self.predicting || ready;
        if self.predicting {
            let n = self.measured.0.len();
            self.predicted = starting_at(self.measured.0[n - 1], ahead);
        }
    }

    /// Ends the track: gated detections in a row, a silence, turning back,
    /// leaving the volume. A detection in hand is dropped with it; the caller
    /// puts its filter back to rest.
    pub fn drop_track(&mut self)
        requires
            old(self).track_seq() < u64::MAX,
        ensures
            final(self).phase_spec() is Ready,
            final(self).cleared_from(old(self)),
            final(self).wf(),
    {
        self.phase = Phase::Ready;
        self.measured = Track(Vec::new());
        self.predicted = Track(Vec::new());
        self.predicting = false;
        self.pending = Vec::new();
        self.rejects = 0;
        self.recedes = 0;
        self.last_seen = None;
        self.seq = self.seq + 1;
    }
}

} // verus!
