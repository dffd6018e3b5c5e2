//! The decisions the simulated rig takes for one shot, every physics tick:
//! whether to look for an intercept at all, which way to plan it, when to hand
//! it to the background bang-bang planner and play what comes back, and when
//! the ball has left play and goes back to the shooter.
//!
//! The predictions, the plans and the physics are the caller's work; this
//! module gets what they yield as plain values and says what to do next.
use vstd::prelude::*;
use crate::sim::bang_bang_worker::{answer_for, BangBangRequests};
use crate::vision::contract::Vec3;
use crate::vision::fit::{TABLE_LENGTH_Y, TABLE_SURFACE_Z, TABLE_WIDTH_X};

verus! {

/// Least time between two swing attempts of one flight [ns].
pub const SWING_RETRY_THROTTLE: u64 = 20_000_000;

/// How far beyond the table's edges a ball is still in play [µm].
pub const OUT_MARGIN: i32 = 150_000;

/// Below this height the ball is on the floor [µm].
pub const FLOOR_Z: i32 = 350_000;

/// A ball on the table slower than this has come to rest [µm/s].
pub const REST_SPEED: i32 = 10_000;

/// How far above the surface a resting ball may lie [µm].
pub const REST_HEIGHT: i32 = 50_000;

/// Longest flight before the ball is taken back whatever it does [ns].
pub const MAX_FLIGHT: u64 = 4_000_000_000;

/// The swing state of the ball in flight.
#[derive(Debug, Clone, Copy, PartialEq, Eq, Structural)]
pub struct Shot {
    /// A swing was committed for this ball.
    pub committed: bool,
    /// The committed plan was made late enough to count as final.
    pub refined: bool,
    /// The swing was given up (the ball touched the net).
    pub abandoned: bool,
    /// Sim time of the launch [ns].
    pub flight_started_at: u64,
    /// Sim time of the last swing attempt, if any in this flight [ns].
    pub last_attempt_at: Option<u64>,
    /// Failed plans in a row.
    pub hard_fail_streak: u32,
}

/// How the rig swings.
#[derive(Debug, Clone, Copy, PartialEq, Eq, Structural)]
pub struct SwingMode {
    /// Plan from the simulator's true ball state (else only show the marker).
    pub use_ground_truth: bool,
    /// Plan torque bang-bang swings on the background planner.
    pub use_bang_bang_swing: bool,
    /// Replay the fixed swing dictionary instead of planning.
    pub use_fixed_swing_dictionary: bool,
    /// Observation time after launch from which a plan counts as final [ns].
    pub refined_min_observation: u64,
    /// Shortest time to impact at which a bang-bang swing may start [ns].
    pub min_swing: u64,
    /// Longest time to impact at which a bang-bang swing may start [ns].
    pub commit_max: u64,
    /// The ball has passed mid-court once its y is at most this [µm].
    pub commit_max_ball_y: i32,
}

/// What to do before any prediction is made.
#[derive(Debug, Clone, Copy, PartialEq, Eq, Structural)]
pub enum Look {
    /// The ball is not in flight: clear the timing diagnostics.
    Idle,
    /// The ball touched the net: the swing is given up.
    Abandon,
    /// Only refresh the debug marker.
    MarkerOnly,
    /// Predict every hit plane, then [`Shot::decide`].
    Scan,
}

/// What to do with the predictions of the hit planes.
#[derive(Debug, Clone, Copy, PartialEq, Eq, Structural)]
pub enum Next {
    /// No hit plane is reached: nothing to do.
    NoPrediction,
    /// Bang-bang mode, and no hit plane in its commit window yet.
    WaitWindow,
    /// Bang-bang mode: poll and feed the background planner with [`Shot::advance_bang_bang`].
    BangBang,
    /// Fixed-dictionary mode, with a swing already committed or under way.
    Busy,
    /// Fixed-dictionary mode: aim at the prediction at this index, the most imminent.
    FixedDictionary { soonest: usize },
    /// Plan the best reachable intercept now; the attempt is recorded.
    Plan,
}

/// The outcome of [`Shot::decide`].
#[derive(Debug, Clone, Copy, PartialEq, Eq, Structural)]
pub struct Decision {
    /// The ball has not passed mid-court yet: show the first prediction.
    pub before_midcourt: bool,
    pub next: Next,
}

/// A bang-bang answer that was not played.
#[derive(Debug, Clone, Copy, PartialEq, Eq)]
pub enum Dropped<E> {
    /// The plan came back after its own duration had passed.
    Late { elapsed: u64, duration: u64 },
    /// The planner found no swing.
    Failed(E),
}

/// What to do with the background planner this tick.
#[derive(Debug, Clone, Copy, PartialEq, Eq)]
pub enum BangBangNext<P> {
    /// Play `plan` from `skip` nanoseconds into it: the time its computation took.
    Commit { plan: P, skip: u64 },
    /// The request is still being computed.
    Wait,
    /// Too soon after the last attempt to ask again.
    Throttled,
    /// Send a new request for the current predictions; the attempt is recorded.
    Submit,
}

/// The outcome of [`Shot::advance_bang_bang`].
#[derive(Debug, Clone, Copy, PartialEq, Eq)]
pub struct BangBangTick<P, E> {
    pub dropped: Option<Dropped<E>>,
    pub next: BangBangNext<P>,
}

/// Why a ball in flight goes back to the shooter; none of them, it flies on.
#[derive(Debug, Clone, Copy, PartialEq, Eq, Structural)]
pub struct ParkCause {
    /// Off the table's sides or ends, or down on the floor.
    pub out: bool,
    /// Lying still on the table.
    pub resting: bool,
    /// In the air for longer than [`MAX_FLIGHT`].
    pub timed_out: bool,
}

/// `now - earlier`, or zero when `earlier` is later.
pub open spec fn elapsed(earlier: u64, now: u64) -> int {
    if now >= earlier {
        now - earlier
    } else {
        0
    }
}

/// A refined plan may still replace the committed one.
pub open spec fn refine_due(s: Shot, mode: SwingMode, now: u64) -> bool {
    s.committed && !s.refined && now - s.flight_started_at >= mode.refined_min_observation
}

/// Less than [`SWING_RETRY_THROTTLE`] since the last attempt.
pub open spec fn throttled(last: Option<u64>, now: u64) -> bool {
    match last {
        None => false,
        Some(at) => now - at < SWING_RETRY_THROTTLE,
    }
}

/// The first decision of a tick; see [`Shot::look`].
pub open spec fn look_spec(
    s: Shot,
    mode: SwingMode,
    in_flight: bool,
    net_fault: bool,
    robot_swinging: bool,
    now: u64,
) -> Look {
    if !in_flight {
        Look::Idle
    } else if net_fault {
        Look::Abandon
    } else if !mode.use_ground_truth {
        Look::MarkerOnly
    } else if s.abandoned || ((s.committed || robot_swinging) && !refine_due(s, mode, now)) {
        Look::MarkerOnly
    } else if !mode.use_bang_bang_swing && throttled(s.last_attempt_at, now) {
        Look::MarkerOnly
    } else {
        Look::Scan
    }
}

/// A bang-bang swing may start with this time to impact.
pub open spec fn in_window(mode: SwingMode, tti: u64) -> bool {
    mode.min_swing <= tti <= mode.commit_max
}

/// Index of the first of the least times.
pub open spec fn is_soonest(times: Seq<u64>, k: int) -> bool {
    &&& 0 <= k < times.len()
    &&& forall|i: int| 0 <= i < times.len() ==> times[k] <= #[trigger] times[i]
    &&& forall|i: int| 0 <= i < k ==> times[k] < #[trigger] times[i]
}

/// The decision on the predictions; see [`Shot::decide`].
pub open spec fn next_spec(
    s: Shot,
    mode: SwingMode,
    robot_swinging: bool,
    times_to_impact: Seq<u64>,
) -> Next {
    if times_to_impact.len() == 0 {
        Next::NoPrediction
    } else if mode.use_bang_bang_swing {
        if exists|i: int| 0 <= i < times_to_impact.len() && in_window(mode, #[trigger] times_to_impact[i]) {
            Next::BangBang
        } else {
            Next::WaitWindow
        }
    } else if mode.use_fixed_swing_dictionary {
        if s.committed || robot_swinging {
            Next::Busy
        } else {
            Next::FixedDictionary { soonest: choose|k: usize| is_soonest(times_to_impact, k as int) }
        }
    } else {
        Next::Plan
    }
}

/// In bang-bang mode the background planner is fed exactly when some hit
/// plane — any of them, not only the first or the last — is reached within the
/// commit window `[min_swing, commit_max]`; otherwise the shot waits for one.
pub proof fn lemma_bang_bang_commits_on_any_prediction_in_the_window(
    s: Shot,
    mode: SwingMode,
    robot_swinging: bool,
    times_to_impact: Seq<u64>,
)
    requires
        mode.use_bang_bang_swing,
        times_to_impact.len() > 0,
    ensures
        next_spec(s, mode, robot_swinging, times_to_impact) == (if exists|i: int|
            0 <= i < times_to_impact.len() && mode.min_swing <= #[trigger] times_to_impact[i]
                <= mode.commit_max {
            Next::BangBang
        } else {
            Next::WaitWindow
        }),
{
}

/// What a bang-bang answer leaves unplayed.
pub open spec fn dropped_spec<P, E>(got: Option<(u64, Result<(P, u64), E>)>, now: u64) -> Option<
    Dropped<E>,
> {
    match got {
        Some((at, Ok((_, duration)))) => if elapsed(at, now) >= duration {
            Some(Dropped::Late { elapsed: elapsed(at, now) as u64, duration })
        } else {
            None
        },
        Some((_, Err(e))) => Some(Dropped::Failed(e)),
        None => None,
    }
}

/// The answer is a plan with time left to play.
pub open spec fn playable<P, E>(got: Option<(u64, Result<(P, u64), E>)>, now: u64) -> bool {
    got matches Some((at, Ok((_, duration)))) && elapsed(at, now) < duration
}

/// Off the table by more than [`OUT_MARGIN`], or below [`FLOOR_Z`].
pub open spec fn out_spec(p: Vec3) -> bool {
    p.x < -OUT_MARGIN || p.x > TABLE_WIDTH_X + OUT_MARGIN || p.y < -OUT_MARGIN || p.y
        > TABLE_LENGTH_Y + OUT_MARGIN || p.z < FLOOR_Z
}

/// Slower than [`REST_SPEED`] and within [`REST_HEIGHT`] of the surface.
pub open spec fn resting_spec(p: Vec3, v: Vec3) -> bool {
    v.x * v.x + v.y * v.y + v.z * v.z < REST_SPEED * REST_SPEED && p.z < TABLE_SURFACE_Z
        + REST_HEIGHT
}

impl ParkCause {
    /// Some cause holds: park the ball.
    pub fn any(&self) -> (r: bool)
        ensures
            r == (self.out || self.resting || self.timed_out),
    {
        self.out || self.resting || self.timed_out
    }
}

/// Why the ball at `position` with `velocity`, launched at `flight_started_at`,
/// leaves play at `now` — off the table by more than [`OUT_MARGIN`] or below
/// [`FLOOR_Z`]; lying still on the table; or flying for over [`MAX_FLIGHT`].
pub fn park_cause(position: Vec3, velocity: Vec3, flight_started_at: u64, now: u64) -> (r: ParkCause)
    ensures
        r.out == out_spec(position),
        r.resting == resting_spec(position, velocity),
        r.timed_out == (now - flight_started_at > MAX_FLIGHT),
{
    let p = position;
    let out = p.x < -OUT_MARGIN || p.x > TABLE_WIDTH_X + OUT_MARGIN || p.y < -OUT_MARGIN || p.y
        > TABLE_LENGTH_Y + OUT_MARGIN || p.z < FLOOR_Z;
    let (vx, vy, vz) = (velocity.x as i128, velocity.y as i128, velocity.z as i128);
    assert(vx * vx <= 0x4000_0000_0000_0000 && vy * vy <= 0x4000_0000_0000_0000 && vz * vz
        <= 0x4000_0000_0000_0000) by (nonlinear_arith)
        requires
            -0x8000_0000 <= vx <= 0x8000_0000,
            -0x8000_0000 <= vy <= 0x8000_0000,
            -0x8000_0000 <= vz <= 0x8000_0000,
    ;
    assert(vx * vx >= 0 && vy * vy >= 0 && vz * vz >= 0) by (nonlinear_arith);
    let rest = REST_SPEED as i128;
    let resting = vx * vx + vy * vy + vz * vz < rest * rest && p.z < TABLE_SURFACE_Z + REST_HEIGHT;
    let timed_out = now > flight_started_at && now - flight_started_at > MAX_FLIGHT;
    ParkCause { out, resting, timed_out }
}

/// First index of the least of `times`, which is not empty.
fn soonest(times: &[u64]) -> (r: usize)
    requires
        times@.len() > 0,
    ensures
        is_soonest(times@, r as int),
{
    let mut best: usize = 0;
    let mut i: usize = 1;
    while i < times.len()
        invariant
            0 < i <= times@.len(),
            best < i,
            forall|j: int| 0 <= j < i ==> times@[best as int] <= #[trigger] times@[j],
            forall|j: int| 0 <= j < best ==> times@[best as int] < #[trigger] times@[j],
        decreases times@.len() - i,
    {
        if times[i] < times[best] {
            best = i;
        }
        i = i + 1;
    }
    best
}

/// The first of the least times is the only index that is it.
proof fn lemma_soonest_unique(times: Seq<u64>, a: int, b: int)
    requires
        is_soonest(times, a),
        is_soonest(times, b),
    ensures
        a == b,
{
    if a < b {
        assert(times[b] < times[a]);
        assert(times[b] <= times[a]);
    } else if b < a {
        assert(times[a] < times[b]);
        assert(times[a] <= times[b]);
    }
}

/// Outside bang-bang mode, two swing attempts of one flight are at least
/// [`SWING_RETRY_THROTTLE`] apart: after an attempt at `t1`, a later tick
/// scans the hit planes only from `t1 + SWING_RETRY_THROTTLE` on.
pub proof fn lemma_attempts_are_throttled(
    s: Shot,
    mode: SwingMode,
    in_flight: bool,
    net_fault: bool,
    robot_swinging: bool,
    t1: u64,
    t2: u64,
)
    requires
        !mode.use_bang_bang_swing,
        s.last_attempt_at == Some(t1),
        look_spec(s, mode, in_flight, net_fault, robot_swinging, t2) is Scan,
    ensures
        t2 >= t1 + SWING_RETRY_THROTTLE,
{
}

/// Once the final (refined) plan is committed, the arm is left alone for the
/// rest of the flight: no later tick scans for a new one.
pub proof fn lemma_refined_swing_is_final(
    s: Shot,
    mode: SwingMode,
    in_flight: bool,
    net_fault: bool,
    robot_swinging: bool,
    now: u64,
)
    requires
        s.committed,
        s.refined,
    ensures
        !(look_spec(s, mode, in_flight, net_fault, robot_swinging, now) is Scan),
{
}

/// A swing given up stays given up until the next launch: no tick scans again.
pub proof fn lemma_abandoned_swing_stays_abandoned(
    s: Shot,
    mode: SwingMode,
    in_flight: bool,
    net_fault: bool,
    robot_swinging: bool,
    now: u64,
)
    requires
        s.abandoned,
    ensures
        !(look_spec(s, mode, in_flight, net_fault, robot_swinging, now) is Scan),
{
}

/// A committed swing is planned again only once, when refinement comes due:
/// after that plan is committed at a time the refinement was due, it is final.
pub proof fn lemma_refinement_happens_once(s: Shot, mode: SwingMode, now: u64)
    requires
        refine_due(s, mode, now),
    ensures
        ({
            let after = Shot {
                committed: true,
                refined: now - s.flight_started_at >= mode.refined_min_observation,
                hard_fail_streak: 0,
                ..s
            };
            after.refined && !refine_due(after, mode, now)
        }),
{
}

impl Shot {
    /// A ball just launched at `now`: nothing committed, refined, given up or
    /// attempted. The plan asked for on the previous ball is no longer waited for.
    pub fn launch<T: Copy>(requests: &mut BangBangRequests<T>, now: u64) -> (r: Shot)
        requires
            old(requests).wf(),
        ensures
            r == (Shot {
                committed: false,
                refined: false,
                abandoned: false,
                flight_started_at: now,
                last_attempt_at: None,
                hard_fail_streak: 0,
            }),
            final(requests).wf(),
            final(requests).waiting_for() is None,
            final(requests).last_id() == old(requests).last_id(),
    {
        requests.cancel();
        Shot {
            committed: false,
            refined: false,
            abandoned: false,
            flight_started_at: now,
            last_attempt_at: None,
            hard_fail_streak: 0,
        }
    }

    /// A swing was committed by other means (the fixed swing dictionary).
    pub fn mark_committed(&mut self)
        ensures
            *final(self) == (Shot { committed: true, ..*old(self) }),
    {
        self.committed = true;
    }

    /// The first decision of a tick, before any prediction: an idle ball, a
    /// net fault (which gives the swing up), a marker-only tick (no ground
    /// truth; a swing given up, or committed or under way with no refinement
    /// due; or, outside bang-bang mode, under [`SWING_RETRY_THROTTLE`] since the
    /// last attempt), or a scan of the hit planes.
    pub fn look(
        &mut self,
        mode: SwingMode,
        in_flight: bool,
        net_fault: bool,
        robot_swinging: bool,
        now: u64,
    ) -> (r: Look)
        ensures
            r == look_spec(*old(self), mode, in_flight, net_fault, robot_swinging, now),
            *final(self) == (if r is Abandon {
                Shot { abandoned: true, ..*old(self) }
            } else {
                *old(self)
            }),
    {
        if !in_flight {
            return Look::Idle;
        }
        if net_fault {
            self.abandoned = true;
            return Look::Abandon;
        }
        if !mode.use_ground_truth {
            return Look::MarkerOnly;
        }
        let due = self.committed && !self.refined && now >= self.flight_started_at && now
            - self.flight_started_at >= mode.refined_min_observation;
        if self.abandoned || ((self.committed || robot_swinging) && !due) {
            return Look::MarkerOnly;
        }
        let held = match self.last_attempt_at {
            None => false,
            Some(at) => now < at || now - at < SWING_RETRY_THROTTLE,
        };
        if !mode.use_bang_bang_swing && held {
            return Look::MarkerOnly;
        }
        Look::Scan
    }

    /// The decision on the predictions of the hit planes, each given by its
    /// time to impact, with the ball at `ball_y`: nothing without a
    /// prediction; in bang-bang mode, wait until some time to impact lies in
    /// `[min_swing, commit_max]`; in fixed-dictionary mode, aim at the most
    /// imminent prediction unless a swing is committed or under way; else plan
    /// now and record the attempt.
    pub fn decide(
        &mut self,
        mode: SwingMode,
        robot_swinging: bool,
        ball_y: i32,
        times_to_impact: &[u64],
        now: u64,
    ) -> (r: Decision)
        ensures
            r.next == next_spec(*old(self), mode, robot_swinging, times_to_impact@),
            r.before_midcourt == (times_to_impact@.len() > 0 && ball_y > mode.commit_max_ball_y),
            *final(self) == (if r.next is Plan {
                Shot { last_attempt_at: Some(now), ..*old(self) }
            } else {
                *old(self)
            }),
    {
        let n = times_to_impact.len();
        if n == 0 {
            return Decision { before_midcourt: false, next: Next::NoPrediction };
        }
        let before_midcourt = ball_y > mode.commit_max_ball_y;
        if mode.use_bang_bang_swing {
            let mut any = false;
            let mut i: usize = 0;
            while i < n
                invariant
                    n == times_to_impact@.len(),
                    i <= n,
                    any == exists|j: int| 0 <= j < i && in_window(mode, #[trigger] times_to_impact@[j]),
                decreases n - i,
            {
                let tti = times_to_impact[i];
                if mode.min_swing <= tti && tti <= mode.commit_max {
                    any = true;
                }
                i = i + 1;
            }
            let next = if any { Next::BangBang } else { Next::WaitWindow };
            return Decision { before_midcourt, next };
        }
        if mode.use_fixed_swing_dictionary {
            if self.committed || robot_swinging {
                return Decision { before_midcourt, next: Next::Busy };
            }
            let k = soonest(times_to_impact);
            proof {
                let c = choose|c: usize| is_soonest(times_to_impact@, c as int);
                assert(is_soonest(times_to_impact@, k as int));
                lemma_soonest_unique(times_to_impact@, c as int, k as int);
            }
            return Decision { before_midcourt, next: Next::FixedDictionary { soonest: k } };
        }
        self.last_attempt_at = Some(now);
        Decision { before_midcourt, next: Next::Plan }
    }

    /// What planning yielded after [`Next::Plan`]. A plan found commits the
    /// swing, final once `refined_min_observation` has passed since launch,
    /// and ends the failure streak; a failure lengthens the streak and is
    /// reported on the first failure and every 25th.
    pub fn planned(&mut self, mode: SwingMode, found: bool, now: u64) -> (report: bool)
        ensures
            found ==> *final(self) == (Shot {
                committed: true,
                refined: now - old(self).flight_started_at >= mode.refined_min_observation,
                hard_fail_streak: 0,
                ..*old(self)
            }) && !report,
            !found ==> {
                let streak = if old(self).hard_fail_streak == u32::MAX {
                    u32::MAX
                } else {
                    (old(self).hard_fail_streak + 1) as u32
                };
                &&& *final(self) == (Shot { hard_fail_streak: streak, ..*old(self) })
                &&& report == (streak == 1 || streak % 25 == 0)
            },
    {
        if !found {
            self.hard_fail_streak = self.hard_fail_streak.saturating_add(1);
            return self.hard_fail_streak == 1 || self.hard_fail_streak % 25 == 0;
        }
        self.hard_fail_streak = 0;
        self.committed = true;
        self.refined = now >= self.flight_started_at && now - self.flight_started_at
            >= mode.refined_min_observation;
        false
    }

    /// One tick of the bang-bang path after [`Next::BangBang`]. `answers` are
    /// all the answers drained from the planner, each with its request's id
    /// and either a plan with its duration [ns] or a failure.
    ///
    /// The answer to the request waited for is played if time is left: from
    /// the time its computation took, and the swing is committed. A late or
    /// failed answer is dropped. Then, with a request still being computed,
    /// wait; under [`SWING_RETRY_THROTTLE`] since the last attempt, hold; else
    /// record an attempt and ask for a new plan — the caller takes its id from
    /// [`BangBangRequests::next_request`].
    pub fn advance_bang_bang<P, E>(
        &mut self,
        requests: &mut BangBangRequests<u64>,
        answers: Vec<(u64, Result<(P, u64), E>)>,
        now: u64,
    ) -> (r: BangBangTick<P, E>)
        requires
            old(requests).wf(),
        ensures
            final(requests).wf(),
            final(requests).last_id() == old(requests).last_id(),
            old(requests).waiting_for() is None ==> !(r.next is Commit),
            ({
                let got = answer_for(old(requests).waiting_for(), answers@);
                &&& final(requests).waiting_for() == (if got is Some {
                    None
                } else {
                    old(requests).waiting_for()
                })
                &&& r.dropped == dropped_spec(got, now)
                &&& match got {
                    Some((at, Ok((plan, duration)))) => elapsed(at, now) < duration ==> r.next
                        == (BangBangNext::Commit { plan, skip: elapsed(at, now) as u64 })
                        && *final(self) == (Shot { committed: true, ..*old(self) }),
                    _ => true,
                }
                &&& if playable(got, now) {
                    true
                } else if final(requests).waiting_for() is Some {
                    r.next == BangBangNext::<P>::Wait && *final(self) == *old(self)
                } else if throttled(old(self).last_attempt_at, now) {
                    r.next == BangBangNext::<P>::Throttled && *final(self) == *old(self)
                } else {
                    r.next == BangBangNext::<P>::Submit && *final(self) == (Shot {
                        last_attempt_at: Some(now),
                        ..*old(self)
                    })
                }
            }),
    {
        let got = requests.accept(answers);
        let mut dropped = None;
        match got {
            Some((at, Ok((plan, duration)))) => {
                let took = if now >= at { now - at } else { 0 };
                if took < duration {
                    self.committed = true;
                    return BangBangTick {
                        dropped: None,
                        next: BangBangNext::Commit { plan, skip: took },
                    };
                }
                dropped = Some(Dropped::Late { elapsed: took, duration });
            },
            Some((_, Err(e))) => {
                dropped = Some(Dropped::Failed(e));
            },
            None => {},
        }
        if requests.is_busy() {
            return BangBangTick { dropped, next: BangBangNext::Wait };
        }
        let held = match self.last_attempt_at {
            None => false,
            Some(at) => now < at || now - at < SWING_RETRY_THROTTLE,
        };
        if held {
            return BangBangTick { dropped, next: BangBangNext::Throttled };
        }
        self.last_attempt_at = Some(now);
        BangBangTick { dropped, next: BangBangNext::Submit }
    }
}

} // verus!
