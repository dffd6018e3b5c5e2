//! What the tracker hands to kinematics: [`Trajectory`], made of [`Track`]s of [`State`]s.
use vstd::prelude::*;

verus! {

/// A three-axis quantity in micro-units: µm for positions and their σ,
/// µm/s for velocities and their σ, µrad/s for spins.
#[derive(Debug, Clone, Copy, PartialEq, Eq, Structural)]
pub struct Vec3 {
    pub x: i32,
    pub y: i32,
    pub z: i32,
}

/// The ball at one instant — `[x y z vx vy vz t]` with per-axis 1σ.
#[derive(Debug, Clone, Copy, PartialEq, Eq, Structural)]
pub struct State {
    /// Nanoseconds since [`Trajectory::origin`].
    pub t: u64,
    pub position: Vec3,
    pub velocity: Vec3,
    /// Per-axis 1σ of the position [µm]; one scalar would let a well-observed
    /// axis hide the others.
    pub sigma_position: Vec3,
    /// Per-axis 1σ of the velocity [µm/s].
    pub sigma_velocity: Vec3,
    /// Angular velocity [µrad/s]. Not estimated yet: `None` in measured states.
    pub spin: Option<Vec3>,
}

/// States in time order.
#[derive(Debug)]
pub struct Track(pub Vec<State>);

impl Default for Track {
    fn default() -> (r: Self)
        ensures
            r@.len() == 0,
    {
        Track(Vec::new())
    }
}

impl std::ops::Deref for Track {
    type Target = [State];

    fn deref(&self) -> (r: &[State])
        ensures
            r@ == self.0@,
    {
        self.0.as_slice()
    }
}

impl View for Track {
    type V = Seq<State>;

    open spec fn view(&self) -> Seq<State> {
        self.0@
    }
}

/// One ball's trajectory.
///
/// The two tracks overlap rather than follow each other: `measured` runs from
/// the start of the ball, `predicted` from the trigger, both up to the robot.
/// Where they overlap, their difference is the prediction error.
pub struct Trajectory {
    /// The grounds for "is this the same ball".
    pub seq: u64,
    /// The wall clock at `t = 0`.
    pub origin: std::time::Instant,
    /// Frames where detection failed have no point.
    pub measured: Track,
    /// Made once at the trigger and then kept.
    pub predicted: Track,
}

#[verifier::external_type_specification]
#[verifier::external_body]
pub struct ExInstant(std::time::Instant);

/// Samples sorted by time, earliest first.
pub open spec fn time_ordered(s: Seq<State>) -> bool {
    forall|i: int, j: int| 0 <= i <= j < s.len() ==> #[trigger] s[i].t <= #[trigger] s[j].t
}

/// `a + (b - a)·num/den` on one axis, rounded toward `a`.
pub open spec fn mix_axis(a: int, b: int, num: int, den: int) -> int {
    if a <= b {
        a + (b - a) * num / den
    } else {
        a - (a - b) * num / den
    }
}

pub open spec fn mix_spec(a: Vec3, b: Vec3, num: int, den: int) -> Vec3 {
    Vec3 {
        x: mix_axis(a.x as int, b.x as int, num, den) as i32,
        y: mix_axis(a.y as int, b.y as int, num, den) as i32,
        z: mix_axis(a.z as int, b.z as int, num, den) as i32,
    }
}

/// `b - a`, or zero when `b` comes first.
pub open spec fn since(a: u64, b: u64) -> int {
    if b >= a {
        b - a
    } else {
        0
    }
}

/// The state at weight `num / den` from `a` toward `b`. The σ are mixed too, so
/// that confidence does not grow between samples. A zero denominator gives `b`.
pub open spec fn lerp_spec(a: State, b: State, num: int, den: int) -> State {
    if den == 0 {
        b
    } else {
        State {
            t: (a.t + since(a.t, b.t) * num / den) as u64,
            position: mix_spec(a.position, b.position, num, den),
            velocity: mix_spec(a.velocity, b.velocity, num, den),
            sigma_position: mix_spec(a.sigma_position, b.sigma_position, num, den),
            sigma_velocity: mix_spec(a.sigma_velocity, b.sigma_velocity, num, den),
            spin: match (a.spin, b.spin) {
                (Some(x), Some(y)) => Some(mix_spec(x, y, num, den)),
                _ => None,
            },
        }
    }
}

/// `k` is the sample at or before `t` whose successor is after `t`.
pub open spec fn brackets(s: Seq<State>, k: int, t: u64) -> bool {
    0 <= k < s.len() - 1 && s[k].t <= t < s[k + 1].t
}

/// The state at time `t`: interpolated between the samples around it, the last
/// sample at its own time, nothing outside the track.
pub open spec fn at_time_spec(s: Seq<State>, t: u64) -> Option<State> {
    if s.len() == 0 || t < s[0].t || t > s.last().t {
        None
    } else if t == s.last().t {
        Some(s.last())
    } else {
        let k = choose|k: int| brackets(s, k, t);
        Some(lerp_spec(s[k], s[k + 1], (t - s[k].t) as int, (s[k + 1].t - s[k].t) as int))
    }
}

/// Between `k` and `k + 1` the ball passes the plane `y` toward the robot.
pub open spec fn crosses(s: Seq<State>, k: int, y: i32) -> bool {
    0 <= k < s.len() - 1 && s[k].position.y >= y && s[k + 1].position.y < y
}

/// The first `k >= from` at which the ball passes the plane `y` toward the robot.
pub open spec fn first_crossing(s: Seq<State>, y: i32, from: int) -> Option<int>
    decreases s.len() - from,
{
    if from < 0 || from >= s.len() - 1 {
        None
    } else if crosses(s, from, y) {
        Some(from)
    } else {
        first_crossing(s, y, from + 1)
    }
}

/// The first crossing of the plane `y` toward the robot, interpolated.
pub open spec fn at_plane_spec(s: Seq<State>, y: i32) -> Option<State> {
    match first_crossing(s, y, 0) {
        Some(k) => Some(
            lerp_spec(
                s[k],
                s[k + 1],
                (s[k].position.y - y) as int,
                (s[k].position.y - s[k + 1].position.y) as int,
            ),
        ),
        None => None,
    }
}

proof fn lemma_first_crossing_is_crossing(s: Seq<State>, y: i32, from: int)
    requires
        first_crossing(s, y, from) is Some,
    ensures
        crosses(s, first_crossing(s, y, from)->0, y),
    decreases s.len() - from,
{
    if from >= 0 && from < s.len() - 1 && !crosses(s, from, y) {
        lemma_first_crossing_is_crossing(s, y, from + 1);
    }
}

proof fn lemma_scaled_step(d: int, num: int, den: int)
    requires
        0 <= d,
        0 <= num <= den,
        0 < den,
    ensures
        0 <= d * num / den <= d,
{
    assert(0 <= d * num <= d * den) by (nonlinear_arith)
        requires
            0 <= d,
            0 <= num <= den,
    ;
    vstd::arithmetic::div_mod::lemma_div_is_ordered(d * num, d * den, den);
    vstd::arithmetic::div_mod::lemma_div_multiples_vanish(d, den);
    assert(den * d == d * den) by (nonlinear_arith);
    vstd::arithmetic::div_mod::lemma_div_pos_is_pos(d * num, den);
}

proof fn lemma_mix_axis_bounds(a: int, b: int, num: int, den: int)
    requires
        0 < den,
        0 <= num <= den,
    ensures
        a <= b ==> a <= mix_axis(a, b, num, den) <= b,
        b < a ==> b <= mix_axis(a, b, num, den) <= a,
        num == 0 ==> mix_axis(a, b, num, den) == a,
{
    if a <= b {
        lemma_scaled_step(b - a, num, den);
    } else {
        lemma_scaled_step(a - b, num, den);
    }
    if num == 0 {
        assert((b - a) * 0 == 0);
        assert((a - b) * 0 == 0);
    }
}


/// Each axis of `v` lies between the same axis of `a` and `b`.
pub open spec fn between(v: Vec3, a: Vec3, b: Vec3) -> bool {
    &&& (a.x <= v.x <= b.x || b.x <= v.x <= a.x)
    &&& (a.y <= v.y <= b.y || b.y <= v.y <= a.y)
    &&& (a.z <= v.z <= b.z || b.z <= v.z <= a.z)
}

proof fn lemma_mix_between(a: Vec3, b: Vec3, num: int, den: int)
    requires
        0 < den,
        0 <= num <= den,
    ensures
        between(mix_spec(a, b, num, den), a, b),
{
    lemma_mix_axis_bounds(a.x as int, b.x as int, num, den);
    lemma_mix_axis_bounds(a.y as int, b.y as int, num, den);
    lemma_mix_axis_bounds(a.z as int, b.z as int, num, den);
}

proof fn lemma_bracket_unique(s: Seq<State>, t: u64, k: int)
    requires
        time_ordered(s),
        brackets(s, k, t),
    ensures
        forall|k2: int| brackets(s, k2, t) ==> k2 == k,
{
    assert forall|k2: int| brackets(s, k2, t) implies k2 == k by {
        if k2 < k {
            assert(s[k2 + 1].t <= s[k].t);
        } else if k2 > k {
            assert(s[k + 1].t <= s[k2].t);
        }
    }
}

proof fn lemma_bracket_exists(s: Seq<State>, t: u64)
    requires
        time_ordered(s),
        s.len() > 0,
        s[0].t <= t < s.last().t,
    ensures
        exists|k: int| brackets(s, k, t),
    decreases s.len(),
{
    let n = s.len() as int;
    if s[n - 2].t <= t {
        assert(brackets(s, n - 2, t));
    } else {
        let r = s.drop_last();
        lemma_bracket_exists(r, t);
        let k = choose|k: int| brackets(r, k, t);
        assert(brackets(s, k, t));
    }
}

/// Inside a time-ordered track, the state found for `t` carries exactly the time `t`.
pub proof fn lemma_at_time_keeps_the_time(s: Seq<State>, t: u64)
    requires
        time_ordered(s),
        at_time_spec(s, t) is Some,
    ensures
        at_time_spec(s, t)->0.t == t,
{
    if t != s.last().t {
        lemma_bracket_exists(s, t);
        let k = choose|k: int| brackets(s, k, t);
        let a = s[k].t as int;
        let b = s[k + 1].t as int;
        vstd::arithmetic::div_mod::lemma_div_multiples_vanish(t - a, b - a);
        assert((b - a) * (t - a) == (t - a) * (b - a)) by (nonlinear_arith);
    }
}

/// Between two samples every interpolated quantity — position, velocity and both σ —
/// stays between its values at those samples: confidence never grows between samples.
pub proof fn lemma_at_time_stays_between_samples(s: Seq<State>, t: u64, k: int)
    requires
        time_ordered(s),
        brackets(s, k, t),
    ensures
        at_time_spec(s, t) is Some,
        between(at_time_spec(s, t)->0.position, s[k].position, s[k + 1].position),
        between(at_time_spec(s, t)->0.velocity, s[k].velocity, s[k + 1].velocity),
        between(at_time_spec(s, t)->0.sigma_position, s[k].sigma_position, s[k + 1].sigma_position),
        between(at_time_spec(s, t)->0.sigma_velocity, s[k].sigma_velocity, s[k + 1].sigma_velocity),
{
    lemma_bracket_unique(s, t, k);
    assert(s[0].t <= s[k].t && s[k + 1].t <= s.last().t);
    let num = (t - s[k].t) as int;
    let den = (s[k + 1].t - s[k].t) as int;
    lemma_mix_between(s[k].position, s[k + 1].position, num, den);
    lemma_mix_between(s[k].velocity, s[k + 1].velocity, num, den);
    lemma_mix_between(s[k].sigma_position, s[k + 1].sigma_position, num, den);
    lemma_mix_between(s[k].sigma_velocity, s[k + 1].sigma_velocity, num, den);
}

/// The state found on the plane `y` lies exactly on that plane.
pub proof fn lemma_at_plane_lies_on_the_plane(s: Seq<State>, y: i32)
    requires
        at_plane_spec(s, y) is Some,
    ensures
        at_plane_spec(s, y)->0.position.y == y,
{
    lemma_first_crossing_is_crossing(s, y, 0);
    let k = first_crossing(s, y, 0)->0;
    let a = s[k].position.y as int;
    let b = s[k + 1].position.y as int;
    vstd::arithmetic::div_mod::lemma_div_multiples_vanish(a - y, a - b);
    assert((a - b) * (a - y) == (a - y) * (a - b)) by (nonlinear_arith);
}

/// `r` is `a` moved toward `b` by the weight `num / den`, to within one step
/// of rounding: `den·(r − a)` lies within `den` of `(b − a)·num`.
pub open spec fn weighted(r: int, a: int, b: int, num: int, den: int) -> bool {
    -den < (b - a) * num - den * (r - a) < den
}

/// Every axis of `r` is its axis of `a` moved toward `b` by the same weight `num / den`.
pub open spec fn weighted_alike(r: Vec3, a: Vec3, b: Vec3, num: int, den: int) -> bool {
    &&& weighted(r.x as int, a.x as int, b.x as int, num, den)
    &&& weighted(r.y as int, a.y as int, b.y as int, num, den)
    &&& weighted(r.z as int, a.z as int, b.z as int, num, den)
}

proof fn lemma_mix_axis_weighted(a: int, b: int, num: int, den: int)
    requires
        0 < den,
        0 <= num <= den,
    ensures
        weighted(mix_axis(a, b, num, den), a, b, num, den),
{
    let m = mix_axis(a, b, num, den);
    if a <= b {
        let x = (b - a) * num;
        assert(0 <= x) by (nonlinear_arith)
            requires
                0 <= b - a,
                0 <= num,
                x == (b - a) * num,
        ;
        let q = x / den;
        vstd::arithmetic::div_mod::lemma_fundamental_div_mod(x, den);
        vstd::arithmetic::div_mod::lemma_mod_pos_bound(x, den);
        assert(m - a == q);
        assert(den * (m - a) == den * q);
        assert(x - den * q == x % den);
    } else {
        let x = (a - b) * num;
        assert(0 <= x) by (nonlinear_arith)
            requires
                0 <= a - b,
                0 <= num,
                x == (a - b) * num,
        ;
        let q = x / den;
        vstd::arithmetic::div_mod::lemma_fundamental_div_mod(x, den);
        vstd::arithmetic::div_mod::lemma_mod_pos_bound(x, den);
        assert(m - a == -q);
        assert(den * (m - a) == -(den * q)) by (nonlinear_arith)
            requires
                m - a == -q,
        ;
        assert((b - a) * num == -x) by (nonlinear_arith)
            requires
                x == (a - b) * num,
        ;
        assert(x - den * q == x % den);
    }
}

proof fn lemma_mix_weighted(a: Vec3, b: Vec3, num: int, den: int)
    requires
        0 < den,
        0 <= num <= den,
    ensures
        weighted_alike(mix_spec(a, b, num, den), a, b, num, den),
{
    lemma_mix_axis_bounds(a.x as int, b.x as int, num, den);
    lemma_mix_axis_bounds(a.y as int, b.y as int, num, den);
    lemma_mix_axis_bounds(a.z as int, b.z as int, num, den);
    lemma_mix_axis_weighted(a.x as int, b.x as int, num, den);
    lemma_mix_axis_weighted(a.y as int, b.y as int, num, den);
    lemma_mix_axis_weighted(a.z as int, b.z as int, num, den);
}

/// The state at a time between two samples has every axis of its position,
/// velocity and both σ moved from the earlier sample toward the later one by
/// the same weight: the share of the interval that has passed.
pub proof fn lemma_at_time_weighs_every_axis_alike(s: Seq<State>, t: u64, k: int)
    requires
        time_ordered(s),
        brackets(s, k, t),
    ensures
        at_time_spec(s, t) is Some,
        ({
            let r = at_time_spec(s, t)->0;
            let num = t - s[k].t;
            let den = s[k + 1].t - s[k].t;
            &&& weighted_alike(r.position, s[k].position, s[k + 1].position, num, den)
            &&& weighted_alike(r.velocity, s[k].velocity, s[k + 1].velocity, num, den)
            &&& weighted_alike(r.sigma_position, s[k].sigma_position, s[k + 1].sigma_position, num, den)
            &&& weighted_alike(r.sigma_velocity, s[k].sigma_velocity, s[k + 1].sigma_velocity, num, den)
        }),
{
    lemma_bracket_unique(s, t, k);
    assert(s[0].t <= s[k].t && s[k + 1].t <= s.last().t);
    let num = (t - s[k].t) as int;
    let den = (s[k + 1].t - s[k].t) as int;
    lemma_mix_weighted(s[k].position, s[k + 1].position, num, den);
    lemma_mix_weighted(s[k].velocity, s[k + 1].velocity, num, den);
    lemma_mix_weighted(s[k].sigma_position, s[k + 1].sigma_position, num, den);
    lemma_mix_weighted(s[k].sigma_velocity, s[k + 1].sigma_velocity, num, den);
}

/// The state on the plane `y` has every axis of its position, velocity and
/// both σ moved from the sample before the crossing toward the one after it
/// by the same weight: the share of the way to the plane along y.
pub proof fn lemma_at_plane_weighs_every_axis_alike(s: Seq<State>, y: i32)
    requires
        at_plane_spec(s, y) is Some,
    ensures
        ({
            let r = at_plane_spec(s, y)->0;
            let k = first_crossing(s, y, 0)->0;
            let num = s[k].position.y - y;
            let den = s[k].position.y - s[k + 1].position.y;
            &&& crosses(s, k, y)
            &&& weighted_alike(r.position, s[k].position, s[k + 1].position, num, den)
            &&& weighted_alike(r.velocity, s[k].velocity, s[k + 1].velocity, num, den)
            &&& weighted_alike(r.sigma_position, s[k].sigma_position, s[k + 1].sigma_position, num, den)
            &&& weighted_alike(r.sigma_velocity, s[k].sigma_velocity, s[k + 1].sigma_velocity, num, den)
        }),
{
    lemma_first_crossing_is_crossing(s, y, 0);
    let k = first_crossing(s, y, 0)->0;
    let num = (s[k].position.y - y) as int;
    let den = (s[k].position.y - s[k + 1].position.y) as int;
    lemma_mix_weighted(s[k].position, s[k + 1].position, num, den);
    lemma_mix_weighted(s[k].velocity, s[k + 1].velocity, num, den);
    lemma_mix_weighted(s[k].sigma_position, s[k + 1].sigma_position, num, den);
    lemma_mix_weighted(s[k].sigma_velocity, s[k + 1].sigma_velocity, num, den);
}

fn mix_axis_exec(a: i32, b: i32, num: u64, den: u64) -> (r: i32)
    requires
        0 < den,
        num <= den,
    ensures
        r == mix_axis(a as int, b as int, num as int, den as int),
{
    proof {
        lemma_mix_axis_bounds(a as int, b as int, num as int, den as int);
    }
    if a <= b {
        let d: u128 = (b as i64 - a as i64) as u128;
        assert(d * (num as u128) <= 0x1_0000_0000u128 * 0xffff_ffff_ffff_ffffu128) by (nonlinear_arith)
            requires
                d <= 0x1_0000_0000u128,
                num <= 0xffff_ffff_ffff_ffffu64,
        ;
        let step: u128 = d * (num as u128) / (den as u128);
        (a as i64 + step as i64) as i32
    } else {
        let d: u128 = (a as i64 - b as i64) as u128;
        assert(d * (num as u128) <= 0x1_0000_0000u128 * 0xffff_ffff_ffff_ffffu128) by (nonlinear_arith)
            requires
                d <= 0x1_0000_0000u128,
                num <= 0xffff_ffff_ffff_ffffu64,
        ;
        let step: u128 = d * (num as u128) / (den as u128);
        (a as i64 - step as i64) as i32
    }
}

fn mix(a: Vec3, b: Vec3, num: u64, den: u64) -> (r: Vec3)
    requires
        0 < den,
        num <= den,
    ensures
        r == mix_spec(a, b, num as int, den as int),
{
    Vec3 {
        x: mix_axis_exec(a.x, b.x, num, den),
        y: mix_axis_exec(a.y, b.y, num, den),
        z: mix_axis_exec(a.z, b.z, num, den),
    }
}

/// The weight is `num / den`.
fn lerp(a: &State, b: &State, num: u64, den: u64) -> (r: State)
    requires
        num <= den,
    ensures
        r == lerp_spec(*a, *b, num as int, den as int),
{
    if den == 0 {
        return *b;
    }
    let span: u64 = if b.t >= a.t {
        b.t - a.t
    } else {
        0
    };
    proof {
        lemma_scaled_step(span as int, num as int, den as int);
    }
    assert(span as u128 * num as u128 <= 0xffff_ffff_ffff_ffffu128 * 0xffff_ffff_ffff_ffffu128)
        by (nonlinear_arith)
        requires
            span <= 0xffff_ffff_ffff_ffffu64,
            num <= 0xffff_ffff_ffff_ffffu64,
    ;
    let lead: u128 = (span as u128) * (num as u128) / (den as u128);
    let spin = match (a.spin, b.spin) {
        (Some(x), Some(y)) => Some(mix(x, y, num, den)),
        _ => None,
    };
    State {
        t: a.t + lead as u64,
        position: mix(a.position, b.position, num, den),
        velocity: mix(a.velocity, b.velocity, num, den),
        sigma_position: mix(a.sigma_position, b.sigma_position, num, den),
        sigma_velocity: mix(a.sigma_velocity, b.sigma_velocity, num, den),
        spin,
    }
}

/// Number of leading samples at or before `t`.
fn partition_point(s: &Vec<State>, t: u64) -> (index: usize)
    requires
        time_ordered(s@),
    ensures
        index <= s.len(),
        forall|j: int| 0 <= j < index ==> s@[j].t <= t,
        forall|j: int| index <= j < s.len() ==> s@[j].t > t,
{
    let mut lo: usize = 0;
    let mut hi: usize = s.len();
    while lo < hi
        invariant
            lo <= hi <= s.len(),
            time_ordered(s@),
            forall|j: int| 0 <= j < lo ==> s@[j].t <= t,
            forall|j: int| hi <= j < s.len() ==> s@[j].t > t,
        decreases hi - lo,
    {
        let mid = lo + (hi - lo) / 2;
        if s[mid].t <= t {
            assert forall|j: int| 0 <= j < mid + 1 implies s@[j].t <= t by {
                assert(s@[j].t <= s@[mid as int].t);
            }
            lo = mid + 1;
        } else {
            assert forall|j: int| mid <= j < s.len() implies s@[j].t > t by {
                assert(s@[mid as int].t <= s@[j].t);
            }
            hi = mid;
        }
    }
    lo
}

impl Track {
    /// The state at `t`, interpolated linearly between samples; `None` outside the track.
    pub fn at_time(&self, t: u64) -> (r: Option<State>)
        requires
            time_ordered(self@),
        ensures
            r == at_time_spec(self@, t),
    {
        let s = &self.0;
        if s.len() == 0 {
            return None;
        }
        if t < s[0].t || t > s[s.len() - 1].t {
            return None;
        }
        // `first.t <= t`, so the first sample passes: the index is at least 1.
        let index = partition_point(s, t);
        if index == s.len() {
            // `t == last.t`
            return Some(s[s.len() - 1]);
        }
        let earlier = &s[index - 1];
        let later = &s[index];
        let ghost k = (index - 1) as int;
        proof {
            assert(brackets(self@, k, t));
            assert forall|k2: int| brackets(self@, k2, t) implies k2 == k by {
                if k2 < k {
                    assert(self@[k2 + 1].t <= self@[k].t);
                } else if k2 > k {
                    assert(self@[k + 1].t <= self@[k2].t);
                }
            }
        }
        Some(lerp(earlier, later, t - earlier.t, later.t - earlier.t))
    }

    /// The first state that passes the plane `y` toward the robot — a candidate impact.
    pub fn at_plane(&self, y: i32) -> (r: Option<State>)
        ensures
            r == at_plane_spec(self@, y),
    {
        let s = &self.0;
        if s.len() == 0 {
            return None;
        }
        let mut k: usize = 0;
        while k < s.len() - 1
            invariant
                k < s.len(),
                s@ == self@,
                first_crossing(s@, y, 0) == first_crossing(s@, y, k as int),
            decreases s.len() - k,
        {
            if s[k].position.y >= y && s[k + 1].position.y < y {
                let a = &s[k];
                let b = &s[k + 1];
                let num: u64 = (a.position.y as i64 - y as i64) as u64;
                let den: u64 = (a.position.y as i64 - b.position.y as i64) as u64;
                return Some(lerp(a, b, num, den));
            }
            k = k + 1;
        }
        None
    }
}

} // verus!
