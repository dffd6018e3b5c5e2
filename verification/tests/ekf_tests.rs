use std::time::Instant;

use pingpong_bot::camera;
use pingpong_bot::vision::contract::{State, Track, Trajectory, Vec3};
use pingpong_bot::vision::ekf::{
    Answer, Ask, Ekf, Estimate, Outcome, GATE_CHI2, PENDING_TTL, REJECT_LIMIT, STALE_GAP,
};
use pingpong_bot::vision::trigger::{Evidence, Trigger};

const MS: u64 = 1_000_000;

fn micro(v: f64) -> i32 {
    (v * 1e6).round() as i32
}

/// A filter along y only; the pixel is the ball's y [m] as a camera saw it.
struct Line {
    cameras: Vec<camera::Id>,
    y: f64,
    vy: f64,
    prior: f64,
    dt: f64,
}

impl Line {
    fn with_calibration(cameras: &u32) -> Self {
        Line { cameras: (0..*cameras).map(camera::Id).collect(), y: 0.0, vy: 0.0, prior: 0.0, dt: 0.0 }
    }

    fn camera_ids(&self) -> Vec<camera::Id> {
        self.cameras.clone()
    }

    fn triangulate_pair(&self, a: &(usize, f64, u64), b: &(usize, f64, u64)) -> Option<Vec3> {
        Some(Vec3 { x: micro(0.8), y: micro((a.1 + b.1) / 2.0), z: micro(1.0) })
    }

    /// Every view within 10 cm agrees; the error is the distance [µpx per µm].
    fn agreement(&self, views: &[(usize, f64, u64)], point: Vec3) -> (usize, u64) {
        let errors: Vec<u64> = views
            .iter()
            .map(|v| (micro(v.1) - point.y).unsigned_abs() as u64)
            .filter(|e| *e <= 100_000)
            .collect();
        (errors.len(), errors.iter().copied().max().unwrap_or(0))
    }

    fn start(&mut self, point: Vec3, _skew: u64) {
        self.y = point.y as f64 / 1e6;
        self.vy = 0.0;
    }

    fn predict(&mut self, dt: u64) {
        self.dt = dt as f64 / 1e9;
        self.prior = self.y;
        self.y += self.vy * self.dt;
    }

    /// σ = 5 cm; a pixel that is no number stands for a ball behind the camera.
    fn innovation(&self, _camera: usize, pixel: f64) -> Option<(f64, u64)> {
        if pixel.is_nan() {
            return None;
        }
        let r = (pixel - self.y) / 0.05;
        Some((pixel, (r * r * 1e6).round() as u64))
    }

    fn update(&mut self, pixel: f64) {
        if self.dt > 0.0 {
            self.vy = (pixel - self.prior) / self.dt;
        }
        self.y = pixel;
    }

    fn estimate(&self) -> Estimate {
        Estimate {
            position: Vec3 { x: micro(0.8), y: micro(self.y), z: micro(1.0) },
            velocity: Vec3 { x: 0, y: micro(self.vy), z: 0 },
            sigma_position: Vec3 { x: 10_000, y: 10_000, z: 10_000 },
            sigma_velocity: Vec3 { x: 100_000, y: 100_000, z: 100_000 },
        }
    }

    fn integrate_to_robot(&self, t0: u64) -> Track {
        let now = self.estimate();
        let at = |t: u64| State {
            t,
            position: now.position,
            velocity: now.velocity,
            sigma_position: now.sigma_position,
            sigma_velocity: now.sigma_velocity,
            spin: None,
        };
        Track(vec![at(t0 + 10 * MS)])
    }

    fn reset(&mut self) {
        self.y = 0.0;
        self.vy = 0.0;
    }
}

struct Never;

impl Trigger for Never {
    fn name(&self) -> &'static str {
        "never"
    }

    fn ready(&self, _evidence: &Evidence) -> bool {
        false
    }
}

struct AfterThree;

impl Trigger for AfterThree {
    fn name(&self) -> &'static str {
        "after three"
    }

    fn ready(&self, evidence: &Evidence) -> bool {
        evidence.measured.len() >= 3
    }
}

/// The filter's bookkeeping driven with the stand-in numerics: every piece
/// of numeric work it asks for is done by the [`Line`].
struct Tracker<T: Trigger> {
    ekf: Ekf<f64, T>,
    line: Line,
    innovation: Option<f64>,
}

impl<T: Trigger> Tracker<T> {
    fn new(cameras: u32, trigger: T) -> Self {
        let line = Line::with_calibration(&cameras);
        Tracker { ekf: Ekf::new(line.camera_ids(), trigger), line, innovation: None }
    }

    fn observe(&mut self, camera_id: camera::Id, found: Option<f64>, t: u64) -> Outcome {
        let mut ask = self.ekf.observe(camera_id, found, t);
        loop {
            let answer = match ask {
                Ask::Done(outcome) => return outcome,
                Ask::Triangulate(a, b) => Answer::Point(self.line.triangulate_pair(&a, &b)),
                Ask::Agree(views, point) => {
                    let (votes, worst) = self.line.agreement(&views, point);
                    Answer::Votes(votes, worst)
                }
                Ask::Start(point, skew) => {
                    self.line.start(point, skew);
                    Answer::Estimate(self.line.estimate())
                }
                Ask::Correct(dt, camera, pixel) => {
                    self.line.predict(dt);
                    match self.line.innovation(camera, pixel) {
                        Some((innovation, d2)) => {
                            self.innovation = Some(innovation);
                            Answer::Distance(Some(d2))
                        }
                        None => Answer::Distance(None),
                    }
                }
                Ask::Update => {
                    self.line.update(self.innovation.take().expect("an innovation"));
                    Answer::Estimate(self.line.estimate())
                }
                Ask::Integrate(t0) => Answer::Track(self.line.integrate_to_robot(t0)),
                Ask::Reset => {
                    self.line.reset();
                    Answer::WasReset
                }
            };
            ask = self.ekf.resume(answer);
        }
    }

    fn has_track(&self) -> bool {
        self.ekf.has_track()
    }

    fn seq(&self) -> u64 {
        self.ekf.seq()
    }

    fn measured(&self) -> &Track {
        self.ekf.measured()
    }

    fn trajectory(&self, origin: Instant) -> Option<Trajectory> {
        self.ekf.trajectory(origin)
    }

    fn drop_track(&mut self) {
        self.ekf.drop_track();
        self.line.reset();
    }
}

fn ekf() -> Tracker<Never> {
    Tracker::new(2, Never)
}

/// A ball flying toward the robot at 5.5 m/s from y = 2.4 m, seen at `t`.
fn y_at(t: u64) -> f64 {
    2.4 - 5.5 * (t as f64 / 1e9)
}

fn seeded() -> Tracker<Never> {
    let mut f = ekf();
    assert_eq!(f.observe(camera::Id(0), Some(y_at(0)), 0), Outcome::Idle);
    assert_eq!(f.observe(camera::Id(1), Some(y_at(4 * MS)), 4 * MS), Outcome::Seeded);
    f
}

#[test]
fn nothing_detected_does_nothing() {
    let mut f = ekf();
    assert_eq!(f.observe(camera::Id(0), None, 0), Outcome::Idle);
    assert!(!f.has_track());
    assert_eq!(f.seq(), 0);
}

#[test]
fn one_camera_alone_never_seeds() {
    let mut f = ekf();
    for k in 0..10u64 {
        assert_eq!(f.observe(camera::Id(0), Some(y_at(k * 8 * MS)), k * 8 * MS), Outcome::Idle);
    }
    assert!(!f.has_track());
}

#[test]
fn two_cameras_seed_at_the_middle_of_their_times() {
    let f = seeded();
    assert!(f.has_track());
    assert_eq!(f.measured().0.len(), 1);
    assert_eq!(f.measured().0[0].t, 2 * MS);
    assert_eq!(f.seq(), 0);
}

#[test]
fn a_stale_detection_of_the_other_camera_does_not_seed() {
    let mut f = ekf();
    f.observe(camera::Id(0), Some(2.4), 0);
    assert_eq!(f.observe(camera::Id(1), Some(2.0), PENDING_TTL + 1), Outcome::Idle);
    assert!(!f.has_track());
    assert_eq!(f.observe(camera::Id(0), Some(2.0), PENDING_TTL + 2), Outcome::Seeded);
}

#[test]
fn a_detection_of_an_unknown_camera_never_seeds() {
    let mut f = ekf();
    f.observe(camera::Id(0), Some(2.4), 0);
    assert_eq!(f.observe(camera::Id(9), Some(2.4), MS), Outcome::Idle);
    assert!(!f.has_track());
}

#[test]
fn corrections_along_the_flight_are_accepted() {
    let mut f = seeded();
    for k in 1..6u64 {
        let t = 2 * MS + k * 8 * MS;
        assert_eq!(f.observe(camera::Id(k as u32 % 2), Some(y_at(t)), t), Outcome::Accepted);
    }
    assert_eq!(f.measured().0.len(), 6);
    let last = f.measured().0[5];
    assert_eq!(last.t, 42 * MS);
    assert_eq!(last.position.y, micro(y_at(42 * MS)));
}

#[test]
fn a_detection_far_from_the_prediction_is_gated_out() {
    let mut f = seeded();
    let outcome = f.observe(camera::Id(0), Some(1.0), 10 * MS);
    match outcome {
        Outcome::Rejected { d2 } => assert!(d2 > GATE_CHI2),
        other => panic!("expected a rejection, got {other:?}"),
    }
    assert!(f.has_track());
    assert_eq!(f.measured().0.len(), 1);
}

#[test]
fn rejections_in_a_row_end_the_track() {
    let mut f = seeded();
    for k in 1..=REJECT_LIMIT as u64 {
        f.observe(camera::Id(0), Some(0.5), 2 * MS + k * MS);
    }
    assert!(!f.has_track());
    assert_eq!(f.seq(), 1);
}

#[test]
fn a_silence_ends_the_track() {
    let mut f = seeded();
    assert_eq!(f.observe(camera::Id(0), Some(2.0), 2 * MS + STALE_GAP), Outcome::Idle);
    assert!(!f.has_track());
    assert_eq!(f.seq(), 1);
}

#[test]
fn a_frame_older_than_the_last_is_ignored() {
    let mut f = seeded();
    assert_eq!(f.observe(camera::Id(0), Some(y_at(MS)), MS), Outcome::Idle);
    assert!(f.has_track());
    assert_eq!(f.measured().0.len(), 1);
}

#[test]
fn turning_back_three_times_ends_the_track() {
    let mut f = seeded();
    let mut y = y_at(2 * MS);
    let mut t = 2 * MS;
    for k in 0..3 {
        y += 0.06;
        t += 8 * MS;
        assert_eq!(f.observe(camera::Id(0), Some(y), t), Outcome::Accepted);
        assert_eq!(f.has_track(), k < 2);
    }
    assert_eq!(f.seq(), 1);
}

#[test]
fn leaving_the_volume_ends_the_track() {
    let mut f = ekf();
    f.observe(camera::Id(0), Some(-0.45), 0);
    f.observe(camera::Id(1), Some(-0.45), 0);
    assert!(f.has_track());
    let mut y = -0.45;
    let mut t = 0;
    while y > -0.95 {
        y -= 0.04;
        t += 8 * MS;
        assert_eq!(f.observe(camera::Id(0), Some(y), t), Outcome::Accepted);
        assert!(f.has_track());
    }
    assert_eq!(f.observe(camera::Id(0), Some(y - 0.04), t + 8 * MS), Outcome::Accepted);
    assert!(!f.has_track());
    assert_eq!(f.seq(), 1);
}

#[test]
fn no_seed_outside_the_flight_volume() {
    let mut f = ekf();
    f.observe(camera::Id(0), Some(-0.6), 0);
    assert_eq!(f.observe(camera::Id(1), Some(-0.6), MS), Outcome::Idle);
    assert!(!f.has_track());
}

#[test]
fn no_seed_where_the_views_disagree() {
    let mut f = ekf();
    f.observe(camera::Id(0), Some(2.0), 0);
    assert_eq!(f.observe(camera::Id(1), Some(1.5), MS), Outcome::Idle);
    assert!(!f.has_track());
}

#[test]
fn the_trigger_hands_on_a_trajectory_and_holds() {
    let mut f = Tracker::new(2, AfterThree);
    f.observe(camera::Id(0), Some(y_at(0)), 0);
    f.observe(camera::Id(1), Some(y_at(0)), 0);
    let origin = Instant::now();
    assert!(f.trajectory(origin).is_none());
    for k in 1..3u64 {
        f.observe(camera::Id(0), Some(y_at(k * 8 * MS)), k * 8 * MS);
    }
    let trajectory = f.trajectory(origin).expect("the trigger fired");
    assert_eq!(trajectory.seq, 0);
    assert_eq!(trajectory.origin, origin);
    assert_eq!(trajectory.measured.0.len(), 3);
    assert_eq!(trajectory.predicted.0[0], *trajectory.measured.0.last().unwrap());
    assert_eq!(trajectory.predicted.0[1].t, 26 * MS);
}

#[test]
fn dropping_the_filter_track_clears_and_counts() {
    let mut f = seeded();
    f.drop_track();
    assert!(!f.has_track());
    assert_eq!(f.seq(), 1);
    assert!(f.measured().0.is_empty());
    assert!(f.trajectory(Instant::now()).is_none());
}

#[test]
fn a_ball_behind_the_camera_corrects_nothing() {
    let mut f = seeded();
    assert_eq!(f.observe(camera::Id(0), Some(f64::NAN), 8 * MS), Outcome::Idle);
    assert!(f.has_track());
    assert_eq!(f.measured().0.len(), 1);
    // It was seen, though: a detection older than it is now out of order.
    assert_eq!(f.observe(camera::Id(1), Some(y_at(6 * MS)), 6 * MS), Outcome::Idle);
    assert_eq!(f.measured().0.len(), 1);
    assert_eq!(f.observe(camera::Id(1), Some(y_at(12 * MS)), 12 * MS), Outcome::Accepted);
    assert_eq!(f.measured().0.len(), 2);
}

#[test]
fn two_cameras_ask_for_their_triangulation() {
    let mut f: Ekf<f64, Never> = Ekf::new(vec![camera::Id(0), camera::Id(1)], Never);
    assert!(matches!(f.observe(camera::Id(0), Some(2.4), 0), Ask::Done(Outcome::Idle)));
    match f.observe(camera::Id(1), Some(2.39), 4 * MS) {
        Ask::Triangulate(a, b) => {
            assert_eq!(a, (0, 2.4, 0));
            assert_eq!(b, (1, 2.39, 4 * MS));
        }
        _ => panic!("the pair is triangulated first"),
    }
    // Views that do not meet leave the detections waiting.
    assert!(matches!(f.resume(Answer::Point(None)), Ask::Done(Outcome::Idle)));
    assert!(!f.has_track());
}
