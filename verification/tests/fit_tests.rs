use std::time::{Duration, Instant};

use pingpong_bot::camera;
use pingpong_bot::vision::contract::{State, Track, Vec3};
use pingpong_bot::vision::fit::{Answer, Ask, Fit, FitLimits, Kinematics, Outcome, Sighting};
use pingpong_bot::vision::raw::RawPoint;
use pingpong_bot::vision::trigger::{Evidence, Trigger};

const ROLLING_SPIN: Vec3 = Vec3 { x: -120_000_000, y: 0, z: 0 };

const STALE_GAP: Duration = Duration::from_millis(200);

fn limits() -> FitLimits {
    FitLimits {
        window: Duration::from_secs(1).as_nanos() as u64,
        stale_gap: STALE_GAP.as_nanos() as u64,
        min_sightings: 4,
        min_pixel_span: 1,
        outlier_limit: 3,
        min_speed: 500_000,
        assumed_spin: Vec3 { x: 0, y: 0, z: 0 },
    }
}

/// The pixel of this rig is simply the ball's y [m] as the camera saw it.
#[derive(Clone, Copy, Debug)]
struct Pixel {
    y: f64,
}

/// A straight flight `y = y0 + vy·(t - t0)`, fitted through two sightings.
#[derive(Clone, Copy, Debug)]
struct Line {
    t0: f64,
    y0: f64,
    vy: f64,
}

impl Line {
    fn at(&self, t: f64) -> f64 {
        self.y0 + self.vy * (t - self.t0)
    }
}

struct Rig {
    cameras: Vec<camera::Id>,
}

fn secs(t: u64) -> f64 {
    t as f64 / 1e9
}

impl Rig {
    fn with_calibration(cameras: &usize) -> Self {
        Rig { cameras: (0..*cameras as u32).map(camera::Id).collect() }
    }

    fn limits(&self) -> FitLimits {
        limits()
    }

    fn camera_ids(&self) -> Vec<camera::Id> {
        self.cameras.clone()
    }

    /// How far the ball moved along y [µm].
    fn pixel_distance(&self, a: &Pixel, b: &Pixel) -> u64 {
        ((a.y - b.y).abs() * 1e6).round() as u64
    }

    /// The views agree on y; the height bounces off the table at 50 ms.
    fn triangulate(&self, views: &[Sighting<Pixel>]) -> Option<Vec3> {
        let micro = |v: f64| (v * 1e6).round() as i32;
        let y = views.iter().map(|v| v.pixel.y).sum::<f64>() / views.len() as f64;
        let z = 0.76 + 5.0 * (secs(views.first()?.t) - 0.05).abs();
        Some(Vec3 { x: micro(0.8), y: micro(y), z: micro(z) })
    }

    fn ballistic(&self, t0: u64, position: Vec3, velocity: Vec3) -> Line {
        Line { t0: secs(t0), y0: position.y as f64 / 1e6, vy: velocity.y as f64 / 1e6 }
    }

    /// A straight line is the same whatever time it is told from.
    fn advance(&self, _physics: &(), line: &Line, _t0: u64, _spin: Vec3) -> Line {
        *line
    }

    /// The bootstrap line is taken as it is.
    fn gauss_newton_step(&self, _physics: &(), _line: &Line, _s: &[Sighting<Pixel>], _spin: Vec3) -> Option<(Line, bool)> {
        None
    }

    fn is_finite(&self, line: &Line) -> bool {
        line.y0.is_finite() && line.vy.is_finite()
    }

    fn outlier(&self, _physics: &(), line: &Line, s: &[Sighting<Pixel>], _spin: Vec3) -> Option<f64> {
        let newest = s[s.len() - 1];
        let miss = (line.at(secs(newest.t)) - newest.pixel.y).abs();
        if miss > 0.05 {
            Some(miss)
        } else {
            None
        }
    }

    fn kinematics(&self, _physics: &(), line: &Line, s: &[Sighting<Pixel>], _spin: Vec3) -> Option<Vec<Kinematics>> {
        let micro = |v: f64| (v * 1e6).round() as i32;
        Some(
            s.iter()
                .map(|x| Kinematics {
                    position: Vec3 { x: micro(0.8), y: micro(line.at(secs(x.t))), z: micro(1.1) },
                    velocity: Vec3 { x: 0, y: micro(line.vy), z: 0 },
                    sigma_position: Vec3 { x: 1_000, y: 1_000, z: 1_000 },
                    sigma_velocity: Vec3 { x: 10_000, y: 10_000, z: 10_000 },
                })
                .collect(),
        )
    }

    /// Through the first and last point.
    fn windowed_velocity(&self, points: &[RawPoint]) -> Option<Vec3> {
        let (first, last) = (points.first()?, points.last()?);
        let dt = secs(last.t) - secs(first.t);
        if dt <= 0.0 {
            return None;
        }
        let rate = |a: i32, b: i32| ((b - a) as f64 / dt).round() as i32;
        Some(Vec3 {
            x: rate(first.position.x, last.position.x),
            y: rate(first.position.y, last.position.y),
            z: rate(first.position.z, last.position.z),
        })
    }

    fn spin_if_rolling(&self, _physics: &(), _v_in: Vec3, _v_out: Vec3) -> Option<Vec3> {
        Some(ROLLING_SPIN)
    }

    fn refine_spin(&self, _physics: &(), _line: &Line, _s: &[Sighting<Pixel>]) -> Option<Vec3> {
        None
    }

    fn integrate_to_robot(&self, _physics: &(), from: &State, _spin: Vec3) -> Track {
        let mut next = *from;
        next.t += 10_000_000;
        next.position.y += next.velocity.y / 100;
        Track(vec![next])
    }
}

fn rig() -> usize {
    3
}

/// The fit's bookkeeping driven with the stand-in numerics: every piece of
/// numeric work it asks for is done by the [`Rig`], with no physics.
struct Tracker<T: Trigger> {
    fit: Fit<Pixel, Line, f64, T>,
    rig: Rig,
}

impl<T: Trigger> Tracker<T> {
    fn new(trigger: T) -> Self {
        let rig = Rig::with_calibration(&rig());
        Tracker { fit: Fit::new(rig.camera_ids(), rig.limits(), trigger), rig }
    }

    fn observe(&mut self, camera_id: camera::Id, found: Option<Pixel>, t: u64) -> Outcome<f64> {
        let mut ask = self.fit.observe(camera_id, found, t);
        loop {
            let rig = &self.rig;
            let answer = match ask {
                Ask::Done(outcome) => return outcome,
                Ask::Distances(pairs) => Answer::Distances(
                    pairs.iter().map(|p| p.map(|(a, b)| rig.pixel_distance(&a, &b))).collect(),
                ),
                Ask::Triangulate(views) => Answer::Point(rig.triangulate(&views)),
                Ask::Ballistic(t0, position, velocity) => Answer::Solution(rig.ballistic(t0, position, velocity)),
                Ask::Advance(line, t0, spin) => Answer::Solution(rig.advance(&(), &line, t0, spin)),
                Ask::Step(line, s, spin) => Answer::Step(rig.gauss_newton_step(&(), &line, &s, spin)),
                Ask::Finite(line) => Answer::Finite(rig.is_finite(&line)),
                Ask::Outlier(line, s, spin) => Answer::Outlier(rig.outlier(&(), &line, &s, spin)),
                Ask::Kinematics(line, s, spin) => Answer::Kinematics(rig.kinematics(&(), &line, &s, spin)),
                Ask::PairPoints(pairs) => {
                    Answer::Points(pairs.iter().map(|(a, b)| rig.triangulate(&[*a, *b])).collect())
                }
                Ask::Velocities(raw, ranges) => Answer::Velocities(
                    ranges.iter().map(|(from, to)| rig.windowed_velocity(&raw[*from..*to])).collect(),
                ),
                Ask::Rolling(v_in, v_out) => Answer::Spin(rig.spin_if_rolling(&(), v_in, v_out)),
                Ask::Refine(line, s) => Answer::Spin(rig.refine_spin(&(), &line, &s)),
                Ask::Integrate(from, spin) => Answer::Track(rig.integrate_to_robot(&(), &from, spin)),
            };
            ask = self.fit.resume(answer);
        }
    }

    fn has_track(&self) -> bool {
        self.fit.has_track()
    }

    fn solved_spin(&self) -> Option<Vec3> {
        self.fit.solved_spin()
    }

    fn seq(&self) -> u64 {
        self.fit.seq()
    }

    fn sightings(&self) -> usize {
        self.fit.sightings()
    }

    fn measured(&self) -> &Track {
        self.fit.measured()
    }

    fn trajectory(&self, origin: Instant) -> Option<pingpong_bot::vision::contract::Trajectory> {
        self.fit.trajectory(origin)
    }

    fn drop_track(&mut self) {
        self.fit.drop_track();
    }
}

/// Two cameras see a ball flying toward the robot at 5.5 m/s from y = 2.4 m.
fn sightings(frames: usize, fps: f64) -> Vec<(camera::Id, Pixel, Duration)> {
    let mut out = Vec::new();
    for frame in 0..frames {
        let t = frame as f64 / fps;
        for id in [0u32, 1] {
            out.push((camera::Id(id), Pixel { y: 2.4 - 5.5 * t }, Duration::from_secs_f64(t)));
        }
    }
    out
}

struct Never;

impl Trigger for Never {
    fn name(&self) -> &'static str {
        "never"
    }

    fn ready(&self, _evidence: &Evidence) -> bool {
        false
    }
}

struct Always;

impl Trigger for Always {
    fn name(&self) -> &'static str {
        "always"
    }

    fn ready(&self, _evidence: &Evidence) -> bool {
        true
    }
}

fn nanos(d: Duration) -> u64 {
    d.as_nanos() as u64
}

fn feed<T: Trigger>(fit: &mut Tracker<T>, samples: &[(camera::Id, Pixel, Duration)]) -> Vec<Outcome<f64>> {
    samples.iter().map(|(id, pixel, t)| fit.observe(*id, Some(*pixel), nanos(*t))).collect()
}

#[test]
fn a_single_camera_never_starts_a_track() {
    let mut fit = Tracker::new(Never);
    let only_first: Vec<_> = sightings(12, 120.0)
        .into_iter()
        .filter(|(id, _, _)| *id == camera::Id(0))
        .collect();
    feed(&mut fit, &only_first);
    assert!(!fit.has_track());
}

#[test]
fn a_long_gap_starts_a_new_track() {
    let mut fit = Tracker::new(Never);
    feed(&mut fit, &sightings(10, 120.0));
    assert!(fit.has_track());
    let seq = fit.seq();

    let late: Vec<_> = sightings(10, 120.0)
        .into_iter()
        .map(|(id, pixel, t)| (id, pixel, t + STALE_GAP + Duration::from_millis(10)))
        .collect();
    feed(&mut fit, &late);
    assert!(fit.seq() > seq, "the track should have been split");
}

#[test]
fn silence_after_the_ball_leaves_kills_the_track() {
    let mut fit = Tracker::new(Never);
    let samples = sightings(10, 120.0);
    feed(&mut fit, &samples);
    assert!(fit.has_track());

    let last = samples.last().expect("samples").2;
    let mut t = last;
    for _ in 0..80 {
        t += Duration::from_millis(13);
        fit.observe(camera::Id(0), None, nanos(t));
    }
    assert!(!fit.has_track(), "a silence must end the track");
}

#[test]
fn the_first_fit_seeds_and_the_next_ones_are_accepted() {
    let mut fit = Tracker::new(Never);
    let outcomes = feed(&mut fit, &sightings(2, 120.0));
    assert_eq!(outcomes, vec![Outcome::Idle, Outcome::Idle, Outcome::Idle, Outcome::Seeded]);
    let more = fit.observe(camera::Id(0), Some(Pixel { y: 2.4 - 5.5 * 0.025 }), nanos(Duration::from_millis(25)));
    assert_eq!(more, Outcome::Accepted);
    assert_eq!(fit.sightings(), 5);
    assert_eq!(fit.measured().0.len(), 5);
}

#[test]
fn a_frame_out_of_order_is_ignored() {
    let mut fit = Tracker::new(Never);
    feed(&mut fit, &sightings(4, 120.0));
    let before = fit.sightings();
    let outcome = fit.observe(camera::Id(1), Some(Pixel { y: 2.4 }), 0);
    assert_eq!(outcome, Outcome::Idle);
    assert_eq!(fit.sightings(), before);
}

#[test]
fn an_unknown_camera_is_ignored() {
    let mut fit = Tracker::new(Never);
    feed(&mut fit, &sightings(4, 120.0));
    let before = fit.sightings();
    let outcome = fit.observe(camera::Id(7), Some(Pixel { y: 2.0 }), nanos(Duration::from_millis(40)));
    assert_eq!(outcome, Outcome::Idle);
    assert_eq!(fit.sightings(), before);
}

#[test]
fn an_outlier_is_rejected_and_left_out() {
    let mut fit = Tracker::new(Never);
    feed(&mut fit, &sightings(4, 120.0));
    let before = fit.sightings();
    let outcome = fit.observe(camera::Id(0), Some(Pixel { y: 0.0 }), nanos(Duration::from_millis(40)));
    assert!(matches!(outcome, Outcome::Rejected { .. }));
    assert_eq!(fit.sightings(), before);
    assert!(fit.has_track());
}

#[test]
fn outliers_in_a_row_end_the_track() {
    let mut fit = Tracker::new(Never);
    feed(&mut fit, &sightings(4, 120.0));
    let seq = fit.seq();
    for k in 0..3u64 {
        fit.observe(camera::Id(0), Some(Pixel { y: 0.0 }), nanos(Duration::from_millis(40 + k)));
    }
    assert!(!fit.has_track());
    assert_eq!(fit.seq(), seq + 1);
}

#[test]
fn no_trajectory_before_the_trigger() {
    let mut fit = Tracker::new(Never);
    feed(&mut fit, &sightings(6, 120.0));
    assert!(fit.has_track());
    assert!(fit.trajectory(Instant::now()).is_none());
}

#[test]
fn the_trigger_hands_on_a_trajectory() {
    let mut fit = Tracker::new(Always);
    feed(&mut fit, &sightings(6, 120.0));
    let origin = Instant::now();
    let trajectory = fit.trajectory(origin).expect("the trigger fired");
    assert_eq!(trajectory.seq, fit.seq());
    assert_eq!(trajectory.origin, origin);
    assert_eq!(trajectory.measured.0.len(), fit.measured().0.len());
    assert_eq!(trajectory.predicted.0.len(), 2);
    assert_eq!(trajectory.predicted.0[0], *fit.measured().0.last().unwrap());
}

#[test]
fn drop_track_clears_and_counts() {
    let mut fit = Tracker::new(Always);
    feed(&mut fit, &sightings(6, 120.0));
    fit.drop_track();
    assert!(!fit.has_track());
    assert_eq!(fit.seq(), 1);
    assert_eq!(fit.sightings(), 0);
    assert!(fit.measured().0.is_empty());
    assert!(fit.trajectory(Instant::now()).is_none());
    assert!(fit.solved_spin().is_none());
}

#[test]
fn a_ball_moving_away_is_not_a_shot() {
    let mut fit = Tracker::new(Never);
    // Flying away from the robot: a return, never a track.
    let away: Vec<_> = sightings(6, 120.0)
        .into_iter()
        .map(|(id, _, t)| (id, Pixel { y: 0.5 + 5.5 * t.as_secs_f64() }, t))
        .collect();
    feed(&mut fit, &away);
    assert!(!fit.has_track());
    assert_eq!(fit.seq(), 0, "a fit that never stood is abandoned, not ended");
}

#[test]
fn a_new_fit_starts_empty() {
    let fit = Tracker::new(Never);
    assert!(!fit.has_track());
    assert_eq!(fit.seq(), 0);
    assert_eq!(fit.sightings(), 0);
    assert!(fit.solved_spin().is_none());
}

#[test]
fn the_spin_is_solved_from_the_bounce_in_the_raw_path() {
    let mut fit = Tracker::new(Never);
    feed(&mut fit, &sightings(4, 120.0));
    assert!(fit.has_track());
    assert_eq!(fit.solved_spin(), None, "no bounce seen yet");
    feed(&mut fit, &sightings(10, 120.0)[8..]);
    assert_eq!(fit.solved_spin(), Some(ROLLING_SPIN));
}

#[test]
fn a_ball_that_does_not_move_is_not_fitted() {
    let mut fit = Tracker::new(Never);
    let still: Vec<_> = sightings(8, 120.0)
        .into_iter()
        .map(|(id, _, t)| (id, Pixel { y: 2.0 }, t))
        .collect();
    feed(&mut fit, &still);
    assert!(!fit.has_track());
    assert_eq!(fit.sightings(), 16);
}

#[test]
fn the_first_fit_starts_from_the_velocity_between_two_triangulations() {
    let mut fit = Tracker::new(Never);
    feed(&mut fit, &sightings(2, 120.0));
    assert!(fit.has_track());
    let v = fit.measured().0[0].velocity.y;
    assert!((-5_500_000..=-5_499_000).contains(&v), "{v}");
}

#[test]
fn measured_states_carry_no_spin() {
    let mut fit = Tracker::new(Never);
    feed(&mut fit, &sightings(6, 120.0));
    assert!(fit.has_track());
    assert!(fit.measured().0.iter().all(|s| s.spin.is_none()));
}

#[test]
fn a_stale_gap_before_any_track_stood_keeps_the_sequence_number() {
    let mut fit = Tracker::new(Never);
    let only_first: Vec<_> = sightings(3, 120.0)
        .into_iter()
        .filter(|(id, _, _)| *id == camera::Id(0))
        .collect();
    feed(&mut fit, &only_first);
    assert!(!fit.has_track());
    assert!(fit.sightings() > 0);
    let late = nanos(only_first.last().unwrap().2 + STALE_GAP);
    assert_eq!(fit.observe(camera::Id(0), None, late), Outcome::Idle);
    assert_eq!(fit.seq(), 0);
    assert_eq!(fit.sightings(), 0);
}

#[test]
fn one_bad_sighting_does_not_move_the_fit() {
    let clean = sightings(12, 120.0);
    let mut good = Tracker::new(Never);
    feed(&mut good, &clean);
    let before = good.measured().0.last().unwrap().velocity;

    let mut poisoned = Tracker::new(Never);
    let mut spiked = clean.clone();
    // The middle sighting moved far aside: something else entirely was caught.
    let middle = spiked.len() / 2;
    spiked[middle].1.y += 2.0;
    feed(&mut poisoned, &spiked);
    let after = poisoned.measured().0.last().unwrap().velocity;

    // The whole velocity, every axis, moved by less than 0.1 m/s.
    let dx = (after.x - before.x) as f64;
    let dy = (after.y - before.y) as f64;
    let dz = (after.z - before.z) as f64;
    let moved = (dx * dx + dy * dy + dz * dz).sqrt();
    assert!(moved < 100_000.0, "{before:?} vs {after:?}");
    assert!(poisoned.has_track());
}

#[test]
fn the_solved_spin_stays_for_the_rest_of_the_track() {
    let mut fit = Tracker::new(Never);
    feed(&mut fit, &sightings(10, 120.0));
    assert_eq!(fit.solved_spin(), Some(ROLLING_SPIN));
    let seq = fit.seq();
    for (id, pixel, t) in sightings(14, 120.0)[20..].iter() {
        fit.observe(*id, Some(*pixel), nanos(*t));
        assert!(fit.has_track());
        assert_eq!(fit.solved_spin(), Some(ROLLING_SPIN));
        assert_eq!(fit.seq(), seq);
    }
}

#[test]
fn a_window_of_two_cameras_asks_for_the_pixel_span_first() {
    let rig = Rig::with_calibration(&rig());
    let mut fit: Fit<Pixel, Line, f64, Never> = Fit::new(rig.camera_ids(), rig.limits(), Never);
    let frames = sightings(2, 120.0);
    for (id, pixel, t) in &frames[..3] {
        assert!(matches!(fit.observe(*id, Some(*pixel), nanos(*t)), Ask::Done(Outcome::Idle)));
    }
    let (id, pixel, t) = frames[3];
    match fit.observe(id, Some(pixel), nanos(t)) {
        Ask::Distances(pairs) => {
            assert_eq!(pairs.len(), 3);
            assert!(pairs[0].is_some() && pairs[1].is_some());
            assert!(pairs[2].is_none(), "the third camera saw nothing");
        }
        _ => panic!("the span is asked first"),
    }
    // A span too small to be a shot gives up the fit.
    assert!(matches!(fit.resume(Answer::Distances(vec![Some(0), Some(0), None])), Ask::Done(Outcome::Idle)));
    assert!(!fit.has_track());
}
