use std::time::{Duration, Instant};

use pingpong_bot::vision::contract::{State, Track, Trajectory, Vec3};

const MICRO: f64 = 1e6;

fn micro(v: f64) -> i32 {
    (v * MICRO).round() as i32
}

fn vec3(x: f64, y: f64, z: f64) -> Vec3 {
    Vec3 { x: micro(x), y: micro(y), z: micro(z) }
}

fn repeat(v: f64) -> Vec3 {
    vec3(v, v, v)
}

fn nanos(d: Duration) -> u64 {
    d.as_nanos() as u64
}

fn metres(v: i32) -> f64 {
    v as f64 / MICRO
}

fn state(t_ms: u64, y: f64) -> State {
    State {
        t: nanos(Duration::from_millis(t_ms)),
        position: vec3(0.5, y, 1.0),
        velocity: vec3(0.0, -1.0, 0.0),
        sigma_position: repeat(0.02),
        sigma_velocity: repeat(0.3),
        spin: None,
    }
}

/// y falls at 1 m/s, one sample every 100 ms.
fn straight() -> Track {
    Track((0..=10u64).map(|i| state(i * 100, 1.0 - i as f64 * 0.1)).collect())
}

#[test]
fn at_time_interpolates_between_samples() {
    let mid = straight().at_time(nanos(Duration::from_millis(150))).expect("inside the track");
    assert!((metres(mid.position.y) - 0.85).abs() < 1e-9, "y={}", metres(mid.position.y));
}

#[test]
fn at_time_refuses_outside_the_track() {
    assert!(straight().at_time(nanos(Duration::from_millis(1500))).is_none());
    assert!(Track::default().at_time(nanos(Duration::ZERO)).is_none());
}

#[test]
fn at_plane_finds_the_crossing() {
    let hit = straight().at_plane(micro(0.55)).expect("crosses the plane");
    assert!((metres(hit.position.y) - 0.55).abs() < 1e-9, "y={}", metres(hit.position.y));
    assert!((metres(hit.velocity.y) + 1.0).abs() < 1e-9);
}

#[test]
fn at_plane_is_none_when_never_crossed() {
    assert!(straight().at_plane(micro(-5.0)).is_none());
}

#[test]
fn interpolation_mixes_sigma_too() {
    let mut track = straight();
    track.0[1].sigma_position = repeat(0.10);
    let mid = track.at_time(nanos(Duration::from_millis(50))).expect("inside the track");
    let sigma = metres(mid.sigma_position.x);
    assert!(sigma > 0.02 && sigma < 0.10);
}

#[test]
fn both_tracks_answer_the_same_queries() {
    let trajectory = Trajectory {
        seq: 0,
        origin: Instant::now(),
        measured: straight(),
        predicted: straight(),
    };
    assert_eq!(
        trajectory.measured.at_plane(micro(0.55)),
        trajectory.predicted.at_plane(micro(0.55))
    );
    assert_eq!(trajectory.measured.0.len(), 11);
    assert!(trajectory.measured.0.last().is_some());
}

#[test]
fn at_time_at_a_sample_returns_that_sample() {
    let track = straight();
    let third = track.at_time(nanos(Duration::from_millis(300))).expect("inside the track");
    assert_eq!(third, track.0[3]);
    let last = track.at_time(nanos(Duration::from_millis(1000))).expect("inside the track");
    assert_eq!(last, track.0[10]);
}

#[test]
fn at_time_keeps_the_requested_time() {
    let track = straight();
    let t = nanos(Duration::from_micros(123_457));
    assert_eq!(track.at_time(t).expect("inside the track").t, t);
}

#[test]
fn at_time_before_the_first_sample_is_none() {
    let mut track = straight();
    for s in track.0.iter_mut() {
        s.t += 1_000;
    }
    assert!(track.at_time(0).is_none());
}

#[test]
fn interpolation_rounds_toward_the_earlier_sample() {
    // 1 µm over 3 ns: one third of the way is still the earlier micrometre.
    let mut a = state(0, 0.0);
    a.t = 0;
    a.position = Vec3 { x: 0, y: 10, z: 0 };
    let mut b = a;
    b.t = 3;
    b.position = Vec3 { x: 0, y: 9, z: 0 };
    let track = Track(vec![a, b]);
    assert_eq!(track.at_time(1).unwrap().position.y, 10);
    assert_eq!(track.at_time(2).unwrap().position.y, 10);
    assert_eq!(track.at_time(3).unwrap().position.y, 9);
}

#[test]
fn spin_is_mixed_only_when_both_samples_carry_one() {
    let mut track = straight();
    track.0[0].spin = Some(vec3(0.0, 0.0, 10.0));
    track.0[1].spin = Some(vec3(0.0, 0.0, 20.0));
    let early = track.at_time(nanos(Duration::from_millis(50))).unwrap();
    assert_eq!(early.spin, Some(vec3(0.0, 0.0, 15.0)));
    let later = track.at_time(nanos(Duration::from_millis(150))).unwrap();
    assert_eq!(later.spin, None);
}

#[test]
fn at_plane_takes_the_first_crossing() {
    let mut track = straight();
    // The ball comes back up and crosses 0.55 a second time.
    track.0[8].position.y = micro(0.9);
    track.0[9].position.y = micro(0.3);
    let hit = track.at_plane(micro(0.55)).unwrap();
    assert!(hit.t < nanos(Duration::from_millis(500)));
}
