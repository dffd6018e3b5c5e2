use pingpong_bot::vision::contract::Vec3;
use pingpong_bot::vision::fit::Sighting;
use pingpong_bot::vision::raw::{first_bounce, mutual_pairs, MAX_PAIR_GAP};

const MS: u64 = 1_000_000;

fn seen(camera: usize, t_ms: u64) -> Sighting<()> {
    Sighting { camera, pixel: (), t: t_ms * MS }
}

fn up(z: i32) -> Option<Vec3> {
    Some(Vec3 { x: 0, y: -5_000_000, z })
}

#[test]
fn simultaneous_sightings_pair_up_once_from_the_lower_camera() {
    let s = [seen(0, 0), seen(1, 0), seen(0, 10), seen(1, 10)];
    assert_eq!(mutual_pairs(&s), vec![(0, 1), (2, 3)]);
    let swapped = [seen(1, 0), seen(0, 0), seen(1, 10), seen(0, 10)];
    assert_eq!(mutual_pairs(&swapped), vec![(1, 0), (3, 2)]);
}

#[test]
fn a_sighting_is_not_paired_with_the_frame_before() {
    // The cameras alternate: the second frame of camera 0 is as near to the
    // first of camera 1 as to the second, and that one is already taken.
    let s = [seen(0, 0), seen(1, 5), seen(0, 10), seen(1, 15)];
    assert_eq!(mutual_pairs(&s), vec![(0, 1)]);
}

#[test]
fn sightings_too_far_apart_are_not_paired() {
    assert_eq!(MAX_PAIR_GAP, 20 * MS);
    assert_eq!(mutual_pairs(&[seen(0, 0), seen(1, 20)]), vec![(0, 1)]);
    assert!(mutual_pairs(&[seen(0, 0), seen(1, 21)]).is_empty());
}

#[test]
fn one_camera_alone_pairs_nothing() {
    assert!(mutual_pairs(&[seen(0, 0), seen(0, 8), seen(0, 16)]).is_empty());
    assert!(mutual_pairs::<()>(&[]).is_empty());
}

#[test]
fn the_first_window_that_falls_then_rises_is_the_bounce() {
    let windows = [
        (up(-3_000_000), up(-2_000_000)),
        (up(-3_000_000), None),
        (up(-250_000), up(2_000_000)),
        (up(-250_001), up(150_001)),
        (up(-3_000_000), up(2_000_000)),
    ];
    assert_eq!(first_bounce(&windows), Some(3));
}

#[test]
fn no_bounce_without_both_velocities_over_their_thresholds() {
    let windows = [(up(-3_000_000), up(150_000)), (None, up(2_000_000)), (up(-1), up(1))];
    assert_eq!(first_bounce(&windows), None);
    assert_eq!(first_bounce(&[]), None);
}
