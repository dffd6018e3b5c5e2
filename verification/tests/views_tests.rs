use pingpong_bot::vision::fit::Sighting;
use pingpong_bot::vision::views::{camera_extents, nearest_per_camera};

fn seen(camera: usize, t: u64) -> Sighting<()> {
    Sighting { camera, pixel: (), t }
}

const MS: u64 = 1_000_000;

#[test]
fn one_nearest_sighting_per_camera_in_the_order_cameras_were_first_seen() {
    let s = [seen(1, 10 * MS), seen(0, 0), seen(0, 9 * MS), seen(1, 12 * MS), seen(2, 100 * MS)];
    assert_eq!(nearest_per_camera(&s, 11 * MS), vec![0, 2, 4]);
}

#[test]
fn nearness_counts_in_whole_microseconds_and_ties_go_to_the_first() {
    let s = [seen(0, 1_999), seen(0, 1_000)];
    assert_eq!(nearest_per_camera(&s, 0), vec![0]);
    let t = [seen(0, 2_000), seen(0, 1_999)];
    assert_eq!(nearest_per_camera(&t, 0), vec![1]);
    assert!(nearest_per_camera::<()>(&[], 5).is_empty());
}

#[test]
fn extents_are_each_cameras_first_and_last_sighting() {
    let s = [seen(0, 0), seen(1, 1), seen(0, 2), seen(0, 3)];
    assert_eq!(camera_extents(&s, 3), vec![Some((0, 3)), Some((1, 1)), None]);
    assert!(camera_extents(&s, 0).is_empty());
}
