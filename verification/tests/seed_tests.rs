use pingpong_bot::sim::shooter::BallState;
use pingpong_bot::vision::contract::Vec3;
use pingpong_bot::vision::seed::{midpoint, seed_state, skew, SeedCandidate};

#[test]
fn skew_and_midpoint_of_no_views_are_zero() {
    let views: Vec<((), (), u64)> = vec![];
    assert_eq!(skew(&views), 0);
    assert_eq!(midpoint(&views), 0);
}

#[test]
fn skew_is_the_spread_of_the_view_times() {
    let views = vec![("left", 1, 30u64), ("right", 2, 12), ("top", 3, 25)];
    assert_eq!(skew(&views), 18);
    assert_eq!(midpoint(&views), 21);
}

#[test]
fn one_view_has_no_skew() {
    let views = vec![((), (), 7u64)];
    assert_eq!(skew(&views), 0);
    assert_eq!(midpoint(&views), 7);
}

#[test]
fn ball_state_labels() {
    assert_eq!(BallState::Parked.label(), "parked");
    assert_eq!(BallState::InFlight.label(), "in flight");
}

fn at(y: i32) -> Vec3 {
    Vec3 { x: 760_000, y, z: 1_100_000 }
}

fn candidate(y: i32, votes: usize, worst: u64) -> Option<SeedCandidate> {
    Some(SeedCandidate { point: at(y), votes, worst })
}

#[test]
fn the_seed_with_the_most_votes_wins() {
    let cs = [candidate(1_000_000, 2, 100), candidate(1_100_000, 3, 900), None];
    assert_eq!(seed_state(&cs), Some(at(1_100_000)));
}

#[test]
fn equal_votes_go_to_the_smaller_error_then_to_the_first() {
    let cs = [candidate(1_000_000, 2, 500), candidate(1_100_000, 2, 400), candidate(1_200_000, 2, 400)];
    assert_eq!(seed_state(&cs), Some(at(1_100_000)));
}

#[test]
fn a_seed_needs_two_votes_and_the_flight_volume() {
    assert_eq!(seed_state(&[candidate(1_000_000, 1, 0)]), None);
    assert_eq!(seed_state(&[candidate(-500_001, 3, 0)]), None);
    assert_eq!(seed_state(&[candidate(-500_000, 3, 0)]), Some(at(-500_000)));
    let high = Some(SeedCandidate { point: Vec3 { x: 0, y: 0, z: 2_760_001 }, votes: 4, worst: 0 });
    assert_eq!(seed_state(&[high, None]), None);
    assert_eq!(seed_state(&[]), None);
}
