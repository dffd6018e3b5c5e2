use pingpong_bot::sim::bang_bang_worker::BangBangRequests;
use pingpong_bot::sim::shot::{
    park_cause, BangBangNext, Dropped, Look, Next, Shot, SwingMode, MAX_FLIGHT,
    SWING_RETRY_THROTTLE,
};
use pingpong_bot::vision::contract::Vec3;

const MS: u64 = 1_000_000;

fn mode() -> SwingMode {
    SwingMode {
        use_ground_truth: true,
        use_bang_bang_swing: false,
        use_fixed_swing_dictionary: false,
        refined_min_observation: 150 * MS,
        min_swing: 80 * MS,
        commit_max: 500 * MS,
        commit_max_ball_y: 1_370_000,
    }
}

fn v(x: i32, y: i32, z: i32) -> Vec3 {
    Vec3 { x, y, z }
}

#[test]
fn launch_starts_a_clean_flight_and_forgets_the_pending_plan() {
    let mut requests = BangBangRequests::<u64>::new();
    let id = requests.next_request().unwrap();
    requests.sent(id, 5);
    let shot = Shot::launch(&mut requests, 42);
    assert!(!requests.is_busy());
    assert_eq!(requests.issued(), id);
    assert_eq!(
        shot,
        Shot {
            committed: false,
            refined: false,
            abandoned: false,
            flight_started_at: 42,
            last_attempt_at: None,
            hard_fail_streak: 0,
        }
    );
}

#[test]
fn look_follows_the_gates_in_order() {
    let mut requests = BangBangRequests::<u64>::new();
    let mut shot = Shot::launch(&mut requests, 0);
    assert_eq!(shot.look(mode(), false, true, false, 1), Look::Idle);
    assert_eq!(shot.look(mode(), true, false, false, 1), Look::Scan);
    let no_truth = SwingMode { use_ground_truth: false, ..mode() };
    assert_eq!(shot.look(no_truth, true, false, false, 1), Look::MarkerOnly);
    assert_eq!(shot.look(mode(), true, false, true, 1), Look::MarkerOnly);
    assert!(!shot.abandoned);
    assert_eq!(shot.look(mode(), true, true, false, 1), Look::Abandon);
    assert!(shot.abandoned);
    assert_eq!(shot.look(mode(), true, false, false, 1), Look::MarkerOnly);
}

#[test]
fn plans_are_at_least_twenty_milliseconds_apart() {
    let mut requests = BangBangRequests::<u64>::new();
    let mut shot = Shot::launch(&mut requests, 0);
    let d = shot.decide(mode(), false, 1_000_000, &[300 * MS], 10 * MS);
    assert_eq!(d.next, Next::Plan);
    assert_eq!(shot.last_attempt_at, Some(10 * MS));
    assert_eq!(shot.look(mode(), true, false, false, 29 * MS), Look::MarkerOnly);
    assert_eq!(shot.look(mode(), true, false, false, 30 * MS), Look::Scan);
    assert_eq!(SWING_RETRY_THROTTLE, 20 * MS);
}

#[test]
fn a_committed_swing_is_refined_once() {
    let mut requests = BangBangRequests::<u64>::new();
    let mut shot = Shot::launch(&mut requests, 0);
    assert!(!shot.planned(mode(), true, 100 * MS));
    assert!(shot.committed && !shot.refined);
    assert_eq!(shot.look(mode(), true, false, true, 120 * MS), Look::MarkerOnly);
    assert_eq!(shot.look(mode(), true, false, true, 150 * MS), Look::Scan);
    assert!(!shot.planned(mode(), true, 150 * MS));
    assert!(shot.committed && shot.refined);
    assert_eq!(shot.look(mode(), true, false, false, 400 * MS), Look::MarkerOnly);
}

#[test]
fn failures_are_reported_on_the_first_and_every_twenty_fifth() {
    let mut requests = BangBangRequests::<u64>::new();
    let mut shot = Shot::launch(&mut requests, 0);
    let mut reported = Vec::new();
    for k in 1..=50u32 {
        if shot.planned(mode(), false, 0) {
            reported.push(k);
        }
    }
    assert_eq!(reported, vec![1, 25, 50]);
    assert_eq!(shot.hard_fail_streak, 50);
    assert!(!shot.committed);
    shot.planned(mode(), true, 0);
    assert_eq!(shot.hard_fail_streak, 0);
}

#[test]
fn decide_without_predictions_does_nothing() {
    let mut requests = BangBangRequests::<u64>::new();
    let mut shot = Shot::launch(&mut requests, 0);
    let d = shot.decide(mode(), false, 2_000_000, &[], 5);
    assert_eq!(d.next, Next::NoPrediction);
    assert!(!d.before_midcourt);
    assert_eq!(shot.last_attempt_at, None);
}

#[test]
fn decide_flags_a_ball_before_midcourt() {
    let mut requests = BangBangRequests::<u64>::new();
    let mut shot = Shot::launch(&mut requests, 0);
    assert!(shot.decide(mode(), false, 1_370_001, &[300 * MS], 0).before_midcourt);
    assert!(!shot.decide(mode(), false, 1_370_000, &[300 * MS], 0).before_midcourt);
}

#[test]
fn bang_bang_waits_for_the_commit_window() {
    let mut requests = BangBangRequests::<u64>::new();
    let mut shot = Shot::launch(&mut requests, 0);
    let bb = SwingMode { use_bang_bang_swing: true, ..mode() };
    let d = shot.decide(bb, false, 0, &[600 * MS, 79 * MS], 0);
    assert_eq!(d.next, Next::WaitWindow);
    let d = shot.decide(bb, false, 0, &[600 * MS, 500 * MS], 0);
    assert_eq!(d.next, Next::BangBang);
    assert_eq!(shot.last_attempt_at, None);
}

#[test]
fn fixed_dictionary_aims_at_the_first_most_imminent_prediction() {
    let mut requests = BangBangRequests::<u64>::new();
    let mut shot = Shot::launch(&mut requests, 0);
    let fixed = SwingMode { use_fixed_swing_dictionary: true, ..mode() };
    let d = shot.decide(fixed, false, 0, &[300 * MS, 200 * MS, 200 * MS], 0);
    assert_eq!(d.next, Next::FixedDictionary { soonest: 1 });
    let d = shot.decide(fixed, true, 0, &[300 * MS], 0);
    assert_eq!(d.next, Next::Busy);
    shot.mark_committed();
    let d = shot.decide(fixed, false, 0, &[300 * MS], 0);
    assert_eq!(d.next, Next::Busy);
}

#[test]
fn bang_bang_plays_a_timely_plan_from_where_it_should_be() {
    let mut requests = BangBangRequests::<u64>::new();
    let mut shot = Shot::launch(&mut requests, 0);
    let id = requests.next_request().unwrap();
    requests.sent(id, 100 * MS);
    let answers: Vec<(u64, Result<(&str, u64), &str>)> = vec![(id, Ok(("swing", 400 * MS)))];
    let tick = shot.advance_bang_bang(&mut requests, answers, 130 * MS);
    assert_eq!(tick.dropped, None);
    assert_eq!(tick.next, BangBangNext::Commit { plan: "swing", skip: 30 * MS });
    assert!(shot.committed);
    assert!(!requests.is_busy());
}

#[test]
fn bang_bang_drops_a_late_plan_and_asks_again() {
    let mut requests = BangBangRequests::<u64>::new();
    let mut shot = Shot::launch(&mut requests, 0);
    let id = requests.next_request().unwrap();
    requests.sent(id, 100 * MS);
    let answers: Vec<(u64, Result<(&str, u64), &str>)> = vec![(id, Ok(("swing", 50 * MS)))];
    let tick = shot.advance_bang_bang(&mut requests, answers, 150 * MS);
    assert_eq!(tick.dropped, Some(Dropped::Late { elapsed: 50 * MS, duration: 50 * MS }));
    assert_eq!(tick.next, BangBangNext::Submit);
    assert!(!shot.committed);
    assert_eq!(shot.last_attempt_at, Some(150 * MS));
}

#[test]
fn bang_bang_waits_while_computing_and_holds_when_throttled() {
    let mut requests = BangBangRequests::<u64>::new();
    let mut shot = Shot::launch(&mut requests, 0);
    let none: Vec<(u64, Result<(u8, u64), u8>)> = Vec::new();
    let tick = shot.advance_bang_bang(&mut requests, none.clone(), 10 * MS);
    assert_eq!(tick.next, BangBangNext::Submit);
    let id = requests.next_request().unwrap();
    requests.sent(id, 10 * MS);
    let tick = shot.advance_bang_bang(&mut requests, none.clone(), 50 * MS);
    assert_eq!(tick.next, BangBangNext::Wait);
    let failed: Vec<(u64, Result<(u8, u64), u8>)> = vec![(id, Err(9))];
    let tick = shot.advance_bang_bang(&mut requests, failed, 20 * MS);
    assert_eq!(tick.dropped, Some(Dropped::Failed(9)));
    assert_eq!(tick.next, BangBangNext::Throttled);
    assert_eq!(shot.last_attempt_at, Some(10 * MS));
}

#[test]
fn an_answer_for_the_previous_ball_is_never_played() {
    let mut requests = BangBangRequests::<u64>::new();
    let mut first = Shot::launch(&mut requests, 0);
    let old_id = requests.next_request().unwrap();
    requests.sent(old_id, 0);
    let mut shot = Shot::launch(&mut requests, 1_000 * MS);
    let answers: Vec<(u64, Result<(u8, u64), u8>)> = vec![(old_id, Ok((1, 900 * MS)))];
    let tick = shot.advance_bang_bang(&mut requests, answers, 1_001 * MS);
    assert_eq!(tick.dropped, None);
    assert_eq!(tick.next, BangBangNext::Submit);
    assert!(!shot.committed);
    first.mark_committed();
    assert!(first.committed);
}

#[test]
fn a_ball_in_the_air_over_the_table_stays_in_play() {
    let c = park_cause(v(760_000, 1_500_000, 1_000_000), v(0, -5_000_000, 0), 0, 500 * MS);
    assert!(!c.out && !c.resting && !c.timed_out && !c.any());
}

#[test]
fn a_ball_off_the_table_or_on_the_floor_is_out() {
    assert!(park_cause(v(-150_001, 1_000_000, 900_000), v(0, -1, 0), 0, 0).out);
    assert!(!park_cause(v(-150_000, 1_000_000, 900_000), v(0, -1, 0), 0, 0).out);
    assert!(park_cause(v(1_675_001, 1_000_000, 900_000), v(0, -1, 0), 0, 0).out);
    assert!(park_cause(v(700_000, 2_890_001, 900_000), v(0, -1, 0), 0, 0).out);
    assert!(park_cause(v(700_000, -150_001, 900_000), v(0, -1, 0), 0, 0).out);
    assert!(park_cause(v(700_000, 1_000_000, 349_999), v(0, -1, 0), 0, 0).any());
}

#[test]
fn a_still_ball_on_the_table_is_resting() {
    let c = park_cause(v(700_000, 1_000_000, 800_000), v(5_000, 5_000, 5_000), 0, 0);
    assert!(c.resting && c.any());
    let moving = park_cause(v(700_000, 1_000_000, 800_000), v(10_000, 0, 0), 0, 0);
    assert!(!moving.resting);
    let high = park_cause(v(700_000, 1_000_000, 810_000), v(0, 0, 0), 0, 0);
    assert!(!high.resting);
}

#[test]
fn a_flight_longer_than_four_seconds_times_out() {
    assert!(!park_cause(v(700_000, 1_000_000, 900_000), v(0, -1, 0), 1, 1 + MAX_FLIGHT).timed_out);
    assert!(park_cause(v(700_000, 1_000_000, 900_000), v(0, -1, 0), 1, 2 + MAX_FLIGHT).timed_out);
    assert!(!park_cause(v(700_000, 1_000_000, 900_000), v(0, -1, 0), 10, 0).timed_out);
}

/// Whether a bang-bang swing may start at this time to impact, read off `decide`.
fn in_swing_commit_window(tti: u64) -> bool {
    let mut requests = BangBangRequests::<u64>::new();
    let mut shot = Shot::launch(&mut requests, 0);
    let bb = SwingMode { use_bang_bang_swing: true, ..mode() };
    shot.decide(bb, false, 0, &[tti], 0).next == Next::BangBang
}

/// Whether the ball at `ball_y` has passed mid-court, read off `decide`.
fn ball_past_midcourt_for_commit(ball_y: i32) -> bool {
    let mut requests = BangBangRequests::<u64>::new();
    let mut shot = Shot::launch(&mut requests, 0);
    !shot.decide(mode(), false, ball_y, &[300 * MS], 0).before_midcourt
}

#[test]
fn in_swing_commit_window_bounds() {
    assert!(!in_swing_commit_window(50 * MS));
    assert!(in_swing_commit_window(120 * MS));
    assert!(in_swing_commit_window(mode().commit_max));
    assert!(!in_swing_commit_window(mode().commit_max + 10 * MS));
}

#[test]
fn midcourt_gate_matches_fraction() {
    let limit = mode().commit_max_ball_y;
    assert!(!ball_past_midcourt_for_commit(limit + 10_000));
    assert!(ball_past_midcourt_for_commit(limit));
    assert!(ball_past_midcourt_for_commit(300_000));
}
