use pingpong_bot::sim::episode::{
    substeps_per_step, Bounce, Episode, Landing, NetCrossing, Shortfall, Substep, MAX_CONTROL_STEPS, NET_TOP_Z,
    NET_Y,
};
use pingpong_bot::vision::contract::Vec3;

fn v(x: i32, y: i32, z: i32) -> Vec3 {
    Vec3 { x, y, z }
}

fn at(y: i32, z: i32, vy: i32) -> Substep {
    Substep {
        position: v(760_000, y, z),
        velocity: v(0, vy, 0),
        on_table: false,
        touching_racket: false,
        committed: false,
        parked: false,
    }
}

fn started() -> Episode {
    let mut e = Episode::new();
    assert!(e.done());
    e.reset(2_600_000, v(0, -5_000_000, 0));
    assert!(!e.done());
    e
}

/// The incoming ball crosses above the net and bounces on the robot's half.
fn serve(e: &mut Episode) {
    let over = e.substep(at(NET_Y - 10_000, NET_TOP_Z + 50_000, -5_000_000), 0, 10);
    assert!(!over.terminated);
    let mut bounce = at(600_000, 780_000, -5_000_000);
    bounce.on_table = true;
    e.substep(bounce, 1, 10);
    assert!(e.info().incoming_valid);
}

#[test]
fn a_return_that_lands_in_terminates() {
    let mut e = started();
    serve(&mut e);
    let mut hit = at(100_000, 900_000, -4_000_000);
    hit.touching_racket = true;
    let first = e.substep(hit, 2, 10);
    assert!(first.first_contact);
    assert_eq!(e.info().velocity_before_contact, v(0, -5_000_000, 0));
    let away = e.substep(at(150_000, 950_000, 6_000_000), 3, 10);
    assert_eq!(away.first_return, Some(6_000_000));
    assert!(!away.stop, "after a contact the step runs on");
    let again = e.substep(at(300_000, 1_000_000, 5_500_000), 4, 10);
    assert_eq!(again.first_return, None);
    assert_eq!(e.info().peak_outgoing_y, 6_000_000);
    let net = e.substep(at(NET_Y + 5_000, NET_TOP_Z + 30_000, 5_000_000), 5, 10);
    assert_eq!(net.net, Some(NetCrossing::Cleared));
    assert!(!net.terminated);
    let mut land = at(2_000_000, 780_000, 4_000_000);
    land.on_table = true;
    let end = e.substep(land, 6, 10);
    assert_eq!(end.landed, Some(Landing { at: Bounce { x: 760_000, y: 2_000_000 }, inside: true }));
    assert!(end.terminated && end.stop);
    assert!(e.info().returned_in);
    let step = e.finish(end.terminated);
    assert!(step.terminated && !step.truncated);
    assert_eq!(step.shortfall, Shortfall::Met);
    assert!(e.done());
}

#[test]
fn a_return_into_the_net_faults() {
    let mut e = started();
    serve(&mut e);
    let mut hit = at(100_000, 900_000, 3_000_000);
    hit.touching_racket = true;
    e.substep(hit, 2, 10);
    let net = e.substep(at(NET_Y + 5_000, NET_TOP_Z - 30_000, 3_000_000), 3, 10);
    assert_eq!(net.net, Some(NetCrossing::Fault));
    assert!(net.terminated);
    assert!(e.info().net_fault);
}

#[test]
fn a_bounce_on_the_own_half_after_the_contact_terminates() {
    let mut e = started();
    serve(&mut e);
    let mut hit = at(100_000, 900_000, -1_000_000);
    hit.touching_racket = true;
    e.substep(hit, 2, 10);
    let mut bounce = at(400_000, 780_000, 1_000_000);
    bounce.on_table = true;
    let r = e.substep(bounce, 3, 10);
    assert!(r.own_half && r.terminated);
    assert!(e.info().bounced_own_half);
}

#[test]
fn without_a_contact_a_step_runs_its_substeps_only() {
    let mut e = started();
    assert!(!e.substep(at(2_500_000, 1_000_000, -5_000_000), 0, 3).stop);
    assert!(!e.substep(at(2_450_000, 1_000_000, -5_000_000), 1, 3).stop);
    assert!(e.substep(at(2_400_000, 1_000_000, -5_000_000), 2, 3).stop);
}

#[test]
fn a_ball_out_of_play_terminates() {
    let mut e = started();
    let mut gone = at(2_400_000, 300_000, 0);
    gone.parked = true;
    assert!(e.substep(gone, 0, 10).terminated);
    assert_eq!(e.finish(true).shortfall, Shortfall::NoContact);
}

#[test]
fn an_episode_is_cut_off_after_its_control_steps() {
    let mut e = started();
    for _ in 0..MAX_CONTROL_STEPS - 1 {
        let step = e.finish(false);
        assert!(!step.truncated && !e.done());
        assert_eq!(step.shortfall, Shortfall::Met);
    }
    let last = e.finish(false);
    assert!(last.truncated && !last.terminated);
    assert_eq!(last.shortfall, Shortfall::NoContact);
    assert!(e.done());
}

#[test]
fn a_contact_without_a_return_falls_short() {
    let mut e = started();
    let mut hit = at(100_000, 900_000, -1_000_000);
    hit.touching_racket = true;
    e.substep(hit, 0, 10);
    assert_eq!(e.finish(true).shortfall, Shortfall::NoReturn);
}

#[test]
fn substeps_per_step_are_held_within_one_to_fifty() {
    assert_eq!(substeps_per_step(0), 1);
    assert_eq!(substeps_per_step(10), 10);
    assert_eq!(substeps_per_step(500), 50);
}
