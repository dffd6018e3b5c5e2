//! Bookkeeping of one episode of the residual-torque training rig.
//!
//! The physics world is stepped from outside, one substep at a time; after
//! each substep the caller hands in what the ball did, and this side decides:
//! whether the incoming ball was a valid serve, when the racket first touched
//! it, whether it was returned, cleared the net or faulted, where it bounced,
//! when the episode terminates and when it is cut off. What each of these
//! events is worth as a reward is the caller's floating-point business.
use vstd::prelude::*;

use crate::vision::contract::Vec3;
use crate::vision::fit::{TABLE_LENGTH_Y, TABLE_SURFACE_Z};

verus! {

/// Height of the net above the playing surface (ITTF) [µm].
pub const NET_HEIGHT: i32 = 152_500;

/// Radius of the ball (ITTF 40 mm ball) [µm].
pub const BALL_RADIUS: i32 = 20_000;

/// The net's line across the table, halfway along it [µm].
pub const NET_Y: i32 = 1_370_000;

/// The ball's centre clears the net above this height [µm].
pub const NET_TOP_Z: i32 = TABLE_SURFACE_Z + NET_HEIGHT + BALL_RADIUS;

/// Control steps after which an episode is cut off.
pub const MAX_CONTROL_STEPS: usize = 450;

/// Physics substeps one control step runs at most.
pub const MAX_SUBSTEPS: usize = 2_500;

/// Substeps per control step for a requested `action_repeat`: held within 1 to 50.
pub fn substeps_per_step(action_repeat: usize) -> (r: usize)
    ensures
        r == (if action_repeat < 1 {
            1
        } else if action_repeat > 50 {
            50
        } else {
            action_repeat
        }),
{
    if action_repeat < 1 {
        1
    } else if action_repeat > 50 {
        50
    } else {
        action_repeat
    }
}

/// Where a ball bounced on the table [µm].
#[derive(Debug, Clone, Copy, PartialEq, Eq, Structural)]
pub struct Bounce {
    pub x: i32,
    pub y: i32,
}

/// A returned ball's bounce beyond the net, and whether it was on the table.
#[derive(Debug, Clone, Copy, PartialEq, Eq, Structural)]
pub struct Landing {
    pub at: Bounce,
    pub inside: bool,
}

/// What the episode saw of the ball so far.
#[derive(Debug, Clone, Copy, PartialEq, Eq, Structural)]
pub struct EpisodeInfo {
    /// The incoming ball crossed above the net and bounced on the robot's half.
    pub incoming_valid: bool,
    pub committed: bool,
    pub contact: bool,
    pub returned: bool,
    pub cleared_net: bool,
    pub returned_in: bool,
    pub bounced_own_half: bool,
    pub net_fault: bool,
    /// The fastest the ball went away from the robot after the contact [µm/s].
    pub peak_outgoing_y: i32,
    pub velocity_before_contact: Vec3,
    pub velocity_after_contact: Vec3,
    /// Where the returned ball bounced [µm].
    pub bounce_xy: Option<Bounce>,
}

/// What the world did in one substep.
#[derive(Debug, Clone, Copy, PartialEq, Eq, Structural)]
pub struct Substep {
    /// Ball position [µm] and velocity [µm/s] after the substep.
    pub position: Vec3,
    pub velocity: Vec3,
    /// The ball touches the table.
    pub on_table: bool,
    /// The ball touches the racket.
    pub touching_racket: bool,
    /// The swing has committed.
    pub committed: bool,
    /// The ball was taken out of play.
    pub parked: bool,
}

/// The net crossing of a returned ball.
#[derive(Debug, Clone, Copy, PartialEq, Eq, Structural)]
pub enum NetCrossing {
    Cleared,
    Fault,
}

/// The events of one substep that a reward is paid for.
#[derive(Debug, Clone, Copy, PartialEq, Eq, Structural)]
pub struct Events {
    /// The racket touched the ball for the first time.
    pub first_contact: bool,
    /// The ball first went away from the robot, with this velocity along y [µm/s].
    pub first_return: Option<i32>,
    pub net: Option<NetCrossing>,
    /// The returned ball bounced on the robot's own half.
    pub own_half: bool,
    /// The returned ball bounced beyond the net at `(x, y)`, and whether on the table.
    pub landed: Option<Landing>,
    pub terminated: bool,
    /// No further substep in this control step.
    pub stop: bool,
}

/// What a control step ended with.
#[derive(Debug, Clone, Copy, PartialEq, Eq, Structural)]
pub enum Shortfall {
    /// Nothing fell short.
    Met,
    /// The episode ended without the racket ever touching the ball.
    NoContact,
    /// The episode ended with a contact but no return.
    NoReturn,
}

/// The end of one control step.
#[derive(Debug, Clone, Copy, PartialEq, Eq, Structural)]
pub struct StepEnd {
    pub terminated: bool,
    pub truncated: bool,
    pub shortfall: Shortfall,
}

/// One episode's state between substeps.
pub struct Episode {
    info: EpisodeInfo,
    previous_ball_y: i32,
    previous_ball_velocity: Vec3,
    incoming_crossed_net: bool,
    contact_active: bool,
    control_steps: usize,
    done: bool,
}

/// Nothing seen yet.
pub open spec fn fresh_info() -> EpisodeInfo {
    EpisodeInfo {
        incoming_valid: false,
        committed: false,
        contact: false,
        returned: false,
        cleared_net: false,
        returned_in: false,
        bounced_own_half: false,
        net_fault: false,
        peak_outgoing_y: 0,
        velocity_before_contact: Vec3 { x: 0, y: 0, z: 0 },
        velocity_after_contact: Vec3 { x: 0, y: 0, z: 0 },
        bounce_xy: None,
    }
}

impl Episode {
    pub closed spec fn info_spec(&self) -> EpisodeInfo {
        self.info
    }

    pub closed spec fn previous_y(&self) -> i32 {
        self.previous_ball_y
    }

    pub closed spec fn previous_velocity(&self) -> Vec3 {
        self.previous_ball_velocity
    }

    pub closed spec fn crossed_above_net(&self) -> bool {
        self.incoming_crossed_net
    }

    pub closed spec fn touching(&self) -> bool {
        self.contact_active
    }

    pub closed spec fn steps(&self) -> usize {
        self.control_steps
    }

    pub closed spec fn is_done(&self) -> bool {
        self.done
    }

    /// No episode yet: done until [`Self::reset`].
    pub fn new() -> (r: Self)
        ensures
            r.is_done(),
            r.info_spec() == fresh_info(),
            r.steps() == 0,
            !r.crossed_above_net(),
            !r.touching(),
    {
        Episode {
            info: EpisodeInfo {
                incoming_valid: false,
                committed: false,
                contact: false,
                returned: false,
                cleared_net: false,
                returned_in: false,
                bounced_own_half: false,
                net_fault: false,
                peak_outgoing_y: 0,
                velocity_before_contact: Vec3 { x: 0, y: 0, z: 0 },
                velocity_after_contact: Vec3 { x: 0, y: 0, z: 0 },
                bounce_xy: None,
            },
            previous_ball_y: 0,
            previous_ball_velocity: Vec3 { x: 0, y: 0, z: 0 },
            incoming_crossed_net: false,
            contact_active: false,
            control_steps: 0,
            done: true,
        }
    }

    /// A new episode, the ball just shot from `ball_y` [µm] with `ball_velocity` [µm/s].
    pub fn reset(&mut self, ball_y: i32, ball_velocity: Vec3)
        ensures
            !final(self).is_done(),
            final(self).info_spec() == fresh_info(),
            final(self).steps() == 0,
            final(self).previous_y() == ball_y,
            final(self).previous_velocity() == ball_velocity,
            !final(self).crossed_above_net(),
            !final(self).touching(),
    {
        *self = Episode::new();
        self.previous_ball_y = ball_y;
        self.previous_ball_velocity = ball_velocity;
        self.done = false;
    }

    /// What the episode saw of the ball so far.
    pub fn info(&self) -> (r: EpisodeInfo)
        ensures
            r == self.info_spec(),
    {
        self.info
    }

    /// Whether the episode is over: a control step then changes nothing.
    pub fn done(&self) -> (r: bool)
        ensures
            r == self.is_done(),
    {
        self.done
    }

    /// Restarts the step count at the start of the policy's part of an episode.
    pub fn restart_count(&mut self)
        ensures
            final(self).steps() == 0,
            final(self).info_spec() == old(self).info_spec(),
            final(self).is_done() == old(self).is_done(),
            final(self).previous_y() == old(self).previous_y(),
            final(self).previous_velocity() == old(self).previous_velocity(),
            final(self).crossed_above_net() == old(self).crossed_above_net(),
            final(self).touching() == old(self).touching(),
    {
        self.control_steps = 0;
    }

    /// Takes in substep number `index` of the current control step, which runs
    /// `repeat` substeps unless the racket touched the ball: then it runs on
    /// until the episode terminates or [`MAX_SUBSTEPS`] have run.
    ///
    /// Before any contact, a ball crossing the net line toward the robot marks
    /// whether it crossed above the net, and such a ball bouncing on the
    /// robot's half makes the serve valid. A new touch of the racket is the
    /// first contact unless one came before. After the contact, a ball moving
    /// away is returned (the first time is paid for) and its peak speed kept;
    /// a returned ball crossing the net line either clears the net or faults,
    /// which terminates. After the contact a bounce on the robot's half
    /// terminates; after clearing the net a bounce beyond it lands, in or
    /// long, which terminates. A ball out of play terminates too.
    pub fn substep(&mut self, s: Substep, index: usize, repeat: usize) -> (e: Events)
        requires
            index < MAX_SUBSTEPS,
        ensures
            ({
                let before = old(self).info_spec();
                let after = final(self).info_spec();
                let crossing_in = !before.contact && old(self).previous_y() > NET_Y && s.position.y <= NET_Y;
                let crossed = if crossing_in {
                    s.position.z > NET_TOP_Z
                } else {
                    old(self).crossed_above_net()
                };
                let contact = before.contact || (s.touching_racket && !old(self).touching());
                let moving_away = contact && s.velocity.y > 0;
                let returned = before.returned || moving_away;
                let crossing_out = returned && old(self).previous_y() < NET_Y && s.position.y >= NET_Y;
                let cleared = if crossing_out {
                    s.position.z > NET_TOP_Z
                } else {
                    before.cleared_net
                };
                let own_half = contact && s.on_table && s.position.y < NET_Y;
                let lands = !own_half && cleared && s.on_table && s.position.y >= NET_Y;
                let terminated = (crossing_out && !cleared) || own_half || lands || s.parked;
                &&& crossed == final(self).crossed_above_net()
                &&& after.incoming_valid == (before.incoming_valid || (!before.contact && crossed
                    && s.position.y > 0 && s.position.y < NET_Y && s.on_table))
                &&& after.committed == (before.committed || s.committed)
                &&& after.contact == contact
                &&& e.first_contact == (!before.contact && s.touching_racket && !old(self).touching())
                &&& after.velocity_before_contact == (if e.first_contact {
                    old(self).previous_velocity()
                } else {
                    before.velocity_before_contact
                })
                &&& final(self).touching() == s.touching_racket
                &&& after.returned == returned
                &&& e.first_return == (if moving_away && !before.returned {
                    Some(s.velocity.y)
                } else {
                    None
                })
                &&& after.peak_outgoing_y == (if moving_away && s.velocity.y > before.peak_outgoing_y {
                    s.velocity.y
                } else {
                    before.peak_outgoing_y
                })
                &&& after.velocity_after_contact == (if moving_away {
                    s.velocity
                } else {
                    before.velocity_after_contact
                })
                &&& after.cleared_net == cleared
                &&& e.net == (if crossing_out {
                    Some(
                        if cleared {
                            NetCrossing::Cleared
                        } else {
                            NetCrossing::Fault
                        },
                    )
                } else {
                    None
                })
                &&& after.net_fault == (before.net_fault || (crossing_out && !cleared))
                &&& e.own_half == own_half
                &&& after.bounced_own_half == (before.bounced_own_half || own_half)
                &&& e.landed == (if lands {
                    Some(
                        Landing {
                            at: Bounce { x: s.position.x, y: s.position.y },
                            inside: s.position.y < TABLE_LENGTH_Y,
                        },
                    )
                } else {
                    None
                })
                &&& after.bounce_xy == (if lands {
                    Some(Bounce { x: s.position.x, y: s.position.y })
                } else {
                    before.bounce_xy
                })
                &&& after.returned_in == (if lands {
                    s.position.y < TABLE_LENGTH_Y
                } else {
                    before.returned_in
                })
                &&& e.terminated == terminated
                &&& e.stop == (terminated || (index + 1 >= repeat && !contact) || index + 1 >= MAX_SUBSTEPS)
                &&& final(self).previous_y() == s.position.y
                &&& final(self).previous_velocity() == s.velocity
                &&& final(self).steps() == old(self).steps()
                &&& final(self).is_done() == old(self).is_done()
            }),
    {
        let p = s.position;
        let v = s.velocity;
        let before = self.info;
        // Before any contact: the incoming ball crossing the net line toward the robot.
        let crossing_in = !before.contact && self.previous_ball_y > NET_Y && p.y <= NET_Y;
        let crossed = if crossing_in {
            p.z > NET_TOP_Z
        } else {
            self.incoming_crossed_net
        };
        let first_contact = !before.contact && s.touching_racket && !self.contact_active;
        let contact = before.contact || (s.touching_racket && !self.contact_active);
        let moving_away = contact && v.y > 0;
        let returned = before.returned || moving_away;
        // The returned ball crossing the net line away from the robot.
        let crossing_out = returned && self.previous_ball_y < NET_Y && p.y >= NET_Y;
        let cleared = if crossing_out {
            p.z > NET_TOP_Z
        } else {
            before.cleared_net
        };
        let own_half = contact && s.on_table && p.y < NET_Y;
        let lands = !own_half && cleared && s.on_table && p.y >= NET_Y;
        let terminated = (crossing_out && !cleared) || own_half || lands || s.parked;
        let at = Bounce { x: p.x, y: p.y };
        let inside = p.y < TABLE_LENGTH_Y;
        self.info = EpisodeInfo {
            incoming_valid: before.incoming_valid || (!before.contact && crossed && p.y > 0 && p.y
                < NET_Y && s.on_table),
            committed: before.committed || s.committed,
            contact,
            returned,
            cleared_net: cleared,
            returned_in: if lands {
                inside
            } else {
                before.returned_in
            },
            bounced_own_half: before.bounced_own_half || own_half,
            net_fault: before.net_fault || (crossing_out && !cleared),
            peak_outgoing_y: if moving_away && v.y > before.peak_outgoing_y {
                v.y
            } else {
                before.peak_outgoing_y
            },
            velocity_before_contact: if first_contact {
                self.previous_ball_velocity
            } else {
                before.velocity_before_contact
            },
            velocity_after_contact: if moving_away {
                v
            } else {
                before.velocity_after_contact
            },
            bounce_xy: if lands {
                Some(at)
            } else {
                before.bounce_xy
            },
        };
        self.incoming_crossed_net = crossed;
        self.contact_active = s.touching_racket;
        self.previous_ball_y = p.y;
        self.previous_ball_velocity = v;
        let first_return = if moving_away && !before.returned {
            Some(v.y)
        } else {
            None
        };
        let net = if crossing_out {
            Some(
                if cleared {
                    NetCrossing::Cleared
                } else {
                    NetCrossing::Fault
                },
            )
        } else {
            None
        };
        let landed = if lands {
            Some(Landing { at, inside })
        } else {
            None
        };
        let stop = terminated || (index + 1 >= repeat && !contact) || index + 1 >= MAX_SUBSTEPS;
        Events { first_contact, first_return, net, own_half, landed, terminated, stop }
    }

    /// Ends a control step that `terminated` or not: one more step counted,
    /// the episode cut off at [`MAX_CONTROL_STEPS`], and over when either
    /// happened. An episode that is over without a contact, or with a
    /// contact but no return, falls short.
    pub fn finish(&mut self, terminated: bool) -> (r: StepEnd)
        requires
            old(self).steps() < usize::MAX,
        ensures
            final(self).steps() == old(self).steps() + 1,
            r.terminated == terminated,
            r.truncated == (final(self).steps() >= MAX_CONTROL_STEPS),
            final(self).is_done() == (r.terminated || r.truncated),
            r.shortfall == (if !(r.terminated || r.truncated) {
                Shortfall::Met
            } else if !old(self).info_spec().contact {
                Shortfall::NoContact
            } else if !old(self).info_spec().returned {
                Shortfall::NoReturn
            } else {
                Shortfall::Met
            }),
            final(self).info_spec() == old(self).info_spec(),
            final(self).previous_y() == old(self).previous_y(),
            final(self).previous_velocity() == old(self).previous_velocity(),
            final(self).crossed_above_net() == old(self).crossed_above_net(),
            final(self).touching() == old(self).touching(),
    {
        self.control_steps = self.control_steps + 1;
        let truncated = self.control_steps >= MAX_CONTROL_STEPS;
        let over = terminated || truncated;
        let shortfall = if !over {
            Shortfall::Met
        } else if !self.info.contact {
            Shortfall::NoContact
        } else if !self.info.returned {
            Shortfall::NoReturn
        } else {
            Shortfall::Met
        };
        self.done = over;
        StepEnd { terminated, truncated, shortfall }
    }
}

} // verus!
