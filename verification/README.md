# pingpong_bot

The decision-making core of a table-tennis robot, verified with Verus: how a
flying ball is tracked from camera detections, what trajectory is handed to
the arm, how the per-camera colour masks are stored, and what the simulated
rig decides on every physics tick of a shot.

## Layout

- `src/vision/contract.rs` — `State`, `Track`, `Trajectory`; interpolation in
  time (`Track::at_time`) and the crossing of a hit plane (`Track::at_plane`).
- `src/vision/fit.rs` — the batch tracker: which observations stay in the fit,
  when a fit stands, when a track ends, and what is handed on.
- `src/vision/raw.rs` — the model-free raw path (mutual-nearest pairing of the
  two cameras' sightings) and the bounce found in it.
- `src/vision/ekf.rs` — the recursive tracker's bookkeeping: seeding from two
  cameras, the chi-square gate, turning back, leaving the volume.
- `src/vision/views.rs` — which sightings a starting guess uses: per camera,
  the one nearest an instant, and the first and last one.
- `src/vision/seed.rs` — seed time, view skew and the choice of a seed point.
- `src/vision/detect/colormask/` — colour-mask parameters and the per-camera
  bundle (sorted by camera id, read-after-write on upsert).
- `src/sim/` — the shot's swing decisions, the training rig's episode
  bookkeeping, the background bang-bang planner's request bookkeeping, and
  when a ball leaves play.
- `app/` — I/O and the parts that need floating point: JSON files, the
  worker thread, tunables, shooter geometry, and the loops that drive the
  trackers over their numerics.

Floating-point numerics (camera projection, triangulation, flight
integration, Kalman algebra) are not part of the library. Both trackers are
driven step by step: `observe` takes in a frame and answers with the next
piece of numeric work it needs (`fit::Ask`, `ekf::Ask`) or with the frame's
outcome; the caller does the work and hands the result back through
`resume`, until the frame is done. Every decision between two pieces of
numeric work — which sightings stay, whether a window is fitted, when a fit
stands, the outlier limit, the measured states, the spin from the first
bounce, the trigger latch, the chi-square gate, turning back, when a track
ends — is made by these verified steps, and their contracts say exactly what
each answer leads to. `app/` holds the loops that drive them over the
`Numerics` and `Filter` traits; this crate ships no implementation of those
traits: the camera models and the flight physics they need are not part of
it, and the tests drive the trackers with simple stand-ins. The tracker's
tuning (window, stale gap, outlier limit, …) is given to `Fit::new` as
`FitLimits`, next to the calibration it belongs to.

## Units

Lengths are integer micrometres, velocities µm/s, spins µrad/s, times
nanoseconds, so that every rule is exact.
