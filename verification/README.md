# coffee_stations

The scheduling core of a coffee machine that serves its brewing stations with one spout, written in
Verus, and the firmware around it.

- `src/time.rs`: instants and durations in clock ticks.
- `src/stations.rs`, `src/leds.rs`, `src/buttons.rs`: the stages of a station, what its light shows,
  and what a press of its button means.
- `src/recipes.rs`: recipes. Below it:
  - `controller.rs` leads the recipe of one station from stage to stage; `controller_laws.rs` states
    what holds of a station throughout.
  - `schedule.rs` defines when pours can take place, `placement.rs` finds the place of new ones, and
    `queue.rs` holds the queue of scheduled pours.
  - `executor.rs` schedules the pours of all stations and carries them out. `schedule_laws.rs` states
    what holds of the schedule throughout: its queue stays in order, pours that did not overlap still
    do not after an event, attacks that begin in a rest then share no time with a queued pour, and
    the count of a station is the number of its queued pours. Where pours begin together, sorting
    leaves their order open, so of two such pours, one of which takes time, either may come out in
    front. `run_laws.rs` states what holds from turn to turn: an idle executor
    pours a scald or attacks in their order, and one report follows the last pour.
- `app/`: the tasks, channels, timers and pins of the firmware, and what it logs.

`Cargo.toml` takes `embassy-executor` with `arch-std`, which builds on a host. The chip takes
`arch-cortex-m` in its place, together with `cortex-m-rt`; for it the firmware is `no_std` and logs
through `defmt`.

Verified functions do not panic. Where an event cannot be handled without leaving the range of the
clock or of the queue, the library says so and the firmware stops.
