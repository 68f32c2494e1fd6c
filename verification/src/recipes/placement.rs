//! Finds the place of new pours in the schedule.
use super::queue::{StepExecutionInfo, STEP_QUEUE_CAPACITY};
use super::schedule::{
    attacks_begin, attacks_can_follow, attacks_entry_fits, attacks_fit, attacks_have_gap,
    collides, collision_check_fits, end_of, is_first_start, is_start, last_start_millis,
    lemma_free_start_fits, lemma_offset_grows, lemma_scald_index, length_of, looked_at,
    no_earlier_start_suits, offset_of, placed_step, scald_entry_fits, scald_fits, scald_index,
    start_fits, start_is_free, start_millis, start_suits, step_hits, touches, trial_fits,
    trial_reaches, trial_step_fits, START_STRIDE_MILLIS, TRAVEL_TICKS,
};
use super::Step;
use crate::stations::Station;
use crate::time::{ticks_in, Duration, Instant};
use vstd::prelude::*;

verus! {

/// Whether the pour `step` collides with one of `existing_steps`, or `None` where an instant that
/// the answer takes cannot be represented.
fn checked_collisions(step: &StepExecutionInfo, existing_steps: &[StepExecutionInfo]) -> (r: Option<
    bool,
>)
    ensures
        r is Some <==> collision_check_fits(*step, existing_steps@),
        r matches Some(hit) ==> hit == collides(*step, existing_steps@),
{
    let new_end = match step.instant.checked_add(step.step.duration) {
        Some(new_end) => new_end,
        None => {
            return None;
        },
    };
    let mut k: usize = existing_steps.len();
    while k > 0
        invariant
            k <= existing_steps@.len(),
            new_end.ticks == end_of(*step),
            looked_at(*step, existing_steps@, k - 1),
            forall|m: int|
                k <= m < existing_steps@.len() ==> end_of(#[trigger] existing_steps@[m]) <= u64::MAX,
        decreases k,
    {
        k = k - 1;
        let other = existing_steps[k];
        let end = match other.instant.checked_add(other.step.duration) {
            Some(end) => end,
            None => {
                return None;
            },
        };
        if other.instant.ticks > new_end.ticks {
            return Some(false);
        }
        if step.instant.ticks <= end.ticks {
            assert(touches(*step, existing_steps@[k as int]));
            return Some(true);
        }
    }
    Some(false)
}

/// Whether the pour `step` shares an instant with one of `existing_steps`, which stand in the order
/// of the queue.
pub fn step_has_collisions(
    step: &StepExecutionInfo,
    existing_steps: &[StepExecutionInfo],
) -> (hit: bool)
    requires
        collision_check_fits(*step, existing_steps@),
    ensures
        hit == collides(*step, existing_steps@),
{
    checked_collisions(step, existing_steps).unwrap()
}

/// The time that the spout needs to reach a station.
pub(crate) fn travel_time() -> (duration: Duration)
    ensures
        duration.ticks == TRAVEL_TICKS,
{
    Duration::from_secs(1)
}

/// The time from the beginning of a step to the beginning of the next one of its recipe, if it can
/// be represented.
pub(crate) fn checked_length(step: &Step) -> (length: Option<Duration>)
    ensures
        length == if length_of(*step) <= u64::MAX {
            Some(Duration { ticks: length_of(*step) as u64 })
        } else {
            None
        },
{
    match step.interval {
        Some(interval) => step.duration.checked_add(interval),
        None => Some(step.duration),
    }
}

/// Whether `steps`, begun with at `begin`, can do without a collision with `existing_steps`, or
/// `None` where an instant that the answer takes cannot be represented.
fn checked_trial(
    steps: &[Step],
    station: Station,
    begin: Instant,
    existing_steps: &[StepExecutionInfo],
) -> (r: Option<bool>)
    ensures
        r is Some <==> trial_fits(steps@, station, begin.ticks as int, existing_steps@),
        r matches Some(free) ==> free == start_is_free(
            steps@,
            station,
            begin.ticks as int,
            existing_steps@,
        ),
{
    let ghost start = begin.ticks as int;
    let mut accumulator = begin;
    let mut n: usize = 0;
    while n < steps.len()
        invariant
            n <= steps@.len(),
            start == begin.ticks,
            accumulator.ticks == start + offset_of(steps@, n as int),
            trial_reaches(steps@, station, start, existing_steps@, n as int),
            forall|m: int|
                0 <= m < n ==> #[trigger] trial_step_fits(
                    steps@,
                    station,
                    start,
                    existing_steps@,
                    m,
                ),
        decreases steps@.len() - n,
    {
        let step = steps[n];
        let info = StepExecutionInfo { instant: accumulator, step, station };
        assert(info == placed_step(steps@, station, start, n as int));
        // Decided by the checks below.
        let ghost fits = trial_step_fits(steps@, station, start, existing_steps@, n as int);
        proof {
            lemma_offset_grows(steps@, 0, n as int);
        }
        let length = match checked_length(&step) {
            Some(length) => length,
            None => {
                return None;
            },
        };
        accumulator =
        match accumulator.checked_add(length) {
            Some(next) => next,
            None => {
                return None;
            },
        };
        match checked_collisions(&info, existing_steps) {
            Some(true) => {
                assert(step_hits(steps@, station, start, existing_steps@, n as int));
                return Some(false);
            },
            Some(false) => {},
            None => {
                return None;
            },
        }
        n = n + 1;
    }
    Some(true)
}

/// The first instant between entry `i` of the queue and the next one at which `steps` can begin, if
/// there is one; or `None` where an instant that the answer takes cannot be represented.
fn checked_can_follow(
    queue: &[StepExecutionInfo],
    steps: &[Step],
    station: Station,
    i: usize,
) -> (r: Option<Option<Instant>>)
    requires
        0 < i < queue@.len(),
    ensures
        r is Some <==> attacks_entry_fits(queue@, steps@, station, i as int),
        r matches Some(found) ==> (found is Some <==> attacks_can_follow(
            queue@,
            steps@,
            station,
            i as int,
        )),
        r matches Some(Some(begin)) ==> exists|k: int|
            {
                &&& #[trigger] start_suits(queue@, steps@, station, i as int, k)
                &&& no_earlier_start_suits(queue@, steps@, station, i as int, k)
                &&& start_fits(queue@, steps@, station, i as int, k)
                &&& begin.ticks == ticks_in(start_millis(queue@, i as int, k))
            },
{
    let info = queue[i];
    let end = match info.instant.checked_add(info.step.duration) {
        Some(end) => end,
        None => {
            return None;
        },
    };
    if info.step.interval.is_none() {
        return Some(None);
    }
    let begin = match end.checked_add(travel_time()) {
        Some(begin) => begin,
        None => {
            return None;
        },
    };
    let next_step_begin = queue[i - 1].instant;
    let last = match next_step_begin.checked_sub(travel_time()) {
        Some(last) => last,
        None => {
            return None;
        },
    };
    let existing_steps = vstd::slice::slice_subrange(queue, 0, i);
    assert(existing_steps@ == queue@.take(i as int));
    let interval_range_end = last.as_millis();
    let mut start = begin.as_millis();
    let ghost mut k: int = 0;
    let mut more = start <= interval_range_end;
    while more
        invariant
            0 < i < queue@.len(),
            queue@[i as int].step.interval is Some,
            end_of(queue@[i as int]) + TRAVEL_TICKS <= u64::MAX,
            queue@[i - 1].instant.ticks >= TRAVEL_TICKS,
            existing_steps@ == queue@.take(i as int),
            interval_range_end == last_start_millis(queue@, i as int),
            0 <= k,
            more ==> start == start_millis(queue@, i as int, k) && start <= interval_range_end,
            !more ==> start_millis(queue@, i as int, k) > interval_range_end,
            no_earlier_start_suits(queue@, steps@, station, i as int, k),
            forall|m: int|
                0 <= m < k ==> #[trigger] start_fits(queue@, steps@, station, i as int, m),
        decreases (if more { interval_range_end - start + 1 } else { 0 }),
    {
        assert(is_start(queue@, i as int, k));
        assert(ticks_in(start as int) <= u64::MAX);
        let potential_step_begin = Instant::from_millis(start);
        match checked_trial(steps, station, potential_step_begin, existing_steps) {
            Some(true) => {
                assert(start_suits(queue@, steps@, station, i as int, k));
                return Some(Some(potential_step_begin));
            },
            Some(false) => {},
            None => {
                assert(!start_fits(queue@, steps@, station, i as int, k));
                return None;
            },
        }
        assert(!start_suits(queue@, steps@, station, i as int, k));
        if interval_range_end - start < START_STRIDE_MILLIS {
            more = false;
        } else {
            start = start + START_STRIDE_MILLIS;
        }
        proof {
            k = k + 1;
        }
    }
    Some(None)
}

/// Where the attacks of a recipe go.
pub(crate) enum AttacksPlace {
    /// After everything else that is scheduled, from this instant on.
    After(Instant),
    /// In a rest of a recipe that is scheduled already, from this instant on.
    InRest(Instant),
}

/// The instant at which the last of `steps` is over, rest included, where the first begins at
/// `begin`, if it can be represented.
fn checked_run(begin: Instant, steps: &[Step]) -> (over: Option<Instant>)
    ensures
        over == if begin.ticks + offset_of(steps@, steps@.len() as int) <= u64::MAX {
            Some(Instant { ticks: (begin.ticks + offset_of(steps@, steps@.len() as int)) as u64 })
        } else {
            None
        },
{
    let mut accumulator = begin;
    let mut n: usize = 0;
    while n < steps.len()
        invariant
            n <= steps@.len(),
            accumulator.ticks == begin.ticks + offset_of(steps@, n as int),
        decreases steps@.len() - n,
    {
        proof {
            lemma_offset_grows(steps@, 0, n as int);
            lemma_offset_grows(steps@, n + 1, steps@.len() as int);
        }
        let length = match checked_length(&steps[n]) {
            Some(length) => length,
            None => {
                return None;
            },
        };
        accumulator =
        match accumulator.checked_add(length) {
            Some(next) => next,
            None => {
                return None;
            },
        };
        n = n + 1;
    }
    Some(accumulator)
}

/// Where `steps` go if they are scheduled at `now`, or `None` where that would leave the range of
/// the clock or of the queue.
pub(crate) fn place_attacks(
    queue: &[StepExecutionInfo],
    steps: &[Step],
    station: Station,
    now: Instant,
) -> (place: Option<AttacksPlace>)
    ensures
        place is Some <==> attacks_fit(queue@, steps@, station, now),
        place matches Some(AttacksPlace::InRest(begin)) ==> {
            &&& begin.ticks + offset_of(steps@, steps@.len() as int) <= u64::MAX
            &&& attacks_have_gap(queue@, steps@, station)
            &&& exists|i: int, k: int|
                {
                    &&& #[trigger] is_first_start(queue@, steps@, station, i, k)
                    &&& begin.ticks == ticks_in(start_millis(queue@, i, k))
                }
        },
        place matches Some(AttacksPlace::After(begin)) ==> {
            &&& begin.ticks + offset_of(steps@, steps@.len() as int) <= u64::MAX
            &&& !attacks_have_gap(queue@, steps@, station)
            &&& begin.ticks == attacks_begin(queue@, now)
        },
{
    if queue.len() > STEP_QUEUE_CAPACITY || steps.len() > STEP_QUEUE_CAPACITY - queue.len() {
        return None;
    }
    if queue.len() == 0 {
        let begin = match now.checked_add(travel_time()) {
            Some(begin) => begin,
            None => {
                proof {
                    lemma_offset_grows(steps@, 0, steps@.len() as int);
                }
                return None;
            },
        };
        if checked_run(begin, steps).is_none() {
            return None;
        }
        return Some(AttacksPlace::After(begin));
    }
    let mut i: usize = queue.len() - 1;
    while i > 0
        invariant
            i < queue@.len(),
            queue@.len() + steps@.len() <= STEP_QUEUE_CAPACITY,
            forall|m: int|
                i < m < queue@.len() ==> !#[trigger] attacks_can_follow(queue@, steps@, station, m),
            forall|m: int|
                i < m < queue@.len() ==> #[trigger] attacks_entry_fits(queue@, steps@, station, m),
        decreases i,
    {
        match checked_can_follow(queue, steps, station, i) {
            Some(Some(begin)) => {
                proof {
                    let k = choose|k: int|
                        {
                            &&& #[trigger] start_suits(queue@, steps@, station, i as int, k)
                            &&& no_earlier_start_suits(queue@, steps@, station, i as int, k)
                            &&& start_fits(queue@, steps@, station, i as int, k)
                            &&& begin.ticks == ticks_in(start_millis(queue@, i as int, k))
                        };
                    assert(is_first_start(queue@, steps@, station, i as int, k));
                    lemma_free_start_fits(
                        steps@,
                        station,
                        begin.ticks as int,
                        queue@.take(i as int),
                    );
                }
                return Some(AttacksPlace::InRest(begin));
            },
            Some(None) => {},
            None => {
                return None;
            },
        }
        i = i - 1;
    }
    assert(!attacks_have_gap(queue@, steps@, station));
    let first = queue[0];
    proof {
        lemma_offset_grows(steps@, 0, steps@.len() as int);
    }
    // Decided by the checks below.
    let ghost fits = attacks_entry_fits(queue@, steps@, station, 0);
    let end = match first.instant.checked_add(first.step.duration) {
        Some(end) => end,
        None => {
            return None;
        },
    };
    let begin = match end.checked_add(travel_time()) {
        Some(begin) => begin,
        None => {
            return None;
        },
    };
    if checked_run(begin, steps).is_none() {
        return None;
    }
    Some(AttacksPlace::After(begin))
}

/// Where the scald `step` goes in a queue that is not empty: the entry that it is put in front of,
/// and the instant at which it begins; or `None` where that would leave the range of the clock or of
/// the queue.
pub(crate) fn place_scald(queue: &[StepExecutionInfo], step: &Step) -> (place: Option<
    (usize, Instant),
>)
    requires
        queue@.len() > 0,
    ensures
        forall|now: Instant| place is Some <==> #[trigger] scald_fits(queue@, *step, now),
        place matches Some((i, begin)) ==> {
            &&& i == scald_index(queue@, *step, queue@.len() - 1)
            &&& 0 <= i < queue@.len() < STEP_QUEUE_CAPACITY
            &&& begin.ticks == end_of(queue@[i as int]) + TRAVEL_TICKS
        },
{
    let ghost index = scald_index(queue@, *step, queue@.len() - 1);
    proof {
        lemma_scald_index(queue@, *step, queue@.len() - 1);
    }
    if queue.len() >= STEP_QUEUE_CAPACITY {
        return None;
    }
    let mut i: usize = queue.len() - 1;
    loop
        invariant
            i < queue@.len() < STEP_QUEUE_CAPACITY,
            index == scald_index(queue@, *step, queue@.len() - 1),
            index == scald_index(queue@, *step, i as int),
            index <= i,
            forall|m: int|
                i < m < queue@.len() ==> #[trigger] scald_entry_fits(queue@, *step, m),
        decreases i,
    {
        // Decided by the checks below.
        let ghost fits = scald_entry_fits(queue@, *step, i as int);
        proof {
            lemma_scald_index(queue@, *step, i - 1);
        }
        let info = queue[i];
        let end = match info.instant.checked_add(info.step.duration) {
            Some(end) => end,
            None => {
                return None;
            },
        };
        if i == 0 {
            return match end.checked_add(travel_time()) {
                Some(begin) => Some((0, begin)),
                None => None,
            };
        }
        if info.step.interval.is_some() {
            let begin = match end.checked_add(travel_time()) {
                Some(begin) => begin,
                None => {
                    return None;
                },
            };
            let new_step_end = match begin.checked_add(step.duration) {
                Some(new_step_end) => new_step_end,
                None => {
                    return None;
                },
            };
            let limit = match queue[i - 1].instant.checked_sub(travel_time()) {
                Some(limit) => limit,
                None => {
                    return None;
                },
            };
            if new_step_end.ticks <= limit.ticks {
                return Some((i, begin));
            }
        }
        i = i - 1;
    }
}

} // verus!
