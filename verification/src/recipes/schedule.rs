//! When pours can take place: the timing rules of the schedule, in ticks.
use super::queue::{StepExecutionInfo, STEP_QUEUE_CAPACITY};
use super::Step;
use crate::stations::Station;
use crate::time::{millis_in, ticks_in, Instant, TICK_HZ};
use vstd::prelude::*;

verus! {

/// Ticks that the spout needs to reach a station.
pub const TRAVEL_TICKS: u64 = TICK_HZ;

/// Milliseconds between two starts that are tried in the gap after a pour.
pub const START_STRIDE_MILLIS: u64 = 1000;

/// The tick at which a scheduled pour ends.
pub open spec fn end_of(info: StepExecutionInfo) -> int {
    info.instant.ticks + info.step.duration.ticks
}

/// Ticks from the beginning of a step to the beginning of the next one of its recipe.
pub open spec fn length_of(step: Step) -> int {
    step.duration.ticks + match step.interval {
        Some(interval) => interval.ticks as int,
        None => 0,
    }
}

/// Ticks from the beginning of the first of `steps` to the beginning of number `n`.
pub open spec fn offset_of(steps: Seq<Step>, n: int) -> int
    decreases n,
{
    if n <= 0 {
        0
    } else {
        offset_of(steps, n - 1) + length_of(steps[n - 1])
    }
}

/// Step number `n` of `steps` at `station`, where the first of them begins at the tick `begin`.
pub open spec fn placed_step(
    steps: Seq<Step>,
    station: Station,
    begin: int,
    n: int,
) -> StepExecutionInfo {
    StepExecutionInfo {
        instant: Instant { ticks: (begin + offset_of(steps, n)) as u64 },
        step: steps[n],
        station,
    }
}

/// `steps` one after the other from the tick `begin` on, the latest first.
pub open spec fn placed_steps(
    steps: Seq<Step>,
    station: Station,
    begin: int,
) -> Seq<StepExecutionInfo> {
    Seq::new(
        steps.len(),
        |k: int| placed_step(steps, station, begin, steps.len() - 1 - k),
    )
}

/// The pours `new` and `other` share an instant, their beginnings and ends included.
pub open spec fn touches(new: StepExecutionInfo, other: StepExecutionInfo) -> bool {
    new.instant.ticks <= end_of(other) && other.instant.ticks <= end_of(new)
}

/// All entries behind number `k` begin before the pour `new` is over.
pub open spec fn begun_behind(
    new: StepExecutionInfo,
    existing: Seq<StepExecutionInfo>,
    k: int,
) -> bool {
    forall|m: int|
        k < m < existing.len() ==> #[trigger] existing[m].instant.ticks <= end_of(new)
}

/// The pour `new` touches one of the `existing` ones. They are looked through from the last one to
/// the first, up to one that begins after `new` is over.
pub open spec fn collides(new: StepExecutionInfo, existing: Seq<StepExecutionInfo>) -> bool {
    exists|k: int|
        0 <= k < existing.len() && #[trigger] touches(new, existing[k]) && begun_behind(
            new,
            existing,
            k,
        )
}

/// Entry `k` is looked at: no entry behind it ends the search.
pub open spec fn looked_at(
    new: StepExecutionInfo,
    existing: Seq<StepExecutionInfo>,
    k: int,
) -> bool {
    &&& begun_behind(new, existing, k)
    &&& forall|m: int| k < m < existing.len() ==> !#[trigger] touches(new, existing[m])
}

/// All instants that the collision check computes can be represented.
pub open spec fn collision_check_fits(
    new: StepExecutionInfo,
    existing: Seq<StepExecutionInfo>,
) -> bool {
    &&& end_of(new) <= u64::MAX
    &&& forall|k: int|
        0 <= k < existing.len() && #[trigger] looked_at(new, existing, k) ==> end_of(existing[k])
            <= u64::MAX
}

/// Step number `n` of `steps`, begun with at the tick `begin`, collides with `existing`.
pub open spec fn step_hits(
    steps: Seq<Step>,
    station: Station,
    begin: int,
    existing: Seq<StepExecutionInfo>,
    n: int,
) -> bool {
    collides(placed_step(steps, station, begin, n), existing)
}

/// None of `steps`, begun with at the tick `begin`, collides with `existing`.
pub open spec fn start_is_free(
    steps: Seq<Step>,
    station: Station,
    begin: int,
    existing: Seq<StepExecutionInfo>,
) -> bool {
    forall|n: int| 0 <= n < steps.len() ==> !#[trigger] step_hits(steps, station, begin, existing, n)
}

/// All instants that are computed when step number `n` is tried can be represented.
pub open spec fn trial_step_fits(
    steps: Seq<Step>,
    station: Station,
    begin: int,
    existing: Seq<StepExecutionInfo>,
    n: int,
) -> bool {
    &&& begin + offset_of(steps, n + 1) <= u64::MAX
    &&& collision_check_fits(placed_step(steps, station, begin, n), existing)
}

/// None of the steps before number `n` collides with `existing`.
pub open spec fn trial_reaches(
    steps: Seq<Step>,
    station: Station,
    begin: int,
    existing: Seq<StepExecutionInfo>,
    n: int,
) -> bool {
    forall|m: int| 0 <= m < n ==> !#[trigger] step_hits(steps, station, begin, existing, m)
}

/// Trying `steps` from the tick `begin` on computes no instant that cannot be represented. The
/// steps are tried in order, up to the first that collides.
pub open spec fn trial_fits(
    steps: Seq<Step>,
    station: Station,
    begin: int,
    existing: Seq<StepExecutionInfo>,
) -> bool {
    forall|n: int|
        0 <= n < steps.len() && trial_reaches(steps, station, begin, existing, n)
            ==> #[trigger] trial_step_fits(steps, station, begin, existing, n)
}

/// The first millisecond at which steps may begin after entry `i` of the queue.
pub open spec fn first_start_millis(queue: Seq<StepExecutionInfo>, i: int) -> int {
    millis_in(end_of(queue[i]) + TRAVEL_TICKS)
}

/// The last millisecond at which steps may begin before the entry that follows entry `i`.
pub open spec fn last_start_millis(queue: Seq<StepExecutionInfo>, i: int) -> int {
    millis_in(queue[i - 1].instant.ticks - TRAVEL_TICKS)
}

/// Start number `k` of those that are tried between entry `i` of the queue and the next one.
pub open spec fn start_millis(queue: Seq<StepExecutionInfo>, i: int, k: int) -> int {
    first_start_millis(queue, i) + START_STRIDE_MILLIS * k
}

/// Start number `k` between entry `i` and the next one is among those that are tried.
pub open spec fn is_start(queue: Seq<StepExecutionInfo>, i: int, k: int) -> bool {
    0 <= k && start_millis(queue, i, k) <= last_start_millis(queue, i)
}

/// Start number `k` between entry `i` and the next one suits `steps`: they collide with none of the
/// pours that are due after entry `i`.
pub open spec fn start_suits(
    queue: Seq<StepExecutionInfo>,
    steps: Seq<Step>,
    station: Station,
    i: int,
    k: int,
) -> bool {
    &&& is_start(queue, i, k)
    &&& start_is_free(steps, station, ticks_in(start_millis(queue, i, k)), queue.take(i))
}

/// `steps` can begin between entry `i` of the queue and the next one, in a rest of a recipe.
pub open spec fn attacks_can_follow(
    queue: Seq<StepExecutionInfo>,
    steps: Seq<Step>,
    station: Station,
    i: int,
) -> bool {
    &&& 0 < i < queue.len()
    &&& queue[i].step.interval is Some
    &&& exists|k: int| #[trigger] start_suits(queue, steps, station, i, k)
}

/// Some rest in the queue has room for `steps` to begin.
pub open spec fn attacks_have_gap(
    queue: Seq<StepExecutionInfo>,
    steps: Seq<Step>,
    station: Station,
) -> bool {
    exists|i: int| #[trigger] attacks_can_follow(queue, steps, station, i)
}

/// No start before number `k` between entry `i` and the next one suits `steps`.
pub open spec fn no_earlier_start_suits(
    queue: Seq<StepExecutionInfo>,
    steps: Seq<Step>,
    station: Station,
    i: int,
    k: int,
) -> bool {
    forall|m: int| 0 <= m < k ==> !#[trigger] start_suits(queue, steps, station, i, m)
}

/// Trying `steps` from start number `k` between entry `i` and the next one computes no instant that
/// cannot be represented.
pub open spec fn start_fits(
    queue: Seq<StepExecutionInfo>,
    steps: Seq<Step>,
    station: Station,
    i: int,
    k: int,
) -> bool {
    trial_fits(steps, station, ticks_in(start_millis(queue, i, k)), queue.take(i))
}

/// `steps` begin in a rest, at start number `k` between entry `i` of the queue and the next one: it
/// is the first start that suits them there, and no earlier rest has one. An earlier rest follows an
/// entry that stands further behind.
pub open spec fn is_first_start(
    queue: Seq<StepExecutionInfo>,
    steps: Seq<Step>,
    station: Station,
    i: int,
    k: int,
) -> bool {
    &&& 0 < i < queue.len()
    &&& queue[i].step.interval is Some
    &&& start_suits(queue, steps, station, i, k)
    &&& no_earlier_start_suits(queue, steps, station, i, k)
    &&& forall|m: int|
        i < m < queue.len() ==> !#[trigger] attacks_can_follow(queue, steps, station, m)
}

/// All instants that are computed when `steps` are tried after entry `i` can be represented.
pub open spec fn attacks_entry_fits(
    queue: Seq<StepExecutionInfo>,
    steps: Seq<Step>,
    station: Station,
    i: int,
) -> bool {
    &&& end_of(queue[i]) <= u64::MAX
    &&& i == 0 ==> end_of(queue[i]) + TRAVEL_TICKS + offset_of(steps, steps.len() as int)
        <= u64::MAX
    &&& i > 0 && queue[i].step.interval is Some ==> {
        &&& end_of(queue[i]) + TRAVEL_TICKS <= u64::MAX
        &&& queue[i - 1].instant.ticks >= TRAVEL_TICKS
        &&& forall|k: int|
            is_start(queue, i, k) && no_earlier_start_suits(queue, steps, station, i, k)
                ==> #[trigger] start_fits(queue, steps, station, i, k)
    }
}

/// `steps` can be scheduled at `now` without leaving the range of the clock or of the queue. The
/// entries are gone through from the last one to the first, up to one with room after it.
pub open spec fn attacks_fit(
    queue: Seq<StepExecutionInfo>,
    steps: Seq<Step>,
    station: Station,
    now: Instant,
) -> bool {
    &&& queue.len() + steps.len() <= STEP_QUEUE_CAPACITY
    &&& if queue.len() == 0 {
        now.ticks + TRAVEL_TICKS + offset_of(steps, steps.len() as int) <= u64::MAX
    } else {
        forall|i: int|
            0 <= i < queue.len() && (forall|m: int|
                i < m < queue.len() ==> !#[trigger] attacks_can_follow(queue, steps, station, m))
                ==> #[trigger] attacks_entry_fits(queue, steps, station, i)
    }
}

/// The tick at which attacks begin that are scheduled at `now` after everything else.
pub open spec fn attacks_begin(queue: Seq<StepExecutionInfo>, now: Instant) -> int {
    if queue.len() == 0 {
        now.ticks + TRAVEL_TICKS
    } else {
        end_of(queue[0]) + TRAVEL_TICKS
    }
}

/// The scald `step` has room between entry `i` of the queue and the next one, in a rest of a
/// recipe, with the time to travel before and after it.
pub open spec fn scald_can_follow(queue: Seq<StepExecutionInfo>, step: Step, i: int) -> bool {
    &&& 0 < i < queue.len()
    &&& queue[i].step.interval is Some
    &&& end_of(queue[i]) + TRAVEL_TICKS + step.duration.ticks <= queue[i - 1].instant.ticks
        - TRAVEL_TICKS
}

/// The last entry up to `from` that has room for the scald `step` after it; where none has, the
/// first entry of the queue, which nothing follows.
pub open spec fn scald_index(queue: Seq<StepExecutionInfo>, step: Step, from: int) -> int
    decreases from,
{
    if from <= 0 {
        0
    } else if scald_can_follow(queue, step, from) {
        from
    } else {
        scald_index(queue, step, from - 1)
    }
}

/// All instants that are computed when the scald `step` is tried after entry `i` can be
/// represented.
pub open spec fn scald_entry_fits(queue: Seq<StepExecutionInfo>, step: Step, i: int) -> bool {
    &&& end_of(queue[i]) <= u64::MAX
    &&& i == 0 ==> end_of(queue[i]) + TRAVEL_TICKS <= u64::MAX
    &&& i > 0 && queue[i].step.interval is Some ==> {
        &&& end_of(queue[i]) + TRAVEL_TICKS + step.duration.ticks <= u64::MAX
        &&& queue[i - 1].instant.ticks >= TRAVEL_TICKS
    }
}

/// The scald `step` can be scheduled at `now` without leaving the range of the clock or of the
/// queue. The entries are gone through from the last one to the one that it is put after.
pub open spec fn scald_fits(queue: Seq<StepExecutionInfo>, step: Step, now: Instant) -> bool {
    if queue.len() == 0 {
        now.ticks + TRAVEL_TICKS <= u64::MAX
    } else {
        &&& queue.len() < STEP_QUEUE_CAPACITY
        &&& forall|i: int|
            scald_index(queue, step, queue.len() - 1) <= i < queue.len()
                ==> #[trigger] scald_entry_fits(queue, step, i)
    }
}

/// The queue with the scald `step` for `station` in it, scheduled at `now`: after everything else,
/// or in the earliest rest that has room for it.
pub open spec fn with_scald(
    queue: Seq<StepExecutionInfo>,
    station: Station,
    step: Step,
    now: Instant,
) -> Seq<StepExecutionInfo> {
    if queue.len() == 0 {
        seq![
            StepExecutionInfo {
                instant: Instant { ticks: (now.ticks + TRAVEL_TICKS) as u64 },
                step,
                station,
            },
        ]
    } else {
        let i = scald_index(queue, step, queue.len() - 1);
        queue.insert(
            i,
            StepExecutionInfo {
                instant: Instant { ticks: (end_of(queue[i]) + TRAVEL_TICKS) as u64 },
                step,
                station,
            },
        )
    }
}

/// Offsets grow with the number of the step.
pub proof fn lemma_offset_grows(steps: Seq<Step>, m: int, n: int)
    requires
        m <= n,
    ensures
        0 <= offset_of(steps, m) <= offset_of(steps, n),
    decreases n,
{
    if n > 0 {
        if m < n {
            lemma_offset_grows(steps, m, n - 1);
        } else {
            lemma_offset_grows(steps, m - 1, n - 1);
        }
    }
}

/// Where `steps` collide with nothing and the trial of them computes no instant that cannot be
/// represented, they all end in time.
pub proof fn lemma_free_start_fits(
    steps: Seq<Step>,
    station: Station,
    begin: int,
    existing: Seq<StepExecutionInfo>,
)
    requires
        begin <= u64::MAX,
        start_is_free(steps, station, begin, existing),
        trial_fits(steps, station, begin, existing),
    ensures
        begin + offset_of(steps, steps.len() as int) <= u64::MAX,
{
    if steps.len() > 0 {
        assert(trial_step_fits(steps, station, begin, existing, steps.len() - 1));
    }
}

/// The place of a scald is an entry up to `from`: the first of the queue, or one with room after it.
pub proof fn lemma_scald_index(queue: Seq<StepExecutionInfo>, step: Step, from: int)
    ensures
        0 <= scald_index(queue, step, from),
        from >= 0 ==> scald_index(queue, step, from) <= from,
        scald_index(queue, step, from) > 0 ==> scald_can_follow(
            queue,
            step,
            scald_index(queue, step, from),
        ),
    decreases from,
{
    if from > 0 && !scald_can_follow(queue, step, from) {
        lemma_scald_index(queue, step, from - 1);
    }
}

} // verus!
