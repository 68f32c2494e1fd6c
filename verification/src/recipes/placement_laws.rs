//! Which events are handled, and where the pours go that they ask for. The laws speak of ticks and
//! of the entries of the queue alone.
use super::executor::{Context, ContextView, Event, EventView};
use super::queue::{latest_first, queue_entries, sorted_latest_first, StepExecutionInfo, StepQueue};
use super::schedule::{
    attacks_can_follow, attacks_entry_fits, attacks_have_gap, begun_behind, collides,
    collision_check_fits, end_of, is_first_start, is_start, lemma_offset_grows,
    lemma_scald_index, length_of, looked_at, no_earlier_start_suits, offset_of, placed_step,
    placed_steps, scald_can_follow, scald_entry_fits, scald_index, start_fits, start_is_free,
    start_millis, start_suits, step_hits, touches, trial_fits, trial_step_fits,
};
use super::schedule_laws::law_collision_check_is_complete;
use super::{recipe_steps, RecipeSteps, Step, MAX_RECIPE_STEPS};
use crate::stations::{PerStationData, Station, MAX_STATIONS};
use crate::time::{millis_in, ticks_in, Instant, TICK_HZ};
use vstd::prelude::*;
use vstd::seq_lib::lemma_multiset_commutative;

verus! {

/// The tick at which a pour is over.
pub open spec fn over_at(info: StepExecutionInfo) -> int {
    info.instant.ticks + info.step.duration.ticks
}

/// Ticks that a step and the rest after it take.
pub open spec fn time_of(step: Step) -> int {
    if step.interval is Some {
        step.duration.ticks + step.interval->0.ticks
    } else {
        step.duration.ticks as int
    }
}

/// Ticks that the first `n` of `steps`, and the rests after them, take together.
pub open spec fn time_before(steps: Seq<Step>, n: int) -> int
    decreases n,
{
    if n <= 0 {
        0
    } else {
        time_before(steps, n - 1) + time_of(steps[n - 1])
    }
}

/// The entry for step number `n` where the first of `steps` begins at the tick `begin`.
pub open spec fn attack_entry(
    steps: Seq<Step>,
    station: Station,
    begin: int,
    n: int,
) -> StepExecutionInfo {
    StepExecutionInfo {
        instant: Instant { ticks: (begin + time_before(steps, n)) as u64 },
        step: steps[n],
        station,
    }
}

/// Step number `n`, where the first of `steps` begins at the tick `begin`, is over before `other`
/// begins, or begins after `other` is over.
pub open spec fn keeps_clear(
    steps: Seq<Step>,
    begin: int,
    n: int,
    other: StepExecutionInfo,
) -> bool {
    let starts = begin + time_before(steps, n);
    starts + steps[n].duration.ticks < other.instant.ticks || over_at(other) < starts
}

/// Start number `k` in the rest after entry `i`: a second for the way, in whole milliseconds, and
/// then second by second.
pub open spec fn start_in_rest(queue: Seq<StepExecutionInfo>, i: int, k: int) -> int {
    millis_in(over_at(queue[i]) + TICK_HZ) + 1000 * k
}

/// `steps` have room from start number `k` in the rest after entry `i` on: it leaves a second to the
/// pour after the rest, and all steps keep clear of that pour and of those behind it in time.
pub open spec fn has_room(queue: Seq<StepExecutionInfo>, steps: Seq<Step>, i: int, k: int) -> bool {
    &&& 0 < i < queue.len()
    &&& 0 <= k
    &&& queue[i].step.interval is Some
    &&& start_in_rest(queue, i, k) <= millis_in(queue[i - 1].instant.ticks - TICK_HZ)
    &&& forall|n: int, m: int|
        0 <= n < steps.len() && 0 <= m < i ==> #[trigger] keeps_clear(
            steps,
            ticks_in(start_in_rest(queue, i, k)),
            n,
            queue[m],
        )
}

/// A scald of `step` has room in the rest after entry `i`, with a second before and after it.
pub open spec fn scald_has_room(queue: Seq<StepExecutionInfo>, step: Step, i: int) -> bool {
    &&& 0 < i < queue.len()
    &&& queue[i].step.interval is Some
    &&& over_at(queue[i]) + TICK_HZ + step.duration.ticks + TICK_HZ <= queue[i - 1].instant.ticks
}

/// Every entry is one for which the spout can set out in time, and `time` ticks after it is over
/// the clock still runs.
pub open spec fn leaves_time(queue: Seq<StepExecutionInfo>, time: int) -> bool {
    forall|i: int|
        0 <= i < queue.len() ==> (#[trigger] queue[i]).instant.ticks >= TICK_HZ && over_at(queue[i])
            + time <= u64::MAX
}

/// Both ways to count the time of steps agree.
proof fn lemma_time_before(steps: Seq<Step>, n: int)
    ensures
        time_before(steps, n) == offset_of(steps, n),
    decreases n,
{
    if n > 0 {
        lemma_time_before(steps, n - 1);
    }
}

/// Two pours touch where there is an instant that both of them take.
pub proof fn law_touching_pours_share_an_instant(a: StepExecutionInfo, b: StepExecutionInfo)
    ensures
        touches(a, b) <==> exists|tick: int|
            #[trigger] is_under_way(a, tick) && is_under_way(b, tick),
        touches(a, b) == touches(b, a),
{
    if touches(a, b) {
        let tick = if a.instant.ticks <= b.instant.ticks {
            b.instant.ticks as int
        } else {
            a.instant.ticks as int
        };
        assert(is_under_way(a, tick) && is_under_way(b, tick));
    }
}

/// The pour takes the instant `tick`.
pub open spec fn is_under_way(info: StepExecutionInfo, tick: int) -> bool {
    info.instant.ticks <= tick <= over_at(info)
}

/// In a queue that is in order, a pour collides where it shares an instant with an entry, and the
/// question can be answered wherever all of them are over in time.
pub proof fn law_collision_is_a_shared_instant(
    new: StepExecutionInfo,
    existing: Seq<StepExecutionInfo>,
)
    requires
        forall|i: int, j: int|
            0 <= i < j < existing.len() ==> #[trigger] existing[j].instant.ticks
                <= #[trigger] existing[i].instant.ticks,
    ensures
        collides(new, existing) <==> exists|k: int, tick: int|
            0 <= k < existing.len() && #[trigger] is_under_way(existing[k], tick) && is_under_way(
                new,
                tick,
            ),
        over_at(new) <= u64::MAX && (forall|k: int|
            0 <= k < existing.len() ==> over_at(#[trigger] existing[k]) <= u64::MAX)
            ==> collision_check_fits(new, existing),
{
    law_collision_check_is_complete(new, existing);
    if collides(new, existing) {
        let k = choose|k: int| 0 <= k < existing.len() && #[trigger] touches(new, existing[k]);
        law_touching_pours_share_an_instant(new, existing[k]);
        let tick = choose|tick: int|
            #[trigger] is_under_way(new, tick) && is_under_way(existing[k], tick);
        assert(is_under_way(existing[k], tick));
    }
    if exists|k: int, tick: int|
        0 <= k < existing.len() && #[trigger] is_under_way(existing[k], tick) && is_under_way(
            new,
            tick,
        ) {
        let (k, tick) = choose|k: int, tick: int|
            0 <= k < existing.len() && #[trigger] is_under_way(existing[k], tick) && is_under_way(
                new,
                tick,
            );
        assert(touches(new, existing[k]));
    }
}

/// The search for a collision goes from the last entry to the first, and ends at an entry that begins
/// after the pour is over: in whatever order the entries stand, the pour collides where it shares an
/// instant with one and none behind that one ends the search.
pub proof fn law_collision_search_ends_at_a_later_pour(
    new: StepExecutionInfo,
    existing: Seq<StepExecutionInfo>,
)
    ensures
        collides(new, existing) <==> exists|k: int, tick: int|
            {
                &&& 0 <= k < existing.len()
                &&& #[trigger] is_under_way(existing[k], tick)
                &&& is_under_way(new, tick)
                &&& forall|m: int|
                    k < m < existing.len() ==> (#[trigger] existing[m]).instant.ticks <= over_at(
                        new,
                    )
            },
{
    if collides(new, existing) {
        let k = choose|k: int|
            0 <= k < existing.len() && #[trigger] touches(new, existing[k]) && begun_behind(
                new,
                existing,
                k,
            );
        law_touching_pours_share_an_instant(new, existing[k]);
        let tick = choose|tick: int|
            #[trigger] is_under_way(new, tick) && is_under_way(existing[k], tick);
        assert(is_under_way(existing[k], tick));
        assert forall|m: int| k < m < existing.len() implies (
        #[trigger] existing[m]).instant.ticks <= over_at(new) by {
            assert(existing[m].instant.ticks <= end_of(new));
        }
    }
    if exists|k: int, tick: int|
        {
            &&& 0 <= k < existing.len()
            &&& #[trigger] is_under_way(existing[k], tick)
            &&& is_under_way(new, tick)
            &&& forall|m: int|
                k < m < existing.len() ==> (#[trigger] existing[m]).instant.ticks <= over_at(new)
        } {
        let (k, tick) = choose|k: int, tick: int|
            {
                &&& 0 <= k < existing.len()
                &&& #[trigger] is_under_way(existing[k], tick)
                &&& is_under_way(new, tick)
                &&& forall|m: int|
                    k < m < existing.len() ==> (#[trigger] existing[m]).instant.ticks <= over_at(
                        new,
                    )
            };
        assert(touches(new, existing[k]));
        assert(begun_behind(new, existing, k));
    }
}

/// In a queue that is in order, a start that is tried suits steps where they have room from it on.
proof fn lemma_suits_where_room(
    queue: Seq<StepExecutionInfo>,
    steps: Seq<Step>,
    station: Station,
    i: int,
    k: int,
)
    requires
        latest_first(queue),
        0 < i < queue.len(),
        queue[i].step.interval is Some,
        is_start(queue, i, k) ==> start_fits(queue, steps, station, i, k) || ticks_in(
            start_millis(queue, i, k),
        ) + offset_of(steps, steps.len() as int) <= u64::MAX,
    ensures
        start_suits(queue, steps, station, i, k) <==> has_room(queue, steps, i, k),
{
    let begin = ticks_in(start_millis(queue, i, k));
    let later = queue.take(i);
    assert(start_millis(queue, i, k) == start_in_rest(queue, i, k));
    if is_start(queue, i, k) {
        assert forall|a: int, b: int| 0 <= a < b < later.len() implies #[trigger]
            later[b].instant.ticks <= #[trigger] later[a].instant.ticks by {
            assert(queue[b].instant.ticks <= queue[a].instant.ticks);
        }
        if start_is_free(steps, station, begin, later) {
            assert forall|n: int, m: int|
                0 <= n < steps.len() && 0 <= m < i implies #[trigger] keeps_clear(
                steps,
                begin,
                n,
                queue[m],
            ) by {
                lemma_tried_step(steps, station, begin, later, n);
                assert(!step_hits(steps, station, begin, later, n));
                law_collision_check_is_complete(placed_step(steps, station, begin, n), later);
                assert(!touches(placed_step(steps, station, begin, n), later[m]));
            }
        }
        if has_room(queue, steps, i, k) {
            lemma_room_is_free(queue, steps, station, i, k, begin);
        }
    }
}

/// A step that is reached when steps are tried begins at an instant that can be represented.
proof fn lemma_tried_step(
    steps: Seq<Step>,
    station: Station,
    begin: int,
    existing: Seq<StepExecutionInfo>,
    n: int,
)
    requires
        0 <= begin,
        0 <= n < steps.len(),
        start_is_free(steps, station, begin, existing),
        trial_fits(steps, station, begin, existing) || begin + offset_of(
            steps,
            steps.len() as int,
        ) <= u64::MAX,
    ensures
        placed_step(steps, station, begin, n).instant.ticks == begin + time_before(steps, n),
{
    lemma_time_before(steps, n);
    lemma_offset_grows(steps, 0, n);
    if trial_fits(steps, station, begin, existing) {
        assert(trial_step_fits(steps, station, begin, existing, n));
        lemma_offset_grows(steps, n, n + 1);
    } else {
        lemma_offset_grows(steps, n, steps.len() as int);
    }
}

/// Steps that have room collide with nothing.
proof fn lemma_room_is_free(
    queue: Seq<StepExecutionInfo>,
    steps: Seq<Step>,
    station: Station,
    i: int,
    k: int,
    begin: int,
)
    requires
        latest_first(queue),
        has_room(queue, steps, i, k),
        begin == ticks_in(start_in_rest(queue, i, k)),
        trial_fits(steps, station, begin, queue.take(i)) || begin + offset_of(
            steps,
            steps.len() as int,
        ) <= u64::MAX,
    ensures
        start_is_free(steps, station, begin, queue.take(i)),
{
    let later = queue.take(i);
    assert forall|n: int| 0 <= n < steps.len() implies !#[trigger] step_hits(
        steps,
        station,
        begin,
        later,
        n,
    ) by {
        lemma_no_hit_up_to(queue, steps, station, i, k, begin, n);
    }
}

/// Of steps that have room, none up to number `n` collides.
proof fn lemma_no_hit_up_to(
    queue: Seq<StepExecutionInfo>,
    steps: Seq<Step>,
    station: Station,
    i: int,
    k: int,
    begin: int,
    n: int,
)
    requires
        latest_first(queue),
        has_room(queue, steps, i, k),
        begin == ticks_in(start_in_rest(queue, i, k)),
        trial_fits(steps, station, begin, queue.take(i)) || begin + offset_of(
            steps,
            steps.len() as int,
        ) <= u64::MAX,
        0 <= n < steps.len(),
    ensures
        forall|m: int|
            0 <= m <= n ==> !#[trigger] step_hits(steps, station, begin, queue.take(i), m),
    decreases n,
{
    let later = queue.take(i);
    if n > 0 {
        lemma_no_hit_up_to(queue, steps, station, i, k, begin, n - 1);
    }
    lemma_time_before(steps, n);
    lemma_offset_grows(steps, 0, n);
    if trial_fits(steps, station, begin, later) {
        assert(trial_step_fits(steps, station, begin, later, n));
        lemma_offset_grows(steps, n, n + 1);
    } else {
        lemma_offset_grows(steps, n, steps.len() as int);
    }
    let new = placed_step(steps, station, begin, n);
    assert forall|m: int| 0 <= m < later.len() implies !#[trigger] touches(new, later[m]) by {
        assert(keeps_clear(steps, begin, n, queue[m]));
    }
}

/// Attacks are handled whenever the station exists, the queue has room for them all, and the clock
/// runs long enough: however many they are, and wherever they go. No attacks at all are handled in
/// any case.
pub proof fn law_attacks_are_handled(
    before: ContextView,
    station: Station,
    steps: Seq<Step>,
    now: Instant,
)
    requires
        steps.len() > 0 ==> {
            &&& station.0 < before.counts.len()
            &&& before.counts[station.0 as int] + steps.len() <= usize::MAX
            &&& before.queue.len() + steps.len() <= MAX_RECIPE_STEPS * MAX_STATIONS
            &&& before.queue.len() == 0 ==> now.ticks + TICK_HZ + time_before(
                steps,
                steps.len() as int,
            ) <= u64::MAX
            &&& leaves_time(before.queue, TICK_HZ + time_before(steps, steps.len() as int))
        },
    ensures
        before.event_fits(EventView::ScheduleAttacks(station, steps), now),
{
    let queue = before.queue;
    let total = offset_of(steps, steps.len() as int);
    lemma_time_before(steps, steps.len() as int);
    if steps.len() > 0 && queue.len() > 0 {
        lemma_offset_grows(steps, 0, steps.len() as int);
        assert forall|i: int| 0 <= i < queue.len() implies #[trigger] attacks_entry_fits(
            queue,
            steps,
            station,
            i,
        ) by {
            assert(over_at(queue[i]) + TICK_HZ + total <= u64::MAX);
            if i > 0 {
                assert(over_at(queue[i - 1]) + TICK_HZ + total <= u64::MAX);
                assert(queue[i - 1].instant.ticks >= TICK_HZ);
                assert forall|k: int|
                    is_start(queue, i, k) && no_earlier_start_suits(
                        queue,
                        steps,
                        station,
                        i,
                        k,
                    ) implies #[trigger] start_fits(queue, steps, station, i, k) by {
                    lemma_trial_in_range(queue, steps, station, i, ticks_in(
                        start_millis(queue, i, k),
                    ));
                }
            }
        }
    }
}

/// Trying steps computes nothing out of range where the clock runs long enough.
proof fn lemma_trial_in_range(
    queue: Seq<StepExecutionInfo>,
    steps: Seq<Step>,
    station: Station,
    i: int,
    begin: int,
)
    requires
        0 <= begin,
        0 <= i <= queue.len(),
        begin + offset_of(steps, steps.len() as int) <= u64::MAX,
        leaves_time(queue, 0) || leaves_time(
            queue,
            TICK_HZ + time_before(steps, steps.len() as int),
        ),
    ensures
        trial_fits(steps, station, begin, queue.take(i)),
{
    let later = queue.take(i);
    lemma_time_before(steps, steps.len() as int);
    lemma_offset_grows(steps, 0, steps.len() as int);
    assert forall|n: int| 0 <= n < steps.len() implies #[trigger] trial_step_fits(
        steps,
        station,
        begin,
        later,
        n,
    ) by {
        let new = placed_step(steps, station, begin, n);
        lemma_offset_grows(steps, 0, n);
        lemma_offset_grows(steps, n + 1, steps.len() as int);
        assert(offset_of(steps, n + 1) == offset_of(steps, n) + length_of(steps[n]));
        assert forall|k: int|
            0 <= k < later.len() && #[trigger] looked_at(new, later, k) implies end_of(later[k])
            <= u64::MAX by {
            assert(later[k] == queue[k]);
            assert(over_at(queue[k]) <= u64::MAX);
        }
    }
}

/// A scald is handled whenever the station exists, the queue has room for one more pour, and the
/// clock runs long enough.
pub proof fn law_scald_is_handled(
    before: ContextView,
    station: Station,
    step: Step,
    now: Instant,
)
    requires
        station.0 < before.counts.len(),
        before.counts[station.0 as int] < usize::MAX,
        before.queue.len() < MAX_RECIPE_STEPS * MAX_STATIONS,
        before.queue.len() == 0 ==> now.ticks + TICK_HZ <= u64::MAX,
        leaves_time(before.queue, TICK_HZ + step.duration.ticks),
    ensures
        before.event_fits(EventView::ScheduleScald(station, step), now),
{
    let queue = before.queue;
    lemma_scald_index(queue, step, queue.len() - 1);
    assert forall|i: int| 0 <= i < queue.len() implies #[trigger] scald_entry_fits(
        queue,
        step,
        i,
    ) by {
        assert(over_at(queue[i]) + TICK_HZ + step.duration.ticks <= u64::MAX);
        if i > 0 {
            assert(queue[i - 1].instant.ticks >= TICK_HZ);
        }
    }
}

/// A cancellation is handled whenever the station exists.
pub proof fn law_cancel_is_handled(before: ContextView, station: Station, now: Instant)
    requires
        station.0 < before.counts.len(),
    ensures
        before.event_fits(EventView::CancelRecipe(station), now),
{
}

/// What is handled stays in the range of the stations, of the counters and of the queue.
pub proof fn law_handled_event_is_in_range(before: ContextView, event: EventView, now: Instant)
    requires
        before.event_fits(event, now),
    ensures
        match event {
            EventView::ScheduleScald(station, _) => {
                &&& station.0 < before.counts.len()
                &&& before.counts[station.0 as int] < usize::MAX
                &&& before.queue.len() > 0 ==> before.queue.len() < MAX_RECIPE_STEPS * MAX_STATIONS
            },
            EventView::ScheduleAttacks(station, steps) => steps.len() > 0 ==> {
                &&& station.0 < before.counts.len()
                &&& before.counts[station.0 as int] + steps.len() <= usize::MAX
                &&& before.queue.len() + steps.len() <= MAX_RECIPE_STEPS * MAX_STATIONS
            },
            EventView::CancelRecipe(station) => station.0 < before.counts.len(),
        },
{
}

/// Scheduling counts exactly the pours that it is asked for, for the station that asks, and a
/// cancellation counts none for its station any more. The other counts stay as they are.
pub proof fn law_event_counts_its_pours(
    before: ContextView,
    event: EventView,
    now: Instant,
    after: ContextView,
    s: int,
)
    requires
        before.event_fits(event, now),
        before.event_leads_to(event, now, after),
        0 <= s < before.counts.len(),
    ensures
        after.counts.len() == before.counts.len(),
        after.counts[s] == match event {
            EventView::ScheduleScald(station, _) => if s == station.0 {
                before.counts[s] + 1
            } else {
                before.counts[s] as int
            },
            EventView::ScheduleAttacks(station, steps) => if s == station.0 {
                before.counts[s] + steps.len()
            } else {
                before.counts[s] as int
            },
            EventView::CancelRecipe(station) => if s == station.0 {
                0
            } else {
                before.counts[s] as int
            },
        },
{
}

/// Scheduling no attacks changes nothing.
pub proof fn law_no_attacks_change_nothing(
    before: ContextView,
    station: Station,
    now: Instant,
    after: ContextView,
)
    requires
        before.event_leads_to(EventView::ScheduleAttacks(station, Seq::empty()), now, after),
    ensures
        after == before,
{
}

/// A cancellation takes the entries for its station out of the queue and leaves the others, in
/// their order.
pub proof fn law_cancel_takes_out_its_entries(
    before: ContextView,
    station: Station,
    now: Instant,
    after: ContextView,
)
    requires
        before.event_leads_to(EventView::CancelRecipe(station), now, after),
    ensures
        after.queue == before.queue.filter(|info: StepExecutionInfo| info.station != station),
        before.cancelled(station) == after,
{
}

/// A scald is put into the queue once, and the other entries stay as they are. It begins a second
/// after entry `i` is over, where `i` is the last entry with room for it in the rest after it, or
/// the first entry of the queue where none has room. With nothing queued it begins in a second.
pub proof fn law_scald_takes_the_last_entry_with_room(
    before: ContextView,
    station: Station,
    step: Step,
    now: Instant,
    after: ContextView,
) -> (i: int)
    requires
        before.event_fits(EventView::ScheduleScald(station, step), now),
        before.event_leads_to(EventView::ScheduleScald(station, step), now, after),
    ensures
        0 <= i < after.queue.len(),
        after.queue.remove(i) == before.queue,
        after.queue[i].step == step,
        after.queue[i].station == station,
        before.queue.len() == 0 ==> after.queue[i].instant.ticks == now.ticks + TICK_HZ,
        before.queue.len() > 0 ==> {
            &&& i < before.queue.len()
            &&& after.queue[i].instant.ticks == over_at(before.queue[i]) + TICK_HZ
            &&& i == 0 || scald_has_room(before.queue, step, i)
            &&& forall|j: int| i < j ==> !#[trigger] scald_has_room(before.queue, step, j)
        },
{
    let queue = before.queue;
    if queue.len() == 0 {
        assert(after.queue.remove(0) =~= queue);
        0
    } else {
        lemma_scald_index(queue, step, queue.len() - 1);
        let i = scald_index(queue, step, queue.len() - 1);
        assert(scald_entry_fits(queue, step, i));
        assert(after.queue.remove(i) =~= queue);
        assert forall|j: int| i < j implies !#[trigger] scald_has_room(queue, step, j) by {
            if j < queue.len() {
                lemma_scald_passes_over(queue, step, queue.len() - 1, j);
            }
        }
        i
    }
}

/// Entries behind the place of a scald have no room for it.
proof fn lemma_scald_passes_over(queue: Seq<StepExecutionInfo>, step: Step, from: int, j: int)
    requires
        scald_index(queue, step, from) < j <= from,
    ensures
        !scald_can_follow(queue, step, j),
    decreases from,
{
    if from > 0 && j < from {
        lemma_scald_passes_over(queue, step, from - 1, j);
    }
}

/// A scald waits no longer than it must: in a queue that is in order it begins no later than in any
/// rest that has room for it, and only where there is none after everything else.
pub proof fn law_scald_takes_the_earliest_rest(
    before: ContextView,
    station: Station,
    step: Step,
    now: Instant,
    after: ContextView,
) -> (i: int)
    requires
        latest_first(before.queue),
        before.queue.len() > 0,
        before.event_fits(EventView::ScheduleScald(station, step), now),
        before.event_leads_to(EventView::ScheduleScald(station, step), now, after),
    ensures
        0 <= i < after.queue.len(),
        after.queue.remove(i) == before.queue,
        after.queue[i].step == step,
        after.queue[i].station == station,
        forall|j: int| #[trigger]
            scald_has_room(before.queue, step, j) ==> after.queue[i].instant.ticks <= over_at(
                before.queue[j],
            ) + TICK_HZ,
        (forall|j: int| !#[trigger] scald_has_room(before.queue, step, j))
            ==> after.queue[i].instant.ticks == over_at(before.queue[0]) + TICK_HZ,
        exists|j: int|
            0 <= j < before.queue.len() && after.queue[i].instant.ticks == over_at(
                #[trigger] before.queue[j],
            ) + TICK_HZ,
{
    let queue = before.queue;
    let i = law_scald_takes_the_last_entry_with_room(before, station, step, now, after);
    assert(after.queue[i].instant.ticks == over_at(queue[i]) + TICK_HZ);
    let begin = after.queue[i].instant.ticks;
    assert forall|j: int| #[trigger] scald_has_room(queue, step, j) implies begin <= over_at(
        queue[j],
    ) + TICK_HZ by {
        if j < i {
            assert(queue[i - 1].instant.ticks <= queue[j].instant.ticks) by {
                if j < i - 1 {
                    assert(queue[i - 1].instant.ticks <= queue[j].instant.ticks);
                }
            }
        }
    }
    i
}

/// The entries for all of `steps`, the latest first.
pub open spec fn attack_entries(
    steps: Seq<Step>,
    station: Station,
    begin: int,
) -> Seq<StepExecutionInfo> {
    Seq::new(steps.len(), |k: int| attack_entry(steps, station, begin, steps.len() - 1 - k))
}

/// Both ways to write the entries for steps down agree.
proof fn lemma_attack_entries(steps: Seq<Step>, station: Station, begin: int)
    ensures
        attack_entries(steps, station, begin) == placed_steps(steps, station, begin),
{
    assert forall|k: int| 0 <= k < steps.len() implies #[trigger] attack_entries(
        steps,
        station,
        begin,
    )[k] == placed_steps(steps, station, begin)[k] by {
        lemma_time_before(steps, steps.len() - 1 - k);
    }
    assert(attack_entries(steps, station, begin) =~= placed_steps(steps, station, begin));
}

/// Attacks are queued one after the other: each begins when the one before it and the rest after
/// that are over, at the tick that the entry shows.
pub proof fn law_attacks_follow_each_other(
    steps: Seq<Step>,
    station: Station,
    begin: int,
    n: int,
)
    requires
        0 <= begin,
        begin + time_before(steps, steps.len() as int) <= u64::MAX,
        0 <= n < steps.len(),
    ensures
        placed_step(steps, station, begin, n).step == steps[n],
        placed_step(steps, station, begin, n).station == station,
        placed_step(steps, station, begin, 0).instant.ticks == begin,
        n > 0 ==> placed_step(steps, station, begin, n).instant.ticks == placed_step(
            steps,
            station,
            begin,
            n - 1,
        ).instant.ticks + time_of(steps[n - 1]),
{
    lemma_time_before(steps, steps.len() as int);
    lemma_offset_grows(steps, 0, n);
    lemma_offset_grows(steps, n, steps.len() as int);
    if n > 0 {
        lemma_offset_grows(steps, 0, n - 1);
        lemma_offset_grows(steps, n - 1, steps.len() as int);
    }
}

/// Attacks that are scheduled with nothing queued begin in a second; the queue then holds them and
/// nothing else.
pub proof fn law_attacks_alone_begin_at_once(
    before: ContextView,
    station: Station,
    steps: Seq<Step>,
    now: Instant,
    after: ContextView,
)
    requires
        steps.len() > 0,
        before.queue.len() == 0,
        before.event_fits(EventView::ScheduleAttacks(station, steps), now),
        before.event_leads_to(EventView::ScheduleAttacks(station, steps), now, after),
    ensures
        now.ticks + TICK_HZ + time_before(steps, steps.len() as int) <= u64::MAX,
        after.queue == attack_entries(steps, station, now.ticks + TICK_HZ),
{
    assert(!attacks_have_gap(before.queue, steps, station));
    lemma_time_before(steps, steps.len() as int);
    lemma_attack_entries(steps, station, now.ticks + TICK_HZ);
    assert(after.queue =~= attack_entries(steps, station, now.ticks + TICK_HZ));
}

/// Attacks begin where the first room for all of them is. In a queue that is in order: where some
/// start in a rest has room for them, they begin at the first such start after the last entry that
/// has one, and the queue holds them and the entries it had, the latest first. Where none has, they
/// begin a second after the first entry of the queue is over, and stand in front of it.
pub proof fn law_attacks_take_the_first_room(
    before: ContextView,
    station: Station,
    steps: Seq<Step>,
    now: Instant,
    after: ContextView,
) -> (place: (int, int))
    requires
        steps.len() > 0,
        before.queue.len() > 0,
        latest_first(before.queue),
        leaves_time(before.queue, TICK_HZ + time_before(steps, steps.len() as int)),
        before.event_fits(EventView::ScheduleAttacks(station, steps), now),
        before.event_leads_to(EventView::ScheduleAttacks(station, steps), now, after),
    ensures
        ({
            let (i, k) = place;
            let begin = ticks_in(start_in_rest(before.queue, i, k));
            if exists|j: int, l: int| has_room(before.queue, steps, j, l) {
                &&& has_room(before.queue, steps, i, k)
                &&& forall|j: int, l: int| #[trigger]
                    has_room(before.queue, steps, j, l) ==> j < i || j == i && k <= l
                &&& after.queue.to_multiset() == attack_entries(
                    steps,
                    station,
                    begin,
                ).to_multiset().add(before.queue.to_multiset())
                &&& forall|a: int, b: int|
                    0 <= a < b < after.queue.len() ==> #[trigger] after.queue[b].instant.ticks
                        <= #[trigger] after.queue[a].instant.ticks
            } else {
                after.queue == attack_entries(
                    steps,
                    station,
                    over_at(before.queue[0]) + TICK_HZ,
                ) + before.queue
            }
        }),
{
    let queue = before.queue;
    assert forall|j: int, l: int| #[trigger] has_room(queue, steps, j, l) implies start_suits(
        queue,
        steps,
        station,
        j,
        l,
    ) by {
        lemma_room_and_suit(queue, steps, station, j, l);
    }
    assert forall|j: int, l: int|
        0 < j < queue.len() && queue[j].step.interval is Some && #[trigger] start_suits(
            queue,
            steps,
            station,
            j,
            l,
        ) implies has_room(queue, steps, j, l) by {
        lemma_room_and_suit(queue, steps, station, j, l);
    }
    if attacks_have_gap(queue, steps, station) {
        let (i, k) = choose|i: int, k: int|
            {
                &&& #[trigger] is_first_start(queue, steps, station, i, k)
                &&& sorted_latest_first(
                    placed_steps(steps, station, ticks_in(start_millis(queue, i, k))) + queue,
                    after.queue,
                )
            };
        let begin = ticks_in(start_in_rest(queue, i, k));
        assert(start_in_rest(queue, i, k) == start_millis(queue, i, k));
        assert(has_room(queue, steps, i, k));
        assert forall|j: int, l: int| #[trigger] has_room(queue, steps, j, l) implies j < i || j
            == i && k <= l by {
            assert(start_suits(queue, steps, station, j, l));
            assert(attacks_can_follow(queue, steps, station, j));
        }
        lemma_attack_entries(steps, station, begin);
        lemma_multiset_commutative(attack_entries(steps, station, begin), queue);
        (i, k)
    } else {
        if exists|j: int, l: int| has_room(queue, steps, j, l) {
            let (j, l) = choose|j: int, l: int| has_room(queue, steps, j, l);
            assert(start_suits(queue, steps, station, j, l));
            assert(attacks_can_follow(queue, steps, station, j));
        }
        lemma_attack_entries(steps, station, over_at(queue[0]) + TICK_HZ);
        (0, 0)
    }
}

/// In a queue that is in order and leaves time, starts suit steps exactly where there is room.
proof fn lemma_room_and_suit(
    queue: Seq<StepExecutionInfo>,
    steps: Seq<Step>,
    station: Station,
    i: int,
    k: int,
)
    requires
        latest_first(queue),
        leaves_time(queue, TICK_HZ + time_before(steps, steps.len() as int)),
        0 < i < queue.len(),
        queue[i].step.interval is Some,
    ensures
        start_suits(queue, steps, station, i, k) <==> has_room(queue, steps, i, k),
{
    lemma_time_before(steps, steps.len() as int);
    assert(over_at(queue[i - 1]) + TICK_HZ + offset_of(steps, steps.len() as int) <= u64::MAX);
    assert(over_at(queue[i]) + TICK_HZ + offset_of(steps, steps.len() as int) <= u64::MAX);
    assert(queue[i - 1].instant.ticks >= TICK_HZ);
    lemma_suits_where_room(queue, steps, station, i, k);
}

/// The first room for attacks is the earliest: no start that has room for them comes before the one
/// that they take.
pub proof fn law_first_room_is_the_earliest(
    queue: Seq<StepExecutionInfo>,
    steps: Seq<Step>,
    first: (int, int),
    other: (int, int),
)
    requires
        latest_first(queue),
        has_room(queue, steps, first.0, first.1),
        has_room(queue, steps, other.0, other.1),
        other.0 < first.0 || other.0 == first.0 && first.1 <= other.1,
    ensures
        start_in_rest(queue, first.0, first.1) <= start_in_rest(queue, other.0, other.1),
{
    if other.0 < first.0 - 1 {
        assert(queue[first.0 - 1].instant.ticks <= queue[other.0].instant.ticks);
    }
}

/// The models of the executor's data and of its events leave nothing out.
pub proof fn law_executor_views_show_everything(
    queue: StepQueue,
    counts: PerStationData<usize>,
    station: Station,
    steps: RecipeSteps,
    step: Step,
)
    ensures
        (Context { step_queue: queue, num_steps_per_station: counts })@.queue == queue_entries(
            queue,
        ),
        (Context { step_queue: queue, num_steps_per_station: counts })@.counts == counts@,
        Event::ScheduleAttacks(station, steps)@ == EventView::ScheduleAttacks(
            station,
            recipe_steps(steps),
        ),
        Event::ScheduleScald(station, step)@ == EventView::ScheduleScald(station, step),
        Event::CancelRecipe(station)@ == EventView::CancelRecipe(station),
{
}

} // verus!
