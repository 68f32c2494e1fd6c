//! What each turn of the executor does, by its phase and input.
use super::executor::{
    delay_fits, lateness, Action, ContextView, Event, EventView, Input, Phase,
};
use super::queue::StepExecutionInfo;
use super::schedule_laws::{
    law_cancel_keeps_soundness, law_event_keeps_soundness, law_take_keeps_soundness, pours_for,
};
use crate::stations::{Station, MAX_STATIONS};
use crate::time::{Instant, TICK_HZ};
use vstd::prelude::*;

verus! {

/// The executor goes on to the next pour: the entry that stands last in `queue` leaves it and is
/// counted no more, and the executor waits for it up to a second before it begins. With nothing
/// queued it waits for an event.
pub open spec fn goes_on(
    queue: Seq<StepExecutionInfo>,
    counts: Seq<usize>,
    after: ContextView,
    next: (Phase, Action),
) -> bool {
    if queue.len() == 0 {
        &&& next == (Phase::Idle, Action::Receive)
        &&& after.queue == queue
        &&& after.counts == counts
    } else {
        let info = queue[queue.len() - 1];
        &&& next.0 == Phase::Waiting(info)
        &&& next.1 matches Action::ReceiveUntil(until) && until.ticks + TICK_HZ
            == info.instant.ticks
        &&& after.queue.push(info) == queue
        &&& after.counts.len() == counts.len()
        &&& forall|s: int|
            0 <= s < counts.len() ==> #[trigger] after.counts[s] == if s == info.station.0 {
                counts[s] - 1
            } else {
                counts[s] as int
            }
    }
}

/// The executor's data is sound where every entry is for a station that exists and begins after the
/// time of the way, and no pour is left out of the count of its station.
pub proof fn law_soundness_asks_no_more(ctx: ContextView)
    requires
        ctx.counts.len() == MAX_STATIONS,
        forall|i: int|
            0 <= i < ctx.queue.len() ==> (#[trigger] ctx.queue[i]).station.0 < MAX_STATIONS
                && ctx.queue[i].instant.ticks >= TICK_HZ,
        forall|s: int|
            0 <= s < MAX_STATIONS ==> ctx.queue.filter(
                |info: StepExecutionInfo| info.station == Station(s as usize),
            ).len() <= #[trigger] ctx.counts[s],
    ensures
        ctx.is_sound(),
{
    assert forall|s: int| 0 <= s < MAX_STATIONS implies pours_for(ctx.queue, Station(s as usize))
        <= #[trigger] ctx.counts[s] by {
        assert(ctx.queue.filter(
            |info: StepExecutionInfo| info.station == Station(s as usize),
        ).len() <= ctx.counts[s]);
    }
}

/// A pour that the executor has taken is sound where it is for a station that exists and begins
/// after the time of the way; a phase without a pour always is.
pub proof fn law_phase_soundness_asks_no_more(phase: Phase)
    requires
        phase matches Phase::Waiting(info) ==> info.station.0 < MAX_STATIONS && info.instant.ticks
            >= TICK_HZ,
        phase matches Phase::Travelling(info) ==> info.station.0 < MAX_STATIONS
            && info.instant.ticks >= TICK_HZ,
        phase matches Phase::Pouring(info) ==> info.station.0 < MAX_STATIONS && info.instant.ticks
            >= TICK_HZ,
    ensures
        phase.is_sound(),
{
}

/// A pour can begin unless, being late, it moves an entry past the end of the clock.
pub proof fn law_pour_can_begin(
    queue: Seq<StepExecutionInfo>,
    info: StepExecutionInfo,
    now: Instant,
)
    ensures
        delay_fits(queue, lateness(info, now)) <==> forall|i: int|
            0 <= i < queue.len() && now.ticks >= info.instant.ticks ==> (
            #[trigger] queue[i]).instant.ticks + (now.ticks - info.instant.ticks) <= u64::MAX,
{
    if !delay_fits(queue, lateness(info, now)) {
        let i = choose|i: int|
            0 <= i < queue.len() && #[trigger] queue[i].instant.ticks + lateness(info, now)
                > u64::MAX;
        assert(queue[i].instant.ticks + (now.ticks - info.instant.ticks) > u64::MAX);
    }
}

/// The next pour, if there is one, is the entry that stands last.
pub proof fn law_next_pour_is_the_last_entry(before: ContextView)
    requires
        before.is_sound(),
    ensures
        goes_on(before.queue, before.counts, before.next_taken(), before.next_move()),
{
    law_take_keeps_soundness(before);
    if before.queue.len() > 0 {
        assert(before.queue.drop_last().push(before.queue.last()) =~= before.queue);
    }
}

/// What the executor waits for is what it can take, in every phase that a turn leads to: an event
/// where it receives, the end of the time where that is limited, and the delivery of a report.
pub proof fn law_action_tells_what_is_awaited(
    before: ContextView,
    phase: Phase,
    input: Input,
    now: Instant,
    after: ContextView,
    next: (Phase, Action),
    event: Event,
)
    requires
        before.is_sound(),
        phase.is_sound(),
        phase.awaits(input),
        before.input_fits(phase, input, now),
        before.input_leads_to(phase, input, now, after, next),
    ensures
        next.0.awaits(Input::Received(event)) <==> next.1 is Receive || next.1 is ReceiveUntil,
        next.0.awaits(Input::Elapsed) <==> next.1 is ReceiveUntil || next.1 is SleepUntil
            || next.1 is SleepFor,
        next.0.awaits(Input::Delivered) <==> next.1 is ReportStageOver,
{
}

/// A turn is taken exactly where nothing leaves the range of the clock or of the queue: for an event
/// that can be handled, for the cancellation of the pour that is waited for, for a pour that begins
/// and, if it is late, moves nothing past the end of the clock, and at the end of any other wait.
pub proof fn law_turns_are_taken(before: ContextView, phase: Phase, input: Input, now: Instant)
    requires
        phase.awaits(input),
    ensures
        input matches Input::Received(event) ==> (before.input_fits(phase, input, now) <==> {
            ||| before.event_fits(event@, now)
            ||| phase matches Phase::Waiting(info) && event@ == EventView::CancelRecipe(
                info.station,
            )
        }),
        phase matches Phase::Travelling(info) ==> (before.input_fits(phase, input, now)
            <==> forall|i: int|
            0 <= i < before.queue.len() && now.ticks >= info.instant.ticks ==> (
            #[trigger] before.queue[i]).instant.ticks + (now.ticks - info.instant.ticks)
                <= u64::MAX),
        !(input is Received) && !(phase is Travelling) ==> before.input_fits(phase, input, now),
{
    if let Phase::Travelling(info) = phase {
        law_pour_can_begin(before.queue, info, now);
    }
}

/// An idle executor handles the event that comes, and goes on with what is then queued.
pub proof fn law_idle_executor_handles_and_goes_on(
    before: ContextView,
    event: Event,
    now: Instant,
    after: ContextView,
    next: (Phase, Action),
) -> (handled: ContextView)
    requires
        before.is_sound(),
        before.event_fits(event@, now),
        before.input_leads_to(Phase::Idle, Input::Received(event), now, after, next),
    ensures
        before.event_leads_to(event@, now, handled),
        goes_on(handled.queue, handled.counts, after, next),
{
    let handled = choose|handled: ContextView|
        {
            &&& #[trigger] before.event_leads_to(event@, now, handled)
            &&& after == handled.next_taken()
            &&& next == handled.next_move()
        };
    law_event_keeps_soundness(before, event@, now, handled);
    law_next_pour_is_the_last_entry(handled);
    handled
}

/// A cancelled recipe is poured no more: the pour that is waited for is dropped with the others of
/// its station, none of them is left in the queue or taken from it, and nothing is reported. The
/// executor goes on with the pours of the other stations, in their order, or is idle.
pub proof fn law_cancel_drops_the_pour_that_is_waited_for(
    before: ContextView,
    info: StepExecutionInfo,
    event: Event,
    now: Instant,
    after: ContextView,
    next: (Phase, Action),
)
    requires
        before.is_sound(),
        Phase::Waiting(info).is_sound(),
        event@ == EventView::CancelRecipe(info.station),
        before.input_leads_to(Phase::Waiting(info), Input::Received(event), now, after, next),
    ensures
        next.0.pour() matches Some(pour) ==> pour.station != info.station,
        forall|i: int|
            0 <= i < after.queue.len() ==> (#[trigger] after.queue[i]).station != info.station,
        after.counts[info.station.0 as int] == 0,
        !(next.1 is ReportStageOver),
        (forall|i: int|
            0 <= i < before.queue.len() ==> (#[trigger] before.queue[i]).station == info.station)
            ==> next == (Phase::Idle, Action::Receive),
        goes_on(
            before.queue.filter(|other: StepExecutionInfo| other.station != info.station),
            before.counts.update(info.station.0 as int, 0),
            after,
            next,
        ),
{
    let others = |other: StepExecutionInfo| other.station != info.station;
    let kept = before.queue.filter(others);
    let handled = before.cancelled(info.station);
    law_cancel_keeps_soundness(before, info.station);
    law_next_pour_is_the_last_entry(handled);
    assert forall|i: int| 0 <= i < kept.len() implies (#[trigger] kept[i]).station
        != info.station by {
        before.queue.lemma_filter_contains_rev(others, kept[i]);
    }
    if kept.len() > 0 {
        before.queue.lemma_filter_contains_rev(others, kept[0]);
        assert forall|i: int| 0 <= i < after.queue.len() implies (#[trigger] after.queue[i]).station
            != info.station by {
            assert(after.queue.push(kept[kept.len() - 1])[i] == kept[i]);
        }
    }
}

/// Any other event is handled while the executor waits, and it keeps waiting for the same pour, up
/// to a second before that begins.
pub proof fn law_waiting_goes_on_through_other_events(
    before: ContextView,
    info: StepExecutionInfo,
    event: Event,
    now: Instant,
    after: ContextView,
    next: (Phase, Action),
)
    requires
        Phase::Waiting(info).is_sound(),
        event@ != EventView::CancelRecipe(info.station),
        before.input_leads_to(Phase::Waiting(info), Input::Received(event), now, after, next),
    ensures
        before.event_leads_to(event@, now, after),
        next.0 == Phase::Waiting(info),
        next.1 matches Action::ReceiveUntil(until) && until.ticks + TICK_HZ == info.instant.ticks,
{
}

/// When it is time to set out, the spout does, for the pour that was waited for and up to the
/// instant at which that begins. The schedule stays as it is.
pub proof fn law_spout_sets_out_in_time(
    before: ContextView,
    info: StepExecutionInfo,
    now: Instant,
    after: ContextView,
    next: (Phase, Action),
)
    requires
        before.input_leads_to(Phase::Waiting(info), Input::Elapsed, now, after, next),
    ensures
        next == (Phase::Travelling(info), Action::SleepUntil(info.instant)),
        after == before,
{
}

/// A pour begins once the spout is there, and takes the time of its step. Where it is late, every
/// pour that is left in the queue begins as much later, and where it is not, none is moved.
pub proof fn law_pour_begins_and_moves_the_rest(
    before: ContextView,
    info: StepExecutionInfo,
    now: Instant,
    after: ContextView,
    next: (Phase, Action),
)
    requires
        before.input_fits(Phase::Travelling(info), Input::Elapsed, now),
        before.input_leads_to(Phase::Travelling(info), Input::Elapsed, now, after, next),
    ensures
        next == (Phase::Pouring(info), Action::SleepFor(info.step.duration)),
        after == before.step_begun(info, now),
        after.counts == before.counts,
        after.queue.len() == before.queue.len(),
        forall|i: int|
            0 <= i < before.queue.len() ==> {
                &&& (#[trigger] after.queue[i]).step == before.queue[i].step
                &&& after.queue[i].station == before.queue[i].station
                &&& now.ticks <= info.instant.ticks ==> after.queue[i] == before.queue[i]
                &&& now.ticks >= info.instant.ticks ==> after.queue[i].instant.ticks - now.ticks
                    == before.queue[i].instant.ticks - info.instant.ticks
            },
{
    assert forall|i: int| 0 <= i < before.queue.len() implies {
        &&& (#[trigger] after.queue[i]).step == before.queue[i].step
        &&& after.queue[i].station == before.queue[i].station
        &&& now.ticks <= info.instant.ticks ==> after.queue[i] == before.queue[i]
        &&& now.ticks >= info.instant.ticks ==> after.queue[i].instant.ticks - now.ticks
            == before.queue[i].instant.ticks - info.instant.ticks
    } by {
        assert(before.queue[i].instant.ticks + lateness(info, now) <= u64::MAX);
    }
}

/// When a pour is over, its station is told where it was the last one counted, and only then;
/// otherwise the executor goes on with the next.
pub proof fn law_last_pour_is_reported(
    before: ContextView,
    info: StepExecutionInfo,
    now: Instant,
    after: ContextView,
    next: (Phase, Action),
)
    requires
        before.is_sound(),
        before.input_leads_to(Phase::Pouring(info), Input::Elapsed, now, after, next),
    ensures
        before.counts[info.station.0 as int] == 0 ==> {
            &&& next == (Phase::Reporting(info.station), Action::ReportStageOver(info.station))
            &&& after == before
        },
        before.counts[info.station.0 as int] != 0 ==> goes_on(
            before.queue,
            before.counts,
            after,
            next,
        ),
{
    law_next_pour_is_the_last_entry(before);
}

/// Once a report is delivered the executor goes on with the next pour.
pub proof fn law_executor_goes_on_after_a_report(
    before: ContextView,
    station: Station,
    now: Instant,
    after: ContextView,
    next: (Phase, Action),
)
    requires
        before.is_sound(),
        before.input_leads_to(Phase::Reporting(station), Input::Delivered, now, after, next),
    ensures
        goes_on(before.queue, before.counts, after, next),
{
    law_next_pour_is_the_last_entry(before);
}

} // verus!
