//! What holds of the executor from one turn to the next.
use super::executor::{
    delay_fits, delayed, lateness, Action, ContextView, EventView, Input, Phase,
};
use super::queue::{StepExecutionInfo, STEP_QUEUE_CAPACITY};
use super::schedule::{
    attacks_have_gap, lemma_offset_grows, length_of, offset_of, placed_step, placed_steps,
    TRAVEL_TICKS,
};
use super::schedule_laws::pours_for;
use super::Step;
use crate::stations::{Station, MAX_STATIONS};
use crate::time::Instant;
use vstd::prelude::*;

verus! {

/// The executor between two turns.
pub ghost struct Moment {
    pub ctx: ContextView,
    pub phase: Phase,
    pub action: Action,
}

/// Turns of the executor one after the other: turn number `j` takes `inputs[j]` at `nows[j]`, and
/// leads from `moments[j]` to the next moment.
pub ghost struct Run {
    pub moments: Seq<Moment>,
    pub inputs: Seq<Input>,
    pub nows: Seq<Instant>,
}

impl Run {
    /// Turn number `j` is one that the executor takes.
    pub open spec fn takes_turn(self, j: int) -> bool {
        let before = self.moments[j];
        let after = self.moments[j + 1];
        &&& before.phase.awaits(self.inputs[j])
        &&& before.ctx.input_fits(before.phase, self.inputs[j], self.nows[j])
        &&& before.ctx.input_leads_to(
            before.phase,
            self.inputs[j],
            self.nows[j],
            after.ctx,
            (after.phase, after.action),
        )
    }

    /// All turns are ones that the executor takes.
    pub open spec fn is_run(self) -> bool {
        &&& self.moments.len() == self.inputs.len() + 1
        &&& self.nows.len() == self.inputs.len()
        &&& forall|j: int| 0 <= j < self.inputs.len() ==> #[trigger] self.takes_turn(j)
    }

    /// The executor is idle and takes `request`, which asks for `pours` pours, and then no other
    /// event comes until it is done with them: for each there is a turn to set out, one to begin it
    /// and one to end it, and in the last turn a report is delivered.
    pub open spec fn serves(self, request: EventView, pours: nat) -> bool {
        &&& self.is_run()
        &&& self.inputs.len() == 3 * pours + 2
        &&& self.moments[0].phase == Phase::Idle
        &&& self.moments[0].ctx.queue.len() == 0
        &&& self.moments[0].ctx.counts.len() == MAX_STATIONS
        &&& self.moments[0].ctx.counts_are_exact()
        &&& self.inputs[0] matches Input::Received(event) && event@ == request
        &&& forall|j: int| 0 < j < self.inputs.len() ==> !(#[trigger] self.inputs[j] is Received)
    }

    /// The executor is idle and serves a request for the attacks `steps` of `station`.
    pub open spec fn serves_attacks(self, station: Station, steps: Seq<Step>) -> bool {
        steps.len() > 0 && self.serves(EventView::ScheduleAttacks(station, steps), steps.len())
    }

    /// The executor is idle and serves a request for the scald `step` of `station`.
    pub open spec fn serves_scald(self, station: Station, step: Step) -> bool {
        self.serves(EventView::ScheduleScald(station, step), 1)
    }

    /// The pour that the executor sets out for as number `n`.
    pub open spec fn pour(self, n: int) -> StepExecutionInfo {
        self.moments[3 * n + 1].phase->Waiting_0
    }

    /// Pour number `n` is waited for, gone to and made.
    pub open spec fn makes_pour(self, n: int) -> bool {
        &&& self.moments[3 * n + 1].phase == Phase::Waiting(self.pour(n))
        &&& self.moments[3 * n + 2].phase == Phase::Travelling(self.pour(n))
        &&& self.moments[3 * n + 2].action == Action::SleepUntil(self.pour(n).instant)
        &&& self.moments[3 * n + 3].phase == Phase::Pouring(self.pour(n))
        &&& self.moments[3 * n + 3].action == Action::SleepFor(self.pour(n).step.duration)
    }

    /// Before the executor sets out for pour number `n`, the other steps are queued such that the
    /// first of all of them would have begun at the tick `begin`.
    spec fn has_left(self, station: Station, steps: Seq<Step>, n: int, begin: int) -> bool {
        let ctx = self.moments[3 * n + 1].ctx;
        let left = steps.len() - 1 - n;
        &&& 0 <= begin
        &&& begin + offset_of(steps, n) <= u64::MAX
        &&& left > 0 ==> begin + offset_of(steps, steps.len() - 1) <= u64::MAX
        &&& self.moments[3 * n + 1].phase == Phase::Waiting(placed_step(steps, station, begin, n))
        &&& self.moments[3 * n + 1].action is ReceiveUntil
        &&& ctx.queue == placed_steps(steps, station, begin).take(left)
        &&& ctx.counts == self.moments[0].ctx.counts.update(station.0 as int, left as usize)
    }
}

/// Moving placed steps by `delay` places them as much later.
proof fn lemma_placed_delayed(
    steps: Seq<Step>,
    station: Station,
    begin: int,
    delay: int,
    left: int,
)
    requires
        0 <= begin,
        0 <= delay,
        0 <= left < steps.len(),
        left > 0 ==> begin + offset_of(steps, steps.len() - 1) <= u64::MAX,
        delay_fits(placed_steps(steps, station, begin).take(left), delay),
    ensures
        delayed(placed_steps(steps, station, begin).take(left), delay) == placed_steps(
            steps,
            station,
            begin + delay,
        ).take(left),
        left > 0 ==> begin + delay + offset_of(steps, steps.len() - 1) <= u64::MAX,
{
    let queue = placed_steps(steps, station, begin).take(left);
    let moved = placed_steps(steps, station, begin + delay).take(left);
    assert forall|k: int| 0 <= k < left implies #[trigger] delayed(queue, delay)[k] == moved[k] by {
        let n = steps.len() - 1 - k;
        lemma_offset_grows(steps, 0, n);
        lemma_offset_grows(steps, n, steps.len() - 1);
        assert(queue[k].instant.ticks + delay <= u64::MAX);
    }
    assert(delayed(queue, delay) =~= moved);
    if left > 0 {
        lemma_offset_grows(steps, 0, steps.len() - 1);
        assert(queue[0].instant.ticks + delay <= u64::MAX);
    }
}

/// The count of every station is 0 where the counts are exact and nothing is queued.
proof fn lemma_idle_counts(ctx: ContextView, station: Station)
    requires
        ctx.queue.len() == 0,
        ctx.counts_are_exact(),
        station.0 < ctx.counts.len(),
    ensures
        ctx.counts[station.0 as int] == 0,
{
    assert(pours_for(ctx.queue, Station(station.0)) == ctx.counts[station.0 as int]);
    assert(ctx.queue.filter(|info: StepExecutionInfo| info.station == station) =~= ctx.queue);
}

/// The first turn queues the steps, from the time that the spout needs on.
proof fn lemma_first_turn(run: Run, station: Station, steps: Seq<Step>)
    requires
        run.serves_attacks(station, steps),
    ensures
        run.has_left(station, steps, 0, run.nows[0].ticks + TRAVEL_TICKS),
        station.0 < MAX_STATIONS,
        steps.len() <= STEP_QUEUE_CAPACITY,
        run.moments[0].ctx.counts[station.0 as int] == 0,
{
    let before = run.moments[0].ctx;
    let now = run.nows[0];
    let begin = now.ticks + TRAVEL_TICKS;
    assert(run.takes_turn(0));
    assert(!attacks_have_gap(before.queue, steps, station));
    lemma_idle_counts(before, station);
    lemma_offset_grows(steps, 0, steps.len() - 1);
    lemma_offset_grows(steps, steps.len() - 1, steps.len() as int);
    let event = run.inputs[0]->Received_0;
    let handled = choose|handled: ContextView|
        {
            &&& #[trigger] before.event_leads_to(event@, now, handled)
            &&& run.moments[1].ctx == handled.next_taken()
            &&& (run.moments[1].phase, run.moments[1].action) == handled.next_move()
        };
    let placed = placed_steps(steps, station, begin);
    assert(handled.queue =~= placed);
    assert(placed.last() == placed_step(steps, station, begin, 0));
    assert(placed.drop_last() =~= placed.take(steps.len() - 1));
    assert(run.moments[1].ctx.counts =~= before.counts.update(
        station.0 as int,
        (steps.len() - 1) as usize,
    ));
}

/// The first turn queues a scald, at the time that the spout needs.
proof fn lemma_first_turn_of_scald(run: Run, station: Station, step: Step)
    requires
        run.serves_scald(station, step),
    ensures
        run.has_left(station, seq![step], 0, run.nows[0].ticks + TRAVEL_TICKS),
        station.0 < MAX_STATIONS,
        run.moments[0].ctx.counts[station.0 as int] == 0,
{
    let before = run.moments[0].ctx;
    let now = run.nows[0];
    let begin = now.ticks + TRAVEL_TICKS;
    assert(run.takes_turn(0));
    lemma_idle_counts(before, station);
    let event = run.inputs[0]->Received_0;
    let handled = choose|handled: ContextView|
        {
            &&& #[trigger] before.event_leads_to(event@, now, handled)
            &&& run.moments[1].ctx == handled.next_taken()
            &&& (run.moments[1].phase, run.moments[1].action) == handled.next_move()
        };
    assert(handled.queue[0] == placed_step(seq![step], station, begin, 0));
    assert(handled.queue.drop_last() =~= placed_steps(seq![step], station, begin).take(0));
    assert(run.moments[1].ctx.counts =~= before.counts.update(station.0 as int, 0));
}

/// The turns of pour number `n`: it is made, and what comes after it begins as much later as it is
/// late. After the last one the station is told that the stage is over.
proof fn lemma_turns_of_pour(
    run: Run,
    request: EventView,
    station: Station,
    steps: Seq<Step>,
    n: int,
    begin: int,
)
    requires
        run.serves(request, steps.len()),
        station.0 < MAX_STATIONS,
        steps.len() <= STEP_QUEUE_CAPACITY,
        0 <= n < steps.len(),
        run.has_left(station, steps, n, begin),
    ensures
        run.makes_pour(n),
        run.pour(n) == placed_step(steps, station, begin, n),
        n + 1 < steps.len() ==> run.has_left(
            station,
            steps,
            n + 1,
            begin + lateness(run.pour(n), run.nows[3 * n + 2]),
        ),
        n + 1 == steps.len() ==> {
            &&& run.moments[3 * n + 4].phase == Phase::Reporting(station)
            &&& run.moments[3 * n + 4].action == Action::ReportStageOver(station)
            &&& run.moments[3 * n + 4].ctx == (ContextView {
                queue: Seq::empty(),
                counts: run.moments[0].ctx.counts.update(station.0 as int, 0),
            })
        },
{
    let left = steps.len() - 1 - n;
    assert(run.takes_turn(3 * n + 1));
    assert(!(run.inputs[3 * n + 1] is Received));
    assert(run.moments[3 * n + 2].phase == Phase::Travelling(run.pour(n)));
    assert(run.takes_turn(3 * n + 2));
    assert(!(run.inputs[3 * n + 2] is Received));
    assert(run.takes_turn(3 * n + 3));
    assert(!(run.inputs[3 * n + 3] is Received));
    let late = lateness(run.pour(n), run.nows[3 * n + 2]);
    lemma_placed_delayed(steps, station, begin, late, left);
    let begun = run.moments[3 * n + 3].ctx;
    let moved = placed_steps(steps, station, begin + late);
    assert(begun.queue == moved.take(left));
    assert(begun.counts[station.0 as int] == left);
    if left > 0 {
        assert(begun.queue.last() == placed_step(steps, station, begin + late, n + 1));
        assert(begun.queue.drop_last() =~= moved.take(left - 1));
        lemma_offset_grows(steps, 0, n + 1);
        lemma_offset_grows(steps, n + 1, steps.len() - 1);
        assert(run.moments[3 * n + 4].ctx.counts =~= run.moments[0].ctx.counts.update(
            station.0 as int,
            (left - 1) as usize,
        ));
    } else {
        assert(begun.queue =~= Seq::empty());
    }
}

/// The last turns: the station is told that the stage is over, and the executor is idle again.
proof fn lemma_last_turns(
    run: Run,
    request: EventView,
    station: Station,
    steps: Seq<Step>,
    begin: int,
)
    requires
        run.serves(request, steps.len()),
        station.0 < MAX_STATIONS,
        0 < steps.len() <= STEP_QUEUE_CAPACITY,
        run.moments[0].ctx.counts[station.0 as int] == 0,
        run.has_left(station, steps, steps.len() - 1, begin),
    ensures
        run.moments[run.inputs.len() - 1].phase == Phase::Reporting(station),
        run.moments[run.inputs.len() - 1].action == Action::ReportStageOver(station),
        run.moments.last().phase == Phase::Idle,
        run.moments.last().action == Action::Receive,
        run.moments.last().ctx == run.moments[0].ctx,
{
    let last = steps.len() - 1;
    lemma_turns_of_pour(run, request, station, steps, last, begin);
    assert(run.takes_turn(3 * last + 4));
    assert(run.moments[0].ctx.counts =~= run.moments[0].ctx.counts.update(station.0 as int, 0));
    assert(run.moments[0].ctx.queue =~= Seq::empty());
    assert(run.moments.last() == run.moments[3 * last + 5]);
}

/// What is left when the executor sets out for pour number `n`.
proof fn lemma_turns_before(run: Run, station: Station, steps: Seq<Step>, n: int) -> (begin: int)
    requires
        run.serves_attacks(station, steps),
        0 <= n < steps.len(),
    ensures
        run.has_left(station, steps, n, begin),
        n == 0 ==> begin == run.nows[0].ticks + TRAVEL_TICKS,
    decreases n,
{
    lemma_first_turn(run, station, steps);
    if n == 0 {
        run.nows[0].ticks + TRAVEL_TICKS
    } else {
        let request = EventView::ScheduleAttacks(station, steps);
        let before = lemma_turns_before(run, station, steps, n - 1);
        lemma_turns_of_pour(run, request, station, steps, n - 1, before);
        before + lateness(run.pour(n - 1), run.nows[3 * (n - 1) + 2])
    }
}

/// Attacks that are scheduled into an idle executor are poured in their order, each once. The first
/// begins after the time that the spout needs, and every other one when the pour before it, begun as
/// late as it was, and the rest after that are over.
pub proof fn law_attacks_are_poured_in_order(
    run: Run,
    station: Station,
    steps: Seq<Step>,
    n: int,
)
    requires
        run.serves_attacks(station, steps),
        0 <= n < steps.len(),
    ensures
        run.makes_pour(n),
        run.pour(n).step == steps[n],
        run.pour(n).station == station,
        run.pour(n).instant.ticks == if n == 0 {
            run.nows[0].ticks + TRAVEL_TICKS
        } else {
            run.pour(n - 1).instant.ticks + lateness(run.pour(n - 1), run.nows[3 * n - 1])
                + length_of(steps[n - 1])
        },
{
    let request = EventView::ScheduleAttacks(station, steps);
    lemma_first_turn(run, station, steps);
    let begin = lemma_turns_before(run, station, steps, n);
    lemma_turns_of_pour(run, request, station, steps, n, begin);
    lemma_offset_grows(steps, 0, n);
    if n > 0 {
        let before = lemma_turns_before(run, station, steps, n - 1);
        lemma_turns_of_pour(run, request, station, steps, n - 1, before);
        lemma_offset_grows(steps, 0, n - 1);
        let late = lateness(run.pour(n - 1), run.nows[3 * (n - 1) + 2]);
        lemma_turns_of_pour(run, request, station, steps, n, before + late);
    }
}

/// After attacks that are scheduled into an idle executor, the station is told once that the stage
/// is over: after the last of them, and not before. Then the executor is idle as it was.
pub proof fn law_attacks_end_in_one_report(run: Run, station: Station, steps: Seq<Step>, j: int)
    requires
        run.serves_attacks(station, steps),
        0 < j < run.moments.len(),
    ensures
        run.moments[j].action is ReportStageOver <==> j == run.inputs.len() - 1,
        run.moments[run.inputs.len() - 1].phase == Phase::Reporting(station),
        run.moments[run.inputs.len() - 1].action == Action::ReportStageOver(station),
        run.moments.last().phase == Phase::Idle,
        run.moments.last().ctx == run.moments[0].ctx,
{
    let request = EventView::ScheduleAttacks(station, steps);
    lemma_first_turn(run, station, steps);
    let begin = lemma_turns_before(run, station, steps, steps.len() - 1);
    lemma_last_turns(run, request, station, steps, begin);
    if j < run.inputs.len() - 1 {
        let n = (j - 1) / 3;
        let begin = lemma_turns_before(run, station, steps, n);
        lemma_turns_of_pour(run, request, station, steps, n, begin);
        assert(j == 3 * n + 1 || j == 3 * n + 2 || j == 3 * n + 3);
    }
}

/// A scald that is scheduled into an idle executor is poured once, after the time that the spout
/// needs. Then the station is told once that the stage is over, and not before, and the executor is
/// idle as it was.
pub proof fn law_scald_is_poured_and_reported(run: Run, station: Station, step: Step, j: int)
    requires
        run.serves_scald(station, step),
        0 < j < run.moments.len(),
    ensures
        run.moments.len() == 6,
        run.makes_pour(0),
        run.pour(0).step == step,
        run.pour(0).station == station,
        run.pour(0).instant.ticks == run.nows[0].ticks + TRAVEL_TICKS,
        run.moments[j].action is ReportStageOver <==> j == 4,
        run.moments[4].phase == Phase::Reporting(station),
        run.moments[4].action == Action::ReportStageOver(station),
        run.moments[5].phase == Phase::Idle,
        run.moments[5].ctx == run.moments[0].ctx,
{
    let request = EventView::ScheduleScald(station, step);
    let steps = seq![step];
    let begin = run.nows[0].ticks + TRAVEL_TICKS;
    lemma_first_turn_of_scald(run, station, step);
    lemma_turns_of_pour(run, request, station, steps, 0, begin);
    lemma_last_turns(run, request, station, steps, begin);
}

} // verus!
