//! The executor of recipes: schedules the pours of all stations and carries them out one by one.
use super::placement::{checked_length, place_attacks, place_scald, travel_time, AttacksPlace};
use super::queue::{
    queue_entries, queue_insert, queue_mut_slice, queue_new, queue_pop, queue_push,
    queue_retain_others, queue_slice, slice_sort_latest_first, sorted_latest_first,
    without_station, STEP_QUEUE_CAPACITY,
};
use super::schedule::{
    attacks_begin, attacks_fit, attacks_have_gap, is_first_start, lemma_offset_grows, offset_of,
    placed_step, placed_steps, scald_fits, start_millis, with_scald, TRAVEL_TICKS,
};
use super::schedule_laws::{
    entry_is_sound, law_cancel_keeps_soundness, law_delay_keeps_soundness,
    law_event_keeps_soundness, law_take_keeps_soundness,
};
use super::{recipe_steps, steps_slice, RecipeSteps, Step};
use crate::stations::{PerStationData, Station, MAX_STATIONS};
use crate::time::{ticks_in, Duration, Instant};
use vstd::prelude::*;

pub use super::placement::step_has_collisions;
pub use super::queue::{StepExecutionInfo, StepQueue};

verus! {

/// What the executor keeps: the scheduled pours, and for each station the number of its pours that
/// have not been taken from the queue yet.
pub struct Context {
    pub step_queue: StepQueue,
    pub num_steps_per_station: PerStationData<usize>,
}

/// What a station asks of the executor.
pub enum Event {
    ScheduleAttacks(Station, RecipeSteps),
    ScheduleScald(Station, Step),
    CancelRecipe(Station),
}

/// The executor's data as sequences.
pub ghost struct ContextView {
    pub queue: Seq<StepExecutionInfo>,
    pub counts: Seq<usize>,
}

/// An event with its steps as a sequence.
pub ghost enum EventView {
    ScheduleAttacks(Station, Seq<Step>),
    ScheduleScald(Station, Step),
    CancelRecipe(Station),
}

impl View for Context {
    type V = ContextView;

    open spec fn view(&self) -> ContextView {
        ContextView {
            queue: queue_entries(self.step_queue),
            counts: self.num_steps_per_station@,
        }
    }
}

impl View for Event {
    type V = EventView;

    open spec fn view(&self) -> EventView {
        match *self {
            Event::ScheduleAttacks(station, steps) => EventView::ScheduleAttacks(
                station,
                recipe_steps(steps),
            ),
            Event::ScheduleScald(station, step) => EventView::ScheduleScald(station, step),
            Event::CancelRecipe(station) => EventView::CancelRecipe(station),
        }
    }
}

impl ContextView {
    /// `n` more pours are counted for `station`.
    pub open spec fn count_raised(self, station: Station, n: int) -> Seq<usize> {
        self.counts.update(station.0 as int, (self.counts[station.0 as int] + n) as usize)
    }

    /// `n` more pours can be counted for `station`.
    pub open spec fn can_count(self, station: Station, n: int) -> bool {
        station.0 < self.counts.len() && self.counts[station.0 as int] + n <= usize::MAX
    }

    /// Nothing is scheduled for `station` any more.
    pub open spec fn cancelled(self, station: Station) -> ContextView {
        ContextView {
            queue: without_station(self.queue, station),
            counts: self.counts.update(station.0 as int, 0),
        }
    }

    /// `event` can be handled at `now` without leaving the range of the clock, of the queue, of the
    /// counters or of the stations.
    pub open spec fn event_fits(self, event: EventView, now: Instant) -> bool {
        match event {
            EventView::ScheduleScald(station, step) => {
                self.can_count(station, 1) && scald_fits(self.queue, step, now)
            },
            EventView::ScheduleAttacks(station, steps) => {
                steps.len() > 0 ==> self.can_count(station, steps.len() as int) && attacks_fit(
                    self.queue,
                    steps,
                    station,
                    now,
                )
            },
            EventView::CancelRecipe(station) => station.0 < self.counts.len(),
        }
    }

    /// Handling `event` at `now` leads to `after`.
    ///
    /// A scald goes into the earliest rest that has room for it, or after everything else. Attacks
    /// begin in the earliest rest that has room for them, at the first start that suits them, or
    /// after everything else. A cancellation takes out all that is scheduled for the station.
    pub open spec fn event_leads_to(
        self,
        event: EventView,
        now: Instant,
        after: ContextView,
    ) -> bool {
        match event {
            EventView::ScheduleScald(station, step) => {
                &&& after.counts == self.count_raised(station, 1)
                &&& after.queue == with_scald(self.queue, station, step, now)
            },
            EventView::ScheduleAttacks(station, steps) => if steps.len() == 0 {
                after == self
            } else {
                &&& after.counts == self.count_raised(station, steps.len() as int)
                &&& if attacks_have_gap(self.queue, steps, station) {
                    exists|i: int, k: int|
                        {
                            &&& #[trigger] is_first_start(self.queue, steps, station, i, k)
                            &&& sorted_latest_first(
                                placed_steps(
                                    steps,
                                    station,
                                    ticks_in(start_millis(self.queue, i, k)),
                                ) + self.queue,
                                after.queue,
                            )
                        }
                } else {
                    after.queue == placed_steps(steps, station, attacks_begin(self.queue, now))
                        + self.queue
                }
            },
            EventView::CancelRecipe(station) => after == self.cancelled(station),
        }
    }
}

impl Context {
    /// An executor with nothing to do.
    pub fn new() -> (ctx: Context)
        ensures
            ctx@.queue == Seq::<StepExecutionInfo>::empty(),
            ctx@.counts == Seq::new(MAX_STATIONS as nat, |i: int| 0usize),
            ctx@.is_sound(),
            ctx@.counts_are_exact(),
    {
        let ctx = Context { step_queue: queue_new(), num_steps_per_station: [0usize;MAX_STATIONS] };
        assert(ctx@.counts =~= Seq::new(MAX_STATIONS as nat, |i: int| 0usize));
        ctx
    }
}

/// Takes all that is scheduled for `station` out of the queue.
pub fn cancel_recipe(ctx: &mut Context, station: Station)
    requires
        station.0 < MAX_STATIONS,
    ensures
        final(ctx)@ == old(ctx)@.cancelled(station),
{
    queue_retain_others(&mut ctx.step_queue, station);
    ctx.num_steps_per_station[station.0] = 0;
}

/// Puts `steps` for `station` at the front of the queue, one after the other from `begin` on.
fn queue_attacks(queue: &mut StepQueue, steps: &[Step], station: Station, begin: Instant)
    requires
        begin.ticks + offset_of(steps@, steps@.len() as int) <= u64::MAX,
        queue_entries(*old(queue)).len() + steps@.len() <= STEP_QUEUE_CAPACITY,
    ensures
        queue_entries(*final(queue)) == placed_steps(steps@, station, begin.ticks as int)
            + queue_entries(*old(queue)),
{
    let ghost entries = queue_entries(*queue);
    let ghost start = begin.ticks as int;
    let mut accumulator = begin;
    let mut n: usize = 0;
    assert(queue_entries(*queue) =~= Seq::new(
        0,
        |k: int| placed_step(steps@, station, start, 0 - 1 - k),
    ) + entries);
    while n < steps.len()
        invariant
            n <= steps@.len(),
            start + offset_of(steps@, steps@.len() as int) <= u64::MAX,
            entries.len() + steps@.len() <= STEP_QUEUE_CAPACITY,
            accumulator.ticks == start + offset_of(steps@, n as int),
            queue_entries(*queue) == Seq::new(
                n as nat,
                |k: int| placed_step(steps@, station, start, n - 1 - k),
            ) + entries,
        decreases steps@.len() - n,
    {
        let step = steps[n];
        let ghost before = queue_entries(*queue);
        let info = StepExecutionInfo { instant: accumulator, step, station };
        let _ = queue_insert(queue, 0, info);
        proof {
            lemma_offset_grows(steps@, 0, n as int);
            lemma_offset_grows(steps@, n + 1, steps@.len() as int);
            assert(info == placed_step(steps@, station, start, n as int));
            assert(before.insert(0, info) =~= Seq::new(
                (n + 1) as nat,
                |k: int| placed_step(steps@, station, start, n + 1 - 1 - k),
            ) + entries);
        }
        accumulator = accumulator.checked_add(checked_length(&step).unwrap()).unwrap();
        n = n + 1;
    }
}

/// Handles `event` at `now`, unless that would leave the range of the clock, of the queue, of the
/// counters or of the stations: then nothing changes.
fn handle_event(ctx: &mut Context, event: &Event, now: Instant) -> (handled: bool)
    ensures
        handled == old(ctx)@.event_fits(event@, now),
        handled ==> old(ctx)@.event_leads_to(event@, now, final(ctx)@),
        !handled ==> final(ctx)@ == old(ctx)@,
{
    match event {
        Event::ScheduleScald(station, new_step) => {
            let station = *station;
            let new_step = *new_step;
            if station.0 >= MAX_STATIONS || ctx.num_steps_per_station[station.0] == usize::MAX {
                return false;
            }
            let queue = queue_slice(&ctx.step_queue);
            if queue.len() == 0 {
                match now.checked_add(travel_time()) {
                    Some(instant) => {
                        let _ = queue_push(
                            &mut ctx.step_queue,
                            StepExecutionInfo { instant, step: new_step, station },
                        );
                        assert(ctx@.queue =~= with_scald(old(ctx)@.queue, station, new_step, now));
                    },
                    None => {
                        return false;
                    },
                }
            } else {
                match place_scald(queue, &new_step) {
                    Some((i, instant)) => {
                        let _ = queue_insert(
                            &mut ctx.step_queue,
                            i,
                            StepExecutionInfo { instant, step: new_step, station },
                        );
                    },
                    None => {
                        return false;
                    },
                }
            }
            ctx.num_steps_per_station[station.0] = ctx.num_steps_per_station[station.0] + 1;
            true
        },
        Event::ScheduleAttacks(station, steps) => {
            let station = *station;
            let steps = steps_slice(steps);
            if steps.len() == 0 {
                return true;
            }
            if station.0 >= MAX_STATIONS || ctx.num_steps_per_station[station.0] > usize::MAX
                - steps.len() {
                return false;
            }
            match place_attacks(queue_slice(&ctx.step_queue), steps, station, now) {
                Some(AttacksPlace::InRest(begin)) => {
                    queue_attacks(&mut ctx.step_queue, steps, station, begin);
                    slice_sort_latest_first(queue_mut_slice(&mut ctx.step_queue));
                },
                Some(AttacksPlace::After(begin)) => {
                    queue_attacks(&mut ctx.step_queue, steps, station, begin);
                },
                None => {
                    return false;
                },
            }
            ctx.num_steps_per_station[station.0] = ctx.num_steps_per_station[station.0]
                + steps.len();
            true
        },
        Event::CancelRecipe(station) => {
            if station.0 >= MAX_STATIONS {
                return false;
            }
            cancel_recipe(ctx, *station);
            true
        },
    }
}

/// Handles `event` at the instant `now`.
pub fn interpret_event_at(ctx: &mut Context, event: Event, now: Instant)
    requires
        old(ctx)@.event_fits(event@, now),
    ensures
        old(ctx)@.event_leads_to(event@, now, final(ctx)@),
{
    let _ = handle_event(ctx, &event, now);
}

/// Handles `event` at the current time. Says whether it did: where that would leave the range of
/// the clock, of the queue, of the counters or of the stations, nothing changes.
pub fn interpret_event(ctx: &mut Context, event: Event) -> (handled: bool)
    ensures
        exists|now: Instant|
            {
                &&& handled == #[trigger] old(ctx)@.event_fits(event@, now)
                &&& handled ==> old(ctx)@.event_leads_to(event@, now, final(ctx)@)
            },
        !handled ==> final(ctx)@ == old(ctx)@,
        old(ctx)@.queue.len() > 0 || event@ is CancelRecipe ==> forall|now: Instant|
            {
                &&& handled == #[trigger] old(ctx)@.event_fits(event@, now)
                &&& handled ==> old(ctx)@.event_leads_to(event@, now, final(ctx)@)
            },
{
    let now = Instant::now();
    handle_event(ctx, &event, now)
}

/// By how many ticks the pour `info` is late at `now`.
pub open spec fn lateness(info: StepExecutionInfo, now: Instant) -> int {
    if now.ticks >= info.instant.ticks {
        now.ticks - info.instant.ticks
    } else {
        0
    }
}

/// The pour `info`, `delay` ticks later.
pub open spec fn delayed_entry(info: StepExecutionInfo, delay: int) -> StepExecutionInfo {
    StepExecutionInfo { instant: Instant { ticks: (info.instant.ticks + delay) as u64 }, ..info }
}

/// Every entry of the queue, `delay` ticks later.
pub open spec fn delayed(queue: Seq<StepExecutionInfo>, delay: int) -> Seq<StepExecutionInfo> {
    queue.map_values(|info: StepExecutionInfo| delayed_entry(info, delay))
}

/// Every entry of the queue can be moved by `delay` ticks.
pub open spec fn delay_fits(queue: Seq<StepExecutionInfo>, delay: int) -> bool {
    forall|i: int|
        0 <= i < queue.len() ==> #[trigger] queue[i].instant.ticks + delay <= u64::MAX
}

impl ContextView {
    /// The pour `info` begins at `now`: what is left in the queue moves by as much as it is late.
    pub open spec fn step_begun(self, info: StepExecutionInfo, now: Instant) -> ContextView {
        ContextView { queue: delayed(self.queue, lateness(info, now)), ..self }
    }
}

/// Moves every entry of the slice by `delay`.
fn delay_entries(slice: &mut [StepExecutionInfo], delay: Duration)
    requires
        delay_fits(old(slice)@, delay.ticks as int),
    ensures
        final(slice)@ == delayed(old(slice)@, delay.ticks as int),
{
    let ghost entries = slice@;
    let mut i: usize = 0;
    while i < slice.len()
        invariant
            i <= slice@.len(),
            slice@.len() == entries.len(),
            delay_fits(entries, delay.ticks as int),
            forall|k: int|
                0 <= k < slice@.len() ==> #[trigger] slice@[k] == if k < i {
                    delayed_entry(entries[k], delay.ticks as int)
                } else {
                    entries[k]
                },
        decreases slice@.len() - i,
    {
        let info = slice[i];
        assert(info == entries[i as int]);
        let instant = info.instant.checked_add(delay).unwrap();
        slice[i] = StepExecutionInfo { instant, step: info.step, station: info.station };
        i = i + 1;
    }
    assert(slice@ =~= delayed(entries, delay.ticks as int));
}

/// Lets the pour `info` begin at `now`, unless an entry of the queue cannot be moved by as much as
/// the pour is late: then nothing changes.
fn handle_step_begin(ctx: &mut Context, info: &StepExecutionInfo, now: Instant) -> (begun: bool)
    ensures
        begun == delay_fits(old(ctx)@.queue, lateness(*info, now)),
        begun ==> final(ctx)@ == old(ctx)@.step_begun(*info, now),
        !begun ==> final(ctx)@ == old(ctx)@,
{
    match now.checked_duration_since(info.instant) {
        Some(delta) => {
            let queue = queue_slice(&ctx.step_queue);
            let mut i: usize = 0;
            while i < queue.len()
                invariant
                    i <= queue@.len(),
                    queue@ == ctx@.queue,
                    ctx@ == old(ctx)@,
                    delta.ticks == lateness(*info, now),
                    forall|k: int|
                        0 <= k < i ==> #[trigger] queue@[k].instant.ticks + delta.ticks <= u64::MAX,
                decreases queue@.len() - i,
            {
                if queue[i].instant.checked_add(delta).is_none() {
                    assert(ctx@.queue[i as int].instant.ticks + delta.ticks > u64::MAX);
                    return false;
                }
                i = i + 1;
            }
            delay_entries(queue_mut_slice(&mut ctx.step_queue), delta);
        },
        None => {
            assert(delayed(ctx@.queue, 0) =~= ctx@.queue);
        },
    }
    true
}

/// Lets the pour `info` begin at the instant `now`.
pub fn begin_step_at(ctx: &mut Context, info: &StepExecutionInfo, now: Instant)
    requires
        delay_fits(old(ctx)@.queue, lateness(*info, now)),
    ensures
        final(ctx)@ == old(ctx)@.step_begun(*info, now),
{
    let _ = handle_step_begin(ctx, info, now);
}

/// Lets the pour `info` begin at the current time. Says whether it did: where an entry of the
/// queue cannot be moved by as much as the pour is late, nothing changes.
pub fn begin_step(ctx: &mut Context, info: &StepExecutionInfo) -> (begun: bool)
    ensures
        exists|now: Instant|
            {
                &&& begun == delay_fits(old(ctx)@.queue, #[trigger] lateness(*info, now))
                &&& begun ==> final(ctx)@ == old(ctx)@.step_begun(*info, now)
            },
        !begun ==> final(ctx)@ == old(ctx)@,
        old(ctx)@.queue.len() == 0 ==> begun && final(ctx)@ == old(ctx)@,
{
    let now = Instant::now();
    let begun = handle_step_begin(ctx, info, now);
    proof {
        let late = lateness(*info, now);
        assert(old(ctx)@.queue.len() == 0 ==> delayed(old(ctx)@.queue, late)
            =~= old(ctx)@.queue);
    }
    begun
}

/// Whether the stage of the recipe is over at the station of the pour `info`, which has just ended.
pub fn end_step(ctx: &Context, info: &StepExecutionInfo) -> (stage_over: bool)
    requires
        info.station.0 < MAX_STATIONS,
    ensures
        stage_over == (ctx@.counts[info.station.0 as int] == 0),
{
    ctx.num_steps_per_station[info.station.0] == 0
}

/// What the executor is at.
#[derive(Clone, Copy, Debug, PartialEq, Eq)]
pub enum Phase {
    /// Nothing is scheduled.
    Idle,
    /// The time to set out for the pour has not come yet.
    Waiting(StepExecutionInfo),
    /// The spout is on its way to the pour.
    Travelling(StepExecutionInfo),
    /// The pour is under way.
    Pouring(StepExecutionInfo),
    /// A station is being told that the stage of its recipe is over.
    Reporting(Station),
}

/// What the executor has waited for.
pub enum Input {
    /// An event of a station.
    Received(Event),
    /// The end of the wait.
    Elapsed,
    /// The delivery of a report.
    Delivered,
}

/// What the executor does next.
#[derive(Clone, Copy, Debug, PartialEq, Eq)]
pub enum Action {
    /// Wait for an event.
    Receive,
    /// Wait for an event, up to an instant.
    ReceiveUntil(Instant),
    /// Wait for an instant.
    SleepUntil(Instant),
    /// Wait for some time.
    SleepFor(Duration),
    /// Tell a station that the stage of its recipe is over.
    ReportStageOver(Station),
}

impl Phase {
    /// The pour that the executor has taken from the queue.
    pub open spec fn pour(self) -> Option<StepExecutionInfo> {
        match self {
            Phase::Waiting(info) | Phase::Travelling(info) | Phase::Pouring(info) => Some(info),
            _ => None,
        }
    }

    /// The pour that was taken from the queue, if any, is sound.
    pub open spec fn is_sound(self) -> bool {
        self.pour() matches Some(info) ==> entry_is_sound(info)
    }

    /// The input is one that the executor waits for in this phase.
    pub open spec fn awaits(self, input: Input) -> bool {
        match input {
            Input::Received(_) => self is Idle || self is Waiting,
            Input::Elapsed => self.pour() is Some,
            Input::Delivered => self is Reporting,
        }
    }
}

/// The action that goes with waiting for the pour `info`: be ready to set out in time.
pub open spec fn waiting_action(info: StepExecutionInfo) -> Action {
    Action::ReceiveUntil(Instant { ticks: (info.instant.ticks - TRAVEL_TICKS) as u64 })
}

impl ContextView {
    /// The data after the pour that is due next, if there is one, is taken from the queue.
    pub open spec fn next_taken(self) -> ContextView {
        if self.queue.len() == 0 {
            self
        } else {
            let s = self.queue.last().station.0 as int;
            ContextView {
                queue: self.queue.drop_last(),
                counts: self.counts.update(s, (self.counts[s] - 1) as usize),
            }
        }
    }

    /// Where the executor goes once it is free to take the next pour.
    pub open spec fn next_move(self) -> (Phase, Action) {
        if self.queue.len() == 0 {
            (Phase::Idle, Action::Receive)
        } else {
            (Phase::Waiting(self.queue.last()), waiting_action(self.queue.last()))
        }
    }

    /// `input`, that came at `now` in `phase`, can be handled.
    pub open spec fn input_fits(self, phase: Phase, input: Input, now: Instant) -> bool {
        match (phase, input) {
            (Phase::Idle, Input::Received(event)) => self.event_fits(event@, now),
            (Phase::Waiting(info), Input::Received(event)) => event@ == EventView::CancelRecipe(
                info.station,
            ) || self.event_fits(event@, now),
            (Phase::Travelling(info), Input::Elapsed) => delay_fits(
                self.queue,
                lateness(info, now),
            ),
            _ => true,
        }
    }

    /// In `phase`, `input` at `now` leads to the data `after`, the phase `next.0` and the action
    /// `next.1`.
    pub open spec fn input_leads_to(
        self,
        phase: Phase,
        input: Input,
        now: Instant,
        after: ContextView,
        next: (Phase, Action),
    ) -> bool {
        match (phase, input) {
            (Phase::Idle, Input::Received(event)) => exists|handled: ContextView|
                {
                    &&& #[trigger] self.event_leads_to(event@, now, handled)
                    &&& after == handled.next_taken()
                    &&& next == handled.next_move()
                },
            (Phase::Waiting(info), Input::Received(event)) => if event@
                == EventView::CancelRecipe(info.station) {
                &&& after == self.cancelled(info.station).next_taken()
                &&& next == self.cancelled(info.station).next_move()
            } else {
                &&& self.event_leads_to(event@, now, after)
                &&& next == (phase, waiting_action(info))
            },
            (Phase::Waiting(info), _) => {
                &&& after == self
                &&& next == (Phase::Travelling(info), Action::SleepUntil(info.instant))
            },
            (Phase::Travelling(info), _) => {
                &&& after == self.step_begun(info, now)
                &&& next == (Phase::Pouring(info), Action::SleepFor(info.step.duration))
            },
            (Phase::Pouring(info), _) => if self.counts[info.station.0 as int] == 0 {
                &&& after == self
                &&& next == (
                    Phase::Reporting(info.station),
                    Action::ReportStageOver(info.station),
                )
            } else {
                &&& after == self.next_taken()
                &&& next == self.next_move()
            },
            _ => {
                &&& after == self.next_taken()
                &&& next == self.next_move()
            },
        }
    }
}

/// Takes the pour that is due next from the queue, or gives `None` where nothing is scheduled.
pub fn take_next_step(ctx: &mut Context) -> (info: Option<StepExecutionInfo>)
    requires
        old(ctx)@.is_sound(),
    ensures
        final(ctx)@ == old(ctx)@.next_taken(),
        info == if old(ctx)@.queue.len() == 0 {
            None
        } else {
            Some(old(ctx)@.queue.last())
        },
        final(ctx)@.is_sound(),
{
    proof {
        law_take_keeps_soundness(ctx@);
    }
    match queue_pop(&mut ctx.step_queue) {
        Some(info) => {
            ctx.num_steps_per_station[info.station.0] = ctx.num_steps_per_station[info.station.0]
                - 1;
            Some(info)
        },
        None => None,
    }
}

/// Goes on with the pour that is due next: the first thing that the executor does, and what it does
/// whenever it is done with a pour.
pub fn next_move(ctx: &mut Context) -> (next: (Phase, Action))
    requires
        old(ctx)@.is_sound(),
    ensures
        final(ctx)@ == old(ctx)@.next_taken(),
        next == old(ctx)@.next_move(),
        final(ctx)@.is_sound(),
        next.0.is_sound(),
{
    match take_next_step(ctx) {
        Some(info) => (Phase::Waiting(info), wait_for(&info)),
        None => (Phase::Idle, Action::Receive),
    }
}

/// The action that goes with waiting for the pour `info`.
fn wait_for(info: &StepExecutionInfo) -> (action: Action)
    requires
        entry_is_sound(*info),
    ensures
        action == waiting_action(*info),
{
    Action::ReceiveUntil(info.instant.checked_sub(travel_time()).unwrap())
}

/// One turn of the executor: from its phase and what it has waited for to the next phase and what
/// it does then. Gives `None`, with nothing changed, where the input cannot be handled at the
/// current time without leaving the range of the clock, of the queue, of the counters or of the
/// stations.
pub fn main_task_turn(ctx: &mut Context, phase: Phase, input: Input) -> (turn: Option<
    (Phase, Action),
>)
    requires
        old(ctx)@.is_sound(),
        phase.is_sound(),
        phase.awaits(input),
    ensures
        final(ctx)@.is_sound(),
        turn matches Some(next) ==> next.0.is_sound(),
        turn is None ==> final(ctx)@ == old(ctx)@,
        exists|now: Instant|
            {
                &&& turn is Some <==> #[trigger] old(ctx)@.input_fits(phase, input, now)
                &&& turn matches Some(next) ==> old(ctx)@.input_leads_to(
                    phase,
                    input,
                    now,
                    final(ctx)@,
                    next,
                )
            },
{
    let now = Instant::now();
    main_task_turn_at(ctx, phase, input, now)
}

/// One turn of the executor at the instant `now`: see [`main_task_turn`].
pub fn main_task_turn_at(ctx: &mut Context, phase: Phase, input: Input, now: Instant) -> (turn:
    Option<(Phase, Action)>)
    requires
        old(ctx)@.is_sound(),
        phase.is_sound(),
        phase.awaits(input),
    ensures
        final(ctx)@.is_sound(),
        turn matches Some(next) ==> next.0.is_sound(),
        turn is None ==> final(ctx)@ == old(ctx)@,
        turn is Some <==> old(ctx)@.input_fits(phase, input, now),
        turn matches Some(next) ==> old(ctx)@.input_leads_to(
            phase,
            input,
            now,
            final(ctx)@,
            next,
        ),
{
    match (phase, input) {
        (Phase::Idle, Input::Received(event)) => {
            if !handle_event(ctx, &event, now) {
                return None;
            }
            proof {
                law_event_keeps_soundness(old(ctx)@, event@, now, ctx@);
            }
            Some(next_move(ctx))
        },
        (Phase::Waiting(info), Input::Received(event)) => {
            if let Event::CancelRecipe(canceled_station) = event {
                if canceled_station == info.station {
                    proof {
                        law_cancel_keeps_soundness(old(ctx)@, info.station);
                    }
                    cancel_recipe(ctx, info.station);
                    return Some(next_move(ctx));
                }
            }
            if !handle_event(ctx, &event, now) {
                return None;
            }
            proof {
                law_event_keeps_soundness(old(ctx)@, event@, now, ctx@);
            }
            Some((phase, wait_for(&info)))
        },
        (Phase::Waiting(info), _) => Some(
            (Phase::Travelling(info), Action::SleepUntil(info.instant)),
        ),
        (Phase::Travelling(info), _) => {
            if !handle_step_begin(ctx, &info, now) {
                return None;
            }
            proof {
                law_delay_keeps_soundness(old(ctx)@, info, now);
            }
            Some((Phase::Pouring(info), Action::SleepFor(info.step.duration)))
        },
        (Phase::Pouring(info), _) => {
            if end_step(ctx, &info) {
                Some((Phase::Reporting(info.station), Action::ReportStageOver(info.station)))
            } else {
                Some(next_move(ctx))
            }
        },
        _ => Some(next_move(ctx)),
    }
}

} // verus!
