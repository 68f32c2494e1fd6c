//! What holds of the schedule as a whole, whatever happens to it.
use super::executor::{
    delay_fits, delayed, delayed_entry, lateness, Action, ContextView, EventView, Input, Phase,
};
use super::queue::{latest_first, sorted_latest_first, without_station, StepExecutionInfo};
use super::schedule::{
    attacks_begin, attacks_can_follow, attacks_entry_fits, attacks_fit, attacks_have_gap,
    begun_behind, collides, end_of, is_first_start, lemma_free_start_fits, lemma_offset_grows,
    lemma_scald_index, length_of, offset_of, placed_step, placed_steps, scald_entry_fits,
    scald_fits, scald_index, start_fits, start_millis, start_suits, step_hits, touches, with_scald,
    TRAVEL_TICKS,
};
use super::Step;
use crate::stations::{Station, MAX_STATIONS};
use crate::time::{ticks_in, Instant};
use vstd::prelude::*;
use vstd::seq_lib::{
    lemma_multiset_commutative, to_multiset_build, to_multiset_contains, to_multiset_insert,
    to_multiset_len, to_multiset_remove,
};

verus! {

/// Number of entries of the queue that are for `station`.
pub open spec fn pours_for(queue: Seq<StepExecutionInfo>, station: Station) -> nat {
    queue.filter(|info: StepExecutionInfo| info.station == station).len()
}

/// The entry is for a station that exists, and the spout can be on its way in time for it.
pub open spec fn entry_is_sound(info: StepExecutionInfo) -> bool {
    info.station.0 < MAX_STATIONS && info.instant.ticks >= TRAVEL_TICKS
}

/// The station that an event is about.
pub open spec fn scheduled_station(event: EventView) -> Station {
    match event {
        EventView::ScheduleScald(station, _) => station,
        EventView::ScheduleAttacks(station, _) => station,
        EventView::CancelRecipe(station) => station,
    }
}

/// The event schedules attacks for which some rest in the queue has room.
pub open spec fn finds_rest(before: ContextView, event: EventView) -> bool {
    event matches EventView::ScheduleAttacks(station, steps) && steps.len() > 0
        && attacks_have_gap(before.queue, steps, station)
}

impl ContextView {
    /// All entries of the queue are sound, and none is left out of the count of its station.
    pub open spec fn is_sound(self) -> bool {
        &&& self.counts.len() == MAX_STATIONS
        &&& forall|i: int| 0 <= i < self.queue.len() ==> entry_is_sound(#[trigger] self.queue[i])
        &&& forall|s: int|
            0 <= s < MAX_STATIONS ==> pours_for(self.queue, Station(s as usize))
                <= #[trigger] self.counts[s]
    }
}

/// Filtering a sequence and taking it as a multiset can change places.
proof fn lemma_filter_to_multiset<A>(s: Seq<A>, p: spec_fn(A) -> bool)
    ensures
        s.filter(p).to_multiset() == s.to_multiset().filter(p),
    decreases s.len(),
{
    broadcast use vstd::multiset::group_multiset_axioms;

    if s.len() == 0 {
        assert(s.filter(p) =~= Seq::<A>::empty());
        to_multiset_len(s);
        to_multiset_len(s.filter(p));
        assert forall|a: A| s.to_multiset().count(a) == 0 && s.filter(p).to_multiset().count(a)
            == 0 by {
            to_multiset_contains(s, a);
            to_multiset_contains(s.filter(p), a);
        }
        assert(s.filter(p).to_multiset() =~= s.to_multiset().filter(p));
    } else {
        let front = s.drop_last();
        let last = s.last();
        lemma_filter_to_multiset(front, p);
        assert(front.push(last) =~= s);
        front.lemma_filter_push(last, p);
        to_multiset_build(front, last);
        to_multiset_build(front.filter(p), last);
        assert(s.filter(p).to_multiset() =~= s.to_multiset().filter(p));
    }
}

/// Queues with the same entries hold the same number for each station.
proof fn lemma_pours_same_entries(
    a: Seq<StepExecutionInfo>,
    b: Seq<StepExecutionInfo>,
    station: Station,
)
    requires
        a.to_multiset() == b.to_multiset(),
    ensures
        pours_for(a, station) == pours_for(b, station),
{
    let p = |info: StepExecutionInfo| info.station == station;
    lemma_filter_to_multiset(a, p);
    lemma_filter_to_multiset(b, p);
    to_multiset_len(a.filter(p));
    to_multiset_len(b.filter(p));
}

/// An entry that is put in counts for its station only.
proof fn lemma_pours_insert(
    queue: Seq<StepExecutionInfo>,
    i: int,
    info: StepExecutionInfo,
    station: Station,
)
    requires
        0 <= i <= queue.len(),
    ensures
        pours_for(queue.insert(i, info), station) == pours_for(queue, station) + if info.station
            == station {
            1int
        } else {
            0int
        },
{
    let p = |e: StepExecutionInfo| e.station == station;
    to_multiset_insert(queue, i, info);
    to_multiset_build(queue, info);
    lemma_pours_same_entries(queue.insert(i, info), queue.push(info), station);
    queue.lemma_filter_push(info, p);
}

/// Moving the queue in time changes no count.
proof fn lemma_pours_delayed(queue: Seq<StepExecutionInfo>, delay: int, station: Station)
    ensures
        pours_for(delayed(queue, delay), station) == pours_for(queue, station),
    decreases queue.len(),
{
    let p = |e: StepExecutionInfo| e.station == station;
    if queue.len() == 0 {
        assert(delayed(queue, delay) =~= queue);
    } else {
        let front = queue.drop_last();
        lemma_pours_delayed(front, delay, station);
        assert(front.push(queue.last()) =~= queue);
        assert(delayed(front, delay).push(delayed_entry(queue.last(), delay)) =~= delayed(
            queue,
            delay,
        ));
        front.lemma_filter_push(queue.last(), p);
        delayed(front, delay).lemma_filter_push(delayed_entry(queue.last(), delay), p);
    }
}

/// What is left for a station after one is cancelled: nothing for that one, and what there was for
/// any other.
proof fn lemma_pours_without(
    queue: Seq<StepExecutionInfo>,
    cancelled: Station,
    station: Station,
)
    ensures
        pours_for(without_station(queue, cancelled), station) == if station == cancelled {
            0
        } else {
            pours_for(queue, station)
        },
    decreases queue.len(),
{
    let p = |e: StepExecutionInfo| e.station == station;
    let keep = |e: StepExecutionInfo| e.station != cancelled;
    if queue.len() == 0 {
        assert(queue.filter(keep) =~= queue);
        assert(queue.filter(p) =~= queue);
    } else {
        let front = queue.drop_last();
        lemma_pours_without(front, cancelled, station);
        assert(front.push(queue.last()) =~= queue);
        front.lemma_filter_push(queue.last(), p);
        front.lemma_filter_push(queue.last(), keep);
        front.filter(keep).lemma_filter_push(queue.last(), p);
    }
}

/// An entry of a queue is an entry of every queue with the same entries.
proof fn lemma_same_entries(a: Seq<StepExecutionInfo>, b: Seq<StepExecutionInfo>, i: int)
    requires
        a.to_multiset() == b.to_multiset(),
        0 <= i < a.len(),
    ensures
        b.contains(a[i]),
{
    assert(a.contains(a[i]));
    to_multiset_contains(a, a[i]);
    to_multiset_contains(b, a[i]);
}

/// Handling an event keeps the executor's data sound.
pub proof fn law_event_keeps_soundness(
    before: ContextView,
    event: EventView,
    now: Instant,
    after: ContextView,
)
    requires
        before.is_sound(),
        before.event_fits(event, now),
        before.event_leads_to(event, now, after),
    ensures
        after.is_sound(),
{
    match event {
        EventView::ScheduleScald(station, step) => {
            lemma_scald_index(before.queue, step, before.queue.len() - 1);
            let i = if before.queue.len() == 0 {
                0
            } else {
                scald_index(before.queue, step, before.queue.len() - 1)
            };
            if before.queue.len() > 0 {
                assert(scald_entry_fits(before.queue, step, i));
            }
            let info = with_scald(before.queue, station, step, now)[i];
            assert(after.queue =~= before.queue.insert(i, info));
            assert forall|k: int| 0 <= k < after.queue.len() implies entry_is_sound(
                #[trigger] after.queue[k],
            ) by {
                if k < i {
                    assert(after.queue[k] == before.queue[k]);
                } else if k > i {
                    assert(after.queue[k] == before.queue[k - 1]);
                }
            }
            assert forall|s: int| 0 <= s < MAX_STATIONS implies pours_for(
                after.queue,
                Station(s as usize),
            ) <= #[trigger] after.counts[s] by {
                lemma_pours_insert(before.queue, i, info, Station(s as usize));
                assert(pours_for(before.queue, Station(s as usize)) <= before.counts[s]);
            }
        },
        EventView::ScheduleAttacks(station, steps) => {
            if steps.len() > 0 {
                let begin = lemma_attacks_queued(before, station, steps, now, after);
                let front = placed_steps(steps, station, begin);
                let joined = front + before.queue;
                assert forall|k: int| 0 <= k < joined.len() implies entry_is_sound(
                    #[trigger] joined[k],
                ) by {
                    if k < steps.len() {
                        let n = steps.len() - 1 - k;
                        lemma_offset_grows(steps, 0, n);
                        lemma_offset_grows(steps, n, steps.len() as int);
                        assert(joined[k] == placed_step(steps, station, begin, n));
                    } else {
                        assert(joined[k] == before.queue[k - steps.len()]);
                    }
                }
                assert forall|k: int| 0 <= k < after.queue.len() implies entry_is_sound(
                    #[trigger] after.queue[k],
                ) by {
                    lemma_same_entries(after.queue, joined, k);
                }
                assert forall|s: int| 0 <= s < MAX_STATIONS implies pours_for(
                    after.queue,
                    Station(s as usize),
                ) <= #[trigger] after.counts[s] by {
                    let theirs = Station(s as usize);
                    lemma_pours_same_entries(after.queue, joined, theirs);
                    lemma_pours_placed(steps, station, begin, before.queue, theirs);
                    assert(pours_for(before.queue, theirs) <= before.counts[s]);
                }
            }
        },
        EventView::CancelRecipe(station) => {
            law_cancel_keeps_soundness(before, station);
        },
    }
}

/// Attacks that fit and find no rest to begin in have room after everything else.
proof fn lemma_attacks_fit_after(
    queue: Seq<StepExecutionInfo>,
    steps: Seq<Step>,
    station: Station,
    now: Instant,
)
    requires
        attacks_fit(queue, steps, station, now),
        !attacks_have_gap(queue, steps, station),
    ensures
        attacks_begin(queue, now) + offset_of(steps, steps.len() as int) <= u64::MAX,
{
    if queue.len() > 0 {
        assert(forall|m: int|
            0 < m < queue.len() ==> !#[trigger] attacks_can_follow(queue, steps, station, m));
        assert(attacks_entry_fits(queue, steps, station, 0));
    }
}

/// Attacks that fit and begin in a rest end in time, and begin after the entry before the rest is
/// over and the spout can be on its way.
proof fn lemma_attacks_fit_in_rest(
    queue: Seq<StepExecutionInfo>,
    steps: Seq<Step>,
    station: Station,
    now: Instant,
    i: int,
    k: int,
)
    requires
        attacks_fit(queue, steps, station, now),
        is_first_start(queue, steps, station, i, k),
    ensures
        start_fits(queue, steps, station, i, k),
        ticks_in(start_millis(queue, i, k)) + offset_of(steps, steps.len() as int) <= u64::MAX,
        end_of(queue[i]) < ticks_in(start_millis(queue, i, k)),
        TRAVEL_TICKS <= ticks_in(start_millis(queue, i, k)),
{
    assert(attacks_entry_fits(queue, steps, station, i));
    assert(start_fits(queue, steps, station, i, k));
    lemma_free_start_fits(
        steps,
        station,
        ticks_in(start_millis(queue, i, k)),
        queue.take(i),
    );
}

/// Attacks that are scheduled are queued one after the other from some instant on: the first start
/// that suits them in a rest, or one after everything else.
proof fn lemma_attacks_queued(
    before: ContextView,
    station: Station,
    steps: Seq<Step>,
    now: Instant,
    after: ContextView,
) -> (begin: int)
    requires
        steps.len() > 0,
        before.event_fits(EventView::ScheduleAttacks(station, steps), now),
        before.event_leads_to(EventView::ScheduleAttacks(station, steps), now, after),
    ensures
        TRAVEL_TICKS <= begin,
        begin + offset_of(steps, steps.len() as int) <= u64::MAX,
        after.queue.to_multiset() == (placed_steps(steps, station, begin)
            + before.queue).to_multiset(),
{
    let queue = before.queue;
    if attacks_have_gap(queue, steps, station) {
        let (i, k) = choose|i: int, k: int|
            {
                &&& #[trigger] is_first_start(queue, steps, station, i, k)
                &&& sorted_latest_first(
                    placed_steps(steps, station, ticks_in(start_millis(queue, i, k))) + queue,
                    after.queue,
                )
            };
        lemma_attacks_fit_in_rest(queue, steps, station, now, i, k);
        ticks_in(start_millis(queue, i, k))
    } else {
        lemma_attacks_fit_after(queue, steps, station, now);
        attacks_begin(queue, now)
    }
}

/// Steps that are put in front of a queue count for their station only.
proof fn lemma_pours_placed(
    steps: Seq<Step>,
    station: Station,
    begin: int,
    queue: Seq<StepExecutionInfo>,
    theirs: Station,
)
    ensures
        pours_for(placed_steps(steps, station, begin) + queue, theirs) == pours_for(queue, theirs)
            + if station == theirs {
            steps.len()
        } else {
            0
        },
{
    let front = placed_steps(steps, station, begin);
    let p = |info: StepExecutionInfo| info.station == theirs;
    Seq::filter_distributes_over_add(front, queue, p);
    if station == theirs {
        lemma_pours_all(front, station);
    } else {
        assert(forall|k: int| 0 <= k < front.len() ==> !p(front[k]));
        front.lemma_all_neg_filter_empty(p);
    }
}

/// Cancelling keeps the executor's data sound.
pub proof fn law_cancel_keeps_soundness(before: ContextView, station: Station)
    requires
        before.is_sound(),
        station.0 < MAX_STATIONS,
    ensures
        before.cancelled(station).is_sound(),
{
    let after = before.cancelled(station);
    let keep = |e: StepExecutionInfo| e.station != station;
    assert forall|k: int| 0 <= k < after.queue.len() implies entry_is_sound(
        #[trigger] after.queue[k],
    ) by {
        before.queue.lemma_filter_contains_rev(keep, after.queue[k]);
    }
    assert forall|s: int| 0 <= s < MAX_STATIONS implies pours_for(after.queue, Station(s as usize))
        <= #[trigger] after.counts[s] by {
        lemma_pours_without(before.queue, station, Station(s as usize));
        assert(pours_for(before.queue, Station(s as usize)) <= before.counts[s]);
    }
}

/// Letting a pour begin late keeps the executor's data sound.
pub proof fn law_delay_keeps_soundness(
    before: ContextView,
    info: StepExecutionInfo,
    now: Instant,
)
    requires
        before.is_sound(),
        delay_fits(before.queue, lateness(info, now)),
    ensures
        before.step_begun(info, now).is_sound(),
{
    let late = lateness(info, now);
    let after = before.step_begun(info, now);
    assert forall|k: int| 0 <= k < after.queue.len() implies entry_is_sound(
        #[trigger] after.queue[k],
    ) by {
        assert(after.queue[k] == delayed_entry(before.queue[k], late));
        assert(entry_is_sound(before.queue[k]));
    }
    assert forall|s: int| 0 <= s < MAX_STATIONS implies pours_for(after.queue, Station(s as usize))
        <= #[trigger] after.counts[s] by {
        lemma_pours_delayed(before.queue, late, Station(s as usize));
        assert(pours_for(before.queue, Station(s as usize)) <= before.counts[s]);
    }
}

/// Taking the pour that is due next keeps the executor's data sound, and the pour is sound and
/// counted.
pub proof fn law_take_keeps_soundness(before: ContextView)
    requires
        before.is_sound(),
    ensures
        before.next_taken().is_sound(),
        before.queue.len() > 0 ==> {
            &&& entry_is_sound(before.queue.last())
            &&& before.counts[before.queue.last().station.0 as int] > 0
        },
{
    if before.queue.len() > 0 {
        let after = before.next_taken();
        let last = before.queue.last();
        let front = before.queue.drop_last();
        assert(entry_is_sound(before.queue[before.queue.len() - 1]));
        assert(front.push(last) =~= before.queue);
        assert forall|s: int| 0 <= s < MAX_STATIONS implies pours_for(
            front,
            Station(s as usize),
        ) + (if last.station.0 == s {
            1int
        } else {
            0int
        }) <= #[trigger] before.counts[s] by {
            let p = |e: StepExecutionInfo| e.station == Station(s as usize);
            front.lemma_filter_push(last, p);
        }
        assert(before.counts[last.station.0 as int] > 0);
        assert forall|s: int| 0 <= s < MAX_STATIONS implies pours_for(
            after.queue,
            Station(s as usize),
        ) <= #[trigger] after.counts[s] by {
            assert(pours_for(front, Station(s as usize)) <= before.counts[s]);
        }
    }
}

/// No two entries of the queue overlap: each is over when the one in front of it begins.
pub open spec fn is_separated(queue: Seq<StepExecutionInfo>) -> bool {
    forall|i: int, j: int|
        0 <= i < j < queue.len() ==> end_of(#[trigger] queue[j])
            <= #[trigger] queue[i].instant.ticks
}

/// Of entries that begin together, all take no time.
pub open spec fn ties_take_no_time(queue: Seq<StepExecutionInfo>) -> bool {
    forall|i: int, j: int|
        0 <= i < j < queue.len() && #[trigger] queue[i].instant == #[trigger] queue[j].instant
            ==> queue[i].step.duration.ticks == 0 && queue[j].step.duration.ticks == 0
}

/// A step that begins together with the one before it takes no time.
pub open spec fn steps_tie_for_no_time(steps: Seq<Step>) -> bool {
    forall|n: int|
        0 <= n < steps.len() - 1 && length_of(#[trigger] steps[n]) == 0 ==> steps[n
            + 1].duration.ticks == 0
}

/// The order in which `event` leaves the queue is open for no two pours of which one takes time: the
/// queue is not sorted anew, or pours that begin together take no time.
pub open spec fn order_is_settled(before: ContextView, event: EventView) -> bool {
    finds_rest(before, event) ==> {
        &&& ties_take_no_time(before.queue)
        &&& event matches EventView::ScheduleAttacks(_, steps) && steps_tie_for_no_time(steps)
    }
}

/// The relation holds of all pairs of entries, the one that stands first named first.
spec fn holds_pairwise(
    queue: Seq<StepExecutionInfo>,
    r: spec_fn(StepExecutionInfo, StepExecutionInfo) -> bool,
) -> bool {
    forall|i: int, j: int|
        0 <= i < j < queue.len() ==> r(#[trigger] queue[i], #[trigger] queue[j])
}

/// A relation between all pairs of entries still holds when entries are left out.
proof fn lemma_filter_keeps_pairwise(
    queue: Seq<StepExecutionInfo>,
    p: spec_fn(StepExecutionInfo) -> bool,
    r: spec_fn(StepExecutionInfo, StepExecutionInfo) -> bool,
)
    requires
        holds_pairwise(queue, r),
    ensures
        holds_pairwise(queue.filter(p), r),
    decreases queue.len(),
{
    if queue.len() == 0 {
        assert(queue.filter(p) =~= queue);
    } else {
        let front = queue.drop_last();
        let last = queue.last();
        lemma_filter_keeps_pairwise(front, p, r);
        assert(front.push(last) =~= queue);
        front.lemma_filter_push(last, p);
        let kept = queue.filter(p);
        assert forall|i: int, j: int| 0 <= i < j < kept.len() implies r(
            #[trigger] kept[i],
            #[trigger] kept[j],
        ) by {
            let before = front.filter(p);
            assert(kept[i] == before[i]);
            if j < before.len() {
                assert(kept[j] == before[j]);
            } else {
                front.lemma_filter_contains_rev(p, before[i]);
                let k = choose|k: int| 0 <= k < front.len() && front[k] == before[i];
                assert(r(queue[k], queue[queue.len() - 1]));
            }
        }
    }
}

/// Two entries at different places of a queue stand at different places of every queue with the
/// same entries.
proof fn lemma_two_entries(
    a: Seq<StepExecutionInfo>,
    b: Seq<StepExecutionInfo>,
    i: int,
    j: int,
) -> (places: (int, int))
    requires
        a.to_multiset() == b.to_multiset(),
        0 <= i < j < a.len(),
    ensures
        0 <= places.0 < b.len(),
        0 <= places.1 < b.len(),
        places.0 != places.1,
        b[places.0] == a[i],
        b[places.1] == a[j],
{
    lemma_same_entries(a, b, i);
    let k = choose|k: int| 0 <= k < b.len() && b[k] == a[i];
    to_multiset_remove(a, i);
    to_multiset_remove(b, k);
    assert(a.remove(i)[j - 1] == a[j]);
    lemma_same_entries(a.remove(i), b.remove(k), j - 1);
    let l = choose|l: int| 0 <= l < b.remove(k).len() && b.remove(k)[l] == a[j];
    if l < k {
        (k, l)
    } else {
        (k, l + 1)
    }
}

/// Steps that are placed one after the other follow each other without an overlap.
proof fn lemma_placed_steps(steps: Seq<Step>, station: Station, begin: int)
    requires
        0 <= begin,
        begin + offset_of(steps, steps.len() as int) <= u64::MAX,
    ensures
        is_separated(placed_steps(steps, station, begin)),
        forall|k: int|
            0 <= k < steps.len() ==> begin <= #[trigger] placed_steps(
                steps,
                station,
                begin,
            )[k].instant.ticks,
{
    let placed = placed_steps(steps, station, begin);
    assert forall|k: int| 0 <= k < steps.len() implies begin <= #[trigger] placed[k].instant.ticks
        && placed[k].instant.ticks == begin + offset_of(steps, steps.len() - 1 - k) by {
        lemma_offset_grows(steps, 0, steps.len() - 1 - k);
        lemma_offset_grows(steps, steps.len() - 1 - k, steps.len() as int);
    }
    assert forall|i: int, j: int| 0 <= i < j < placed.len() implies end_of(#[trigger] placed[j])
        <= #[trigger] placed[i].instant.ticks by {
        let n = steps.len() - 1 - j;
        lemma_offset_grows(steps, n + 1, steps.len() - 1 - i);
        assert(offset_of(steps, n + 1) == offset_of(steps, n) + length_of(steps[n]));
    }
}

/// The queue stays in order: whatever event is handled, no entry begins after one that stands
/// before it.
pub proof fn law_event_keeps_order(
    before: ContextView,
    event: EventView,
    now: Instant,
    after: ContextView,
)
    requires
        latest_first(before.queue),
        before.event_fits(event, now),
        before.event_leads_to(event, now, after),
    ensures
        latest_first(after.queue),
{
    let queue = before.queue;
    match event {
        EventView::ScheduleScald(station, step) => {
            if queue.len() > 0 {
                lemma_scald_index(queue, step, queue.len() - 1);
                let i = scald_index(queue, step, queue.len() - 1);
                assert(scald_entry_fits(queue, step, i));
                assert forall|k: int, l: int| 0 <= k < l < after.queue.len() implies #[trigger]
                    after.queue[l].instant.ticks <= #[trigger] after.queue[k].instant.ticks by {
                    lemma_inserted(queue, i, after.queue[i], k);
                    lemma_inserted(queue, i, after.queue[i], l);
                    if k == i {
                        assert(queue[l - 1].instant.ticks <= queue[i].instant.ticks);
                    }
                    if l == i {
                        assert(queue[i - 1].instant.ticks <= queue[k].instant.ticks);
                    }
                }
            }
        },
        EventView::ScheduleAttacks(station, steps) => {
            if steps.len() > 0 && !attacks_have_gap(queue, steps, station) {
                let begin = attacks_begin(queue, now);
                let front = placed_steps(steps, station, begin);
                lemma_attacks_fit_after(queue, steps, station, now);
                lemma_placed_steps(steps, station, begin);
                assert forall|k: int, l: int| 0 <= k < l < after.queue.len() implies #[trigger]
                    after.queue[l].instant.ticks <= #[trigger] after.queue[k].instant.ticks by {
                    let len = steps.len() as int;
                    if l < len {
                        assert(end_of(front[l]) <= front[k].instant.ticks);
                    } else if k < len {
                        assert(begin <= front[k].instant.ticks);
                        assert(queue[l - len].instant.ticks <= queue[0].instant.ticks);
                    } else {
                        assert(queue[l - len].instant.ticks <= queue[k - len].instant.ticks);
                    }
                }
            }
        },
        EventView::CancelRecipe(station) => {
            let keep = |info: StepExecutionInfo| info.station != station;
            let r = |a: StepExecutionInfo, b: StepExecutionInfo| b.instant.ticks <= a.instant.ticks;
            assert(holds_pairwise(queue, r));
            lemma_filter_keeps_pairwise(queue, keep, r);
            assert forall|k: int, l: int| 0 <= k < l < after.queue.len() implies #[trigger]
                after.queue[l].instant.ticks <= #[trigger] after.queue[k].instant.ticks by {
                assert(r(after.queue[k], after.queue[l]));
            }
        },
    }
}

/// What stands where after an entry is put in.
proof fn lemma_inserted(queue: Seq<StepExecutionInfo>, i: int, info: StepExecutionInfo, k: int)
    requires
        0 <= i <= queue.len(),
        0 <= k <= queue.len(),
    ensures
        queue.insert(i, info)[k] == if k < i {
            queue[k]
        } else if k == i {
            info
        } else {
            queue[k - 1]
        },
{
}

/// One of the two pours is over when the other begins.
pub open spec fn share_no_time(a: StepExecutionInfo, b: StepExecutionInfo) -> bool {
    end_of(a) <= b.instant.ticks || end_of(b) <= a.instant.ticks
}

/// No two entries of the queue are under way at once, in whatever order they stand.
pub open spec fn pours_are_apart(queue: Seq<StepExecutionInfo>) -> bool {
    forall|i: int, j: int|
        0 <= i < j < queue.len() ==> share_no_time(#[trigger] queue[i], #[trigger] queue[j])
}

/// Attacks that begin in a rest, and the pours of the queue, are never under way at once. Where
/// pours that begin together take no time, the attacks keep that so.
proof fn lemma_rest_keeps_apart(
    queue: Seq<StepExecutionInfo>,
    steps: Seq<Step>,
    station: Station,
    now: Instant,
    i: int,
    k: int,
)
    requires
        is_separated(queue),
        attacks_fit(queue, steps, station, now),
        is_first_start(queue, steps, station, i, k),
    ensures
        ({
            let joined = placed_steps(steps, station, ticks_in(start_millis(queue, i, k))) + queue;
            &&& pours_are_apart(joined)
            &&& ties_take_no_time(queue) && steps_tie_for_no_time(steps) ==> ties_take_no_time(
                joined,
            )
        }),
{
    let begin = ticks_in(start_millis(queue, i, k));
    let front = placed_steps(steps, station, begin);
    let joined = front + queue;
    let len = steps.len() as int;
    let settled = ties_take_no_time(queue) && steps_tie_for_no_time(steps);
    lemma_attacks_fit_in_rest(queue, steps, station, now, i, k);
    lemma_placed_steps(steps, station, begin);
    assert forall|m: int, n: int| 0 <= m < n < joined.len() implies share_no_time(
        #[trigger] joined[m],
        #[trigger] joined[n],
    ) && (settled && joined[m].instant == joined[n].instant ==> joined[m].step.duration.ticks
        == 0 && joined[n].step.duration.ticks == 0) by {
        if n < len {
            assert(end_of(front[n]) <= front[m].instant.ticks);
            if settled && front[m].instant == front[n].instant {
                lemma_placed_tie(steps, station, begin, len - 1 - n, len - 1 - m);
            }
        } else if m >= len {
            assert(end_of(queue[n - len]) <= queue[m - len].instant.ticks);
        } else {
            law_attacks_in_rest_share_no_time(
                queue,
                steps,
                station,
                now,
                i,
                k,
                len - 1 - m,
                n - len,
            );
        }
    }
}

/// Of two placed steps that begin together, the second takes no time.
proof fn lemma_placed_tie(steps: Seq<Step>, station: Station, begin: int, m: int, n: int)
    requires
        steps_tie_for_no_time(steps),
        0 <= begin,
        begin + offset_of(steps, steps.len() as int) <= u64::MAX,
        0 <= m < n < steps.len(),
        placed_step(steps, station, begin, m).instant == placed_step(
            steps,
            station,
            begin,
            n,
        ).instant,
    ensures
        steps[n].duration.ticks == 0,
{
    lemma_offset_grows(steps, 0, m);
    lemma_offset_grows(steps, m, n - 1);
    lemma_offset_grows(steps, n, steps.len() as int);
    assert(length_of(steps[n - 1]) == 0);
}

/// There is one place in the rests of a queue where attacks begin.
pub proof fn law_first_start_is_unique(
    queue: Seq<StepExecutionInfo>,
    steps: Seq<Step>,
    station: Station,
    first: (int, int),
    second: (int, int),
)
    requires
        is_first_start(queue, steps, station, first.0, first.1),
        is_first_start(queue, steps, station, second.0, second.1),
    ensures
        first == second,
{
    assert(attacks_can_follow(queue, steps, station, first.0));
    assert(attacks_can_follow(queue, steps, station, second.0));
}

/// Attacks that begin in a rest share no instant with any pour of a queue without overlaps.
pub proof fn law_attacks_in_rest_share_no_time(
    queue: Seq<StepExecutionInfo>,
    steps: Seq<Step>,
    station: Station,
    now: Instant,
    i: int,
    k: int,
    n: int,
    m: int,
)
    requires
        is_separated(queue),
        attacks_fit(queue, steps, station, now),
        is_first_start(queue, steps, station, i, k),
        0 <= n < steps.len(),
        0 <= m < queue.len(),
    ensures
        ({
            let new = placed_step(steps, station, ticks_in(start_millis(queue, i, k)), n);
            end_of(new) < queue[m].instant.ticks || end_of(queue[m]) < new.instant.ticks
        }),
{
    lemma_attacks_fit_in_rest(queue, steps, station, now, i, k);
    lemma_offset_grows(steps, 0, n);
    lemma_offset_grows(steps, n, steps.len() as int);
    if m < i {
        lemma_separated_in_order(queue);
        law_suitable_start_is_clear(queue, steps, station, i, k, n, m);
    } else if m > i {
        assert(end_of(queue[m]) <= queue[i].instant.ticks);
    }
}

/// A queue without overlaps is in order.
proof fn lemma_separated_in_order(queue: Seq<StepExecutionInfo>)
    requires
        is_separated(queue),
    ensures
        latest_first(queue),
{
    assert forall|a: int, b: int| 0 <= a < b < queue.len() implies #[trigger]
        queue[b].instant.ticks <= #[trigger] queue[a].instant.ticks by {
        assert(end_of(queue[b]) <= queue[a].instant.ticks);
    }
}

/// Attacks that are queued in a rest keep the queue free of overlaps.
proof fn lemma_rest_keeps_separation(
    before: ContextView,
    station: Station,
    steps: Seq<Step>,
    now: Instant,
    after: ContextView,
)
    requires
        is_separated(before.queue),
        steps.len() > 0,
        attacks_have_gap(before.queue, steps, station),
        before.event_fits(EventView::ScheduleAttacks(station, steps), now),
        before.event_leads_to(EventView::ScheduleAttacks(station, steps), now, after),
    ensures
        pours_are_apart(after.queue),
        ties_take_no_time(before.queue) && steps_tie_for_no_time(steps) ==> is_separated(
            after.queue,
        ),
{
    let queue = before.queue;
    let (i, k) = choose|i: int, k: int|
        {
            &&& #[trigger] is_first_start(queue, steps, station, i, k)
            &&& sorted_latest_first(
                placed_steps(steps, station, ticks_in(start_millis(queue, i, k))) + queue,
                after.queue,
            )
        };
    lemma_rest_keeps_apart(queue, steps, station, now, i, k);
    let joined = placed_steps(steps, station, ticks_in(start_millis(queue, i, k))) + queue;
    let settled = ties_take_no_time(queue) && steps_tie_for_no_time(steps);
    assert forall|a: int, b: int| 0 <= a < b < after.queue.len() implies share_no_time(
        #[trigger] after.queue[a],
        #[trigger] after.queue[b],
    ) && (settled ==> end_of(after.queue[b]) <= after.queue[a].instant.ticks) by {
        let (m, n) = lemma_two_entries(after.queue, joined, a, b);
        assert(after.queue[b].instant.ticks <= after.queue[a].instant.ticks);
        if m < n {
            assert(share_no_time(joined[m], joined[n]));
        } else {
            assert(share_no_time(joined[n], joined[m]));
        }
    }
}

/// Pours of which each is over when the one in front of it begins are never under way at once.
proof fn lemma_separated_are_apart(queue: Seq<StepExecutionInfo>)
    requires
        is_separated(queue),
    ensures
        pours_are_apart(queue),
{
    assert forall|a: int, b: int| 0 <= a < b < queue.len() implies share_no_time(
        #[trigger] queue[a],
        #[trigger] queue[b],
    ) by {
        assert(end_of(queue[b]) <= queue[a].instant.ticks);
    }
}

/// Whatever event is handled, the entries of the queue do not overlap if they did not before. Each
/// is over when the one in front of it begins, too, unless the queue is sorted anew and holds a pour
/// that begins together with another one and takes time: the order of two such entries is open. The
/// pour that was taken from the queue is not among its entries.
pub proof fn law_event_keeps_separation(
    before: ContextView,
    event: EventView,
    now: Instant,
    after: ContextView,
)
    requires
        is_separated(before.queue),
        before.event_fits(event, now),
        before.event_leads_to(event, now, after),
    ensures
        pours_are_apart(after.queue),
        order_is_settled(before, event) ==> is_separated(after.queue),
{
    let queue = before.queue;
    match event {
        EventView::ScheduleScald(station, step) => {
            if queue.len() > 0 {
                lemma_scald_index(queue, step, queue.len() - 1);
                let i = scald_index(queue, step, queue.len() - 1);
                assert(scald_entry_fits(queue, step, i));
                assert forall|k: int, l: int| 0 <= k < l < after.queue.len() implies end_of(
                    #[trigger] after.queue[l],
                ) <= #[trigger] after.queue[k].instant.ticks by {
                    lemma_inserted(queue, i, after.queue[i], k);
                    lemma_inserted(queue, i, after.queue[i], l);
                    if k == i {
                        assert(l - 1 > i ==> end_of(queue[l - 1]) <= queue[i].instant.ticks);
                    }
                    if l == i {
                        assert(k < i - 1 ==> end_of(queue[i - 1]) <= queue[k].instant.ticks);
                    }
                }
            }
        },
        EventView::ScheduleAttacks(station, steps) => {
            if steps.len() > 0 {
                if attacks_have_gap(queue, steps, station) {
                    lemma_rest_keeps_separation(before, station, steps, now, after);
                } else {
                    let begin = attacks_begin(queue, now);
                    let front = placed_steps(steps, station, begin);
                    lemma_attacks_fit_after(queue, steps, station, now);
                    lemma_placed_steps(steps, station, begin);
                    assert forall|k: int, l: int| 0 <= k < l < after.queue.len() implies end_of(
                        #[trigger] after.queue[l],
                    ) <= #[trigger] after.queue[k].instant.ticks by {
                        let len = steps.len() as int;
                        if l < len {
                            assert(end_of(front[l]) <= front[k].instant.ticks);
                        } else if k < len {
                            assert(begin <= front[k].instant.ticks);
                            if l > len {
                                assert(end_of(queue[l - len]) <= queue[0].instant.ticks);
                            }
                        } else {
                            assert(end_of(queue[l - len]) <= queue[k - len].instant.ticks);
                        }
                    }
                }
            }
        },
        EventView::CancelRecipe(station) => {
            let keep = |info: StepExecutionInfo| info.station != station;
            let r = |a: StepExecutionInfo, b: StepExecutionInfo| end_of(b) <= a.instant.ticks;
            assert(holds_pairwise(queue, r));
            lemma_filter_keeps_pairwise(queue, keep, r);
            assert forall|k: int, l: int| 0 <= k < l < after.queue.len() implies end_of(
                #[trigger] after.queue[l],
            ) <= #[trigger] after.queue[k].instant.ticks by {
                assert(r(after.queue[k], after.queue[l]));
            }
        },
    }
    if !finds_rest(before, event) {
        lemma_separated_are_apart(after.queue);
    }
}

/// Letting a pour begin late moves everything that is left by the same time: the queue stays in
/// order and free of overlaps, and the time between two entries stays as it was.
pub proof fn law_delay_keeps_distances(before: ContextView, info: StepExecutionInfo, now: Instant)
    requires
        delay_fits(before.queue, lateness(info, now)),
    ensures
        before.step_begun(info, now).queue.len() == before.queue.len(),
        forall|i: int, j: int|
            0 <= i < before.queue.len() && 0 <= j < before.queue.len() ==> #[trigger]
            before.step_begun(info, now).queue[i].instant.ticks - #[trigger] before.step_begun(
                info,
                now,
            ).queue[j].instant.ticks == before.queue[i].instant.ticks
                - before.queue[j].instant.ticks,
        latest_first(before.queue) ==> latest_first(before.step_begun(info, now).queue),
        is_separated(before.queue) ==> is_separated(before.step_begun(info, now).queue),
{
    let late = lateness(info, now);
    let queue = before.queue;
    let after = before.step_begun(info, now).queue;
    assert forall|i: int| 0 <= i < queue.len() implies (#[trigger] after[i]).instant.ticks
        == queue[i].instant.ticks + late && after[i].step == queue[i].step by {
        assert(queue[i].instant.ticks + late <= u64::MAX);
        assert(after[i] == delayed_entry(queue[i], late));
    }
    if latest_first(queue) {
        assert forall|i: int, j: int| 0 <= i < j < after.len() implies (#[trigger]
        after[j]).instant.ticks <= (#[trigger] after[i]).instant.ticks by {
            assert(queue[j].instant.ticks <= queue[i].instant.ticks);
        }
    }
    if is_separated(queue) {
        assert forall|i: int, j: int| 0 <= i < j < after.len() implies end_of(#[trigger] after[j])
            <= (#[trigger] after[i]).instant.ticks by {
            assert(end_of(queue[j]) <= queue[i].instant.ticks);
        }
    }
}

/// Taking a pour leaves the rest of the queue in order and free of overlaps, and the pour that is
/// taken is the earliest: none of the others begins before it does, and where there is no overlap
/// none begins before it is over.
pub proof fn law_take_gives_earliest(before: ContextView)
    requires
        before.queue.len() > 0,
    ensures
        latest_first(before.queue) ==> {
            &&& latest_first(before.next_taken().queue)
            &&& forall|i: int|
                0 <= i < before.queue.len() ==> before.queue.last().instant.ticks
                    <= #[trigger] before.queue[i].instant.ticks
        },
        is_separated(before.queue) ==> {
            &&& is_separated(before.next_taken().queue)
            &&& forall|i: int|
                0 <= i < before.queue.len() - 1 ==> end_of(before.queue.last())
                    <= #[trigger] before.queue[i].instant.ticks
        },
{
    let queue = before.queue;
    let rest = before.next_taken().queue;
    if latest_first(queue) {
        assert forall|i: int| 0 <= i < queue.len() implies queue.last().instant.ticks
            <= #[trigger] queue[i].instant.ticks by {
            let last = queue.len() - 1;
            assert(i < last ==> queue[last].instant.ticks <= queue[i].instant.ticks);
        }
        assert forall|i: int, j: int| 0 <= i < j < rest.len() implies (#[trigger]
        rest[j]).instant.ticks <= (#[trigger] rest[i]).instant.ticks by {
            assert(queue[j].instant.ticks <= queue[i].instant.ticks);
        }
    }
    if is_separated(queue) {
        assert forall|i: int| 0 <= i < queue.len() - 1 implies end_of(queue.last())
            <= #[trigger] queue[i].instant.ticks by {
            let last = queue.len() - 1;
            assert(end_of(queue[last]) <= queue[i].instant.ticks);
        }
        assert forall|i: int, j: int| 0 <= i < j < rest.len() implies end_of(#[trigger] rest[j])
            <= (#[trigger] rest[i]).instant.ticks by {
            assert(end_of(queue[j]) <= queue[i].instant.ticks);
        }
    }
}

/// A scald leaves the spout the time to travel: in a queue without overlaps, every other entry is
/// over that long before the scald begins, or begins that long after the scald is over.
pub proof fn law_scald_leaves_travel_time(
    queue: Seq<StepExecutionInfo>,
    station: Station,
    step: Step,
    now: Instant,
)
    requires
        is_separated(queue),
        scald_fits(queue, step, now),
    ensures
        exists|i: int|
            {
                &&& 0 <= i < with_scald(queue, station, step, now).len()
                &&& is_scald_at(with_scald(queue, station, step, now), station, step, i)
            },
{
    let after = with_scald(queue, station, step, now);
    if queue.len() == 0 {
        assert(is_scald_at(after, station, step, 0));
    } else {
        lemma_scald_index(queue, step, queue.len() - 1);
        let i = scald_index(queue, step, queue.len() - 1);
        assert(scald_entry_fits(queue, step, i));
        assert forall|k: int| 0 <= k < after.len() && k != i implies end_of(after[i]) + TRAVEL_TICKS
            <= (#[trigger] after[k]).instant.ticks || end_of(after[k]) + TRAVEL_TICKS
            <= after[i].instant.ticks by {
            lemma_inserted(queue, i, after[i], k);
            if k > i + 1 {
                assert(end_of(queue[k - 1]) <= queue[i].instant.ticks);
            } else if k < i - 1 {
                assert(end_of(queue[i - 1]) <= queue[k].instant.ticks);
            }
        }
        assert(is_scald_at(after, station, step, i));
    }
}

/// Entry `i` is the pour `step` for `station`, and there is the time to travel between it and
/// every other entry.
pub open spec fn is_scald_at(
    queue: Seq<StepExecutionInfo>,
    station: Station,
    step: Step,
    i: int,
) -> bool {
    &&& queue[i].station == station
    &&& queue[i].step == step
    &&& forall|k: int|
        0 <= k < queue.len() && k != i ==> end_of(queue[i]) + TRAVEL_TICKS
            <= (#[trigger] queue[k]).instant.ticks || end_of(queue[k]) + TRAVEL_TICKS
            <= queue[i].instant.ticks
}

/// Attacks that are put after everything else leave the spout the time to travel: in a queue
/// without overlaps, every entry is over that long before the first of them begins.
pub proof fn law_attacks_leave_travel_time(
    queue: Seq<StepExecutionInfo>,
    steps: Seq<Step>,
    station: Station,
    now: Instant,
    n: int,
    k: int,
)
    requires
        is_separated(queue),
        attacks_fit(queue, steps, station, now),
        !attacks_have_gap(queue, steps, station),
        0 <= n < steps.len(),
        0 <= k < queue.len(),
    ensures
        end_of(queue[k]) + TRAVEL_TICKS <= placed_step(
            steps,
            station,
            attacks_begin(queue, now),
            n,
        ).instant.ticks,
{
    lemma_attacks_fit_after(queue, steps, station, now);
    lemma_offset_grows(steps, 0, n);
    lemma_offset_grows(steps, n, steps.len() as int);
    if k > 0 {
        assert(end_of(queue[k]) <= queue[0].instant.ticks);
    }
}

/// Scheduling loses nothing: all entries of the queue are still there afterwards.
pub proof fn law_schedule_keeps_entries(
    before: ContextView,
    event: EventView,
    now: Instant,
    after: ContextView,
)
    requires
        !(event is CancelRecipe),
        before.event_fits(event, now),
        before.event_leads_to(event, now, after),
    ensures
        before.queue.to_multiset().subset_of(after.queue.to_multiset()),
{
    broadcast use vstd::multiset::group_multiset_axioms;

    match event {
        EventView::ScheduleScald(station, step) => {
            if before.queue.len() == 0 {
                lemma_nothing_queued(before.queue, after.queue);
            } else {
                lemma_scald_index(before.queue, step, before.queue.len() - 1);
                let i = scald_index(before.queue, step, before.queue.len() - 1);
                to_multiset_insert(before.queue, i, after.queue[i]);
            }
        },
        EventView::ScheduleAttacks(station, steps) => {
            if steps.len() > 0 {
                let begin = lemma_attacks_queued(before, station, steps, now, after);
                lemma_multiset_commutative(placed_steps(steps, station, begin), before.queue);
            }
        },
        EventView::CancelRecipe(_) => {},
    }
}

/// A queue that holds nothing has no entry that another one lacks.
proof fn lemma_nothing_queued(queue: Seq<StepExecutionInfo>, other: Seq<StepExecutionInfo>)
    requires
        queue.len() == 0,
    ensures
        queue.to_multiset().subset_of(other.to_multiset()),
{
    assert forall|info: StepExecutionInfo| queue.to_multiset().count(info)
        <= other.to_multiset().count(info) by {
        to_multiset_contains(queue, info);
    }
}

/// Cancelling undoes scheduling: a station that is cancelled is left as if what was scheduled for
/// it had not been. Where the queue was sorted anew, the entries are the same.
pub proof fn law_cancel_undoes_schedule(
    before: ContextView,
    event: EventView,
    now: Instant,
    after: ContextView,
)
    requires
        !(event is CancelRecipe),
        before.event_fits(event, now),
        before.event_leads_to(event, now, after),
    ensures
        after.cancelled(scheduled_station(event)).counts == before.cancelled(
            scheduled_station(event),
        ).counts,
        after.cancelled(scheduled_station(event)).queue.to_multiset() == before.cancelled(
            scheduled_station(event),
        ).queue.to_multiset(),
        !finds_rest(before, event) ==> after.cancelled(scheduled_station(event))
            == before.cancelled(scheduled_station(event)),
{
    let station = scheduled_station(event);
    let keep = |info: StepExecutionInfo| info.station != station;
    if after != before {
        assert(after.cancelled(station).counts =~= before.cancelled(station).counts);
    }
    match event {
        EventView::ScheduleScald(_, step) => {
            if before.queue.len() == 0 {
                assert(after.queue =~= before.queue.push(after.queue[0]));
                before.queue.lemma_filter_push(after.queue[0], keep);
            } else {
                lemma_scald_index(before.queue, step, before.queue.len() - 1);
                let i = scald_index(before.queue, step, before.queue.len() - 1);
                let info = after.queue[i];
                let head = before.queue.take(i);
                let tail = before.queue.skip(i);
                assert(before.queue =~= head + tail);
                assert(after.queue =~= head.push(info) + tail);
                Seq::filter_distributes_over_add(head, tail, keep);
                Seq::filter_distributes_over_add(head.push(info), tail, keep);
                head.lemma_filter_push(info, keep);
            }
        },
        EventView::ScheduleAttacks(_, steps) => {
            if steps.len() > 0 {
                let begin = if finds_rest(before, event) {
                    lemma_attacks_queued(before, station, steps, now, after)
                } else {
                    attacks_begin(before.queue, now)
                };
                let front = placed_steps(steps, station, begin);
                Seq::filter_distributes_over_add(front, before.queue, keep);
                assert(forall|k: int| 0 <= k < front.len() ==> !keep(front[k]));
                front.lemma_all_neg_filter_empty(keep);
                assert((front + before.queue).filter(keep) =~= before.queue.filter(keep));
                lemma_filter_to_multiset(front + before.queue, keep);
                lemma_filter_to_multiset(after.queue, keep);
            }
        },
        EventView::CancelRecipe(_) => {},
    }
}

/// Cancelling leaves nothing for the station, and touches no other one: the entries for the others
/// stay, in their order, and so do their counts. Cancelling again changes nothing.
pub proof fn law_cancel_clears_one_station(
    before: ContextView,
    station: Station,
    other: Station,
)
    requires
        station.0 < before.counts.len(),
        other != station,
    ensures
        pours_for(before.cancelled(station).queue, station) == 0,
        before.cancelled(station).counts[station.0 as int] == 0,
        before.cancelled(station).queue.filter(
            |info: StepExecutionInfo| info.station == other,
        ) == before.queue.filter(|info: StepExecutionInfo| info.station == other),
        other.0 < before.counts.len() ==> before.cancelled(station).counts[other.0 as int]
            == before.counts[other.0 as int],
        before.cancelled(station).cancelled(station) == before.cancelled(station),
{
    let keep = |info: StepExecutionInfo| info.station != station;
    let theirs = |info: StepExecutionInfo| info.station == other;
    lemma_pours_without(before.queue, station, station);
    lemma_filter_twice(before.queue, keep, theirs);
    lemma_filter_twice(before.queue, keep, keep);
    let once = before.cancelled(station);
    assert(once.cancelled(station).counts =~= once.counts);
}

/// A filter does nothing after one that lets through at least as much is taken out of the way.
proof fn lemma_filter_twice(
    queue: Seq<StepExecutionInfo>,
    p: spec_fn(StepExecutionInfo) -> bool,
    q: spec_fn(StepExecutionInfo) -> bool,
)
    requires
        forall|info: StepExecutionInfo| #[trigger] q(info) ==> p(info),
    ensures
        queue.filter(p).filter(q) == queue.filter(q),
    decreases queue.len(),
{
    if queue.len() == 0 {
        assert(queue.filter(p) =~= queue);
    } else {
        let front = queue.drop_last();
        lemma_filter_twice(front, p, q);
        assert(front.push(queue.last()) =~= queue);
        front.lemma_filter_push(queue.last(), p);
        front.lemma_filter_push(queue.last(), q);
        front.filter(p).lemma_filter_push(queue.last(), q);
    }
}

/// In a queue that is in order, the collision check misses no entry that the pour touches.
pub proof fn law_collision_check_is_complete(
    new: StepExecutionInfo,
    existing: Seq<StepExecutionInfo>,
)
    requires
        latest_first(existing),
    ensures
        collides(new, existing) <==> exists|k: int|
            0 <= k < existing.len() && #[trigger] touches(new, existing[k]),
{
    if exists|k: int| 0 <= k < existing.len() && #[trigger] touches(new, existing[k]) {
        let k = choose|k: int| 0 <= k < existing.len() && #[trigger] touches(new, existing[k]);
        assert forall|m: int| k < m < existing.len() implies #[trigger] existing[m].instant.ticks
            <= end_of(new) by {
            assert(existing[m].instant.ticks <= existing[k].instant.ticks);
        }
        assert(begun_behind(new, existing, k));
    }
}

/// A pour that collides with nothing in a queue that is in order lies apart from every entry.
pub proof fn law_no_collision_means_apart(
    new: StepExecutionInfo,
    existing: Seq<StepExecutionInfo>,
    k: int,
)
    requires
        latest_first(existing),
        !collides(new, existing),
        0 <= k < existing.len(),
    ensures
        end_of(new) < existing[k].instant.ticks || end_of(existing[k]) < new.instant.ticks,
{
    law_collision_check_is_complete(new, existing);
    assert(!touches(new, existing[k]));
}

/// A start that suits the attacks of a recipe keeps clear of every pour after the rest: no attack
/// shares an instant with one.
pub proof fn law_suitable_start_is_clear(
    queue: Seq<StepExecutionInfo>,
    steps: Seq<Step>,
    station: Station,
    i: int,
    k: int,
    n: int,
    m: int,
)
    requires
        latest_first(queue),
        start_suits(queue, steps, station, i, k),
        0 <= n < steps.len(),
        0 <= m < i <= queue.len(),
    ensures
        !touches(
            placed_step(steps, station, ticks_in(start_millis(queue, i, k)), n),
            queue[m],
        ),
{
    let begin = ticks_in(start_millis(queue, i, k));
    let later = queue.take(i);
    assert(!step_hits(steps, station, begin, later, n));
    assert forall|a: int, b: int| 0 <= a < b < later.len() implies (#[trigger]
    later[b]).instant.ticks <= (#[trigger] later[a]).instant.ticks by {
        assert(queue[b].instant.ticks <= queue[a].instant.ticks);
    }
    law_collision_check_is_complete(placed_step(steps, station, begin, n), later);
    assert(later[m] == queue[m]);
}

/// A station is told that a stage is over only when none of its pours is left in the queue.
pub proof fn law_stage_over_leaves_nothing(ctx: ContextView, station: Station)
    requires
        ctx.is_sound(),
        station.0 < MAX_STATIONS,
        ctx.counts[station.0 as int] == 0,
    ensures
        pours_for(ctx.queue, station) == 0,
        forall|i: int| 0 <= i < ctx.queue.len() ==> (#[trigger] ctx.queue[i]).station != station,
{
    assert(pours_for(ctx.queue, Station(station.0)) <= ctx.counts[station.0 as int]);
    let p = |info: StepExecutionInfo| info.station == station;
    assert forall|i: int| 0 <= i < ctx.queue.len() implies (#[trigger] ctx.queue[i]).station
        != station by {
        if ctx.queue[i].station == station {
            ctx.queue.lemma_filter_contains(p, i);
        }
    }
}

impl ContextView {
    /// The count of each station is the number of its entries in the queue.
    pub open spec fn counts_are_exact(self) -> bool {
        forall|s: int|
            0 <= s < self.counts.len() ==> pours_for(self.queue, Station(s as usize))
                == #[trigger] self.counts[s]
    }
}

/// A queue whose entries are all for one station holds as many for it.
proof fn lemma_pours_all(queue: Seq<StepExecutionInfo>, station: Station)
    requires
        forall|k: int| 0 <= k < queue.len() ==> (#[trigger] queue[k]).station == station,
    ensures
        pours_for(queue, station) == queue.len(),
    decreases queue.len(),
{
    if queue.len() > 0 {
        let front = queue.drop_last();
        assert forall|k: int| 0 <= k < front.len() implies (#[trigger] front[k]).station
            == station by {
            assert(front[k] == queue[k]);
        }
        lemma_pours_all(front, station);
        assert(front.push(queue.last()) =~= queue);
        front.lemma_filter_push(
            queue.last(),
            |info: StepExecutionInfo| info.station == station,
        );
    }
}

/// The counts stay exact, whatever event is handled.
pub proof fn law_event_keeps_counts_exact(
    before: ContextView,
    event: EventView,
    now: Instant,
    after: ContextView,
)
    requires
        before.counts.len() == MAX_STATIONS,
        before.counts_are_exact(),
        before.event_fits(event, now),
        before.event_leads_to(event, now, after),
    ensures
        after.counts_are_exact(),
{
    let queue = before.queue;
    assert forall|s: int| 0 <= s < after.counts.len() implies pours_for(
        after.queue,
        Station(s as usize),
    ) == #[trigger] after.counts[s] by {
        let theirs = Station(s as usize);
        assert(pours_for(queue, theirs) == before.counts[s]);
        match event {
            EventView::ScheduleScald(station, step) => {
                lemma_scald_index(queue, step, queue.len() - 1);
                let i = if queue.len() == 0 {
                    0
                } else {
                    scald_index(queue, step, queue.len() - 1)
                };
                let info = with_scald(queue, station, step, now)[i];
                assert(after.queue =~= queue.insert(i, info));
                lemma_pours_insert(queue, i, info, theirs);
            },
            EventView::ScheduleAttacks(station, steps) => {
                if steps.len() > 0 {
                    let begin = lemma_attacks_queued(before, station, steps, now, after);
                    let joined = placed_steps(steps, station, begin) + queue;
                    lemma_pours_same_entries(after.queue, joined, theirs);
                    lemma_pours_placed(steps, station, begin, queue, theirs);
                }
            },
            EventView::CancelRecipe(station) => {
                lemma_pours_without(queue, station, theirs);
            },
        }
    }
}

/// The counts stay exact when a pour is taken from the queue.
proof fn lemma_take_keeps_counts_exact(before: ContextView)
    requires
        before.is_sound(),
        before.counts_are_exact(),
    ensures
        before.next_taken().counts_are_exact(),
{
    law_take_keeps_soundness(before);
    let taken = before.next_taken();
    assert forall|s: int| 0 <= s < taken.counts.len() implies pours_for(
        taken.queue,
        Station(s as usize),
    ) == #[trigger] taken.counts[s] by {
        let theirs = Station(s as usize);
        assert(pours_for(before.queue, theirs) == before.counts[s]);
        if before.queue.len() > 0 {
            let front = before.queue.drop_last();
            assert(front.push(before.queue.last()) =~= before.queue);
            front.lemma_filter_push(
                before.queue.last(),
                |info: StepExecutionInfo| info.station == theirs,
            );
        }
    }
}

/// The counts stay exact when the queue is moved because a pour is late.
proof fn lemma_delay_keeps_counts_exact(
    before: ContextView,
    info: StepExecutionInfo,
    now: Instant,
)
    requires
        before.is_sound(),
        before.counts_are_exact(),
    ensures
        before.step_begun(info, now).counts_are_exact(),
{
    let begun = before.step_begun(info, now);
    assert forall|s: int| 0 <= s < begun.counts.len() implies pours_for(
        begun.queue,
        Station(s as usize),
    ) == #[trigger] begun.counts[s] by {
        assert(pours_for(before.queue, Station(s as usize)) == before.counts[s]);
        lemma_pours_delayed(before.queue, lateness(info, now), Station(s as usize));
    }
}

/// The counts stay exact through every turn of the executor.
pub proof fn law_turn_keeps_counts_exact(
    before: ContextView,
    phase: Phase,
    input: Input,
    now: Instant,
    after: ContextView,
    next: (Phase, Action),
)
    requires
        before.counts_are_exact(),
        before.is_sound(),
        phase.is_sound(),
        phase.awaits(input),
        before.input_fits(phase, input, now),
        before.input_leads_to(phase, input, now, after, next),
    ensures
        after.counts_are_exact(),
{
    match (phase, input) {
        (Phase::Idle, Input::Received(event)) => {
            let handled = choose|handled: ContextView|
                {
                    &&& #[trigger] before.event_leads_to(event@, now, handled)
                    &&& after == handled.next_taken()
                    &&& next == handled.next_move()
                };
            law_event_keeps_soundness(before, event@, now, handled);
            law_event_keeps_counts_exact(before, event@, now, handled);
            lemma_take_keeps_counts_exact(handled);
        },
        (Phase::Waiting(info), Input::Received(event)) => {
            if event@ == EventView::CancelRecipe(info.station) {
                let handled = before.cancelled(info.station);
                law_cancel_keeps_soundness(before, info.station);
                law_event_keeps_counts_exact(before, event@, now, handled);
                lemma_take_keeps_counts_exact(handled);
            } else {
                law_event_keeps_counts_exact(before, event@, now, after);
            }
        },
        (Phase::Travelling(info), _) => {
            lemma_delay_keeps_counts_exact(before, info, now);
        },
        _ => {
            lemma_take_keeps_counts_exact(before);
        },
    }
}

/// The queue stays in order through every turn of the executor.
pub proof fn law_turn_keeps_order(
    before: ContextView,
    phase: Phase,
    input: Input,
    now: Instant,
    after: ContextView,
    next: (Phase, Action),
)
    requires
        latest_first(before.queue),
        before.is_sound(),
        phase.is_sound(),
        phase.awaits(input),
        before.input_fits(phase, input, now),
        before.input_leads_to(phase, input, now, after, next),
    ensures
        latest_first(after.queue),
{
    match (phase, input) {
        (Phase::Idle, Input::Received(event)) => {
            let handled = choose|handled: ContextView|
                {
                    &&& #[trigger] before.event_leads_to(event@, now, handled)
                    &&& after == handled.next_taken()
                    &&& next == handled.next_move()
                };
            law_event_keeps_order(before, event@, now, handled);
            lemma_take_keeps_order(handled);
        },
        (Phase::Waiting(info), Input::Received(event)) => {
            if event@ == EventView::CancelRecipe(info.station) {
                let handled = before.cancelled(info.station);
                law_event_keeps_order(before, event@, now, handled);
                lemma_take_keeps_order(handled);
            } else {
                law_event_keeps_order(before, event@, now, after);
            }
        },
        (Phase::Travelling(info), _) => {
            law_delay_keeps_distances(before, info, now);
        },
        _ => {
            lemma_take_keeps_order(before);
        },
    }
}

/// Taking a pour, if there is one, leaves the queue in order.
proof fn lemma_take_keeps_order(before: ContextView)
    requires
        latest_first(before.queue),
    ensures
        latest_first(before.next_taken().queue),
{
    if before.queue.len() > 0 {
        law_take_gives_earliest(before);
    }
}

/// Taking a pour, if there is one, leaves no two entries under way at once.
proof fn lemma_take_keeps_apart(before: ContextView)
    requires
        pours_are_apart(before.queue),
    ensures
        pours_are_apart(before.next_taken().queue),
{
    let rest = before.next_taken().queue;
    assert forall|i: int, j: int| 0 <= i < j < rest.len() implies share_no_time(
        #[trigger] rest[i],
        #[trigger] rest[j],
    ) by {
        assert(share_no_time(before.queue[i], before.queue[j]));
    }
}

/// Taking a pour, if there is one, leaves each entry over when the one in front of it begins.
proof fn lemma_take_keeps_separation(before: ContextView)
    requires
        is_separated(before.queue),
    ensures
        is_separated(before.next_taken().queue),
{
    if before.queue.len() > 0 {
        law_take_gives_earliest(before);
    }
}

/// The queue stays free of overlaps through every turn of the executor. Each entry is over when the
/// one in front of it begins, too, unless the turn leaves the order of the queue open as in
/// [`law_event_keeps_separation`].
pub proof fn law_turn_keeps_separation(
    before: ContextView,
    phase: Phase,
    input: Input,
    now: Instant,
    after: ContextView,
    next: (Phase, Action),
)
    requires
        is_separated(before.queue),
        before.is_sound(),
        phase.is_sound(),
        phase.awaits(input),
        before.input_fits(phase, input, now),
        before.input_leads_to(phase, input, now, after, next),
    ensures
        pours_are_apart(after.queue),
        (input matches Input::Received(event) ==> order_is_settled(before, event@))
            ==> is_separated(after.queue),
{
    match (phase, input) {
        (Phase::Idle, Input::Received(event)) => {
            let handled = choose|handled: ContextView|
                {
                    &&& #[trigger] before.event_leads_to(event@, now, handled)
                    &&& after == handled.next_taken()
                    &&& next == handled.next_move()
                };
            law_event_keeps_separation(before, event@, now, handled);
            lemma_take_keeps_apart(handled);
            if order_is_settled(before, event@) {
                lemma_take_keeps_separation(handled);
            }
        },
        (Phase::Waiting(info), Input::Received(event)) => {
            if event@ == EventView::CancelRecipe(info.station) {
                let handled = before.cancelled(info.station);
                law_event_keeps_separation(before, event@, now, handled);
                lemma_take_keeps_separation(handled);
                lemma_separated_are_apart(after.queue);
            } else {
                law_event_keeps_separation(before, event@, now, after);
            }
        },
        (Phase::Travelling(info), _) => {
            law_delay_keeps_distances(before, info, now);
            lemma_separated_are_apart(after.queue);
        },
        _ => {
            lemma_take_keeps_separation(before);
            lemma_separated_are_apart(after.queue);
        },
    }
}

} // verus!
