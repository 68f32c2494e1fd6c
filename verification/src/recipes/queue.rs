//! The queue of scheduled pours.
use super::{Step, MAX_RECIPE_STEPS};
use crate::stations::{Station, MAX_STATIONS};
use crate::time::Instant;
use vstd::prelude::*;

verus! {

/// Number of pours that can be scheduled at the same time.
pub const STEP_QUEUE_CAPACITY: usize = MAX_RECIPE_STEPS * MAX_STATIONS;

/// A pour that is scheduled: when it begins, what it is, and where.
#[derive(Clone, Copy, Debug, PartialEq, Eq)]
pub struct StepExecutionInfo {
    pub instant: Instant,
    pub step: Step,
    pub station: Station,
}

/// Scheduled pours. The one that is due next stands last.
pub type StepQueue = heapless::Vec<StepExecutionInfo, STEP_QUEUE_CAPACITY>;

/// The pours that a `heapless::Vec` holds, first to last.
pub uninterp spec fn queue_entries(
    queue: heapless::Vec<StepExecutionInfo, STEP_QUEUE_CAPACITY>,
) -> Seq<StepExecutionInfo>;

/// `after` holds the entries of `before`, the latest ones first.
pub open spec fn sorted_latest_first(
    before: Seq<StepExecutionInfo>,
    after: Seq<StepExecutionInfo>,
) -> bool {
    &&& after.to_multiset() == before.to_multiset()
    &&& latest_first(after)
}

/// No entry begins after one that stands before it.
pub open spec fn latest_first(queue: Seq<StepExecutionInfo>) -> bool {
    forall|i: int, j: int|
        0 <= i < j < queue.len() ==> #[trigger] queue[j].instant.ticks
            <= #[trigger] queue[i].instant.ticks
}

/// The entries of `queue` that are not for `station`, in the same order.
pub open spec fn without_station(
    queue: Seq<StepExecutionInfo>,
    station: Station,
) -> Seq<StepExecutionInfo> {
    queue.filter(|info: StepExecutionInfo| info.station != station)
}

/// Whether a pour is for another station than `station`.
fn is_for_other(info: &StepExecutionInfo, station: Station) -> (other: bool)
    ensures
        other == (info.station != station),
{
    info.station.0 != station.0
}

/// The order of two pours in the queue: the later one comes first.
fn later_first(a: &StepExecutionInfo, b: &StepExecutionInfo) -> (order: core::cmp::Ordering)
    ensures
        order == if b.instant.ticks < a.instant.ticks {
            core::cmp::Ordering::Less
        } else if b.instant.ticks == a.instant.ticks {
            core::cmp::Ordering::Equal
        } else {
            core::cmp::Ordering::Greater
        },
{
    if b.instant.ticks < a.instant.ticks {
        core::cmp::Ordering::Less
    } else if b.instant.ticks == a.instant.ticks {
        core::cmp::Ordering::Equal
    } else {
        core::cmp::Ordering::Greater
    }
}

/// `heapless::Vec::new`: a vector that holds nothing.
#[verifier::external_body]
pub(crate) fn queue_new() -> (queue: StepQueue)
    ensures
        queue_entries(queue) == Seq::<StepExecutionInfo>::empty(),
{
    heapless::Vec::new()
}

/// `heapless::Vec::as_slice`: the entries that the vector holds, in order.
#[verifier::external_body]
pub(crate) fn queue_slice(queue: &StepQueue) -> (slice: &[StepExecutionInfo])
    ensures
        slice@ == queue_entries(*queue),
{
    queue.as_slice()
}

/// `heapless::Vec::as_mut_slice`: the entries that the vector holds, in order; what is written to
/// the slice is what the vector then holds.
#[verifier::external_body]
pub(crate) fn queue_mut_slice(queue: &mut StepQueue) -> (slice: &mut [StepExecutionInfo])
    ensures
        slice@ == queue_entries(*old(queue)),
        queue_entries(*final(queue)) == final(slice)@,
{
    queue.as_mut_slice()
}

/// `heapless::Vec::push`: appends `info` where there is room; a full vector stays as it is and
/// gives `info` back.
#[verifier::external_body]
pub(crate) fn queue_push(queue: &mut StepQueue, info: StepExecutionInfo) -> (pushed: Result<
    (),
    StepExecutionInfo,
>)
    ensures
        pushed == if queue_entries(*old(queue)).len() < STEP_QUEUE_CAPACITY {
            Ok(())
        } else {
            Err(info)
        },
        queue_entries(*final(queue)) == if queue_entries(*old(queue)).len() < STEP_QUEUE_CAPACITY {
            queue_entries(*old(queue)).push(info)
        } else {
            queue_entries(*old(queue))
        },
{
    queue.push(info)
}

/// `heapless::Vec::insert`: puts `info` at `index` and moves what stood there and after it one
/// place on, where there is room; a full vector stays as it is and gives `info` back.
#[verifier::external_body]
pub(crate) fn queue_insert(
    queue: &mut StepQueue,
    index: usize,
    info: StepExecutionInfo,
) -> (inserted: Result<(), StepExecutionInfo>)
    requires
        index <= queue_entries(*old(queue)).len(),
    ensures
        inserted == if queue_entries(*old(queue)).len() < STEP_QUEUE_CAPACITY {
            Ok(())
        } else {
            Err(info)
        },
        queue_entries(*final(queue)) == if queue_entries(*old(queue)).len() < STEP_QUEUE_CAPACITY {
            queue_entries(*old(queue)).insert(index as int, info)
        } else {
            queue_entries(*old(queue))
        },
{
    queue.insert(index, info)
}

/// `heapless::Vec::pop`: takes the last entry off, or gives `None` where there is none.
#[verifier::external_body]
pub(crate) fn queue_pop(queue: &mut StepQueue) -> (popped: Option<StepExecutionInfo>)
    ensures
        popped == if queue_entries(*old(queue)).len() > 0 {
            Some(queue_entries(*old(queue)).last())
        } else {
            None
        },
        queue_entries(*final(queue)) == if queue_entries(*old(queue)).len() > 0 {
            queue_entries(*old(queue)).drop_last()
        } else {
            queue_entries(*old(queue))
        },
{
    queue.pop()
}

/// `heapless::Vec::retain`: keeps the entries that the closure accepts, in their order; here those
/// that are not for `station`.
#[verifier::external_body]
pub(crate) fn queue_retain_others(queue: &mut StepQueue, station: Station)
    ensures
        queue_entries(*final(queue)) == without_station(queue_entries(*old(queue)), station),
{
    queue.retain(|info| is_for_other(info, station))
}

/// `slice::sort_unstable_by` of `core`, by [`later_first`]: puts the entries in that order. Which
/// of two entries that begin together comes first is left open.
#[verifier::external_body]
pub(crate) fn slice_sort_latest_first(slice: &mut [StepExecutionInfo])
    ensures
        sorted_latest_first(old(slice)@, final(slice)@),
{
    slice.sort_unstable_by(|a, b| later_first(a, b))
}

} // verus!
