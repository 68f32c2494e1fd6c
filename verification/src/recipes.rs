//! Recipes: what is poured, for how long and in what order.
use crate::time::{Duration, TICK_HZ};
use vstd::prelude::*;

pub mod controller;
pub mod controller_laws;
pub mod executor;
pub mod placement;
pub mod placement_laws;
pub mod queue;
pub mod run_laws;
pub mod schedule;
pub mod schedule_laws;
pub mod turn_laws;

verus! {

/// Largest number of attacks in a recipe.
pub const MAX_RECIPE_STEPS: usize = 10;

/// Number of events that may wait for one station.
pub const MAX_EVENTS_PER_STATION: usize = 5;

/// One pour, and the rest that follows it before the recipe's next pour.
#[derive(Clone, Copy, Debug, PartialEq, Eq)]
pub struct Step {
    pub duration: Duration,
    pub interval: Option<Duration>,
}

/// The attacks of a recipe, in order.
pub type RecipeSteps = heapless::Vec<Step, MAX_RECIPE_STEPS>;

/// A recipe: an optional scald, the attacks, and the time the coffee drips after the last one.
pub struct Recipe {
    pub scald: Option<Step>,
    pub attacks: RecipeSteps,
    pub finalization_time: Option<Duration>,
}

/// A recipe with its attacks as a sequence.
pub ghost struct RecipeView {
    pub scald: Option<Step>,
    pub attacks: Seq<Step>,
    pub finalization_time: Option<Duration>,
}

impl View for Recipe {
    type V = RecipeView;

    open spec fn view(&self) -> RecipeView {
        RecipeView {
            scald: self.scald,
            attacks: recipe_steps(self.attacks),
            finalization_time: self.finalization_time,
        }
    }
}

impl Recipe {
    /// Whether the recipe starts with a scald.
    pub fn has_scald(&self) -> (scalds: bool)
        ensures
            scalds == (self@.scald is Some),
    {
        self.scald.is_some()
    }
}

impl Clone for Recipe {
    fn clone(&self) -> (copy: Recipe)
        ensures
            copy@ == self@,
    {
        Recipe {
            scald: self.scald,
            attacks: steps_clone(&self.attacks),
            finalization_time: self.finalization_time,
        }
    }
}

/// The recipe that stations start with, as a sequence of steps.
pub open spec fn default_recipe_view() -> RecipeView {
    RecipeView {
        scald: Some(Step { duration: seconds(5), interval: None }),
        attacks: seq![
            Step { duration: seconds(10), interval: Some(seconds(5)) },
            Step { duration: seconds(5), interval: None },
        ],
        finalization_time: Some(seconds(15)),
    }
}

/// A span of `secs` seconds.
pub open spec fn seconds(secs: int) -> Duration {
    Duration { ticks: (secs * TICK_HZ) as u64 }
}

/// The recipe that stations start with: a scald, two attacks, and some time to drip.
pub fn default_recipe() -> (recipe: Recipe)
    ensures
        recipe@ == default_recipe_view(),
{
    let attacks: [Step; 2] = [
        Step { duration: Duration::from_secs(10), interval: Some(Duration::from_secs(5)) },
        Step { duration: Duration::from_secs(5), interval: None },
    ];
    assert(attacks@ =~= default_recipe_view().attacks);
    Recipe {
        scald: Some(Step { duration: Duration::from_secs(5), interval: None }),
        attacks: steps_from_slice(&attacks).unwrap(),
        finalization_time: Some(Duration::from_secs(15)),
    }
}

/// The fixed-capacity vector of `heapless`. What one holds is named by [`recipe_steps`] and
/// [`queue::queue_entries`].
#[verifier::external_type_specification]
#[verifier::external_body]
#[verifier::reject_recursive_types(T)]
pub struct ExHeaplessVec<T, const N: usize>(heapless::Vec<T, N>);

/// The steps that a `heapless::Vec` holds, first to last.
pub uninterp spec fn recipe_steps(steps: heapless::Vec<Step, MAX_RECIPE_STEPS>) -> Seq<Step>;

/// `heapless::Vec::as_slice`: the steps that the vector holds, in order.
#[verifier::external_body]
pub(crate) fn steps_slice(steps: &RecipeSteps) -> (slice: &[Step])
    ensures
        slice@ == recipe_steps(*steps),
{
    steps.as_slice()
}

/// `heapless::Vec::clone`: a vector that holds the same steps.
#[verifier::external_body]
pub(crate) fn steps_clone(steps: &RecipeSteps) -> (copy: RecipeSteps)
    ensures
        recipe_steps(copy) == recipe_steps(*steps),
{
    steps.clone()
}

/// `heapless::Vec::from_slice`: a vector that holds the steps of `slice`, or an error where they
/// are more than its capacity.
#[verifier::external_body]
pub(crate) fn steps_from_slice(slice: &[Step]) -> (steps: Result<RecipeSteps, ()>)
    ensures
        steps is Ok <==> slice@.len() <= MAX_RECIPE_STEPS,
        steps matches Ok(steps) ==> recipe_steps(steps) == slice@,
{
    heapless::Vec::from_slice(slice)
}

} // verus!
