//! The fixed order in which the phases of one tick run.

use vstd::prelude::*;
use crate::states::GameState;

verus! {

/// The sets that systems are registered in.
#[derive(Debug, Clone, Copy, PartialEq, Eq, Structural, Hash)]
pub enum InGameSet {
    GameInput,
    MenuInput,
    LoadEntities,
    DespawnEntities,
    UpdateEntities,
    CollisionDetection,
    CollisionReaction,
    RenderSetup,
}

/// One step of a tick.
#[derive(Debug, Clone, Copy, PartialEq, Eq, Structural, Hash)]
pub enum Step {
    /// Run the systems of one set.
    Run(InGameSet),
    /// Apply the structural commands that were buffered so far.
    Flush,
}

/// The steps of a tick of a running simulation, in order.
pub open spec fn pipeline() -> Seq<Step> {
    seq![
        Step::Run(InGameSet::LoadEntities),
        Step::Run(InGameSet::DespawnEntities),
        Step::Flush,
        Step::Run(InGameSet::GameInput),
        Step::Run(InGameSet::UpdateEntities),
        Step::Run(InGameSet::CollisionDetection),
        Step::Run(InGameSet::CollisionReaction),
        Step::Run(InGameSet::RenderSetup),
    ]
}

/// Whether the systems of `set` run while the simulation is in `state`.
/// Menu input is taken in every state; everything else belongs to the tick
/// and runs only while the game is on.
pub open spec fn active(set: InGameSet, state: GameState) -> bool {
    set == InGameSet::MenuInput || state == GameState::InGame
}

/// The steps that one tick takes in `state`: the whole pipeline while the
/// game is on, nothing while it is paused or over.
pub open spec fn tick_steps(state: GameState) -> Seq<Step> {
    if state == GameState::InGame {
        pipeline()
    } else {
        Seq::empty()
    }
}

/// Decides whether the systems of `set` run in `state`.
pub fn runs_in(set: InGameSet, state: GameState) -> (runs: bool)
    ensures
        runs == active(set, state),
{
    match set {
        InGameSet::MenuInput => true,
        _ => match state {
            GameState::InGame => true,
            _ => false,
        },
    }
}

/// Lists the steps of one tick in `state`, in the order in which they run.
/// No step begins before the one in front of it is complete.
pub fn tick(state: GameState) -> (steps: Vec<Step>)
    ensures
        steps@ == tick_steps(state),
{
    let mut steps: Vec<Step> = Vec::new();
    match state {
        GameState::InGame => {
            steps.push(Step::Run(InGameSet::LoadEntities));
            steps.push(Step::Run(InGameSet::DespawnEntities));
            steps.push(Step::Flush);
            steps.push(Step::Run(InGameSet::GameInput));
            steps.push(Step::Run(InGameSet::UpdateEntities));
            steps.push(Step::Run(InGameSet::CollisionDetection));
            steps.push(Step::Run(InGameSet::CollisionReaction));
            steps.push(Step::Run(InGameSet::RenderSetup));
            assert(steps@ =~= pipeline());
        },
        _ => {},
    }
    steps
}

/// Lists which step must be complete before which begins: each step of
/// `steps` paired with the one that follows it.
pub fn ordering(steps: &Vec<Step>) -> (edges: Vec<(Step, Step)>)
    ensures
        steps@.len() == 0 ==> edges@.len() == 0,
        steps@.len() > 0 ==> edges@.len() + 1 == steps@.len(),
        forall|k: int| 0 <= k < edges@.len() ==> edges@[k] == (steps@[k], steps@[k + 1]),
{
    let mut edges: Vec<(Step, Step)> = Vec::new();
    let mut i: usize = 1;
    while i < steps.len()
        invariant
            1 <= i,
            steps@.len() == 0 ==> edges@.len() == 0,
            steps@.len() > 0 ==> i <= steps@.len() && edges@.len() + 1 == i,
            forall|k: int| 0 <= k < edges@.len() ==> edges@[k] == (steps@[k], steps@[k + 1]),
        decreases steps.len() - i,
    {
        edges.push((steps[i - 1], steps[i]));
        i += 1;
    }
    edges
}

/// Between the despawn phase and every phase that runs after it lies a flush:
/// no later phase of a tick sees an entity that the despawn phase of the same
/// tick marked for removal.
pub proof fn lemma_flush_follows_despawn(state: GameState, despawn: int, later: int)
    requires
        0 <= despawn < later < tick_steps(state).len(),
        tick_steps(state)[despawn] == Step::Run(InGameSet::DespawnEntities),
        tick_steps(state)[later] is Run,
    ensures
        exists|flush: int| despawn < flush < later && tick_steps(state)[flush] == Step::Flush,
{
    assert(tick_steps(state) == pipeline());
    assert(despawn == 1);
    assert(pipeline()[2] == Step::Flush);
    assert(later != 2);
}

/// A tick runs every set but menu input exactly once, and only sets that are
/// active in its state.
pub proof fn lemma_tick_runs_each_set_once(state: GameState, set: InGameSet)
    ensures
        forall|i: int, j: int|
            0 <= i < tick_steps(state).len() && 0 <= j < tick_steps(state).len()
                && tick_steps(state)[i] == Step::Run(set) && tick_steps(state)[j] == Step::Run(set)
                ==> i == j,
        tick_steps(state).contains(Step::Run(set)) <==> state == GameState::InGame
            && set != InGameSet::MenuInput,
        tick_steps(state).contains(Step::Run(set)) ==> active(set, state),
{
    let steps = tick_steps(state);
    if state == GameState::InGame {
        assert(steps == pipeline());
        let at: int = match set {
            InGameSet::LoadEntities => 0,
            InGameSet::DespawnEntities => 1,
            InGameSet::GameInput => 3,
            InGameSet::UpdateEntities => 4,
            InGameSet::CollisionDetection => 5,
            InGameSet::CollisionReaction => 6,
            InGameSet::RenderSetup => 7,
            InGameSet::MenuInput => 0,
        };
        if set != InGameSet::MenuInput {
            assert(steps[at] == Step::Run(set));
        }
    }
}

} // verus!
