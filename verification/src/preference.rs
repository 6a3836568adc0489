//! The stack of mutators, and the meta-mutator that picks one of them by
//! weights that it redraws from time to time.

use vstd::prelude::*;
use libafl_bolts::rands::RomuDuoJrRand;
use crate::input::{Hallucinated, HallucinatedSokobanInput};
use crate::mutators::{
    move_crate_step, move_to_target_step, one_shot_outcome, Budget, MoveCrateMutator,
    MoveCrateToTargetMutator, MutationResult, OneShotMutator, SokobanRemainingMutationsMetadata,
};
use crate::random::draw_below;

verus! {

/// The largest weight that a child can draw.
pub const WEIGHT_PRECISION: u64 = 64;

/// The number of mutations between two draws of the weights.
pub const REWEIGHT_FREQUENCY: usize = 10_000;

/// One of the mutators, to be held in a list.
pub enum StackedMutator {
    OneShot(OneShotMutator),
    MoveCrate(MoveCrateMutator),
    MoveCrateToTarget(MoveCrateToTargetMutator),
}

/// What one call of a stacked mutator does to the input and the budget.
pub open spec fn stacked_step(
    mutator: StackedMutator,
    before: Hallucinated,
    budget: Budget,
    max_size: int,
    after: Hallucinated,
    left: Budget,
    result: MutationResult,
) -> bool {
    match mutator {
        StackedMutator::OneShot(_) => one_shot_outcome(before, max_size, after, result) && left
            == budget,
        StackedMutator::MoveCrate(_) => move_crate_step(
            before,
            budget,
            max_size,
            after,
            left,
            result,
        ),
        StackedMutator::MoveCrateToTarget(_) => move_to_target_step(
            before,
            budget,
            max_size,
            after,
            left,
            result,
        ),
    }
}

impl StackedMutator {
    pub fn name(&self) -> (name: &'static str)
        ensures
            name@ == match *self {
                StackedMutator::OneShot(_) => "move_many_crates_to_targets"@,
                StackedMutator::MoveCrate(_) => "move_crate"@,
                StackedMutator::MoveCrateToTarget(_) => "move_crate_to_target"@,
            },
    {
        match self {
            StackedMutator::OneShot(mutator) => mutator.name(),
            StackedMutator::MoveCrate(mutator) => mutator.name(),
            StackedMutator::MoveCrateToTarget(mutator) => mutator.name(),
        }
    }

    /// One call of the mutator held.
    pub fn mutate(
        &mut self,
        rand: &mut RomuDuoJrRand,
        budget: &mut SokobanRemainingMutationsMetadata,
        max_size: usize,
        input: &mut HallucinatedSokobanInput,
    ) -> (result: MutationResult)
        requires
            old(input)@.moves.len() < max_size ==> old(input)@.hallucinated.is_some()
                && old(input)@.hallucinated.unwrap().wf(),
        ensures
            *final(self) == *old(self),
            stacked_step(
                *old(self),
                old(input)@,
                old(budget)@,
                max_size as int,
                final(input)@,
                final(budget)@,
                result,
            ),
    {
        match self {
            StackedMutator::OneShot(mutator) => mutator.mutate(rand, max_size, input),
            StackedMutator::MoveCrate(mutator) => mutator.mutate(budget, max_size, input),
            StackedMutator::MoveCrateToTarget(mutator) => mutator.mutate(budget, max_size, input),
        }
    }
}

/// The model of the meta-mutator: the number of children, the table in which
/// each child stands as often as its weight says, and the number of
/// mutations until the weights are drawn anew.
pub struct Preference {
    pub children: Seq<StackedMutator>,
    pub weights: Seq<usize>,
    pub total_weight: usize,
    pub until_reweight: usize,
}

/// The number of times that `child` stands in the table.
pub open spec fn weight_of(weights: Seq<usize>, child: usize) -> nat
    decreases weights.len(),
{
    if weights.len() == 0 {
        0
    } else {
        weight_of(weights.drop_last(), child) + if weights.last() == child {
            1nat
        } else {
            0nat
        }
    }
}

impl Preference {
    /// The table has `total_weight` entries, each of them a child.
    pub open spec fn wf(self) -> bool {
        &&& self.weights.len() == self.total_weight
        &&& forall|j: int| 0 <= j < self.weights.len() ==> #[trigger] self.weights[j]
            < self.children.len()
        &&& self.until_reweight > 0 && self.children.len() > 0 ==> self.total_weight > 0
        &&& self.children.len() * WEIGHT_PRECISION <= usize::MAX
    }

    /// Every child has a weight from one to `WEIGHT_PRECISION`.
    pub open spec fn weighted(self) -> bool {
        forall|child: usize|
            child < self.children.len() ==> 1 <= #[trigger] weight_of(self.weights, child)
                <= WEIGHT_PRECISION
    }
}

/// Appending a child to the table raises its weight by one and no other.
pub proof fn lemma_weight_push(weights: Seq<usize>, child: usize, other: usize)
    ensures
        weight_of(weights.push(child), other) == weight_of(weights, other) + if other == child {
            1nat
        } else {
            0nat
        },
{
    assert(weights.push(child).drop_last() =~= weights);
}

/// Picks one of its children by weight for each mutation.
pub struct RandomPreferenceMutator {
    mutators: Vec<StackedMutator>,
    weights: Vec<usize>,
    total_weight: usize,
    until_reweight: usize,
}

impl View for RandomPreferenceMutator {
    type V = Preference;

    closed spec fn view(&self) -> Preference {
        Preference {
            children: self.mutators@,
            weights: self.weights@,
            total_weight: self.total_weight,
            until_reweight: self.until_reweight,
        }
    }
}

impl RandomPreferenceMutator {
    pub fn name(&self) -> (name: &'static str)
        ensures
            name@ == "random_preference"@,
    {
        "random_preference"
    }

    pub fn new(mutators: Vec<StackedMutator>) -> (mutator: Self)
        requires
            mutators@.len() * WEIGHT_PRECISION <= usize::MAX,
        ensures
            mutator@.wf(),
            mutator@.children == mutators@,
            mutator@.weights.len() == 0,
            mutator@.total_weight == 0,
            mutator@.until_reweight == 0,
    {
        RandomPreferenceMutator { mutators, weights: Vec::new(), total_weight: 0, until_reweight: 0 }
    }

    /// The table of children.
    pub fn weights(&self) -> (weights: &Vec<usize>)
        ensures
            weights@ == self@.weights,
    {
        &self.weights
    }

    /// The number of entries of the table.
    pub fn total_weight(&self) -> (total: usize)
        ensures
            total == self@.total_weight,
    {
        self.total_weight
    }

    /// The number of mutations until the weights are drawn anew.
    pub fn until_reweight(&self) -> (left: usize)
        ensures
            left == self@.until_reweight,
    {
        self.until_reweight
    }

    /// Draws the weights anew: every child gets a weight from one to
    /// `WEIGHT_PRECISION` and stands that often in the table, the children
    /// in their order.
    pub fn reweigh(&mut self, rand: &mut RomuDuoJrRand)
        requires
            old(self)@.wf(),
        ensures
            final(self)@.wf(),
            final(self)@.weighted(),
            final(self)@.children == old(self)@.children,
            final(self)@.until_reweight == REWEIGHT_FREQUENCY,
            final(self)@.children.len() <= final(self)@.total_weight <= final(self)@.children.len() * WEIGHT_PRECISION,
    {
        self.until_reweight = REWEIGHT_FREQUENCY;
        self.total_weight = 0;
        self.weights.clear();
        let count = self.mutators.len();
        let mut i: usize = 0;
        proof {
            assert(0 * WEIGHT_PRECISION == 0) by (nonlinear_arith);
        }
        while i < count
            invariant
                count == self.mutators@.len(),
                self.mutators@ == old(self).mutators@,
                self.until_reweight == REWEIGHT_FREQUENCY,
                count * WEIGHT_PRECISION <= usize::MAX,
                0 <= i <= count,
                self.weights@.len() == self.total_weight,
                i <= self.total_weight <= i * WEIGHT_PRECISION,
                forall|j: int| 0 <= j < self.weights@.len() ==> #[trigger] self.weights@[j] < i,
                forall|child: usize|
                    child < i ==> 1 <= #[trigger] weight_of(self.weights@, child)
                        <= WEIGHT_PRECISION,
                forall|child: usize| child >= i ==> #[trigger] weight_of(self.weights@, child) == 0,
            decreases count - i,
        {
            let amount = 1 + draw_below(rand, WEIGHT_PRECISION) as usize;
            proof {
                assert((i + 1) * WEIGHT_PRECISION == i * WEIGHT_PRECISION + WEIGHT_PRECISION)
                    by (nonlinear_arith);
                assert((i + 1) * WEIGHT_PRECISION <= count * WEIGHT_PRECISION)
                    by (nonlinear_arith)
                    requires
                        i + 1 <= count,
                ;
            }
            let ghost start = self.weights@;
            let mut put: usize = 0;
            while put < amount
                invariant
                    0 <= put <= amount,
                    self.mutators@ == old(self).mutators@,
                    self.until_reweight == REWEIGHT_FREQUENCY,
                    self.weights@.len() == start.len() + put,
                    self.total_weight == start.len(),
                    forall|j: int|
                        0 <= j < self.weights@.len() ==> #[trigger] self.weights@[j] < i + 1,
                    forall|child: usize|
                        #[trigger] weight_of(self.weights@, child) == weight_of(start, child)
                            + if child == i {
                            put as nat
                        } else {
                            0nat
                        },
                decreases amount - put,
            {
                let ghost held = self.weights@;
                self.weights.push(i);
                proof {
                    assert forall|child: usize| #[trigger]
                        weight_of(self.weights@, child) == weight_of(start, child) + if child
                            == i {
                            (put + 1) as nat
                        } else {
                            0nat
                        } by {
                        lemma_weight_push(held, i, child);
                    }
                }
                put += 1;
            }
            self.total_weight = self.total_weight + amount;
            i += 1;
        }
    }

    /// One mutation: the weights are drawn anew when they are due, a place
    /// in the table is drawn, and the child that stands there makes the
    /// mutation.
    pub fn mutate(
        &mut self,
        rand: &mut RomuDuoJrRand,
        budget: &mut SokobanRemainingMutationsMetadata,
        max_size: usize,
        input: &mut HallucinatedSokobanInput,
    ) -> (result: MutationResult)
        requires
            old(self)@.wf(),
            old(self)@.children.len() > 0,
            old(input)@.moves.len() < max_size ==> old(input)@.hallucinated.is_some()
                && old(input)@.hallucinated.unwrap().wf(),
        ensures
            final(self)@.wf(),
            final(self)@.children == old(self)@.children,
            final(self)@.until_reweight == if old(self)@.until_reweight == 0 {
                REWEIGHT_FREQUENCY
            } else {
                (old(self)@.until_reweight - 1) as usize
            },
            old(self)@.until_reweight == 0 ==> final(self)@.weighted(),
            old(self)@.until_reweight > 0 ==> final(self)@.weights == old(self)@.weights,
            exists|child: int|
                0 <= child < old(self)@.children.len() && #[trigger] stacked_step(
                    old(self)@.children[child],
                    old(input)@,
                    old(budget)@,
                    max_size as int,
                    final(input)@,
                    final(budget)@,
                    result,
                ),
    {
        if self.until_reweight == 0 {
            self.reweigh(rand);
        } else {
            self.until_reweight = self.until_reweight - 1;
        }
        let place = draw_below(rand, self.total_weight as u64) as usize;
        let child = self.weights[place];
        let ghost children = self.mutators@;
        let result = self.mutators[child].mutate(rand, budget, max_size, input);
        proof {
            assert(self.mutators@ =~= children);
            assert(stacked_step(
                children[child as int],
                old(input)@,
                old(budget)@,
                max_size as int,
                input@,
                budget@,
                result,
            ));
        }
        result
    }
}

} // verus!
