//! The weighted scheduler: which corpus entry to mutate next.

use vstd::prelude::*;
use libafl_bolts::rands::RomuDuoJrRand;
use crate::input::SokobanInput;
use crate::mutators::{move_pairs, target_pairs, SokobanRemainingMutationsMetadata};
use crate::puzzle::{find_crates, lemma_replay_wf, Puzzle};
use crate::random::draw_below;

verus! {

/// Why the scheduler has no entry to offer.
#[derive(Clone, Copy, Debug, PartialEq, Eq, Structural)]
pub enum SchedulerError {
    /// No entry with a weight is left.
    KeyNotFound,
}

/// The model of the scheduler: the weighted entries as `(id, weight)` in the
/// order in which they were added, the largest budget seen, the sum of the
/// weights, the entries to prune and the entry selected.
pub struct Weights {
    pub entries: Seq<(usize, usize)>,
    pub max_weight: usize,
    pub total_weight: usize,
    pub pruneable: Seq<usize>,
    pub current: Option<usize>,
}

/// The sum of the weights.
pub open spec fn weight_sum(entries: Seq<(usize, usize)>) -> nat
    decreases entries.len(),
{
    if entries.len() == 0 {
        0
    } else {
        weight_sum(entries.drop_last()) + entries.last().1 as nat
    }
}

/// Whether an entry with this id is weighted.
pub open spec fn weighted(entries: Seq<(usize, usize)>, id: usize) -> bool {
    exists|k: int| 0 <= k < entries.len() && (#[trigger] entries[k]).0 == id
}

/// No id occurs twice.
pub open spec fn distinct(entries: Seq<(usize, usize)>) -> bool {
    forall|i: int, j: int|
        0 <= i < j < entries.len() ==> (#[trigger] entries[i]).0 != (#[trigger] entries[j]).0
}

impl Weights {
    /// The total is the sum of the weights, and no id occurs twice.
    pub open spec fn wf(self) -> bool {
        self.total_weight == weight_sum(self.entries) && distinct(self.entries)
    }
}

/// The sum of the weights grows with each entry.
pub proof fn lemma_sum_prefix(entries: Seq<(usize, usize)>, k: int)
    requires
        0 <= k <= entries.len(),
    ensures
        weight_sum(entries.take(k)) <= weight_sum(entries),
        k < entries.len() ==> weight_sum(entries.take(k + 1)) == weight_sum(entries.take(k))
            + entries[k].1,
    decreases entries.len() - k,
{
    if k < entries.len() {
        assert(entries.take(k + 1).drop_last() =~= entries.take(k));
        lemma_sum_prefix(entries, k + 1);
    } else {
        assert(entries.take(k) =~= entries);
    }
}

/// Changing one weight changes the sum by the difference.
pub proof fn lemma_sum_update(entries: Seq<(usize, usize)>, k: int, entry: (usize, usize))
    requires
        0 <= k < entries.len(),
    ensures
        weight_sum(entries.update(k, entry)) + entries[k].1 == weight_sum(entries) + entry.1,
    decreases entries.len(),
{
    let changed = entries.update(k, entry);
    if k == entries.len() - 1 {
        assert(changed.drop_last() =~= entries.drop_last());
    } else {
        assert(changed.drop_last() =~= entries.drop_last().update(k, entry));
        lemma_sum_update(entries.drop_last(), k, entry);
    }
}

/// Removing one entry lowers the sum by its weight.
pub proof fn lemma_sum_remove(entries: Seq<(usize, usize)>, k: int)
    requires
        0 <= k < entries.len(),
    ensures
        weight_sum(entries.remove(k)) + entries[k].1 == weight_sum(entries),
    decreases entries.len(),
{
    let rest = entries.remove(k);
    if k == entries.len() - 1 {
        assert(rest =~= entries.drop_last());
    } else {
        assert(rest.drop_last() =~= entries.drop_last().remove(k));
        assert(rest.last() == entries.last());
        lemma_sum_remove(entries.drop_last(), k);
    }
}

/// Picks the next entry by weight, prefers entries with little budget left,
/// and prunes entries whose budget is spent.
#[derive(Debug)]
pub struct SokobanWeightScheduler {
    entries: Vec<(usize, usize)>,
    max_weight: usize,
    total_weight: usize,
    pruneable: Vec<usize>,
    current: Option<usize>,
}

impl View for SokobanWeightScheduler {
    type V = Weights;

    closed spec fn view(&self) -> Weights {
        Weights {
            entries: self.entries@,
            max_weight: self.max_weight,
            total_weight: self.total_weight,
            pruneable: self.pruneable@,
            current: self.current,
        }
    }
}

impl SokobanWeightScheduler {
    pub fn new() -> (scheduler: Self)
        ensures
            scheduler@.wf(),
            scheduler@.entries.len() == 0,
            scheduler@.pruneable.len() == 0,
            scheduler@.total_weight == 0,
            scheduler@.max_weight == 0,
            scheduler@.current.is_none(),
    {
        SokobanWeightScheduler {
            entries: Vec::new(),
            max_weight: 0,
            total_weight: 0,
            pruneable: Vec::new(),
            current: None,
        }
    }

    /// The sum of the weights.
    pub fn total_weight(&self) -> (total: usize)
        ensures
            total == self@.total_weight,
    {
        self.total_weight
    }

    /// The largest budget seen.
    pub fn max_weight(&self) -> (max: usize)
        ensures
            max == self@.max_weight,
    {
        self.max_weight
    }

    /// The entry selected.
    pub fn current(&self) -> (current: Option<usize>)
        ensures
            current == self@.current,
    {
        self.current
    }

    /// The weighted entries as `(id, weight)`, in the order in which they
    /// were added.
    pub fn entries(&self) -> (entries: &Vec<(usize, usize)>)
        ensures
            entries@ == self@.entries,
    {
        &self.entries
    }

    /// The entries to remove from the corpus.
    pub fn pruneable(&self) -> (ids: &Vec<usize>)
        ensures
            ids@ == self@.pruneable,
    {
        &self.pruneable
    }

    /// Where the entry with this id stands among the weighted entries.
    pub fn find(&self, id: usize) -> (place: Option<usize>)
        ensures
            match place {
                Some(k) => k < self@.entries.len() && self@.entries[k as int].0 == id,
                None => !weighted(self@.entries, id),
            },
    {
        let mut k: usize = 0;
        while k < self.entries.len()
            invariant
                0 <= k <= self.entries.len(),
                forall|j: int| 0 <= j < k ==> (#[trigger] self.entries@[j]).0 != id,
            decreases self.entries.len() - k,
        {
            if self.entries[k].0 == id {
                return Some(k);
            }
            k += 1;
        }
        None
    }

    /// The weight of the entry with this id.
    pub fn weight(&self, id: usize) -> (weight: Option<usize>)
        ensures
            match weight {
                Some(w) => exists|k: int|
                    0 <= k < self@.entries.len() && #[trigger] self@.entries[k] == (id, w),
                None => !weighted(self@.entries, id),
            },
    {
        match self.find(id) {
            Some(k) => {
                assert(self@.entries[k as int] == (id, self@.entries[k as int].1));
                Some(self.entries[k].1)
            },
            None => None,
        }
    }

    /// A new corpus entry: its input is replayed, its budget is made from
    /// the crates and targets of the state reached, and it is weighted with
    /// the size of that budget. The largest budget seen is kept up.
    pub fn on_add(&mut self, id: usize, initial: &Puzzle, input: &SokobanInput) -> (budget:
        SokobanRemainingMutationsMetadata)
        requires
            old(self)@.wf(),
            !weighted(old(self)@.entries, id),
            initial@.wf(),
            initial@.replay(input@).is_some(),
            old(self)@.total_weight + 4 * initial@.replay(input@).unwrap().crates().len()
                + initial@.replay(input@).unwrap().crates().len() * initial@.targets.len()
                <= usize::MAX,
        ensures
            final(self)@.wf(),
            budget.wf(),
            budget@.moves == move_pairs(initial@.replay(input@).unwrap().crates()),
            budget@.targets == target_pairs(
                initial@.replay(input@).unwrap().crates(),
                initial@.targets,
            ),
            budget@.moves.len() == 4 * initial@.replay(input@).unwrap().crates().len(),
            budget@.targets.len() == initial@.replay(input@).unwrap().crates().len()
                * initial@.targets.len(),
            final(self)@.entries == old(self)@.entries.push(
                (id, (budget@.moves.len() + budget@.targets.len()) as usize),
            ),
            final(self)@.total_weight == old(self)@.total_weight + budget@.moves.len()
                + budget@.targets.len(),
            final(self)@.max_weight == if budget@.moves.len() + budget@.targets.len() > old(self)@.max_weight {
                (budget@.moves.len() + budget@.targets.len()) as usize
            } else {
                old(self)@.max_weight
            },
            final(self)@.pruneable == old(self)@.pruneable,
            final(self)@.current == old(self)@.current,
    {
        proof {
            lemma_replay_wf(initial@, input@);
            assert(initial@.replay(input@).unwrap().crates().len() * initial@.targets.len() >= 0)
                by (nonlinear_arith);
        }
        let hallucinated = initial.replay(input.move_list()).unwrap();
        let crates = find_crates(&hallucinated);
        let budget = SokobanRemainingMutationsMetadata::new(
            crates.as_slice(),
            hallucinated.targets().as_slice(),
        );
        let weight = budget.remaining();
        let ghost before = self.entries@;
        self.entries.push((id, weight));
        self.total_weight = self.total_weight + weight;
        if weight > self.max_weight {
            self.max_weight = weight;
        }
        proof {
            assert(self.entries@.drop_last() =~= before);
        }
        budget
    }

    /// After a run: the entry selected, if it is weighted, is weighted anew
    /// from the budget it has left. With nothing left it loses its weight
    /// and is listed for pruning; else its weight is one more than what the
    /// largest budget seen exceeds its own by.
    pub fn on_evaluation(&mut self, remaining: usize)
        requires
            old(self)@.wf(),
            old(self)@.total_weight + old(self)@.max_weight + remaining + 1 <= usize::MAX,
        ensures
            final(self)@.wf(),
            final(self)@.current == old(self)@.current,
            old(self)@.current.is_none() || !weighted(
                old(self)@.entries,
                old(self)@.current.unwrap(),
            ) ==> final(self)@ == old(self)@,
            old(self)@.current.is_some() && weighted(
                old(self)@.entries,
                old(self)@.current.unwrap(),
            ) ==> exists|k: int|
                0 <= k < old(self)@.entries.len() && (#[trigger] old(self)@.entries[k]).0 == old(self)@.current.unwrap() && if remaining == 0 {
                    &&& final(self)@.entries == old(self)@.entries.remove(k)
                    &&& final(self)@.pruneable == old(self)@.pruneable.push(
                        old(self)@.current.unwrap(),
                    )
                    &&& final(self)@.max_weight == old(self)@.max_weight
                    &&& final(self)@.total_weight == old(self)@.total_weight - old(self)@.entries[k].1
                } else {
                    &&& final(self)@.max_weight == if remaining > old(self)@.max_weight {
                        remaining
                    } else {
                        old(self)@.max_weight
                    }
                    &&& final(self)@.entries == old(self)@.entries.update(
                        k,
                        (
                            old(self)@.current.unwrap(),
                            (1 + final(self)@.max_weight - remaining) as usize,
                        ),
                    )
                    &&& final(self)@.pruneable == old(self)@.pruneable
                    &&& final(self)@.total_weight == old(self)@.total_weight - old(self)@.entries[k].1 + 1 + final(self)@.max_weight - remaining
                },
    {
        let current = match self.current {
            Some(current) => current,
            None => {
                return ;
            },
        };
        let k = match self.find(current) {
            Some(k) => k,
            None => {
                return ;
            },
        };
        let ghost before = self.entries@;
        let held = self.entries[k].1;
        proof {
            lemma_sum_remove(before, k as int);
        }
        if remaining == 0 {
            self.entries.remove(k);
            self.pruneable.push(current);
            self.total_weight = self.total_weight - held;
            assert(distinct(self.entries@)) by {
                assert forall|i: int, j: int| 0 <= i < j < self.entries@.len() implies (
                #[trigger] self.entries@[i]).0 != (#[trigger] self.entries@[j]).0 by {
                    let a = if i < k { i } else { i + 1 };
                    let b = if j < k { j } else { j + 1 };
                    assert(self.entries@[i] == before[a]);
                    assert(self.entries@[j] == before[b]);
                }
            }
        } else {
            if remaining > self.max_weight {
                self.max_weight = remaining;
            }
            let weight = 1 + self.max_weight - remaining;
            proof {
                lemma_sum_update(before, k as int, (current, weight));
            }
            self.entries.set(k, (current, weight));
            self.total_weight = self.total_weight - held + weight;
            assert(distinct(self.entries@)) by {
                assert forall|i: int, j: int| 0 <= i < j < self.entries@.len() implies (
                #[trigger] self.entries@[i]).0 != (#[trigger] self.entries@[j]).0 by {
                    assert(self.entries@[i].0 == before[i].0);
                    assert(self.entries@[j].0 == before[j].0);
                }
            }
        }
    }

    /// The entry that a draw below the total weight falls on: the draw is at
    /// least the weights before the entry, and less than those with it.
    pub fn select(&self, draw: usize) -> (id: usize)
        requires
            self@.wf(),
            draw < self@.total_weight,
        ensures
            exists|k: int|
                0 <= k < self@.entries.len() && (#[trigger] self@.entries[k]).0 == id
                    && weight_sum(self@.entries.take(k)) <= draw < weight_sum(
                    self@.entries.take(k + 1),
                ),
    {
        let mut k: usize = 0;
        let mut passed: usize = 0;
        proof {
            assert(self.entries@.take(0) =~= Seq::<(usize, usize)>::empty());
            lemma_sum_prefix(self.entries@, 0);
        }
        loop
            invariant
                self@.wf(),
                draw < self@.total_weight,
                0 <= k < self.entries@.len(),
                passed == weight_sum(self.entries@.take(k as int)),
                passed <= draw,
            decreases self.entries@.len() - k,
        {
            proof {
                lemma_sum_prefix(self.entries@, k as int);
                lemma_sum_prefix(self.entries@, k + 1);
            }
            let weight = self.entries[k].1;
            if draw - passed < weight {
                return self.entries[k].0;
            }
            passed = passed + weight;
            assert(k < self.entries.len());
            k += 1;
            proof {
                if k == self.entries@.len() {
                    assert(self.entries@.take(k as int) =~= self.entries@);
                }
            }
        }
    }

    /// The next entry to mutate: the list of entries to prune is emptied, a
    /// number below the total weight is drawn, and the entry that it falls
    /// on is selected. With no weight left nothing is selected.
    pub fn next(&mut self, rand: &mut RomuDuoJrRand) -> (chosen: Result<usize, SchedulerError>)
        requires
            old(self)@.wf(),
        ensures
            final(self)@.wf(),
            final(self)@.entries == old(self)@.entries,
            final(self)@.total_weight == old(self)@.total_weight,
            final(self)@.max_weight == old(self)@.max_weight,
            final(self)@.pruneable.len() == 0,
            match chosen {
                Ok(id) => old(self)@.total_weight > 0 && final(self)@.current == Some(id)
                    && exists|k: int|
                    0 <= k < old(self)@.entries.len() && #[trigger] old(self)@.entries[k].0 == id
                        && old(self)@.entries[k].1 > 0,
                Err(error) => old(self)@.total_weight == 0 && final(self)@.current.is_none()
                    && error == SchedulerError::KeyNotFound,
            },
    {
        self.pruneable.clear();
        if self.total_weight == 0 {
            self.current = None;
            return Err(SchedulerError::KeyNotFound);
        }
        let draw = draw_below(rand, self.total_weight as u64) as usize;
        let id = self.select(draw);
        proof {
            let k = choose|k: int|
                0 <= k < self@.entries.len() && (#[trigger] self@.entries[k]).0 == id
                    && weight_sum(self@.entries.take(k)) <= draw < weight_sum(
                    self@.entries.take(k + 1),
                );
            lemma_sum_prefix(self@.entries, k);
            assert(self@.entries[k].1 > 0);
        }
        self.current = Some(id);
        Ok(id)
    }
}

} // verus!
