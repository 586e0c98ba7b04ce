//! The positional model: a copy of the base model for every position of the
//! sequence, restricted to what the constraints of that position allow.

use crate::constraints::{models, AnyConstraint, ConstraintModel, EmptyConstraint};
use crate::corpus::{split_token, START_TOKEN};
use crate::distribution::{models_of, optional_model, table_model, Distribution, Entry};
use crate::errors::{ConstructionError, LookupError};
use crate::hidden_markov::HiddenMarkov;
use crate::model::{same_shape, DistModel};
use crate::positional::{
    alphas_after, arc_consistent, copies, emission_pruned, lemma_trained_shape, masked_each,
    renormalized_hidden, renormalized_observed, trained_hidden, trained_observed, transition_pruned,
    transition_pruned_at,
};
use crate::sampling::{next_token, random_draws};
use crate::text::{push_char, push_text, to_chars, views, words, words_of};
use crate::walk::{
    lemma_positional_walk_stopped, positional_path, positional_step, positional_walk, token_text,
    Path,
};
use crate::weight::Weight;
use vstd::prelude::*;

verus! {

/// A hidden Markov model whose sequences have a fixed length and meet a
/// constraint on the hidden label and one on the surface form at every
/// position.
#[derive(Debug)]
pub struct ConstrainedHiddenMarkov {
    pub hidden_markov_model: HiddenMarkov,
    pub sequence_length: usize,
    pub hidden_probs: Vec<Distribution>,
    pub observed_probs: Vec<Distribution>,
    pub hidden_constraints: Vec<AnyConstraint>,
    pub observed_constraints: Vec<AnyConstraint>,
}

/// As many constraints without effect as `length` says.
pub fn no_constraints(length: usize) -> (r: Vec<AnyConstraint>)
    ensures
        r.len() == length,
        models(r@) == Seq::new(length as nat, |i: int| ConstraintModel::Empty),
{
    let mut r: Vec<AnyConstraint> = Vec::new();
    let mut i: usize = 0;
    while i < length
        invariant
            i <= length,
            r.len() == i,
            forall|j: int| 0 <= j < i ==> (#[trigger] r[j]) is Empty,
        decreases length - i,
    {
        r.push(AnyConstraint::Empty(EmptyConstraint::new()));
        i += 1;
    }
    assert(models(r@) =~= Seq::new(length as nat, |i: int| ConstraintModel::Empty));
    r
}

/// A path that has failed stays failed, with the same error.
pub proof fn lemma_positional_path_failed(
    h: Seq<DistModel>,
    o: Seq<DistModel>,
    tokens: Seq<Seq<char>>,
    n: nat,
    m: nat,
)
    requires
        n <= m,
        positional_path(h, o, tokens, n) is Err,
    ensures
        positional_path(h, o, tokens, m) == positional_path(h, o, tokens, n),
    decreases m - n,
{
    if n < m {
        lemma_positional_path_failed(h, o, tokens, n, (m - 1) as nat);
    }
}

impl ConstrainedHiddenMarkov {
    /// Whether the model has one constraint of each kind for every position
    /// of a sequence of at least two.
    pub open spec fn well_formed(&self) -> bool {
        &&& self.sequence_length > 1
        &&& self.hidden_constraints.len() == self.sequence_length
        &&& self.observed_constraints.len() == self.sequence_length
    }

    /// The transitions of all positions.
    pub open spec fn hidden_models(&self) -> Seq<DistModel> {
        models_of(self.hidden_probs@)
    }

    /// The emissions of all positions.
    pub open spec fn observed_models(&self) -> Seq<DistModel> {
        models_of(self.observed_probs@)
    }

    /// Whether the other model is this one but for the distributions of the
    /// positions.
    pub open spec fn same_setting(&self, other: &ConstrainedHiddenMarkov) -> bool {
        &&& self.hidden_markov_model == other.hidden_markov_model
        &&& self.sequence_length == other.sequence_length
        &&& self.hidden_constraints == other.hidden_constraints
        &&& self.observed_constraints == other.observed_constraints
    }

    /// Whether the model is trained: its distributions are what training
    /// makes of the base model and the constraints.
    pub open spec fn is_trained(&self) -> bool {
        &&& self.hidden_models() == trained_hidden(
            self.hidden_markov_model.hidden_probs@,
            self.hidden_markov_model.observed_probs@,
            models(self.hidden_constraints@),
            models(self.observed_constraints@),
            self.sequence_length as nat,
        )
        &&& self.observed_models() == trained_observed(
            self.hidden_markov_model.observed_probs@,
            models(self.observed_constraints@),
            self.sequence_length as nat,
        )
    }

    /// A model over sequences of `sequence_length` tokens, not yet trained.
    /// A list of constraints that is left out stands for no constraint at
    /// any position. A sequence length under 2 is refused, and so is a list
    /// of constraints of another length.
    pub fn new(
        hidden_markov_model: HiddenMarkov,
        sequence_length: usize,
        hidden_constraints: Option<Vec<AnyConstraint>>,
        observed_constraints: Option<Vec<AnyConstraint>>,
    ) -> (r: Result<ConstrainedHiddenMarkov, ConstructionError>)
        ensures
            sequence_length <= 1 ==> r == Err::<ConstrainedHiddenMarkov, ConstructionError>(
                ConstructionError::SequenceTooShort,
            ),
            sequence_length > 1 && ((hidden_constraints matches Some(cs) && cs.len()
                != sequence_length) || (observed_constraints matches Some(cs) && cs.len()
                != sequence_length)) ==> r == Err::<ConstrainedHiddenMarkov, ConstructionError>(
                ConstructionError::LengthMismatch,
            ),
            sequence_length > 1 && (hidden_constraints matches Some(cs) ==> cs.len()
                == sequence_length) && (observed_constraints matches Some(cs) ==> cs.len()
                == sequence_length) ==> r is Ok,
            r matches Ok(m) ==> {
                &&& m.well_formed()
                &&& m.hidden_markov_model == hidden_markov_model
                &&& m.sequence_length == sequence_length
                &&& m.hidden_probs@.len() == 0
                &&& m.observed_probs@.len() == 0
                &&& match hidden_constraints {
                    Some(cs) => m.hidden_constraints == cs,
                    None => models(m.hidden_constraints@) == Seq::new(
                        sequence_length as nat,
                        |i: int| ConstraintModel::Empty,
                    ),
                }
                &&& match observed_constraints {
                    Some(cs) => m.observed_constraints == cs,
                    None => models(m.observed_constraints@) == Seq::new(
                        sequence_length as nat,
                        |i: int| ConstraintModel::Empty,
                    ),
                }
            },
    {
        if sequence_length <= 1 {
            return Err(ConstructionError::SequenceTooShort);
        }
        let hidden = match hidden_constraints {
            Some(cs) => cs,
            None => no_constraints(sequence_length),
        };
        let observed = match observed_constraints {
            Some(cs) => cs,
            None => no_constraints(sequence_length),
        };
        let chmm = ConstrainedHiddenMarkov {
            hidden_markov_model,
            sequence_length,
            hidden_probs: Vec::new(),
            observed_probs: Vec::new(),
            hidden_constraints: hidden,
            observed_constraints: observed,
        };
        if !chmm.check_sequence_and_constraint_length() {
            return Err(ConstructionError::LengthMismatch);
        }
        Ok(chmm)
    }

    /// Whether both lists of constraints have the length of the sequence.
    pub fn check_sequence_and_constraint_length(&self) -> (r: bool)
        ensures
            r == (self.hidden_constraints.len() == self.sequence_length
                && self.observed_constraints.len() == self.sequence_length),
    {
        self.sequence_length == self.hidden_constraints.len() && self.sequence_length
            == self.observed_constraints.len()
    }

    /// Removes the distributions of all positions.
    pub fn clear_probs(&mut self)
        ensures
            final(self).same_setting(old(self)),
            final(self).hidden_probs@.len() == 0,
            final(self).observed_probs@.len() == 0,
    {
        self.hidden_probs.clear();
        self.observed_probs.clear();
    }

    /// Puts a copy of the base model's distributions in front of the
    /// distributions of the positions, once for every position.
    pub fn duplicate_matrices(&mut self)
        requires
            old(self).hidden_probs.len() + old(self).sequence_length <= usize::MAX,
            old(self).observed_probs.len() + old(self).sequence_length <= usize::MAX,
        ensures
            final(self).same_setting(old(self)),
            final(self).hidden_models() == copies(
                old(self).hidden_markov_model.hidden_probs@,
                old(self).sequence_length as nat,
            ) + old(self).hidden_models(),
            final(self).observed_models() == copies(
                old(self).hidden_markov_model.observed_probs@,
                old(self).sequence_length as nat,
            ) + old(self).observed_models(),
    {
        let ghost h0 = self.hidden_models();
        let ghost o0 = self.observed_models();
        let ghost base_h = self.hidden_markov_model.hidden_probs@;
        let ghost base_o = self.hidden_markov_model.observed_probs@;
        let mut i: usize = 0;
        while i < self.sequence_length
            invariant
                i <= self.sequence_length,
                self.same_setting(old(self)),
                base_h == self.hidden_markov_model.hidden_probs@,
                base_o == self.hidden_markov_model.observed_probs@,
                h0.len() + self.sequence_length <= usize::MAX,
                o0.len() + self.sequence_length <= usize::MAX,
                self.hidden_models() == copies(base_h, i as nat) + h0,
                self.observed_models() == copies(base_o, i as nat) + o0,
            decreases self.sequence_length - i,
        {
            let ghost h = self.hidden_models();
            let ghost o = self.observed_models();
            let hidden = self.hidden_markov_model.hidden_probs.duplicate();
            let observed = self.hidden_markov_model.observed_probs.duplicate();
            assert(self.hidden_probs.len() == h.len());
            assert(self.observed_probs.len() == o.len());
            self.hidden_probs.insert(i, hidden);
            self.observed_probs.insert(i, observed);
            proof {
                assert(self.hidden_models() =~= h.insert(i as int, base_h));
                assert(self.observed_models() =~= o.insert(i as int, base_o));
                assert(h.insert(i as int, base_h) =~= copies(base_h, (i + 1) as nat) + h0);
                assert(o.insert(i as int, base_o) =~= copies(base_o, (i + 1) as nat) + o0);
            }
            i += 1;
        }
    }

    /// Sets to 0 every weight of a hidden label or a surface form that
    /// fails the constraint of its position.
    pub fn remove_constrain_violating_states(&mut self)
        requires
            old(self).hidden_constraints.len() <= old(self).hidden_probs.len(),
            old(self).observed_constraints.len() <= old(self).observed_probs.len(),
        ensures
            final(self).same_setting(old(self)),
            final(self).hidden_models() == masked_each(
                old(self).hidden_models(),
                models(old(self).hidden_constraints@),
            ),
            final(self).observed_models() == masked_each(
                old(self).observed_models(),
                models(old(self).observed_constraints@),
            ),
    {
        self.remove_constrain_violating_hidden_states();
        self.remove_constrain_violating_observed_states()
    }

    /// Sets to 0 every transition into a hidden label that fails the hidden
    /// constraint of its position.
    pub fn remove_constrain_violating_hidden_states(&mut self)
        requires
            old(self).hidden_constraints.len() <= old(self).hidden_probs.len(),
        ensures
            final(self).same_setting(old(self)),
            final(self).observed_probs == old(self).observed_probs,
            final(self).hidden_models() == masked_each(
                old(self).hidden_models(),
                models(old(self).hidden_constraints@),
            ),
    {
        let ghost h0 = self.hidden_models();
        let ghost cs = models(self.hidden_constraints@);
        let mut i: usize = 0;
        while i < self.hidden_constraints.len()
            invariant
                i <= self.hidden_constraints.len() <= self.hidden_probs.len(),
                self.same_setting(old(self)),
                self.observed_probs == old(self).observed_probs,
                cs == models(self.hidden_constraints@),
                h0.len() == self.hidden_probs.len(),
                forall|j: int| 0 <= j < i ==> (#[trigger] self.hidden_models()[j]) == masked_each(h0, cs)[j],
                forall|j: int|
                    i <= j < self.hidden_probs.len() ==> (#[trigger] self.hidden_models()[j]) == h0[j],
            decreases self.hidden_constraints.len() - i,
        {
            let ghost snapshot = self.hidden_models();
            self.hidden_probs[i].mask(&self.hidden_constraints[i]);
            proof {
                assert(snapshot[i as int] == h0[i as int]);
                assert forall|j: int| 0 <= j < self.hidden_probs.len() && j != i implies (
                #[trigger] self.hidden_models()[j]) == snapshot[j] by {}
            }
            i += 1;
        }
        assert(self.hidden_models() =~= masked_each(h0, cs));
    }

    /// Sets to 0 every emission of a surface form that fails the observed
    /// constraint of its position.
    pub fn remove_constrain_violating_observed_states(&mut self)
        requires
            old(self).observed_constraints.len() <= old(self).observed_probs.len(),
        ensures
            final(self).same_setting(old(self)),
            final(self).hidden_probs == old(self).hidden_probs,
            final(self).observed_models() == masked_each(
                old(self).observed_models(),
                models(old(self).observed_constraints@),
            ),
    {
        let ghost o0 = self.observed_models();
        let ghost cs = models(self.observed_constraints@);
        let mut i: usize = 0;
        while i < self.observed_constraints.len()
            invariant
                i <= self.observed_constraints.len() <= self.observed_probs.len(),
                self.same_setting(old(self)),
                self.hidden_probs == old(self).hidden_probs,
                cs == models(self.observed_constraints@),
                o0.len() == self.observed_probs.len(),
                forall|j: int| 0 <= j < i ==> (#[trigger] self.observed_models()[j]) == masked_each(o0, cs)[j],
                forall|j: int|
                    i <= j < self.observed_probs.len() ==> (#[trigger] self.observed_models()[j])
                        == o0[j],
            decreases self.observed_constraints.len() - i,
        {
            let ghost snapshot = self.observed_models();
            self.observed_probs[i].mask(&self.observed_constraints[i]);
            proof {
                assert(snapshot[i as int] == o0[i as int]);
                assert forall|j: int| 0 <= j < self.observed_probs.len() && j != i implies (
                #[trigger] self.observed_models()[j]) == snapshot[j] by {}
            }
            i += 1;
        }
        assert(self.observed_models() =~= masked_each(o0, cs));
    }

    /// Removes the transitions that no acceptable sequence can take: first
    /// those into states that can emit nothing at their position, then, from
    /// the last position backwards, those into states that cannot go on at
    /// the next position.
    pub fn remove_dead_states(&mut self)
        requires
            old(self).hidden_probs.len() == old(self).observed_probs.len(),
        ensures
            final(self).same_setting(old(self)),
            final(self).observed_probs == old(self).observed_probs,
            final(self).hidden_models() == arc_consistent(
                old(self).hidden_models(),
                old(self).observed_models(),
            ),
    {
        let ghost h0 = self.hidden_models();
        let ghost o0 = self.observed_models();
        let ghost h1 = emission_pruned(h0, o0);
        let count: usize = self.hidden_probs.len();
        let mut i: usize = count;
        while i > 0
            invariant
                i <= count,
                count == self.hidden_probs.len(),
                count == self.observed_probs.len(),
                self.same_setting(old(self)),
                self.observed_probs == old(self).observed_probs,
                o0 == self.observed_models(),
                h0.len() == count,
                h1 == emission_pruned(h0, o0),
                forall|j: int| i <= j < count ==> (#[trigger] self.hidden_models()[j]) == h1[j],
                forall|j: int| 0 <= j < i ==> (#[trigger] self.hidden_models()[j]) == h0[j],
            decreases i,
        {
            i -= 1;
            let ghost snapshot = self.hidden_models();
            let table = self.observed_probs[i].totals();
            self.hidden_probs[i].prune(&table, false);
            proof {
                assert(snapshot[i as int] == h0[i as int]);
                assert(o0[i as int] == self.observed_probs[i as int]@);
                assert forall|j: int| 0 <= j < count && j != i implies (
                #[trigger] self.hidden_models()[j]) == snapshot[j] by {}
            }
        }
        assert(self.hidden_models() =~= h1);
        if count == 0 {
            assert(self.hidden_models() =~= arc_consistent(h0, o0));
            return ;
        }
        let mut i: usize = count - 1;
        while i > 0
            invariant
                i < count,
                count == self.hidden_probs.len(),
                self.same_setting(old(self)),
                self.observed_probs == old(self).observed_probs,
                h1.len() == count,
                forall|j: int|
                    i <= j < count ==> (#[trigger] self.hidden_models()[j]) == transition_pruned_at(
                        h1,
                        j,
                    ),
                forall|j: int| 0 <= j < i ==> (#[trigger] self.hidden_models()[j]) == h1[j],
            decreases i,
        {
            let ghost snapshot = self.hidden_models();
            let table = self.hidden_probs[i].totals();
            self.hidden_probs[i - 1].prune(&table, true);
            proof {
                assert(snapshot[i as int] == transition_pruned_at(h1, i as int));
                assert(snapshot[i - 1] == h1[i - 1]);
                assert forall|j: int| 0 <= j < count && j != i - 1 implies (
                #[trigger] self.hidden_models()[j]) == snapshot[j] by {}
            }
            i -= 1;
        }
        assert(self.hidden_models() =~= transition_pruned(h1));
    }

    /// Makes probabilities of the weights again, such that the sequences
    /// that are left keep their likelihoods relative to each other. From
    /// the last position backwards: every row of emissions is divided by
    /// its total, and every row of transitions is rescaled by the mass of
    /// the acceptable continuations of each target.
    pub fn renormalize(&mut self)
        requires
            old(self).hidden_probs.len() == old(self).sequence_length,
            old(self).observed_probs.len() == old(self).sequence_length,
        ensures
            final(self).same_setting(old(self)),
            final(self).hidden_models() == renormalized_hidden(
                old(self).hidden_models(),
                old(self).observed_models(),
            ),
            final(self).observed_models() == renormalized_observed(old(self).observed_models()),
    {
        let ghost h0 = self.hidden_models();
        let ghost o0 = self.observed_models();
        let count: usize = self.sequence_length;
        let mut next: Option<Vec<Entry>> = None;
        let mut i: usize = count;
        while i > 0
            invariant
                i <= count,
                count == self.hidden_probs.len(),
                count == self.observed_probs.len(),
                self.same_setting(old(self)),
                h0.len() == count,
                o0.len() == count,
                i > 0 ==> optional_model(next) == alphas_after(h0, o0, i - 1),
                forall|j: int|
                    i <= j < count ==> (#[trigger] self.hidden_models()[j]) == renormalized_hidden(
                        h0,
                        o0,
                    )[j],
                forall|j: int|
                    i <= j < count ==> (#[trigger] self.observed_models()[j])
                        == renormalized_observed(o0)[j],
                forall|j: int| 0 <= j < i ==> (#[trigger] self.hidden_models()[j]) == h0[j],
                forall|j: int| 0 <= j < i ==> (#[trigger] self.observed_models()[j]) == o0[j],
            decreases i,
        {
            i -= 1;
            let ghost hidden_snapshot = self.hidden_models();
            let ghost observed_snapshot = self.observed_models();
            let betas = self.observed_probs[i].totals();
            self.observed_probs[i].normalize();
            let alphas = self.hidden_probs[i].rescale(&betas, &next);
            proof {
                assert(hidden_snapshot[i as int] == h0[i as int]);
                assert(observed_snapshot[i as int] == o0[i as int]);
                assert forall|j: int| 0 <= j < count && j != i implies (
                #[trigger] self.hidden_models()[j]) == hidden_snapshot[j] by {}
                assert forall|j: int| 0 <= j < count && j != i implies (
                #[trigger] self.observed_models()[j]) == observed_snapshot[j] by {}
                assert(table_model(alphas@) == crate::positional::alphas_at(h0, o0, i as int));
            }
            next = Some(alphas);
        }
        assert(self.hidden_models() =~= renormalized_hidden(h0, o0));
        assert(self.observed_models() =~= renormalized_observed(o0));
    }

    /// Trains the model: a copy of the base model for every position, the
    /// constraints applied, dead states removed, probabilities restored.
    pub fn train(&mut self)
        requires
            old(self).well_formed(),
        ensures
            final(self).same_setting(old(self)),
            final(self).is_trained(),
            final(self).has_positions(),
            forall|i: int|
                0 <= i < old(self).sequence_length ==> same_shape(
                    #[trigger] final(self).hidden_models()[i],
                    old(self).hidden_markov_model.hidden_probs@,
                ),
            forall|i: int|
                0 <= i < old(self).sequence_length ==> same_shape(
                    #[trigger] final(self).observed_models()[i],
                    old(self).hidden_markov_model.observed_probs@,
                ),
    {
        self.clear_probs();
        proof {
            assert(self.hidden_models() =~= Seq::<DistModel>::empty());
            assert(self.observed_models() =~= Seq::<DistModel>::empty());
        }
        self.duplicate_matrices();
        proof {
            let length = self.sequence_length as nat;
            assert(self.hidden_models() =~= copies(self.hidden_markov_model.hidden_probs@, length));
            assert(self.observed_models() =~= copies(
                self.hidden_markov_model.observed_probs@,
                length,
            ));
            assert(self.hidden_probs.len() == self.hidden_models().len());
            assert(self.observed_probs.len() == self.observed_models().len());
        }
        self.remove_constrain_violating_states();
        proof {
            assert(self.hidden_probs.len() == self.hidden_models().len());
            assert(self.observed_probs.len() == self.observed_models().len());
        }
        self.remove_dead_states();
        proof {
            assert(self.hidden_probs.len() == self.hidden_models().len());
            assert(self.observed_probs.len() == self.observed_models().len());
        }
        self.renormalize();
        proof {
            assert(self.hidden_probs.len() == self.hidden_models().len());
            assert(self.observed_probs.len() == self.observed_models().len());
            assert forall|i: int| 0 <= i < self.sequence_length implies same_shape(
                #[trigger] self.hidden_models()[i],
                self.hidden_markov_model.hidden_probs@,
            ) && same_shape(
                #[trigger] self.observed_models()[i],
                self.hidden_markov_model.observed_probs@,
            ) by {
                lemma_trained_shape(
                    self.hidden_markov_model.hidden_probs@,
                    self.hidden_markov_model.observed_probs@,
                    models(self.hidden_constraints@),
                    models(self.observed_constraints@),
                    self.sequence_length as nat,
                    i,
                );
            }
        }
    }

    /// Whether the model has distributions for every position.
    pub open spec fn has_positions(&self) -> bool {
        &&& self.hidden_probs.len() == self.sequence_length
        &&& self.observed_probs.len() == self.sequence_length
    }

    /// Generates a sequence from the given draws, one for the hidden label
    /// and one for the surface form of every position.
    pub fn sample_sequence_with(&self, hidden_draws: &Vec<u64>, observed_draws: &Vec<u64>) -> (r:
        String)
        requires
            self.has_positions(),
            hidden_draws.len() >= self.sequence_length,
            observed_draws.len() >= self.sequence_length,
        ensures
            r@ == positional_walk(
                self.hidden_models(),
                self.observed_models(),
                hidden_draws@,
                observed_draws@,
                self.sequence_length as nat,
            ).text,
    {
        let ghost h = self.hidden_models();
        let ghost o = self.observed_models();
        let ghost xs = hidden_draws@;
        let ghost ys = observed_draws@;
        let mut sequence = String::new();
        let mut current: String = START_TOKEN.to_owned();
        let mut i: usize = 0;
        while i < self.sequence_length
            invariant
                i <= self.sequence_length,
                self.has_positions(),
                hidden_draws.len() >= self.sequence_length,
                observed_draws.len() >= self.sequence_length,
                h == self.hidden_models(),
                o == self.observed_models(),
                xs == hidden_draws@,
                ys == observed_draws@,
                !positional_walk(h, o, xs, ys, i as nat).stopped,
                positional_walk(h, o, xs, ys, i as nat).current == current@,
                positional_walk(h, o, xs, ys, i as nat).text == sequence@,
            decreases self.sequence_length - i,
        {
            let ghost before = positional_walk(h, o, xs, ys, i as nat);
            let ghost after = positional_walk(h, o, xs, ys, (i + 1) as nat);
            proof {
                assert(h[i as int] == self.hidden_probs[i as int]@);
                assert(o[i as int] == self.observed_probs[i as int]@);
                assert(h.len() == self.sequence_length);
                assert(after == positional_step(
                    before,
                    h[i as int],
                    o[i as int],
                    xs[i as int],
                    ys[i as int],
                    i + 1 == self.sequence_length,
                ));
            }
            match self.hidden_probs[i].find_row(current.as_str()) {
                Some(j) => {
                    current = next_token(&self.hidden_probs[i].rows[j].entries, hidden_draws[i]);
                },
                None => {
                    proof {
                        lemma_positional_walk_stopped(
                            h,
                            o,
                            xs,
                            ys,
                            (i + 1) as nat,
                            self.sequence_length as nat,
                        );
                    }
                    return sequence;
                },
            }
            match self.observed_probs[i].find_row(current.as_str()) {
                Some(e) => {
                    let surface = next_token(
                        &self.observed_probs[i].rows[e].entries,
                        observed_draws[i],
                    );
                    let ghost text = sequence@;
                    push_text(&mut sequence, surface.as_str());
                    push_char(&mut sequence, ':');
                    push_text(&mut sequence, current.as_str());
                    proof {
                        assert(sequence@ =~= text + token_text(surface@, current@));
                    }
                    if i != self.sequence_length - 1 {
                        push_char(&mut sequence, ' ');
                    }
                },
                None => {},
            }
            i += 1;
        }
        sequence
    }

    /// Generates a sequence from random draws.
    pub fn sample_sequence(&self) -> (r: String)
        requires
            self.has_positions(),
        ensures
            exists|xs: Seq<u64>, ys: Seq<u64>|
                xs.len() == self.sequence_length && ys.len() == self.sequence_length && r@
                    == (#[trigger] positional_walk(
                    self.hidden_models(),
                    self.observed_models(),
                    xs,
                    ys,
                    self.sequence_length as nat,
                )).text,
    {
        let hidden_draws = random_draws(self.sequence_length);
        let observed_draws = random_draws(self.sequence_length);
        self.sample_sequence_with(&hidden_draws, &observed_draws)
    }

    /// The probability that the model generates the given sequence: the
    /// product, token by token, of the probability of the transition to the
    /// token's label and that of its surface form at the label.
    pub fn get_sequence_probability(&self, sequence: &str) -> (r: Result<Weight, LookupError>)
        requires
            self.hidden_probs.len() == self.observed_probs.len(),
        ensures
            match positional_path(
                self.hidden_models(),
                self.observed_models(),
                words_of(sequence@),
                words_of(sequence@).len(),
            ) {
                Ok(p) => r matches Ok(w) && w.value() == p.product,
                Err(e) => r matches Err(f) && f == e,
            },
    {
        let ghost h = self.hidden_models();
        let ghost o = self.observed_models();
        let chars = to_chars(sequence);
        let tokens = words(&chars);
        let ghost texts = views(tokens@);
        let mut product = Weight::one();
        let mut current: String = START_TOKEN.to_owned();
        let mut i: usize = 0;
        while i < tokens.len()
            invariant
                i <= tokens.len(),
                self.hidden_probs.len() == self.observed_probs.len(),
                h == self.hidden_models(),
                o == self.observed_models(),
                texts == views(tokens@),
                texts == words_of(sequence@),
                positional_path(h, o, texts, i as nat) == Ok::<Path, LookupError>(
                    Path { current: current@, product: product.value() },
                ),
            decreases tokens.len() - i,
        {
            let ghost before = Path { current: current@, product: product.value() };
            proof {
                assert(texts[i as int] == tokens[i as int]@);
                assert(h.len() == self.hidden_probs.len());
            }
            let parts = match split_token(tokens[i].as_str()) {
                Ok(parts) => parts,
                Err(_) => {
                    proof {
                        lemma_positional_path_failed(h, o, texts, (i + 1) as nat, texts.len());
                    }
                    return Err(LookupError::MalformedToken);
                },
            };
            if i >= self.hidden_probs.len() {
                proof {
                    lemma_positional_path_failed(h, o, texts, (i + 1) as nat, texts.len());
                }
                return Err(LookupError::PositionOutOfRange);
            }
            proof {
                assert(h[i as int] == self.hidden_probs[i as int]@);
                assert(o[i as int] == self.observed_probs[i as int]@);
            }
            let transition = match self.hidden_probs[i].find_weight(
                current.as_str(),
                parts.1.as_str(),
            ) {
                Ok(w) => w,
                Err(e) => {
                    proof {
                        lemma_positional_path_failed(h, o, texts, (i + 1) as nat, texts.len());
                    }
                    return Err(e);
                },
            };
            let emission = match self.observed_probs[i].find_weight(
                parts.1.as_str(),
                parts.0.as_str(),
            ) {
                Ok(w) => w,
                Err(e) => {
                    proof {
                        lemma_positional_path_failed(h, o, texts, (i + 1) as nat, texts.len());
                    }
                    return Err(e);
                },
            };
            product = product.times(&transition).times(&emission);
            current = parts.1;
            i += 1;
        }
        Ok(product)
    }
}

} // verus!
