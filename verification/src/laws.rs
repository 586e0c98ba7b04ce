//! What holds of every trained model.

use crate::constrained_hidden_markov::ConstrainedHiddenMarkov;
use crate::constraints::{models, satisfies, ConstraintModel};
use crate::corpus::start_key;
use crate::model::{index_of, normalized, row_all_zero, row_total, totals, DistModel, RowModel};
use crate::positional::{alphas_after, rescaled};
use crate::pruning::{
    consistent_hidden, lemma_consistent_shape, lemma_masked_observed, masked_observed,
};
use crate::renormalization::{lemma_emissions_normalized, lemma_transitions_normalized};
use crate::round_trip::{
    lemma_masked_by_empty, lemma_no_constraints_round_trip, lemma_normalized_stochastic,
};
use crate::satisfaction::lemma_walk_tokens;
use crate::walk::positional_walk;
use vstd::prelude::*;

verus! {

/// Whether every hidden context that a transition leads to has a row of
/// emissions.
pub open spec fn covered(hidden: DistModel, observed: DistModel) -> bool {
    forall|j: int, k: int|
        0 <= j < hidden.len() && 0 <= k < hidden[j].1.len() ==> index_of(
            observed,
            (#[trigger] hidden[j].1[k]).0,
        ) is Some
}

/// Whether every hidden context that a transition leads to has a row of
/// transitions of its own.
pub open spec fn closed(hidden: DistModel) -> bool {
    forall|j: int, k: int|
        0 <= j < hidden.len() && 0 <= k < hidden[j].1.len() ==> index_of(
            hidden,
            (#[trigger] hidden[j].1[k]).0,
        ) is Some
}

/// Whether every row of the distribution sums to 1.
pub open spec fn stochastic(d: DistModel) -> bool {
    forall|j: int| 0 <= j < d.len() ==> row_total((#[trigger] d[j]).1) == 1 as real
}

/// Whether a row sums to 1 or holds only zeros.
pub open spec fn row_normalized(r: RowModel) -> bool {
    row_total(r) == 1 as real || row_all_zero(r)
}

/// Whether a list of constraints holds only the constraint without effect.
pub open spec fn all_empty(constraints: Seq<ConstraintModel>) -> bool {
    forall|i: int| 0 <= i < constraints.len() ==> #[trigger] constraints[i] == ConstraintModel::Empty
}

/// Whether the row of a context, where the distribution has one, does not
/// hold only zeros.
pub open spec fn row_alive(d: DistModel, context: Seq<char>) -> bool {
    match index_of(d, context) {
        Some(j) => !row_all_zero(d[j].1),
        None => true,
    }
}

/// Whether a draw from the row of `context` in the trained transitions `d`
/// cannot end at a label that was not drawn and yet has emissions: the
/// empty text is no hidden context with emissions in the base model; or
/// every hidden context that a transition of the base model leads to has a
/// row of emissions, and the row of `context` does not hold only zeros.
pub open spec fn draw_is_sound(
    hidden: DistModel,
    observed: DistModel,
    d: DistModel,
    context: Seq<char>,
) -> bool {
    index_of(observed, Seq::<char>::empty()) is None || (covered(hidden, observed) && row_alive(
        d,
        context,
    ))
}

/// Whether a token passes the constraints of a position.
pub open spec fn token_passes(
    hidden_constraints: Seq<ConstraintModel>,
    observed_constraints: Seq<ConstraintModel>,
    i: int,
    token: (Seq<char>, Seq<char>),
) -> bool {
    satisfies(observed_constraints[i], token.0) && satisfies(hidden_constraints[i], token.1)
}

/// Normalization of the emissions: in a trained model, at every position,
/// the weights of every row of emissions sum to 1 or are all 0.
pub proof fn law_emissions_normalized(model: ConstrainedHiddenMarkov, i: int, e: int)
    requires
        model.well_formed(),
        model.is_trained(),
        0 <= i < model.sequence_length,
        0 <= e < model.observed_models()[i].len(),
    ensures
        row_normalized(model.observed_models()[i][e].1),
{
    let observed = model.hidden_markov_model.observed_probs@;
    let constraints = models(model.observed_constraints@);
    let length = model.sequence_length as nat;
    model.hidden_markov_model.observed_probs.lemma_nonneg();
    lemma_masked_observed(observed, constraints, length, i);
    assert(model.observed_models()[i] == normalized(masked_observed(observed, constraints, length)[i]));
    lemma_emissions_normalized(observed, constraints, length, i, e);
}

/// Normalization of the transitions: in a trained model, at every
/// position, the weights of every row of transitions sum to 1 or are all 0,
/// provided that every hidden context that a transition of the base model
/// leads to has a row of emissions there.
pub proof fn law_transitions_normalized(model: ConstrainedHiddenMarkov, i: int, j: int)
    requires
        model.well_formed(),
        model.is_trained(),
        covered(model.hidden_markov_model.hidden_probs@, model.hidden_markov_model.observed_probs@),
        0 <= i < model.sequence_length,
        0 <= j < model.hidden_models()[i].len(),
    ensures
        row_normalized(model.hidden_models()[i][j].1),
{
    let hidden = model.hidden_markov_model.hidden_probs@;
    let observed = model.hidden_markov_model.observed_probs@;
    let length = model.sequence_length as nat;
    model.hidden_markov_model.hidden_probs.lemma_nonneg();
    model.hidden_markov_model.observed_probs.lemma_nonneg();
    lemma_consistent_shape(
        hidden,
        observed,
        models(model.hidden_constraints@),
        models(model.observed_constraints@),
        length,
        i,
    );
    let p = consistent_hidden(
        hidden,
        observed,
        models(model.hidden_constraints@),
        models(model.observed_constraints@),
        length,
    );
    let o = masked_observed(observed, models(model.observed_constraints@), length);
    assert(model.hidden_models()[i] == rescaled(p[i], totals(o[i]), alphas_after(p, o, i)));
    lemma_transitions_normalized(
        hidden,
        observed,
        models(model.hidden_constraints@),
        models(model.observed_constraints@),
        length,
        i,
        j,
    );
}

/// Training without constraints changes nothing: where all constraints of
/// a model are the constraint without effect, the trained distributions of
/// every position are those of the base model, provided that the rows of
/// the base model sum to 1, and that every hidden context that a
/// transition leads to has a row of transitions and a row of emissions.
pub proof fn law_no_constraints_round_trip(model: ConstrainedHiddenMarkov, i: int)
    requires
        model.well_formed(),
        model.is_trained(),
        all_empty(models(model.hidden_constraints@)),
        all_empty(models(model.observed_constraints@)),
        stochastic(model.hidden_markov_model.hidden_probs@),
        stochastic(model.hidden_markov_model.observed_probs@),
        covered(model.hidden_markov_model.hidden_probs@, model.hidden_markov_model.observed_probs@),
        closed(model.hidden_markov_model.hidden_probs@),
        0 <= i < model.sequence_length,
    ensures
        model.hidden_models()[i] == model.hidden_markov_model.hidden_probs@,
        model.observed_models()[i] == model.hidden_markov_model.observed_probs@,
{
    lemma_no_constraints_round_trip(
        model.hidden_markov_model.hidden_probs@,
        model.hidden_markov_model.observed_probs@,
        models(model.hidden_constraints@),
        models(model.observed_constraints@),
        model.sequence_length as nat,
        i,
    );
}

/// Training without constraints on the surface forms changes no emission:
/// where all observed constraints of a model are the constraint without
/// effect, the trained emissions of every position are those of the base
/// model, provided that the rows of the base model's emissions sum to 1.
pub proof fn law_no_constraints_keep_emissions(model: ConstrainedHiddenMarkov, i: int)
    requires
        model.well_formed(),
        model.is_trained(),
        all_empty(models(model.observed_constraints@)),
        stochastic(model.hidden_markov_model.observed_probs@),
        0 <= i < model.sequence_length,
    ensures
        model.observed_models()[i] == model.hidden_markov_model.observed_probs@,
{
    let observed = model.hidden_markov_model.observed_probs@;
    let constraints = models(model.observed_constraints@);
    let length = model.sequence_length as nat;
    assert(constraints[i] == ConstraintModel::Empty);
    lemma_masked_by_empty(observed);
    lemma_normalized_stochastic(observed);
    assert(masked_observed(observed, constraints, length)[i] == observed);
    assert(model.observed_models()[i] == normalized(
        masked_observed(observed, constraints, length)[i],
    ));
}

/// Constraint satisfaction: a sequence sampled from a trained model that
/// has a token for every position has, at every position, a surface form
/// that passes the observed constraint and a hidden label that passes the
/// hidden constraint of the position, whatever was drawn; provided that the
/// first draw is sound. It is sound where the constraints leave a sequence
/// to draw, that is, where the row of the start context at the first
/// position does not hold only zeros, in a base model in which every hidden
/// context that a transition leads to has a row of emissions. It is sound
/// too where the empty text is no hidden context with emissions.
pub proof fn law_samples_satisfy_constraints(
    model: ConstrainedHiddenMarkov,
    hidden_draws: Seq<u64>,
    observed_draws: Seq<u64>,
    i: int,
)
    requires
        model.well_formed(),
        model.is_trained(),
        draw_is_sound(
            model.hidden_markov_model.hidden_probs@,
            model.hidden_markov_model.observed_probs@,
            model.hidden_models()[0],
            start_key(),
        ),
        positional_walk(
            model.hidden_models(),
            model.observed_models(),
            hidden_draws,
            observed_draws,
            model.sequence_length as nat,
        ).tokens.len() == model.sequence_length,
        0 <= i < model.sequence_length,
    ensures
        ({
            let token = positional_walk(
                model.hidden_models(),
                model.observed_models(),
                hidden_draws,
                observed_draws,
                model.sequence_length as nat,
            ).tokens[i];
            &&& satisfies(models(model.observed_constraints@)[i], token.0)
            &&& satisfies(models(model.hidden_constraints@)[i], token.1)
        }),
{
    model.hidden_markov_model.hidden_probs.lemma_nonneg();
    model.hidden_markov_model.observed_probs.lemma_nonneg();
    lemma_walk_tokens(
        model.hidden_markov_model.hidden_probs@,
        model.hidden_markov_model.observed_probs@,
        models(model.hidden_constraints@),
        models(model.observed_constraints@),
        model.sequence_length as nat,
        hidden_draws,
        observed_draws,
        model.sequence_length as nat,
    );
    let w = positional_walk(
        model.hidden_models(),
        model.observed_models(),
        hidden_draws,
        observed_draws,
        model.sequence_length as nat,
    );
    assert(token_passes(
        models(model.hidden_constraints@),
        models(model.observed_constraints@),
        i,
        w.tokens[i],
    ));
}

} // verus!
