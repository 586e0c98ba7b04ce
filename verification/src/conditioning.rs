//! Training as conditioning: what a trained model makes of the probability
//! of a sequence.

use crate::algebra::{lemma_chain, lemma_product_not_zero, lemma_zero_or_same};
use crate::constrained_hidden_markov::ConstrainedHiddenMarkov;
use crate::constraints::{models, ConstraintModel};
use crate::corpus::{start_key, token_parts};
use crate::errors::LookupError;
use crate::laws::covered;
use crate::model::{
    index_of, lemma_index_of, lemma_index_of_same_keys, lemma_row_total_nonneg, masked_row, nonneg,
    normalized, row_nonneg, row_total, same_keys, same_shape, scaled_row, totals, weight_or_zero,
    DistModel,
};
use crate::positional::{
    alphas_after, alphas_at, alphas_of, factor, lemma_trained_shape, rescaled, rescaled_row,
    trained_hidden, trained_observed, weighted_total,
};
use crate::pruning::{
    consistent_hidden, lemma_betas, lemma_consistent_entry, lemma_consistent_nonneg,
    lemma_consistent_shape, lemma_masked_observed, masked_observed,
};
use crate::renormalization::{lemma_alive_factor, lemma_weighted_total_nonneg};
use crate::walk::{base_path, find_weight, path_step, positional_path};
use vstd::prelude::*;

verus! {

/// The mass of the state `current` at position `n`: the weighted total of
/// its row of transitions there, 0 where it has no row; 1 behind the last
/// position.
pub open spec fn mass_at(p: Seq<DistModel>, o: Seq<DistModel>, n: int, current: Seq<char>) -> real {
    if 0 <= n < p.len() {
        weight_or_zero(alphas_at(p, o, n), current)
    } else {
        1 as real
    }
}

/// A weight that is found in a distribution is found at the same place in
/// every distribution of the same shape.
pub proof fn lemma_found_alike(a: DistModel, b: DistModel, context: Seq<char>, target: Seq<char>) -> (r:
    (int, int))
    requires
        same_shape(a, b),
        find_weight(a, context, target) is Ok,
    ensures
        0 <= r.0 < a.len(),
        0 <= r.1 < a[r.0].1.len(),
        index_of(a, context) == Some(r.0),
        index_of(b, context) == Some(r.0),
        a[r.0].1[r.1].0 == target,
        find_weight(a, context, target) == Ok::<real, LookupError>(a[r.0].1[r.1].1),
        find_weight(b, context, target) == Ok::<real, LookupError>(b[r.0].1[r.1].1),
{
    lemma_index_of(a, context);
    lemma_index_of_same_keys(a, b, context);
    let j = index_of(a, context).unwrap();
    lemma_index_of(a[j].1, target);
    assert(same_keys(a[j].1, b[j].1));
    lemma_index_of_same_keys(a[j].1, b[j].1, target);
    let k = index_of(a[j].1, target).unwrap();
    (j, k)
}

/// What one token does to the probability of a sequence. The transition
/// and the emission that the trained model has for the token are found in
/// the model before renormalization too; each of those is 0 or the weight
/// of the base model; and the trained weights, times the mass before the
/// token, are the weights before renormalization times the mass behind it.
pub proof fn lemma_token_mass(
    hidden: DistModel,
    observed: DistModel,
    hidden_constraints: Seq<ConstraintModel>,
    observed_constraints: Seq<ConstraintModel>,
    length: nat,
    m: int,
    context: Seq<char>,
    label: Seq<char>,
    surface: Seq<char>,
)
    requires
        nonneg(hidden),
        nonneg(observed),
        covered(hidden, observed),
        hidden_constraints.len() == length,
        observed_constraints.len() == length,
        0 <= m < length,
        find_weight(
            trained_hidden(hidden, observed, hidden_constraints, observed_constraints, length)[m],
            context,
            label,
        ) is Ok,
        find_weight(trained_observed(observed, observed_constraints, length)[m], label, surface)
            is Ok,
    ensures
        ({
            let p = consistent_hidden(
                hidden,
                observed,
                hidden_constraints,
                observed_constraints,
                length,
            );
            let o = masked_observed(observed, observed_constraints, length);
            let th = trained_hidden(
                hidden,
                observed,
                hidden_constraints,
                observed_constraints,
                length,
            );
            let to = trained_observed(observed, observed_constraints, length);
            &&& find_weight(p[m], context, label) is Ok
            &&& find_weight(o[m], label, surface) is Ok
            &&& find_weight(hidden, context, label) is Ok
            &&& find_weight(observed, label, surface) is Ok
            &&& ({
                let zt = find_weight(th[m], context, label)->Ok_0;
                let et = find_weight(to[m], label, surface)->Ok_0;
                let z = find_weight(p[m], context, label)->Ok_0;
                let e = find_weight(o[m], label, surface)->Ok_0;
                let zb = find_weight(hidden, context, label)->Ok_0;
                let eb = find_weight(observed, label, surface)->Ok_0;
                &&& zt * et * mass_at(p, o, m, context) == z * e * mass_at(p, o, m + 1, label)
                &&& (z == 0 as real || z == zb)
                &&& (e == 0 as real || e == eb)
                &&& zt != 0 as real ==> z != 0 as real
                &&& et != 0 as real ==> e != 0 as real
            })
        }),
{
    let p = consistent_hidden(hidden, observed, hidden_constraints, observed_constraints, length);
    let o = masked_observed(observed, observed_constraints, length);
    let th = trained_hidden(hidden, observed, hidden_constraints, observed_constraints, length);
    let to = trained_observed(observed, observed_constraints, length);
    let betas = totals(o[m]);
    let next = alphas_after(p, o, m);
    lemma_trained_shape(hidden, observed, hidden_constraints, observed_constraints, length, m);
    lemma_consistent_shape(hidden, observed, hidden_constraints, observed_constraints, length, m);
    lemma_consistent_nonneg(hidden, observed, hidden_constraints, observed_constraints, length, m);
    lemma_masked_observed(observed, observed_constraints, length, m);
    lemma_betas(observed, observed_constraints, length, m);
    lemma_alive_factor(hidden, observed, hidden_constraints, observed_constraints, length, m);
    assert(p.len() == length);
    assert(th[m] == rescaled(p[m], betas, next));
    assert(to[m] == normalized(o[m]));
    // The transition.
    let jk = lemma_found_alike(th[m], hidden, context, label);
    let j = jk.0;
    let k = jk.1;
    assert(same_shape(p[m], hidden));
    lemma_index_of_same_keys(p[m], hidden, context);
    assert(same_keys(p[m][j].1, hidden[j].1));
    lemma_index_of_same_keys(th[m][j].1, hidden[j].1, label);
    lemma_index_of_same_keys(p[m][j].1, hidden[j].1, label);
    lemma_index_of(th[m][j].1, label);
    let row = p[m][j].1;
    let alpha = weighted_total(row, betas, next);
    let z = row[k].1;
    let zt = th[m][j].1[k].1;
    assert(th[m][j].1 == rescaled_row(row, betas, next));
    lemma_consistent_entry(
        hidden,
        observed,
        hidden_constraints,
        observed_constraints,
        length,
        m,
        j,
        k,
    );
    assert(row[k].0 == label);
    let f = factor(betas, next, label);
    // The mass before the token is the weighted total of the row.
    let alphas = alphas_at(p, o, m);
    assert(alphas == alphas_of(p[m], betas, next));
    assert(same_keys(alphas, p[m])) by {
        assert forall|x: int| 0 <= x < alphas.len() implies (#[trigger] alphas[x]).0 == (
        #[trigger] p[m][x]).0 by {}
    }
    lemma_index_of_same_keys(alphas, p[m], context);
    assert(mass_at(p, o, m, context) == alpha);
    // The mass behind the token is the second part of the factor.
    let behind = mass_at(p, o, m + 1, label);
    let beta = weight_or_zero(betas, label);
    assert(f == beta * behind);
    // The emission.
    let ek = lemma_found_alike(to[m], observed, label, surface);
    let e_row = ek.0;
    let e_col = ek.1;
    assert(same_shape(o[m], observed));
    lemma_index_of_same_keys(o[m], observed, label);
    assert(same_keys(o[m][e_row].1, observed[e_row].1));
    lemma_index_of_same_keys(to[m][e_row].1, observed[e_row].1, surface);
    lemma_index_of_same_keys(o[m][e_row].1, observed[e_row].1, surface);
    lemma_index_of(to[m][e_row].1, surface);
    let emissions = o[m][e_row].1;
    let total = row_total(emissions);
    let e = emissions[e_col].1;
    let et = to[m][e_row].1[e_col].1;
    assert(to[m][e_row].1 == scaled_row(emissions, total));
    assert(same_keys(betas, observed));
    lemma_index_of_same_keys(betas, observed, label);
    assert(beta == total);
    assert(emissions == masked_row(observed[e_row].1, observed_constraints[m]));
    assert(row_nonneg(emissions));
    lemma_row_total_nonneg(emissions);
    assert(find_weight(th[m], context, label) == Ok::<real, LookupError>(zt));
    assert(find_weight(p[m], context, label) == Ok::<real, LookupError>(z));
    assert(find_weight(hidden, context, label) == Ok::<real, LookupError>(hidden[j].1[k].1));
    assert(find_weight(to[m], label, surface) == Ok::<real, LookupError>(et));
    assert(find_weight(o[m], label, surface) == Ok::<real, LookupError>(e));
    assert(find_weight(observed, label, surface) == Ok::<real, LookupError>(
        observed[e_row].1[e_col].1,
    ));
    assert(z == 0 as real || z == hidden[j].1[k].1);
    assert(e == 0 as real || e == observed[e_row].1[e_col].1);
    // A trained weight that is not 0 comes from a weight that is not 0.
    if alpha == 0 as real {
        assert(zt == z);
    } else {
        assert(zt == z * f / alpha);
        assert(z == 0 as real ==> zt == 0 as real) by (nonlinear_arith)
            requires
                zt == z * f / alpha,
                alpha != 0 as real,
        ;
    }
    if total == 0 as real {
        assert(et == e);
    } else {
        assert(et == e / total);
        assert(e == 0 as real ==> et == 0 as real) by (nonlinear_arith)
            requires
                et == e / total,
                total != 0 as real,
        ;
    }
    // The masses before and behind the token.
    if total == 0 as real {
        assert(e == 0 as real);
        assert(zt * et * alpha == z * e * behind) by (nonlinear_arith)
            requires
                e == 0 as real,
                et == 0 as real,
        ;
    } else if alpha == 0 as real {
        // A row whose weighted total is 0 holds only zeros.
        assert(row_nonneg(row));
        lemma_weighted_total_nonneg(row, betas, next);
        if z != 0 as real {
            assert(p[m][j].1[k].1 != 0 as real);
            assert(f > 0 as real);
            assert(z * f > 0 as real) by (nonlinear_arith)
                requires
                    z > 0 as real,
                    f > 0 as real,
            ;
        }
        assert(zt * et * alpha == z * e * behind) by (nonlinear_arith)
            requires
                z == 0 as real,
                zt == 0 as real,
        ;
    } else {
        assert(zt * et * alpha == z * e * behind) by (nonlinear_arith)
            requires
                zt == z * f / alpha,
                et == e / total,
                f == total * behind,
                alpha != 0 as real,
                total != 0 as real,
        ;
    }
}

/// What the first `n` tokens of a sequence do to its probability. Where
/// the trained model has a probability for them, the model before
/// renormalization and the base model have one too, all three end at the
/// same hidden label, and: the trained probability, times the mass at the
/// start, is the probability before renormalization times the mass behind
/// the last token; the probability before renormalization is 0 or that of
/// the base model; and it is not 0 where the trained probability is not.
pub proof fn lemma_path_mass(
    hidden: DistModel,
    observed: DistModel,
    hidden_constraints: Seq<ConstraintModel>,
    observed_constraints: Seq<ConstraintModel>,
    length: nat,
    tokens: Seq<Seq<char>>,
    n: nat,
)
    requires
        nonneg(hidden),
        nonneg(observed),
        covered(hidden, observed),
        hidden_constraints.len() == length,
        observed_constraints.len() == length,
        n <= length,
        positional_path(
            trained_hidden(hidden, observed, hidden_constraints, observed_constraints, length),
            trained_observed(observed, observed_constraints, length),
            tokens,
            n,
        ) is Ok,
    ensures
        ({
            let p = consistent_hidden(
                hidden,
                observed,
                hidden_constraints,
                observed_constraints,
                length,
            );
            let o = masked_observed(observed, observed_constraints, length);
            let trained = positional_path(
                trained_hidden(hidden, observed, hidden_constraints, observed_constraints, length),
                trained_observed(observed, observed_constraints, length),
                tokens,
                n,
            )->Ok_0;
            let plain = positional_path(p, o, tokens, n);
            let base = base_path(hidden, observed, tokens, n);
            &&& plain is Ok
            &&& base is Ok
            &&& plain->Ok_0.current == trained.current
            &&& base->Ok_0.current == trained.current
            &&& trained.product * mass_at(p, o, 0, start_key()) == plain->Ok_0.product * mass_at(
                p,
                o,
                n as int,
                trained.current,
            )
            &&& (plain->Ok_0.product == 0 as real || plain->Ok_0.product == base->Ok_0.product)
            &&& trained.product != 0 as real ==> plain->Ok_0.product != 0 as real
        }),
    decreases n,
{
    let p = consistent_hidden(hidden, observed, hidden_constraints, observed_constraints, length);
    let o = masked_observed(observed, observed_constraints, length);
    let th = trained_hidden(hidden, observed, hidden_constraints, observed_constraints, length);
    let to = trained_observed(observed, observed_constraints, length);
    let start = mass_at(p, o, 0, start_key());
    if n > 0 {
        let m = n - 1;
        lemma_path_mass(
            hidden,
            observed,
            hidden_constraints,
            observed_constraints,
            length,
            tokens,
            m as nat,
        );
        lemma_trained_shape(hidden, observed, hidden_constraints, observed_constraints, length, m);
        lemma_consistent_shape(hidden, observed, hidden_constraints, observed_constraints, length, m);
        assert(th.len() == length);
        assert(p.len() == length);
        let before_t = positional_path(th, to, tokens, m as nat)->Ok_0;
        let before_p = positional_path(p, o, tokens, m as nat)->Ok_0;
        let before_b = base_path(hidden, observed, tokens, m as nat)->Ok_0;
        let token = tokens[m];
        let parts = token_parts(token)->Some_0;
        let label = parts.1;
        let surface = parts.0;
        let context = before_t.current;
        assert(positional_path(th, to, tokens, n) == path_step(before_t, th[m], to[m], token));
        lemma_token_mass(
            hidden,
            observed,
            hidden_constraints,
            observed_constraints,
            length,
            m,
            context,
            label,
            surface,
        );
        let zt = find_weight(th[m], context, label)->Ok_0;
        let et = find_weight(to[m], label, surface)->Ok_0;
        let z = find_weight(p[m], context, label)->Ok_0;
        let e = find_weight(o[m], label, surface)->Ok_0;
        let zb = find_weight(hidden, context, label)->Ok_0;
        let eb = find_weight(observed, label, surface)->Ok_0;
        assert(positional_path(p, o, tokens, n) == path_step(before_p, p[m], o[m], token));
        assert(base_path(hidden, observed, tokens, n) == path_step(
            before_b,
            hidden,
            observed,
            token,
        ));
        let pt = before_t.product;
        let pp = before_p.product;
        let pb = before_b.product;
        let here = mass_at(p, o, m, context);
        let behind = mass_at(p, o, n as int, label);
        lemma_chain(pt, zt, et, start, pp, z, e, here, behind);
        lemma_zero_or_same(pp, z, e, pb, zb, eb);
        lemma_product_not_zero(pt, zt, et);
        lemma_product_not_zero(pp, z, e);
    }
}

/// The mass of a model: the weighted total of the row of the start context
/// at the first position, before renormalization.
pub open spec fn acceptable_mass(model: ConstrainedHiddenMarkov) -> real {
    mass_at(
        consistent_hidden(
            model.hidden_markov_model.hidden_probs@,
            model.hidden_markov_model.observed_probs@,
            models(model.hidden_constraints@),
            models(model.observed_constraints@),
            model.sequence_length as nat,
        ),
        masked_observed(
            model.hidden_markov_model.observed_probs@,
            models(model.observed_constraints@),
            model.sequence_length as nat,
        ),
        0,
        start_key(),
    )
}

/// Training is conditioning: the probability that a trained model gives to
/// a sequence of full length, where it is not 0, is the probability that
/// the base model gives to the sequence, divided by the mass of the model,
/// a number other than 0 that is the same for all sequences; provided that
/// every hidden context that a transition of the base model leads to has a
/// row of emissions there.
pub proof fn law_conditioning(model: ConstrainedHiddenMarkov, tokens: Seq<Seq<char>>)
    requires
        model.well_formed(),
        model.is_trained(),
        covered(model.hidden_markov_model.hidden_probs@, model.hidden_markov_model.observed_probs@),
        tokens.len() == model.sequence_length,
        positional_path(model.hidden_models(), model.observed_models(), tokens, tokens.len()) is Ok,
        positional_path(
            model.hidden_models(),
            model.observed_models(),
            tokens,
            tokens.len(),
        )->Ok_0.product != 0 as real,
    ensures
        base_path(
            model.hidden_markov_model.hidden_probs@,
            model.hidden_markov_model.observed_probs@,
            tokens,
            tokens.len(),
        ) is Ok,
        positional_path(
            model.hidden_models(),
            model.observed_models(),
            tokens,
            tokens.len(),
        )->Ok_0.product * acceptable_mass(model) == base_path(
            model.hidden_markov_model.hidden_probs@,
            model.hidden_markov_model.observed_probs@,
            tokens,
            tokens.len(),
        )->Ok_0.product,
        acceptable_mass(model) != 0 as real,
{
    model.hidden_markov_model.hidden_probs.lemma_nonneg();
    model.hidden_markov_model.observed_probs.lemma_nonneg();
    let length = model.sequence_length as nat;
    lemma_path_mass(
        model.hidden_markov_model.hidden_probs@,
        model.hidden_markov_model.observed_probs@,
        models(model.hidden_constraints@),
        models(model.observed_constraints@),
        length,
        tokens,
        length,
    );
    let p = consistent_hidden(
        model.hidden_markov_model.hidden_probs@,
        model.hidden_markov_model.observed_probs@,
        models(model.hidden_constraints@),
        models(model.observed_constraints@),
        length,
    );
    lemma_consistent_shape(
        model.hidden_markov_model.hidden_probs@,
        model.hidden_markov_model.observed_probs@,
        models(model.hidden_constraints@),
        models(model.observed_constraints@),
        length,
        0,
    );
    let o = masked_observed(
        model.hidden_markov_model.observed_probs@,
        models(model.observed_constraints@),
        length,
    );
    let trained = positional_path(
        model.hidden_models(),
        model.observed_models(),
        tokens,
        tokens.len(),
    )->Ok_0;
    let plain = positional_path(p, o, tokens, length)->Ok_0;
    assert(mass_at(p, o, length as int, trained.current) == 1 as real);
    assert(plain.product * (1 as real) == plain.product) by (nonlinear_arith);
    let t = trained.product;
    let mass = acceptable_mass(model);
    assert(mass != 0 as real) by (nonlinear_arith)
        requires
            t * mass != 0 as real,
    ;
}

/// Training keeps relative likelihoods: of two sequences of full length to
/// which a trained model gives a probability that is not 0, it makes one as
/// many times as likely as the other as the base model does; provided that
/// every hidden context that a transition of the base model leads to has a
/// row of emissions there.
pub proof fn law_relative_likelihood(
    model: ConstrainedHiddenMarkov,
    first: Seq<Seq<char>>,
    second: Seq<Seq<char>>,
)
    requires
        model.well_formed(),
        model.is_trained(),
        covered(model.hidden_markov_model.hidden_probs@, model.hidden_markov_model.observed_probs@),
        first.len() == model.sequence_length,
        second.len() == model.sequence_length,
        positional_path(model.hidden_models(), model.observed_models(), first, first.len()) is Ok,
        positional_path(model.hidden_models(), model.observed_models(), second, second.len()) is Ok,
        positional_path(model.hidden_models(), model.observed_models(), first, first.len())->Ok_0.product
            != 0 as real,
        positional_path(
            model.hidden_models(),
            model.observed_models(),
            second,
            second.len(),
        )->Ok_0.product != 0 as real,
    ensures
        base_path(
            model.hidden_markov_model.hidden_probs@,
            model.hidden_markov_model.observed_probs@,
            first,
            first.len(),
        ) is Ok,
        base_path(
            model.hidden_markov_model.hidden_probs@,
            model.hidden_markov_model.observed_probs@,
            second,
            second.len(),
        ) is Ok,
        positional_path(model.hidden_models(), model.observed_models(), first, first.len())->Ok_0.product
            * base_path(
            model.hidden_markov_model.hidden_probs@,
            model.hidden_markov_model.observed_probs@,
            second,
            second.len(),
        )->Ok_0.product == positional_path(
            model.hidden_models(),
            model.observed_models(),
            second,
            second.len(),
        )->Ok_0.product * base_path(
            model.hidden_markov_model.hidden_probs@,
            model.hidden_markov_model.observed_probs@,
            first,
            first.len(),
        )->Ok_0.product,
{
    law_conditioning(model, first);
    law_conditioning(model, second);
    let t1 = positional_path(model.hidden_models(), model.observed_models(), first, first.len())->Ok_0.product;
    let t2 = positional_path(
        model.hidden_models(),
        model.observed_models(),
        second,
        second.len(),
    )->Ok_0.product;
    let b1 = base_path(
        model.hidden_markov_model.hidden_probs@,
        model.hidden_markov_model.observed_probs@,
        first,
        first.len(),
    )->Ok_0.product;
    let b2 = base_path(
        model.hidden_markov_model.hidden_probs@,
        model.hidden_markov_model.observed_probs@,
        second,
        second.len(),
    )->Ok_0.product;
    let mass = acceptable_mass(model);
    assert(t1 * b2 == t2 * b1) by (nonlinear_arith)
        requires
            t1 * mass == b1,
            t2 * mass == b2,
    ;
}

} // verus!
