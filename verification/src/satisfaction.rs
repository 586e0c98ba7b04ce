//! Why sampled tokens pass the constraints of their positions.

use crate::constraints::{satisfies, ConstraintModel};
use crate::corpus::start_key;
use crate::laws::{covered, draw_is_sound, row_alive, token_passes};
use crate::model::{
    index_of, lemma_index_of, lemma_index_of_same_keys, lemma_scaled_sums_to_one, nonneg,
    normalized, row_all_zero, row_nonneg, row_total, same_keys, scaled_row, totals, DistModel,
    RowModel,
};
use crate::positional::{
    alphas_after, factor, rescaled, rescaled_row, trained_hidden, trained_observed, weighted_total,
};
use crate::pruning::{
    consistent_hidden, lemma_betas, lemma_consistent_entry, lemma_consistent_nonneg,
    lemma_consistent_shape, lemma_masked_observed, masked_observed,
};
use crate::renormalization::{
    lemma_alive_factor, lemma_positive_entry, lemma_transitions_normalized,
    lemma_weighted_total_nonneg,
};
use crate::sampling::{picked, picked_key, unit};
use crate::walk::{positional_step, positional_walk, Walk};
use crate::weight::draw_scale;
use vstd::prelude::*;

verus! {

/// A draw stands for a point of the unit interval, 1 left out.
pub proof fn lemma_unit_interval(draw: u64)
    ensures
        0 as real <= unit(draw) < 1 as real,
{
    let x = draw as nat as real;
    let y = draw_scale() as real;
    assert(draw < draw_scale());
    assert(0 as real <= x / y < 1 as real) by (nonlinear_arith)
        requires
            0 as real <= x < y,
    ;
}

/// The weight at a picked position is greater than 0, and where no position
/// is picked the total of the row does not exceed the point drawn.
pub proof fn lemma_picked(r: RowModel, x: real)
    requires
        x >= 0 as real,
    ensures
        match picked(r, x) {
            Some(k) => 0 <= k < r.len() && r[k].1 > 0 as real,
            None => row_total(r) <= x,
        },
    decreases r.len(),
{
    if r.len() > 0 {
        lemma_picked(r.drop_last(), x);
        match picked(r.drop_last(), x) {
            Some(k) => {
                assert(r.drop_last()[k] == r[k]);
            },
            None => {
                assert(r.last() == r[r.len() - 1]);
            },
        }
    }
}

/// A transition that is left after dead-state elimination leads to a state
/// whose row of transitions at the next position, once trained, does not
/// hold only zeros.
pub proof fn lemma_alive_next(
    hidden: DistModel,
    observed: DistModel,
    hidden_constraints: Seq<ConstraintModel>,
    observed_constraints: Seq<ConstraintModel>,
    length: nat,
    i: int,
    j: int,
    k: int,
)
    requires
        nonneg(hidden),
        nonneg(observed),
        covered(hidden, observed),
        hidden_constraints.len() == length,
        observed_constraints.len() == length,
        0 <= i,
        i + 1 < length,
        0 <= j < hidden.len(),
        0 <= k < hidden[j].1.len(),
        consistent_hidden(hidden, observed, hidden_constraints, observed_constraints, length)[i][j].1[k].1
            != 0 as real,
    ensures
        row_alive(
            trained_hidden(hidden, observed, hidden_constraints, observed_constraints, length)[i
                + 1],
            hidden[j].1[k].0,
        ),
{
    let p = consistent_hidden(hidden, observed, hidden_constraints, observed_constraints, length);
    let o = masked_observed(observed, observed_constraints, length);
    let th = trained_hidden(hidden, observed, hidden_constraints, observed_constraints, length);
    let t = hidden[j].1[k].0;
    let following = p[i + 1];
    let betas = totals(o[i + 1]);
    let next = alphas_after(p, o, i + 1);
    lemma_consistent_entry(hidden, observed, hidden_constraints, observed_constraints, length, i, j, k);
    lemma_consistent_shape(
        hidden,
        observed,
        hidden_constraints,
        observed_constraints,
        length,
        i + 1,
    );
    lemma_consistent_nonneg(
        hidden,
        observed,
        hidden_constraints,
        observed_constraints,
        length,
        i + 1,
    );
    lemma_betas(observed, observed_constraints, length, i + 1);
    lemma_alive_factor(hidden, observed, hidden_constraints, observed_constraints, length, i + 1);
    assert(p.len() == length);
    assert(th[i + 1] == rescaled(following, betas, next));
    // The state has a row at the next position, and its total is not 0.
    lemma_index_of(totals(following), t);
    let r = index_of(totals(following), t).unwrap();
    assert(totals(following)[r].1 == row_total(following[r].1));
    let row = following[r].1;
    assert(row_nonneg(row));
    let k2 = lemma_positive_entry(row);
    assert(0 <= r < hidden.len());
    assert(row.len() == hidden[r].1.len());
    lemma_consistent_entry(
        hidden,
        observed,
        hidden_constraints,
        observed_constraints,
        length,
        i + 1,
        r,
        k2,
    );
    assert(p[i + 1][r].1[k2].1 != 0 as real);
    let w = row[k2].1;
    let f = factor(betas, next, hidden[r].1[k2].0);
    assert(f > 0 as real);
    assert(row[k2].0 == hidden[r].1[k2].0);
    lemma_weighted_total_nonneg(row, betas, next);
    let alpha = weighted_total(row, betas, next);
    assert(w * f > 0 as real) by (nonlinear_arith)
        requires
            w > 0 as real,
            f > 0 as real,
    ;
    assert(alpha > 0 as real);
    let trained = th[i + 1][r].1;
    assert(trained == rescaled_row(row, betas, next));
    assert(trained[k2].1 == w * f / alpha);
    let wf = w * f;
    assert(wf / alpha > 0 as real) by (nonlinear_arith)
        requires
            wf > 0 as real,
            alpha > 0 as real,
    ;
    assert(!row_all_zero(trained));
    // The trained transitions find the state at the same place.
    assert(same_keys(th[i + 1], totals(following))) by {
        assert forall|a: int| 0 <= a < following.len() implies (#[trigger] th[i + 1][a]).0 == (
        #[trigger] totals(following)[a]).0 by {}
    }
    lemma_index_of_same_keys(th[i + 1], totals(following), t);
}

/// One position of a walk through a trained model writes at most one
/// token, and a token that it writes passes the constraints of the
/// position, provided that the draw from the row of the context that the
/// walk has reached is sound; the draw at the next position is sound then.
pub proof fn lemma_step_token(
    hidden: DistModel,
    observed: DistModel,
    hidden_constraints: Seq<ConstraintModel>,
    observed_constraints: Seq<ConstraintModel>,
    length: nat,
    i: int,
    w: Walk,
    x: u64,
    y: u64,
    last: bool,
)
    requires
        nonneg(hidden),
        nonneg(observed),
        hidden_constraints.len() == length,
        observed_constraints.len() == length,
        0 <= i < length,
        w.stopped || draw_is_sound(
            hidden,
            observed,
            trained_hidden(hidden, observed, hidden_constraints, observed_constraints, length)[i],
            w.current,
        ),
    ensures
        ({
            let after = positional_step(
                w,
                trained_hidden(hidden, observed, hidden_constraints, observed_constraints, length)[i],
                trained_observed(observed, observed_constraints, length)[i],
                x,
                y,
                last,
            );
            &&& (after.tokens == w.tokens || (after.tokens.len() == w.tokens.len() + 1
                && after.tokens.drop_last() == w.tokens && token_passes(
                hidden_constraints,
                observed_constraints,
                i,
                after.tokens.last(),
            )))
            &&& i + 1 < length ==> after.stopped || draw_is_sound(
                hidden,
                observed,
                trained_hidden(hidden, observed, hidden_constraints, observed_constraints, length)[i
                    + 1],
                after.current,
            )
        }),
{
    let p = consistent_hidden(hidden, observed, hidden_constraints, observed_constraints, length);
    let o = masked_observed(observed, observed_constraints, length);
    let betas = totals(o[i]);
    let next = alphas_after(p, o, i);
    let th = trained_hidden(hidden, observed, hidden_constraints, observed_constraints, length)[i];
    let to = trained_observed(observed, observed_constraints, length)[i];
    let after = positional_step(w, th, to, x, y, last);
    let no_empty_label = index_of(observed, Seq::<char>::empty()) is None;
    lemma_consistent_shape(hidden, observed, hidden_constraints, observed_constraints, length, i);
    lemma_masked_observed(observed, observed_constraints, length, i);
    assert(p.len() == length);
    assert(th == rescaled(p[i], betas, next));
    assert(to == normalized(o[i]));
    if !w.stopped {
        lemma_index_of(th, w.current);
        match index_of(th, w.current) {
            None => {},
            Some(j) => {
                let row = th[j].1;
                let label = picked_key(row, unit(x));
                let before = p[i][j].1;
                lemma_unit_interval(x);
                lemma_unit_interval(y);
                lemma_picked(row, unit(x));
                lemma_index_of(to, label);
                assert(same_keys(to, observed)) by {
                    assert forall|a: int| 0 <= a < to.len() implies (#[trigger] to[a]).0 == (
                    #[trigger] observed[a]).0 by {
                        assert(o[i][a].0 == observed[a].0);
                    }
                }
                lemma_index_of_same_keys(to, observed, label);
                assert(row == rescaled_row(before, betas, next));
                assert(row.len() == before.len());
                if !no_empty_label {
                    // A row that does not hold only zeros sums to 1, so a label is drawn.
                    lemma_transitions_normalized(
                        hidden,
                        observed,
                        hidden_constraints,
                        observed_constraints,
                        length,
                        i,
                        j,
                    );
                    assert(picked(row, unit(x)) is Some);
                } else if index_of(to, label) is Some {
                    // The label has emissions, so it is not the empty text: it was drawn.
                    if picked(row, unit(x)) is None {
                        assert(label =~= Seq::<char>::empty());
                    }
                    assert(picked(row, unit(x)) is Some);
                }
                if picked(row, unit(x)) is Some {
                    let k = picked(row, unit(x)).unwrap();
                    assert(before[k].1 != 0 as real) by {
                        let alpha = weighted_total(before, betas, next);
                        if alpha != 0 as real {
                            let v = before[k].1;
                            let f = factor(betas, next, before[k].0);
                            assert(row[k].1 == v * f / alpha);
                            assert(v == 0 as real ==> v * f / alpha == 0 as real) by (nonlinear_arith)
                                requires
                                    alpha != 0 as real,
                            ;
                        }
                    }
                    assert(row[k].0 == before[k].0);
                    lemma_consistent_entry(
                        hidden,
                        observed,
                        hidden_constraints,
                        observed_constraints,
                        length,
                        i,
                        j,
                        k,
                    );
                    assert(satisfies(hidden_constraints[i], label));
                    if !no_empty_label && i + 1 < length {
                        lemma_alive_next(
                            hidden,
                            observed,
                            hidden_constraints,
                            observed_constraints,
                            length,
                            i,
                            j,
                            k,
                        );
                    }
                    match index_of(to, label) {
                        None => {},
                        Some(e) => {
                            // The label can emit something: its emissions sum to 1.
                            assert(same_keys(betas, to)) by {
                                assert forall|a: int| 0 <= a < to.len() implies (#[trigger] betas[a]).0
                                    == (#[trigger] to[a]).0 by {}
                            }
                            lemma_index_of_same_keys(betas, to, label);
                            let emissions = o[i][e].1;
                            assert(betas[e].1 == row_total(emissions));
                            assert(row_total(emissions) != 0 as real);
                            assert(to[e].1 == scaled_row(emissions, row_total(emissions)));
                            lemma_scaled_sums_to_one(emissions);
                            lemma_picked(to[e].1, unit(y));
                            let k2 = picked(to[e].1, unit(y)).unwrap();
                            let surface = picked_key(to[e].1, unit(y));
                            assert(emissions[k2].1 != 0 as real) by {
                                let total = row_total(emissions);
                                let v = emissions[k2].1;
                                assert(to[e].1[k2].1 == v / total);
                                assert(v == 0 as real ==> v / total == 0 as real) by (nonlinear_arith)
                                    requires
                                        total != 0 as real,
                                ;
                            }
                            assert(same_keys(o[i][e].1, observed[e].1));
                            assert(o[i][e].1[k2].1 != 0 as real);
                            assert(surface == observed[e].1[k2].0) by {
                                assert(to[e].1[k2].0 == emissions[k2].0);
                                assert(emissions[k2].0 == observed[e].1[k2].0);
                            }
                            assert(satisfies(observed_constraints[i], surface));
                            assert(after.tokens == w.tokens.push((surface, label)));
                            assert(after.tokens.drop_last() =~= w.tokens);
                        },
                    }
                }
            },
        }
    }
}

/// A walk through a trained model that starts with a sound draw and has
/// written a token at every one of its first `n` positions has written
/// tokens that pass the constraints of their positions; and its next draw
/// is sound.
pub proof fn lemma_walk_tokens(
    hidden: DistModel,
    observed: DistModel,
    hidden_constraints: Seq<ConstraintModel>,
    observed_constraints: Seq<ConstraintModel>,
    length: nat,
    xs: Seq<u64>,
    ys: Seq<u64>,
    n: nat,
)
    requires
        nonneg(hidden),
        nonneg(observed),
        hidden_constraints.len() == length,
        observed_constraints.len() == length,
        n <= length,
        length > 0,
        draw_is_sound(
            hidden,
            observed,
            trained_hidden(hidden, observed, hidden_constraints, observed_constraints, length)[0],
            start_key(),
        ),
    ensures
        ({
            let w = positional_walk(
                trained_hidden(hidden, observed, hidden_constraints, observed_constraints, length),
                trained_observed(observed, observed_constraints, length),
                xs,
                ys,
                n,
            );
            &&& w.tokens.len() <= n
            &&& w.tokens.len() == n ==> forall|i: int|
                0 <= i < n ==> token_passes(
                    hidden_constraints,
                    observed_constraints,
                    i,
                    #[trigger] w.tokens[i],
                )
            &&& n < length ==> w.stopped || draw_is_sound(
                hidden,
                observed,
                trained_hidden(hidden, observed, hidden_constraints, observed_constraints, length)[n as int],
                w.current,
            )
        }),
    decreases n,
{
    if n > 0 {
        let th = trained_hidden(hidden, observed, hidden_constraints, observed_constraints, length);
        let to = trained_observed(observed, observed_constraints, length);
        let before = positional_walk(th, to, xs, ys, (n - 1) as nat);
        let after = positional_walk(th, to, xs, ys, n);
        lemma_walk_tokens(
            hidden,
            observed,
            hidden_constraints,
            observed_constraints,
            length,
            xs,
            ys,
            (n - 1) as nat,
        );
        lemma_step_token(
            hidden,
            observed,
            hidden_constraints,
            observed_constraints,
            length,
            n - 1,
            before,
            xs[n - 1],
            ys[n - 1],
            n == th.len(),
        );
        if after.tokens.len() == n {
            assert forall|i: int| 0 <= i < n implies token_passes(
                hidden_constraints,
                observed_constraints,
                i,
                #[trigger] after.tokens[i],
            ) by {
                if i < n - 1 {
                    assert(after.tokens.drop_last()[i] == after.tokens[i]);
                    assert(before.tokens[i] == after.tokens[i]);
                } else {
                    assert(after.tokens.last() == after.tokens[i]);
                }
            }
        }
    }
}

} // verus!
