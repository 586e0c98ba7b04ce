//! Why renormalization gives rows that sum to 1.

use crate::constraints::ConstraintModel;
use crate::laws::{covered, row_normalized};
use crate::model::{
    index_of, lemma_index_of, lemma_index_of_same_keys, lemma_row_total_nonneg,
    lemma_scaled_sums_to_one, nonneg, normalized, row_all_zero, row_nonneg, row_total, same_keys,
    scaled_row, totals, weight_or_zero, DistModel, RowModel,
};
use crate::positional::{
    alphas_after, alphas_at, alphas_of, factor, renormalized_hidden, rescaled, rescaled_row,
    trained_hidden, trained_observed, weighted_total,
};
use crate::pruning::{
    consistent_hidden, lemma_betas, lemma_consistent_entry, lemma_consistent_nonneg,
    lemma_consistent_shape, lemma_masked_observed, masked_observed,
};
use vstd::prelude::*;

verus! {

/// A table without negative weights gives no key a negative weight.
pub proof fn lemma_weight_or_zero_nonneg(table: RowModel, t: Seq<char>)
    requires
        row_nonneg(table),
    ensures
        weight_or_zero(table, t) >= 0 as real,
{
    lemma_index_of(table, t);
    match index_of(table, t) {
        Some(i) => {
            assert(table[i].1 >= 0 as real);
        },
        None => {},
    }
}

/// Whether a table that may be missing has no negative weight.
pub open spec fn optional_nonneg(next: Option<RowModel>) -> bool {
    match next {
        Some(alphas) => row_nonneg(alphas),
        None => true,
    }
}

/// The factor of a state is not negative where the tables have no negative
/// weight.
pub proof fn lemma_factor_nonneg(betas: RowModel, next: Option<RowModel>, t: Seq<char>)
    requires
        row_nonneg(betas),
        optional_nonneg(next),
    ensures
        factor(betas, next, t) >= 0 as real,
{
    lemma_weight_or_zero_nonneg(betas, t);
    let b = weight_or_zero(betas, t);
    match next {
        Some(alphas) => {
            lemma_weight_or_zero_nonneg(alphas, t);
            let a = weight_or_zero(alphas, t);
            assert(b * a >= 0 as real) by (nonlinear_arith)
                requires
                    b >= 0 as real,
                    a >= 0 as real,
            ;
        },
        None => {
            assert(b * (1 as real) == b) by (nonlinear_arith);
        },
    }
}

/// The weighted total of a row is not negative and no less than each of
/// its terms, where neither the row nor the tables have a negative weight.
pub proof fn lemma_weighted_total_nonneg(r: RowModel, betas: RowModel, next: Option<RowModel>)
    requires
        row_nonneg(r),
        row_nonneg(betas),
        optional_nonneg(next),
    ensures
        weighted_total(r, betas, next) >= 0 as real,
        forall|k: int|
            0 <= k < r.len() ==> 0 as real <= (#[trigger] r[k]).1 * factor(betas, next, r[k].0)
                <= weighted_total(r, betas, next),
    decreases r.len(),
{
    if r.len() > 0 {
        let front = r.drop_last();
        assert forall|k: int| 0 <= k < front.len() implies (#[trigger] front[k]).1 >= 0 as real by {
            assert(front[k] == r[k]);
        }
        lemma_weighted_total_nonneg(front, betas, next);
        let last = r.last();
        assert(last == r[r.len() - 1]);
        lemma_factor_nonneg(betas, next, last.0);
        let w = last.1;
        let f = factor(betas, next, last.0);
        assert(w * f >= 0 as real) by (nonlinear_arith)
            requires
                w >= 0 as real,
                f >= 0 as real,
        ;
        assert forall|k: int| 0 <= k < r.len() implies 0 as real <= (#[trigger] r[k]).1 * factor(
            betas,
            next,
            r[k].0,
        ) <= weighted_total(r, betas, next) by {
            if k < front.len() {
                assert(front[k] == r[k]);
            }
        }
    }
}

/// The row with each weight multiplied by the factor of its target and
/// divided by `alpha`.
pub open spec fn scaled_by(r: RowModel, betas: RowModel, next: Option<RowModel>, alpha: real) -> RowModel {
    Seq::new(r.len(), |k: int| (r[k].0, r[k].1 * factor(betas, next, r[k].0) / alpha))
}

/// The weights of a row, each multiplied by its factor and divided by
/// `alpha`, sum to the weighted total divided by `alpha`.
pub proof fn lemma_scaled_by_total(r: RowModel, betas: RowModel, next: Option<RowModel>, alpha: real)
    requires
        alpha != 0 as real,
    ensures
        row_total(scaled_by(r, betas, next, alpha)) == weighted_total(r, betas, next) / alpha,
    decreases r.len(),
{
    if r.len() == 0 {
        assert(0 as real / alpha == 0 as real) by (nonlinear_arith)
            requires
                alpha != 0 as real,
        ;
    } else {
        lemma_scaled_by_total(r.drop_last(), betas, next, alpha);
        assert(scaled_by(r, betas, next, alpha).drop_last() =~= scaled_by(
            r.drop_last(),
            betas,
            next,
            alpha,
        ));
        let a = weighted_total(r.drop_last(), betas, next);
        let b = r.last().1 * factor(betas, next, r.last().0);
        assert(a / alpha + b / alpha == (a + b) / alpha) by (nonlinear_arith)
            requires
                alpha != 0 as real,
        ;
    }
}

/// A rescaled row sums to 1 where its weighted total is not 0.
pub proof fn lemma_rescaled_sums_to_one(r: RowModel, betas: RowModel, next: Option<RowModel>)
    requires
        weighted_total(r, betas, next) != 0 as real,
    ensures
        row_total(rescaled_row(r, betas, next)) == 1 as real,
{
    let alpha = weighted_total(r, betas, next);
    lemma_scaled_by_total(r, betas, next, alpha);
    assert(rescaled_row(r, betas, next) =~= scaled_by(r, betas, next, alpha));
    assert(alpha / alpha == 1 as real) by (nonlinear_arith)
        requires
            alpha != 0 as real,
    ;
}

/// A row without negative weights whose total is not 0 has a weight that
/// is greater than 0.
pub proof fn lemma_positive_entry(r: RowModel) -> (k: int)
    requires
        row_nonneg(r),
        row_total(r) != 0 as real,
    ensures
        0 <= k < r.len(),
        r[k].1 > 0 as real,
{
    lemma_row_total_nonneg(r);
    assert(!row_all_zero(r));
    let k = choose|k: int| 0 <= k < r.len() && (#[trigger] r[k]).1 != 0 as real;
    assert(r[k].1 >= 0 as real);
    k
}

/// The heart of renormalization. At every position the table of weighted
/// totals has the keys of the base model's transitions and no negative
/// weight, and every transition that is left after dead-state elimination
/// leads to a state whose factor is greater than 0.
pub proof fn lemma_alive_factor(
    hidden: DistModel,
    observed: DistModel,
    hidden_constraints: Seq<ConstraintModel>,
    observed_constraints: Seq<ConstraintModel>,
    length: nat,
    i: int,
)
    requires
        nonneg(hidden),
        nonneg(observed),
        covered(hidden, observed),
        hidden_constraints.len() == length,
        observed_constraints.len() == length,
        0 <= i < length,
    ensures
        ({
            let p = consistent_hidden(
                hidden,
                observed,
                hidden_constraints,
                observed_constraints,
                length,
            );
            let o = masked_observed(observed, observed_constraints, length);
            &&& same_keys(alphas_at(p, o, i), hidden)
            &&& row_nonneg(alphas_at(p, o, i))
            &&& optional_nonneg(alphas_after(p, o, i))
            &&& forall|j: int, k: int|
                0 <= j < hidden.len() && 0 <= k < hidden[j].1.len() && (#[trigger] p[i][j].1[k]).1
                    != 0 as real ==> factor(totals(o[i]), alphas_after(p, o, i), hidden[j].1[k].0)
                    > 0 as real
        }),
    decreases length - i,
{
    let p = consistent_hidden(hidden, observed, hidden_constraints, observed_constraints, length);
    let o = masked_observed(observed, observed_constraints, length);
    let betas = totals(o[i]);
    let next = alphas_after(p, o, i);
    lemma_consistent_shape(hidden, observed, hidden_constraints, observed_constraints, length, i);
    lemma_consistent_nonneg(hidden, observed, hidden_constraints, observed_constraints, length, i);
    lemma_betas(observed, observed_constraints, length, i);
    assert(p.len() == length);
    if i + 1 < length {
        lemma_alive_factor(
            hidden,
            observed,
            hidden_constraints,
            observed_constraints,
            length,
            i + 1,
        );
        lemma_consistent_shape(
            hidden,
            observed,
            hidden_constraints,
            observed_constraints,
            length,
            i + 1,
        );
        lemma_consistent_nonneg(
            hidden,
            observed,
            hidden_constraints,
            observed_constraints,
            length,
            i + 1,
        );
        assert(next == Some(alphas_at(p, o, i + 1)));
    } else {
        assert(next is None);
    }
    assert(alphas_at(p, o, i) == alphas_of(p[i], betas, next));
    assert forall|j: int| 0 <= j < hidden.len() implies (#[trigger] alphas_at(p, o, i)[j]).0
        == hidden[j].0 && alphas_at(p, o, i)[j].1 >= 0 as real by {
        assert(row_nonneg(p[i][j].1));
        lemma_weighted_total_nonneg(p[i][j].1, betas, next);
    }
    assert forall|j: int, k: int|
        0 <= j < hidden.len() && 0 <= k < hidden[j].1.len() && (#[trigger] p[i][j].1[k]).1
            != 0 as real implies factor(betas, next, hidden[j].1[k].0) > 0 as real by {
        let t = hidden[j].1[k].0;
        lemma_consistent_entry(
            hidden,
            observed,
            hidden_constraints,
            observed_constraints,
            length,
            i,
            j,
            k,
        );
        // The state can emit something at this position.
        assert(index_of(observed, hidden[j].1[k].0) is Some);
        lemma_index_of_same_keys(betas, observed, t);
        lemma_index_of(betas, t);
        let e = index_of(betas, t).unwrap();
        assert(betas[e].1 >= 0 as real);
        let b = weight_or_zero(betas, t);
        assert(b > 0 as real);
        if i + 1 < length {
            // The state can go on at the next position.
            let following = p[i + 1];
            let alphas = alphas_at(p, o, i + 1);
            lemma_index_of(totals(following), t);
            let r = index_of(totals(following), t).unwrap();
            assert(totals(following)[r].1 == row_total(following[r].1));
            assert(row_nonneg(following[r].1));
            let k2 = lemma_positive_entry(following[r].1);
            let next2 = alphas_after(p, o, i + 1);
            let betas2 = totals(o[i + 1]);
            lemma_betas(observed, observed_constraints, length, i + 1);
            lemma_weighted_total_nonneg(following[r].1, betas2, next2);
            assert(0 <= r < hidden.len());
            assert(following[r].1.len() == hidden[r].1.len());
            lemma_consistent_entry(
                hidden,
                observed,
                hidden_constraints,
                observed_constraints,
                length,
                i + 1,
                r,
                k2,
            );
            assert(p[i + 1][r].1[k2].1 != 0 as real);
            let f2 = factor(betas2, next2, hidden[r].1[k2].0);
            assert(f2 > 0 as real);
            let w2 = following[r].1[k2].1;
            assert(w2 * f2 > 0 as real) by (nonlinear_arith)
                requires
                    w2 > 0 as real,
                    f2 > 0 as real,
            ;
            assert(following[r].1[k2].0 == hidden[r].1[k2].0);
            assert(alphas == alphas_of(following, betas2, next2));
            assert(alphas[r].1 == weighted_total(following[r].1, betas2, next2));
            assert(alphas[r].1 > 0 as real);
            assert(same_keys(totals(following), alphas)) by {
                assert forall|x: int| 0 <= x < alphas.len() implies (#[trigger] totals(following)[x]).0
                    == (#[trigger] alphas[x]).0 by {}
            }
            lemma_index_of_same_keys(totals(following), alphas, t);
            let a = weight_or_zero(alphas, t);
            assert(a == alphas[r].1);
            assert(b * a > 0 as real) by (nonlinear_arith)
                requires
                    b > 0 as real,
                    a > 0 as real,
            ;
        } else {
            assert(b * (1 as real) == b) by (nonlinear_arith);
        }
    }
}

/// After training, every row of transitions sums to 1 or holds only zeros,
/// provided that every state a transition of the base model leads to has a
/// row of emissions there.
pub proof fn lemma_transitions_normalized(
    hidden: DistModel,
    observed: DistModel,
    hidden_constraints: Seq<ConstraintModel>,
    observed_constraints: Seq<ConstraintModel>,
    length: nat,
    i: int,
    j: int,
)
    requires
        nonneg(hidden),
        nonneg(observed),
        covered(hidden, observed),
        hidden_constraints.len() == length,
        observed_constraints.len() == length,
        0 <= i < length,
        0 <= j < hidden.len(),
    ensures
        trained_hidden(hidden, observed, hidden_constraints, observed_constraints, length)[i].len()
            == hidden.len(),
        row_normalized(
            trained_hidden(hidden, observed, hidden_constraints, observed_constraints, length)[i][j].1,
        ),
{
    let p = consistent_hidden(hidden, observed, hidden_constraints, observed_constraints, length);
    let o = masked_observed(observed, observed_constraints, length);
    let betas = totals(o[i]);
    let next = alphas_after(p, o, i);
    let trained = trained_hidden(hidden, observed, hidden_constraints, observed_constraints, length);
    lemma_consistent_shape(hidden, observed, hidden_constraints, observed_constraints, length, i);
    lemma_consistent_nonneg(hidden, observed, hidden_constraints, observed_constraints, length, i);
    lemma_betas(observed, observed_constraints, length, i);
    lemma_alive_factor(hidden, observed, hidden_constraints, observed_constraints, length, i);
    assert(trained == renormalized_hidden(p, o));
    assert(trained[i] == rescaled(p[i], betas, next));
    let row = p[i][j].1;
    assert(trained[i][j].1 == rescaled_row(row, betas, next));
    assert(row_nonneg(row));
    lemma_weighted_total_nonneg(row, betas, next);
    if weighted_total(row, betas, next) != 0 as real {
        lemma_rescaled_sums_to_one(row, betas, next);
    } else {
        assert forall|k: int| 0 <= k < row.len() implies (#[trigger] row[k]).1 == 0 as real by {
            if row[k].1 != 0 as real {
                lemma_consistent_entry(
                    hidden,
                    observed,
                    hidden_constraints,
                    observed_constraints,
                    length,
                    i,
                    j,
                    k,
                );
                let w = row[k].1;
                let f = factor(betas, next, row[k].0);
                assert(p[i][j].1[k].1 != 0 as real);
                assert(f > 0 as real);
                assert(w >= 0 as real);
                assert(w * f > 0 as real) by (nonlinear_arith)
                    requires
                        w > 0 as real,
                        f > 0 as real,
                ;
            }
        }
    }
}

/// After training, every row of emissions sums to 1 or holds only zeros.
pub proof fn lemma_emissions_normalized(
    observed: DistModel,
    observed_constraints: Seq<ConstraintModel>,
    length: nat,
    i: int,
    e: int,
)
    requires
        nonneg(observed),
        observed_constraints.len() == length,
        0 <= i < length,
        0 <= e < observed.len(),
    ensures
        trained_observed(observed, observed_constraints, length)[i].len() == observed.len(),
        row_normalized(trained_observed(observed, observed_constraints, length)[i][e].1),
{
    lemma_masked_observed(observed, observed_constraints, length, i);
    let o = masked_observed(observed, observed_constraints, length)[i];
    let row = o[e].1;
    assert(trained_observed(observed, observed_constraints, length)[i] == normalized(o));
    assert(normalized(o)[e].1 == scaled_row(row, row_total(row)));
    assert(row_nonneg(row));
    lemma_row_total_nonneg(row);
    if row_total(row) != 0 as real {
        lemma_scaled_sums_to_one(row);
    }
}

} // verus!
