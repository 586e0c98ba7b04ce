//! Training without constraints and without dead ends.

use crate::constraints::ConstraintModel;
use crate::laws::{all_empty, closed, covered, stochastic};
use crate::model::{
    index_of, lemma_index_of, lemma_index_of_same_keys, masked, masked_row, normalized, pruned,
    pruned_row, row_total, same_keys, scaled_row, totals, weight_or_zero, DistModel, RowModel,
};
use crate::positional::{
    alphas_after, alphas_at, alphas_of, arc_consistent, copies, emission_pruned, factor,
    masked_each, renormalized_hidden, rescaled, rescaled_row, trained_hidden, trained_observed,
    transition_pruned_at, weighted_total,
};
use crate::pruning::masked_observed;
use vstd::prelude::*;

verus! {

/// The constraint without effect masks nothing.
pub proof fn lemma_masked_by_empty(d: DistModel)
    ensures
        masked(d, ConstraintModel::Empty) == d,
{
    let m = masked(d, ConstraintModel::Empty);
    assert forall|j: int| 0 <= j < d.len() implies #[trigger] m[j] == d[j] by {
        assert(masked_row(d[j].1, ConstraintModel::Empty) =~= d[j].1);
    }
    assert(m =~= d);
}

/// Dividing the rows of a distribution by their totals changes nothing
/// where every total is 1.
pub proof fn lemma_normalized_stochastic(d: DistModel)
    requires
        stochastic(d),
    ensures
        normalized(d) == d,
{
    let n = normalized(d);
    assert forall|j: int| 0 <= j < d.len() implies #[trigger] n[j] == d[j] by {
        let r = d[j].1;
        assert(row_total(r) == 1 as real);
        assert forall|k: int| 0 <= k < r.len() implies #[trigger] scaled_row(r, 1 as real)[k]
            == r[k] by {
            let w = r[k].1;
            assert(w / (1 as real) == w) by (nonlinear_arith);
        }
        assert(scaled_row(r, 1 as real) =~= r);
    }
    assert(n =~= d);
}

/// Pruning by a table in which every target has the total 1 changes
/// nothing.
pub proof fn lemma_pruned_nothing(d: DistModel, other: DistModel, absent_is_dead: bool)
    requires
        stochastic(other),
        forall|j: int, k: int|
            0 <= j < d.len() && 0 <= k < d[j].1.len() ==> index_of(other, (#[trigger] d[j].1[k]).0)
                is Some,
    ensures
        pruned(d, totals(other), absent_is_dead) == d,
{
    let table = totals(other);
    let p = pruned(d, table, absent_is_dead);
    assert(same_keys(table, other)) by {
        assert forall|x: int| 0 <= x < table.len() implies (#[trigger] table[x]).0 == (
        #[trigger] other[x]).0 by {}
    }
    assert forall|j: int| 0 <= j < d.len() implies #[trigger] p[j] == d[j] by {
        let r = d[j].1;
        assert forall|k: int| 0 <= k < r.len() implies #[trigger] pruned_row(r, table, absent_is_dead)[k]
            == r[k] by {
            let t = r[k].0;
            assert(index_of(other, d[j].1[k].0) is Some);
            lemma_index_of_same_keys(table, other, t);
            lemma_index_of(table, t);
            let e = index_of(table, t).unwrap();
            assert(table[e].1 == row_total(other[e].1));
        }
        assert(pruned_row(r, table, absent_is_dead) =~= r);
    }
    assert(p =~= d);
}

/// The weighted total of a row is its total where every target has the
/// factor 1.
pub proof fn lemma_weighted_total_unit(r: RowModel, betas: RowModel, next: Option<RowModel>)
    requires
        forall|k: int| 0 <= k < r.len() ==> factor(betas, next, (#[trigger] r[k]).0) == 1 as real,
    ensures
        weighted_total(r, betas, next) == row_total(r),
    decreases r.len(),
{
    if r.len() > 0 {
        let front = r.drop_last();
        assert forall|k: int| 0 <= k < front.len() implies factor(betas, next, (#[trigger] front[k]).0)
            == 1 as real by {
            assert(front[k] == r[k]);
        }
        lemma_weighted_total_unit(front, betas, next);
        assert(r.last() == r[r.len() - 1]);
        let w = r.last().1;
        assert(w * (1 as real) == w) by (nonlinear_arith);
    }
}

/// The table that gives every context of `d` the weight 1.
pub open spec fn ones(d: DistModel) -> RowModel {
    Seq::new(d.len(), |j: int| (d[j].0, 1 as real))
}

/// A table of ones gives every key that it has the weight 1.
pub proof fn lemma_ones(d: DistModel, t: Seq<char>)
    requires
        index_of(d, t) is Some,
    ensures
        weight_or_zero(ones(d), t) == 1 as real,
{
    assert(same_keys(ones(d), d)) by {
        assert forall|x: int| 0 <= x < d.len() implies (#[trigger] ones(d)[x]).0 == (#[trigger] d[x]).0 by {}
    }
    lemma_index_of_same_keys(ones(d), d, t);
    lemma_index_of(ones(d), t);
}

/// Without constraints and without dead ends, renormalization changes no
/// transition: every weighted total is 1.
pub proof fn lemma_rescaled_nothing(d: DistModel, observed: DistModel, next: Option<RowModel>)
    requires
        stochastic(d),
        stochastic(observed),
        covered(d, observed),
        closed(d),
        next === None || next === Some(ones(d)),
    ensures
        rescaled(d, totals(observed), next) == d,
        alphas_of(d, totals(observed), next) == ones(d),
{
    let betas = totals(observed);
    assert(betas =~= ones(observed));
    assert forall|j: int| 0 <= j < d.len() implies #[trigger] rescaled(d, betas, next)[j] == d[j]
        && alphas_of(d, betas, next)[j] == ones(d)[j] by {
        let r = d[j].1;
        assert forall|k: int| 0 <= k < r.len() implies factor(betas, next, (#[trigger] r[k]).0)
            == 1 as real by {
            let t = r[k].0;
            assert(index_of(observed, d[j].1[k].0) is Some);
            assert(index_of(d, d[j].1[k].0) is Some);
            lemma_ones(observed, t);
            lemma_ones(d, t);
            assert((1 as real) * (1 as real) == 1 as real) by (nonlinear_arith);
        }
        lemma_weighted_total_unit(r, betas, next);
        assert(row_total(r) == 1 as real);
        assert forall|k: int| 0 <= k < r.len() implies #[trigger] rescaled_row(r, betas, next)[k]
            == r[k] by {
            let w = r[k].1;
            assert(w * (1 as real) / (1 as real) == w) by (nonlinear_arith);
        }
        assert(rescaled_row(r, betas, next) =~= r);
    }
    assert(rescaled(d, betas, next) =~= d);
    assert(alphas_of(d, betas, next) =~= ones(d));
}

/// Training without constraints gives back the base model at every
/// position, provided that the rows of the base model sum to 1 and that
/// every state a transition leads to has a row of transitions and a row of
/// emissions.
pub proof fn lemma_no_constraints_round_trip(
    hidden: DistModel,
    observed: DistModel,
    hidden_constraints: Seq<ConstraintModel>,
    observed_constraints: Seq<ConstraintModel>,
    length: nat,
    i: int,
)
    requires
        stochastic(hidden),
        stochastic(observed),
        covered(hidden, observed),
        closed(hidden),
        hidden_constraints.len() == length,
        observed_constraints.len() == length,
        all_empty(hidden_constraints),
        all_empty(observed_constraints),
        0 <= i < length,
    ensures
        trained_hidden(hidden, observed, hidden_constraints, observed_constraints, length)[i]
            == hidden,
        trained_observed(observed, observed_constraints, length)[i] == observed,
{
    let h = masked_each(copies(hidden, length), hidden_constraints);
    let o = masked_observed(observed, observed_constraints, length);
    lemma_masked_by_empty(hidden);
    lemma_masked_by_empty(observed);
    assert(h =~= copies(hidden, length)) by {
        assert forall|x: int| 0 <= x < length implies #[trigger] h[x] == hidden by {
            assert(hidden_constraints[x] == ConstraintModel::Empty);
        }
    }
    assert(o =~= copies(observed, length)) by {
        assert forall|x: int| 0 <= x < length implies #[trigger] o[x] == observed by {
            assert(observed_constraints[x] == ConstraintModel::Empty);
        }
    }
    lemma_normalized_stochastic(observed);
    lemma_pruned_nothing(hidden, observed, false);
    let e = emission_pruned(h, o);
    assert(e =~= copies(hidden, length));
    lemma_unpruned(hidden, length, 0);
    let p = arc_consistent(h, o);
    assert(p =~= copies(hidden, length)) by {
        assert forall|x: int| 0 <= x < length implies #[trigger] p[x] == hidden by {
            lemma_unpruned(hidden, length, x);
        }
    }
    lemma_unit_alphas(hidden, observed, length, i);
}

/// Without dead ends the backward sweep of dead-state elimination changes
/// nothing.
pub proof fn lemma_unpruned(hidden: DistModel, length: nat, i: int)
    requires
        stochastic(hidden),
        closed(hidden),
        0 <= i < length,
    ensures
        transition_pruned_at(copies(hidden, length), i) == hidden,
    decreases length - i,
{
    if i + 1 < length {
        lemma_unpruned(hidden, length, i + 1);
        lemma_pruned_nothing(hidden, hidden, true);
    }
}

/// Without constraints and without dead ends every weighted total is 1,
/// and renormalization changes no transition.
pub proof fn lemma_unit_alphas(hidden: DistModel, observed: DistModel, length: nat, i: int)
    requires
        stochastic(hidden),
        stochastic(observed),
        covered(hidden, observed),
        closed(hidden),
        0 <= i < length,
    ensures
        alphas_at(copies(hidden, length), copies(observed, length), i) == ones(hidden),
        renormalized_hidden(copies(hidden, length), copies(observed, length))[i] == hidden,
    decreases length - i,
{
    let h = copies(hidden, length);
    let o = copies(observed, length);
    if i + 1 < length {
        lemma_unit_alphas(hidden, observed, length, i + 1);
    }
    lemma_rescaled_nothing(hidden, observed, alphas_after(h, o, i));
}

} // verus!
