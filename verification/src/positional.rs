//! The mathematics of the positional model: one pair of distributions for
//! each position of the sequence, masked, pruned and renormalized.

use crate::constraints::ConstraintModel;
use crate::model::{
    lemma_masked_shape, lemma_normalized_shape, lemma_pruned_shape, masked, normalized, pruned, same_keys, same_shape, totals, weight_or_zero,
    DistModel, RowModel,
};
use vstd::prelude::*;

verus! {

/// As many copies of `d` as there are positions.
pub open spec fn copies(d: DistModel, length: nat) -> Seq<DistModel> {
    Seq::new(length, |i: int| d)
}

/// Each distribution masked by the constraint of its position; positions
/// without a constraint stay as they are.
pub open spec fn masked_each(ds: Seq<DistModel>, cs: Seq<ConstraintModel>) -> Seq<DistModel> {
    Seq::new(
        ds.len(),
        |i: int|
            if i < cs.len() {
                masked(ds[i], cs[i])
            } else {
                ds[i]
            },
    )
}

/// The transitions without those into states that can emit nothing at their
/// position: states whose row of emissions has the total 0.
pub open spec fn emission_pruned(h: Seq<DistModel>, o: Seq<DistModel>) -> Seq<DistModel> {
    Seq::new(h.len(), |i: int| pruned(h[i], totals(o[i]), false))
}

/// The transitions of position `i` without those into states that cannot go
/// on at the next position: states that have no row there, or a row with the
/// total 0 after the same pruning.
pub open spec fn transition_pruned_at(h: Seq<DistModel>, i: int) -> DistModel
    decreases h.len() - i,
{
    if 0 <= i && i + 1 < h.len() {
        pruned(h[i], totals(transition_pruned_at(h, i + 1)), true)
    } else {
        h[i]
    }
}

/// The transitions of all positions after the backward sweep.
pub open spec fn transition_pruned(h: Seq<DistModel>) -> Seq<DistModel> {
    Seq::new(h.len(), |i: int| transition_pruned_at(h, i))
}

/// The transitions after both sweeps of dead-state elimination.
pub open spec fn arc_consistent(h: Seq<DistModel>, o: Seq<DistModel>) -> Seq<DistModel> {
    transition_pruned(emission_pruned(h, o))
}

/// The mass of acceptable continuations from the state `t`: the total of
/// its emissions at this position, times the mass that follows it at the
/// next position (1 at the last position). A state that a table lacks has
/// the mass 0 there.
pub open spec fn factor(betas: RowModel, next: Option<RowModel>, t: Seq<char>) -> real {
    weight_or_zero(betas, t) * match next {
        Some(alphas) => weight_or_zero(alphas, t),
        None => 1 as real,
    }
}

/// The sum over a row of each weight times the factor of its target.
pub open spec fn weighted_total(r: RowModel, betas: RowModel, next: Option<RowModel>) -> real
    decreases r.len(),
{
    if r.len() == 0 {
        0 as real
    } else {
        weighted_total(r.drop_last(), betas, next) + r.last().1 * factor(betas, next, r.last().0)
    }
}

/// The row with each weight multiplied by the factor of its target and
/// divided by the weighted total; the row as it is where that total is 0.
pub open spec fn rescaled_row(r: RowModel, betas: RowModel, next: Option<RowModel>) -> RowModel {
    let alpha = weighted_total(r, betas, next);
    if alpha == 0 as real {
        r
    } else {
        Seq::new(r.len(), |k: int| (r[k].0, r[k].1 * factor(betas, next, r[k].0) / alpha))
    }
}

/// The table that gives each context the weighted total of its row.
pub open spec fn alphas_of(d: DistModel, betas: RowModel, next: Option<RowModel>) -> RowModel {
    Seq::new(d.len(), |j: int| (d[j].0, weighted_total(d[j].1, betas, next)))
}

/// The distribution with every row rescaled.
pub open spec fn rescaled(d: DistModel, betas: RowModel, next: Option<RowModel>) -> DistModel {
    Seq::new(d.len(), |j: int| (d[j].0, rescaled_row(d[j].1, betas, next)))
}

/// The table of weighted totals of the position after `i`; none behind the
/// last position.
pub open spec fn alphas_after(h: Seq<DistModel>, o: Seq<DistModel>, i: int) -> Option<RowModel>
    decreases h.len() - i, 0nat,
{
    if 0 <= i && i + 1 < h.len() {
        Some(alphas_at(h, o, i + 1))
    } else {
        None
    }
}

/// The table of weighted totals of position `i`: for each context, the mass
/// of the acceptable sequences that start from it there.
pub open spec fn alphas_at(h: Seq<DistModel>, o: Seq<DistModel>, i: int) -> RowModel
    decreases h.len() - i, 1nat,
{
    if 0 <= i < h.len() {
        alphas_of(h[i], totals(o[i]), alphas_after(h, o, i))
    } else {
        Seq::empty()
    }
}

/// The transitions of every position, renormalized.
pub open spec fn renormalized_hidden(h: Seq<DistModel>, o: Seq<DistModel>) -> Seq<DistModel> {
    Seq::new(h.len(), |i: int| rescaled(h[i], totals(o[i]), alphas_after(h, o, i)))
}

/// The emissions of every position, each row divided by its total.
pub open spec fn renormalized_observed(o: Seq<DistModel>) -> Seq<DistModel> {
    Seq::new(o.len(), |i: int| normalized(o[i]))
}

/// The transitions of a trained model.
pub open spec fn trained_hidden(
    hidden: DistModel,
    observed: DistModel,
    hidden_constraints: Seq<ConstraintModel>,
    observed_constraints: Seq<ConstraintModel>,
    length: nat,
) -> Seq<DistModel> {
    let h = masked_each(copies(hidden, length), hidden_constraints);
    let o = masked_each(copies(observed, length), observed_constraints);
    renormalized_hidden(arc_consistent(h, o), o)
}

/// The emissions of a trained model.
pub open spec fn trained_observed(
    observed: DistModel,
    observed_constraints: Seq<ConstraintModel>,
    length: nat,
) -> Seq<DistModel> {
    renormalized_observed(masked_each(copies(observed, length), observed_constraints))
}

/// Rescaling keeps the shape of a distribution.
pub proof fn lemma_rescaled_shape(d: DistModel, betas: RowModel, next: Option<RowModel>)
    ensures
        same_shape(rescaled(d, betas, next), d),
{
    assert forall|j: int| 0 <= j < d.len() implies same_keys(
        (#[trigger] rescaled(d, betas, next)[j]).1,
        d[j].1,
    ) by {
        let r = d[j].1;
        if weighted_total(r, betas, next) != 0 as real {
            assert forall|k: int| 0 <= k < r.len() implies (#[trigger] rescaled_row(r, betas, next)[k]).0
                == r[k].0 by {}
        }
    }
}

/// A distribution has the shape of one that has its shape.
pub proof fn lemma_same_shape_chain(a: DistModel, b: DistModel, c: DistModel)
    requires
        same_shape(a, b),
        same_shape(b, c),
    ensures
        same_shape(a, c),
{
    assert forall|j: int| 0 <= j < a.len() implies (#[trigger] a[j]).0 == (#[trigger] c[j]).0
        && same_keys(a[j].1, c[j].1) by {
        assert(a[j].0 == b[j].0);
        assert(same_keys(a[j].1, b[j].1));
        assert(same_keys(b[j].1, c[j].1));
        assert forall|k: int| 0 <= k < a[j].1.len() implies (#[trigger] a[j].1[k]).0 == (
        #[trigger] c[j].1[k]).0 by {
            assert(a[j].1[k].0 == b[j].1[k].0);
        }
    }
}

/// The transitions of a position after the backward sweep have the shape
/// that they had before.
pub proof fn lemma_transition_pruned_shape(h: Seq<DistModel>, i: int)
    requires
        0 <= i < h.len(),
    ensures
        same_shape(transition_pruned_at(h, i), h[i]),
{
    if i + 1 < h.len() {
        lemma_pruned_shape(h[i], totals(transition_pruned_at(h, i + 1)), true);
    }
}

/// The distributions of every position of a trained model have the shape
/// of the base model's distributions: the same contexts and targets in the
/// same order.
pub proof fn lemma_trained_shape(
    hidden: DistModel,
    observed: DistModel,
    hidden_constraints: Seq<ConstraintModel>,
    observed_constraints: Seq<ConstraintModel>,
    length: nat,
    i: int,
)
    requires
        0 <= i < length,
    ensures
        trained_hidden(hidden, observed, hidden_constraints, observed_constraints, length).len()
            == length,
        trained_observed(observed, observed_constraints, length).len() == length,
        same_shape(
            trained_hidden(hidden, observed, hidden_constraints, observed_constraints, length)[i],
            hidden,
        ),
        same_shape(trained_observed(observed, observed_constraints, length)[i], observed),
{
    let h = masked_each(copies(hidden, length), hidden_constraints);
    let o = masked_each(copies(observed, length), observed_constraints);
    let e = emission_pruned(h, o);
    let p = arc_consistent(h, o);
    if i < hidden_constraints.len() {
        lemma_masked_shape(hidden, hidden_constraints[i]);
    }
    assert(same_shape(h[i], hidden));
    if i < observed_constraints.len() {
        lemma_masked_shape(observed, observed_constraints[i]);
    }
    assert(same_shape(o[i], observed));
    lemma_pruned_shape(h[i], totals(o[i]), false);
    lemma_same_shape_chain(e[i], h[i], hidden);
    lemma_transition_pruned_shape(e, i);
    lemma_same_shape_chain(p[i], e[i], hidden);
    lemma_rescaled_shape(p[i], totals(o[i]), alphas_after(p, o, i));
    lemma_same_shape_chain(
        trained_hidden(hidden, observed, hidden_constraints, observed_constraints, length)[i],
        p[i],
        hidden,
    );
    lemma_normalized_shape(o[i]);
    lemma_same_shape_chain(trained_observed(observed, observed_constraints, length)[i], o[i], observed);
}

} // verus!
