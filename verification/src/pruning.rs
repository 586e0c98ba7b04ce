//! What masking and dead-state elimination leave of the base model.

use crate::constraints::{satisfies, ConstraintModel};
use crate::model::{
    dead_in, lemma_row_total_nonneg, masked, masked_row, nonneg, pruned, pruned_row, row_nonneg,
    same_keys, totals, DistModel, RowModel,
};
use crate::positional::{
    arc_consistent, copies, emission_pruned, masked_each, transition_pruned, transition_pruned_at,
};
use vstd::prelude::*;

verus! {

/// The emissions of a position before they are renormalized.
pub open spec fn masked_observed(
    observed: DistModel,
    observed_constraints: Seq<ConstraintModel>,
    length: nat,
) -> Seq<DistModel> {
    masked_each(copies(observed, length), observed_constraints)
}

/// The transitions of a position before they are renormalized.
pub open spec fn consistent_hidden(
    hidden: DistModel,
    observed: DistModel,
    hidden_constraints: Seq<ConstraintModel>,
    observed_constraints: Seq<ConstraintModel>,
    length: nat,
) -> Seq<DistModel> {
    arc_consistent(
        masked_each(copies(hidden, length), hidden_constraints),
        masked_observed(observed, observed_constraints, length),
    )
}

/// A masked row has the keys of the row, and weights that are not negative
/// where those of the row are not.
pub proof fn lemma_masked_row(r: RowModel, c: ConstraintModel)
    ensures
        same_keys(masked_row(r, c), r),
        row_nonneg(r) ==> row_nonneg(masked_row(r, c)),
        forall|k: int|
            0 <= k < r.len() && (#[trigger] masked_row(r, c)[k]).1 != 0 as real ==> satisfies(
                c,
                r[k].0,
            ) && masked_row(r, c)[k].1 == r[k].1,
{
    if row_nonneg(r) {
        assert forall|k: int| 0 <= k < r.len() implies (#[trigger] masked_row(r, c)[k]).1
            >= 0 as real by {
            assert(r[k].1 >= 0 as real);
        }
    }
}

/// The emissions of every position, before renormalization, have the keys
/// of the base model's emissions and no negative weight, and a weight that
/// is not 0 belongs to a surface form that passes the constraint of the
/// position.
pub proof fn lemma_masked_observed(
    observed: DistModel,
    observed_constraints: Seq<ConstraintModel>,
    length: nat,
    i: int,
)
    requires
        nonneg(observed),
        observed_constraints.len() == length,
        0 <= i < length,
    ensures
        ({
            let o = masked_observed(observed, observed_constraints, length)[i];
            &&& same_keys(o, observed)
            &&& nonneg(o)
            &&& forall|e: int|
                0 <= e < observed.len() ==> same_keys((#[trigger] o[e]).1, observed[e].1)
            &&& forall|e: int, k: int|
                0 <= e < observed.len() && 0 <= k < observed[e].1.len() && (
                #[trigger] o[e].1[k]).1 != 0 as real ==> satisfies(
                    observed_constraints[i],
                    observed[e].1[k].0,
                )
        }),
{
    let o = masked_observed(observed, observed_constraints, length)[i];
    let c = observed_constraints[i];
    assert(o == masked(observed, c));
    assert forall|e: int| 0 <= e < observed.len() implies same_keys((#[trigger] o[e]).1, observed[e].1)
        && row_nonneg(o[e].1) by {
        lemma_masked_row(observed[e].1, c);
        assert(row_nonneg(observed[e].1));
    }
    assert forall|e: int, k: int|
        0 <= e < observed.len() && 0 <= k < observed[e].1.len() && (#[trigger] o[e].1[k]).1
            != 0 as real implies satisfies(c, observed[e].1[k].0) by {
        lemma_masked_row(observed[e].1, c);
        assert(masked_row(observed[e].1, c)[k].1 != 0 as real);
    }
}

/// What is known of a transition after dead-state elimination: the
/// distribution has the keys of the base model, and a weight is 0, or it is
/// that of the base model, its target passes the hidden constraint of the
/// position, can emit something there, and can go on at the next position.
pub proof fn lemma_consistent_entry(
    hidden: DistModel,
    observed: DistModel,
    hidden_constraints: Seq<ConstraintModel>,
    observed_constraints: Seq<ConstraintModel>,
    length: nat,
    i: int,
    j: int,
    k: int,
)
    requires
        hidden_constraints.len() == length,
        observed_constraints.len() == length,
        0 <= i < length,
        0 <= j < hidden.len(),
        0 <= k < hidden[j].1.len(),
    ensures
        ({
            let all = consistent_hidden(
                hidden,
                observed,
                hidden_constraints,
                observed_constraints,
                length,
            );
            let o = masked_observed(observed, observed_constraints, length);
            let p = all[i];
            let t = hidden[j].1[k].0;
            &&& all.len() == length
            &&& p.len() == hidden.len()
            &&& p[j].0 == hidden[j].0
            &&& p[j].1.len() == hidden[j].1.len()
            &&& p[j].1[k].0 == t
            &&& (p[j].1[k].1 == 0 as real || {
                &&& p[j].1[k].1 == hidden[j].1[k].1
                &&& satisfies(hidden_constraints[i], t)
                &&& !dead_in(totals(o[i]), t, false)
                &&& i + 1 < length ==> !dead_in(totals(all[i + 1]), t, true)
            })
        }),
{
    let h = masked_each(copies(hidden, length), hidden_constraints);
    let o = masked_observed(observed, observed_constraints, length);
    let e = emission_pruned(h, o);
    let all = consistent_hidden(hidden, observed, hidden_constraints, observed_constraints, length);
    assert(all == transition_pruned(e));
    assert(all[i] == transition_pruned_at(e, i));
    assert(h[i] == masked(hidden, hidden_constraints[i]));
    assert(e[i] == pruned(h[i], totals(o[i]), false));
    assert(h[i][j].1 == masked_row(hidden[j].1, hidden_constraints[i]));
    assert(e[i][j].1 == pruned_row(h[i][j].1, totals(o[i]), false));
    if i + 1 < length {
        assert(all[i + 1] == transition_pruned_at(e, i + 1));
        assert(all[i] == pruned(e[i], totals(all[i + 1]), true));
        assert(all[i][j].1 == pruned_row(e[i][j].1, totals(all[i + 1]), true));
    } else {
        assert(all[i] == e[i]);
    }
}

/// After dead-state elimination no transition has a negative weight.
pub proof fn lemma_consistent_nonneg(
    hidden: DistModel,
    observed: DistModel,
    hidden_constraints: Seq<ConstraintModel>,
    observed_constraints: Seq<ConstraintModel>,
    length: nat,
    i: int,
)
    requires
        nonneg(hidden),
        hidden_constraints.len() == length,
        observed_constraints.len() == length,
        0 <= i < length,
    ensures
        ({
            let p = consistent_hidden(
                hidden,
                observed,
                hidden_constraints,
                observed_constraints,
                length,
            )[i];
            &&& same_keys(p, hidden)
            &&& nonneg(p)
            &&& forall|j: int| 0 <= j < hidden.len() ==> same_keys((#[trigger] p[j]).1, hidden[j].1)
        }),
{
    let p = consistent_hidden(hidden, observed, hidden_constraints, observed_constraints, length)[i];
    lemma_consistent_shape(hidden, observed, hidden_constraints, observed_constraints, length, i);
    assert forall|j: int| 0 <= j < hidden.len() implies same_keys((#[trigger] p[j]).1, hidden[j].1)
        && row_nonneg(p[j].1) by {
        assert(row_nonneg(hidden[j].1));
        assert forall|k: int| 0 <= k < hidden[j].1.len() implies (#[trigger] p[j].1[k]).0
            == hidden[j].1[k].0 && p[j].1[k].1 >= 0 as real by {
            lemma_consistent_entry(
                hidden,
                observed,
                hidden_constraints,
                observed_constraints,
                length,
                i,
                j,
                k,
            );
            assert(hidden[j].1[k].1 >= 0 as real);
        }
    }
}

/// After dead-state elimination a distribution has the rows of the base
/// model, each with the row's key and as many entries.
pub proof fn lemma_consistent_shape(
    hidden: DistModel,
    observed: DistModel,
    hidden_constraints: Seq<ConstraintModel>,
    observed_constraints: Seq<ConstraintModel>,
    length: nat,
    i: int,
)
    requires
        hidden_constraints.len() == length,
        observed_constraints.len() == length,
        0 <= i < length,
    ensures
        ({
            let all = consistent_hidden(
                hidden,
                observed,
                hidden_constraints,
                observed_constraints,
                length,
            );
            &&& all.len() == length
            &&& same_keys(all[i], hidden)
            &&& forall|j: int|
                0 <= j < hidden.len() ==> (#[trigger] all[i][j]).1.len() == hidden[j].1.len()
        }),
{
    let h = masked_each(copies(hidden, length), hidden_constraints);
    let o = masked_observed(observed, observed_constraints, length);
    let e = emission_pruned(h, o);
    let all = consistent_hidden(hidden, observed, hidden_constraints, observed_constraints, length);
    assert(all == transition_pruned(e));
    assert(all[i] == transition_pruned_at(e, i));
    assert(h[i] == masked(hidden, hidden_constraints[i]));
    assert(e[i] == pruned(h[i], totals(o[i]), false));
    if i + 1 < length {
        assert(all[i] == pruned(e[i], totals(transition_pruned_at(e, i + 1)), true));
    } else {
        assert(all[i] == e[i]);
    }
    assert forall|j: int| 0 <= j < hidden.len() implies (#[trigger] all[i][j]).0 == hidden[j].0
        && all[i][j].1.len() == hidden[j].1.len() by {
        assert(h[i][j].1 == masked_row(hidden[j].1, hidden_constraints[i]));
        assert(e[i][j].1 == pruned_row(h[i][j].1, totals(o[i]), false));
    }
}

/// The tables of totals before renormalization: the totals of the
/// emissions of a position have the keys of the base model's emissions and
/// no negative weight.
pub proof fn lemma_betas(
    observed: DistModel,
    observed_constraints: Seq<ConstraintModel>,
    length: nat,
    i: int,
)
    requires
        nonneg(observed),
        observed_constraints.len() == length,
        0 <= i < length,
    ensures
        same_keys(totals(masked_observed(observed, observed_constraints, length)[i]), observed),
        row_nonneg(totals(masked_observed(observed, observed_constraints, length)[i])),
{
    lemma_masked_observed(observed, observed_constraints, length, i);
    let o = masked_observed(observed, observed_constraints, length)[i];
    assert forall|e: int| 0 <= e < o.len() implies (#[trigger] totals(o)[e]).1 >= 0 as real
        && totals(o)[e].0 == observed[e].0 by {
        assert(row_nonneg(o[e].1));
        lemma_row_total_nonneg(o[e].1);
    }
}

} // verus!
