//! What counting keeps true of a pair of distributions.

use crate::laws::{covered, stochastic};
use crate::model::{
    counted, distinct, index_of, lemma_index_of, lemma_index_of_same_keys,
    lemma_same_shape_distinct, lemma_scaled_sums_to_one, lemma_normalized_shape, lemma_stored_distinct,
    lookup, nonneg, normalized, row_nonneg, row_total, same_keys, scaled_row, stored, stored_row,
    DistModel, RowModel,
};
use vstd::prelude::*;

verus! {

/// Whether every row of the distribution has a total greater than 0.
pub open spec fn positive_rows(d: DistModel) -> bool {
    forall|j: int| 0 <= j < d.len() ==> row_total((#[trigger] d[j]).1) > 0 as real
}

/// Whether the pair of counts is as counting leaves it: no weight is
/// negative, every row has counted something, and every hidden context that
/// a transition leads to has a row of emissions.
pub open spec fn counts_ok(h: DistModel, o: DistModel) -> bool {
    &&& distinct(h)
    &&& distinct(o)
    &&& nonneg(h)
    &&& nonneg(o)
    &&& positive_rows(h)
    &&& positive_rows(o)
    &&& covered(h, o)
}

/// The total of a row with one more entry.
pub proof fn lemma_total_push(r: RowModel, e: (Seq<char>, real))
    ensures
        row_total(r.push(e)) == row_total(r) + e.1,
{
    assert(r.push(e).drop_last() == r);
}

/// The total of a row in which one weight was replaced.
pub proof fn lemma_total_update(r: RowModel, k: int, e: (Seq<char>, real))
    requires
        0 <= k < r.len(),
    ensures
        row_total(r.update(k, e)) == row_total(r) - r[k].1 + e.1,
    decreases r.len(),
{
    let u = r.update(k, e);
    if k == r.len() - 1 {
        assert(u.drop_last() == r.drop_last());
    } else {
        lemma_total_update(r.drop_last(), k, e);
        assert(u.drop_last() == r.drop_last().update(k, e));
        assert(r.drop_last()[k] == r[k]);
    }
}

/// A key is found in a table after storing or pushing exactly if it was
/// found before or is the key stored.
pub proof fn lemma_stored_keys(
    d: DistModel,
    context: Seq<char>,
    target: Seq<char>,
    w: real,
    key: Seq<char>,
)
    ensures
        index_of(stored(d, context, target, w), key) is Some <==> (index_of(d, key) is Some || key
            == context),
{
    let s = stored(d, context, target, w);
    lemma_index_of(d, context);
    lemma_index_of(d, key);
    lemma_index_of(s, key);
    match index_of(d, context) {
        Some(i) => {
            assert(same_keys(s, d)) by {
                assert forall|x: int| 0 <= x < d.len() implies (#[trigger] s[x]).0 == (#[trigger] d[x]).0 by {}
            }
            lemma_index_of_same_keys(s, d, key);
        },
        None => {
            if index_of(d, key) is Some {
                let x = index_of(d, key).unwrap();
                assert(s[x] == d[x]);
                if index_of(s, key) is None {
                    assert(s[x].0 != key);
                }
            } else if key == context {
                assert(s[d.len() as int].0 == key);
                if index_of(s, key) is None {
                    assert(s[d.len() as int].0 != key);
                }
            } else {
                if index_of(s, key) is Some {
                    let x = index_of(s, key).unwrap();
                    if x < d.len() {
                        assert(s[x] == d[x]);
                        assert(d[x].0 != key);
                    }
                }
            }
        },
    }
}

/// Counting a sighting keeps weights from being negative and rows from
/// being empty of counts, and adds no other target than the one counted.
pub proof fn lemma_counted(d: DistModel, context: Seq<char>, target: Seq<char>)
    requires
        nonneg(d),
        positive_rows(d),
    ensures
        nonneg(counted(d, context, target)),
        positive_rows(counted(d, context, target)),
        forall|j: int, k: int|
            #![trigger counted(d, context, target)[j].1[k]]
            0 <= j < counted(d, context, target).len() && 0 <= k < counted(
                d,
                context,
                target,
            )[j].1.len() ==> counted(d, context, target)[j].1[k].0 == target || (j < d.len() && k
                < d[j].1.len() && counted(d, context, target)[j].1[k].0 == d[j].1[k].0),
{
    let seen = match lookup(d, context, target) {
        Some(x) => x,
        None => 0 as real,
    };
    let w = seen + 1 as real;
    let c = counted(d, context, target);
    assert(c == stored(d, context, target, w));
    lemma_index_of(d, context);
    match index_of(d, context) {
        Some(i) => {
            let r = d[i].1;
            lemma_index_of(r, target);
            assert(row_nonneg(r));
            let r2 = stored_row(r, target, w);
            match index_of(r, target) {
                Some(k) => {
                    assert(r[k].1 >= 0 as real);
                    lemma_total_update(r, k, (target, w));
                },
                None => {
                    lemma_total_push(r, (target, w));
                },
            }
            assert(row_total(r) > 0 as real);
            assert(row_total(r2) > 0 as real);
            assert(row_nonneg(r2)) by {
                assert forall|k: int| 0 <= k < r2.len() implies (#[trigger] r2[k]).1 >= 0 as real by {
                    if k < r.len() {
                        assert(r[k].1 >= 0 as real);
                    }
                }
            }
            assert forall|j: int| 0 <= j < c.len() implies row_nonneg((#[trigger] c[j]).1)
                && row_total(c[j].1) > 0 as real by {
                if j != i {
                    assert(c[j] == d[j]);
                    assert(row_nonneg(d[j].1));
                }
            }
            assert forall|j: int, k: int|
                #![trigger c[j].1[k]]
                0 <= j < c.len() && 0 <= k < c[j].1.len() implies c[j].1[k].0 == target || (j
                < d.len() && k < d[j].1.len() && c[j].1[k].0 == d[j].1[k].0) by {
                if j != i {
                    assert(c[j] == d[j]);
                }
            }
        },
        None => {
            let r2 = seq![(target, w)];
            assert(r2.drop_last() =~= Seq::<(Seq<char>, real)>::empty());
            assert(row_total(r2.drop_last()) == 0 as real);
            assert(row_total(r2) == w);
            assert forall|j: int| 0 <= j < c.len() implies row_nonneg((#[trigger] c[j]).1)
                && row_total(c[j].1) > 0 as real by {
                if j < d.len() {
                    assert(c[j] == d[j]);
                    assert(row_nonneg(d[j].1));
                } else {
                    assert(c[j].1 == r2);
                }
            }
            assert forall|j: int, k: int|
                #![trigger c[j].1[k]]
                0 <= j < c.len() && 0 <= k < c[j].1.len() implies c[j].1[k].0 == target || (j
                < d.len() && k < d[j].1.len() && c[j].1[k].0 == d[j].1[k].0) by {
                if j < d.len() {
                    assert(c[j] == d[j]);
                } else {
                    assert(c[j].1 == r2);
                }
            }
        },
    }
}

/// Counting a sighting repeats no key.
pub proof fn lemma_counted_distinct(d: DistModel, context: Seq<char>, target: Seq<char>)
    requires
        distinct(d),
    ensures
        distinct(counted(d, context, target)),
{
    let seen = match lookup(d, context, target) {
        Some(x) => x,
        None => 0 as real,
    };
    lemma_stored_distinct(d, context, target, seen + 1 as real);
}

/// Counting one step of a line keeps the counts in order.
pub proof fn lemma_step_counts_ok(
    h: DistModel,
    o: DistModel,
    context: Seq<char>,
    hidden: Seq<char>,
    observed: Seq<char>,
)
    requires
        counts_ok(h, o),
    ensures
        counts_ok(counted(h, context, hidden), counted(o, hidden, observed)),
{
    let h2 = counted(h, context, hidden);
    let o2 = counted(o, hidden, observed);
    lemma_counted(h, context, hidden);
    lemma_counted(o, hidden, observed);
    lemma_counted_distinct(h, context, hidden);
    lemma_counted_distinct(o, hidden, observed);
    assert forall|j: int, k: int|
        0 <= j < h2.len() && 0 <= k < h2[j].1.len() implies index_of(o2, (#[trigger] h2[j].1[k]).0)
        is Some by {
        let t = h2[j].1[k].0;
        let seen = match lookup(o, hidden, observed) {
            Some(x) => x,
            None => 0 as real,
        };
        lemma_stored_keys(o, hidden, observed, seen + 1 as real, t);
        if t != hidden {
            assert(index_of(o, h[j].1[k].0) is Some);
        }
    }
}

/// Dividing every row by its total turns counts that are in order into
/// distributions without negative weights whose rows sum to 1.
pub proof fn lemma_normalized_counts(h: DistModel, o: DistModel)
    requires
        counts_ok(h, o),
    ensures
        distinct(normalized(h)),
        distinct(normalized(o)),
        nonneg(normalized(h)),
        nonneg(normalized(o)),
        stochastic(normalized(h)),
        stochastic(normalized(o)),
        covered(normalized(h), normalized(o)),
{
    lemma_normalized_rows(h);
    lemma_normalized_rows(o);
    lemma_normalized_shape(h);
    lemma_normalized_shape(o);
    lemma_same_shape_distinct(normalized(h), h);
    lemma_same_shape_distinct(normalized(o), o);
    let h2 = normalized(h);
    let o2 = normalized(o);
    assert(same_keys(o2, o)) by {
        assert forall|x: int| 0 <= x < o.len() implies (#[trigger] o2[x]).0 == (#[trigger] o[x]).0 by {}
    }
    assert forall|j: int, k: int|
        0 <= j < h2.len() && 0 <= k < h2[j].1.len() implies index_of(o2, (#[trigger] h2[j].1[k]).0)
        is Some by {
        assert(h2[j].1 == scaled_row(h[j].1, row_total(h[j].1)));
        assert(row_total(h[j].1) > 0 as real);
        assert(h2[j].1[k].0 == h[j].1[k].0);
        assert(index_of(o, h[j].1[k].0) is Some);
        lemma_index_of_same_keys(o2, o, h2[j].1[k].0);
    }
}

/// Dividing rows with positive totals by their totals.
pub proof fn lemma_normalized_rows(d: DistModel)
    requires
        nonneg(d),
        positive_rows(d),
    ensures
        nonneg(normalized(d)),
        stochastic(normalized(d)),
{
    let n = normalized(d);
    assert forall|j: int| 0 <= j < d.len() implies row_nonneg((#[trigger] n[j]).1) && row_total(
        n[j].1,
    ) == 1 as real by {
        let r = d[j].1;
        let total = row_total(r);
        assert(total > 0 as real);
        assert(row_nonneg(r));
        lemma_scaled_sums_to_one(r);
        assert forall|k: int| 0 <= k < r.len() implies (#[trigger] scaled_row(r, total)[k]).1
            >= 0 as real by {
            let v = r[k].1;
            assert(v >= 0 as real);
            assert(v / total >= 0 as real) by (nonlinear_arith)
                requires
                    v >= 0 as real,
                    total > 0 as real,
            ;
        }
    }
}

} // verus!
