//! The mathematics of distributions: tables from keys to real weights, kept
//! in the order in which their keys were first seen.

use crate::constraints::{satisfies, ConstraintModel};
use vstd::prelude::*;

verus! {

/// A table from keys to weights, in enumeration order.
pub type RowModel = Seq<(Seq<char>, real)>;

/// A table from context keys to rows, in enumeration order.
pub type DistModel = Seq<(Seq<char>, RowModel)>;

/// The position of the first item of `s` with the key `key`.
pub open spec fn index_of<T>(s: Seq<(Seq<char>, T)>, key: Seq<char>) -> Option<int>
    decreases s.len(),
{
    if s.len() == 0 {
        None
    } else if s[0].0 == key {
        Some(0int)
    } else {
        match index_of(s.skip(1), key) {
            Some(i) => Some(i + 1),
            None => None,
        }
    }
}

/// What `index_of` gives: the first position with the key, or nothing where
/// no position has it.
pub proof fn lemma_index_of<T>(s: Seq<(Seq<char>, T)>, key: Seq<char>)
    ensures
        match index_of(s, key) {
            Some(i) => 0 <= i < s.len() && s[i].0 == key && forall|j: int|
                0 <= j < i ==> (#[trigger] s[j]).0 != key,
            None => forall|j: int| 0 <= j < s.len() ==> (#[trigger] s[j]).0 != key,
        },
    decreases s.len(),
{
    if s.len() > 0 && s[0].0 != key {
        let rest = s.skip(1);
        lemma_index_of(rest, key);
        match index_of(rest, key) {
            Some(i) => {
                assert(rest[i] == s[i + 1]);
                assert forall|j: int| 0 <= j < i + 1 implies (#[trigger] s[j]).0 != key by {
                    if j > 0 {
                        assert(rest[j - 1] == s[j]);
                    }
                }
            },
            None => {
                assert forall|j: int| 0 <= j < s.len() implies (#[trigger] s[j]).0 != key by {
                    if j > 0 {
                        assert(rest[j - 1] == s[j]);
                    }
                }
            },
        }
    }
}

/// The first position with the key is the one that `index_of` gives.
pub proof fn lemma_index_of_found<T>(s: Seq<(Seq<char>, T)>, key: Seq<char>, i: int)
    requires
        0 <= i < s.len(),
        s[i].0 == key,
        forall|j: int| 0 <= j < i ==> (#[trigger] s[j]).0 != key,
    ensures
        index_of(s, key) == Some(i),
{
    lemma_index_of(s, key);
}

/// A key that no position has is not found.
pub proof fn lemma_index_of_absent<T>(s: Seq<(Seq<char>, T)>, key: Seq<char>)
    requires
        forall|j: int| 0 <= j < s.len() ==> (#[trigger] s[j]).0 != key,
    ensures
        index_of(s, key) is None,
{
    lemma_index_of(s, key);
}

/// Whether two tables have the same keys in the same order.
pub open spec fn same_keys<S, T>(a: Seq<(Seq<char>, S)>, b: Seq<(Seq<char>, T)>) -> bool {
    a.len() == b.len() && forall|i: int| 0 <= i < a.len() ==> (#[trigger] a[i]).0 == (#[trigger] b[i]).0
}

/// Tables with the same keys find every key at the same position.
pub proof fn lemma_index_of_same_keys<S, T>(
    a: Seq<(Seq<char>, S)>,
    b: Seq<(Seq<char>, T)>,
    key: Seq<char>,
)
    requires
        same_keys(a, b),
    ensures
        index_of(a, key) == index_of(b, key),
{
    lemma_index_of(a, key);
    lemma_index_of(b, key);
    match index_of(a, key) {
        Some(i) => {
            assert(b[i].0 == a[i].0);
            match index_of(b, key) {
                Some(j) => {
                    if j < i {
                        assert(a[j].0 == b[j].0);
                    } else if i < j {
                        assert(b[i].0 == key);
                    }
                },
                None => {},
            }
        },
        None => {
            match index_of(b, key) {
                Some(j) => {
                    assert(a[j].0 == b[j].0);
                },
                None => {},
            }
        },
    }
}

/// Whether no key occurs twice in the table.
pub open spec fn distinct_keys<T>(s: Seq<(Seq<char>, T)>) -> bool {
    forall|i: int, j: int| 0 <= i < j < s.len() ==> (#[trigger] s[i]).0 != (#[trigger] s[j]).0
}

/// The weight that a table gives to a key; 0 for a key that it lacks.
pub open spec fn weight_or_zero(r: RowModel, key: Seq<char>) -> real {
    match index_of(r, key) {
        Some(i) => r[i].1,
        None => 0 as real,
    }
}

/// The weight of `target` in the row of `context`, where there is one.
pub open spec fn lookup(d: DistModel, context: Seq<char>, target: Seq<char>) -> Option<real> {
    match index_of(d, context) {
        Some(i) => match index_of(d[i].1, target) {
            Some(k) => Some(d[i].1[k].1),
            None => None,
        },
        None => None,
    }
}

/// The row in which `target` has the weight `w`: in place where the row has
/// the key, at the end where it lacks it.
pub open spec fn stored_row(r: RowModel, target: Seq<char>, w: real) -> RowModel {
    match index_of(r, target) {
        Some(k) => r.update(k, (target, w)),
        None => r.push((target, w)),
    }
}

/// The distribution in which `target` has the weight `w` in the row of
/// `context`; a context that is new gets a row at the end.
pub open spec fn stored(d: DistModel, context: Seq<char>, target: Seq<char>, w: real) -> DistModel {
    match index_of(d, context) {
        Some(i) => d.update(i, (context, stored_row(d[i].1, target, w))),
        None => d.push((context, seq![(target, w)])),
    }
}

/// The distribution after one more sighting of `target` after `context`.
pub open spec fn counted(d: DistModel, context: Seq<char>, target: Seq<char>) -> DistModel {
    let seen = match lookup(d, context, target) {
        Some(x) => x,
        None => 0 as real,
    };
    stored(d, context, target, seen + 1 as real)
}

/// The sum of the weights of a row.
pub open spec fn row_total(r: RowModel) -> real
    decreases r.len(),
{
    if r.len() == 0 {
        0 as real
    } else {
        row_total(r.drop_last()) + r.last().1
    }
}

/// Whether no weight of the row is negative.
pub open spec fn row_nonneg(r: RowModel) -> bool {
    forall|k: int| 0 <= k < r.len() ==> (#[trigger] r[k]).1 >= 0 as real
}

/// Whether every weight of the row is 0.
pub open spec fn row_all_zero(r: RowModel) -> bool {
    forall|k: int| 0 <= k < r.len() ==> (#[trigger] r[k]).1 == 0 as real
}

/// Whether no weight of the distribution is negative.
pub open spec fn nonneg(d: DistModel) -> bool {
    forall|i: int| 0 <= i < d.len() ==> row_nonneg((#[trigger] d[i]).1)
}

/// Whether no context occurs twice, and in no row a target.
pub open spec fn distinct(d: DistModel) -> bool {
    distinct_keys(d) && forall|i: int| 0 <= i < d.len() ==> distinct_keys((#[trigger] d[i]).1)
}

/// Whether two distributions have the same contexts in the same order, and
/// in the row of each context the same targets in the same order.
pub open spec fn same_shape(a: DistModel, b: DistModel) -> bool {
    same_keys(a, b) && forall|j: int| 0 <= j < a.len() ==> same_keys((#[trigger] a[j]).1, b[j].1)
}

/// A distribution with the shape of one without repeated keys has no
/// repeated keys.
pub proof fn lemma_same_shape_distinct(a: DistModel, b: DistModel)
    requires
        same_shape(a, b),
        distinct(b),
    ensures
        distinct(a),
{
    assert forall|i: int, j: int| 0 <= i < j < a.len() implies (#[trigger] a[i]).0 != (
    #[trigger] a[j]).0 by {
        assert(a[i].0 == b[i].0);
        assert(a[j].0 == b[j].0);
    }
    assert forall|r: int| 0 <= r < a.len() implies distinct_keys((#[trigger] a[r]).1) by {
        let x = a[r].1;
        let y = b[r].1;
        assert(same_keys(x, y));
        assert(distinct_keys(y));
        assert forall|i: int, j: int| 0 <= i < j < x.len() implies (#[trigger] x[i]).0 != (
        #[trigger] x[j]).0 by {
            assert(x[i].0 == y[i].0);
            assert(x[j].0 == y[j].0);
        }
    }
}

/// Masking keeps the shape of a distribution.
pub proof fn lemma_masked_shape(d: DistModel, c: ConstraintModel)
    ensures
        same_shape(masked(d, c), d),
{
}

/// Pruning keeps the shape of a distribution.
pub proof fn lemma_pruned_shape(d: DistModel, table: RowModel, absent_is_dead: bool)
    ensures
        same_shape(pruned(d, table, absent_is_dead), d),
{
}

/// Dividing every row by its total keeps the shape of a distribution.
pub proof fn lemma_normalized_shape(d: DistModel)
    ensures
        same_shape(normalized(d), d),
{
    assert forall|j: int| 0 <= j < d.len() implies same_keys((#[trigger] normalized(d)[j]).1, d[j].1) by {
        let r = d[j].1;
        if row_total(r) != 0 as real {
            assert forall|k: int| 0 <= k < r.len() implies (#[trigger] scaled_row(r, row_total(r))[k]).0
                == r[k].0 by {}
        }
    }
}

/// Storing a weight keeps a distribution without repeated keys so.
pub proof fn lemma_stored_distinct(d: DistModel, context: Seq<char>, target: Seq<char>, w: real)
    requires
        distinct(d),
    ensures
        distinct(stored(d, context, target, w)),
{
    let s = stored(d, context, target, w);
    lemma_index_of(d, context);
    match index_of(d, context) {
        Some(i) => {
            let r = d[i].1;
            let r2 = stored_row(r, target, w);
            lemma_index_of(r, target);
            assert(distinct_keys(r));
            assert forall|a: int, b: int| 0 <= a < b < r2.len() implies (#[trigger] r2[a]).0 != (
            #[trigger] r2[b]).0 by {
                if b < r.len() {
                    assert(r[a].0 != r[b].0);
                } else {
                    assert(r[a].0 != target);
                }
            }
            assert forall|a: int, b: int| 0 <= a < b < s.len() implies (#[trigger] s[a]).0 != (
            #[trigger] s[b]).0 by {
                assert(d[a].0 != d[b].0);
            }
            assert forall|j: int| 0 <= j < s.len() implies distinct_keys((#[trigger] s[j]).1) by {
                if j != i {
                    assert(s[j] == d[j]);
                    assert(distinct_keys(d[j].1));
                }
            }
        },
        None => {
            assert forall|a: int, b: int| 0 <= a < b < s.len() implies (#[trigger] s[a]).0 != (
            #[trigger] s[b]).0 by {
                if b < d.len() {
                    assert(d[a].0 != d[b].0);
                    assert(s[a] == d[a]);
                    assert(s[b] == d[b]);
                } else {
                    assert(s[a] == d[a]);
                    assert(d[a].0 != context);
                }
            }
            assert forall|j: int| 0 <= j < s.len() implies distinct_keys((#[trigger] s[j]).1) by {
                if j < d.len() {
                    assert(s[j] == d[j]);
                    assert(distinct_keys(d[j].1));
                }
            }
        },
    }
}

/// A sum of weights that are not negative is not negative, is no less than
/// each of them, and is 0 only if all of them are.
pub proof fn lemma_row_total_nonneg(r: RowModel)
    requires
        row_nonneg(r),
    ensures
        row_total(r) >= 0 as real,
        forall|k: int| 0 <= k < r.len() ==> (#[trigger] r[k]).1 <= row_total(r),
        row_total(r) == 0 as real <==> row_all_zero(r),
    decreases r.len(),
{
    if r.len() > 0 {
        let front = r.drop_last();
        assert forall|k: int| 0 <= k < front.len() implies (#[trigger] front[k]).1 >= 0 as real by {
            assert(front[k] == r[k]);
        }
        lemma_row_total_nonneg(front);
        assert(r.last() == r[r.len() - 1]);
        assert forall|k: int| 0 <= k < r.len() implies (#[trigger] r[k]).1 <= row_total(r) by {
            if k < front.len() {
                assert(front[k] == r[k]);
            }
        }
        if row_total(r) == 0 as real {
            assert forall|k: int| 0 <= k < r.len() implies (#[trigger] r[k]).1 == 0 as real by {
                assert(r[k].1 <= row_total(r));
            }
        }
        if row_all_zero(r) {
            assert forall|k: int| 0 <= k < front.len() implies (#[trigger] front[k]).1 == 0 as real by {
                assert(front[k] == r[k]);
            }
        }
    }
}

/// The row with each weight kept where its key passes `c`, and 0 elsewhere.
pub open spec fn masked_row(r: RowModel, c: ConstraintModel) -> RowModel {
    Seq::new(
        r.len(),
        |k: int|
            (
                r[k].0,
                if satisfies(c, r[k].0) {
                    r[k].1
                } else {
                    0 as real
                },
            ),
    )
}

/// The distribution with every row masked by `c`.
pub open spec fn masked(d: DistModel, c: ConstraintModel) -> DistModel {
    Seq::new(d.len(), |i: int| (d[i].0, masked_row(d[i].1, c)))
}

/// The table that gives each context of `d` the total of its row.
pub open spec fn totals(d: DistModel) -> RowModel {
    Seq::new(d.len(), |i: int| (d[i].0, row_total(d[i].1)))
}

/// Whether the state `t` is dead according to the table of totals: its
/// total is 0, or the table lacks it and `absent_is_dead` is set.
pub open spec fn dead_in(table: RowModel, t: Seq<char>, absent_is_dead: bool) -> bool {
    match index_of(table, t) {
        Some(i) => table[i].1 == 0 as real,
        None => absent_is_dead,
    }
}

/// The row with weight 0 at every dead key, and unchanged elsewhere.
pub open spec fn pruned_row(r: RowModel, table: RowModel, absent_is_dead: bool) -> RowModel {
    Seq::new(
        r.len(),
        |k: int|
            (
                r[k].0,
                if dead_in(table, r[k].0, absent_is_dead) {
                    0 as real
                } else {
                    r[k].1
                },
            ),
    )
}

/// The distribution without the transitions into dead states.
pub open spec fn pruned(d: DistModel, table: RowModel, absent_is_dead: bool) -> DistModel {
    Seq::new(d.len(), |i: int| (d[i].0, pruned_row(d[i].1, table, absent_is_dead)))
}

/// The row with each weight divided by `total`; unchanged where `total` is 0.
pub open spec fn scaled_row(r: RowModel, total: real) -> RowModel {
    if total == 0 as real {
        r
    } else {
        Seq::new(r.len(), |k: int| (r[k].0, r[k].1 / total))
    }
}

/// The distribution with each row divided by its total.
pub open spec fn normalized(d: DistModel) -> DistModel {
    Seq::new(d.len(), |i: int| (d[i].0, scaled_row(d[i].1, row_total(d[i].1))))
}

/// The sum of the weights of a row after each was divided by `total`.
pub proof fn lemma_scaled_total(r: RowModel, total: real)
    requires
        total != 0 as real,
    ensures
        row_total(scaled_row(r, total)) == row_total(r) / total,
    decreases r.len(),
{
    let s = scaled_row(r, total);
    if r.len() == 0 {
        assert(0 as real / total == 0 as real) by (nonlinear_arith)
            requires
                total != 0 as real,
        ;
    } else {
        lemma_scaled_total(r.drop_last(), total);
        assert(s.drop_last() =~= scaled_row(r.drop_last(), total));
        let a = row_total(r.drop_last());
        let b = r.last().1;
        assert(a / total + b / total == (a + b) / total) by (nonlinear_arith)
            requires
                total != 0 as real,
        ;
    }
}

/// A row divided by its own total sums to 1.
pub proof fn lemma_scaled_sums_to_one(r: RowModel)
    requires
        row_total(r) != 0 as real,
    ensures
        row_total(scaled_row(r, row_total(r))) == 1 as real,
{
    lemma_scaled_total(r, row_total(r));
    let t = row_total(r);
    assert(t / t == 1 as real) by (nonlinear_arith)
        requires
            t != 0 as real,
    ;
}

} // verus!
