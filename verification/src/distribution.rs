//! Distributions as they are stored: rows of weighted keys, in the order in
//! which the keys were first seen.

use crate::constraints::{check, model_of, AnyConstraint};
use crate::errors::LookupError;
use crate::model::{
    counted, dead_in, distinct, index_of, lemma_index_of_absent, lemma_index_of_found,
    lemma_same_shape_distinct, lemma_masked_shape, lemma_normalized_shape, lemma_pruned_shape, lemma_stored_distinct, lookup, masked, masked_row,
    nonneg, normalized, pruned, pruned_row, row_total, scaled_row, stored, stored_row, totals,
    weight_or_zero, DistModel, RowModel,
};
use crate::positional::{
    alphas_of, factor, lemma_rescaled_shape, rescaled, rescaled_row, weighted_total,
};
use crate::walk::find_weight;
use crate::weight::Weight;
use vstd::prelude::*;

verus! {

/// A key with its weight.
#[derive(Debug)]
pub struct Entry {
    pub key: String,
    pub weight: Weight,
}

/// A context key with the weights of its targets.
#[derive(Debug)]
pub struct Row {
    pub key: String,
    pub entries: Vec<Entry>,
}

/// A table from context keys to tables from target keys to weights.
#[derive(Debug)]
pub struct Distribution {
    pub rows: Vec<Row>,
}

/// What a stored table stands for.
pub open spec fn table_model(entries: Seq<Entry>) -> RowModel {
    Seq::new(entries.len(), |k: int| (entries[k].key@, entries[k].weight.value()))
}

impl Row {
    /// What the row stands for: its key and its table.
    pub open spec fn model(&self) -> (Seq<char>, RowModel) {
        (self.key@, table_model(self.entries@))
    }
}

impl View for Distribution {
    type V = DistModel;

    open spec fn view(&self) -> DistModel {
        Seq::new(self.rows@.len(), |i: int| self.rows@[i].model())
    }
}

/// What a list of distributions stands for.
pub open spec fn models_of(ds: Seq<Distribution>) -> Seq<DistModel> {
    Seq::new(ds.len(), |i: int| ds[i]@)
}

/// The position of the first entry with the key `key`.
pub fn find_entry(entries: &Vec<Entry>, key: &str) -> (r: Option<usize>)
    ensures
        match r {
            Some(k) => k < entries.len() && entries[k as int].key@ == key@ && index_of(
                table_model(entries@),
                key@,
            ) == Some(k as int),
            None => index_of(table_model(entries@), key@) is None,
        },
{
    let ghost table = table_model(entries@);
    let wanted: String = key.to_owned();
    let mut k: usize = 0;
    while k < entries.len()
        invariant
            k <= entries.len(),
            table == table_model(entries@),
            wanted@ == key@,
            forall|j: int| 0 <= j < k ==> (#[trigger] table[j]).0 != key@,
        decreases entries.len() - k,
    {
        if entries[k].key == wanted {
            proof {
                assert(table[k as int].0 == key@);
                lemma_index_of_found(table, key@, k as int);
            }
            return Some(k);
        }
        k += 1;
    }
    proof {
        lemma_index_of_absent(table, key@);
    }
    None
}

/// The weight that the table gives to `key`; 0 for a key that it lacks.
pub fn weight_in(entries: &Vec<Entry>, key: &str) -> (r: Weight)
    ensures
        r.value() == weight_or_zero(table_model(entries@), key@),
{
    match find_entry(entries, key) {
        Some(k) => entries[k].weight.duplicate(),
        None => Weight::zero(),
    }
}

/// The sum of the weights of a table.
pub fn table_total(entries: &Vec<Entry>) -> (r: Weight)
    ensures
        r.value() == row_total(table_model(entries@)),
{
    let ghost table = table_model(entries@);
    let mut sum = Weight::zero();
    let mut k: usize = 0;
    while k < entries.len()
        invariant
            k <= entries.len(),
            table == table_model(entries@),
            sum.value() == row_total(table.take(k as int)),
        decreases entries.len() - k,
    {
        proof {
            assert(table.take(k + 1).drop_last() == table.take(k as int));
        }
        sum = sum.plus(&entries[k].weight);
        k += 1;
    }
    proof {
        assert(table.take(k as int) == table);
    }
    sum
}

/// A copy of a table.
pub fn duplicate_table(entries: &Vec<Entry>) -> (r: Vec<Entry>)
    ensures
        table_model(r@) == table_model(entries@),
{
    let mut copy: Vec<Entry> = Vec::new();
    let mut k: usize = 0;
    while k < entries.len()
        invariant
            k <= entries.len(),
            copy.len() == k,
            forall|j: int|
                0 <= j < k ==> (#[trigger] copy[j]).key@ == entries[j].key@ && copy[j].weight.value()
                    == entries[j].weight.value(),
        decreases entries.len() - k,
    {
        copy.push(Entry { key: entries[k].key.clone(), weight: entries[k].weight.duplicate() });
        k += 1;
    }
    assert(table_model(copy@) =~= table_model(entries@));
    copy
}

/// Sets to 0 the weight of every key that fails `c`.
pub fn mask_table(entries: &mut Vec<Entry>, c: &AnyConstraint)
    ensures
        table_model(final(entries)@) == masked_row(table_model(old(entries)@), model_of(*c)),
{
    let ghost before = table_model(entries@);
    let mut k: usize = 0;
    while k < entries.len()
        invariant
            k <= entries.len(),
            entries.len() == before.len(),
            forall|j: int|
                0 <= j < k ==> (#[trigger] table_model(entries@)[j]) == masked_row(
                    before,
                    model_of(*c),
                )[j],
            forall|j: int| k <= j < entries.len() ==> (#[trigger] table_model(entries@)[j]) == before[j],
        decreases entries.len() - k,
    {
        let ghost snapshot = table_model(entries@);
        let keep = check(c, entries[k].key.as_str());
        if !keep {
            entries[k].weight = Weight::zero();
        }
        proof {
            assert(snapshot[k as int] == before[k as int]);
            assert forall|j: int| 0 <= j < entries.len() && j != k implies (
            #[trigger] table_model(entries@)[j]) == snapshot[j] by {}
        }
        k += 1;
    }
    assert(table_model(entries@) =~= masked_row(before, model_of(*c)));
}

/// Whether the table of totals calls the state `t` dead.
pub fn is_dead(table: &Vec<Entry>, t: &str, absent_is_dead: bool) -> (r: bool)
    ensures
        r == dead_in(table_model(table@), t@, absent_is_dead),
{
    match find_entry(table, t) {
        Some(k) => table[k].weight.is_zero(),
        None => absent_is_dead,
    }
}

/// Sets to 0 the weight of every key that the table of totals calls dead.
pub fn prune_table(entries: &mut Vec<Entry>, table: &Vec<Entry>, absent_is_dead: bool)
    ensures
        table_model(final(entries)@) == pruned_row(
            table_model(old(entries)@),
            table_model(table@),
            absent_is_dead,
        ),
{
    let ghost before = table_model(entries@);
    let ghost after = pruned_row(before, table_model(table@), absent_is_dead);
    let mut k: usize = 0;
    while k < entries.len()
        invariant
            k <= entries.len(),
            entries.len() == before.len(),
            after == pruned_row(before, table_model(table@), absent_is_dead),
            forall|j: int| 0 <= j < k ==> (#[trigger] table_model(entries@)[j]) == after[j],
            forall|j: int| k <= j < entries.len() ==> (#[trigger] table_model(entries@)[j]) == before[j],
        decreases entries.len() - k,
    {
        let ghost snapshot = table_model(entries@);
        let dead = is_dead(table, entries[k].key.as_str(), absent_is_dead);
        if dead {
            entries[k].weight = Weight::zero();
        }
        proof {
            assert(snapshot[k as int] == before[k as int]);
            assert forall|j: int| 0 <= j < entries.len() && j != k implies (
            #[trigger] table_model(entries@)[j]) == snapshot[j] by {}
        }
        k += 1;
    }
    assert(table_model(entries@) =~= after);
}

/// Divides every weight by `total`; leaves the table as it is where `total`
/// is 0.
pub fn scale_table(entries: &mut Vec<Entry>, total: &Weight)
    ensures
        table_model(final(entries)@) == scaled_row(table_model(old(entries)@), total.value()),
{
    if total.is_zero() {
        return ;
    }
    let ghost before = table_model(entries@);
    let ghost after = scaled_row(before, total.value());
    let mut k: usize = 0;
    while k < entries.len()
        invariant
            k <= entries.len(),
            entries.len() == before.len(),
            total.value() != 0 as real,
            after == scaled_row(before, total.value()),
            forall|j: int| 0 <= j < k ==> (#[trigger] table_model(entries@)[j]) == after[j],
            forall|j: int| k <= j < entries.len() ==> (#[trigger] table_model(entries@)[j]) == before[j],
        decreases entries.len() - k,
    {
        let ghost snapshot = table_model(entries@);
        let scaled = entries[k].weight.divided_by(total);
        entries[k].weight = scaled;
        proof {
            assert(snapshot[k as int] == before[k as int]);
            assert forall|j: int| 0 <= j < entries.len() && j != k implies (
            #[trigger] table_model(entries@)[j]) == snapshot[j] by {}
        }
        k += 1;
    }
    assert(table_model(entries@) =~= after);
}

/// What a table that may be missing stands for.
pub open spec fn optional_model(table: Option<Vec<Entry>>) -> Option<RowModel> {
    match table {
        Some(entries) => Some(table_model(entries@)),
        None => None,
    }
}

/// The mass of acceptable continuations from the state `t`.
pub fn factor_of(betas: &Vec<Entry>, next: &Option<Vec<Entry>>, t: &str) -> (r: Weight)
    ensures
        r.value() == factor(table_model(betas@), optional_model(*next), t@),
{
    let beta = weight_in(betas, t);
    match next {
        Some(alphas) => {
            let alpha = weight_in(alphas, t);
            beta.times(&alpha)
        },
        None => beta.times(&Weight::one()),
    }
}

/// The sum over a table of each weight times the factor of its target.
pub fn table_weighted_total(entries: &Vec<Entry>, betas: &Vec<Entry>, next: &Option<Vec<Entry>>) -> (r:
    Weight)
    ensures
        r.value() == weighted_total(
            table_model(entries@),
            table_model(betas@),
            optional_model(*next),
        ),
{
    let ghost table = table_model(entries@);
    let ghost b = table_model(betas@);
    let ghost n = optional_model(*next);
    let mut sum = Weight::zero();
    let mut k: usize = 0;
    while k < entries.len()
        invariant
            k <= entries.len(),
            table == table_model(entries@),
            b == table_model(betas@),
            n == optional_model(*next),
            sum.value() == weighted_total(table.take(k as int), b, n),
        decreases entries.len() - k,
    {
        proof {
            assert(table.take(k + 1).drop_last() == table.take(k as int));
        }
        let f = factor_of(betas, next, entries[k].key.as_str());
        let term = entries[k].weight.times(&f);
        sum = sum.plus(&term);
        k += 1;
    }
    proof {
        assert(table.take(k as int) == table);
    }
    sum
}

/// Multiplies each weight by the factor of its target and divides it by the
/// weighted total of the table, which is returned; a table whose weighted
/// total is 0 stays as it is.
pub fn rescale_table(entries: &mut Vec<Entry>, betas: &Vec<Entry>, next: &Option<Vec<Entry>>) -> (alpha:
    Weight)
    ensures
        alpha.value() == weighted_total(
            table_model(old(entries)@),
            table_model(betas@),
            optional_model(*next),
        ),
        table_model(final(entries)@) == rescaled_row(
            table_model(old(entries)@),
            table_model(betas@),
            optional_model(*next),
        ),
{
    let alpha = table_weighted_total(entries, betas, next);
    if alpha.is_zero() {
        return alpha;
    }
    let ghost before = table_model(entries@);
    let ghost b = table_model(betas@);
    let ghost n = optional_model(*next);
    let ghost after = rescaled_row(before, b, n);
    let mut k: usize = 0;
    while k < entries.len()
        invariant
            k <= entries.len(),
            entries.len() == before.len(),
            b == table_model(betas@),
            n == optional_model(*next),
            alpha.value() == weighted_total(before, b, n),
            alpha.value() != 0 as real,
            after == rescaled_row(before, b, n),
            forall|j: int| 0 <= j < k ==> (#[trigger] table_model(entries@)[j]) == after[j],
            forall|j: int| k <= j < entries.len() ==> (#[trigger] table_model(entries@)[j]) == before[j],
        decreases entries.len() - k,
    {
        let ghost snapshot = table_model(entries@);
        let f = factor_of(betas, next, entries[k].key.as_str());
        let scaled = entries[k].weight.times(&f).divided_by(&alpha);
        entries[k].weight = scaled;
        proof {
            assert(snapshot[k as int] == before[k as int]);
            assert forall|j: int| 0 <= j < entries.len() && j != k implies (
            #[trigger] table_model(entries@)[j]) == snapshot[j] by {}
        }
        k += 1;
    }
    assert(table_model(entries@) =~= after);
    alpha
}

impl Distribution {
    /// Whether no context occurs twice, and in no row a target: the
    /// distribution is a table from contexts to tables from targets to
    /// weights.
    pub open spec fn well_formed(&self) -> bool {
        distinct(self@)
    }

    /// No weight of a distribution is negative.
    pub proof fn lemma_nonneg(self)
        ensures
            nonneg(self@),
    {
        assert forall|i: int, k: int|
            0 <= i < self@.len() && 0 <= k < self@[i].1.len() implies (#[trigger] self@[i].1[k]).1
            >= 0 as real by {
            self.rows@[i].entries@[k].weight.lemma_nonneg();
        }
    }

    /// Rescales every row by the factors of its targets, and returns the
    /// table of the weighted totals of the rows.
    pub fn rescale(&mut self, betas: &Vec<Entry>, next: &Option<Vec<Entry>>) -> (alphas: Vec<Entry>)
        ensures
            final(self)@ == rescaled(old(self)@, table_model(betas@), optional_model(*next)),
            old(self).well_formed() ==> final(self).well_formed(),
            table_model(alphas@) == alphas_of(
                old(self)@,
                table_model(betas@),
                optional_model(*next),
            ),
    {
        let ghost before = self@;
        let ghost b = table_model(betas@);
        let ghost n = optional_model(*next);
        let mut alphas: Vec<Entry> = Vec::new();
        let mut i: usize = 0;
        while i < self.rows.len()
            invariant
                i <= self.rows.len(),
                self.rows.len() == before.len(),
                b == table_model(betas@),
                n == optional_model(*next),
                alphas.len() == i,
                forall|j: int| 0 <= j < i ==> (#[trigger] table_model(alphas@)[j]) == alphas_of(before, b, n)[j],
                forall|j: int| 0 <= j < i ==> (#[trigger] self@[j]) == rescaled(before, b, n)[j],
                forall|j: int| i <= j < self.rows.len() ==> (#[trigger] self@[j]) == before[j],
            decreases self.rows.len() - i,
        {
            let ghost snapshot = self@;
            let ghost seen = table_model(alphas@);
            let alpha = rescale_table(&mut self.rows[i].entries, betas, next);
            alphas.push(Entry { key: self.rows[i].key.clone(), weight: alpha });
            proof {
                assert(snapshot[i as int] == before[i as int]);
                assert forall|j: int| 0 <= j < self.rows.len() && j != i implies (#[trigger] self@[j])
                    == snapshot[j] by {}
                assert forall|j: int| 0 <= j < i implies (#[trigger] table_model(alphas@)[j])
                    == seen[j] by {}
            }
            i += 1;
        }
        assert(self@ =~= rescaled(before, b, n));
        assert(table_model(alphas@) =~= alphas_of(before, b, n));
        proof {
            lemma_rescaled_shape(before, b, n);
            if distinct(before) {
                lemma_same_shape_distinct(self@, before);
            }
        }
        alphas
    }

    /// The distribution without any context.
    pub fn new() -> (r: Distribution)
        ensures
            r@ == Seq::<(Seq<char>, RowModel)>::empty(),
    {
        let r = Distribution { rows: Vec::new() };
        assert(r@ =~= Seq::<(Seq<char>, RowModel)>::empty());
        r
    }

    /// Removes every context.
    pub fn clear(&mut self)
        ensures
            final(self)@ == Seq::<(Seq<char>, RowModel)>::empty(),
    {
        self.rows = Vec::new();
        assert(self@ =~= Seq::<(Seq<char>, RowModel)>::empty());
    }

    /// The number of contexts.
    pub fn len(&self) -> (r: usize)
        ensures
            r == self@.len(),
    {
        self.rows.len()
    }

    /// The position of the row of `context`.
    pub fn find_row(&self, context: &str) -> (r: Option<usize>)
        ensures
            match r {
                Some(i) => i < self.rows.len() && self.rows[i as int].key@ == context@
                    && index_of(self@, context@) == Some(i as int),
                None => index_of(self@, context@) is None,
            },
    {
        let wanted: String = context.to_owned();
        let mut i: usize = 0;
        while i < self.rows.len()
            invariant
                i <= self.rows.len(),
                wanted@ == context@,
                forall|j: int| 0 <= j < i ==> (#[trigger] self@[j]).0 != context@,
            decreases self.rows.len() - i,
        {
            if self.rows[i].key == wanted {
                proof {
                    assert(self@[i as int].0 == context@);
                    lemma_index_of_found(self@, context@, i as int);
                }
                return Some(i);
            }
            i += 1;
        }
        proof {
            lemma_index_of_absent(self@, context@);
        }
        None
    }

    /// Whether there is a row for `context`.
    pub fn contains_key(&self, context: &str) -> (r: bool)
        ensures
            r == index_of(self@, context@).is_some(),
    {
        self.find_row(context).is_some()
    }

    /// The weight of `target` in the row of `context`, where there is one.
    pub fn get(&self, context: &str, target: &str) -> (r: Option<Weight>)
        ensures
            match r {
                Some(w) => lookup(self@, context@, target@) == Some(w.value()),
                None => lookup(self@, context@, target@) is None,
            },
    {
        match self.find_row(context) {
            Some(i) => match find_entry(&self.rows[i].entries, target) {
                Some(k) => Some(self.rows[i].entries[k].weight.duplicate()),
                None => None,
            },
            None => None,
        }
    }

    /// The weight of `target` in the row of `context`, or what is missing.
    pub fn find_weight(&self, context: &str, target: &str) -> (r: Result<Weight, LookupError>)
        ensures
            match find_weight(self@, context@, target@) {
                Ok(x) => r matches Ok(w) && w.value() == x,
                Err(e) => r matches Err(f) && f == e,
            },
    {
        match self.find_row(context) {
            Some(i) => match find_entry(&self.rows[i].entries, target) {
                Some(k) => Ok(self.rows[i].entries[k].weight.duplicate()),
                None => Err(LookupError::UnknownTarget),
            },
            None => Err(LookupError::UnknownContext),
        }
    }

    /// Gives `target` the weight `weight` in the row of `context`, which is
    /// made if there is none.
    pub fn insert(&mut self, context: &str, target: &str, weight: Weight)
        ensures
            final(self)@ == stored(old(self)@, context@, target@, weight.value()),
            old(self).well_formed() ==> final(self).well_formed(),
    {
        let ghost before = self@;
        proof {
            if distinct(before) {
                lemma_stored_distinct(before, context@, target@, weight.value());
            }
        }
        match self.find_row(context) {
            Some(i) => {
                let ghost row_before = table_model(self.rows[i as int].entries@);
                match find_entry(&self.rows[i].entries, target) {
                    Some(k) => {
                        self.rows[i].entries[k].weight = weight;
                        proof {
                            assert(table_model(self.rows[i as int].entries@) =~= row_before.update(
                                k as int,
                                (target@, weight.value()),
                            ));
                        }
                    },
                    None => {
                        self.rows[i].entries.push(Entry { key: target.to_owned(), weight });
                        proof {
                            assert(table_model(self.rows[i as int].entries@) =~= row_before.push(
                                (target@, weight.value()),
                            ));
                        }
                    },
                }
                proof {
                    assert(self@ =~= before.update(
                        i as int,
                        (context@, stored_row(row_before, target@, weight.value())),
                    ));
                }
            },
            None => {
                let mut entries: Vec<Entry> = Vec::new();
                entries.push(Entry { key: target.to_owned(), weight });
                self.rows.push(Row { key: context.to_owned(), entries });
                proof {
                    assert(table_model(entries@) =~= seq![(target@, weight.value())]);
                    assert(self@ =~= before.push((context@, seq![(target@, weight.value())])));
                }
            },
        }
    }

    /// Counts one more sighting of `target` after `context`.
    pub fn increment(&mut self, context: &str, target: &str)
        ensures
            final(self)@ == counted(old(self)@, context@, target@),
            old(self).well_formed() ==> final(self).well_formed(),
    {
        let seen = match self.get(context, target) {
            Some(w) => w,
            None => Weight::zero(),
        };
        let more = seen.plus(&Weight::one());
        self.insert(context, target, more);
    }

    /// A copy of this distribution.
    pub fn duplicate(&self) -> (r: Distribution)
        ensures
            r@ == self@,
    {
        let mut rows: Vec<Row> = Vec::new();
        let mut i: usize = 0;
        while i < self.rows.len()
            invariant
                i <= self.rows.len(),
                rows.len() == i,
                forall|j: int| 0 <= j < i ==> (#[trigger] rows[j]).model() == self.rows[j].model(),
            decreases self.rows.len() - i,
        {
            rows.push(
                Row { key: self.rows[i].key.clone(), entries: duplicate_table(&self.rows[i].entries) },
            );
            i += 1;
        }
        let r = Distribution { rows };
        assert(r@ =~= self@);
        r
    }

    /// The table that gives each context the total of its row.
    pub fn totals(&self) -> (r: Vec<Entry>)
        ensures
            table_model(r@) == totals(self@),
    {
        let mut table: Vec<Entry> = Vec::new();
        let mut i: usize = 0;
        while i < self.rows.len()
            invariant
                i <= self.rows.len(),
                table.len() == i,
                forall|j: int|
                    0 <= j < i ==> (#[trigger] table[j]).key@ == self.rows[j].key@
                        && table[j].weight.value() == row_total(table_model(self.rows[j].entries@)),
            decreases self.rows.len() - i,
        {
            table.push(
                Entry { key: self.rows[i].key.clone(), weight: table_total(&self.rows[i].entries) },
            );
            i += 1;
        }
        assert(table_model(table@) =~= totals(self@));
        table
    }

    /// Sets to 0 the weight of every target that fails `c`.
    pub fn mask(&mut self, c: &AnyConstraint)
        ensures
            final(self)@ == masked(old(self)@, model_of(*c)),
            old(self).well_formed() ==> final(self).well_formed(),
    {
        let ghost before = self@;
        proof {
            lemma_masked_shape(before, model_of(*c));
            if distinct(before) {
                lemma_same_shape_distinct(masked(before, model_of(*c)), before);
            }
        }
        let mut i: usize = 0;
        while i < self.rows.len()
            invariant
                i <= self.rows.len(),
                self.rows.len() == before.len(),
                forall|j: int| 0 <= j < i ==> (#[trigger] self@[j]) == masked(before, model_of(*c))[j],
                forall|j: int| i <= j < self.rows.len() ==> (#[trigger] self@[j]) == before[j],
            decreases self.rows.len() - i,
        {
            let ghost snapshot = self@;
            mask_table(&mut self.rows[i].entries, c);
            proof {
                assert(snapshot[i as int] == before[i as int]);
                assert forall|j: int| 0 <= j < self.rows.len() && j != i implies (#[trigger] self@[j])
                    == snapshot[j] by {}
            }
            i += 1;
        }
        assert(self@ =~= masked(before, model_of(*c)));
    }

    /// Sets to 0 the weight of every target that the table of totals calls
    /// dead.
    pub fn prune(&mut self, table: &Vec<Entry>, absent_is_dead: bool)
        ensures
            final(self)@ == pruned(old(self)@, table_model(table@), absent_is_dead),
            old(self).well_formed() ==> final(self).well_formed(),
    {
        let ghost before = self@;
        proof {
            lemma_pruned_shape(before, table_model(table@), absent_is_dead);
            if distinct(before) {
                lemma_same_shape_distinct(
                    pruned(before, table_model(table@), absent_is_dead),
                    before,
                );
            }
        }
        let ghost after = pruned(before, table_model(table@), absent_is_dead);
        let mut i: usize = 0;
        while i < self.rows.len()
            invariant
                i <= self.rows.len(),
                self.rows.len() == before.len(),
                after == pruned(before, table_model(table@), absent_is_dead),
                forall|j: int| 0 <= j < i ==> (#[trigger] self@[j]) == after[j],
                forall|j: int| i <= j < self.rows.len() ==> (#[trigger] self@[j]) == before[j],
            decreases self.rows.len() - i,
        {
            let ghost snapshot = self@;
            prune_table(&mut self.rows[i].entries, table, absent_is_dead);
            proof {
                assert(snapshot[i as int] == before[i as int]);
                assert forall|j: int| 0 <= j < self.rows.len() && j != i implies (#[trigger] self@[j])
                    == snapshot[j] by {}
            }
            i += 1;
        }
        assert(self@ =~= after);
    }

    /// Divides every row by its total; a row with the total 0 stays as it is.
    pub fn normalize(&mut self)
        ensures
            final(self)@ == normalized(old(self)@),
            old(self).well_formed() ==> final(self).well_formed(),
    {
        let ghost before = self@;
        proof {
            lemma_normalized_shape(before);
            if distinct(before) {
                lemma_same_shape_distinct(normalized(before), before);
            }
        }
        let mut i: usize = 0;
        while i < self.rows.len()
            invariant
                i <= self.rows.len(),
                self.rows.len() == before.len(),
                forall|j: int| 0 <= j < i ==> (#[trigger] self@[j]) == normalized(before)[j],
                forall|j: int| i <= j < self.rows.len() ==> (#[trigger] self@[j]) == before[j],
            decreases self.rows.len() - i,
        {
            let ghost snapshot = self@;
            let total = table_total(&self.rows[i].entries);
            scale_table(&mut self.rows[i].entries, &total);
            proof {
                assert(snapshot[i as int] == before[i as int]);
                assert forall|j: int| 0 <= j < self.rows.len() && j != i implies (#[trigger] self@[j])
                    == snapshot[j] by {}
            }
            i += 1;
        }
        assert(self@ =~= normalized(before));
    }
}

impl Clone for Entry {
    fn clone(&self) -> (r: Entry)
        ensures
            r.key@ == self.key@,
            r.weight.value() == self.weight.value(),
    {
        Entry { key: self.key.clone(), weight: self.weight.duplicate() }
    }
}

impl Clone for Row {
    fn clone(&self) -> (r: Row)
        ensures
            r.model() == self.model(),
    {
        Row { key: self.key.clone(), entries: duplicate_table(&self.entries) }
    }
}

impl Clone for Distribution {
    fn clone(&self) -> (r: Distribution)
        ensures
            r@ == self@,
    {
        self.duplicate()
    }
}

} // verus!
