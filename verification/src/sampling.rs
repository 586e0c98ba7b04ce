//! Drawing a key from a table of weights.

use crate::distribution::{table_model, Entry};
use crate::model::{row_total, RowModel};
use crate::weight::{draw_scale, ratio, Weight};
use rand::Rng;
use vstd::prelude::*;

verus! {

/// `Rng::gen` on `rand::thread_rng()`: a number from the generator of the
/// current thread. Nothing is known of it beforehand.
#[verifier::external_body]
pub(crate) fn random_draw() -> u64 {
    rand::thread_rng().gen()
}

/// The point of the unit interval that a draw stands for: `draw / 2^64`.
pub open spec fn unit(draw: u64) -> real {
    ratio(draw as nat, draw_scale())
}

/// The first position of the row at which the running total of the weights
/// exceeds `x`.
pub open spec fn picked(r: RowModel, x: real) -> Option<int>
    decreases r.len(),
{
    if r.len() == 0 {
        None
    } else {
        match picked(r.drop_last(), x) {
            Some(k) => Some(k),
            None => if row_total(r) > x {
                Some(r.len() - 1)
            } else {
                None
            },
        }
    }
}

/// The key at the picked position; the empty text where no position is
/// picked.
pub open spec fn picked_key(r: RowModel, x: real) -> Seq<char> {
    match picked(r, x) {
        Some(k) => r[k].0,
        None => Seq::empty(),
    }
}

/// What is picked in a prefix of a row is picked in the row.
pub proof fn lemma_picked_prefix(r: RowModel, x: real, n: int, k: int)
    requires
        0 <= n <= r.len(),
        picked(r.take(n), x) == Some(k),
    ensures
        picked(r, x) == Some(k),
    decreases r.len() - n,
{
    if n < r.len() {
        assert(r.take(n + 1).drop_last() == r.take(n));
        lemma_picked_prefix(r, x, n + 1, k);
    } else {
        assert(r.take(n) == r);
    }
}

/// The key of the first entry at which the running total of the weights
/// exceeds `draw / 2^64`; the empty text if there is none.
pub fn next_token(prev_token_map: &Vec<Entry>, draw: u64) -> (r: String)
    ensures
        r@ == picked_key(table_model(prev_token_map@), unit(draw)),
{
    let ghost table = table_model(prev_token_map@);
    let mut sum = Weight::zero();
    let mut k: usize = 0;
    proof {
        assert(table.take(0).len() == 0);
    }
    while k < prev_token_map.len()
        invariant
            k <= prev_token_map.len(),
            table == table_model(prev_token_map@),
            sum.value() == row_total(table.take(k as int)),
            picked(table.take(k as int), unit(draw)) is None,
        decreases prev_token_map.len() - k,
    {
        proof {
            assert(table.take(k + 1).drop_last() == table.take(k as int));
        }
        sum = sum.plus(&prev_token_map[k].weight);
        if sum.exceeds(draw) {
            proof {
                lemma_picked_prefix(table, unit(draw), k + 1, k as int);
            }
            return prev_token_map[k].key.clone();
        }
        k += 1;
    }
    proof {
        assert(table.take(k as int) == table);
    }
    String::new()
}

/// As many random draws as `count` says.
pub fn random_draws(count: usize) -> (r: Vec<u64>)
    ensures
        r.len() == count,
{
    let mut r: Vec<u64> = Vec::new();
    let mut i: usize = 0;
    while i < count
        invariant
            i <= count,
            r.len() == i,
        decreases count - i,
    {
        r.push(random_draw());
        i += 1;
    }
    r
}

} // verus!
