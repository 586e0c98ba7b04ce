use constrained_hmm::constraints::{AnyConstraint, StartsWithLetterConstraint};
use constrained_hmm::distribution::{
    find_entry, is_dead, table_total, weight_in, Distribution, Entry,
};
use constrained_hmm::errors::LookupError;
use constrained_hmm::weight::Weight;
use num_traits::ToPrimitive;

fn parts(weight: &Weight) -> (u64, u64) {
    let (numerator, denominator) = weight.to_parts();
    (numerator.to_u64().unwrap(), denominator.to_u64().unwrap())
}

fn at(distribution: &Distribution, context: &str, target: &str) -> (u64, u64) {
    parts(&distribution.get(context, target).unwrap())
}

fn sample() -> Distribution {
    let mut distribution = Distribution::new();
    distribution.insert("a", "x", Weight::from_count(1));
    distribution.insert("a", "y", Weight::from_count(3));
    distribution.insert("b", "x", Weight::from_count(2));
    distribution.insert("c", "z", Weight::zero());
    distribution
}

fn table(entries: &[(&str, u64)]) -> Vec<Entry> {
    entries
        .iter()
        .map(|(key, count)| Entry { key: String::from(*key), weight: Weight::from_count(*count) })
        .collect()
}

#[test]
fn a_new_distribution_is_empty() {
    let distribution = Distribution::new();
    assert_eq!(0, distribution.len());
    assert!(!distribution.contains_key("a"));
    assert!(distribution.get("a", "x").is_none());
}

#[test]
fn insert_keeps_the_order_of_first_sight() {
    let distribution = sample();
    let contexts: Vec<&str> = distribution.rows.iter().map(|row| row.key.as_str()).collect();
    assert_eq!(vec!["a", "b", "c"], contexts);
    let targets: Vec<&str> =
        distribution.rows[0].entries.iter().map(|entry| entry.key.as_str()).collect();
    assert_eq!(vec!["x", "y"], targets);
}

#[test]
fn insert_replaces_the_weight_of_a_known_target() {
    let mut distribution = sample();
    distribution.insert("a", "x", Weight::from_count(5));
    assert_eq!((5, 1), at(&distribution, "a", "x"));
    assert_eq!((3, 1), at(&distribution, "a", "y"));
    assert_eq!(3, distribution.len());
    assert_eq!(2, distribution.rows[0].entries.len());
}

#[test]
fn increment_counts_from_zero() {
    let mut distribution = Distribution::new();
    distribution.increment("a", "x");
    assert_eq!((1, 1), at(&distribution, "a", "x"));
    distribution.increment("a", "x");
    distribution.increment("a", "y");
    assert_eq!((2, 1), at(&distribution, "a", "x"));
    assert_eq!((1, 1), at(&distribution, "a", "y"));
}

#[test]
fn lookups_tell_what_is_missing() {
    let distribution = sample();
    assert_eq!((3, 1), parts(&distribution.find_weight("a", "y").unwrap()));
    assert_eq!(Some(LookupError::UnknownContext), distribution.find_weight("d", "x").err());
    assert_eq!(Some(LookupError::UnknownTarget), distribution.find_weight("a", "z").err());
    assert!(distribution.contains_key("c"));
    assert!(!distribution.contains_key("x"));
    assert_eq!(Some(1), distribution.find_row("b"));
    assert_eq!(None, distribution.find_row("B"));
}

#[test]
fn clear_removes_every_context() {
    let mut distribution = sample();
    distribution.clear();
    assert_eq!(0, distribution.len());
}

#[test]
fn totals_sum_every_row() {
    let totals = sample().totals();
    let listed: Vec<(&str, (u64, u64))> =
        totals.iter().map(|entry| (entry.key.as_str(), parts(&entry.weight))).collect();
    assert_eq!(vec![("a", (4, 1)), ("b", (2, 1)), ("c", (0, 1))], listed);
}

#[test]
fn normalize_divides_every_row_by_its_total() {
    let mut distribution = sample();
    distribution.normalize();
    assert_eq!((1, 4), at(&distribution, "a", "x"));
    assert_eq!((3, 4), at(&distribution, "a", "y"));
    assert_eq!((1, 1), at(&distribution, "b", "x"));
    assert_eq!((0, 1), at(&distribution, "c", "z"));
}

#[test]
fn mask_sets_failing_targets_to_zero() {
    let mut distribution = sample();
    let constraint = AnyConstraint::StartsWithLetter(StartsWithLetterConstraint::new('X'));
    distribution.mask(&constraint);
    assert_eq!((1, 1), at(&distribution, "a", "x"));
    assert_eq!((0, 1), at(&distribution, "a", "y"));
    assert_eq!((2, 1), at(&distribution, "b", "x"));
    assert_eq!((0, 1), at(&distribution, "c", "z"));
    assert_eq!(2, distribution.rows[0].entries.len());
}

#[test]
fn prune_sets_dead_targets_to_zero() {
    let totals = table(&[("x", 0), ("y", 2)]);
    let mut lenient = sample();
    lenient.insert("c", "z", Weight::from_count(4));
    lenient.prune(&totals, false);
    assert_eq!((0, 1), at(&lenient, "a", "x"));
    assert_eq!((3, 1), at(&lenient, "a", "y"));
    assert_eq!((0, 1), at(&lenient, "b", "x"));
    assert_eq!((4, 1), at(&lenient, "c", "z"));
    let mut strict = sample();
    strict.insert("c", "z", Weight::from_count(4));
    strict.prune(&totals, true);
    assert_eq!((3, 1), at(&strict, "a", "y"));
    assert_eq!((0, 1), at(&strict, "c", "z"));
}

#[test]
fn dead_states_by_a_table_of_totals() {
    let totals = table(&[("x", 0), ("y", 2)]);
    assert!(is_dead(&totals, "x", false));
    assert!(is_dead(&totals, "x", true));
    assert!(!is_dead(&totals, "y", false));
    assert!(!is_dead(&totals, "y", true));
    assert!(!is_dead(&totals, "z", false));
    assert!(is_dead(&totals, "z", true));
}

#[test]
fn rescale_by_the_mass_of_the_targets() {
    let betas = table(&[("x", 1), ("y", 2)]);
    let next = Some(table(&[("x", 3), ("z", 5)]));
    let mut distribution = sample();
    let alphas = distribution.rescale(&betas, &next);
    let listed: Vec<(&str, (u64, u64))> =
        alphas.iter().map(|entry| (entry.key.as_str(), parts(&entry.weight))).collect();
    assert_eq!(vec![("a", (3, 1)), ("b", (6, 1)), ("c", (0, 1))], listed);
    assert_eq!((1, 1), at(&distribution, "a", "x"));
    assert_eq!((0, 1), at(&distribution, "a", "y"));
    assert_eq!((1, 1), at(&distribution, "b", "x"));
    assert_eq!((0, 1), at(&distribution, "c", "z"));

    let mut last = sample();
    let alphas = last.rescale(&betas, &None);
    let listed: Vec<(&str, (u64, u64))> =
        alphas.iter().map(|entry| (entry.key.as_str(), parts(&entry.weight))).collect();
    assert_eq!(vec![("a", (7, 1)), ("b", (2, 1)), ("c", (0, 1))], listed);
    assert_eq!((1, 7), at(&last, "a", "x"));
    assert_eq!((6, 7), at(&last, "a", "y"));
    assert_eq!((1, 1), at(&last, "b", "x"));
}

#[test]
fn tables_of_weights() {
    let entries = table(&[("x", 1), ("y", 2), ("x", 9)]);
    assert_eq!(Some(0), find_entry(&entries, "x"));
    assert_eq!(Some(1), find_entry(&entries, "y"));
    assert_eq!(None, find_entry(&entries, "z"));
    assert_eq!((1, 1), parts(&weight_in(&entries, "x")));
    assert_eq!((0, 1), parts(&weight_in(&entries, "z")));
    assert_eq!((12, 1), parts(&table_total(&entries)));
    assert_eq!((0, 1), parts(&table_total(&Vec::new())));
}

#[test]
fn copies_share_nothing() {
    let first = sample();
    let mut second = first.duplicate();
    second.insert("a", "x", Weight::from_count(8));
    second.insert("d", "w", Weight::one());
    assert_eq!((1, 1), at(&first, "a", "x"));
    assert_eq!(3, first.len());
    let third = first.clone();
    assert_eq!((3, 1), at(&third, "a", "y"));
}
