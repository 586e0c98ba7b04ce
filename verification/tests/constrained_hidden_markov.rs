use constrained_hmm::constrained_hidden_markov::ConstrainedHiddenMarkov;
use constrained_hmm::constraints::{
    AnyConstraint, Constraint, EmptyConstraint, MatchesConstraint, MultiConstraint,
    StartsWithLetterConstraint,
};
use constrained_hmm::distribution::Distribution;
use constrained_hmm::errors::{ConstructionError, LookupError};
use constrained_hmm::hidden_markov::HiddenMarkov;
use constrained_hmm::utils::{get_test_constraints, START_TOKEN};
use constrained_hmm::weight::Weight;
use num_traits::ToPrimitive;

const CORPUS: &str = "Ted:NNP now:RB likes:VBZ green:NN\nMary:NNP likes:VBZ red:NN\nMary:NNP now:RB loves:VBZ red:NN\nFred:NNP sees:VBZ Mary:NNP sometimes:RB";

fn value(weight: Weight) -> f64 {
    let (numerator, denominator) = weight.to_parts();
    numerator.to_f64().unwrap() / denominator.to_f64().unwrap()
}

fn at(distribution: &Distribution, context: &str, target: &str) -> f64 {
    value(distribution.get(context, target).unwrap())
}

fn probability(model: &ConstrainedHiddenMarkov, sequence: &str) -> f64 {
    value(model.get_sequence_probability(sequence).unwrap())
}

fn starts_with(letter: char) -> AnyConstraint {
    AnyConstraint::StartsWithLetter(StartsWithLetterConstraint::new(letter))
}

fn empty() -> AnyConstraint {
    AnyConstraint::Empty(EmptyConstraint::new())
}

fn matches(text: &str) -> AnyConstraint {
    AnyConstraint::Matches(MatchesConstraint::new(String::from(text)))
}

fn either(first: char, second: char) -> AnyConstraint {
    AnyConstraint::Multi(MultiConstraint::new(
        vec![starts_with(first), starts_with(second)],
        false,
    ))
}

fn empty_base() -> HiddenMarkov {
    HiddenMarkov::new(1, String::new()).unwrap()
}

fn base() -> HiddenMarkov {
    HiddenMarkov::new(1, String::from(CORPUS)).unwrap()
}

#[test]
fn create_constrained_hidden_markov() {
    let model = ConstrainedHiddenMarkov {
        hidden_markov_model: empty_base(),
        sequence_length: 4,
        hidden_probs: Vec::new(),
        observed_probs: Vec::new(),
        hidden_constraints: Vec::new(),
        observed_constraints: Vec::new(),
    };
    assert_eq!(1, model.hidden_markov_model.markov_order);
    assert_eq!(4, model.sequence_length);
}

#[test]
fn clear_probabilities_chmm() {
    let model = base();
    let mut constrained_model =
        ConstrainedHiddenMarkov::new(model.clone(), 4, None, None).unwrap();

    constrained_model.hidden_probs.push(model.hidden_probs.clone());
    constrained_model.hidden_probs.push(model.hidden_probs.clone());
    constrained_model.hidden_probs.push(model.hidden_probs.clone());
    constrained_model.observed_probs.push(model.observed_probs.clone());
    constrained_model.observed_probs.push(model.observed_probs.clone());

    assert_eq!(3, constrained_model.hidden_probs.len());
    assert_eq!(2, constrained_model.observed_probs.len());

    constrained_model.clear_probs();
    assert_eq!(0, constrained_model.hidden_probs.len());
    assert_eq!(0, constrained_model.observed_probs.len());
}

#[test]
fn constraints_chmm() {
    let constraints: Vec<AnyConstraint> =
        vec![starts_with('f'), empty(), empty(), matches("red")];
    let model = ConstrainedHiddenMarkov {
        hidden_markov_model: empty_base(),
        sequence_length: 4,
        hidden_probs: Vec::new(),
        observed_probs: Vec::new(),
        hidden_constraints: Vec::new(),
        observed_constraints: constraints,
    };
    assert_eq!(4, model.observed_constraints.len());
    assert_eq!(true, model.observed_constraints[0].is_satisfied_by_state(String::from("Fred")));
    assert_eq!(true, model.observed_constraints[1].is_satisfied_by_state(String::from("anything")));
    assert_eq!(true, model.observed_constraints[2].is_satisfied_by_state(String::from("")));
    assert_eq!(false, model.observed_constraints[3].is_satisfied_by_state(String::from("reds")));
}

#[test]
fn remove_constraint_violating_states_chmm() {
    let observed_constraints: Vec<AnyConstraint> =
        vec![starts_with('t'), empty(), empty(), matches("red")];
    let model = base();
    let mut constrained_model =
        ConstrainedHiddenMarkov::new(model.clone(), 4, None, Some(observed_constraints)).unwrap();

    constrained_model.duplicate_matrices();
    constrained_model.remove_constrain_violating_states();
    assert_eq!(0.0, at(&constrained_model.observed_probs[0], "VBZ", "likes"));
    assert_eq!(0.2, at(&constrained_model.observed_probs[0], "NNP", "Ted"));

    assert_eq!(0.5, at(&constrained_model.observed_probs[1], "VBZ", "likes"));
    assert_eq!(0.2, at(&constrained_model.observed_probs[1], "NNP", "Ted"));

    assert_eq!(2.0 / 3.0, at(&constrained_model.observed_probs[3], "NN", "red"));
    assert_eq!(0.0, at(&constrained_model.observed_probs[3], "NN", "green"));
    assert_eq!(0.0, at(&constrained_model.observed_probs[3], "RB", "now"));
}

#[test]
fn remove_dead_nodes_from_hidden_constraints() {
    let hidden_constraints: Vec<AnyConstraint> = vec![empty(), empty(), empty(), matches("NNP")];
    let model = base();
    let mut constrained_model =
        ConstrainedHiddenMarkov::new(model.clone(), 4, Some(hidden_constraints), None).unwrap();
    constrained_model.duplicate_matrices();
    constrained_model.remove_constrain_violating_states();

    constrained_model.remove_dead_states();

    assert_eq!(0.25, at(&constrained_model.hidden_probs[3], "VBZ", "NNP"));
    assert_eq!(0.0, at(&constrained_model.hidden_probs[3], "VBZ", "NN"));

    assert_eq!(0.4, at(&constrained_model.hidden_probs[2], "NNP", "VBZ"));
    assert_eq!(1.0, at(&constrained_model.hidden_probs[2], "RB", "VBZ"));
    assert_eq!(0.0, at(&constrained_model.hidden_probs[2], "NNP", "RB"));
    assert_eq!(0.0, at(&constrained_model.hidden_probs[2], "VBZ", "NN"));
    assert_eq!(0.0, at(&constrained_model.hidden_probs[2], "VBZ", "NNP"));

    assert_eq!(0.6, at(&constrained_model.hidden_probs[1], "NNP", "RB"));
    assert_eq!(0.25, at(&constrained_model.hidden_probs[1], "VBZ", "NNP"));
    assert_eq!(0.0, at(&constrained_model.hidden_probs[1], "RB", "VBZ"));
}

#[test]
fn remove_dead_nodes_from_observed_constraints() {
    let observed_constraints: Vec<AnyConstraint> =
        vec![starts_with('t'), empty(), empty(), matches("red")];
    let model = base();
    let mut constrained_model =
        ConstrainedHiddenMarkov::new(model.clone(), 4, None, Some(observed_constraints)).unwrap();
    constrained_model.duplicate_matrices();
    constrained_model.remove_constrain_violating_states();

    constrained_model.remove_dead_states();

    assert_eq!(1.0, at(&constrained_model.hidden_probs[0], START_TOKEN, "NNP"));
    assert_eq!(0.25, at(&constrained_model.hidden_probs[0], "VBZ", "NNP"));
    assert_eq!(0.0, at(&constrained_model.hidden_probs[0], "NNP", "RB"));
    assert_eq!(0.0, at(&constrained_model.hidden_probs[0], "NNP", "VBZ"));
    assert_eq!(0.0, at(&constrained_model.hidden_probs[0], "RB", "VBZ"));
    assert_eq!(0.0, at(&constrained_model.hidden_probs[0], "VBZ", "NN"));

    assert_eq!(0.4, at(&constrained_model.hidden_probs[2], "NNP", "VBZ"));
    assert_eq!(0.0, at(&constrained_model.hidden_probs[2], "NNP", "RB"));

    assert_eq!(0.75, at(&constrained_model.hidden_probs[3], "VBZ", "NN"));
    assert_eq!(0.0, at(&constrained_model.hidden_probs[3], "NNP", "RB"));
    assert_eq!(0.0, at(&constrained_model.hidden_probs[3], "RB", "VBZ"));
    assert_eq!(0.0, at(&constrained_model.hidden_probs[3], "NNP", "VBZ"));
    assert_eq!(0.0, at(&constrained_model.hidden_probs[3], "VBZ", "NNP"));
    assert_eq!(0.0, at(&constrained_model.hidden_probs[3], START_TOKEN, "NNP"));
}

fn assert_renormalized(constrained_model: &ConstrainedHiddenMarkov) {
    assert_eq!(1.0, at(&constrained_model.hidden_probs[0], "VBZ", "NNP"));
    assert_eq!(1.0, at(&constrained_model.hidden_probs[1], "NNP", "RB"));
    assert_eq!(1.0, at(&constrained_model.hidden_probs[1], "VBZ", "NNP"));
    assert_eq!(0.0, at(&constrained_model.hidden_probs[1], "VBZ", "NN"));
    assert_eq!(1.0, at(&constrained_model.hidden_probs[2], "NNP", "VBZ"));
    assert_eq!(0.0, at(&constrained_model.hidden_probs[2], "NNP", "RB"));
    assert_eq!(1.0, at(&constrained_model.hidden_probs[2], "RB", "VBZ"));
    assert_eq!(1.0, at(&constrained_model.hidden_probs[3], "VBZ", "NN"));
    assert_eq!(0.0, at(&constrained_model.hidden_probs[3], "VBZ", "NNP"));
    assert_eq!(0.0, at(&constrained_model.hidden_probs[3], "RB", "VBZ"));

    assert_eq!(0.5, at(&constrained_model.observed_probs[0], "NNP", "Fred"));
    assert_eq!(0.5, at(&constrained_model.observed_probs[0], "NNP", "Ted"));
    assert_eq!(0.0, at(&constrained_model.observed_probs[0], "NNP", "Mary"));
    assert_eq!(0.0, at(&constrained_model.observed_probs[0], "VBZ", "likes"));
    assert_eq!(0.25, at(&constrained_model.observed_probs[1], "VBZ", "sees"));
    assert_eq!(0.25, at(&constrained_model.observed_probs[1], "VBZ", "loves"));
    assert_eq!(0.5, at(&constrained_model.observed_probs[1], "VBZ", "likes"));
    assert_eq!(1.0 / 3.0, at(&constrained_model.observed_probs[1], "NN", "green"));
    assert_eq!(2.0 / 3.0, at(&constrained_model.observed_probs[1], "NN", "red"));
    assert_eq!(0.2, at(&constrained_model.observed_probs[1], "NNP", "Fred"));
    assert_eq!(0.6, at(&constrained_model.observed_probs[1], "NNP", "Mary"));
    assert_eq!(0.2, at(&constrained_model.observed_probs[1], "NNP", "Ted"));
    assert_eq!(0.2, at(&constrained_model.observed_probs[2], "NNP", "Fred"));
    assert_eq!(0.6, at(&constrained_model.observed_probs[2], "NNP", "Mary"));
    assert_eq!(0.2, at(&constrained_model.observed_probs[2], "NNP", "Ted"));
    assert_eq!(1.0, at(&constrained_model.observed_probs[3], "NN", "red"));
    assert_eq!(0.0, at(&constrained_model.observed_probs[3], "NN", "green"));
    assert_eq!(0.0, at(&constrained_model.observed_probs[3], "NNP", "Fred"));
    assert_eq!(0.0, at(&constrained_model.observed_probs[3], "NNP", "Mary"));
    assert_eq!(0.0, at(&constrained_model.observed_probs[3], "NNP", "Ted"));
}

#[test]
fn renormalize_chmm() {
    let observed_constraints: Vec<AnyConstraint> =
        vec![either('t', 'f'), empty(), empty(), matches("red")];
    let model = base();
    let mut constrained_model =
        ConstrainedHiddenMarkov::new(model.clone(), 4, None, Some(observed_constraints)).unwrap();
    constrained_model.duplicate_matrices();
    constrained_model.remove_constrain_violating_states();
    constrained_model.remove_dead_states();

    constrained_model.renormalize();

    assert_renormalized(&constrained_model);
}

#[test]
fn train_chmm() {
    let observed_constraints: Vec<AnyConstraint> =
        vec![either('t', 'f'), empty(), empty(), matches("red")];
    let model = base();
    let mut constrained_model =
        ConstrainedHiddenMarkov::new(model.clone(), 4, None, Some(observed_constraints)).unwrap();
    constrained_model.train();

    assert_renormalized(&constrained_model);
}

#[test]
fn generate_sequence_chmm() {
    let observed_constraints: Vec<AnyConstraint> =
        vec![either('t', 'f'), empty(), empty(), matches("green")];
    let data = String::from("Ted:NNP now:RB likes:VBZ green:NN\nTed:NNP now:RB likes:VBZ green:NN");
    let model = HiddenMarkov::new(1, data).unwrap();
    let mut constrained_model =
        ConstrainedHiddenMarkov::new(model.clone(), 4, None, Some(observed_constraints)).unwrap();
    constrained_model.train();
    assert_eq!("Ted:NNP now:RB likes:VBZ green:NN", constrained_model.sample_sequence());
}

#[test]
fn generate_random_sequence_chmm() {
    let observed_constraints: Vec<AnyConstraint> =
        vec![either('t', 'f'), empty(), empty(), matches("red")];
    let model = base();
    let mut constrained_model =
        ConstrainedHiddenMarkov::new(model.clone(), 4, None, Some(observed_constraints)).unwrap();
    constrained_model.train();
    assert_eq!(true, constrained_model.sample_sequence().ends_with("red:NN"));
}

#[test]
fn sequence_probability_chmm() {
    let model = base();
    let mut constrained_model =
        ConstrainedHiddenMarkov::new(model.clone(), 4, None, None).unwrap();
    constrained_model.train();
    let exact = constrained_model
        .get_sequence_probability("Ted:NNP sometimes:RB loves:VBZ Fred:NNP")
        .unwrap();
    let (numerator, denominator) = exact.to_parts();
    assert_eq!(Some(1), numerator.to_u64());
    assert_eq!(Some(1400), denominator.to_u64());
    assert!((0.0007142857142857144 - value(exact)).abs() < 1e-9);
}

#[test]
fn sequence_probability_two_chmm() {
    let observed_constraints: Vec<AnyConstraint> =
        vec![either('t', 'f'), empty(), empty(), matches("red")];
    let model = base();
    let mut constrained_model =
        ConstrainedHiddenMarkov::new(model.clone(), 4, None, Some(observed_constraints)).unwrap();
    constrained_model.train();
    let m = &constrained_model;
    assert_eq!(1.0 / 6.0, probability(m, "Ted:NNP now:RB likes:VBZ red:NN"));
    assert_eq!(1.0 / 12.0, probability(m, "Ted:NNP now:RB loves:VBZ red:NN"));
    assert_eq!(1.0 / 12.0, probability(m, "Ted:NNP now:RB sees:VBZ red:NN"));
    assert_eq!(1.0 / 12.0, probability(m, "Ted:NNP sometimes:RB likes:VBZ red:NN"));
    assert_eq!(1.0 / 24.0, probability(m, "Ted:NNP sometimes:RB loves:VBZ red:NN"));
    assert_eq!(1.0 / 24.0, probability(m, "Ted:NNP sometimes:RB sees:VBZ red:NN"));
    assert_eq!(1.0 / 6.0, probability(m, "Fred:NNP now:RB likes:VBZ red:NN"));
    assert_eq!(1.0 / 12.0, probability(m, "Fred:NNP now:RB loves:VBZ red:NN"));
    assert_eq!(1.0 / 12.0, probability(m, "Fred:NNP now:RB sees:VBZ red:NN"));
    assert_eq!(1.0 / 12.0, probability(m, "Fred:NNP sometimes:RB likes:VBZ red:NN"));
    assert_eq!(1.0 / 24.0, probability(m, "Fred:NNP sometimes:RB loves:VBZ red:NN"));
    assert_eq!(1.0 / 24.0, probability(m, "Fred:NNP sometimes:RB sees:VBZ red:NN"));
}

#[test]
fn new_refuses_short_sequences() {
    for length in [0usize, 1] {
        let outcome = ConstrainedHiddenMarkov::new(base(), length, None, None);
        assert_eq!(Some(ConstructionError::SequenceTooShort), outcome.err());
    }
    let both = ConstrainedHiddenMarkov::new(base(), 1, Some(vec![empty(), empty()]), None);
    assert_eq!(Some(ConstructionError::SequenceTooShort), both.err());
}

#[test]
fn new_refuses_constraints_of_another_length() {
    let hidden = ConstrainedHiddenMarkov::new(base(), 3, Some(vec![empty(), empty()]), None);
    assert_eq!(Some(ConstructionError::LengthMismatch), hidden.err());
    let observed = ConstrainedHiddenMarkov::new(
        base(),
        2,
        Some(vec![empty(), empty()]),
        Some(vec![empty(), empty(), empty()]),
    );
    assert_eq!(Some(ConstructionError::LengthMismatch), observed.err());
}

#[test]
fn new_without_constraints_has_one_empty_constraint_for_every_position() {
    let model = ConstrainedHiddenMarkov::new(base(), 5, None, None).unwrap();
    assert_eq!(5, model.hidden_constraints.len());
    assert_eq!(5, model.observed_constraints.len());
    assert_eq!(true, model.check_sequence_and_constraint_length());
    for constraint in model.hidden_constraints.iter().chain(model.observed_constraints.iter()) {
        assert_eq!(true, constraint.is_satisfied_by_state(String::from("whatever")));
    }
    assert_eq!(0, model.hidden_probs.len());
    assert_eq!(0, model.observed_probs.len());
}

#[test]
fn duplicate_matrices_copies_the_base_model_for_every_position() {
    let mut model = ConstrainedHiddenMarkov::new(base(), 3, None, None).unwrap();
    model.duplicate_matrices();
    assert_eq!(3, model.hidden_probs.len());
    assert_eq!(3, model.observed_probs.len());
    for i in 0..3 {
        assert_eq!(0.75, at(&model.hidden_probs[i], "VBZ", "NN"));
        assert_eq!(2.0 / 3.0, at(&model.observed_probs[i], "RB", "now"));
    }
    model.hidden_probs[0].insert("VBZ", "NN", Weight::zero());
    assert_eq!(0.75, at(&model.hidden_probs[1], "VBZ", "NN"));
    assert_eq!(0.75, at(&model.hidden_markov_model.hidden_probs, "VBZ", "NN"));
}

fn row_sums_to_one_or_is_all_zero(distribution: &Distribution) -> bool {
    distribution.rows.iter().all(|row| {
        let mut total = Weight::zero();
        for entry in row.entries.iter() {
            total = total.plus(&entry.weight);
        }
        let (numerator, denominator) = total.to_parts();
        numerator == denominator || row.entries.iter().all(|entry| entry.weight.is_zero())
    })
}

#[test]
fn rows_sum_to_one_or_are_all_zero_after_training() {
    let mut model =
        ConstrainedHiddenMarkov::new(base(), 4, None, Some(get_test_constraints())).unwrap();
    model.train();
    for i in 0..4 {
        assert!(row_sums_to_one_or_is_all_zero(&model.hidden_probs[i]));
        assert!(row_sums_to_one_or_is_all_zero(&model.observed_probs[i]));
    }
    let hidden: Vec<AnyConstraint> = vec![empty(), matches("rb"), either('v', 'n'), empty()];
    let mut model = ConstrainedHiddenMarkov::new(base(), 4, Some(hidden), None).unwrap();
    model.train();
    for i in 0..4 {
        assert!(row_sums_to_one_or_is_all_zero(&model.hidden_probs[i]));
        assert!(row_sums_to_one_or_is_all_zero(&model.observed_probs[i]));
    }
}

#[test]
fn training_without_constraints_keeps_a_model_without_dead_ends() {
    let data = String::from("a:X b:Y a:X b:Y\nb:Y a:X c:Y a:X");
    let closed = HiddenMarkov::new(1, data).unwrap();
    assert_eq!(0.75, at(&closed.observed_probs, "Y", "b"));
    let mut model = ConstrainedHiddenMarkov::new(closed.clone(), 3, None, None).unwrap();
    model.train();
    for i in 0..3 {
        assert_eq!(closed.hidden_probs.len(), model.hidden_probs[i].len());
        assert_eq!(closed.observed_probs.len(), model.observed_probs[i].len());
        for row in closed.hidden_probs.rows.iter() {
            for entry in row.entries.iter() {
                let trained = model.hidden_probs[i].get(&row.key, &entry.key).unwrap();
                assert_eq!(entry.weight.to_parts(), trained.to_parts());
            }
        }
        for row in closed.observed_probs.rows.iter() {
            for entry in row.entries.iter() {
                let trained = model.observed_probs[i].get(&row.key, &entry.key).unwrap();
                assert_eq!(entry.weight.to_parts(), trained.to_parts());
            }
        }
    }
}

#[test]
fn training_without_constraints_prunes_the_dead_ends_of_a_model() {
    let mut model = ConstrainedHiddenMarkov::new(base(), 4, None, None).unwrap();
    model.train();
    assert_eq!(0.75, at(&model.hidden_markov_model.hidden_probs, "VBZ", "NN"));
    assert_eq!(0.0, at(&model.hidden_probs[0], "VBZ", "NN"));
    assert_eq!(1.0, at(&model.hidden_probs[0], "VBZ", "NNP"));
    assert_eq!(0.75, at(&model.hidden_probs[3], "VBZ", "NN"));
}

#[test]
fn sampled_sequences_meet_the_constraints() {
    let hidden: Vec<AnyConstraint> = vec![empty(), empty(), matches("vbz"), empty()];
    let observed = get_test_constraints();
    let mut model =
        ConstrainedHiddenMarkov::new(base(), 4, Some(hidden), Some(get_test_constraints())).unwrap();
    model.train();
    let draws: Vec<u64> = vec![0, 1 << 61, 1 << 62, 1 << 63, u64::MAX - 1, u64::MAX];
    for a in draws.iter() {
        for b in draws.iter() {
            let xs = vec![*a, *b, *a, *b];
            let ys = vec![*b, *b, *a, *a];
            let sequence = model.sample_sequence_with(&xs, &ys);
            let tokens: Vec<&str> = sequence.split_whitespace().collect();
            assert_eq!(4, tokens.len());
            for (i, token) in tokens.iter().enumerate() {
                let (surface, label) = HiddenMarkov::split_token(token).unwrap();
                assert!(observed[i].is_satisfied_by_state(surface));
                assert!(model.hidden_constraints[i].is_satisfied_by_state(label));
            }
        }
    }
    for _ in 0..50 {
        let sequence = model.sample_sequence();
        let tokens: Vec<&str> = sequence.split_whitespace().collect();
        assert_eq!(4, tokens.len());
        for (i, token) in tokens.iter().enumerate() {
            let (surface, label) = HiddenMarkov::split_token(token).unwrap();
            assert!(observed[i].is_satisfied_by_state(surface));
            assert!(model.hidden_constraints[i].is_satisfied_by_state(label));
        }
    }
}

#[test]
fn positional_sample_sequence_with_follows_the_draws() {
    let mut model =
        ConstrainedHiddenMarkov::new(base(), 4, None, Some(get_test_constraints())).unwrap();
    model.train();
    let zeros = vec![0u64; 4];
    let high = vec![u64::MAX; 4];
    assert_eq!("Ted:NNP now:RB likes:VBZ red:NN", model.sample_sequence_with(&zeros, &zeros));
    assert_eq!("Fred:NNP sometimes:RB sees:VBZ red:NN", model.sample_sequence_with(&zeros, &high));
}

#[test]
fn impossible_constraints_give_an_empty_sequence() {
    let observed: Vec<AnyConstraint> = vec![matches("nobody"), empty()];
    let mut model = ConstrainedHiddenMarkov::new(base(), 2, None, Some(observed)).unwrap();
    model.train();
    assert_eq!(0.0, at(&model.hidden_probs[0], START_TOKEN, "NNP"));
    assert_eq!("", model.sample_sequence());
}

#[test]
fn positional_sequence_probability_reports_what_is_missing() {
    let mut model = ConstrainedHiddenMarkov::new(base(), 2, None, None).unwrap();
    model.train();
    assert_eq!(
        Some(LookupError::MalformedToken),
        model.get_sequence_probability("Ted:NNP now").err()
    );
    assert_eq!(
        Some(LookupError::PositionOutOfRange),
        model.get_sequence_probability("Ted:NNP now:RB likes:VBZ").err()
    );
    assert_eq!(
        Some(LookupError::MalformedToken),
        model.get_sequence_probability("Ted:NNP now:RB likes").err()
    );
    assert_eq!(
        Some(LookupError::UnknownTarget),
        model.get_sequence_probability("Ted:NNP now:NN").err()
    );
    assert_eq!(
        Some(LookupError::UnknownTarget),
        model.get_sequence_probability("Ted:NNP likes:RB").err()
    );
    let mut longer = ConstrainedHiddenMarkov::new(base(), 4, None, None).unwrap();
    longer.train();
    assert_eq!(
        Some(LookupError::UnknownContext),
        longer.get_sequence_probability("Ted:NNP likes:VBZ green:NN now:RB").err()
    );
}

#[test]
fn sequence_probability_is_zero_for_a_pruned_sequence() {
    let mut model =
        ConstrainedHiddenMarkov::new(base(), 4, None, Some(get_test_constraints())).unwrap();
    model.train();
    assert_eq!(0.0, probability(&model, "Mary:NNP now:RB likes:VBZ red:NN"));
    assert_eq!(0.0, probability(&model, "Ted:NNP now:RB likes:VBZ green:NN"));
}

#[test]
fn positional_sequence_probability_is_the_same_on_every_call() {
    let mut model =
        ConstrainedHiddenMarkov::new(base(), 4, None, Some(get_test_constraints())).unwrap();
    model.train();
    let first = model.get_sequence_probability("Ted:NNP now:RB likes:VBZ red:NN").unwrap();
    for _ in 0..5 {
        let _ = model.sample_sequence();
    }
    let second = model.get_sequence_probability("Ted:NNP now:RB likes:VBZ red:NN").unwrap();
    assert_eq!(first.to_parts(), second.to_parts());
}

#[test]
fn probabilities_of_all_acceptable_sequences_sum_to_one() {
    let mut model =
        ConstrainedHiddenMarkov::new(base(), 4, None, Some(get_test_constraints())).unwrap();
    model.train();
    let mut total = Weight::zero();
    for first in ["Ted", "Fred"] {
        for second in ["now", "sometimes"] {
            for third in ["likes", "loves", "sees"] {
                let sequence = format!("{}:NNP {}:RB {}:VBZ red:NN", first, second, third);
                total = total.plus(&model.get_sequence_probability(&sequence).unwrap());
            }
        }
    }
    let (numerator, denominator) = total.to_parts();
    assert_eq!(numerator, denominator);
}

#[test]
fn train_twice_gives_the_same_model() {
    let mut model =
        ConstrainedHiddenMarkov::new(base(), 4, None, Some(get_test_constraints())).unwrap();
    model.train();
    let before = probability(&model, "Fred:NNP now:RB likes:VBZ red:NN");
    model.train();
    assert_eq!(4, model.hidden_probs.len());
    assert_eq!(4, model.observed_probs.len());
    assert_eq!(before, probability(&model, "Fred:NNP now:RB likes:VBZ red:NN"));
}

#[test]
fn the_only_surviving_sequence_is_sampled_on_every_call() {
    let observed_constraints: Vec<AnyConstraint> =
        vec![either('t', 'f'), empty(), empty(), matches("green")];
    let data = String::from("Ted:NNP now:RB likes:VBZ green:NN\nTed:NNP now:RB likes:VBZ green:NN");
    let model = HiddenMarkov::new(1, data).unwrap();
    let mut constrained_model =
        ConstrainedHiddenMarkov::new(model, 4, None, Some(observed_constraints)).unwrap();
    constrained_model.train();
    for _ in 0..100 {
        assert_eq!("Ted:NNP now:RB likes:VBZ green:NN", constrained_model.sample_sequence());
    }
    for i in 0..4 {
        for row in constrained_model.hidden_probs[i].rows.iter() {
            for entry in row.entries.iter() {
                let (numerator, denominator) = entry.weight.to_parts();
                assert!(entry.weight.is_zero() || numerator == denominator);
            }
        }
    }
}

#[test]
fn training_keeps_the_likelihoods_of_sequences_relative_to_each_other() {
    let base = base();
    let mut model =
        ConstrainedHiddenMarkov::new(base.clone(), 4, None, Some(get_test_constraints())).unwrap();
    model.train();
    let first = "Ted:NNP now:RB likes:VBZ red:NN";
    let second = "Fred:NNP sometimes:RB sees:VBZ red:NN";
    let trained_first = model.get_sequence_probability(first).unwrap();
    let trained_second = model.get_sequence_probability(second).unwrap();
    let base_first = base.get_sequence_probability(first).unwrap();
    let base_second = base.get_sequence_probability(second).unwrap();
    assert!(!trained_first.is_zero() && !trained_second.is_zero());
    let left = trained_first.times(&base_second);
    let right = trained_second.times(&base_first);
    assert_eq!(left.to_parts(), right.to_parts());
    let mass = base_first.divided_by(&trained_first);
    assert_eq!(mass.to_parts(), base_second.divided_by(&trained_second).to_parts());
    let (numerator, denominator) = mass.to_parts();
    assert_eq!((Some(3), Some(25)), (numerator.to_u64(), denominator.to_u64()));
}

#[test]
fn a_failed_draw_falls_back_to_the_label_without_text() {
    let model = HiddenMarkov::new(1, String::from("x: y:")).unwrap();
    assert_eq!(1.0, at(&model.hidden_probs, START_TOKEN, ""));
    let hidden: Vec<AnyConstraint> = vec![matches("zzz"), empty()];
    let mut constrained_model = ConstrainedHiddenMarkov::new(model, 2, Some(hidden), None).unwrap();
    constrained_model.train();
    assert_eq!(0.0, at(&constrained_model.hidden_probs[0], START_TOKEN, ""));
    let zeros = vec![0u64; 2];
    let sequence = constrained_model.sample_sequence_with(&zeros, &zeros);
    assert_eq!("x: x:", sequence);
    assert_eq!(false, constrained_model.hidden_constraints[0].is_satisfied_by_state(String::new()));
}

#[test]
fn a_state_without_emissions_has_no_mass() {
    let mut hidden_probs = Distribution::new();
    hidden_probs.insert(START_TOKEN, "A", Weight::from_ratio(1, 2).unwrap());
    hidden_probs.insert(START_TOKEN, "B", Weight::from_ratio(1, 2).unwrap());
    let mut observed_probs = Distribution::new();
    observed_probs.insert("B", "b", Weight::one());
    let base = HiddenMarkov { markov_order: 1, hidden_probs, observed_probs };

    let mut open = ConstrainedHiddenMarkov::new(base.clone(), 2, None, None).unwrap();
    open.train();
    assert_eq!(0.0, at(&open.hidden_probs[1], START_TOKEN, "A"));
    assert_eq!(1.0, at(&open.hidden_probs[1], START_TOKEN, "B"));

    let hidden: Vec<AnyConstraint> = vec![empty(), matches("a")];
    let mut masked = ConstrainedHiddenMarkov::new(base, 2, Some(hidden), None).unwrap();
    masked.train();
    assert_eq!(0.5, at(&masked.hidden_probs[1], START_TOKEN, "A"));
    assert_eq!(0.0, at(&masked.hidden_probs[1], START_TOKEN, "B"));
}

#[test]
fn a_label_without_text_is_sampled_like_any_other_where_a_sequence_is_left() {
    let model = HiddenMarkov::new(1, String::from("a: b:X\nc: d:Y")).unwrap();
    let hidden: Vec<AnyConstraint> = vec![empty(), matches("x")];
    let observed: Vec<AnyConstraint> = vec![starts_with('a'), empty()];
    let mut constrained_model =
        ConstrainedHiddenMarkov::new(model, 2, Some(hidden), Some(observed)).unwrap();
    constrained_model.train();
    assert_eq!(1.0, at(&constrained_model.hidden_probs[0], START_TOKEN, ""));
    assert_eq!(1.0, at(&constrained_model.hidden_probs[1], "", "X"));
    assert_eq!(0.0, at(&constrained_model.hidden_probs[1], "", "Y"));
    let draws: Vec<u64> = vec![0, 1 << 63, u64::MAX];
    for x in draws.iter() {
        for y in draws.iter() {
            let sequence = constrained_model.sample_sequence_with(&vec![*x, *y], &vec![*y, *x]);
            assert_eq!("a: b:X", sequence);
        }
    }
}

#[test]
fn training_without_constraints_keeps_the_emissions() {
    let base = base();
    let mut model = ConstrainedHiddenMarkov::new(base.clone(), 4, None, None).unwrap();
    model.train();
    for i in 0..4 {
        assert_eq!(base.observed_probs.len(), model.observed_probs[i].len());
        for row in base.observed_probs.rows.iter() {
            for entry in row.entries.iter() {
                let trained = model.observed_probs[i].get(&row.key, &entry.key).unwrap();
                assert_eq!(entry.weight.to_parts(), trained.to_parts());
            }
        }
    }
    assert_eq!(0.6, at(&model.observed_probs[2], "NNP", "Mary"));
}
