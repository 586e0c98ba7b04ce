use constrained_hmm::constraints::{
    AnyConstraint, Constraint, EmptyConstraint, MatchesConstraint, MultiConstraint,
    RhymesWithConstraint, StartsWithLetterConstraint,
};

fn starts_with(letter: char) -> AnyConstraint {
    AnyConstraint::StartsWithLetter(StartsWithLetterConstraint::new(letter))
}

fn empty() -> AnyConstraint {
    AnyConstraint::Empty(EmptyConstraint::new())
}

fn matches(text: &str) -> AnyConstraint {
    AnyConstraint::Matches(MatchesConstraint::new(String::from(text)))
}

#[test]
fn new_empty_constraint() {
    let constraint = EmptyConstraint::new();
    assert_eq!(true, constraint.is_satisfied_by_state(String::from("Anything")))
}

#[test]
fn new_matches_constraint() {
    let constraint = MatchesConstraint::new(String::from("FrEd"));
    assert_eq!("fred", constraint.state)
}

#[test]
fn satisfying_matches_constraint() {
    let constraint = MatchesConstraint::new(String::from("mary"));
    assert_eq!(true, constraint.is_satisfied_by_state(String::from("mary")))
}

#[test]
fn not_satisfying_matches_constraint() {
    let constraint = MatchesConstraint::new(String::from("Mary"));
    assert_eq!(false, constraint.is_satisfied_by_state(String::from("Marge")))
}

#[test]
fn matches_constraint_empty_satisfying_matches_constraint() {
    let constraint = MatchesConstraint::new(String::from("Barry"));
    assert_eq!(false, constraint.is_satisfied_by_state(String::from("")))
}

#[test]
fn create_dynamic_type_constraint() {
    let mut dynamic_constraint: AnyConstraint;
    dynamic_constraint = empty();
    assert_eq!(true, dynamic_constraint.is_satisfied_by_state(String::from("foo")));

    dynamic_constraint = starts_with('x');
    assert_eq!(false, dynamic_constraint.is_satisfied_by_state(String::from("foo")));
}

#[test]
fn dynamic_type_constraint_array() {
    let mut dynamic_constraints: Vec<AnyConstraint> = vec![];
    dynamic_constraints.push(starts_with('f'));
    dynamic_constraints.push(empty());
    dynamic_constraints.push(matches("george"));
    dynamic_constraints.push(empty());
    dynamic_constraints.push(empty());
    dynamic_constraints.push(starts_with('m'));

    assert_eq!(6, dynamic_constraints.len());
    assert_eq!(true, dynamic_constraints[0].is_satisfied_by_state(String::from("Food")));
    assert_eq!(true, dynamic_constraints[1].is_satisfied_by_state(String::from("")));
    assert_eq!(false, dynamic_constraints[2].is_satisfied_by_state(String::from("gorge")));
    assert_eq!(true, dynamic_constraints[3].is_satisfied_by_state(String::from("12345")));
    assert_eq!(true, dynamic_constraints[4].is_satisfied_by_state(String::from("   ")));
    assert_eq!(false, dynamic_constraints[5].is_satisfied_by_state(String::from("Ned")));
}

#[test]
fn new_multi_constraint() {
    let constraint = MultiConstraint::new(vec![starts_with('f'), starts_with('t')], false);
    assert_eq!(2, constraint.constraints.len());
    assert_eq!(false, constraint.require_all);
}

#[test]
fn satisfying_any_multi_constraint() {
    let constraint =
        MultiConstraint::new(vec![starts_with('x'), starts_with('z'), starts_with('a')], false);
    assert_eq!(true, constraint.is_satisfied_by_state(String::from("Xylophone")));
    assert_eq!(true, constraint.is_satisfied_by_state(String::from("zebra")));
    assert_eq!(true, constraint.is_satisfied_by_state(String::from("Apple")));
}

#[test]
fn not_satisfying_any_multi_constraint() {
    let constraint =
        MultiConstraint::new(vec![starts_with('x'), starts_with('z'), starts_with('a')], false);
    assert_eq!(false, constraint.is_satisfied_by_state(String::from("Beaver")));
}

#[test]
fn satisfying_all_multi_constraint() {
    let constraint = MultiConstraint::new(vec![starts_with('x'), matches("Xylo")], true);
    assert_eq!(true, constraint.is_satisfied_by_state(String::from("Xylo")));
    assert_eq!(false, constraint.is_satisfied_by_state(String::from("X-ray")));
}

#[test]
fn not_satisfying_all_multi_constraint() {
    let constraint =
        MultiConstraint::new(vec![starts_with('x'), starts_with('z'), starts_with('a')], true);
    assert_eq!(false, constraint.is_satisfied_by_state(String::from("Xylophone")));
    assert_eq!(false, constraint.is_satisfied_by_state(String::from("zebra")));
    assert_eq!(false, constraint.is_satisfied_by_state(String::from("Apple")));
}

#[test]
fn new_rhymes_with_constraint() {
    let constraint = RhymesWithConstraint::new(String::from("FrEd"));
    assert_eq!("fred", constraint.word)
}

#[test]
fn satisfying_rhymes_with_constraint() {
    let constraint = RhymesWithConstraint::new(String::from("Mary"));
    assert_eq!(true, constraint.is_satisfied_by_state(String::from("Berry")));
    assert_eq!(true, constraint.is_satisfied_by_state(String::from("jeRRy")));
    assert_eq!(true, constraint.is_satisfied_by_state(String::from("gary")));

    let constraint = RhymesWithConstraint::new(String::from("Ted"));
    assert_eq!(true, constraint.is_satisfied_by_state(String::from("red")));
}

#[test]
fn not_satisfying_rhymes_constraint() {
    let constraint = RhymesWithConstraint::new(String::from("Mary"));
    assert_eq!(false, constraint.is_satisfied_by_state(String::from("Marge")));
    assert_eq!(false, constraint.is_satisfied_by_state(String::from("Ted")));
    assert_eq!(false, constraint.is_satisfied_by_state(String::from("green")));
}

#[test]
fn rhymes_with_constraint_empty_satisfying_matches_constraint() {
    let constraint = RhymesWithConstraint::new(String::from("Fred"));
    assert_eq!(false, constraint.is_satisfied_by_state(String::from("")))
}

#[test]
fn new_starts_with_letter_constraint() {
    let constraint = StartsWithLetterConstraint::new('f');
    assert_eq!('f', constraint.letter)
}

#[test]
fn satisfying_new_starts_with_letter_constraint() {
    let constraint = StartsWithLetterConstraint::new('x');
    assert_eq!(true, constraint.is_satisfied_by_state(String::from("Xylophone")))
}

#[test]
fn not_satisfying_new_starts_with_letter_constraint() {
    let constraint = StartsWithLetterConstraint::new('x');
    assert_eq!(false, constraint.is_satisfied_by_state(String::from("zebra")))
}

#[test]
fn empty_satisfying_new_starts_with_letter_constraint() {
    let constraint = StartsWithLetterConstraint::new('x');
    assert_eq!(false, constraint.is_satisfied_by_state(String::from("")))
}

#[test]
fn matches_empty_target_accepts_only_empty_text() {
    let constraint = MatchesConstraint::new(String::from(""));
    assert_eq!(true, constraint.is_satisfied_by_state(String::from("")));
    assert_eq!(false, constraint.is_satisfied_by_state(String::from("a")));
}

#[test]
fn matches_ignores_case_on_both_sides() {
    let constraint = MatchesConstraint::new(String::from("ReD"));
    assert_eq!(true, constraint.is_satisfied_by_state(String::from("rEd")));
    assert_eq!(false, constraint.is_satisfied_by_state(String::from("reds")));
}

#[test]
fn starts_with_letter_ignores_case_of_the_letter() {
    let constraint = StartsWithLetterConstraint::new('X');
    assert_eq!(true, constraint.is_satisfied_by_state(String::from("xylophone")));
    assert_eq!(true, constraint.is_satisfied_by_state(String::from("Xylophone")));
    assert_eq!(false, constraint.is_satisfied_by_state(String::from("yx")));
}

#[test]
fn empty_multi_constraints() {
    let any = MultiConstraint::new(vec![], false);
    assert_eq!(false, any.is_satisfied_by_state(String::from("word")));
    let all = MultiConstraint::new(vec![], true);
    assert_eq!(true, all.is_satisfied_by_state(String::from("word")));
}

#[test]
fn nested_multi_constraints() {
    let inner = AnyConstraint::Multi(MultiConstraint::new(
        vec![starts_with('a'), starts_with('b')],
        false,
    ));
    let outer = MultiConstraint::new(vec![inner, matches("bee")], true);
    assert_eq!(true, outer.is_satisfied_by_state(String::from("Bee")));
    assert_eq!(false, outer.is_satisfied_by_state(String::from("ant")));
    assert_eq!(false, outer.is_satisfied_by_state(String::from("cat")));
}

#[test]
fn constraint_clone_keeps_the_constraint() {
    let first = AnyConstraint::Multi(MultiConstraint::new(
        vec![starts_with('t'), matches("Red")],
        false,
    ));
    let copy = first.constraint_clone();
    for word in ["Ted", "red", "RED", "green", ""] {
        assert_eq!(
            first.is_satisfied_by_state(String::from(word)),
            copy.is_satisfied_by_state(String::from(word))
        );
    }
    assert_eq!(true, copy.is_satisfied_by_state(String::from("tree")));
    assert_eq!(false, copy.is_satisfied_by_state(String::from("green")));
}

#[test]
fn a_target_with_text_rejects_the_empty_text() {
    for target in ["a", "Barry", "ß", "İ", " "] {
        let constraint = MatchesConstraint::new(String::from(target));
        assert!(constraint.state.chars().count() >= target.chars().count());
        assert_eq!(false, constraint.is_satisfied_by_state(String::new()));
    }
    let rhyme = RhymesWithConstraint::new(String::from("İstanbul"));
    assert!(rhyme.word.chars().count() >= "İstanbul".chars().count());
}

#[test]
fn constraints_are_compared_by_what_they_hold() {
    let first = AnyConstraint::Multi(MultiConstraint::new(
        vec![starts_with('t'), matches("Red"), empty()],
        false,
    ));
    let same = AnyConstraint::Multi(MultiConstraint::new(
        vec![starts_with('t'), matches("RED"), empty()],
        false,
    ));
    let other_mode = AnyConstraint::Multi(MultiConstraint::new(
        vec![starts_with('t'), matches("Red"), empty()],
        true,
    ));
    let other_child = AnyConstraint::Multi(MultiConstraint::new(
        vec![starts_with('f'), matches("Red"), empty()],
        false,
    ));
    assert!(first == same);
    assert!(first == first.constraint_clone());
    assert!(first != other_mode);
    assert!(first != other_child);
    assert!(starts_with('t') != matches("t"));
    assert!(empty() == empty());
    assert!(MultiConstraint::new(vec![empty()], true) == MultiConstraint::new(vec![empty()], true));
    assert!(MultiConstraint::new(vec![empty()], true) != MultiConstraint::new(vec![], true));
}
