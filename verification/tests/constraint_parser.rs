use constrained_hmm::constraint_parser::{
    add_constraint, add_multi_constraint, constraint_from_matches, parse_constraint, parse_count,
    str_to_constraint,
};
use constrained_hmm::constraints::{AnyConstraint, Constraint};
use constrained_hmm::errors::ParseError;

fn passes(constraint: &AnyConstraint, word: &str) -> bool {
    constraint.is_satisfied_by_state(String::from(word))
}

#[test]
fn atom_for_a_first_letter() {
    let constraint = str_to_constraint("SW(t)").unwrap();
    assert!(matches!(constraint, AnyConstraint::StartsWithLetter(_)));
    assert!(passes(&constraint, "Ted"));
    assert!(!passes(&constraint, "Fred"));
}

#[test]
fn atom_for_a_first_letter_takes_the_first_of_several() {
    let constraint = str_to_constraint("SW(fred)").unwrap();
    match constraint {
        AnyConstraint::StartsWithLetter(inner) => assert_eq!('f', inner.letter),
        _ => panic!("expected a constraint on the first letter"),
    }
}

#[test]
fn atom_for_a_first_letter_without_a_letter_is_refused() {
    assert_eq!(Some(ParseError::MissingLetter), str_to_constraint("SW()").err());
}

#[test]
fn atom_for_a_rhyme() {
    let constraint = str_to_constraint("RW(Ted)").unwrap();
    match &constraint {
        AnyConstraint::RhymesWith(inner) => assert_eq!("ted", inner.word),
        _ => panic!("expected a rhyme constraint"),
    }
    assert!(passes(&constraint, "red"));
    assert!(!passes(&constraint, "green"));
}

#[test]
fn atom_for_no_constraint() {
    let constraint = str_to_constraint("NC").unwrap();
    assert!(matches!(constraint, AnyConstraint::Empty(_)));
    assert!(passes(&constraint, ""));
    assert!(passes(&constraint, "anything"));
}

#[test]
fn any_other_atom_is_matched_without_regard_to_case() {
    let constraint = str_to_constraint("Red").unwrap();
    match &constraint {
        AnyConstraint::Matches(inner) => assert_eq!("red", inner.state),
        _ => panic!("expected a match constraint"),
    }
    assert!(passes(&constraint, "RED"));
    assert!(!passes(&constraint, "reds"));
}

#[test]
fn an_unfinished_atom_is_matched_as_it_stands() {
    let constraint = str_to_constraint("SW(t").unwrap();
    match &constraint {
        AnyConstraint::Matches(inner) => assert_eq!("sw(t", inner.state),
        _ => panic!("expected a match constraint"),
    }
    let lower = str_to_constraint("sw(t)").unwrap();
    assert!(matches!(lower, AnyConstraint::Matches(_)));
}

#[test]
fn the_patterns_are_tried_in_order() {
    let first = constraint_from_matches(
        Some(String::from("ab")),
        Some(String::from("word")),
        true,
        "text",
    )
    .unwrap();
    match first {
        AnyConstraint::StartsWithLetter(inner) => assert_eq!('a', inner.letter),
        _ => panic!("expected a constraint on the first letter"),
    }
    let second = constraint_from_matches(None, Some(String::from("WoRd")), true, "text").unwrap();
    match second {
        AnyConstraint::RhymesWith(inner) => assert_eq!("word", inner.word),
        _ => panic!("expected a rhyme constraint"),
    }
    let third = constraint_from_matches(None, None, true, "text").unwrap();
    assert!(matches!(third, AnyConstraint::Empty(_)));
    let fourth = constraint_from_matches(None, None, false, "TeXt").unwrap();
    match fourth {
        AnyConstraint::Matches(inner) => assert_eq!("text", inner.state),
        _ => panic!("expected a match constraint"),
    }
    let refused = constraint_from_matches(Some(String::new()), None, false, "SW()");
    assert_eq!(Some(ParseError::MissingLetter), refused.err());
}

#[test]
fn counts_are_whole_numbers_with_or_without_a_sign() {
    assert_eq!(Some(3), parse_count("3"));
    assert_eq!(Some(12), parse_count("+12"));
    assert_eq!(Some(-7), parse_count("-7"));
    assert_eq!(Some(5), parse_count("0005"));
    assert_eq!(Some(0), parse_count("-0"));
    assert_eq!(Some(2147483647), parse_count("2147483647"));
    assert_eq!(Some(-2147483648), parse_count("-2147483648"));
    assert_eq!(Some(1), parse_count("00000000000000000000000000001"));
}

#[test]
fn counts_that_are_no_numbers_are_refused() {
    assert_eq!(None, parse_count(""));
    assert_eq!(None, parse_count("+"));
    assert_eq!(None, parse_count("-"));
    assert_eq!(None, parse_count("3 "));
    assert_eq!(None, parse_count(" 3"));
    assert_eq!(None, parse_count("3x"));
    assert_eq!(None, parse_count("--3"));
    assert_eq!(None, parse_count("2147483648"));
    assert_eq!(None, parse_count("-2147483649"));
    assert_eq!(None, parse_count("99999999999999999999"));
}

#[test]
fn counts_agree_with_the_standard_parser() {
    for text in ["7", "+7", "-7", "007", "", "+", "7a", "a7", "2147483647", "2147483648", "-2147483648", "-2147483649", "١"] {
        assert_eq!(text.parse::<i32>().ok(), parse_count(text));
    }
}

#[test]
fn a_line_for_one_position() {
    let mut hidden: Vec<AnyConstraint> = Vec::new();
    let mut observed: Vec<AnyConstraint> = Vec::new();
    add_constraint("SW(t):NNP", &mut hidden, &mut observed).unwrap();
    assert_eq!(1, hidden.len());
    assert_eq!(1, observed.len());
    assert!(passes(&observed[0], "Ted"));
    assert!(!passes(&observed[0], "Fred"));
    assert!(passes(&hidden[0], "nnp"));
    assert!(!passes(&hidden[0], "VBZ"));
}

#[test]
fn a_line_for_one_position_needs_a_separator() {
    let mut hidden: Vec<AnyConstraint> = Vec::new();
    let mut observed: Vec<AnyConstraint> = Vec::new();
    let outcome = add_constraint("NC", &mut hidden, &mut observed);
    assert_eq!(Err(ParseError::MissingSeparator), outcome);
    assert_eq!(0, hidden.len());
    assert_eq!(0, observed.len());
    let outcome = add_constraint("NC:SW()", &mut hidden, &mut observed);
    assert_eq!(Err(ParseError::MissingLetter), outcome);
    assert_eq!(0, hidden.len());
    assert_eq!(0, observed.len());
}

#[test]
fn a_line_for_a_run_of_positions() {
    let mut hidden: Vec<AnyConstraint> = Vec::new();
    let mut observed: Vec<AnyConstraint> = Vec::new();
    add_multi_constraint("SW(m)*3", &mut hidden, &mut observed).unwrap();
    assert_eq!(3, hidden.len());
    assert_eq!(3, observed.len());
    for constraint in hidden.iter().chain(observed.iter()) {
        assert!(passes(constraint, "Mary"));
        assert!(!passes(constraint, "Ted"));
    }
    add_multi_constraint("NC*0", &mut hidden, &mut observed).unwrap();
    add_multi_constraint("NC*-2", &mut hidden, &mut observed).unwrap();
    assert_eq!(3, hidden.len());
    assert_eq!(3, observed.len());
}

#[test]
fn a_line_for_a_run_needs_a_number() {
    let mut hidden: Vec<AnyConstraint> = Vec::new();
    let mut observed: Vec<AnyConstraint> = Vec::new();
    assert_eq!(
        Err(ParseError::InvalidCount),
        add_multi_constraint("NC*many", &mut hidden, &mut observed)
    );
    assert_eq!(
        Err(ParseError::InvalidCount),
        add_multi_constraint("NC*", &mut hidden, &mut observed)
    );
    assert_eq!(
        Err(ParseError::MissingLetter),
        add_multi_constraint("SW()*many", &mut hidden, &mut observed)
    );
    assert_eq!(0, hidden.len());
    assert_eq!(0, observed.len());
    add_multi_constraint("NC*2*x", &mut hidden, &mut observed).unwrap();
    assert_eq!(2, hidden.len());
}

#[test]
fn a_whole_specification() {
    let text = String::from("SW(t):NNP\n\nNC*2\nred:RW(ten)\n");
    let (hidden, observed) = parse_constraint(text).unwrap();
    assert_eq!(4, hidden.len());
    assert_eq!(4, observed.len());
    assert!(passes(&observed[0], "ted"));
    assert!(!passes(&observed[0], "red"));
    assert!(passes(&hidden[0], "NNP"));
    assert!(!passes(&hidden[0], "NN"));
    for i in 1..3 {
        assert!(matches!(hidden[i], AnyConstraint::Empty(_)));
        assert!(matches!(observed[i], AnyConstraint::Empty(_)));
    }
    assert!(passes(&observed[3], "Red"));
    assert!(!passes(&observed[3], "green"));
    assert!(matches!(hidden[3], AnyConstraint::RhymesWith(_)));
    assert!(passes(&hidden[3], "hen"));
}

#[test]
fn an_empty_specification_has_no_positions() {
    let (hidden, observed) = parse_constraint(String::new()).unwrap();
    assert_eq!(0, hidden.len());
    assert_eq!(0, observed.len());
    let (hidden, observed) = parse_constraint(String::from("\n\n")).unwrap();
    assert_eq!(0, hidden.len());
    assert_eq!(0, observed.len());
}

#[test]
fn a_specification_with_a_bad_line_is_refused() {
    assert_eq!(Some(ParseError::MissingSeparator), parse_constraint(String::from("NC*2\nNC")).err());
    assert_eq!(Some(ParseError::InvalidCount), parse_constraint(String::from("NC:NC\nNC*x")).err());
    assert_eq!(Some(ParseError::MissingLetter), parse_constraint(String::from("SW():NC")).err());
    assert_eq!(Some(ParseError::MissingSeparator), parse_constraint(String::from(" ")).err());
}

#[test]
fn an_atom_that_only_starts_like_no_constraint_is_matched_as_it_stands() {
    let constraint = str_to_constraint("NCAA").unwrap();
    match &constraint {
        AnyConstraint::Matches(inner) => assert_eq!("ncaa", inner.state),
        _ => panic!("expected a match constraint"),
    }
    assert!(passes(&constraint, "ncaa"));
    assert!(passes(&constraint, "NCAA"));
    assert!(!passes(&constraint, "red"));
    assert!(!passes(&constraint, "NC"));
    for text in ["NC ", " NC", "NCNC", "nc", "N", "NC\n"] {
        assert!(matches!(str_to_constraint(text).unwrap(), AnyConstraint::Matches(_)));
    }
}

#[test]
fn text_around_the_brackets_makes_an_atom_a_text_to_match() {
    for text in ["SW(t)abc", "xSW(t)", "SW(t) ", "RW(ted)x", " RW(ted)", "SW(t", "SW", "RW)", "SW(t)\n"] {
        match str_to_constraint(text).unwrap() {
            AnyConstraint::Matches(inner) => assert_eq!(text.to_lowercase(), inner.state),
            _ => panic!("expected a match constraint"),
        }
    }
    let constraint = str_to_constraint("SW(t)abc").unwrap();
    assert!(passes(&constraint, "sw(t)abc"));
    assert!(!passes(&constraint, "ted"));
}

#[test]
fn a_line_break_in_the_brackets_makes_an_atom_a_text_to_match() {
    for text in ["SW(a\nb)", "RW(\n)", "SW(\n)"] {
        assert!(matches!(str_to_constraint(text).unwrap(), AnyConstraint::Matches(_)));
    }
}

#[test]
fn the_brackets_hold_everything_up_to_the_last_closing_bracket() {
    match str_to_constraint("SW(t))").unwrap() {
        AnyConstraint::StartsWithLetter(inner) => assert_eq!('t', inner.letter),
        _ => panic!("expected a constraint on the first letter"),
    }
    match str_to_constraint("RW(a)(b)").unwrap() {
        AnyConstraint::RhymesWith(inner) => assert_eq!("a)(b", inner.word),
        _ => panic!("expected a rhyme constraint"),
    }
    match str_to_constraint("RW()").unwrap() {
        AnyConstraint::RhymesWith(inner) => assert_eq!("", inner.word),
        _ => panic!("expected a rhyme constraint"),
    }
    match str_to_constraint("SW( x)").unwrap() {
        AnyConstraint::StartsWithLetter(inner) => assert_eq!(' ', inner.letter),
        _ => panic!("expected a constraint on the first letter"),
    }
}

#[test]
fn only_the_atom_for_no_constraint_has_no_effect() {
    assert!(matches!(str_to_constraint("NC").unwrap(), AnyConstraint::Empty(_)));
    let (hidden, observed) = parse_constraint(String::from("NCAA:NC\nNC*2")).unwrap();
    assert_eq!(3, hidden.len());
    assert!(matches!(observed[0], AnyConstraint::Matches(_)));
    assert!(!passes(&observed[0], "anything"));
    assert!(passes(&observed[0], "Ncaa"));
    assert!(matches!(hidden[0], AnyConstraint::Empty(_)));
    assert!(matches!(hidden[2], AnyConstraint::Empty(_)));
}
