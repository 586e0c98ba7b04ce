use constrained_hmm::corpus::{join_with_spaces, split_token, split_tokens, to_owned_all};
use constrained_hmm::errors::CorpusFormatError;
use constrained_hmm::hidden_markov::start_context;
use constrained_hmm::sampling::{next_token, random_draws};
use constrained_hmm::distribution::Entry;
use constrained_hmm::text::{
    extend_chars, find_from, from_chars, push_text, same_text, split, to_ascii_lower, to_chars,
    words,
};
use constrained_hmm::weight::Weight;

fn chars(text: &str) -> Vec<char> {
    text.chars().collect()
}

#[test]
fn characters_of_a_text_and_back() {
    assert_eq!(vec!['a', 'ß', '日'], to_chars("aß日"));
    assert_eq!(Vec::<char>::new(), to_chars(""));
    let all = chars("hello world");
    assert_eq!("lo w", from_chars(&all, 3, 7));
    assert_eq!("", from_chars(&all, 4, 4));
    assert_eq!("hello world", from_chars(&all, 0, all.len()));
}

#[test]
fn ascii_capitals_are_lowered_and_nothing_else() {
    assert_eq!('a', to_ascii_lower('A'));
    assert_eq!('z', to_ascii_lower('Z'));
    assert_eq!('m', to_ascii_lower('m'));
    assert_eq!('@', to_ascii_lower('@'));
    assert_eq!('[', to_ascii_lower('['));
    assert_eq!('É', to_ascii_lower('É'));
    for c in ['A', 'Q', 'Z', 'a', '0', ' ', 'Ä', 'ß'] {
        assert_eq!(c.to_ascii_lowercase(), to_ascii_lower(c));
    }
}

#[test]
fn texts_are_compared_by_their_characters() {
    assert!(same_text("abc", "abc"));
    assert!(same_text("", ""));
    assert!(!same_text("abc", "abd"));
    assert!(!same_text("abc", "ab"));
}

#[test]
fn the_first_separator_is_found() {
    let all = chars("a:b:c");
    assert_eq!(1, find_from(&all, ':', 0));
    assert_eq!(1, find_from(&all, ':', 1));
    assert_eq!(3, find_from(&all, ':', 2));
    assert_eq!(5, find_from(&all, ':', 4));
    assert_eq!(5, find_from(&all, ':', 5));
    assert_eq!(5, find_from(&all, '*', 0));
}

#[test]
fn splitting_keeps_the_empty_pieces() {
    assert_eq!(vec!["a", "b", "c"], split(&chars("a:b:c"), ':'));
    assert_eq!(vec!["", "a", "", "b", ""], split(&chars(":a::b:"), ':'));
    assert_eq!(vec![""], split(&chars(""), ':'));
    assert_eq!(vec!["abc"], split(&chars("abc"), ':'));
    for text in ["", "x", "\n", "a\nb", "a\n\nb\n", "\n\n"] {
        let expected: Vec<&str> = text.split('\n').collect();
        assert_eq!(expected, split(&chars(text), '\n'));
    }
}

#[test]
fn words_are_runs_without_white_space() {
    assert_eq!(vec!["Ted:NNP", "now:RB"], words(&chars("Ted:NNP now:RB")));
    assert_eq!(vec!["a", "b", "c"], words(&chars("  a \t b\u{a0}\u{2003}c\r\n")));
    assert_eq!(Vec::<String>::new(), words(&chars("")));
    assert_eq!(Vec::<String>::new(), words(&chars(" \t\n")));
    for text in ["", " ", "a", " a", "a ", "a  b", "\u{3000}x\u{85}y"] {
        let expected: Vec<&str> = text.split_whitespace().collect();
        assert_eq!(expected, words(&chars(text)));
    }
}

#[test]
fn texts_are_appended() {
    let mut text = String::from("ab");
    push_text(&mut text, "cd");
    push_text(&mut text, "");
    assert_eq!("abcd", text);
    let mut all = chars("ab");
    extend_chars(&mut all, "çd");
    assert_eq!(chars("abçd"), all);
}

#[test]
fn texts_are_joined_with_spaces() {
    let parts: Vec<String> = vec!["a", "b", "c", "d"].into_iter().map(String::from).collect();
    assert_eq!("a b c d", join_with_spaces(&parts, 0, 4));
    assert_eq!("b c", join_with_spaces(&parts, 1, 3));
    assert_eq!("c", join_with_spaces(&parts, 2, 3));
    assert_eq!("", join_with_spaces(&parts, 2, 2));
}

#[test]
fn the_start_context_repeats_the_start_token() {
    assert_eq!("<<START>>", start_context(1));
    assert_eq!("<<START>> <<START>> <<START>>", start_context(3));
    assert_eq!("", start_context(0));
}

#[test]
fn tokens_are_split_in_a_row() {
    let tokens = to_owned_all(&vec!["a:X", "b:Y", "broken"]);
    assert_eq!(vec!["a:X", "b:Y", "broken"], tokens);
    let (surfaces, labels) = split_tokens(&tokens, 2).unwrap();
    assert_eq!(vec!["a", "b"], surfaces);
    assert_eq!(vec!["X", "Y"], labels);
    assert_eq!(Some(CorpusFormatError::MissingSeparator), split_tokens(&tokens, 3).err());
    let (surfaces, labels) = split_tokens(&tokens, 0).unwrap();
    assert!(surfaces.is_empty() && labels.is_empty());
    assert_eq!(Ok((String::from(""), String::from("X"))), split_token(":X"));
}

#[test]
fn the_next_token_is_the_first_whose_running_total_exceeds_the_draw() {
    let row = vec![
        Entry { key: String::from("a"), weight: Weight::from_ratio(1, 4).unwrap() },
        Entry { key: String::from("b"), weight: Weight::zero() },
        Entry { key: String::from("c"), weight: Weight::from_ratio(1, 2).unwrap() },
    ];
    assert_eq!("a", next_token(&row, 0));
    assert_eq!("a", next_token(&row, (1u64 << 62) - 1));
    assert_eq!("c", next_token(&row, 1u64 << 62));
    assert_eq!("c", next_token(&row, (3u64 << 62) - 1));
    assert_eq!("", next_token(&row, 3u64 << 62));
    assert_eq!("", next_token(&row, u64::MAX));
    assert_eq!("", next_token(&Vec::new(), 0));
}

#[test]
fn random_draws_come_in_the_number_asked_for() {
    assert_eq!(0, random_draws(0).len());
    assert_eq!(17, random_draws(17).len());
}
