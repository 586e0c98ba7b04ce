//! The textual specification of constraints: one line for each position, or
//! for a run of positions.

use crate::constraints::{
    model_of, models, AnyConstraint, ConstraintModel, EmptyConstraint, MatchesConstraint,
    RhymesWithConstraint, StartsWithLetterConstraint,
};
use crate::errors::ParseError;
use crate::text::{first_index, lemma_first_index, lowercase, split, split_on, to_chars, views};
use regex::Regex;
use vstd::prelude::*;

verus! {

/// The pattern of an atom for a first letter.
pub const STARTS_WITH_PATTERN: &'static str = "^SW\\((.*)\\)$";

/// The pattern of an atom for a rhyme.
pub const RHYMES_WITH_PATTERN: &'static str = "^RW\\((.*)\\)$";

/// The pattern of the atom for no constraint.
pub const NO_CONSTRAINT_PATTERN: &'static str = "^NC$";

/// How an atom for a first letter opens.
pub const STARTS_WITH_OPENING: &'static str = "SW(";

/// How an atom for a rhyme opens.
pub const RHYMES_WITH_OPENING: &'static str = "RW(";

/// The atom for no constraint.
pub const NO_CONSTRAINT_ATOM: &'static str = "NC";

/// What stands in the brackets of an atom: the text between the opening
/// and the closing bracket, where the atom is made of just these three and
/// no line break stands in the brackets.
pub open spec fn bracketed(text: Seq<char>, opening: Seq<char>) -> Option<Seq<char>> {
    let inner = text.subrange(opening.len() as int, text.len() - 1);
    if text.len() > opening.len() && text.take(opening.len() as int) == opening && text.last()
        == ')' && !inner.contains('\n') {
        Some(inner)
    } else {
        None
    }
}

/// The characters of a text that may be missing.
pub open spec fn text_of(found: Option<String>) -> Option<Seq<char>> {
    match found {
        Some(s) => Some(s@),
        None => None,
    }
}

/// `Regex::captures` of the crate `regex`, on the expression that
/// `Regex::new` makes of the pattern: the text of the first group in the
/// leftmost match. The two patterns of atoms with brackets are anchored at
/// both ends of the text, their group takes any characters but line breaks,
/// and the brackets around it stand for themselves: so they match exactly
/// the texts that are an opening, characters without a line break, and a
/// closing bracket, and the group is what stands between.
#[verifier::external_body]
pub(crate) fn first_group(pattern: &str, text: &str) -> (r: Option<String>)
    ensures
        pattern@ == STARTS_WITH_PATTERN@ ==> text_of(r) == bracketed(text@, STARTS_WITH_OPENING@),
        pattern@ == RHYMES_WITH_PATTERN@ ==> text_of(r) == bracketed(text@, RHYMES_WITH_OPENING@),
{
    match Regex::new(pattern) {
        Ok(re) => match re.captures(text) {
            Some(found) => match found.get(1) {
                Some(group) => Some(group.as_str().to_string()),
                None => None,
            },
            None => None,
        },
        Err(_) => None,
    }
}

/// `Regex::is_match` of the crate `regex`, on the expression that
/// `Regex::new` makes of the pattern. The pattern of the atom for no
/// constraint is anchored at both ends of the text and holds two letters
/// between: it matches that atom and no other text.
#[verifier::external_body]
pub(crate) fn has_match(pattern: &str, text: &str) -> (r: bool)
    ensures
        pattern@ == NO_CONSTRAINT_PATTERN@ ==> r == (text@ == NO_CONSTRAINT_ATOM@),
{
    match Regex::new(pattern) {
        Ok(re) => re.is_match(text),
        Err(_) => false,
    }
}

/// The constraint that an atom stands for, given what is found in it: the
/// text in the brackets of an atom for a first letter, else that of an atom
/// for a rhyme, else that it is the atom for no constraint, else the atom
/// itself as the text to match.
pub open spec fn atom_model(
    starts_with: Option<Seq<char>>,
    rhymes_with: Option<Seq<char>>,
    no_constraint: bool,
    literal: Seq<char>,
) -> Result<ConstraintModel, ParseError> {
    match starts_with {
        Some(letters) => if letters.len() > 0 {
            Ok(ConstraintModel::StartsWithLetter(letters[0]))
        } else {
            Err(ParseError::MissingLetter)
        },
        None => match rhymes_with {
            Some(word) => Ok(ConstraintModel::RhymesWith(lowercase(word))),
            None => if no_constraint {
                Ok(ConstraintModel::Empty)
            } else {
                Ok(ConstraintModel::Matches(lowercase(literal)))
            },
        },
    }
}

/// The constraint that an atom stands for: `SW(x)` asks for the first
/// letter of `x`, `RW(word)` for a rhyme with `word`, `NC` for nothing, and
/// any other text for itself, whatever the case.
pub open spec fn atom(text: Seq<char>) -> Result<ConstraintModel, ParseError> {
    atom_model(
        bracketed(text, STARTS_WITH_OPENING@),
        bracketed(text, RHYMES_WITH_OPENING@),
        text == NO_CONSTRAINT_ATOM@,
        text,
    )
}

/// The constraint that an atom stands for, given what is found in it.
pub fn constraint_from_matches(
    starts_with: Option<String>,
    rhymes_with: Option<String>,
    no_constraint: bool,
    literal: &str,
) -> (r: Result<AnyConstraint, ParseError>)
    ensures
        match atom_model(text_of(starts_with), text_of(rhymes_with), no_constraint, literal@) {
            Ok(m) => r matches Ok(c) && model_of(c) == m,
            Err(e) => r matches Err(f) && f == e,
        },
{
    match starts_with {
        Some(letters) => {
            let chars = to_chars(letters.as_str());
            if chars.len() > 0 {
                Ok(AnyConstraint::StartsWithLetter(StartsWithLetterConstraint::new(chars[0])))
            } else {
                Err(ParseError::MissingLetter)
            }
        },
        None => match rhymes_with {
            Some(word) => Ok(AnyConstraint::RhymesWith(RhymesWithConstraint::new(word))),
            None => if no_constraint {
                Ok(AnyConstraint::Empty(EmptyConstraint::new()))
            } else {
                Ok(AnyConstraint::Matches(MatchesConstraint::new(literal.to_owned())))
            },
        },
    }
}

/// Reads one atom: `SW(x)` asks for the first letter `x`, `RW(word)` for a
/// rhyme with `word`, `NC` for nothing, and any other text for itself.
pub fn str_to_constraint(text: &str) -> (r: Result<AnyConstraint, ParseError>)
    ensures
        match atom(text@) {
            Ok(m) => r matches Ok(c) && model_of(c) == m,
            Err(e) => r matches Err(f) && f == e,
        },
{
    let starts_with = first_group(STARTS_WITH_PATTERN, text);
    let rhymes_with = first_group(RHYMES_WITH_PATTERN, text);
    let no_constraint = has_match(NO_CONSTRAINT_PATTERN, text);
    constraint_from_matches(starts_with, rhymes_with, no_constraint, text)
}

/// The value of a decimal digit.
pub open spec fn digit(c: char) -> int {
    c as int - '0' as int
}

/// Whether the text is made of decimal digits.
pub open spec fn all_digits(s: Seq<char>) -> bool {
    forall|i: int| 0 <= i < s.len() ==> '0' <= #[trigger] s[i] <= '9'
}

/// The number that a text of decimal digits stands for.
pub open spec fn decimal_value(s: Seq<char>) -> int
    decreases s.len(),
{
    if s.len() == 0 {
        0
    } else {
        decimal_value(s.drop_last()) * 10 + digit(s.last())
    }
}

/// The whole number that a text stands for: a sign or none, then at least
/// one decimal digit, the value within the range of `i32`.
pub open spec fn parsed_count(s: Seq<char>) -> Option<int> {
    let signed = s.len() > 0 && (s[0] == '-' || s[0] == '+');
    let digits = if signed {
        s.skip(1)
    } else {
        s
    };
    let value = if s.len() > 0 && s[0] == '-' {
        -decimal_value(digits)
    } else {
        decimal_value(digits)
    };
    if digits.len() > 0 && all_digits(digits) && i32::MIN <= value <= i32::MAX {
        Some(value)
    } else {
        None
    }
}

/// A text of digits stands for no less than each of its prefixes.
proof fn lemma_decimal_grows(s: Seq<char>, k: int)
    requires
        all_digits(s),
        0 <= k <= s.len(),
    ensures
        0 <= decimal_value(s.take(k)) <= decimal_value(s),
    decreases s.len() - k,
{
    if k < s.len() {
        lemma_decimal_grows(s, k + 1);
        assert(s.take(k + 1).drop_last() == s.take(k));
        assert(s.take(k + 1).last() == s[k]);
        lemma_decimal_nonneg(s.take(k));
    } else {
        assert(s.take(k) == s);
        lemma_decimal_nonneg(s);
    }
}

/// A text of digits stands for a number that is not negative.
proof fn lemma_decimal_nonneg(s: Seq<char>)
    requires
        all_digits(s),
    ensures
        0 <= decimal_value(s),
    decreases s.len(),
{
    if s.len() > 0 {
        assert forall|i: int| 0 <= i < s.drop_last().len() implies '0' <= #[trigger] s.drop_last()[i]
            <= '9' by {
            assert(s.drop_last()[i] == s[i]);
        }
        lemma_decimal_nonneg(s.drop_last());
        assert(s.last() == s[s.len() - 1]);
    }
}

/// Reads a whole number in the range of `i32`.
pub fn parse_count(text: &str) -> (r: Option<i32>)
    ensures
        match parsed_count(text@) {
            Some(v) => r == Some(v as i32) && v as i32 == v,
            None => r is None,
        },
{
    let chars = to_chars(text);
    let negative = chars.len() > 0 && chars[0] == '-';
    let start: usize = if chars.len() > 0 && (chars[0] == '-' || chars[0] == '+') {
        1
    } else {
        0
    };
    let ghost digits = chars@.skip(start as int);
    proof {
        assert(chars@.skip(0) == chars@);
    }
    if start >= chars.len() {
        return None;
    }
    let mut value: i64 = 0;
    let mut i: usize = start;
    while i < chars.len()
        invariant
            start <= i <= chars.len(),
            chars@ == text@,
            start == if chars.len() > 0 && (chars[0] == '-' || chars[0] == '+') {
                1usize
            } else {
                0usize
            },
            digits == chars@.skip(start as int),
            start == 0 ==> digits == text@,
            digits.len() > 0,
            forall|j: int| 0 <= j < i - start ==> '0' <= #[trigger] digits[j] <= '9',
            value == decimal_value(digits.take(i - start)),
            0 <= value <= 0x8000_0000,
        decreases chars.len() - i,
    {
        let c = chars[i];
        assert(digits[i - start] == c);
        if !('0' <= c && c <= '9') {
            return None;
        }
        proof {
            assert(digits.take(i - start + 1).drop_last() == digits.take(i - start));
            assert(digits.take(i - start + 1).last() == c);
        }
        let d: i64 = (c as u8 - '0' as u8) as i64;
        value = value * 10 + d;
        if value > 0x8000_0000 {
            proof {
                if all_digits(digits) {
                    lemma_decimal_grows(digits, i - start + 1);
                }
            }
            return None;
        }
        i += 1;
    }
    proof {
        assert(digits.take(i - start) == digits);
        assert(all_digits(digits));
    }
    if negative {
        Some((-value) as i32)
    } else if value <= 0x7fff_ffff {
        Some(value as i32)
    } else {
        None
    }
}

/// As many copies of a constraint as a count says; none for a count under 1.
pub open spec fn run_of(m: ConstraintModel, count: int) -> Seq<ConstraintModel> {
    Seq::new(
        if count > 0 {
            count as nat
        } else {
            0
        },
        |i: int| m,
    )
}

/// What a line for a run of positions adds to the constraints on the hidden
/// labels and to those on the surface forms: the atom before the first `*`,
/// as often as the number behind it says, on both sides.
pub open spec fn run_models(line: Seq<char>) -> Result<
    (Seq<ConstraintModel>, Seq<ConstraintModel>),
    ParseError,
> {
    let parts = split_on(line, '*');
    match atom(parts[0]) {
        Err(e) => Err(e),
        Ok(m) => if parts.len() < 2 {
            Err(ParseError::InvalidCount)
        } else {
            match parsed_count(parts[1]) {
                None => Err(ParseError::InvalidCount),
                Some(count) => Ok((run_of(m, count), run_of(m, count))),
            }
        },
    }
}

/// What a line for one position adds to the constraints on the hidden
/// labels and to those on the surface forms: the atom behind its first `:`
/// for the hidden label, the one before it for the surface form.
pub open spec fn position_models(line: Seq<char>) -> Result<
    (Seq<ConstraintModel>, Seq<ConstraintModel>),
    ParseError,
> {
    let parts = split_on(line, ':');
    if parts.len() < 2 {
        Err(ParseError::MissingSeparator)
    } else {
        match atom(parts[0]) {
            Err(e) => Err(e),
            Ok(observed) => match atom(parts[1]) {
                Err(e) => Err(e),
                Ok(hidden) => Ok((seq![hidden], seq![observed])),
            },
        }
    }
}

/// What a line of the specification adds: a line with `*` stands for a run
/// of positions, any other line for one position.
pub open spec fn line_models(line: Seq<char>) -> Result<
    (Seq<ConstraintModel>, Seq<ConstraintModel>),
    ParseError,
> {
    if first_index(line, '*') < line.len() {
        run_models(line)
    } else {
        position_models(line)
    }
}

/// The constraints that the first `n` lines of a specification stand for,
/// empty lines passed over: those on the hidden labels, then those on the
/// surface forms.
pub open spec fn parsed_lines(lines: Seq<Seq<char>>, n: nat) -> Result<
    (Seq<ConstraintModel>, Seq<ConstraintModel>),
    ParseError,
>
    decreases n,
{
    if n == 0 {
        Ok((Seq::empty(), Seq::empty()))
    } else {
        match parsed_lines(lines, (n - 1) as nat) {
            Err(e) => Err(e),
            Ok(before) => if lines[n - 1].len() == 0 {
                Ok(before)
            } else {
                match line_models(lines[n - 1]) {
                    Err(e) => Err(e),
                    Ok(more) => Ok((before.0 + more.0, before.1 + more.1)),
                }
            },
        }
    }
}

/// Splitting gives at least one piece.
proof fn lemma_split_nonempty(s: Seq<char>, sep: char)
    ensures
        split_on(s, sep).len() >= 1,
    decreases s.len(),
{
    lemma_first_index(s, sep);
    let k = first_index(s, sep);
    if k < s.len() {
        lemma_split_nonempty(s.skip(k + 1), sep);
    }
}

/// Appends `count` copies of the constraint.
fn push_copies(list: &mut Vec<AnyConstraint>, constraint: &AnyConstraint, count: i32)
    ensures
        models(final(list)@) == models(old(list)@) + run_of(model_of(*constraint), count as int),
{
    let ghost before = models(list@);
    let ghost m = model_of(*constraint);
    let mut i: i32 = 0;
    proof {
        assert(before + Seq::new(0, |i: int| m) =~= before);
    }
    while i < count
        invariant
            0 <= i,
            i <= count || count < 0,
            count <= 0 ==> i == 0,
            m == model_of(*constraint),
            models(list@) == before + Seq::new(i as nat, |i: int| m),
        decreases count - i,
    {
        let ghost so_far = models(list@);
        list.push(constraint.constraint_clone());
        proof {
            assert(models(list@) =~= so_far.push(m));
            assert(so_far.push(m) =~= before + Seq::new((i + 1) as nat, |i: int| m));
        }
        i += 1;
    }
    proof {
        if count <= 0 {
            assert(i == 0);
        }
    }
}

/// Reads a line for a run of positions, and appends its constraints to both
/// lists. A line that cannot be read leaves the lists as they are.
pub fn add_multi_constraint(
    line: &str,
    hidden: &mut Vec<AnyConstraint>,
    observed: &mut Vec<AnyConstraint>,
) -> (r: Result<(), ParseError>)
    ensures
        match run_models(line@) {
            Ok(more) => r is Ok && models(final(hidden)@) == models(old(hidden)@) + more.0 && models(
                final(observed)@,
            ) == models(old(observed)@) + more.1,
            Err(e) => r matches Err(f) && f == e && *final(hidden) == *old(hidden) && *final(observed)
                == *old(observed),
        },
{
    let chars = to_chars(line);
    let parts = split(&chars, '*');
    proof {
        lemma_split_nonempty(line@, '*');
        assert(views(parts@).len() == parts.len());
        assert(views(parts@)[0] == parts[0]@);
    }
    let constraint = match str_to_constraint(parts[0].as_str()) {
        Ok(c) => c,
        Err(e) => {
            return Err(e);
        },
    };
    if parts.len() < 2 {
        return Err(ParseError::InvalidCount);
    }
    proof {
        assert(views(parts@)[1] == parts[1]@);
    }
    let count = match parse_count(parts[1].as_str()) {
        Some(count) => count,
        None => {
            return Err(ParseError::InvalidCount);
        },
    };
    push_copies(hidden, &constraint, count);
    push_copies(observed, &constraint, count);
    Ok(())
}

/// Reads a line for one position, and appends its constraints to the lists.
/// A line that cannot be read leaves the lists as they are.
pub fn add_constraint(
    line: &str,
    hidden_constraints: &mut Vec<AnyConstraint>,
    observed_constraints: &mut Vec<AnyConstraint>,
) -> (r: Result<(), ParseError>)
    ensures
        match position_models(line@) {
            Ok(more) => r is Ok && models(final(hidden_constraints)@) == models(
                old(hidden_constraints)@,
            ) + more.0 && models(final(observed_constraints)@) == models(
                old(observed_constraints)@,
            ) + more.1,
            Err(e) => r matches Err(f) && f == e && *final(hidden_constraints) == *old(
                hidden_constraints,
            ) && *final(observed_constraints) == *old(observed_constraints),
        },
{
    let chars = to_chars(line);
    let parts = split(&chars, ':');
    proof {
        assert(views(parts@).len() == parts.len());
    }
    if parts.len() < 2 {
        return Err(ParseError::MissingSeparator);
    }
    proof {
        assert(views(parts@)[0] == parts[0]@);
        assert(views(parts@)[1] == parts[1]@);
    }
    let observed = match str_to_constraint(parts[0].as_str()) {
        Ok(c) => c,
        Err(e) => {
            return Err(e);
        },
    };
    let hidden = match str_to_constraint(parts[1].as_str()) {
        Ok(c) => c,
        Err(e) => {
            return Err(e);
        },
    };
    let ghost hidden_before = models(hidden_constraints@);
    let ghost observed_before = models(observed_constraints@);
    observed_constraints.push(observed);
    hidden_constraints.push(hidden);
    proof {
        assert(models(hidden_constraints@) =~= hidden_before + seq![model_of(hidden)]);
        assert(models(observed_constraints@) =~= observed_before + seq![model_of(observed)]);
    }
    Ok(())
}

/// Reads a specification of constraints: one line for each position or run
/// of positions. Gives the constraints on the hidden labels and those on the
/// surface forms, one of each for every position.
pub fn parse_constraint(constraint_string: String) -> (r: Result<
    (Vec<AnyConstraint>, Vec<AnyConstraint>),
    ParseError,
>)
    ensures
        match parsed_lines(
            split_on(constraint_string@, '\n'),
            split_on(constraint_string@, '\n').len(),
        ) {
            Ok(all) => r matches Ok(lists) && models(lists.0@) == all.0 && models(lists.1@) == all.1,
            Err(e) => r matches Err(f) && f == e,
        },
{
    let mut hidden_constraints: Vec<AnyConstraint> = Vec::new();
    let mut observed_constraints: Vec<AnyConstraint> = Vec::new();
    let chars = to_chars(constraint_string.as_str());
    let lines = split(&chars, '\n');
    let ghost texts = views(lines@);
    let mut l: usize = 0;
    proof {
        assert(models(hidden_constraints@) =~= Seq::empty());
        assert(models(observed_constraints@) =~= Seq::empty());
    }
    while l < lines.len()
        invariant
            l <= lines.len(),
            texts == views(lines@),
            texts == split_on(constraint_string@, '\n'),
            parsed_lines(texts, l as nat) == Ok::<
                (Seq<ConstraintModel>, Seq<ConstraintModel>),
                ParseError,
            >((models(hidden_constraints@), models(observed_constraints@))),
        decreases lines.len() - l,
    {
        proof {
            assert(texts[l as int] == lines[l as int]@);
        }
        let line_chars = to_chars(lines[l].as_str());
        if line_chars.len() > 0 {
            let star = crate::text::find_from(&line_chars, '*', 0);
            proof {
                assert(line_chars@.skip(0) == line_chars@);
            }
            let outcome = if star < line_chars.len() {
                add_multi_constraint(
                    lines[l].as_str(),
                    &mut hidden_constraints,
                    &mut observed_constraints,
                )
            } else {
                add_constraint(lines[l].as_str(), &mut hidden_constraints, &mut observed_constraints)
            };
            match outcome {
                Ok(()) => {},
                Err(e) => {
                    proof {
                        lemma_parsed_lines_failed(texts, (l + 1) as nat, texts.len());
                    }
                    return Err(e);
                },
            }
        }
        l += 1;
    }
    Ok((hidden_constraints, observed_constraints))
}

/// A specification that cannot be read up to a line cannot be read at all.
pub proof fn lemma_parsed_lines_failed(lines: Seq<Seq<char>>, n: nat, m: nat)
    requires
        n <= m,
        parsed_lines(lines, n) is Err,
    ensures
        parsed_lines(lines, m) == parsed_lines(lines, n),
    decreases m - n,
{
    if n < m {
        lemma_parsed_lines_failed(lines, n, (m - 1) as nat);
    }
}

} // verus!
