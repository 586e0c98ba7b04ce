//! Predicates on a candidate text, and their combinations.

use crate::text::{ascii_lower, lowercase, to_ascii_lower, to_chars, to_lowercase};
use vstd::prelude::*;

verus! {

/// Whether two lower-case words rhyme, as their Double Metaphone codes say.
pub uninterp spec fn rhymes(word: Seq<char>, candidate: Seq<char>) -> bool;

/// `ttaw::metaphone::rhyme`: compares the Double Metaphone codes of the two
/// words without their first letter. It answers no whenever one of the words
/// is empty.
#[verifier::external_body]
pub(crate) fn metaphone_rhyme(word: &str, candidate: &str) -> (r: bool)
    ensures
        r == rhymes(word@, candidate@),
        candidate@.len() == 0 ==> !r,
{
    ttaw::metaphone::rhyme(word, candidate)
}

/// What a constraint is, apart from how it is stored.
pub enum ConstraintModel {
    /// Every text passes.
    Empty,
    /// The lower-case form of the text is the given one.
    Matches(Seq<char>),
    /// The text starts with the letter, whatever its case.
    StartsWithLetter(char),
    /// The lower-case form of the text rhymes with the given word.
    RhymesWith(Seq<char>),
    /// All of the children hold (`true`), or at least one of them (`false`).
    Multi(Seq<ConstraintModel>, bool),
}

/// Whether the text `s` passes the constraint `c`.
pub open spec fn satisfies(c: ConstraintModel, s: Seq<char>) -> bool
    decreases c,
{
    match c {
        ConstraintModel::Empty => true,
        ConstraintModel::Matches(target) => lowercase(s) == target,
        ConstraintModel::StartsWithLetter(letter) => s.len() > 0 && ascii_lower(s[0])
            == ascii_lower(letter),
        ConstraintModel::RhymesWith(word) => rhymes(word, lowercase(s)),
        ConstraintModel::Multi(children, require_all) => if require_all {
            forall|i: int| 0 <= i < children.len() ==> satisfies(#[trigger] children[i], s)
        } else {
            exists|i: int| 0 <= i < children.len() && satisfies(#[trigger] children[i], s)
        },
    }
}

/// A list of constraints holds as a whole exactly if all of its members
/// hold, or at least one of them, as the mode asks.
pub proof fn lemma_satisfies_multi(children: Seq<ConstraintModel>, require_all: bool, s: Seq<char>)
    ensures
        require_all ==> (satisfies(ConstraintModel::Multi(children, require_all), s) <==> forall|
            i: int,
        |
            0 <= i < children.len() ==> satisfies(#[trigger] children[i], s)),
        !require_all ==> (satisfies(ConstraintModel::Multi(children, require_all), s) <==> exists|
            i: int,
        |
            0 <= i < children.len() && satisfies(#[trigger] children[i], s)),
{
    let c = ConstraintModel::Multi(children, require_all);
    assert(c->Multi_0 == children);
    assert(c->Multi_1 == require_all);
}

/// A predicate on a candidate text.
pub trait Constraint {
    /// The constraint that this value stands for.
    spec fn model(&self) -> ConstraintModel;

    /// Whether `state` passes the constraint.
    fn is_satisfied_by_state(&self, state: String) -> (r: bool)
        ensures
            r == satisfies(self.model(), state@),
    ;
}

/// The constraint that every text passes.
#[derive(Debug, PartialEq, Clone, Copy)]
pub struct EmptyConstraint {}

/// The constraint that a text equals a given one, whatever the case.
#[derive(Debug, PartialEq)]
pub struct MatchesConstraint {
    pub state: String,
}

/// The constraint that a text starts with a given letter, whatever the case.
#[derive(Debug, PartialEq, Clone, Copy)]
pub struct StartsWithLetterConstraint {
    pub letter: char,
}

/// The constraint that a text rhymes with a given word.
#[derive(Debug, PartialEq)]
pub struct RhymesWithConstraint {
    pub word: String,
}

/// Several constraints, of which all or at least one must hold.
#[derive(Debug, PartialEq)]
pub struct MultiConstraint {
    pub constraints: Vec<AnyConstraint>,
    pub require_all: bool,
}

/// Any one of the constraints.
#[derive(Debug, PartialEq)]
pub enum AnyConstraint {
    Empty(EmptyConstraint),
    Matches(MatchesConstraint),
    StartsWithLetter(StartsWithLetterConstraint),
    RhymesWith(RhymesWithConstraint),
    Multi(MultiConstraint),
}

/// The models of a list of constraints.
pub open spec fn models(cs: Seq<AnyConstraint>) -> Seq<ConstraintModel>
    decreases cs, 0nat,
{
    Seq::new(
        cs.len(),
        |i: int|
            if 0 <= i < cs.len() {
                model_of(cs[i])
            } else {
                ConstraintModel::Empty
            },
    )
}

/// The model of a constraint.
pub open spec fn model_of(c: AnyConstraint) -> ConstraintModel
    decreases c, 1nat,
{
    match c {
        AnyConstraint::Empty(_) => ConstraintModel::Empty,
        AnyConstraint::Matches(m) => ConstraintModel::Matches(m.state@),
        AnyConstraint::StartsWithLetter(m) => ConstraintModel::StartsWithLetter(m.letter),
        AnyConstraint::RhymesWith(m) => ConstraintModel::RhymesWith(m.word@),
        AnyConstraint::Multi(m) => ConstraintModel::Multi(models(m.constraints@), m.require_all),
    }
}

/// Whether `state` passes the constraint `c`.
pub fn check(c: &AnyConstraint, state: &str) -> (r: bool)
    ensures
        r == satisfies(model_of(*c), state@),
        state@.len() == 0 && (c is Matches) ==> (r <==> c->Matches_0.state@.len() == 0),
        state@.len() == 0 && (c is StartsWithLetter || c is RhymesWith) ==> !r,
    decreases c, 1nat,
{
    match c {
        AnyConstraint::Empty(_) => true,
        AnyConstraint::Matches(m) => {
            let lowered = to_lowercase(state);
            proof {
                if lowered@.len() == 0 && m.state@.len() == 0 {
                    assert(lowered@ =~= m.state@);
                }
            }
            lowered == m.state
        },
        AnyConstraint::StartsWithLetter(m) => {
            let chars = to_chars(state);
            chars.len() > 0 && to_ascii_lower(chars[0]) == to_ascii_lower(m.letter)
        },
        AnyConstraint::RhymesWith(m) => {
            let lowered = to_lowercase(state);
            metaphone_rhyme(m.word.as_str(), lowered.as_str())
        },
        AnyConstraint::Multi(m) => check_multi(m, state),
    }
}

/// Whether `state` passes all of the constraints in `m`, or at least one of
/// them, as `m` asks.
pub fn check_multi(m: &MultiConstraint, state: &str) -> (r: bool)
    ensures
        r == satisfies(ConstraintModel::Multi(models(m.constraints@), m.require_all), state@),
    decreases m, 0nat,
{
    let ghost children = models(m.constraints@);
    let mut i: usize = 0;
    while i < m.constraints.len()
        invariant
            i <= m.constraints.len(),
            children == models(m.constraints@),
            children.len() == m.constraints.len(),
            m.require_all ==> forall|j: int| 0 <= j < i ==> satisfies(#[trigger] children[j], state@),
            !m.require_all ==> forall|j: int|
                0 <= j < i ==> !satisfies(#[trigger] children[j], state@),
        decreases m.constraints.len() - i,
    {
        let passed = check(&m.constraints[i], state);
        assert(children[i as int] == model_of(m.constraints@[i as int]));
        assert(passed == satisfies(children[i as int], state@));
        if m.require_all && !passed {
            proof {
                lemma_satisfies_multi(children, true, state@);
            }
            return false;
        }
        if !m.require_all && passed {
            proof {
                lemma_satisfies_multi(children, false, state@);
            }
            return true;
        }
        i += 1;
    }
    proof {
        lemma_satisfies_multi(children, m.require_all, state@);
    }
    m.require_all
}

impl EmptyConstraint {
    /// The constraint that every text passes.
    pub fn new() -> (r: EmptyConstraint)
        ensures
            r.model() == ConstraintModel::Empty,
    {
        EmptyConstraint {  }
    }
}

impl Constraint for EmptyConstraint {
    open spec fn model(&self) -> ConstraintModel {
        ConstraintModel::Empty
    }

    fn is_satisfied_by_state(&self, state: String) -> (r: bool) {
        true
    }
}

impl MatchesConstraint {
    /// The constraint that a text equals `state`, whatever the case.
    pub fn new(state: String) -> (r: MatchesConstraint)
        ensures
            r.state@ == lowercase(state@),
            r.state@.len() >= state@.len(),
            state@.len() == 0 ==> r.state@.len() == 0,
            r.model() == ConstraintModel::Matches(lowercase(state@)),
    {
        MatchesConstraint { state: to_lowercase(state.as_str()) }
    }
}

impl Clone for MatchesConstraint {
    fn clone(&self) -> (r: MatchesConstraint)
        ensures
            r.state@ == self.state@,
    {
        MatchesConstraint { state: self.state.clone() }
    }
}

impl Constraint for MatchesConstraint {
    open spec fn model(&self) -> ConstraintModel {
        ConstraintModel::Matches(self.state@)
    }

    fn is_satisfied_by_state(&self, state: String) -> (r: bool)
        ensures
            state@.len() == 0 ==> (r <==> self.state@.len() == 0),
    {
        let lowered = to_lowercase(state.as_str());
        proof {
            if lowered@.len() == 0 && self.state@.len() == 0 {
                assert(lowered@ =~= self.state@);
            }
        }
        lowered == self.state
    }
}

impl StartsWithLetterConstraint {
    /// The constraint that a text starts with `letter`, whatever the case.
    pub fn new(letter: char) -> (r: StartsWithLetterConstraint)
        ensures
            r.letter == letter,
            r.model() == ConstraintModel::StartsWithLetter(letter),
    {
        StartsWithLetterConstraint { letter }
    }
}

impl Constraint for StartsWithLetterConstraint {
    open spec fn model(&self) -> ConstraintModel {
        ConstraintModel::StartsWithLetter(self.letter)
    }

    fn is_satisfied_by_state(&self, state: String) -> (r: bool)
        ensures
            state@.len() == 0 ==> !r,
    {
        let chars = to_chars(state.as_str());
        chars.len() > 0 && to_ascii_lower(chars[0]) == to_ascii_lower(self.letter)
    }
}

impl RhymesWithConstraint {
    /// The constraint that a text rhymes with `word`.
    pub fn new(word: String) -> (r: RhymesWithConstraint)
        ensures
            r.word@ == lowercase(word@),
            r.word@.len() >= word@.len(),
            word@.len() == 0 ==> r.word@.len() == 0,
            r.model() == ConstraintModel::RhymesWith(lowercase(word@)),
    {
        RhymesWithConstraint { word: to_lowercase(word.as_str()) }
    }
}

impl Clone for RhymesWithConstraint {
    fn clone(&self) -> (r: RhymesWithConstraint)
        ensures
            r.word@ == self.word@,
    {
        RhymesWithConstraint { word: self.word.clone() }
    }
}

impl Constraint for RhymesWithConstraint {
    open spec fn model(&self) -> ConstraintModel {
        ConstraintModel::RhymesWith(self.word@)
    }

    fn is_satisfied_by_state(&self, state: String) -> (r: bool)
        ensures
            state@.len() == 0 ==> !r,
    {
        let lowered = to_lowercase(state.as_str());
        metaphone_rhyme(self.word.as_str(), lowered.as_str())
    }
}

impl MultiConstraint {
    /// The constraint that all of `constraints` hold (`require_all`), or at
    /// least one of them.
    pub fn new(constraints: Vec<AnyConstraint>, require_all: bool) -> (r: MultiConstraint)
        ensures
            r.constraints == constraints,
            r.require_all == require_all,
            r.model() == ConstraintModel::Multi(models(constraints@), require_all),
    {
        MultiConstraint { constraints, require_all }
    }
}

impl Clone for MultiConstraint {
    fn clone(&self) -> (r: MultiConstraint)
        ensures
            models(r.constraints@) == models(self.constraints@),
            r.require_all == self.require_all,
    {
        self.constraint_clone()
    }
}

impl Constraint for MultiConstraint {
    open spec fn model(&self) -> ConstraintModel {
        ConstraintModel::Multi(models(self.constraints@), self.require_all)
    }

    fn is_satisfied_by_state(&self, state: String) -> (r: bool) {
        check_multi(self, state.as_str())
    }
}

impl AnyConstraint {
    /// A copy of this constraint.
    pub fn constraint_clone(&self) -> (r: AnyConstraint)
        ensures
            model_of(r) == model_of(*self),
        decreases self, 1nat,
    {
        match self {
            AnyConstraint::Empty(_) => AnyConstraint::Empty(EmptyConstraint {  }),
            AnyConstraint::Matches(m) => AnyConstraint::Matches(
                MatchesConstraint { state: m.state.clone() },
            ),
            AnyConstraint::StartsWithLetter(m) => AnyConstraint::StartsWithLetter(
                StartsWithLetterConstraint { letter: m.letter },
            ),
            AnyConstraint::RhymesWith(m) => AnyConstraint::RhymesWith(
                RhymesWithConstraint { word: m.word.clone() },
            ),
            AnyConstraint::Multi(m) => AnyConstraint::Multi(m.constraint_clone()),
        }
    }
}

impl MultiConstraint {
    /// A copy of this constraint.
    pub fn constraint_clone(&self) -> (r: MultiConstraint)
        ensures
            models(r.constraints@) == models(self.constraints@),
            r.require_all == self.require_all,
        decreases self, 0nat,
    {
        let mut copies: Vec<AnyConstraint> = Vec::new();
        let mut i: usize = 0;
        while i < self.constraints.len()
            invariant
                i <= self.constraints.len(),
                copies.len() == i,
                forall|j: int| 0 <= j < i ==> model_of(#[trigger] copies@[j]) == model_of(self.constraints@[j]),
            decreases self.constraints.len() - i,
        {
            let copy = self.constraints[i].constraint_clone();
            copies.push(copy);
            i += 1;
        }
        assert(models(copies@) =~= models(self.constraints@));
        MultiConstraint { constraints: copies, require_all: self.require_all }
    }
}

impl Clone for AnyConstraint {
    fn clone(&self) -> (r: AnyConstraint)
        ensures
            model_of(r) == model_of(*self),
    {
        self.constraint_clone()
    }
}

impl Constraint for AnyConstraint {
    open spec fn model(&self) -> ConstraintModel {
        model_of(*self)
    }

    fn is_satisfied_by_state(&self, state: String) -> (r: bool) {
        check(self, state.as_str())
    }
}

} // verus!
