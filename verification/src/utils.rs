//! Small helpers shared by the models and their users.

pub use crate::corpus::START_TOKEN;

use crate::constraints::{
    models, AnyConstraint, ConstraintModel, EmptyConstraint, MatchesConstraint, MultiConstraint,
    StartsWithLetterConstraint,
};
use crate::text::lowercase;
use vstd::prelude::*;

verus! {

/// Constraints on the surface forms of a sequence of four: the first word
/// starts with `t` or `f`, the last one is `red`.
pub fn get_test_constraints() -> (r: Vec<AnyConstraint>)
    ensures
        models(r@) == seq![
            ConstraintModel::Multi(
                seq![ConstraintModel::StartsWithLetter('t'), ConstraintModel::StartsWithLetter('f')],
                false,
            ),
            ConstraintModel::Empty,
            ConstraintModel::Empty,
            ConstraintModel::Matches(lowercase("red"@)),
        ],
{
    let mut letters: Vec<AnyConstraint> = Vec::new();
    letters.push(AnyConstraint::StartsWithLetter(StartsWithLetterConstraint::new('t')));
    letters.push(AnyConstraint::StartsWithLetter(StartsWithLetterConstraint::new('f')));
    proof {
        assert(models(letters@) =~= seq![
            ConstraintModel::StartsWithLetter('t'),
            ConstraintModel::StartsWithLetter('f'),
        ]);
    }
    let mut observed_constraints: Vec<AnyConstraint> = Vec::new();
    observed_constraints.push(AnyConstraint::Multi(MultiConstraint::new(letters, false)));
    observed_constraints.push(AnyConstraint::Empty(EmptyConstraint::new()));
    observed_constraints.push(AnyConstraint::Empty(EmptyConstraint::new()));
    observed_constraints.push(
        AnyConstraint::Matches(MatchesConstraint::new("red".to_owned())),
    );
    proof {
        assert(models(observed_constraints@) =~= seq![
            ConstraintModel::Multi(
                seq![ConstraintModel::StartsWithLetter('t'), ConstraintModel::StartsWithLetter('f')],
                false,
            ),
            ConstraintModel::Empty,
            ConstraintModel::Empty,
            ConstraintModel::Matches(lowercase("red"@)),
        ]);
    }
    observed_constraints
}

} // verus!
