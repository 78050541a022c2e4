//! What a machine is to the solver: a provider of values for lookups.

use crate::analyzer::{IdentityKind, SelectedExpressions};
use crate::commit_evaluator::affine_expression::AffineExpression;
use crate::commit_evaluator::eval_error::EvalError;
use crate::commit_evaluator::FixedData;
use crate::number::FieldElement;
use vstd::prelude::*;

verus! {

/// The answer of a machine to a lookup.
#[derive(Debug)]
pub enum LookupReturn {
    /// The lookup is none of the machine's.
    NotApplicable,
    /// The lookup is the machine's, and it asks for these values in the row
    /// being solved, each for the witness column with the given id.
    Assignments(Vec<(usize, FieldElement)>),
}

/// A machine answers lookups and permutations out of a state of its own, and
/// may hold witness columns of its own.
pub trait Machine {
    /// Answers one lookup. `left` holds the values of the expressions on the
    /// left side as far as they are known, `right` the right side as it was
    /// written. An error says that the lookup is the machine's and cannot hold.
    fn process_plookup(
        &mut self,
        fixed_data: &FixedData,
        kind: IdentityKind,
        left: &Vec<Result<AffineExpression, EvalError>>,
        right: &SelectedExpressions,
    ) -> Result<LookupReturn, EvalError>;

    /// The witness columns that the machine holds, by name. Asked once, when
    /// all rows are solved.
    fn witness_col_values(&mut self, fixed_data: &FixedData) -> Vec<(String, Vec<FieldElement>)>;
}

} // verus!
