//! The row solver.
//!
//! A row is solved in passes. A pass goes through the identities in order,
//! then through the queries. Each identity is evaluated with the values known
//! so far; what it gives is written to the row at once, so that later
//! identities of the same pass see it. A value that is written stays. The
//! passes end when one of them wrote nothing, or when the row is full.

use crate::analyzer::{Expression, Identity, IdentityKind};
use crate::commit_evaluator::affine_expression::{AffineExpression, AffineView};
use crate::commit_evaluator::eval_error::{EvalError, EvalFault};
use crate::commit_evaluator::expression_evaluator::{
    gives, known, known_value, lemma_evaluate_outcome, EvaluationData, EvaluationRow,
    EvaluationView,
};
use crate::commit_evaluator::machine::{LookupReturn, Machine};
use crate::commit_evaluator::util::{contains_next_ref, mentions_next};
use crate::commit_evaluator::{
    name_order, query_text, EvalResult, FixedData, FixedDataView, QueryExpression,
};
use crate::number::{
    element, format_number, lemma_element, number_text, DegreeType, FieldElement,
};
use crate::table::{with_entry, NameTable};
use crate::text::{decimal, decimal_string, join, join_strings, quote, quoted, views};
use vstd::prelude::*;
use vstd::string::*;

verus! {

/// The state of the solver that evaluation depends on.
pub struct RowView {
    pub fixed_data: FixedDataView,
    /// The values of the row before the one being solved.
    pub current: Seq<Option<FieldElement>>,
    /// The values of the row being solved, as far as they are known.
    pub next: Seq<Option<FieldElement>>,
    /// The row being solved.
    pub next_row: DegreeType,
}

/// What the selector on the left side of a lookup says.
pub enum SelectorDecision {
    /// The selector is zero: the lookup does not apply to the row.
    Skip,
    /// There is no selector, or it is one.
    Proceed,
    Fail(EvalFault),
}

/// What a pass, or a run of passes, leaves behind.
pub struct PassView {
    /// The values of the row being solved.
    pub next: Seq<Option<FieldElement>>,
    /// What failed in the pass that ran last: the position of the identity,
    /// or `None` for a query, and the failure.
    pub reasons: Seq<(Option<usize>, EvalFault)>,
    /// Whether an identity failed in the pass that ran last.
    pub failed: bool,
}

/// What takes part in the solving besides the fixed data.
pub struct SolverView {
    pub identities: Seq<Identity>,
    /// The number of machines.
    pub machines: nat,
    /// Whether there is a query callback.
    pub callback: bool,
}

impl PassView {
    /// A pass of which no step is done yet.
    pub open spec fn start(next: Seq<Option<FieldElement>>) -> PassView {
        PassView { next, reasons: Seq::empty(), failed: false }
    }

    /// The pass after the result of one more identity, or of a query if
    /// `identity` is `None`: assignments are written, a failure is recorded.
    pub open spec fn after(self, identity: Option<usize>, result: Result<Seq<(int, int)>, EvalFault>) -> PassView {
        match result {
            Ok(assignments) => PassView {
                next: apply_assignments(self.next, assignments, assignments.len() as int),
                ..self
            },
            Err(fault) => PassView {
                next: self.next,
                reasons: self.reasons.push((identity, fault)),
                failed: self.failed || identity is Some,
            },
        }
    }
}

/// A reason why a pass left something open.
#[derive(Debug)]
pub struct FailureReason {
    /// The position of the identity that failed; `None` for a query.
    pub identity: Option<usize>,
    pub error: EvalError,
}

impl View for FailureReason {
    type V = (Option<usize>, EvalFault);

    open spec fn view(&self) -> (Option<usize>, EvalFault) {
        (self.identity, self.error@)
    }
}

pub open spec fn reason_views(reasons: Seq<FailureReason>) -> Seq<(Option<usize>, EvalFault)> {
    Seq::new(reasons.len(), |i: int| reasons[i]@)
}

/// A row that could not be solved.
#[derive(Debug)]
pub struct RowFailure {
    pub row: DegreeType,
    /// The names of the witness columns that have no value.
    pub unknown: Vec<String>,
    /// Why the last pass left something open.
    pub reasons: Vec<FailureReason>,
    /// The values of the row as far as they are known.
    pub values: Vec<Option<FieldElement>>,
}

/// The number of values that are not known.
pub open spec fn unknown_count(values: Seq<Option<FieldElement>>) -> nat
    decreases values.len(),
{
    if values.len() == 0 {
        0
    } else {
        unknown_count(values.drop_last()) + if values.last() is None {
            1nat
        } else {
            0nat
        }
    }
}

/// A row of which nothing is known.
pub open spec fn unknown_row(width: nat) -> Seq<Option<FieldElement>> {
    Seq::new(width, |i: int| None)
}

pub open spec fn all_known(values: Seq<Option<FieldElement>>) -> bool {
    forall|i: int| 0 <= i < values.len() ==> (#[trigger] values[i]) is Some
}

/// The row with one value written, unless the column has a value already
/// or does not exist.
pub open spec fn apply_assignment(next: Seq<Option<FieldElement>>, id: int, value: int) -> Seq<
    Option<FieldElement>,
> {
    if 0 <= id < next.len() && next[id] is None {
        next.update(id, Some(element(value)))
    } else {
        next
    }
}

/// The row with the first `n` assignments written, in order.
pub open spec fn apply_assignments(
    next: Seq<Option<FieldElement>>,
    assignments: Seq<(int, int)>,
    n: int,
) -> Seq<Option<FieldElement>>
    decreases n,
{
    if n <= 0 {
        next
    } else {
        apply_assignment(
            apply_assignments(next, assignments, n - 1),
            assignments[n - 1].0,
            assignments[n - 1].1,
        )
    }
}

/// The first `n` values of `after` are those of `before` wherever `before` has one.
pub open spec fn extends(before: Seq<Option<FieldElement>>, after: Seq<Option<FieldElement>>) -> bool {
    &&& before.len() == after.len()
    &&& forall|i: int| 0 <= i < before.len() && (#[trigger] before[i]) is Some ==> after[i] == before[i]
}

pub proof fn lemma_unknown_count_bound(values: Seq<Option<FieldElement>>)
    ensures
        unknown_count(values) <= values.len(),
        unknown_count(values) == 0 <==> all_known(values),
    decreases values.len(),
{
    if values.len() > 0 {
        let front = values.drop_last();
        lemma_unknown_count_bound(front);
        if all_known(values) {
            assert forall|i: int| 0 <= i < front.len() implies (#[trigger] front[i]) is Some by {
                assert(values[i] is Some);
            }
            assert(values[values.len() - 1] is Some);
        }
        if unknown_count(values) == 0 {
            assert forall|i: int| 0 <= i < values.len() implies (#[trigger] values[i]) is Some by {
                if i < front.len() {
                    assert(front[i] is Some);
                }
            }
        }
    }
}

proof fn lemma_unknown_count_update(values: Seq<Option<FieldElement>>, id: int, value: FieldElement)
    requires
        0 <= id < values.len(),
        values[id] is None,
    ensures
        unknown_count(values.update(id, Some(value))) + 1 == unknown_count(values),
    decreases values.len(),
{
    let updated = values.update(id, Some(value));
    if id == values.len() - 1 {
        assert(updated.drop_last() =~= values.drop_last());
    } else {
        lemma_unknown_count_update(values.drop_last(), id, value);
        assert(updated.drop_last() =~= values.drop_last().update(id, Some(value)));
    }
}

/// Writing a value keeps what the row holds, and leaves one value less open
/// if it changes the row.
pub proof fn lemma_apply_assignment(next: Seq<Option<FieldElement>>, id: int, value: int)
    ensures
        extends(next, apply_assignment(next, id, value)),
        unknown_count(apply_assignment(next, id, value)) <= unknown_count(next),
        apply_assignment(next, id, value) != next ==> unknown_count(
            apply_assignment(next, id, value),
        ) < unknown_count(next),
{
    if 0 <= id < next.len() && next[id] is None {
        lemma_unknown_count_update(next, id, element(value));
    }
}

/// Writing assignments keeps what the row holds, and leaves fewer values
/// open if it changes the row.
pub proof fn lemma_apply_assignments(
    next: Seq<Option<FieldElement>>,
    assignments: Seq<(int, int)>,
    n: int,
)
    ensures
        extends(next, apply_assignments(next, assignments, n)),
        unknown_count(apply_assignments(next, assignments, n)) <= unknown_count(next),
        apply_assignments(next, assignments, n) != next ==> unknown_count(
            apply_assignments(next, assignments, n),
        ) < unknown_count(next),
    decreases n,
{
    if n > 0 {
        lemma_apply_assignments(next, assignments, n - 1);
        lemma_apply_assignment(
            apply_assignments(next, assignments, n - 1),
            assignments[n - 1].0,
            assignments[n - 1].1,
        );
    }
}

/// A row that keeps what another holds has no more values open, and as
/// many only if it is the same row.
pub proof fn lemma_extends_count(before: Seq<Option<FieldElement>>, after: Seq<Option<FieldElement>>)
    requires
        extends(before, after),
    ensures
        unknown_count(after) <= unknown_count(before),
        unknown_count(after) == unknown_count(before) ==> after == before,
    decreases before.len(),
{
    if before.len() > 0 {
        let b = before.drop_last();
        let a = after.drop_last();
        assert forall|i: int| 0 <= i < b.len() && (#[trigger] b[i]) is Some implies a[i] == b[i] by {
            assert(before[i] is Some);
        }
        lemma_extends_count(b, a);
        let last = before.len() - 1;
        if before[last] is Some {
            assert(after[last] == before[last]);
        }
        if unknown_count(after) == unknown_count(before) {
            assert(a == b);
            assert(after =~= before) by {
                assert forall|i: int| 0 <= i < before.len() implies after[i] == before[i] by {
                    if i < last {
                        assert(a[i] == after[i]);
                        assert(b[i] == before[i]);
                    }
                }
            }
        }
    } else {
        assert(after =~= before);
    }
}

/// Within a pass a value that is written stays: after any number of
/// identities the row holds what it held before.
pub proof fn lemma_pass_extends(row: RowView, identities: Seq<Identity>, k: int)
    ensures
        extends(row.next, row.pass(identities, k).next),
    decreases k,
{
    if k > 0 {
        lemma_pass_extends(row, identities, k - 1);
        let before = row.pass(identities, k - 1);
        match row.with_next(before.next).identity(identities[k - 1]) {
            Ok(assignments) => {
                lemma_apply_assignments(before.next, assignments, assignments.len() as int);
            },
            Err(_) => {},
        }
    }
}

/// Across passes a value that is written stays: when the passes end, the
/// row holds what it held at any time before.
pub proof fn lemma_solve_extends(row: RowView, identities: Seq<Identity>, passes: nat)
    ensures
        extends(row.next, row.solve(identities, passes).next),
    decreases passes,
{
    let pass = row.pass(identities, identities.len() as int);
    lemma_pass_extends(row, identities, identities.len() as int);
    if !(passes <= 1 || pass.next == row.next || all_known(pass.next)) {
        lemma_solve_extends(row.with_next(pass.next), identities, (passes - 1) as nat);
    }
}

/// A step of a pass keeps what the row holds.
pub proof fn lemma_after_extends(
    mid: PassView,
    identity: Option<usize>,
    result: Result<Seq<(int, int)>, EvalFault>,
)
    ensures
        extends(mid.next, mid.after(identity, result).next),
{
    match result {
        Ok(assignments) => {
            lemma_apply_assignments(mid.next, assignments, assignments.len() as int);
        },
        Err(_) => {},
    }
}

/// Whatever the machines answer, the identities of a pass keep what the row holds.
pub proof fn lemma_identities_keep_values(row: RowView, setup: SolverView, k: int, out: PassView)
    requires
        row.identities_may_reach(setup, k, out),
    ensures
        extends(row.next, out.next),
    decreases k,
{
    if k > 0 {
        let (mid, result) = choose|mid: PassView, result: Result<Seq<(int, int)>, EvalFault>|
            row.identities_may_reach(setup, k - 1, mid) && #[trigger] row.identity_step(
                setup,
                k - 1,
                mid,
                result,
                out,
            );
        lemma_identities_keep_values(row, setup, k - 1, mid);
        lemma_after_extends(mid, Some((k - 1) as usize), result);
    }
}

/// Whatever the callback answers, the queries of a pass keep what the row holds.
pub proof fn lemma_queries_keep_values(
    row: RowView,
    setup: SolverView,
    k: int,
    from: PassView,
    out: PassView,
)
    requires
        row.queries_may_reach(setup, k, from, out),
    ensures
        extends(from.next, out.next),
    decreases k,
{
    if k > 0 {
        let (mid, answer) = choose|mid: PassView, answer: Option<FieldElement>|
            row.queries_may_reach(setup, k - 1, from, mid) && #[trigger] row.query_step(
                setup,
                k - 1,
                mid,
                answer,
                out,
            );
        lemma_queries_keep_values(row, setup, k - 1, from, mid);
        let id = row.id_by_name(k - 1);
        if !(!setup.callback || known(mid.next, id) is Some || row.fixed_data.queries[id] is None) {
            match row.with_next(mid.next).interpolate(row.fixed_data.queries[id]->Some_0) {
                Err(fault) => {
                    lemma_after_extends(mid, None, Err(fault));
                },
                Ok(words) => {
                    lemma_after_extends(
                        mid,
                        None,
                        decision_view(
                            query_decision(
                                id as usize,
                                row.fixed_data.witness_names[id],
                                words,
                                answer,
                            ),
                        ),
                    );
                },
            }
        }
    }
}

/// Row-commit monotonicity within a pass: whatever comes from outside, a
/// value that the row holds when a pass begins is there, unchanged, when
/// the pass ends.
pub proof fn lemma_pass_keeps_values(row: RowView, setup: SolverView, out: PassView)
    requires
        row.pass_may_reach(setup, out),
    ensures
        extends(row.next, out.next),
{
    let mid = choose|mid: PassView|
        row.identities_may_reach(setup, setup.identities.len() as int, mid)
            && #[trigger] row.queries_may_reach(
            setup,
            row.fixed_data.witness_names.len() as int,
            mid,
            out,
        );
    lemma_identities_keep_values(row, setup, setup.identities.len() as int, mid);
    lemma_queries_keep_values(row, setup, row.fixed_data.witness_names.len() as int, mid, out);
}

/// Row-commit monotonicity across passes: whatever comes from outside, a
/// value that the row holds at any time is there, unchanged, when the
/// passes end.
pub proof fn lemma_solve_keeps_values(row: RowView, setup: SolverView, passes: nat, out: PassView)
    requires
        row.solve_may_reach(setup, passes, out),
    ensures
        extends(row.next, out.next),
    decreases passes,
{
    let pass = choose|pass: PassView| #[trigger]
        row.pass_may_reach(setup, pass) && if row.stops(passes, pass) {
            out == pass
        } else {
            row.with_next(pass.next).solve_may_reach(setup, (passes - 1) as nat, out)
        };
    lemma_pass_keeps_values(row, setup, pass);
    if !row.stops(passes, pass) {
        lemma_solve_keeps_values(row.with_next(pass.next), setup, (passes - 1) as nat, out);
    }
}

/// Every assignment is to one of the first `width` witness columns.
pub open spec fn within(assignments: Seq<(usize, FieldElement)>, width: int) -> bool {
    forall|j: int| 0 <= j < assignments.len() ==> (#[trigger] assignments[j]).0 < width
}

/// Among the failures is an assignment of a machine to a witness column
/// that does not exist.
pub open spec fn stray_reported(reasons: Seq<(Option<usize>, EvalFault)>) -> bool {
    exists|i: int| 0 <= i < reasons.len() && (#[trigger] reasons[i]).1 is UnknownWitness
}

proof fn lemma_stray_push(reasons: Seq<(Option<usize>, EvalFault)>, reason: (Option<usize>, EvalFault))
    ensures
        stray_reported(reasons.push(reason)) == (stray_reported(reasons)
            || reason.1 is UnknownWitness),
{
    let extended = reasons.push(reason);
    if stray_reported(reasons) {
        let i = choose|i: int| 0 <= i < reasons.len() && (#[trigger] reasons[i]).1 is UnknownWitness;
        assert(extended[i].1 is UnknownWitness);
    }
    if reason.1 is UnknownWitness {
        assert(extended[reasons.len() as int].1 is UnknownWitness);
    }
    if stray_reported(extended) {
        let i = choose|i: int|
            0 <= i < extended.len() && (#[trigger] extended[i]).1 is UnknownWitness;
        if i < reasons.len() {
            assert(reasons[i].1 is UnknownWitness);
        }
    }
}

/// The assignments as ids and values.
pub open spec fn assignment_views(assignments: Seq<(usize, FieldElement)>) -> Seq<(int, int)> {
    Seq::new(assignments.len(), |i: int| (assignments[i].0 as int, assignments[i].1@))
}

/// The exec result `r` holds the assignments `expected`, or reports their failure.
pub open spec fn assigns(r: EvalResult, expected: Result<Seq<(int, int)>, EvalFault>) -> bool {
    match expected {
        Ok(assignments) => r matches Ok(a) && assignment_views(a@) == assignments,
        Err(fault) => r matches Err(error) && error@ == fault,
    }
}

/// The position of the first assignment among the first `n` to a column
/// that does not exist, or `n` if there is none.
pub open spec fn first_stray(assignments: Seq<(usize, FieldElement)>, width: int, n: int) -> int
    decreases n,
{
    if n <= 0 {
        0
    } else if first_stray(assignments, width, n - 1) < n - 1 {
        first_stray(assignments, width, n - 1)
    } else if assignments[n - 1].0 >= width {
        n - 1
    } else {
        n
    }
}

/// What the answer of a machine means for a lookup: its result, or `None`
/// where the next machine is to be asked. Assignments are taken only if each
/// is to a witness column that exists.
pub open spec fn lookup_decision(answer: Result<LookupReturn, EvalError>, width: int) -> Option<
    Result<Seq<(usize, FieldElement)>, EvalFault>,
> {
    match answer {
        Err(error) => Some(Err(error@)),
        Ok(LookupReturn::NotApplicable) => None,
        Ok(LookupReturn::Assignments(assignments)) => {
            let stray = first_stray(assignments@, width, assignments@.len() as int);
            if stray < assignments@.len() {
                Some(Err(EvalFault::UnknownWitness(assignments@[stray].0 as int)))
            } else {
                Some(Ok(assignments@))
            }
        },
    }
}

/// The decision as ids and values.
pub open spec fn decision_view(decision: Result<Seq<(usize, FieldElement)>, EvalFault>) -> Result<
    Seq<(int, int)>,
    EvalFault,
> {
    match decision {
        Ok(assignments) => Ok(assignment_views(assignments)),
        Err(fault) => Err(fault),
    }
}

/// What an identity or a query gave, as ids and values.
pub open spec fn result_view(r: EvalResult) -> Result<Seq<(int, int)>, EvalFault> {
    match r {
        Ok(assignments) => Ok(assignment_views(assignments@)),
        Err(error) => Err(error@),
    }
}

/// `result` is what `decide_lookup` makes of the answer.
pub open spec fn answers_with(
    answer: Result<LookupReturn, EvalError>,
    width: int,
    result: Result<Seq<(int, int)>, EvalFault>,
) -> bool {
    lookup_decision(answer, width) matches Some(decision) && decision_view(decision) == result
}

/// What the answer to a query means for the column that asked.
pub open spec fn query_decision(
    id: usize,
    name: Seq<char>,
    query: Seq<char>,
    answer: Option<FieldElement>,
) -> Result<Seq<(usize, FieldElement)>, EvalFault> {
    match answer {
        Some(value) => Ok(seq![(id, value)]),
        None => Err(EvalFault::NoQueryAnswer(name, query)),
    }
}

/// One line for each witness column: its name, and its value or `<unknown>`.
pub open spec fn value_lines(names: Seq<Seq<char>>, values: Seq<Option<FieldElement>>, n: int) -> Seq<
    Seq<char>,
>
    decreases n,
{
    if n <= 0 {
        Seq::empty()
    } else {
        value_lines(names, values, n - 1).push(
            AffineView::witness(n - 1).text(names) + " = "@ + match known(values, n - 1) {
                Some(value) => number_text(value@),
                None => "<unknown>"@,
            },
        )
    }
}

/// The names of the columns among the first `n` that have no value.
pub open spec fn unknown_names(names: Seq<Seq<char>>, values: Seq<Option<FieldElement>>, n: int) -> Seq<
    Seq<char>,
>
    decreases n,
{
    if n <= 0 {
        Seq::empty()
    } else if known(values, n - 1) is None && n - 1 < names.len() {
        unknown_names(names, values, n - 1).push(names[n - 1])
    } else {
        unknown_names(names, values, n - 1)
    }
}

impl RowView {
    /// What an evaluation looks at, for the given meaning of unshifted references.
    pub open spec fn on(self, evaluate_row: EvaluationRow) -> EvaluationView {
        EvaluationView {
            fixed_data: self.fixed_data,
            current: self.current,
            next: self.next,
            next_row: self.next_row,
            evaluate_row,
        }
    }

    /// An expression that refers to a next row is evaluated with the row
    /// being solved as that next row; any other on the row being solved.
    pub open spec fn row_for(e: Expression) -> EvaluationRow {
        if mentions_next(e) {
            EvaluationRow::Current
        } else {
            EvaluationRow::Next
        }
    }

    /// What the identity `e = 0` gives: nothing if it holds already, the
    /// value of the one witness that it leaves open, or the reason why not.
    pub open spec fn polynomial_identity(self, e: Expression) -> Result<Seq<(int, int)>, EvalFault> {
        match self.on(Self::row_for(e)).evaluate(e) {
            Err(fault) => Err(fault),
            Ok(value) => if value.constant_value() == Some(0int) {
                Ok(Seq::empty())
            } else {
                match value.solve() {
                    Some(assignment) => Ok(seq![assignment]),
                    None => if value.is_invalid() {
                        Err(EvalFault::ConstraintInvalid(value.offset))
                    } else {
                        Err(EvalFault::CouldNotSolve(value))
                    },
                }
            },
        }
    }

    /// What the selector on the left side of a lookup says.
    pub open spec fn selector_decision(self, selector: Option<Expression>) -> SelectorDecision {
        match selector {
            None => SelectorDecision::Proceed,
            Some(e) => match self.on(EvaluationRow::Next).evaluate(e) {
                Err(fault) => SelectorDecision::Fail(fault),
                Ok(value) => if value.constant_value() == Some(0int) {
                    SelectorDecision::Skip
                } else if value.constant_value() == Some(1int) {
                    SelectorDecision::Proceed
                } else {
                    SelectorDecision::Fail(EvalFault::SelectorNotBoolean(value))
                },
            },
        }
    }

    /// The same state with other values for the row being solved.
    pub open spec fn with_next(self, next: Seq<Option<FieldElement>>) -> RowView {
        RowView { next, ..self }
    }

    /// What an identity gives where there is no machine to ask: a lookup
    /// that applies to the row finds none.
    pub open spec fn identity(self, identity: Identity) -> Result<Seq<(int, int)>, EvalFault> {
        match identity.kind {
            IdentityKind::Polynomial => match identity.left.selector {
                Some(e) => self.polynomial_identity(e),
                None => Err(EvalFault::MissingExpression),
            },
            _ => match self.selector_decision(identity.left.selector) {
                SelectorDecision::Skip => Ok(Seq::empty()),
                SelectorDecision::Fail(fault) => Err(fault),
                SelectorDecision::Proceed => Err(EvalFault::NoMatchingMachine),
            },
        }
    }

    /// The first `k` identities of a pass, where nothing from outside takes
    /// part: each identity sees what the ones before it wrote.
    pub open spec fn pass(self, identities: Seq<Identity>, k: int) -> PassView
        decreases k,
    {
        if k <= 0 {
            PassView::start(self.next)
        } else {
            let before = self.pass(identities, k - 1);
            before.after(
                Some((k - 1) as usize),
                self.with_next(before.next).identity(identities[k - 1]),
            )
        }
    }

    /// Passes until one of them writes nothing or the row is full, and
    /// `passes` of them at most, where nothing from outside takes part.
    pub open spec fn solve(self, identities: Seq<Identity>, passes: nat) -> PassView
        decreases passes,
    {
        let pass = self.pass(identities, identities.len() as int);
        if self.stops(passes, pass) {
            pass
        } else {
            self.with_next(pass.next).solve(identities, (passes - 1) as nat)
        }
    }

    /// Whether the passes end with the given one: it is the last that may
    /// run, it wrote nothing, it left nothing open, or a machine assigned a
    /// value to a witness column that does not exist.
    pub open spec fn stops(self, passes: nat, pass: PassView) -> bool {
        passes <= 1 || pass.next == self.next || all_known(pass.next) || stray_reported(
            pass.reasons,
        )
    }

    /// What an identity may give, whatever the machines answer. Where a
    /// lookup applies to the row, its result is that no machine answered,
    /// or what `decide_lookup` makes of the answer of some machine.
    pub open spec fn may_give(
        self,
        identity: Identity,
        machines: nat,
        result: Result<Seq<(int, int)>, EvalFault>,
    ) -> bool {
        if identity.kind != IdentityKind::Polynomial && self.selector_decision(
            identity.left.selector,
        ) is Proceed {
            &&& machines == 0 ==> result == Err::<Seq<(int, int)>, EvalFault>(
                EvalFault::NoMatchingMachine,
            )
            &&& result == Err::<Seq<(int, int)>, EvalFault>(EvalFault::NoMatchingMachine)
                || exists|answer: Result<LookupReturn, EvalError>| #[trigger]
                    answers_with(answer, self.fixed_data.witness_names.len() as int, result)
        } else {
            result == self.identity(identity)
        }
    }

    /// One more identity of a pass: the identity at `position` gives
    /// `result` in the state `mid`, which leads to `out`.
    pub open spec fn identity_step(
        self,
        setup: SolverView,
        position: int,
        mid: PassView,
        result: Result<Seq<(int, int)>, EvalFault>,
        out: PassView,
    ) -> bool {
        &&& self.with_next(mid.next).may_give(setup.identities[position], setup.machines, result)
        &&& out == mid.after(Some(position as usize), result)
    }

    /// The first `k` identities of a pass may lead to `out`, for some
    /// answers of the machines.
    pub open spec fn identities_may_reach(self, setup: SolverView, k: int, out: PassView) -> bool
        decreases k,
    {
        if k <= 0 {
            out == PassView::start(self.next)
        } else {
            exists|mid: PassView, result: Result<Seq<(int, int)>, EvalFault>|
                self.identities_may_reach(setup, k - 1, mid) && #[trigger] self.identity_step(
                    setup,
                    k - 1,
                    mid,
                    result,
                    out,
                )
        }
    }

    /// The id of the witness column at a position in the order of the names.
    pub open spec fn id_by_name(self, position: int) -> int {
        name_order(
            self.fixed_data.witness_names,
            self.fixed_data.witness_names.len() as int,
        )[position] as int
    }

    /// The query of one witness column, the one at `position` in the order
    /// of the names: where there is a callback, the column has a query and
    /// no value yet, the query is put into words and `answer` is what the
    /// callback says to them.
    pub open spec fn query_step(
        self,
        setup: SolverView,
        position: int,
        mid: PassView,
        answer: Option<FieldElement>,
        out: PassView,
    ) -> bool {
        let id = self.id_by_name(position);
        if !setup.callback || known(mid.next, id) is Some || self.fixed_data.queries[id] is None {
            out == mid
        } else {
            match self.with_next(mid.next).interpolate(self.fixed_data.queries[id]->Some_0) {
                Err(fault) => out == mid.after(None, Err(fault)),
                Ok(words) => out == mid.after(
                    None,
                    decision_view(
                        query_decision(
                            id as usize,
                            self.fixed_data.witness_names[id],
                            words,
                            answer,
                        ),
                    ),
                ),
            }
        }
    }

    /// The queries of the first `k` witness columns may lead from `from` to
    /// `out`, for some answers of the callback.
    pub open spec fn queries_may_reach(self, setup: SolverView, k: int, from: PassView, out: PassView) -> bool
        decreases k,
    {
        if k <= 0 {
            out == from
        } else {
            exists|mid: PassView, answer: Option<FieldElement>|
                self.queries_may_reach(setup, k - 1, from, mid) && #[trigger] self.query_step(
                    setup,
                    k - 1,
                    mid,
                    answer,
                    out,
                )
        }
    }

    /// A pass may lead to `out`: the identities in order, then the queries
    /// of the witness columns in the order of their names.
    pub open spec fn pass_may_reach(self, setup: SolverView, out: PassView) -> bool {
        exists|mid: PassView|
            self.identities_may_reach(setup, setup.identities.len() as int, mid)
                && #[trigger] self.queries_may_reach(
                setup,
                self.fixed_data.witness_names.len() as int,
                mid,
                out,
            )
    }

    /// Passes, `passes` of them at most, may lead to `out`: each starts
    /// where the one before it ended, and the one that stops is the outcome.
    pub open spec fn solve_may_reach(self, setup: SolverView, passes: nat, out: PassView) -> bool
        decreases passes,
    {
        exists|pass: PassView| #[trigger]
            self.pass_may_reach(setup, pass) && if self.stops(passes, pass) {
                out == pass
            } else {
                self.with_next(pass.next).solve_may_reach(setup, (passes - 1) as nat, out)
            }
    }

    /// The words that the first `n` items of a tuple come to, or the first failure among them.
    pub open spec fn interpolate_items(self, items: Seq<QueryExpression>, n: int) -> Result<
        Seq<Seq<char>>,
        EvalFault,
    >
        decreases items, n,
    {
        if n <= 0 || n > items.len() {
            Ok(Seq::empty())
        } else {
            match self.interpolate_items(items, n - 1) {
                Err(fault) => Err(fault),
                Ok(words) => match self.interpolate(items[n - 1]) {
                    Err(fault) => Err(fault),
                    Ok(word) => Ok(words.push(word)),
                },
            }
        }
    }

    /// The words that a query comes to on the row being solved.
    pub open spec fn interpolate(self, query: QueryExpression) -> Result<Seq<char>, EvalFault>
        decreases query,
    {
        match query {
            QueryExpression::Expression(e) => match self.on(EvaluationRow::Next).evaluate(e) {
                Ok(value) => if value.is_constant() {
                    Ok(value.text(self.fixed_data.witness_names))
                } else {
                    Err(EvalFault::CannotEvaluateQuery(query_text(query)))
                },
                Err(_) => Err(EvalFault::CannotEvaluateQuery(query_text(query))),
            },
            QueryExpression::Tuple(items) => match self.interpolate_items(
                items@,
                items@.len() as int,
            ) {
                Ok(words) => Ok(join(words, ", "@)),
                Err(fault) => Err(fault),
            },
            QueryExpression::String(s) => Ok(quoted(s@)),
            QueryExpression::LocalVariableReference(i) => if i == 0 {
                Ok(decimal(self.next_row as nat))
            } else {
                Err(EvalFault::CannotEvaluateQuery(query_text(query)))
            },
        }
    }
}

/// What the answer of a machine means for a lookup: its result, or `None`
/// where the next machine is to be asked.
pub fn decide_lookup(answer: Result<LookupReturn, EvalError>, width: usize) -> (r: Option<EvalResult>)
    ensures
        match lookup_decision(answer, width as int) {
            None => r is None,
            Some(Ok(assignments)) => r matches Some(Ok(a)) && a@ == assignments,
            Some(Err(fault)) => r matches Some(Err(error)) && error@ == fault,
        },
        r matches Some(Ok(a)) ==> within(a@, width as int),
{
    match answer {
        Err(error) => Some(Err(error)),
        Ok(LookupReturn::NotApplicable) => None,
        Ok(LookupReturn::Assignments(assignments)) => {
            let mut i: usize = 0;
            while i < assignments.len()
                invariant
                    i <= assignments@.len(),
                    answer == Ok::<LookupReturn, EvalError>(LookupReturn::Assignments(assignments)),
                    first_stray(assignments@, width as int, i as int) == i,
                    forall|j: int| 0 <= j < i ==> (#[trigger] assignments@[j]).0 < width,
                decreases assignments@.len() - i,
            {
                if assignments[i].0 >= width {
                    proof {
                        assert(first_stray(assignments@, width as int, i as int + 1) == i);
                        lemma_first_stray(
                            assignments@,
                            width as int,
                            i as int + 1,
                            assignments@.len() as int,
                        );
                    }
                    return Some(Err(EvalError::UnknownWitness(assignments[i].0)));
                }
                i += 1;
            }
            Some(Ok(assignments))
        },
    }
}

/// An assignment to a column that does not exist among the first `n` is the first among any more.
proof fn lemma_first_stray(assignments: Seq<(usize, FieldElement)>, width: int, n: int, m: int)
    requires
        0 <= n <= m,
        first_stray(assignments, width, n) < n,
    ensures
        first_stray(assignments, width, m) == first_stray(assignments, width, n),
    decreases m - n,
{
    if n < m {
        lemma_first_stray(assignments, width, n, m - 1);
    }
}

/// What the answer to a query means for the column that asked.
pub fn decide_query(id: usize, name: &String, query: String, answer: Option<FieldElement>) -> (r:
    EvalResult)
    ensures
        match query_decision(id, name@, query@, answer) {
            Ok(assignments) => r matches Ok(a) && a@ == assignments,
            Err(fault) => r matches Err(error) && error@ == fault,
        },
{
    match answer {
        Some(value) => {
            let mut assignments: Vec<(usize, FieldElement)> = Vec::new();
            assignments.push((id, value));
            assert(assignments@ =~= seq![(id, value)]);
            Ok(assignments)
        },
        None => Err(EvalError::NoQueryAnswer(name.clone(), query)),
    }
}

/// Puts the columns of a machine into a table; a column that the table
/// holds already is replaced.
pub fn merge_columns(table: &mut NameTable<Vec<FieldElement>>, columns: Vec<(String, Vec<FieldElement>)>)
    requires
        old(table).wf(),
    ensures
        final(table).wf(),
        final(table)@ == merged(old(table)@, columns@, columns@.len() as int),
{
    let ghost given = columns@;
    let ghost start = table@;
    let mut rest = columns;
    let mut reversed: Vec<(String, Vec<FieldElement>)> = Vec::new();
    while rest.len() > 0
        invariant
            rest@.len() + reversed@.len() == given.len(),
            forall|j: int| 0 <= j < rest@.len() ==> rest@[j] == given[j],
            forall|j: int|
                0 <= j < reversed@.len() ==> (#[trigger] reversed@[j]) == given[given.len() - 1 - j],
        decreases rest@.len(),
    {
        let pair = rest.pop().unwrap();
        reversed.push(pair);
    }
    let ghost mut done: int = 0;
    while reversed.len() > 0
        invariant
            table.wf(),
            done + reversed@.len() == given.len(),
            0 <= done,
            forall|j: int|
                0 <= j < reversed@.len() ==> (#[trigger] reversed@[j]) == given[given.len() - 1 - j],
            table@ == merged(start, given, done),
        decreases reversed@.len(),
    {
        let (name, values) = reversed.pop().unwrap();
        proof {
            assert((name, values) == given[done]);
            done = done + 1;
        }
        table.insert(name, values);
    }
}

/// The table `out` is the table `mid` with the columns put in.
pub open spec fn merge_step(
    mid: Seq<(Seq<char>, Vec<FieldElement>)>,
    columns: Seq<(String, Vec<FieldElement>)>,
    out: Seq<(Seq<char>, Vec<FieldElement>)>,
) -> bool {
    out == merged(mid, columns, columns.len() as int)
}

/// The table may be what the first `k` machines give: the columns of each
/// are put in after those of the machines before it.
pub open spec fn columns_may_be(k: int, out: Seq<(Seq<char>, Vec<FieldElement>)>) -> bool
    decreases k,
{
    if k <= 0 {
        out == Seq::<(Seq<char>, Vec<FieldElement>)>::empty()
    } else {
        exists|mid: Seq<(Seq<char>, Vec<FieldElement>)>, columns: Seq<(String, Vec<FieldElement>)>|
            columns_may_be(k - 1, mid) && #[trigger] merge_step(mid, columns, out)
    }
}

/// The table with the first `n` columns put in, in order.
pub open spec fn merged(
    table: Seq<(Seq<char>, Vec<FieldElement>)>,
    columns: Seq<(String, Vec<FieldElement>)>,
    n: int,
) -> Seq<(Seq<char>, Vec<FieldElement>)>
    decreases n,
{
    if n <= 0 {
        table
    } else {
        with_entry(merged(table, columns, n - 1), columns[n - 1].0@, columns[n - 1].1)
    }
}

/// A row of the given width of which nothing is known.
fn fresh_row(width: usize) -> (r: Vec<Option<FieldElement>>)
    ensures
        r@ == unknown_row(width as nat),
{
    let mut row: Vec<Option<FieldElement>> = Vec::new();
    let mut i: usize = 0;
    while i < width
        invariant
            i <= width,
            row@.len() == i,
            forall|j: int| 0 <= j < i ==> (#[trigger] row@[j]) is None,
        decreases width - i,
    {
        row.push(None);
        i += 1;
    }
    assert(row@ =~= unknown_row(width as nat));
    row
}

proof fn lemma_unknown_row(width: nat)
    ensures
        unknown_count(unknown_row(width)) == width,
    decreases width,
{
    if width > 0 {
        lemma_unknown_row((width - 1) as nat);
        assert(unknown_row(width).drop_last() =~= unknown_row((width - 1) as nat));
    }
}

/// Every identity is a polynomial identity.
pub open spec fn all_polynomial(identities: Seq<Identity>) -> bool {
    forall|i: int|
        0 <= i < identities.len() ==> (#[trigger] identities[i]).kind == IdentityKind::Polynomial
}

/// The identities that the references of a list point to.
pub open spec fn identity_values(identities: Seq<&Identity>) -> Seq<Identity> {
    Seq::new(identities.len(), |i: int| *identities[i])
}

/// The solver of rows.
pub struct Evaluator<'a, QueryCallback: FnMut(&str) -> Option<FieldElement>> {
    fixed_data: &'a FixedData,
    identities: Vec<&'a Identity>,
    machines: Vec<Box<dyn Machine>>,
    query_callback: Option<QueryCallback>,
    /// Values of the witness polynomials in the row before the one being solved.
    current: Vec<Option<FieldElement>>,
    /// Values of the witness polynomials in the row being solved.
    next: Vec<Option<FieldElement>>,
    next_row: DegreeType,
    failure_reasons: Vec<FailureReason>,
    progress: bool,
    passes: usize,
}

impl<'a, QueryCallback: FnMut(&str) -> Option<FieldElement>> Evaluator<'a, QueryCallback> {
    /// The state that evaluation depends on.
    pub closed spec fn state(&self) -> RowView {
        RowView {
            fixed_data: self.fixed_data@,
            current: self.current@,
            next: self.next@,
            next_row: self.next_row,
        }
    }

    pub closed spec fn identities(&self) -> Seq<Identity> {
        identity_values(self.identities@)
    }

    /// The machines, in the order in which they are asked.
    pub closed spec fn machine_list(&self) -> Seq<Box<dyn Machine>> {
        self.machines@
    }

    pub open spec fn machine_count(&self) -> nat {
        self.machine_list().len()
    }

    pub closed spec fn has_query_callback(&self) -> bool {
        self.query_callback is Some
    }

    /// Whether the pass that ran last wrote a value.
    pub closed spec fn progress(&self) -> bool {
        self.progress
    }

    /// The number of passes that the row solved last took.
    pub closed spec fn passes(&self) -> nat {
        self.passes as nat
    }

    /// Why the pass that ran last left something open.
    pub closed spec fn failure_reasons(&self) -> Seq<FailureReason> {
        self.failure_reasons@
    }

    /// Both rows are as wide as there are witness columns, and the query
    /// callback, if there is one, takes every query.
    pub closed spec fn wf(&self) -> bool {
        &&& self.current@.len() == self.fixed_data@.witness_names.len()
        &&& self.next@.len() == self.fixed_data@.witness_names.len()
        &&& self.query_callback matches Some(callback) ==> forall|query: &str|
            call_requires(callback, (query,))
    }

    /// What takes part in the solving besides the fixed data.
    pub open spec fn setup(&self) -> SolverView {
        SolverView {
            identities: self.identities(),
            machines: self.machine_count(),
            callback: self.has_query_callback(),
        }
    }

    /// Where the pass that runs stands, given whether an identity failed in it.
    pub open spec fn pass_view(&self, failed: bool) -> PassView {
        PassView {
            next: self.state().next,
            reasons: reason_views(self.failure_reasons()),
            failed,
        }
    }

    /// No machine is asked: there is none, or no identity to ask one for.
    pub open spec fn asks_no_machine(&self) -> bool {
        self.machine_count() == 0 || all_polynomial(self.identities())
    }

    /// Nothing from outside takes part in the solving: there is no query
    /// callback, and no machine is asked.
    pub open spec fn is_closed(&self) -> bool {
        !self.has_query_callback() && self.asks_no_machine()
    }

    /// Whether a machine assigned a value to a witness column that does not
    /// exist, in the pass that ran last.
    fn has_stray_reason(&self) -> (r: bool)
        ensures
            r == stray_reported(reason_views(self.failure_reasons())),
    {
        let ghost reasons = reason_views(self.failure_reasons@);
        let mut i: usize = 0;
        while i < self.failure_reasons.len()
            invariant
                i <= self.failure_reasons@.len(),
                reasons == reason_views(self.failure_reasons@),
                forall|j: int| 0 <= j < i ==> !((#[trigger] reasons[j]).1 is UnknownWitness),
            decreases self.failure_reasons@.len() - i,
        {
            match &self.failure_reasons[i].error {
                EvalError::UnknownWitness(_) => {
                    assert(reasons[i as int].1 is UnknownWitness);
                    return true;
                },
                _ => {},
            }
            i += 1;
        }
        false
    }

    /// What every call leaves as it is: the fixed data, the identities, the
    /// number of machines, and whether there is a query callback. A machine
    /// that is asked may change, so a call that asks one keeps the list of
    /// machines only in its length; a call that asks none keeps the list
    /// itself (`same_machines`).
    pub open spec fn same_setup(&self, other: &Self) -> bool {
        &&& self.state().fixed_data == other.state().fixed_data
        &&& self.identities() == other.identities()
        &&& self.machine_count() == other.machine_count()
        &&& self.has_query_callback() == other.has_query_callback()
    }

    /// The machines are the same, in the same order and unchanged.
    pub open spec fn same_machines(&self, other: &Self) -> bool {
        self.machine_list() == other.machine_list()
    }

    pub fn new(
        fixed_data: &'a FixedData,
        identities: Vec<&'a Identity>,
        machines: Vec<Box<dyn Machine>>,
        query_callback: Option<QueryCallback>,
    ) -> (r: Self)
        requires
            query_callback matches Some(callback) ==> forall|query: &str|
                call_requires(callback, (query,)),
        ensures
            r.wf(),
            r.state() == (RowView {
                fixed_data: fixed_data@,
                current: unknown_row(fixed_data@.witness_names.len()),
                next: unknown_row(fixed_data@.witness_names.len()),
                next_row: 0,
            }),
            r.identities() == identity_values(identities@),
            r.machine_list() == machines@,
            r.has_query_callback() == query_callback is Some,
            r.passes() == 0,
            r.failure_reasons().len() == 0,
    {
        let width = fixed_data.witness_count();
        Evaluator {
            fixed_data,
            identities,
            machines,
            query_callback,
            current: fresh_row(width),
            next: fresh_row(width),
            next_row: 0,
            failure_reasons: Vec::new(),
            progress: true,
            passes: 0,
        }
    }

    /// The number of passes that the row solved last took.
    pub fn pass_count(&self) -> (r: usize)
        ensures
            r == self.passes(),
    {
        self.passes
    }

    /// Whether the witness column has a value in the row being solved.
    fn has_known_next_value(&self, id: usize) -> (r: bool)
        ensures
            r == known(self.state().next, id as int) is Some,
    {
        known_value(&self.next, id).is_some()
    }

    /// Whether every witness column has a value in the row being solved.
    fn is_row_complete(&self) -> (r: bool)
        ensures
            r == all_known(self.state().next),
    {
        let mut i: usize = 0;
        while i < self.next.len()
            invariant
                i <= self.next@.len(),
                forall|j: int| 0 <= j < i ==> (#[trigger] self.next@[j]) is Some,
            decreases self.next@.len() - i,
        {
            if self.next[i].is_none() {
                return false;
            }
            i += 1;
        }
        true
    }

    /// Evaluates an expression to an expression that is affine in the
    /// witness values of the row being solved that are not known yet.
    pub fn evaluate(&self, expr: &Expression, evaluate_row: EvaluationRow) -> (r: Result<
        AffineExpression,
        EvalError,
    >)
        ensures
            gives(r, self.state().on(evaluate_row).evaluate(*expr)),
    {
        let data = EvaluationData {
            fixed_data: self.fixed_data,
            current_witnesses: &self.current,
            next_witnesses: &self.next,
            next_row: self.next_row,
            evaluate_row,
        };
        data.evaluate(expr)
    }

    /// What the identity `identity = 0` gives for the row being solved.
    pub fn process_polynomial_identity(&self, identity: &Expression) -> (r: EvalResult)
        ensures
            assigns(r, self.state().polynomial_identity(*identity)),
            r matches Ok(a) ==> within(a@, self.state().fixed_data.witness_names.len() as int),
            r matches Err(error) ==> !(error@ is UnknownWitness),
    {
        proof {
            lemma_evaluate_outcome(self.state().on(RowView::row_for(*identity)), *identity);
        }
        // Without a reference to a next row, the identity is evaluated on
        // the row being solved.
        let row = if contains_next_ref(identity) {
            EvaluationRow::Current
        } else {
            EvaluationRow::Next
        };
        let evaluated = match self.evaluate(identity, row) {
            Err(error) => {
                return Err(error);
            },
            Ok(evaluated) => evaluated,
        };
        let satisfied = match evaluated.constant_value() {
            Some(value) => value.is_zero(),
            None => false,
        };
        if satisfied {
            let assignments: Vec<(usize, FieldElement)> = Vec::new();
            assert(assignment_views(assignments@) =~= Seq::empty());
            return Ok(assignments);
        }
        match evaluated.solve() {
            Some((id, value)) => {
                let mut assignments: Vec<(usize, FieldElement)> = Vec::new();
                assignments.push((id, value));
                assert(assignment_views(assignments@) =~= seq![(id as int, value@)]);
                Ok(assignments)
            },
            None => {
                if evaluated.is_invalid() {
                    Err(EvalError::ConstraintInvalid(evaluated.offset()))
                } else {
                    Err(EvalError::CouldNotSolve(evaluated))
                }
            },
        }
    }

    /// The words that a query comes to on the row being solved.
    pub fn interpolate_query(&self, query: &QueryExpression) -> (r: Result<String, EvalError>)
        ensures
            match self.state().interpolate(*query) {
                Ok(words) => r matches Ok(text) && text@ == words,
                Err(fault) => r matches Err(error) && error@ == fault,
            },
            r matches Err(error) ==> error@ is CannotEvaluateQuery,
        decreases query,
    {
        match query {
            QueryExpression::Expression(e) => {
                match self.evaluate(e, EvaluationRow::Next) {
                    Ok(value) => {
                        if value.is_constant() {
                            Ok(value.format(self.fixed_data))
                        } else {
                            Err(EvalError::CannotEvaluateQuery(query.format()))
                        }
                    },
                    Err(_) => Err(EvalError::CannotEvaluateQuery(query.format())),
                }
            },
            QueryExpression::Tuple(items) => {
                let mut words: Vec<String> = Vec::new();
                let mut i: usize = 0;
                assert(views(words@) =~= Seq::empty());
                while i < items.len()
                    invariant
                        i <= items@.len(),
                        *query == QueryExpression::Tuple(*items),
                        self.state().interpolate_items(items@, i as int) == Ok::<
                            Seq<Seq<char>>,
                            EvalFault,
                        >(views(words@)),
                    decreases items@.len() - i,
                {
                    match self.interpolate_query(&items[i]) {
                        Err(error) => {
                            proof {
                                assert(self.state().interpolate_items(items@, i as int + 1) == Err::<
                                    Seq<Seq<char>>,
                                    EvalFault,
                                >(error@));
                                lemma_interpolate_items_fails(
                                    self.state(),
                                    items@,
                                    i as int + 1,
                                    items@.len() as int,
                                );
                            }
                            return Err(error);
                        },
                        Ok(word) => {
                            let ghost before = views(words@);
                            words.push(word);
                            assert(views(words@) =~= before.push(word@));
                        },
                    }
                    i += 1;
                }
                Ok(join_strings(&words, ", "))
            },
            QueryExpression::String(s) => Ok(quote(s.as_str())),
            QueryExpression::LocalVariableReference(i) => {
                if *i == 0 {
                    Ok(decimal_string(self.next_row))
                } else {
                    Err(EvalError::CannotEvaluateQuery(query.format()))
                }
            },
        }
    }

    /// Asks the query callback for the value of a witness column.
    /// Whatever the callback answers, the state stays as it is, and what
    /// comes back is `decide_query` of the answer.
    fn process_witness_query(&mut self, id: usize) -> (r: EvalResult)
        requires
            old(self).wf(),
            old(self).has_query_callback(),
            id < old(self).state().fixed_data.witness_names.len(),
            old(self).state().fixed_data.queries[id as int] is Some,
        ensures
            final(self).wf(),
            final(self).same_setup(old(self)),
            final(self).same_machines(old(self)),
            final(self).state() == old(self).state(),
            final(self).progress() == old(self).progress(),
            final(self).passes() == old(self).passes(),
            final(self).failure_reasons() == old(self).failure_reasons(),
            r matches Ok(a) ==> within(
                a@,
                old(self).state().fixed_data.witness_names.len() as int,
            ),
            r matches Err(error) ==> !(error@ is UnknownWitness),
            match old(self).state().interpolate(
                old(self).state().fixed_data.queries[id as int]->Some_0,
            ) {
                Err(fault) => r matches Err(error) && error@ == fault,
                Ok(words) => exists|answer: Option<FieldElement>|
                    assigned(
                        r,
                        #[trigger] query_decision(
                            id,
                            old(self).state().fixed_data.witness_names[id as int],
                            words,
                            answer,
                        ),
                    ),
            },
    {
        let column = self.fixed_data.witness_col(id);
        let query = match &column.query {
            Some(query) => match self.interpolate_query(query) {
                Err(error) => {
                    return Err(error);
                },
                Ok(query) => query,
            },
            None => {
                return Err(EvalError::CannotEvaluateQuery(String::new()));
            },
        };
        let answer = match &mut self.query_callback {
            Some(callback) => callback(query.as_str()),
            None => None,
        };
        let r = decide_query(id, &column.name, query, answer);
        proof {
            assert(assigned(
                r,
                query_decision(
                    id,
                    old(self).state().fixed_data.witness_names[id as int],
                    query@,
                    answer,
                ),
            ));
        }
        r
    }

    /// Writes what an identity or a query gave, or records why it gave nothing.
    /// `identity` is the position of the identity, `None` for a query. Each
    /// assignment is to a witness column that exists.
    pub fn handle_eval_result(&mut self, identity: Option<usize>, result: EvalResult)
        requires
            old(self).wf(),
            result matches Ok(assignments) ==> within(
                assignments@,
                old(self).state().fixed_data.witness_names.len() as int,
            ),
        ensures
            final(self).wf(),
            final(self).same_setup(old(self)),
            final(self).same_machines(old(self)),
            final(self).state().current == old(self).state().current,
            final(self).state().next_row == old(self).state().next_row,
            final(self).passes() == old(self).passes(),
            extends(old(self).state().next, final(self).state().next),
            unknown_count(final(self).state().next) <= unknown_count(old(self).state().next),
            final(self).progress() == (old(self).progress() || unknown_count(
                final(self).state().next,
            ) < unknown_count(old(self).state().next)),
            match result {
                Ok(assignments) => {
                    &&& final(self).state().next == apply_assignments(
                        old(self).state().next,
                        assignment_views(assignments@),
                        assignments@.len() as int,
                    )
                    &&& final(self).progress() == (old(self).progress() || final(self).state().next
                        != old(self).state().next)
                    &&& final(self).failure_reasons() == old(self).failure_reasons()
                },
                Err(reason) => {
                    &&& final(self).state().next == old(self).state().next
                    &&& final(self).progress() == old(self).progress()
                    &&& final(self).failure_reasons() == old(self).failure_reasons().push(
                        FailureReason { identity, error: reason },
                    )
                },
            },
    {
        match result {
            Ok(assignments) => {
                let ghost start = self.next@;
                let mut i: usize = 0;
                while i < assignments.len()
                    invariant
                        i <= assignments@.len(),
                        self.wf(),
                        self.same_setup(old(self)),
                        self.same_machines(old(self)),
                        self.current@ == old(self).current@,
                        self.next_row == old(self).next_row,
                        self.passes == old(self).passes,
                        self.failure_reasons@ == old(self).failure_reasons@,
                        start == old(self).next@,
                        within(assignments@, self.next@.len() as int),
                        self.next@ == apply_assignments(
                            start,
                            assignment_views(assignments@),
                            i as int,
                        ),
                        self.progress == (old(self).progress || self.next@ != start),
                    decreases assignments@.len() - i,
                {
                    let (id, value) = assignments[i];
                    proof {
                        let given = assignment_views(assignments@);
                        use_type_invariant(&value);
                        lemma_element(value@, value);
                        lemma_apply_assignments(start, given, i as int);
                        lemma_apply_assignment(self.next@, id as int, value@);
                        lemma_apply_assignments(start, given, i as int + 1);
                    }
                    if self.next[id].is_none() {
                        self.next.set(id, Some(value));
                        self.progress = true;
                    }
                    i += 1;
                }
                proof {
                    lemma_apply_assignments(
                        start,
                        assignment_views(assignments@),
                        assignments@.len() as int,
                    );
                }
            },
            Err(reason) => {
                self.failure_reasons.push(FailureReason { identity, error: reason });
            },
        }
    }

    /// The list that a machine is handed for a lookup: the values of the
    /// expressions on the left side on the row being solved, in order, each
    /// affine in the witness values that are not known yet, or the reason
    /// why it has no value.
    pub fn left_values(&self, identity: &Identity) -> (r: Vec<Result<AffineExpression, EvalError>>)
        ensures
            r@.len() == identity.left.expressions@.len(),
            forall|j: int|
                0 <= j < r@.len() ==> gives(
                    #[trigger] r@[j],
                    self.state().on(EvaluationRow::Next).evaluate(identity.left.expressions@[j]),
                ),
    {
        let mut left: Vec<Result<AffineExpression, EvalError>> = Vec::new();
        let mut k: usize = 0;
        while k < identity.left.expressions.len()
            invariant
                k <= identity.left.expressions@.len(),
                left@.len() == k,
                forall|j: int|
                    0 <= j < k ==> gives(
                        #[trigger] left@[j],
                        self.state().on(EvaluationRow::Next).evaluate(identity.left.expressions@[j]),
                    ),
            decreases identity.left.expressions@.len() - k,
        {
            left.push(self.evaluate(&identity.left.expressions[k], EvaluationRow::Next));
            k += 1;
        }
        left
    }

    /// What a lookup or permutation gives for the row being solved.
    ///
    /// The selector on the left decides whether the lookup applies to the
    /// row. If it does, the machines are asked in order, each with the list
    /// that `left_values` gives. The first answer that `decide_lookup` takes
    /// as a result is the result.
    pub fn process_plookup(&mut self, identity: &Identity) -> (r: EvalResult)
        requires
            old(self).wf(),
        ensures
            final(self).wf(),
            final(self).same_setup(old(self)),
            final(self).state() == old(self).state(),
            final(self).progress() == old(self).progress(),
            final(self).passes() == old(self).passes(),
            final(self).failure_reasons() == old(self).failure_reasons(),
            r matches Ok(a) ==> within(
                a@,
                old(self).state().fixed_data.witness_names.len() as int,
            ),
            old(self).machine_count() == 0 ==> (r matches Err(error) ==> !(error@
                is UnknownWitness)),
            match old(self).state().selector_decision(identity.left.selector) {
                SelectorDecision::Skip => r matches Ok(a) && a@.len() == 0,
                SelectorDecision::Fail(fault) => r matches Err(error) && error@ == fault,
                SelectorDecision::Proceed => {
                    &&& old(self).machine_count() == 0 ==> no_machine(r)
                    &&& no_machine(r) || exists|answer: Result<LookupReturn, EvalError>| #[trigger]
                        decided_by(
                            r,
                            answer,
                            old(self).state().fixed_data.witness_names.len() as int,
                        )
                },
            },
    {
        match &identity.left.selector {
            Some(left_selector) => {
                proof {
                    lemma_evaluate_outcome(self.state().on(EvaluationRow::Next), *left_selector);
                }
                let value = match self.evaluate(left_selector, EvaluationRow::Next) {
                    Err(error) => {
                        return Err(error);
                    },
                    Ok(value) => value,
                };
                match value.constant_value() {
                    Some(v) => {
                        if v.is_zero() {
                            return Ok(Vec::new());
                        } else if !v.is_one() {
                            return Err(EvalError::SelectorNotBoolean(value));
                        }
                    },
                    None => {
                        return Err(EvalError::SelectorNotBoolean(value));
                    },
                }
            },
            None => {},
        }
        let left = self.left_values(identity);
        // All machines up to the first that answers are asked, even where all
        // values are known: a machine may keep a record of what it was asked.
        let fixed_data = self.fixed_data;
        let width = fixed_data.witness_count();
        let mut i: usize = 0;
        while i < self.machines.len()
            invariant
                self.wf(),
                self.same_setup(old(self)),
                self.state() == old(self).state(),
                self.progress == old(self).progress,
                self.passes == old(self).passes,
                self.failure_reasons@ == old(self).failure_reasons@,
                fixed_data == self.fixed_data,
                width == self.fixed_data@.witness_names.len(),
                old(self).state().selector_decision(identity.left.selector) is Proceed,
            decreases self.machines@.len() - i,
        {
            let answer = self.machines[i].process_plookup(
                fixed_data,
                identity.kind,
                &left,
                &identity.right,
            );
            match decide_lookup(answer, width) {
                Some(result) => {
                    assert(decided_by(result, answer, width as int));
                    return result;
                },
                None => {},
            }
            i += 1;
        }
        Err(EvalError::NoMatchingMachine)
    }

    /// One pass: through the identities in order, then, in the order of
    /// the names, through the queries of the witness columns that have no
    /// value yet. Returns whether an identity failed.
    pub fn run_pass(&mut self) -> (identity_failed: bool)
        requires
            old(self).wf(),
        ensures
            final(self).wf(),
            final(self).same_setup(old(self)),
            final(self).state().current == old(self).state().current,
            final(self).state().next_row == old(self).state().next_row,
            final(self).passes() == old(self).passes(),
            extends(old(self).state().next, final(self).state().next),
            unknown_count(final(self).state().next) <= unknown_count(old(self).state().next),
            final(self).progress() == (unknown_count(final(self).state().next) < unknown_count(
                old(self).state().next,
            )),
            identity_failed ==> final(self).failure_reasons().len() > 0,
            old(self).asks_no_machine() ==> !stray_reported(
                reason_views(final(self).failure_reasons()),
            ),
            old(self).state().pass_may_reach(old(self).setup(), final(self).pass_view(identity_failed)),
            old(self).is_closed() ==> {
                let pass = old(self).state().pass(
                    old(self).identities(),
                    old(self).identities().len() as int,
                );
                &&& final(self).state().next == pass.next
                &&& reason_views(final(self).failure_reasons()) == pass.reasons
                &&& identity_failed == pass.failed
            },
    {
        let ghost start = self.next@;
        let ghost row = self.state();
        let ghost identities = self.identities();
        let mut identity_failed = false;
        self.progress = false;
        self.failure_reasons.clear();
        assert(reason_views(self.failure_reasons@) =~= Seq::empty());
        let count = self.identities.len();
        let mut i: usize = 0;
        while i < count
            invariant
                count == self.identities@.len(),
                self.wf(),
                self.same_setup(old(self)),
                self.current@ == old(self).current@,
                self.next_row == old(self).next_row,
                self.passes == old(self).passes,
                start == old(self).next@,
                extends(start, self.next@),
                unknown_count(self.next@) <= unknown_count(start),
                self.progress == (unknown_count(self.next@) < unknown_count(start)),
                identity_failed ==> self.failure_reasons@.len() > 0,
                row == old(self).state(),
                identities == old(self).identities(),
                i <= count,
                old(self).asks_no_machine() ==> !stray_reported(reason_views(self.failure_reasons@)),
                row.identities_may_reach(old(self).setup(), i as int, self.pass_view(identity_failed)),
                old(self).is_closed() ==> self.next@ == row.pass(identities, i as int).next
                    && reason_views(self.failure_reasons@) == row.pass(identities, i as int).reasons
                    && identity_failed == row.pass(identities, i as int).failed,
            decreases count - i,
        {
            let identity: &Identity = self.identities[i];
            let result = match identity.kind {
                IdentityKind::Polynomial => match &identity.left.selector {
                    Some(expression) => self.process_polynomial_identity(expression),
                    None => Err(EvalError::MissingExpression),
                },
                IdentityKind::Plookup | IdentityKind::Permutation => self.process_plookup(identity),
            };
            let ghost mid = self.pass_view(identity_failed);
            proof {
                let width = self.fixed_data@.witness_names.len() as int;
                assert(*identity == identities[i as int]);
                assert(self.state() == row.with_next(self.next@));
                if result is Ok && result->Ok_0@.len() == 0 {
                    assert(assignment_views(result->Ok_0@) =~= Seq::empty());
                }
                if identity.kind != IdentityKind::Polynomial && self.state().selector_decision(
                    identity.left.selector,
                ) is Proceed && !no_machine(result) {
                    // Some machine decided the lookup.
                    let answer = choose|answer: Result<LookupReturn, EvalError>| #[trigger]
                        decided_by(result, answer, width);
                    assert(answers_with(answer, width, result_view(result)));
                }
                assert(self.state().may_give(
                    *identity,
                    old(self).setup().machines,
                    result_view(result),
                ));
                if old(self).is_closed() {
                    assert(assigns(result, self.state().identity(*identity)));
                }
            }
            if result.is_err() {
                identity_failed = true;
            }
            let ghost reasons_before = self.failure_reasons@;
            self.handle_eval_result(Some(i), result);
            proof {
                assert(identity_values(self.identities@).len() == count);
                if result is Err {
                    assert(reason_views(self.failure_reasons@) =~= reason_views(
                        reasons_before,
                    ).push((Some(i), result->Err_0@)));
                    lemma_stray_push(reason_views(reasons_before), (Some(i), result->Err_0@));
                }
                let out = self.pass_view(identity_failed);
                assert(out == mid.after(Some(i), result_view(result)));
                let k = i as int + 1;
                assert(row.identities_may_reach(old(self).setup(), k - 1, mid));
                assert(row.identity_step(old(self).setup(), k - 1, mid, result_view(result), out));
                assert(row.identities_may_reach(old(self).setup(), k, out));
            }
            i += 1;
        }
        let ghost after_identities = self.pass_view(identity_failed);
        let fixed_data = self.fixed_data;
        let width = fixed_data.witness_count();
        if self.query_callback.is_some() {
            let order = fixed_data.witness_ids_by_name();
            let mut position: usize = 0;
            while position < width
                invariant
                    position <= width,
                    fixed_data@ == self.fixed_data@,
                    order@ == name_order(fixed_data@.witness_names, width as int),
                    order@.len() == width,
                    forall|j: int| 0 <= j < width ==> (#[trigger] order@[j]) < width,
                    row == old(self).state(),
                    row.queries_may_reach(
                        old(self).setup(),
                        position as int,
                        after_identities,
                        self.pass_view(identity_failed),
                    ),
                    self.wf(),
                    self.same_setup(old(self)),
                    self.query_callback is Some,
                    width == self.fixed_data@.witness_names.len(),
                    self.current@ == old(self).current@,
                    self.next_row == old(self).next_row,
                    self.passes == old(self).passes,
                    start == old(self).next@,
                    extends(start, self.next@),
                    unknown_count(self.next@) <= unknown_count(start),
                    self.progress == (unknown_count(self.next@) < unknown_count(start)),
                    identity_failed ==> self.failure_reasons@.len() > 0,
                    !old(self).is_closed(),
                    old(self).asks_no_machine() ==> !stray_reported(
                        reason_views(self.failure_reasons@),
                    ),
                decreases width - position,
            {
                let id = order[position];
                let ghost mid = self.pass_view(identity_failed);
                let ghost mut answer: Option<FieldElement> = None;
                assert(id == row.id_by_name(position as int));
                // A column that has a value is not asked for again.
                if !self.has_known_next_value(id) && self.fixed_data.witness_col(id).query.is_some() {
                    assert(self.state() == row.with_next(self.next@));
                    let result = self.process_witness_query(id);
                    let ghost reasons_before = self.failure_reasons@;
                    self.handle_eval_result(None, result);
                    proof {
                        let query = row.fixed_data.queries[id as int]->Some_0;
                        if result is Err {
                            assert(reason_views(self.failure_reasons@) =~= reason_views(
                                reasons_before,
                            ).push((None, result->Err_0@)));
                            lemma_stray_push(reason_views(reasons_before), (None, result->Err_0@));
                        }
                        match row.with_next(mid.next).interpolate(query) {
                            Err(fault) => {},
                            Ok(words) => {
                                answer = choose|answer: Option<FieldElement>|
                                    assigned(
                                        result,
                                        #[trigger] query_decision(
                                            id,
                                            row.fixed_data.witness_names[id as int],
                                            words,
                                            answer,
                                        ),
                                    );
                            },
                        }
                        assert(self.pass_view(identity_failed) == mid.after(None, result_view(result)));
                    }
                }
                proof {
                    let k = position as int + 1;
                    assert(row.queries_may_reach(old(self).setup(), k - 1, after_identities, mid));
                    assert(row.query_step(
                        old(self).setup(),
                        k - 1,
                        mid,
                        answer,
                        self.pass_view(identity_failed),
                    ));
                    assert(row.queries_may_reach(
                        old(self).setup(),
                        k,
                        after_identities,
                        self.pass_view(identity_failed),
                    ));
                }
                position += 1;
            }
        } else {
            proof {
                lemma_queries_idle(row, old(self).setup(), width as int, after_identities);
            }
        }
        identity_failed
    }

    /// The names of the witness columns that have no value in the row being solved.
    fn unknown_columns(&self) -> (r: Vec<String>)
        requires
            self.wf(),
        ensures
            views(r@) == unknown_names(
                self.state().fixed_data.witness_names,
                self.state().next,
                self.state().next.len() as int,
            ),
    {
        let mut names: Vec<String> = Vec::new();
        let mut i: usize = 0;
        assert(views(names@) =~= Seq::empty());
        while i < self.next.len()
            invariant
                self.wf(),
                i <= self.next@.len(),
                views(names@) == unknown_names(
                    self.fixed_data@.witness_names,
                    self.next@,
                    i as int,
                ),
            decreases self.next@.len() - i,
        {
            if self.next[i].is_none() {
                let ghost before = views(names@);
                let name = self.fixed_data.witness_name(i).clone();
                names.push(name);
                assert(views(names@) =~= before.push(name@));
            }
            i += 1;
        }
        names
    }

    /// The values of the row being solved, with zero where none is known.
    fn next_or_zero(&self) -> (r: Vec<FieldElement>)
        ensures
            r@.len() == self.state().next.len(),
            forall|i: int|
                0 <= i < r@.len() ==> (#[trigger] r@[i])@ == value_or_zero(self.state().next[i]),
    {
        let mut row: Vec<FieldElement> = Vec::new();
        let mut i: usize = 0;
        while i < self.next.len()
            invariant
                i <= self.next@.len(),
                row@.len() == i,
                forall|j: int| 0 <= j < i ==> (#[trigger] row@[j])@ == value_or_zero(self.next@[j]),
            decreases self.next@.len() - i,
        {
            row.push(
                match self.next[i] {
                    Some(value) => value,
                    None => FieldElement::zero(),
                },
            );
            i += 1;
        }
        row
    }

    /// A copy of the values of the row being solved.
    fn next_values(&self) -> (r: Vec<Option<FieldElement>>)
        ensures
            r@ == self.state().next,
    {
        let mut row: Vec<Option<FieldElement>> = Vec::new();
        let mut i: usize = 0;
        while i < self.next.len()
            invariant
                i <= self.next@.len(),
                row@.len() == i,
                forall|j: int| 0 <= j < i ==> (#[trigger] row@[j]) == self.next@[j],
            decreases self.next@.len() - i,
        {
            row.push(self.next[i]);
            i += 1;
        }
        assert(row@ =~= self.next@);
        row
    }

    /// Solves the row `next_row`, given that the row before it is the one solved last.
    ///
    /// Passes are run until one of them writes no value, or until every
    /// witness column has a value. If an identity failed in the last pass, a
    /// row other than the first is not solved, and the solver keeps the row
    /// before it; on the first row this is no failure, since the identities
    /// between the last row and the first are checked again at the end. A
    /// row that is solved becomes the row before the next one; the values
    /// returned are those of the witness columns in order, zero where none
    /// was found, and the row after it is the next to be solved.
    pub fn compute_next_row(&mut self, next_row: DegreeType) -> (r: Result<
        Vec<FieldElement>,
        RowFailure,
    >)
        requires
            old(self).wf(),
        ensures
            final(self).wf(),
            final(self).same_setup(old(self)),
            final(self).state().next_row == if r is Ok && next_row < u64::MAX {
                (next_row + 1) as u64
            } else {
                next_row
            },
            1 <= final(self).passes() <= old(self).state().fixed_data.witness_names.len() + 1,
            next_row == 0 && old(self).asks_no_machine() ==> r is Ok,
            exists|outcome: PassView|
                old(self).state().starting(next_row).solve_may_reach(
                    old(self).setup(),
                    old(self).state().fixed_data.witness_names.len() + 1,
                    outcome,
                ) && #[trigger] ends_as(r, final(self).state().current, next_row, outcome),
            old(self).is_closed() ==> {
                let outcome = old(self).state().starting(next_row).solve(
                    old(self).identities(),
                    old(self).state().fixed_data.witness_names.len() + 1,
                );
                &&& r is Err <==> outcome.failed && next_row != 0
                &&& r is Ok ==> final(self).state().current == outcome.next
                &&& r matches Err(failure) ==> failure.values@ == outcome.next && reason_views(
                    failure.reasons@,
                ) == outcome.reasons
            },
            match r {
                Ok(row) => {
                    &&& row@.len() == final(self).state().current.len()
                    &&& forall|i: int|
                        0 <= i < row@.len() ==> (#[trigger] row@[i])@ == value_or_zero(
                            final(self).state().current[i],
                        )
                    &&& final(self).state().next == unknown_row(
                        old(self).state().fixed_data.witness_names.len(),
                    )
                },
                Err(failure) => {
                    &&& failure.row == next_row
                    &&& failure.reasons@.len() > 0
                    &&& failure.values@ == final(self).state().next
                    &&& views(failure.unknown@) == unknown_names(
                        old(self).state().fixed_data.witness_names,
                        failure.values@,
                        failure.values@.len() as int,
                    )
                    &&& final(self).state().current == old(self).state().current
                },
            },
    {
        let width = self.fixed_data.witness_count();
        self.next_row = next_row;
        self.next = fresh_row(width);
        self.passes = 0;
        proof {
            lemma_unknown_row(width as nat);
        }
        let mut identity_failed = false;
        let mut stray = false;
        let ghost start = self.state();
        let ghost identities = self.identities();
        let ghost setup = self.setup();
        assert(start == old(self).state().starting(next_row));
        loop
            invariant_except_break
                self.passes == 0 || unknown_count(self.next@) >= 1,
                self.passes + unknown_count(self.next@) <= width,
                forall|out: PassView| #[trigger]
                    self.state().solve_may_reach(setup, (width + 1 - self.passes) as nat, out)
                        ==> start.solve_may_reach(setup, (width + 1) as nat, out),
                old(self).is_closed() ==> start.solve(identities, (width + 1) as nat)
                    == self.state().solve(identities, (width + 1 - self.passes) as nat),
            invariant
                self.wf(),
                self.same_setup(old(self)),
                width == self.fixed_data@.witness_names.len(),
                self.current@ == old(self).current@,
                self.next_row == next_row,
                identities == old(self).identities(),
                setup == old(self).setup(),
                start == old(self).state().starting(next_row),
            ensures
                1 <= self.passes <= width + 1,
                identity_failed ==> self.failure_reasons@.len() > 0,
                stray == stray_reported(reason_views(self.failure_reasons@)),
                old(self).asks_no_machine() ==> !stray,
                start.solve_may_reach(setup, (width + 1) as nat, self.pass_view(identity_failed)),
                old(self).is_closed() ==> self.next@ == start.solve(
                    identities,
                    (width + 1) as nat,
                ).next && reason_views(self.failure_reasons@) == start.solve(
                    identities,
                    (width + 1) as nat,
                ).reasons && identity_failed == start.solve(identities, (width + 1) as nat).failed,
            decreases unknown_count(self.next@),
        {
            let ghost before = self.state();
            let ghost remaining = (width + 1 - self.passes) as nat;
            proof {
                lemma_unknown_count_bound(self.next@);
            }
            self.passes = self.passes + 1;
            identity_failed = self.run_pass();
            stray = self.has_stray_reason();
            let ghost pass = self.pass_view(identity_failed);
            proof {
                lemma_extends_count(before.next, self.next@);
                assert(self.state() == before.with_next(self.next@));
                assert(before.pass_may_reach(setup, pass));
            }
            if stray {
                proof {
                    assert(before.stops(remaining, pass));
                    assert(before.solve_may_reach(setup, remaining, pass));
                }
                break ;
            }
            if !self.progress {
                proof {
                    assert(before.stops(remaining, pass));
                    assert(before.solve_may_reach(setup, remaining, pass));
                }
                break ;
            }
            if self.is_row_complete() {
                proof {
                    assert(before.stops(remaining, pass));
                    assert(before.solve_may_reach(setup, remaining, pass));
                }
                break ;
            }
            proof {
                lemma_unknown_count_bound(self.next@);
                assert(!before.stops(remaining, pass));
                assert forall|out: PassView| #[trigger]
                    self.state().solve_may_reach(
                        setup,
                        (width + 1 - self.passes) as nat,
                        out,
                    ) implies start.solve_may_reach(setup, (width + 1) as nat, out) by {
                    assert((width + 1 - self.passes) as nat == (remaining - 1) as nat);
                    assert(before.with_next(pass.next).solve_may_reach(
                        setup,
                        (remaining - 1) as nat,
                        out,
                    ));
                    assert(before.solve_may_reach(setup, remaining, out));
                }
            }
        }
        let ghost outcome = self.pass_view(identity_failed);
        // On the first row an identity may fail for want of the row before
        // it. A value for a witness column that does not exist is no such
        // failure: it ends the row wherever it comes.
        if (identity_failed && next_row != 0) || stray {
            let mut reasons: Vec<FailureReason> = Vec::new();
            core::mem::swap(&mut reasons, &mut self.failure_reasons);
            let r = Err(
                RowFailure {
                    row: next_row,
                    unknown: self.unknown_columns(),
                    reasons,
                    values: self.next_values(),
                },
            );
            assert(ends_as(r, self.state().current, next_row, outcome));
            r
        } else {
            let row = self.next_or_zero();
            core::mem::swap(&mut self.next, &mut self.current);
            self.next = fresh_row(width);
            if next_row < u64::MAX {
                self.next_row = next_row + 1;
            }
            let r = Ok(row);
            assert(ends_as(r, self.state().current, next_row, outcome));
            r
        }
    }

    /// The witness columns that the machines hold, by name. Where two
    /// machines hold a column of the same name, that of the later machine stays.
    pub fn machine_witness_col_values(&mut self) -> (r: NameTable<Vec<FieldElement>>)
        requires
            old(self).wf(),
        ensures
            final(self).wf(),
            final(self).same_setup(old(self)),
            final(self).state() == old(self).state(),
            r.wf(),
            columns_may_be(old(self).machine_count() as int, r@),
    {
        let mut result: NameTable<Vec<FieldElement>> = NameTable::new();
        let fixed_data = self.fixed_data;
        let mut i: usize = 0;
        while i < self.machines.len()
            invariant
                self.wf(),
                self.same_setup(old(self)),
                self.state() == old(self).state(),
                i <= self.machines@.len(),
                fixed_data == self.fixed_data,
                result.wf(),
                columns_may_be(i as int, result@),
            decreases self.machines@.len() - i,
        {
            let ghost mid = result@;
            let columns = self.machines[i].witness_col_values(fixed_data);
            let ghost given = columns@;
            merge_columns(&mut result, columns);
            proof {
                let k = i as int + 1;
                assert(columns_may_be(k - 1, mid));
                assert(merge_step(mid, given, result@));
                assert(columns_may_be(k, result@));
            }
            i += 1;
        }
        result
    }

    /// One line for each witness column: its name, and its value in the row
    /// being solved or `<unknown>`.
    pub fn format_next_values(&self) -> (r: Vec<String>)
        ensures
            views(r@) == value_lines(
                self.state().fixed_data.witness_names,
                self.state().next,
                self.state().next.len() as int,
            ),
    {
        let mut lines: Vec<String> = Vec::new();
        let mut i: usize = 0;
        assert(views(lines@) =~= Seq::empty());
        while i < self.next.len()
            invariant
                i <= self.next@.len(),
                views(lines@) == value_lines(self.fixed_data@.witness_names, self.next@, i as int),
            decreases self.next@.len() - i,
        {
            let mut line = AffineExpression::from_wittness_poly_value(i).format(self.fixed_data);
            line.append(" = ");
            match self.next[i] {
                Some(value) => {
                    line.append(format_number(&value).as_str());
                },
                None => {
                    line.append("<unknown>");
                },
            }
            let ghost before = views(lines@);
            lines.push(line);
            assert(views(lines@) =~= before.push(line@));
            i += 1;
        }
        lines
    }
}

impl RowView {
    /// The state in which the solving of a row starts: nothing is known of the row.
    pub open spec fn starting(self, next_row: DegreeType) -> RowView {
        RowView {
            fixed_data: self.fixed_data,
            current: self.current,
            next: unknown_row(self.fixed_data.witness_names.len()),
            next_row,
        }
    }
}

/// How the solving of a row ends, given where the passes ended: the row
/// fails if an identity failed in the last pass and the row is not the
/// first, and on any row if a machine assigned a value to a witness column
/// that does not exist. A row that is solved becomes the row before the next one; of a
/// row that fails the values and the reasons are reported.
pub open spec fn ends_as(
    r: Result<Vec<FieldElement>, RowFailure>,
    current: Seq<Option<FieldElement>>,
    next_row: DegreeType,
    outcome: PassView,
) -> bool {
    &&& r is Err <==> (outcome.failed && next_row != 0) || stray_reported(outcome.reasons)
    &&& r is Ok ==> current == outcome.next
    &&& r matches Err(failure) ==> failure.values@ == outcome.next && reason_views(
        failure.reasons@,
    ) == outcome.reasons
}

/// The value, or zero where there is none.
pub open spec fn value_or_zero(value: Option<FieldElement>) -> int {
    match value {
        Some(v) => v@,
        None => 0,
    }
}

/// The result says that no machine answered.
pub open spec fn no_machine(r: EvalResult) -> bool {
    r matches Err(error) && error@ == EvalFault::NoMatchingMachine
}

/// The result is what `decide_lookup` makes of the answer.
pub open spec fn decided_by(r: EvalResult, answer: Result<LookupReturn, EvalError>, width: int) -> bool {
    lookup_decision(answer, width) matches Some(decision) && assigned(r, decision)
}

/// Without a query callback the queries change nothing.
proof fn lemma_queries_idle(row: RowView, setup: SolverView, k: int, from: PassView)
    requires
        !setup.callback,
    ensures
        row.queries_may_reach(setup, k, from, from),
    decreases k,
{
    if k > 0 {
        lemma_queries_idle(row, setup, k - 1, from);
        assert(row.query_step(setup, k - 1, from, None, from));
    }
}

/// The exec result `r` holds exactly the assignments `expected`, or reports their failure.
pub open spec fn assigned(r: EvalResult, expected: Result<Seq<(usize, FieldElement)>, EvalFault>) -> bool {
    match expected {
        Ok(assignments) => r matches Ok(a) && a@ == assignments,
        Err(fault) => r matches Err(error) && error@ == fault,
    }
}

/// A failure among the first `n` items is the failure of any longer prefix.
proof fn lemma_interpolate_items_fails(row: RowView, items: Seq<QueryExpression>, n: int, m: int)
    requires
        row.interpolate_items(items, n) is Err,
        0 <= n <= m <= items.len(),
    ensures
        row.interpolate_items(items, m) == row.interpolate_items(items, n),
    decreases m - n,
{
    if n < m {
        lemma_interpolate_items_fails(row, items, n, m - 1);
    }
}

} // verus!
