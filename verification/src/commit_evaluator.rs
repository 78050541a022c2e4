//! The witness solver: row by row, it deduces the values of the committed
//! polynomials from the identities, the fixed columns and the machines.

pub mod affine_expression;
pub mod eval_error;
pub mod evaluator;
pub mod expression_evaluator;
pub mod machine;
pub mod util;

use crate::analyzer::{expression_text, Expression};
use crate::commit_evaluator::eval_error::EvalError;
use crate::number::FieldElement;
use crate::table::{has_name, lemma_position_of, position_of, NameTable};
use crate::text::{
    decimal, is_text_less, join, join_strings, push_decimal, quote, quoted, text_less, views,
};
use vstd::string::*;
use vstd::prelude::*;

verus! {

/// What an identity or a query contributes to a row: values for witness
/// columns, by id, or the reason why it contributes none.
pub type EvalResult = Result<Vec<(usize, FieldElement)>, EvalError>;

/// An expression that asks for the value of a witness column from outside.
#[derive(Debug)]
pub enum QueryExpression {
    /// An expression of the constraint language.
    Expression(Expression),
    Tuple(Vec<QueryExpression>),
    String(String),
    /// A local variable by its number. Number zero is the row.
    LocalVariableReference(u64),
}

/// How the first `n` items of a tuple are written.
pub open spec fn query_texts(items: Seq<QueryExpression>, n: int) -> Seq<Seq<char>>
    decreases items, n,
{
    if n <= 0 || n > items.len() {
        Seq::empty()
    } else {
        query_texts(items, n - 1).push(query_text(items[n - 1]))
    }
}

/// How a query is written: a tuple in parentheses, a string in quotes, a
/// local variable as a dollar sign with its number.
pub open spec fn query_text(query: QueryExpression) -> Seq<char>
    decreases query,
{
    match query {
        QueryExpression::Expression(e) => expression_text(e),
        QueryExpression::Tuple(items) => "("@ + join(
            query_texts(items@, items@.len() as int),
            ", "@,
        ) + ")"@,
        QueryExpression::String(s) => quoted(s@),
        QueryExpression::LocalVariableReference(i) => "$"@ + decimal(i as nat),
    }
}

/// The query as it is written.
pub fn format_query(query: &QueryExpression) -> (r: String)
    ensures
        r@ == query_text(*query),
    decreases query,
{
    match query {
        QueryExpression::Expression(e) => e.format(),
        QueryExpression::Tuple(items) => {
            let mut texts: Vec<String> = Vec::new();
            let mut i: usize = 0;
            assert(views(texts@) =~= query_texts(items@, 0));
            while i < items.len()
                invariant
                    i <= items@.len(),
                    *query == QueryExpression::Tuple(*items),
                    views(texts@) == query_texts(items@, i as int),
                decreases items@.len() - i,
            {
                assert(query->Tuple_0 == *items);
                let text = format_query(&items[i]);
                let ghost before = views(texts@);
                texts.push(text);
                assert(views(texts@) =~= before.push(text@));
                i += 1;
            }
            let mut text = String::new();
            text.append("(");
            text.append(join_strings(&texts, ", ").as_str());
            text.append(")");
            assert(text@ =~= query_text(*query));
            text
        },
        QueryExpression::String(s) => quote(s.as_str()),
        QueryExpression::LocalVariableReference(i) => {
            let mut text = String::new();
            text.append("$");
            push_decimal(&mut text, *i);
            text
        },
    }
}

impl QueryExpression {
    /// The query as it is written.
    pub fn format(&self) -> (r: String)
        ensures
            r@ == query_text(*self),
    {
        format_query(self)
    }
}

/// A committed polynomial as the solver sees it.
#[derive(Debug)]
pub struct WitnessColumn {
    pub name: String,
    /// The position among the witness columns.
    pub id: usize,
    pub query: Option<QueryExpression>,
}

/// What stays the same from row to row.
#[derive(Debug)]
pub struct FixedData {
    constants: NameTable<FieldElement>,
    fixed_cols: NameTable<Vec<FieldElement>>,
    witness_cols: Vec<WitnessColumn>,
    /// The ids of the witness columns in the order of their names.
    by_name: Vec<usize>,
    verbose: bool,
}

pub struct FixedDataView {
    /// The scalar constants.
    pub constants: Seq<(Seq<char>, FieldElement)>,
    /// The fixed columns with their values, row by row.
    pub fixed_cols: Seq<(Seq<char>, Vec<FieldElement>)>,
    /// The names of the witness columns, by id.
    pub witness_names: Seq<Seq<char>>,
    /// The queries of the witness columns, by id.
    pub queries: Seq<Option<QueryExpression>>,
    pub verbose: bool,
}

/// The names as the entries of a table without values.
pub open spec fn as_entries(names: Seq<Seq<char>>) -> Seq<(Seq<char>, ())> {
    Seq::new(names.len(), |i: int| (names[i], ()))
}

/// The id of the first witness column with the name.
pub open spec fn witness_id(names: Seq<Seq<char>>, name: Seq<char>) -> Option<int> {
    if has_name(as_entries(names), name) {
        Some(position_of(as_entries(names), name))
    } else {
        None
    }
}

/// A witness id, where there is one, is the position of a column with that name.
pub proof fn lemma_witness_id(names: Seq<Seq<char>>, name: Seq<char>)
    ensures
        witness_id(names, name) matches Some(id) ==> 0 <= id < names.len() && names[id] == name,
{
    lemma_position_of(as_entries(names), name);
}

/// A list of ids that is ordered by name, with one more id put in: before
/// the ids whose names come after its name, after all others.
pub open spec fn insert_by_name(names: Seq<Seq<char>>, order: Seq<usize>, id: usize) -> Seq<usize>
    decreases order.len(),
{
    if order.len() == 0 {
        seq![id]
    } else if text_less(names[id as int], names[order.last() as int]) {
        insert_by_name(names, order.drop_last(), id).push(order.last())
    } else {
        order.push(id)
    }
}

/// The first `n` ids in the order of their names; ids of the same name in
/// their own order.
pub open spec fn name_order(names: Seq<Seq<char>>, n: int) -> Seq<usize>
    decreases n,
{
    if n <= 0 {
        Seq::empty()
    } else {
        insert_by_name(names, name_order(names, n - 1), (n - 1) as usize)
    }
}

/// Putting an id in at the position before which no name comes after its
/// name, and from which on every name does, is putting it in by name.
proof fn lemma_insert_position(names: Seq<Seq<char>>, order: Seq<usize>, id: usize, p: int)
    requires
        0 <= p <= order.len(),
        p > 0 ==> !text_less(names[id as int], names[order[p - 1] as int]),
        forall|j: int| p <= j < order.len() ==> text_less(names[id as int], names[(#[trigger] order[j]) as int]),
    ensures
        insert_by_name(names, order, id) == order.insert(p, id),
    decreases order.len(),
{
    if order.len() == 0 {
        assert(order.insert(p, id) =~= seq![id]);
    } else if text_less(names[id as int], names[order.last() as int]) {
        let front = order.drop_last();
        assert forall|j: int| p <= j < front.len() implies text_less(
            names[id as int],
            names[(#[trigger] front[j]) as int],
        ) by {
            assert(front[j] == order[j]);
        }
        if p > 0 {
            assert(front[p - 1] == order[p - 1]);
        }
        lemma_insert_position(names, front, id, p);
        assert(front.insert(p, id).push(order.last()) =~= order.insert(p, id));
    } else {
        if p < order.len() {
            assert(text_less(names[id as int], names[order[order.len() - 1] as int]));
        }
        assert(order.push(id) =~= order.insert(p, id));
    }
}

/// Putting an id in by name keeps the ids below a bound, and adds one to their number.
proof fn lemma_insert_bound(names: Seq<Seq<char>>, order: Seq<usize>, id: usize, bound: int)
    requires
        id < bound,
        forall|j: int| 0 <= j < order.len() ==> (#[trigger] order[j]) < bound,
    ensures
        insert_by_name(names, order, id).len() == order.len() + 1,
        forall|j: int|
            0 <= j < order.len() + 1 ==> (#[trigger] insert_by_name(names, order, id)[j]) < bound,
    decreases order.len(),
{
    if order.len() > 0 && text_less(names[id as int], names[order.last() as int]) {
        let front = order.drop_last();
        assert forall|j: int| 0 <= j < front.len() implies (#[trigger] front[j]) < bound by {
            assert(front[j] == order[j]);
        }
        lemma_insert_bound(names, front, id, bound);
        assert(order[order.len() - 1] < bound);
    }
}

/// The order by name holds each of the first `n` ids, and nothing else.
pub proof fn lemma_name_order_bound(names: Seq<Seq<char>>, n: int)
    requires
        0 <= n <= usize::MAX,
    ensures
        name_order(names, n).len() == n,
        forall|j: int| 0 <= j < n ==> (#[trigger] name_order(names, n)[j]) < n,
    decreases n,
{
    if n > 0 {
        lemma_name_order_bound(names, n - 1);
        let before = name_order(names, n - 1);
        assert forall|j: int| 0 <= j < before.len() implies (#[trigger] before[j]) < n by {
            assert(before[j] < n - 1);
        }
        lemma_insert_bound(names, before, (n - 1) as usize, n);
    }
}

impl View for FixedData {
    type V = FixedDataView;

    closed spec fn view(&self) -> FixedDataView {
        FixedDataView {
            constants: self.constants@,
            fixed_cols: self.fixed_cols@,
            witness_names: Seq::new(
                self.witness_cols@.len(),
                |i: int| self.witness_cols@[i].name@,
            ),
            queries: Seq::new(self.witness_cols@.len(), |i: int| self.witness_cols@[i].query),
            verbose: self.verbose,
        }
    }
}

impl FixedData {
    /// The id of each witness column is its position, and the ids are kept
    /// in the order of the names as well.
    #[verifier::type_invariant]
    closed spec fn ids_are_positions(&self) -> bool {
        &&& forall|i: int|
            0 <= i < self.witness_cols@.len() ==> (#[trigger] self.witness_cols@[i]).id == i
        &&& self.by_name@ == name_order(self@.witness_names, self.witness_cols@.len() as int)
    }

    /// The witness columns get their ids in the order of the list.
    pub fn new(
        constants: NameTable<FieldElement>,
        fixed_cols: NameTable<Vec<FieldElement>>,
        witness_cols: Vec<(String, Option<QueryExpression>)>,
        verbose: bool,
    ) -> (r: FixedData)
        ensures
            r@.constants == constants@,
            r@.fixed_cols == fixed_cols@,
            r@.witness_names == Seq::new(witness_cols@.len(), |i: int| witness_cols@[i].0@),
            r@.queries == Seq::new(witness_cols@.len(), |i: int| witness_cols@[i].1),
            r@.verbose == verbose,
    {
        let ghost given = witness_cols@;
        let mut columns: Vec<WitnessColumn> = Vec::new();
        let mut rest = witness_cols;
        let mut taken: Vec<(String, Option<QueryExpression>)> = Vec::new();
        // The list is emptied from its end; the pairs come back into order below.
        while rest.len() > 0
            invariant
                rest@.len() + taken@.len() == given.len(),
                forall|j: int| 0 <= j < rest@.len() ==> rest@[j] == given[j],
                forall|j: int|
                    0 <= j < taken@.len() ==> (#[trigger] taken@[j]) == given[given.len() - 1 - j],
            decreases rest@.len(),
        {
            let pair = rest.pop().unwrap();
            taken.push(pair);
        }
        while taken.len() > 0
            invariant
                columns@.len() + taken@.len() == given.len(),
                forall|j: int|
                    0 <= j < taken@.len() ==> (#[trigger] taken@[j]) == given[given.len() - 1 - j],
                forall|j: int|
                    0 <= j < columns@.len() ==> (#[trigger] columns@[j]).name == given[j].0
                        && columns@[j].query == given[j].1 && columns@[j].id == j,
            decreases taken@.len(),
        {
            let (name, query) = taken.pop().unwrap();
            let id = columns.len();
            columns.push(WitnessColumn { name, id, query });
        }
        let ghost names = Seq::new(columns@.len(), |i: int| columns@[i].name@);
        let mut by_name: Vec<usize> = Vec::new();
        let mut id: usize = 0;
        while id < columns.len()
            invariant
                id <= columns@.len(),
                names == Seq::new(columns@.len(), |i: int| columns@[i].name@),
                by_name@ == name_order(names, id as int),
            decreases columns@.len() - id,
        {
            proof {
                lemma_name_order_bound(names, id as int);
            }
            // From the end, past the ids whose names come after the name.
            let mut p: usize = by_name.len();
            while p > 0 && is_text_less(
                columns[id].name.as_str(),
                columns[by_name[p - 1]].name.as_str(),
            )
                invariant
                    p <= by_name@.len(),
                    id < columns@.len(),
                    names == Seq::new(columns@.len(), |i: int| columns@[i].name@),
                    by_name@.len() == id,
                    forall|j: int| 0 <= j < id ==> (#[trigger] by_name@[j]) < id,
                    forall|j: int|
                        p <= j < by_name@.len() ==> text_less(
                            names[id as int],
                            names[(#[trigger] by_name@[j]) as int],
                        ),
                decreases p,
            {
                p -= 1;
            }
            proof {
                lemma_insert_position(names, by_name@, id, p as int);
            }
            by_name.insert(p, id);
            id += 1;
        }
        let r = FixedData { constants, fixed_cols, witness_cols: columns, by_name, verbose };
        proof {
            assert(r@.witness_names =~= Seq::new(given.len(), |i: int| given[i].0@));
            assert(r@.queries =~= Seq::new(given.len(), |i: int| given[i].1));
            assert(r@.witness_names =~= names);
        }
        r
    }

    /// The ids of the witness columns in the order of their names.
    pub fn witness_ids_by_name(&self) -> (r: &Vec<usize>)
        ensures
            r@ == name_order(self@.witness_names, self@.witness_names.len() as int),
            r@.len() == self@.witness_names.len(),
            forall|j: int| 0 <= j < r@.len() ==> (#[trigger] r@[j]) < self@.witness_names.len(),
    {
        let width = self.witness_cols.len();
        proof {
            use_type_invariant(self);
            lemma_name_order_bound(self@.witness_names, width as int);
        }
        &self.by_name
    }

    /// The number of witness columns.
    pub fn witness_count(&self) -> (r: usize)
        ensures
            r == self@.witness_names.len(),
            r == self@.queries.len(),
    {
        self.witness_cols.len()
    }

    /// The witness column with the given id.
    pub fn witness_col(&self, id: usize) -> (r: &WitnessColumn)
        requires
            id < self@.witness_names.len(),
        ensures
            r.name@ == self@.witness_names[id as int],
            r.query == self@.queries[id as int],
            r.id == id,
    {
        proof {
            use_type_invariant(self);
        }
        &self.witness_cols[id]
    }

    /// The name of the witness column with the given id.
    pub fn witness_name(&self, id: usize) -> (r: &String)
        requires
            id < self@.witness_names.len(),
        ensures
            r@ == self@.witness_names[id as int],
    {
        &self.witness_cols[id].name
    }

    /// The id of the witness column with the given name.
    pub fn witness_id(&self, name: &String) -> (r: Option<usize>)
        ensures
            match witness_id(self@.witness_names, name@) {
                Some(id) => r matches Some(i) && i == id && 0 <= id < self@.witness_names.len(),
                None => r is None,
            },
    {
        let ghost entries = as_entries(self@.witness_names);
        let mut i: usize = 0;
        while i < self.witness_cols.len()
            invariant
                i <= self.witness_cols@.len(),
                entries == as_entries(self@.witness_names),
                forall|j: int| 0 <= j < i ==> (#[trigger] entries[j]).0 != name@,
            decreases self.witness_cols@.len() - i,
        {
            if self.witness_cols[i].name == *name {
                proof {
                    lemma_position_of(entries, name@);
                    assert(entries[i as int].0 == name@);
                    let p = position_of(entries, name@);
                    if p < i {
                        assert(entries[p].0 != name@);
                    }
                }
                return Some(i);
            }
            i += 1;
        }
        proof {
            if has_name(entries, name@) {
                let j = choose|j: int| 0 <= j < entries.len() && (#[trigger] entries[j]).0 == name@;
                assert(entries[j].0 != name@);
            }
        }
        None
    }

    /// The scalar constant with the given name.
    pub fn constant(&self, name: &String) -> (r: Option<FieldElement>)
        ensures
            r == crate::table::value_of(self@.constants, name@),
    {
        match self.constants.get(name) {
            Some(value) => Some(*value),
            None => None,
        }
    }

    /// The values of the fixed column with the given name.
    pub fn fixed_col(&self, name: &String) -> (r: Option<&Vec<FieldElement>>)
        ensures
            match crate::table::value_of(self@.fixed_cols, name@) {
                Some(values) => r matches Some(v) && *v == values,
                None => r is None,
            },
    {
        self.fixed_cols.get(name)
    }

    pub fn verbose(&self) -> (r: bool)
        ensures
            r == self@.verbose,
    {
        self.verbose
    }

}

} // verus!
