//! The execution engine: runs a `QueryPlan` against a snapshot of the store
//! and projects the requested columns out of every row.
use vstd::prelude::*;

use crate::chars::text_eq;
use crate::parser::star_text;
use crate::query::QueryPlan;
use crate::schema::{assoc_get, assoc_idx, lemma_assoc_idx, row_value, Row, RowModel, TableModel};
use crate::storage_engine::{
    lemma_create_table_get, lemma_insert_row_get, spec_create_table, spec_insert_row, EngineModel,
    StorageEngine,
};

verus! {

/// An execution failure.
#[derive(Debug, PartialEq, Eq)]
pub enum ExecutionError {
    TableNotFound(String),
}

/// The columns a projection asks for against a given table: the single
/// sentinel `*` resolves to the table's declared column list — the canonical
/// semantics of `*` here — and any other projection stands as written.
pub open spec fn effective_columns(proj: Seq<Seq<char>>, t: TableModel) -> Seq<Seq<char>> {
    if proj.len() == 1 && proj[0] == star_text() {
        t.columns
    } else {
        proj
    }
}

/// One output row: each requested column bound to the row's value for it,
/// with the empty-text default for a column the row does not contain.
pub open spec fn project_row(cols: Seq<Seq<char>>, r: RowModel) -> RowModel {
    Seq::new(cols.len(), |i: int| (cols[i], row_value(r, cols[i])))
}

/// What execution returns: the table's rows in row-id order, each projected,
/// or nothing where the table is absent.
pub open spec fn spec_execute(proj: Seq<Seq<char>>, table: Seq<char>, e: EngineModel) -> Option<
    Seq<RowModel>,
> {
    match assoc_get(e, table) {
        Some(t) => Some(
            Seq::new(t.rows.len(), |i: int| project_row(effective_columns(proj, t), t.rows[i].1)),
        ),
        None => None,
    }
}

/// Runs query plans against one snapshot of the store.
pub struct ExecutionEngine {
    storage_engine: StorageEngine,
}

impl View for ExecutionEngine {
    type V = EngineModel;

    closed spec fn view(&self) -> EngineModel {
        self.storage_engine@
    }
}

impl ExecutionEngine {
    pub fn new(storage_engine: StorageEngine) -> (r: Self)
        ensures
            r@ == storage_engine@,
    {
        ExecutionEngine { storage_engine }
    }

    /// Resolves the plan's table and projects the requested columns out of
    /// every row, in row-id order. Fails exactly when the table is absent,
    /// naming the missing table.
    pub fn execute(&self, query_plan: &QueryPlan) -> (r: Result<Vec<Row>, ExecutionError>)
        ensures
            ({
                let out = spec_execute(
                    query_plan.projection.deep_view(),
                    query_plan.table@,
                    self@,
                );
                match out {
                    Some(rows) => r matches Ok(v) && v.deep_view() == rows,
                    None => r matches Err(e) && (e matches ExecutionError::TableNotFound(n)
                        && n@ == query_plan.table@),
                }
            }),
    {
        proof {
            lemma_assoc_idx(self@, query_plan.table@);
        }
        let table = match self.find_table(query_plan.table.0.as_str()) {
            Some(i) => &self.storage_engine.tables[i].1,
            None => {
                return Err(ExecutionError::TableNotFound(query_plan.table.0.clone()));
            },
        };
        let ghost tv = table@;
        let ghost cols_model = effective_columns(query_plan.projection.deep_view(), tv);
        // Resolve the `*` sentinel against the declared columns before
        // projecting.
        let is_star = query_plan.projection.len() == 1 && text_eq(
            query_plan.projection[0].0.as_str(),
            "*",
        );
        let mut cols: Vec<String> = Vec::new();
        if is_star {
            let mut i: usize = 0;
            while i < table.columns.len()
                invariant
                    i <= table.columns@.len(),
                    cols@.len() == i,
                    forall|j: int| 0 <= j < i ==> #[trigger] cols@[j]@ == table.columns@[j]@,
                decreases table.columns@.len() - i,
            {
                cols.push(table.columns[i].clone());
                i = i + 1;
            }
        } else {
            let mut i: usize = 0;
            while i < query_plan.projection.len()
                invariant
                    i <= query_plan.projection@.len(),
                    cols@.len() == i,
                    forall|j: int|
                        0 <= j < i ==> #[trigger] cols@[j]@ == query_plan.projection@[j]@,
                decreases query_plan.projection@.len() - i,
            {
                cols.push(query_plan.projection[i].0.clone());
                i = i + 1;
            }
        }
        proof {
            assert(cols.deep_view() =~= cols_model);
        }
        let mut result: Vec<Row> = Vec::new();
        let mut j: usize = 0;
        while j < table.rows.len()
            invariant
                j <= table.rows@.len(),
                tv == table@,
                cols.deep_view() == cols_model,
                result.deep_view().len() == j,
                forall|k: int|
                    0 <= k < j ==> #[trigger] result.deep_view()[k] == project_row(
                        cols_model,
                        tv.rows[k].1,
                    ),
            decreases table.rows@.len() - j,
        {
            let source = &table.rows[j].1;
            let mut data: Vec<(String, String)> = Vec::new();
            let mut k: usize = 0;
            while k < cols.len()
                invariant
                    k <= cols@.len(),
                    cols.deep_view() == cols_model,
                    source@ == tv.rows[j as int].1,
                    0 <= j < tv.rows.len(),
                    data@.len() == k,
                    forall|m: int|
                        0 <= m < k ==> (#[trigger] data@[m].0@, data@[m].1@) == (
                            cols_model[m],
                            row_value(tv.rows[j as int].1, cols_model[m]),
                        ),
                decreases cols@.len() - k,
            {
                let value = row_lookup(source, &cols[k]);
                let pair = (cols[k].clone(), value);
                data.push(pair);
                k = k + 1;
            }
            let out_row = Row { data };
            let ghost prev_dv = result.deep_view();
            proof {
                assert(out_row@ =~= project_row(cols_model, tv.rows[j as int].1));
            }
            result.push(out_row);
            proof {
                assert(result.deep_view() =~= prev_dv.push(project_row(
                    cols_model,
                    tv.rows[j as int].1,
                )));
            }
            j = j + 1;
        }
        proof {
            assert(result.deep_view() =~= spec_execute(
                query_plan.projection.deep_view(),
                query_plan.table@,
                self@,
            )->Some_0);
        }
        Ok(result)
    }

    /// The position of the named table in the snapshot, if it is present.
    fn find_table(&self, name: &str) -> (r: Option<usize>)
        ensures
            ({
                let i = assoc_idx(self@, name@);
                match r {
                    Some(p) => p as int == i && i >= 0 && p < self.storage_engine.tables@.len()
                        && self.storage_engine.tables@[p as int].1@ == assoc_get(
                        self@,
                        name@,
                    )->Some_0,
                    None => i < 0,
                }
            }),
    {
        proof {
            lemma_assoc_idx(self@, name@);
        }
        let mut p: usize = 0;
        while p < self.storage_engine.tables.len()
            invariant
                p <= self.storage_engine.tables@.len(),
                forall|j: int| 0 <= j < p ==> #[trigger] self@[j].0 != name@,
            decreases self.storage_engine.tables@.len() - p,
        {
            if text_eq(self.storage_engine.tables[p].0.as_str(), name) {
                proof {
                    lemma_assoc_idx(self@, name@);
                    let ix: int = assoc_idx(self@, name@);
                    assert(self@[p as int].0 == name@);
                    if ix < p as int {
                        assert(self@[ix].0 == name@);
                        assert(false);
                    }
                    if ix > p as int {
                        assert(self@[p as int].0 != name@);
                        assert(false);
                    }
                }
                return Some(p);
            }
            p = p + 1;
        }
        proof {
            lemma_assoc_idx(self@, name@);
        }
        None
    }
}

/// Insert monotonicity: three rows inserted into a freshly created table
/// take row ids 0, 1 and 2 in insertion order, and executing any plan
/// against that table returns exactly three projected rows.
pub proof fn lemma_insert_ids_monotonic(
    e: EngineModel,
    name: Seq<char>,
    columns: Seq<Seq<char>>,
    r1: RowModel,
    r2: RowModel,
    r3: RowModel,
    proj: Seq<Seq<char>>,
)
    ensures
        ({
            let e1 = spec_create_table(e, name, columns);
            let e2 = spec_insert_row(e1, name, r1);
            let e3 = spec_insert_row(e2, name, r2);
            let e4 = spec_insert_row(e3, name, r3);
            &&& assoc_get(e4, name) matches Some(t) && t.rows == seq![
                (0u64, r1),
                (1u64, r2),
                (2u64, r3),
            ]
            &&& spec_execute(proj, name, e4) matches Some(rows) && rows.len() == 3
        }),
{
    let e1 = spec_create_table(e, name, columns);
    let e2 = spec_insert_row(e1, name, r1);
    let e3 = spec_insert_row(e2, name, r2);
    let e4 = spec_insert_row(e3, name, r3);
    lemma_create_table_get(e, name, columns);
    lemma_insert_row_get(e1, name, r1);
    lemma_insert_row_get(e2, name, r2);
    lemma_insert_row_get(e3, name, r3);
    let t4 = assoc_get(e4, name)->Some_0;
    assert(t4.rows =~= seq![(0u64, r1), (1u64, r2), (2u64, r3)]);
}

/// The value a row binds to a column, or empty text where the column is
/// absent — a missing column is never an error.
fn row_lookup(row: &Row, key: &String) -> (v: String)
    ensures
        v@ == row_value(row@, key@),
{
    proof {
        lemma_assoc_idx(row@, key@);
    }
    let mut i: usize = 0;
    while i < row.data.len()
        invariant
            i <= row.data@.len(),
            forall|j: int| 0 <= j < i ==> #[trigger] row@[j].0 != key@,
        decreases row.data@.len() - i,
    {
        if text_eq(row.data[i].0.as_str(), key.as_str()) {
            proof {
                lemma_assoc_idx(row@, key@);
                let ix: int = assoc_idx(row@, key@);
                assert(row@[i as int].0 == key@);
                if ix < i as int {
                    assert(row@[ix].0 == key@);
                    assert(false);
                }
                if ix > i as int {
                    assert(row@[i as int].0 != key@);
                    assert(false);
                }
            }
            return row.data[i].1.clone();
        }
        i = i + 1;
    }
    proof {
        lemma_assoc_idx(row@, key@);
    }
    String::new()
}

} // verus!
