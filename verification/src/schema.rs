//! The table and row data model, with its mathematical view and the
//! well-formedness invariants of stored data.
use vstd::prelude::*;

verus! {

/// A row's content: column name to value text, in insertion order.
pub type RowModel = Seq<(Seq<char>, Seq<char>)>;

/// A row of a table. All values are text; a column absent from the map
/// resolves to empty text on projection rather than failing.
#[derive(Debug, PartialEq, Eq)]
pub struct Row {
    pub data: Vec<(String, String)>,
}

impl View for Row {
    type V = RowModel;

    open spec fn view(&self) -> RowModel {
        self.data@.map_values(|p: (String, String)| (p.0@, p.1@))
    }
}

impl DeepView for Row {
    type V = RowModel;

    open spec fn deep_view(&self) -> RowModel {
        self.view()
    }
}

/// The mathematical content of a table: declared columns, rows keyed by
/// row id, and the id the next insertion will take.
pub ghost struct TableModel {
    pub columns: Seq<Seq<char>>,
    pub rows: Seq<(u64, RowModel)>,
    pub next_row_id: u64,
}

/// A table: declarative column metadata and rows keyed by row id. Row ids
/// are assigned by an explicit monotonic counter; since nothing is ever
/// removed, the id of each row equals its position.
#[derive(Debug, PartialEq, Eq)]
pub struct Table {
    pub columns: Vec<String>,
    pub rows: Vec<(u64, Row)>,
    pub next_row_id: u64,
}

impl View for Table {
    type V = TableModel;

    open spec fn view(&self) -> TableModel {
        TableModel {
            columns: self.columns.deep_view(),
            rows: self.rows@.map_values(|e: (u64, Row)| (e.0, e.1@)),
            next_row_id: self.next_row_id,
        }
    }
}

impl DeepView for Table {
    type V = TableModel;

    open spec fn deep_view(&self) -> TableModel {
        self.view()
    }
}

/// The first value bound to a key in an association sequence, if any.
pub open spec fn assoc_idx<V>(s: Seq<(Seq<char>, V)>, k: Seq<char>) -> int
    decreases s.len(),
{
    if s.len() == 0 {
        -1
    } else if s[0].0 == k {
        0
    } else {
        let r = assoc_idx(s.drop_first(), k);
        if r < 0 {
            -1
        } else {
            1 + r
        }
    }
}

pub open spec fn assoc_get<V>(s: Seq<(Seq<char>, V)>, k: Seq<char>) -> Option<V> {
    if assoc_idx(s, k) >= 0 {
        Some(s[assoc_idx(s, k)].1)
    } else {
        None
    }
}

pub proof fn lemma_assoc_idx<V>(s: Seq<(Seq<char>, V)>, k: Seq<char>)
    ensures
        -1 <= assoc_idx(s, k) < s.len(),
        assoc_idx(s, k) >= 0 ==> s[assoc_idx(s, k)].0 == k,
        forall|j: int| 0 <= j < s.len() && s[j].0 == k ==> assoc_idx(s, k) >= 0,
        forall|j: int| #![auto] 0 <= j && (assoc_idx(s, k) < 0 || j < assoc_idx(s, k)) && j
            < s.len() ==> s[j].0 != k,
    decreases s.len(),
{
    if s.len() > 0 && s[0].0 != k {
        lemma_assoc_idx(s.drop_first(), k);
        assert(forall|j: int| 1 <= j < s.len() ==> s[j] == s.drop_first()[j - 1]);
    }
}

/// The first match wins: where one key stands at `i` and none before it,
/// the association index is `i`.
pub proof fn lemma_assoc_idx_of<V>(s: Seq<(Seq<char>, V)>, k: Seq<char>, i: int)
    requires
        0 <= i < s.len(),
        s[i].0 == k,
        forall|j: int| 0 <= j < i ==> #[trigger] s[j].0 != k,
    ensures
        assoc_idx(s, k) == i,
    decreases s.len(),
{
    if s[0].0 == k {
        assert(i == 0);
    } else {
        assert(forall|j: int| 0 <= j < s.drop_first().len() ==> s.drop_first()[j] == s[j + 1]);
        lemma_assoc_idx_of(s.drop_first(), k, i - 1);
    }
}

/// The value a row binds to a column, with the empty-text default for a
/// column the row does not contain.
pub open spec fn row_value(r: RowModel, k: Seq<char>) -> Seq<char> {
    match assoc_get(r, k) {
        Some(v) => v,
        None => Seq::empty(),
    }
}

/// A row is well formed when its column names are distinct.
pub open spec fn row_wf(r: RowModel) -> bool {
    forall|i: int, j: int| 0 <= i < j < r.len() ==> r[i].0 != r[j].0
}

/// A table is well formed when the id of each row is its position, the
/// insertion counter sits one past the last id, and each row is well formed.
pub open spec fn table_wf(t: TableModel) -> bool {
    &&& t.next_row_id as int == t.rows.len()
    &&& forall|i: int| 0 <= i < t.rows.len() ==> #[trigger] t.rows[i].0 as int == i
    &&& forall|i: int| 0 <= i < t.rows.len() ==> row_wf(#[trigger] t.rows[i].1)
}

impl Clone for Row {
    fn clone(&self) -> (r: Self)
        ensures
            r@ == self@,
    {
        let mut data: Vec<(String, String)> = Vec::new();
        let mut i: usize = 0;
        while i < self.data.len()
            invariant
                i <= self.data.len(),
                data@.len() == i,
                forall|j: int| 0 <= j < i ==> (#[trigger] data@[j].0@, data@[j].1@) == self@[j],
            decreases self.data.len() - i,
        {
            let pair = (self.data[i].0.clone(), self.data[i].1.clone());
            data.push(pair);
            i = i + 1;
        }
        let r = Row { data };
        proof {
            assert(r@ =~= self@);
        }
        r
    }
}

impl Clone for Table {
    fn clone(&self) -> (r: Self)
        ensures
            r@ == self@,
    {
        let mut columns: Vec<String> = Vec::new();
        let mut i: usize = 0;
        while i < self.columns.len()
            invariant
                i <= self.columns.len(),
                columns@.len() == i,
                forall|j: int| 0 <= j < i ==> #[trigger] columns@[j]@ == self.columns@[j]@,
            decreases self.columns.len() - i,
        {
            columns.push(self.columns[i].clone());
            i = i + 1;
        }
        let mut rows: Vec<(u64, Row)> = Vec::new();
        let mut j: usize = 0;
        while j < self.rows.len()
            invariant
                j <= self.rows.len(),
                rows@.len() == j,
                forall|k: int| 0 <= k < j ==> (#[trigger] rows@[k].0, rows@[k].1@) == self@.rows[k],
            decreases self.rows.len() - j,
        {
            let entry = (self.rows[j].0, self.rows[j].1.clone());
            rows.push(entry);
            j = j + 1;
        }
        let r = Table { columns, rows, next_row_id: self.next_row_id };
        proof {
            assert(r@.columns =~= self@.columns);
            assert(r@.rows =~= self@.rows);
        }
        r
    }
}

} // verus!
