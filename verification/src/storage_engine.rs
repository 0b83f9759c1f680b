//! The in-memory table store and the persistence layer around it.
use vstd::prelude::*;

use crate::chars::text_eq;
use crate::codec::{
    de_engine, engine_bounded, lemma_deserialize_serialize, ser_engine_into, spec_deserialize,
    spec_serialize,
};
use crate::schema::{
    assoc_get, assoc_idx, lemma_assoc_idx, lemma_assoc_idx_of, row_wf, table_wf, Row, RowModel,
    Table, TableModel,
};

verus! {

/// The mathematical content of the store: tables by name, in the order they
/// were first created.
pub type EngineModel = Seq<(Seq<char>, TableModel)>;

/// The store is well formed when table names are unique keys and every table
/// is well formed.
pub open spec fn engine_wf(e: EngineModel) -> bool {
    &&& forall|i: int, j: int| 0 <= i < j < e.len() ==> e[i].0 != e[j].0
    &&& forall|i: int| 0 <= i < e.len() ==> table_wf(#[trigger] e[i].1)
}

/// A table as `create_table` makes it: the declared columns and no rows.
pub open spec fn empty_table(columns: Seq<Seq<char>>) -> TableModel {
    TableModel { columns, rows: Seq::empty(), next_row_id: 0 }
}

/// What `create_table` does: bind the name to a fresh table, overwriting any
/// table of the same name in place — last write wins, by design.
pub open spec fn spec_create_table(e: EngineModel, name: Seq<char>, columns: Seq<Seq<char>>) -> EngineModel {
    let i = assoc_idx(e, name);
    if i >= 0 {
        e.update(i, (name, empty_table(columns)))
    } else {
        e.push((name, empty_table(columns)))
    }
}

/// What `insert_row` does: the named table gains the row under the counter's
/// id and the counter moves one past the new row count; a missing table
/// leaves the store unchanged — a deliberate, documented no-op.
pub open spec fn spec_insert_row(e: EngineModel, name: Seq<char>, row: RowModel) -> EngineModel {
    let i = assoc_idx(e, name);
    if i >= 0 {
        let t = e[i].1;
        let t2 = TableModel {
            columns: t.columns,
            rows: t.rows.push((t.next_row_id, row)),
            next_row_id: ((t.rows.len() + 1) as u64),
        };
        e.update(i, (e[i].0, t2))
    } else {
        e
    }
}

/// The root of persisted state: an in-memory map from table name to table,
/// held as an association list with unique names.
#[derive(Debug, PartialEq, Eq)]
pub struct StorageEngine {
    pub tables: Vec<(String, Table)>,
}

impl View for StorageEngine {
    type V = EngineModel;

    open spec fn view(&self) -> EngineModel {
        self.tables@.map_values(|e: (String, Table)| (e.0@, e.1@))
    }
}

impl Clone for StorageEngine {
    fn clone(&self) -> (r: Self)
        ensures
            r@ == self@,
    {
        let mut tables: Vec<(String, Table)> = Vec::new();
        let mut i: usize = 0;
        while i < self.tables.len()
            invariant
                i <= self.tables.len(),
                tables@.len() == i,
                forall|j: int|
                    0 <= j < i ==> (#[trigger] tables@[j].0@, tables@[j].1@) == self@[j],
            decreases self.tables.len() - i,
        {
            let entry = (self.tables[i].0.clone(), self.tables[i].1.clone());
            tables.push(entry);
            i = i + 1;
        }
        let r = StorageEngine { tables };
        proof {
            assert(r@ =~= self@);
        }
        r
    }
}

impl StorageEngine {
    /// The empty store.
    pub fn new() -> (r: Self)
        ensures
            r@ == Seq::<(Seq<char>, TableModel)>::empty(),
            engine_wf(r@),
    {
        let r = StorageEngine { tables: Vec::new() };
        proof {
            assert(r@ =~= Seq::<(Seq<char>, TableModel)>::empty());
        }
        r
    }

    /// The position of the named table, if it is present.
    fn find_table(&self, name: &str) -> (r: Option<usize>)
        ensures
            ({
                let i = assoc_idx(self@, name@);
                match r {
                    Some(p) => p as int == i && i >= 0 && p < self.tables@.len(),
                    None => i < 0,
                }
            }),
    {
        proof {
            lemma_assoc_idx(self@, name@);
        }
        let mut p: usize = 0;
        while p < self.tables.len()
            invariant
                p <= self.tables@.len(),
                forall|j: int| 0 <= j < p ==> #[trigger] self@[j].0 != name@,
            decreases self.tables@.len() - p,
        {
            if text_eq(self.tables[p].0.as_str(), name) {
                proof {
                    lemma_assoc_idx(self@, name@);
                    let ix: int = assoc_idx(self@, name@);
                    assert(self@[p as int].0 == name@);
                    if ix < p as int {
                        assert(self@[ix].0 == name@);
                        assert(false);
                    }
                    if ix > p as int {
                        assert(self@[p as int].0 != name@);
                        assert(false);
                    }
                }
                return Some(p);
            }
            p = p + 1;
        }
        proof {
            lemma_assoc_idx(self@, name@);
        }
        None
    }

    /// Inserts a new empty table with the given declared columns, replacing
    /// any existing table of the same name.
    pub fn create_table(&mut self, name: &str, columns: Vec<String>)
        ensures
            final(self)@ == spec_create_table(old(self)@, name@, columns.deep_view()),
            engine_wf(old(self)@) ==> engine_wf(final(self)@),
    {
        proof {
            lemma_assoc_idx(old(self)@, name@);
        }
        let ghost colsv = columns.deep_view();
        let table = Table { columns, rows: Vec::new(), next_row_id: 0 };
        let owned_name = String::from_str(name);
        proof {
            assert(table@.rows =~= Seq::<(u64, RowModel)>::empty());
            assert(table@ == empty_table(colsv));
        }
        match self.find_table(name) {
            Some(i) => {
                self.tables[i] = (owned_name, table);
                proof {
                    assert(self@ =~= spec_create_table(old(self)@, name@, colsv));
                }
            },
            None => {
                self.tables.push((owned_name, table));
                proof {
                    assert(self@ =~= spec_create_table(old(self)@, name@, colsv));
                }
            },
        }
    }

    /// Appends a row to the named table under the next row id. Against a
    /// missing table the call is a silent no-op, preserved from the store's
    /// documented behaviour.
    pub fn insert_row(&mut self, table_name: &str, row: Row)
        ensures
            final(self)@ == spec_insert_row(old(self)@, table_name@, row@),
            engine_wf(old(self)@) && row_wf(row@) ==> engine_wf(final(self)@),
    {
        proof {
            lemma_assoc_idx(old(self)@, table_name@);
        }
        match self.find_table(table_name) {
            Some(i) => {
                let row_id = self.tables[i].1.next_row_id;
                self.tables[i].1.rows.push((row_id, row));
                let n: usize = self.tables[i].1.rows.len();
                self.tables[i].1.next_row_id = n as u64;
                proof {
                    let ov = old(self)@;
                    let ix: int = assoc_idx(ov, table_name@);
                    assert(self@[ix].1.rows =~= ov[ix].1.rows.push(
                        (ov[ix].1.next_row_id, row@),
                    ));
                    assert(self@[ix].1 == spec_insert_row(ov, table_name@, row@)[ix].1);
                    assert(self@ =~= spec_insert_row(ov, table_name@, row@));
                }
            },
            None => {},
        }
    }
}

/// Checks a row's key uniqueness.
fn row_wf_check(r: &Row) -> (ok: bool)
    ensures
        ok == row_wf(r@),
{
    let n = r.data.len();
    let mut i: usize = 0;
    while i < n
        invariant
            n == r@.len(),
            i <= n,
            forall|a: int, b: int| 0 <= a < b < n && a < i ==> r@[a].0 != r@[b].0,
        decreases n - i,
    {
        let mut j: usize = i + 1;
        while j < n
            invariant
                n == r@.len(),
                i < j <= n,
                i < n,
                forall|b: int| i < b < j ==> r@[i as int].0 != r@[b].0,
            decreases n - j,
        {
            if text_eq(r.data[i].0.as_str(), r.data[j].0.as_str()) {
                proof {
                    assert(r@[i as int].0 == r@[j as int].0);
                    assert(!row_wf(r@));
                }
                return false;
            }
            j = j + 1;
        }
        i = i + 1;
    }
    true
}

/// Checks a table's invariants: the counter one past the rows, each row id
/// its position, each row well formed.
fn table_wf_check(t: &Table) -> (ok: bool)
    ensures
        ok == table_wf(t@),
{
    let n = t.rows.len();
    if t.next_row_id != n as u64 {
        proof {
            assert(t@.next_row_id as int != t@.rows.len());
        }
        return false;
    }
    let mut i: usize = 0;
    while i < n
        invariant
            n == t@.rows.len(),
            i <= n,
            forall|k: int| 0 <= k < i ==> #[trigger] t@.rows[k].0 as int == k,
            forall|k: int| 0 <= k < i ==> row_wf(#[trigger] t@.rows[k].1),
        decreases n - i,
    {
        if t.rows[i].0 != i as u64 {
            proof {
                assert(t@.rows[i as int].0 as int != i as int);
                assert(!table_wf(t@));
            }
            return false;
        }
        if !row_wf_check(&t.rows[i].1) {
            proof {
                assert(!row_wf(t@.rows[i as int].1));
                assert(!table_wf(t@));
            }
            return false;
        }
        i = i + 1;
    }
    true
}

/// Checks the store's invariants: unique table names and well-formed tables.
fn engine_wf_check(e: &StorageEngine) -> (ok: bool)
    ensures
        ok == engine_wf(e@),
{
    let n = e.tables.len();
    let mut i: usize = 0;
    while i < n
        invariant
            n == e@.len(),
            i <= n,
            forall|a: int, b: int| 0 <= a < b < n && a < i ==> e@[a].0 != e@[b].0,
            forall|k: int| 0 <= k < i ==> table_wf(#[trigger] e@[k].1),
        decreases n - i,
    {
        let mut j: usize = i + 1;
        while j < n
            invariant
                n == e@.len(),
                i < n,
                i < j <= n,
                forall|b: int| i < b < j ==> e@[i as int].0 != e@[b].0,
            decreases n - j,
        {
            if text_eq(e.tables[i].0.as_str(), e.tables[j].0.as_str()) {
                proof {
                    assert(e@[i as int].0 == e@[j as int].0);
                    assert(!engine_wf(e@));
                }
                return false;
            }
            j = j + 1;
        }
        if !table_wf_check(&e.tables[i].1) {
            proof {
                assert(!table_wf(e@[i as int].1));
                assert(!engine_wf(e@));
            }
            return false;
        }
        i = i + 1;
    }
    true
}

/// A snapshot buffer that does not decode to a well-formed store.
#[derive(Debug, PartialEq, Eq)]
pub struct StorageDecodeError;

impl StorageEngine {
    /// Encodes the whole store into the buffer, replacing its content.
    pub fn serialize(&self, buffer: &mut Vec<u8>)
        ensures
            final(buffer)@ == spec_serialize(self@),
    {
        ser_engine_into(buffer, self);
    }

    /// Decodes a whole store from the buffer. Fails exactly on a buffer that
    /// is not the full, well-formed encoding of one store.
    pub fn deserialize(buffer: &[u8]) -> (r: Result<StorageEngine, StorageDecodeError>)
        ensures
            ({
                match spec_deserialize(buffer@) {
                    Some(ev) => r matches Ok(e) && e@ == ev && engine_wf(e@),
                    None => r matches Err(_),
                }
            }),
    {
        match de_engine(buffer, 0) {
            Some((engine, q)) => {
                if q != buffer.len() {
                    return Err(StorageDecodeError);
                }
                if !engine_wf_check(&engine) {
                    return Err(StorageDecodeError);
                }
                Ok(engine)
            },
            None => Err(StorageDecodeError),
        }
    }
}

/// The store a restart reconstructs from what was read back: the decoded
/// snapshot, or the empty store where there was none or it does not decode —
/// a load failure deliberately falls back to empty, preserved as documented
/// behaviour.
pub open spec fn spec_load(snapshot: Option<Seq<u8>>) -> EngineModel {
    match snapshot {
        Some(b) => match spec_deserialize(b) {
            Some(e) => e,
            None => Seq::empty(),
        },
        None => Seq::empty(),
    }
}

/// The persistence layer: a store together with the path its snapshot lives
/// at. Every mutation returns the fresh snapshot bytes, which the caller
/// writes to the path in full — persistence cost is the whole store, by
/// design.
#[derive(Debug)]
pub struct FileSystem {
    pub storage_engine: StorageEngine,
    pub file_path: String,
}

impl FileSystem {
    pub open spec fn path(&self) -> Seq<char> {
        self.file_path@
    }

    /// Reconstructs the layer from the snapshot read at the path, if any.
    pub fn new(file_path: &str, snapshot: Option<Vec<u8>>) -> (r: Self)
        ensures
            r.storage_engine@ == spec_load(
                match snapshot {
                    Some(b) => Some(b@),
                    None => None,
                },
            ),
            engine_wf(r.storage_engine@),
            r.path() == file_path@,
    {
        let storage_engine = match snapshot {
            Some(bytes) => match StorageEngine::deserialize(bytes.as_slice()) {
                Ok(engine) => engine,
                Err(_) => StorageEngine::new(),
            },
            None => StorageEngine::new(),
        };
        FileSystem { storage_engine, file_path: String::from_str(file_path) }
    }

    /// Creates the table in the store and returns the fresh snapshot for the
    /// caller to write out.
    pub fn create_table(&mut self, name: &str, columns: Vec<String>) -> (snapshot: Vec<u8>)
        ensures
            final(self).storage_engine@ == spec_create_table(
                old(self).storage_engine@,
                name@,
                columns.deep_view(),
            ),
            engine_wf(old(self).storage_engine@) ==> engine_wf(final(self).storage_engine@),
            snapshot@ == spec_serialize(final(self).storage_engine@),
            final(self).path() == old(self).path(),
    {
        self.storage_engine.create_table(name, columns);
        let mut snapshot: Vec<u8> = Vec::new();
        self.storage_engine.serialize(&mut snapshot);
        snapshot
    }

    /// Inserts the row in the store and returns the fresh snapshot for the
    /// caller to write out.
    pub fn insert_row(&mut self, table_name: &str, row: Row) -> (snapshot: Vec<u8>)
        ensures
            final(self).storage_engine@ == spec_insert_row(
                old(self).storage_engine@,
                table_name@,
                row@,
            ),
            engine_wf(old(self).storage_engine@) && row_wf(row@) ==> engine_wf(
                final(self).storage_engine@,
            ),
            snapshot@ == spec_serialize(final(self).storage_engine@),
            final(self).path() == old(self).path(),
    {
        self.storage_engine.insert_row(table_name, row);
        let mut snapshot: Vec<u8> = Vec::new();
        self.storage_engine.serialize(&mut snapshot);
        snapshot
    }
}

/// Creating a table binds its name to the fresh empty table, whatever the
/// store held before.
pub proof fn lemma_create_table_get(e: EngineModel, name: Seq<char>, columns: Seq<Seq<char>>)
    ensures
        assoc_get(spec_create_table(e, name, columns), name) == Some(empty_table(columns)),
{
    lemma_assoc_idx(e, name);
    let i = assoc_idx(e, name);
    let e2 = spec_create_table(e, name, columns);
    if i >= 0 {
        assert(forall|j: int| 0 <= j < i ==> e2[j] == e[j]);
        lemma_assoc_idx_of(e2, name, i);
    } else {
        assert(forall|j: int| 0 <= j < e.len() ==> e2[j] == e[j]);
        lemma_assoc_idx_of(e2, name, e.len() as int);
    }
}

/// Inserting into a present table appends the row under the counter's id and
/// advances the counter; into an absent table it changes nothing.
pub proof fn lemma_insert_row_get(e: EngineModel, name: Seq<char>, row: RowModel)
    ensures
        ({
            match assoc_get(e, name) {
                Some(t) => assoc_get(spec_insert_row(e, name, row), name) == Some(
                    TableModel {
                        columns: t.columns,
                        rows: t.rows.push((t.next_row_id, row)),
                        next_row_id: ((t.rows.len() + 1) as u64),
                    },
                ),
                None => spec_insert_row(e, name, row) == e,
            }
        }),
{
    lemma_assoc_idx(e, name);
    let i = assoc_idx(e, name);
    if i >= 0 {
        let e2 = spec_insert_row(e, name, row);
        assert(forall|j: int| 0 <= j < i ==> e2[j] == e[j]);
        assert(e2[i].0 == name);
        lemma_assoc_idx_of(e2, name, i);
    }
}

/// Persistence durability: a restart from the snapshot of a well-formed
/// store reconstructs exactly that store.
pub proof fn lemma_snapshot_restores(e: EngineModel)
    requires
        engine_wf(e),
        engine_bounded(e),
    ensures
        spec_load(Some(spec_serialize(e))) == e,
{
    lemma_deserialize_serialize(e);
}

} // verus!
