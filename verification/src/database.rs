//! The storage layer: ordered key -> record tables and the name -> table
//! registry.

use vstd::prelude::*;
use crate::domain::{
    DataType, DatabaseKey, KeyModel, Record, ValueView, key_model_lt, lemma_key_model_lt_irrefl,
    lemma_key_model_lt_trans, lemma_key_model_lt_trichotomy, rec_get, record_wf, schema_view,
    validate_ok,
};
use crate::commands::{
    Command, CreateTableCommand, DeleteCommand, InsertCommand, SelectCommand,
};
use crate::error::{DbError, DbResult};
use crate::queries::{Query, QueryView, query_view_wf};
use crate::text::{append_str_chars, str_eq, string_from_chars};

verus! {

/// The content of one stored row: key model and record content.
pub type RowView = (KeyModel, Seq<(Seq<char>, ValueView)>);

pub open spec fn sorted_rows(s: Seq<RowView>) -> bool {
    forall|i: int, j: int| 0 <= i < j < s.len() ==> key_model_lt(#[trigger] s[i].0, #[trigger] s[j].0)
}

pub open spec fn contains_key_model(s: Seq<RowView>, m: KeyModel) -> bool {
    exists|i: int| 0 <= i < s.len() && (#[trigger] s[i].0) == m
}

/// Where a new key goes in a sorted row sequence: the number of keys
/// strictly below it.
pub open spec fn row_insert_pos(s: Seq<RowView>, m: KeyModel) -> int
    decreases s.len(),
{
    if s.len() == 0 {
        0
    } else if key_model_lt(s[0].0, m) {
        1 + row_insert_pos(s.subrange(1, s.len() as int), m)
    } else {
        0
    }
}

/// A table: a name, a schema, the primary-key column's name, and the rows,
/// kept in ascending primary-key order.
pub struct Table<K: DatabaseKey> {
    pub name: String,
    pk_name: String,
    schema: Vec<(String, DataType)>,
    store: Vec<(K, Record)>,
}

impl<K: DatabaseKey> Table<K> {
    /// The table's name.
    pub closed spec fn spec_name(&self) -> Seq<char> {
        self.name@
    }

    /// The primary-key column's name.
    pub closed spec fn spec_pk(&self) -> Seq<char> {
        self.pk_name@
    }

    /// The declared columns, in declaration order.
    pub closed spec fn spec_schema(&self) -> Seq<(Seq<char>, DataType)> {
        schema_view(self.schema@)
    }

    /// The stored rows, in store order.
    pub closed spec fn spec_store(&self) -> Seq<RowView> {
        self.store@.map_values(|p: (K, Record)| (p.0.model(), p.1@))
    }

    /// Rows are strictly ascending by key, every record is well formed, and
    /// every record's primary-key field reads back as the key it is stored
    /// under.
    pub closed spec fn wf(&self) -> bool {
        &&& sorted_rows(self.spec_store())
        &&& forall|i: int|
            0 <= i < self.spec_store().len() ==> record_wf(#[trigger] self.spec_store()[i].1)
        &&& forall|i: int|
            0 <= i < self.spec_store().len() ==> {
                let row = #[trigger] self.spec_store()[i];
                match rec_get(row.1, self.spec_pk()) {
                    Option::Some(v) => K::spec_from_value(v) == Some(row.0),
                    Option::None => false,
                }
            }
    }

    /// What well-formedness gives of each stored row.
    pub proof fn lemma_wf_parts(&self)
        requires
            self.wf(),
        ensures
            sorted_rows(self.spec_store()),
            forall|i: int|
                0 <= i < self.spec_store().len() ==> record_wf(#[trigger] self.spec_store()[i].1),
            forall|i: int|
                0 <= i < self.spec_store().len() ==> rec_get(
                    (#[trigger] self.spec_store()[i]).1,
                    self.spec_pk(),
                ) is Some,
    {
    }

    /// A fresh, empty table.
    pub fn new(name: String, schema: Vec<(String, DataType)>, pk_name: String) -> (r: Table<K>)
        ensures
            r.spec_name() == name@,
            r.spec_pk() == pk_name@,
            r.spec_schema() == schema_view(schema@),
            r.spec_store() == Seq::<RowView>::empty(),
            r.wf(),
    {
        let r = Table { name, schema, pk_name, store: Vec::new() };
        proof {
            assert(r.spec_store() =~= Seq::<RowView>::empty());
        }
        r
    }

    /// Validates the record, narrows its primary-key value to this table's
    /// key type, and stores it under that key, in key order.
    ///
    /// Exactly one of these holds:
    /// - the record fails validation: its error comes back, nothing changes;
    /// - the primary-key column is absent: `ColumnNotFound`, nothing changes;
    /// - its value has the wrong variant for the key: `KeyMismatch`;
    /// - the key is already stored: `DuplicateKey`, nothing changes;
    /// - otherwise the row is inserted at its ordered position.
    pub fn insert(&mut self, record: Record) -> (r: DbResult<()>)
        requires
            old(self).wf(),
            record.wf(),
        ensures
            final(self).wf(),
            final(self).spec_name() == old(self).spec_name(),
            final(self).spec_pk() == old(self).spec_pk(),
            final(self).spec_schema() == old(self).spec_schema(),
            ({
                let valid = validate_ok(record@, old(self).spec_schema());
                let pk = rec_get(record@, old(self).spec_pk());
                let key = match pk {
                    Option::Some(v) => K::spec_from_value(v),
                    Option::None => None,
                };
                let dup = match key {
                    Option::Some(m) => contains_key_model(old(self).spec_store(), m),
                    Option::None => false,
                };
                match r {
                    Result::Ok(u) => valid && pk is Some && key is Some && !dup
                        && final(self).spec_store() == old(self).spec_store().insert(
                        row_insert_pos(old(self).spec_store(), key.unwrap()),
                        (key.unwrap(), record@),
                    ),
                    Result::Err(e) => final(self).spec_store() == old(self).spec_store() && (match e {
                        DbError::DuplicateKey => valid && pk is Some && key is Some && dup,
                        DbError::KeyMismatch => valid && pk is Some && key is None,
                        DbError::ColumnNotFound(_) => !valid || pk is None,
                        DbError::TypeMismatch(_) => !valid,
                        _ => false,
                    }),
                }
            }),
    {
        if let Err(e) = record.validate(&self.schema) {
            return Err(e);
        }
        let pk_value = match record.get(&self.pk_name) {
            Some(v) => v,
            None => {
                let mut msg: Vec<char> = Vec::new();
                append_str_chars(&mut msg, "Primary key ");
                append_str_chars(&mut msg, self.pk_name.as_str());
                append_str_chars(&mut msg, " not found");
                return Err(DbError::ColumnNotFound(string_from_chars(&msg)));
            },
        };
        let key = match K::from_value(pk_value) {
            Some(k) => k,
            None => {
                return Err(DbError::KeyMismatch);
            },
        };
        let n = self.store.len();
        let mut i: usize = 0;
        while i < n && self.store[i].0.key_less(&key)
            invariant
                i <= n,
                n == self.store@.len(),
                forall|j: int|
                    0 <= j < i ==> key_model_lt(#[trigger] self.spec_store()[j].0, key.model()),
            decreases n - i,
    {
            i = i + 1;
        }
        if i < n && self.store[i].0.key_equal(&key) {
            proof {
                assert(self.spec_store()[i as int].0 == key.model());
            }
            return Err(DbError::DuplicateKey);
        }
        proof {
            let s = self.spec_store();
            let m = key.model();
            // The scan stopped at the ordered position for the new key.
            if i < n {
                lemma_key_model_lt_trichotomy(s[i as int].0, m);
                assert(key_model_lt(m, s[i as int].0));
            }
            assert forall|j: int| i <= j < n implies key_model_lt(m, #[trigger] s[j].0) by {
                if j > i {
                    lemma_key_model_lt_trans(m, s[i as int].0, s[j].0);
                }
            }
            assert forall|j: int| 0 <= j < n implies (#[trigger] s[j].0) != m by {
                lemma_key_model_lt_irrefl(m);
            }
            assert(!contains_key_model(s, m));
            lemma_row_insert_pos_sorted(s, m, i as int);
        }
        let ghost pre = self.spec_store();
        let ghost m = key.model();
        let ghost rv = record@;
        self.store.insert(i, (key, record));
        proof {
            assert(self.spec_store() =~= pre.insert(i as int, (m, rv)));
            lemma_sorted_after_insert(pre, m, rv, i as int);
            assert forall|j: int| 0 <= j < self.spec_store().len() implies (
            #[trigger] self.spec_store()[j]) == (if j < i as int {
                pre[j]
            } else if j == i as int {
                (m, rv)
            } else {
                pre[j - 1]
            }) by {}
        }
        Ok(())
    }

    /// Removes and returns the record stored under `key`, if any.
    pub fn delete(&mut self, key: &K) -> (r: Option<Record>)
        requires
            old(self).wf(),
        ensures
            final(self).wf(),
            final(self).spec_name() == old(self).spec_name(),
            final(self).spec_pk() == old(self).spec_pk(),
            final(self).spec_schema() == old(self).spec_schema(),
            (r is Some) == contains_key_model(old(self).spec_store(), key.model()),
            match r {
                Option::Some(rec) => exists|i: int|
                    0 <= i < old(self).spec_store().len()
                        && (#[trigger] old(self).spec_store()[i].0) == key.model()
                        && rec@ == old(self).spec_store()[i].1
                        && final(self).spec_store() == old(self).spec_store().remove(i),
                Option::None => final(self).spec_store() == old(self).spec_store(),
            },
    {
        let n = self.store.len();
        let mut i: usize = 0;
        while i < n
            invariant
                i <= n,
                n == self.store@.len(),
                self == old(self),
                old(self).wf(),
                forall|j: int| 0 <= j < i ==> (#[trigger] self.spec_store()[j].0) != key.model(),
            decreases n - i,
        {
            if self.store[i].0.key_equal(key) {
                proof {
                    assert(self.spec_store()[i as int].0 == key.model());
                }
                let ghost pre = self.spec_store();
                let (_, rec) = self.store.remove(i);
                proof {
                    assert(self.spec_store() =~= pre.remove(i as int));
                    assert forall|j: int| 0 <= j < self.spec_store().len() implies (
                    #[trigger] self.spec_store()[j]) == (if j < i as int {
                        pre[j]
                    } else {
                        pre[j + 1]
                    }) by {}
                    assert forall|p: int, q: int|
                        0 <= p < q < self.spec_store().len() implies key_model_lt(
                        #[trigger] self.spec_store()[p].0,
                        #[trigger] self.spec_store()[q].0,
                    ) by {
                        if q < i {
                        } else if p < i {
                            assert(self.spec_store()[q] == pre[q + 1]);
                        } else {
                            assert(self.spec_store()[p] == pre[p + 1]);
                            assert(self.spec_store()[q] == pre[q + 1]);
                        }
                    }
                }
                return Some(rec);
            }
            i = i + 1;
        }
        None
    }

    /// The record stored under `key`, if any.
    pub fn get(&self, key: &K) -> (r: Option<&Record>)
        requires
            self.wf(),
        ensures
            (r is Some) == contains_key_model(self.spec_store(), key.model()),
            match r {
                Option::Some(rec) => exists|i: int|
                    0 <= i < self.spec_store().len() && (#[trigger] self.spec_store()[i].0)
                        == key.model() && rec@ == self.spec_store()[i].1,
                Option::None => true,
            },
    {
        let n = self.store.len();
        let mut i: usize = 0;
        while i < n
            invariant
                i <= n,
                n == self.store@.len(),
                forall|j: int| 0 <= j < i ==> (#[trigger] self.spec_store()[j].0) != key.model(),
            decreases n - i,
        {
            if self.store[i].0.key_equal(key) {
                proof {
                    assert(self.spec_store()[i as int].0 == key.model());
                }
                return Some(&self.store[i].1);
            }
            i = i + 1;
        }
        None
    }

    /// All stored records, in ascending primary-key order.  Each call makes
    /// a fresh traversal and copies the rows out.
    pub fn scan(&self) -> (r: Vec<Record>)
        requires
            self.wf(),
        ensures
            r@.len() == self.spec_store().len(),
            forall|i: int| 0 <= i < r@.len() ==> (#[trigger] r@[i])@ == self.spec_store()[i].1,
            sorted_rows(self.spec_store()),
    {
        let n = self.store.len();
        let mut out: Vec<Record> = Vec::new();
        let mut i: usize = 0;
        while i < n
            invariant
                i <= n,
                n == self.store@.len(),
                out@.len() == i,
                forall|j: int| 0 <= j < i ==> (#[trigger] out@[j])@ == self.spec_store()[j].1,
            decreases n - i,
        {
            let rec = self.store[i].1.dup();
            out.push(rec);
            i = i + 1;
        }
        out
    }

    /// How many rows the table holds.
    pub fn row_count(&self) -> (r: usize)
        ensures
            r == self.spec_store().len(),
    {
        self.store.len()
    }
}

/// The scan position found by a linear search is the ordered insert
/// position.
proof fn lemma_row_insert_pos_sorted(s: Seq<RowView>, m: KeyModel, i: int)
    requires
        sorted_rows(s),
        0 <= i <= s.len(),
        forall|j: int| 0 <= j < i ==> key_model_lt(#[trigger] s[j].0, m),
        forall|j: int| i <= j < s.len() ==> key_model_lt(m, #[trigger] s[j].0),
    ensures
        row_insert_pos(s, m) == i,
    decreases s.len(),
{
    if s.len() > 0 {
        let t = s.subrange(1, s.len() as int);
        assert(forall|p: int, q: int|
            0 <= p < q < t.len() ==> key_model_lt(#[trigger] t[p].0, #[trigger] t[q].0));
        if i > 0 {
            assert(key_model_lt(s[0].0, m));
            assert(forall|j: int| 0 <= j < i - 1 ==> key_model_lt(#[trigger] t[j].0, m));
            assert(forall|j: int| i - 1 <= j < t.len() ==> key_model_lt(m, #[trigger] t[j].0));
            lemma_row_insert_pos_sorted(t, m, i - 1);
        } else {
            assert(key_model_lt(m, s[0].0));
            assert(!key_model_lt(s[0].0, m)) by {
                if key_model_lt(s[0].0, m) {
                    lemma_key_model_lt_trans(m, s[0].0, m);
                    lemma_key_model_lt_irrefl(m);
                }
            }
        }
    }
}

/// Inserting a row at its ordered position keeps the rows sorted.
proof fn lemma_sorted_after_insert(
    s: Seq<RowView>,
    m: KeyModel,
    rec: Seq<(Seq<char>, ValueView)>,
    i: int,
)
    requires
        sorted_rows(s),
        0 <= i <= s.len(),
        forall|j: int| 0 <= j < i ==> key_model_lt(#[trigger] s[j].0, m),
        forall|j: int| i <= j < s.len() ==> key_model_lt(m, #[trigger] s[j].0),
    ensures
        sorted_rows(s.insert(i, (m, rec))),
{
    let t = s.insert(i, (m, rec));
    assert forall|p: int, q: int| 0 <= p < q < t.len() implies key_model_lt(
        #[trigger] t[p].0,
        #[trigger] t[q].0,
    ) by {
        if p < i && q < i {
            assert(t[p] == s[p] && t[q] == s[q]);
        } else if p < i && q == i {
            assert(t[p] == s[p]);
        } else if p < i && q > i {
            assert(t[p] == s[p] && t[q] == s[q - 1]);
        } else if p == i {
            if q > i {
                assert(t[q] == s[q - 1]);
            }
        } else {
            assert(t[p] == s[p - 1] && t[q] == s[q - 1]);
        }
    }
}

/// First-match lookup of a table by name.
pub open spec fn spec_find<K: DatabaseKey>(s: Seq<Table<K>>, name: Seq<char>) -> Option<int>
    decreases s.len(),
{
    if s.len() == 0 {
        None
    } else if s[0].spec_name() == name {
        Some(0)
    } else {
        match spec_find(s.subrange(1, s.len() as int), name) {
            Option::Some(i) => Some(i + 1),
            Option::None => None,
        }
    }
}

/// The registry of tables, one per name.
pub struct Database<K: DatabaseKey> {
    tables: Vec<Table<K>>,
}

impl<K: DatabaseKey> Database<K> {
    /// The registered tables, in creation order.
    pub closed spec fn spec_tables(&self) -> Seq<Table<K>> {
        self.tables@
    }

    /// Every table is well formed and no two share a name.
    pub closed spec fn wf(&self) -> bool {
        &&& forall|i: int| 0 <= i < self.tables@.len() ==> (#[trigger] self.tables@[i]).wf()
        &&& forall|i: int, j: int|
            0 <= i < j < self.tables@.len() ==> (#[trigger] self.tables@[i]).name@ != (
            #[trigger] self.tables@[j]).name@
    }

    /// An empty registry.
    pub fn new() -> (r: Database<K>)
        ensures
            r.wf(),
            r.spec_tables() == Seq::<Table<K>>::empty(),
    {
        let r = Database { tables: Vec::new() };
        proof {
            assert(r.spec_tables() =~= Seq::<Table<K>>::empty());
        }
        r
    }

    /// Registers a table.  The only failure mode is a name collision.
    pub fn create_table(&mut self, table: Table<K>) -> (r: DbResult<()>)
        requires
            old(self).wf(),
            table.wf(),
        ensures
            final(self).wf(),
            (r is Ok) == (spec_find(old(self).spec_tables(), table.spec_name()) is None),
            match r {
                Result::Ok(u) => final(self).spec_tables() == old(self).spec_tables().push(table),
                Result::Err(e) => e is TableAlreadyExists
                    && final(self).spec_tables() == old(self).spec_tables(),
            },
    {
        let n = self.tables.len();
        let mut i: usize = 0;
        while i < n
            invariant
                i <= n,
                n == self.tables@.len(),
                self == old(self),
                old(self).wf(),
                forall|j: int| 0 <= j < i ==> (#[trigger] self.tables@[j]).name@ != table.name@,
            decreases n - i,
        {
            if self.tables[i].name == table.name {
                proof {
                    lemma_spec_find_found(self.spec_tables(), table.name@, i as int);
                }
                return Err(DbError::TableAlreadyExists("Table already exists".to_owned()));
            }
            i = i + 1;
        }
        proof {
            lemma_spec_find_none(self.spec_tables(), table.name@);
        }
        let ghost pre = self.spec_tables();
        let ghost t = table;
        self.tables.push(table);
        proof {
            assert(self.spec_tables() =~= pre.push(t));
            assert forall|j: int| 0 <= j < self.spec_tables().len() implies (
            #[trigger] self.spec_tables()[j]) == (if j < pre.len() {
                pre[j]
            } else {
                t
            }) by {}
        }
        Ok(())
    }

    /// The index of the table with this name, if any.
    pub fn find_table(&self, table: &str) -> (r: Option<usize>)
        ensures
            match r {
                Option::Some(i) => spec_find(self.spec_tables(), table@) == Some(i as int) && i
                    < self.spec_tables().len() && self.spec_tables()[i as int].spec_name()
                    == table@,
                Option::None => spec_find(self.spec_tables(), table@) is None,
            },
    {
        let n = self.tables.len();
        let mut i: usize = 0;
        while i < n
            invariant
                i <= n,
                n == self.tables@.len(),
                forall|j: int| 0 <= j < i ==> (#[trigger] self.tables@[j]).name@ != table@,
            decreases n - i,
        {
            if str_eq(self.tables[i].name.as_str(), table) {
                proof {
                    lemma_spec_find_found(self.spec_tables(), table@, i as int);
                }
                return Some(i);
            }
            i = i + 1;
        }
        proof {
            lemma_spec_find_none(self.spec_tables(), table@);
        }
        None
    }

    /// A shared borrow of the table at a known index.
    pub fn table_at(&self, i: usize) -> (r: &Table<K>)
        requires
            i < self.spec_tables().len(),
        ensures
            *r == self.spec_tables()[i as int],
    {
        &self.tables[i]
    }

    /// A mutable borrow of the table at a known index.  Re-establishing the
    /// registry's invariant is the caller's burden: it holds again as long
    /// as the table stays well formed and keeps its name.
    pub fn table_at_mut(&mut self, i: usize) -> (r: &mut Table<K>)
        requires
            i < old(self).spec_tables().len(),
        ensures
            *r == old(self).spec_tables()[i as int],
            final(self).spec_tables() == old(self).spec_tables().update(i as int, *final(r)),
    {
        &mut self.tables[i]
    }

    /// Every registered table of a well-formed registry is well formed.
    pub proof fn lemma_wf_table(&self, i: int)
        requires
            self.wf(),
            0 <= i < self.spec_tables().len(),
        ensures
            self.spec_tables()[i].wf(),
    {
    }

    /// The invariant survives an in-place table update that keeps the
    /// table's name and well-formedness.
    pub proof fn lemma_update_keeps_wf(&self, other: &Self, i: int)
        requires
            self.wf(),
            0 <= i < self.spec_tables().len(),
            other.spec_tables() == self.spec_tables().update(i, other.spec_tables()[i]),
            other.spec_tables().len() == self.spec_tables().len(),
            other.spec_tables()[i].wf(),
            other.spec_tables()[i].spec_name() == self.spec_tables()[i].spec_name(),
        ensures
            other.wf(),
    {
        assert forall|p: int| 0 <= p < other.spec_tables().len() implies (#[trigger] other.spec_tables()[p]).wf() by {
            if p != i {
                assert(other.spec_tables()[p] == self.spec_tables()[p]);
            }
        }
        assert forall|p: int, q: int| 0 <= p < q < other.spec_tables().len() implies (
        #[trigger] other.spec_tables()[p]).name@ != (#[trigger] other.spec_tables()[q]).name@ by {
            if p != i {
                assert(other.spec_tables()[p] == self.spec_tables()[p]);
            }
            if q != i {
                assert(other.spec_tables()[q] == self.spec_tables()[q]);
            }
        }
    }

    /// A mutable borrow of the named table, or `TableNotFound`.  What the
    /// caller then does to the table is outside this contract; verified
    /// callers mutate through `find_table` and `table_at_mut` instead,
    /// which track the update.
    pub fn get_table_mut(&mut self, table: &str) -> (r: DbResult<&mut Table<K>>)
        ensures
            (r is Ok) == (spec_find(old(self).spec_tables(), table@) is Some),
    {
        match self.find_table(table) {
            Some(i) => Ok(&mut self.tables[i]),
            None => Err(DbError::TableNotFound(table.to_owned())),
        }
    }

    /// A shared borrow of the named table, or `TableNotFound`.
    pub fn get_table(&self, table: &str) -> (r: DbResult<&Table<K>>)
        ensures
            (r is Ok) == (spec_find(self.spec_tables(), table@) is Some),
            match r {
                Result::Ok(t) => exists|i: int|
                    0 <= i < self.spec_tables().len() && spec_find(self.spec_tables(), table@)
                        == Some(i) && *t == (#[trigger] self.spec_tables()[i]),
                Result::Err(e) => e is TableNotFound,
            },
    {
        match self.find_table(table) {
            Some(i) => Ok(&self.tables[i]),
            None => Err(DbError::TableNotFound(table.to_owned())),
        }
    }
}

/// What one statement does to a database: the corresponding command's
/// contract, plus the key narrowing for DELETE.  SAVE_AS and READ_FROM are
/// no operations here: the core only produces and consumes their queries.
pub open spec fn query_post<K: DatabaseKey>(
    query: Query,
    pre: Database<K>,
    post: Database<K>,
    r: DbResult<Option<String>>,
) -> bool {
    match query {
        Query::Select { table, fields, condition } => (SelectCommand {
            condition,
            table,
            fields,
        }).spec_post(pre, post, r),
        Query::Create { table, pk, columns } => (CreateTableCommand {
            name: table,
            pk_name: pk,
            schema: columns,
        }).spec_post(pre, post, r),
        Query::Insert { table, values } => (InsertCommand {
            table,
            record: Record { fields: values },
        }).spec_post(pre, post, r),
        Query::Delete { table, key_value } => match K::spec_from_value(key_value@) {
            Option::Some(m) => crate::commands::delete_post(table@, m, pre, post, r),
            Option::None => post.spec_tables() == pre.spec_tables() && (r matches Err(e)
                && e is KeyMismatch),
        },
        Query::SaveAs(_) => post.spec_tables() == pre.spec_tables() && (r matches Ok(m)
            && m is None),
        Query::ReadFrom(_) => post.spec_tables() == pre.spec_tables() && (r matches Ok(m)
            && m is None),
    }
}

/// Binds a parsed statement to its command and runs it against the
/// database.  A record or schema carries its columns as written; a column
/// name bound twice keeps its first binding.
fn run_generic_query<K: DatabaseKey>(database: &mut Database<K>, query: Query) -> (r: DbResult<
    Option<String>,
>)
    requires
        old(database).wf(),
        query_view_wf(query@),
    ensures
        final(database).wf(),
        query_post(query, *old(database), *final(database), r),
{
    match query {
        Query::Create { table, pk, columns } => {
            let cmd = CreateTableCommand { name: table, pk_name: pk, schema: columns };
            cmd.execute(database)
        },
        Query::Insert { table, values } => {
            let cmd = InsertCommand { table, record: Record { fields: values } };
            proof {
                let av = crate::queries::assigns_view(cmd.record.fields@);
                assert(query@ == QueryView::Insert { table: cmd.table@, values: av });
                assert(cmd.record@ =~= av);
            }
            cmd.execute(database)
        },
        Query::Select { table, fields, condition } => {
            let cmd = SelectCommand { condition, table, fields };
            cmd.execute(database)
        },
        Query::Delete { table, key_value } => {
            let key: K = match K::from_value(&key_value) {
                Some(k) => k,
                None => {
                    return Err(DbError::KeyMismatch);
                },
            };
            let cmd = DeleteCommand { table, key };
            cmd.execute(database)
        },
        Query::SaveAs(_) => Ok(None),
        Query::ReadFrom(_) => Ok(None),
    }
}

/// One store per supported primary-key type, behind one execution surface.
pub enum AnyDatabase {
    IntDatabase(Database<i64>),
    StringDatabase(Database<String>),
}

impl AnyDatabase {
    pub open spec fn wf(&self) -> bool {
        match self {
            AnyDatabase::IntDatabase(d) => d.wf(),
            AnyDatabase::StringDatabase(d) => d.wf(),
        }
    }

    /// Runs one statement against whichever key-typed store this is.
    pub fn execute(&mut self, query: Query) -> (r: DbResult<Option<String>>)
        requires
            old(self).wf(),
            query_view_wf(query@),
        ensures
            final(self).wf(),
            match (*old(self), *final(self)) {
                (AnyDatabase::IntDatabase(a), AnyDatabase::IntDatabase(b)) => query_post(
                    query,
                    a,
                    b,
                    r,
                ),
                (AnyDatabase::StringDatabase(a), AnyDatabase::StringDatabase(b)) => query_post(
                    query,
                    a,
                    b,
                    r,
                ),
                _ => false,
            },
    {
        match self {
            AnyDatabase::IntDatabase(database) => run_generic_query(database, query),
            AnyDatabase::StringDatabase(database) => run_generic_query(database, query),
        }
    }
}

proof fn lemma_spec_find_found<K: DatabaseKey>(s: Seq<Table<K>>, name: Seq<char>, i: int)
    requires
        0 <= i < s.len(),
        s[i].name@ == name,
        forall|j: int| 0 <= j < i ==> (#[trigger] s[j]).name@ != name,
    ensures
        spec_find(s, name) == Some(i),
    decreases i,
{
    if i > 0 {
        let t = s.subrange(1, s.len() as int);
        assert(forall|j: int| 0 <= j < i - 1 ==> (#[trigger] t[j]).name@ != name);
        lemma_spec_find_found(t, name, i - 1);
    }
}

proof fn lemma_spec_find_none<K: DatabaseKey>(s: Seq<Table<K>>, name: Seq<char>)
    requires
        forall|j: int| 0 <= j < s.len() ==> (#[trigger] s[j]).name@ != name,
    ensures
        spec_find(s, name) is None,
    decreases s.len(),
{
    if s.len() > 0 {
        lemma_spec_find_none(s.subrange(1, s.len() as int), name);
    }
}

} // verus!
