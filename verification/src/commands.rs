//! The command layer: one command per statement kind, each behind the one
//! `execute` contract that the dispatcher uses.

use vstd::prelude::*;
use crate::database::{
    Database, RowView, Table, contains_key_model, row_insert_pos, spec_find,
};
use crate::domain::{
    DataType, DatabaseKey, KeyModel, Record, Value, ValueView, lemma_rec_get_wf, rec_get,
    record_wf, schema_view, validate_ok, value_eq_spec, value_lt_spec, value_text, value_wf,
};
use crate::error::{DbError, DbResult};
use crate::text::{append_str_chars, append_vec_chars, string_from_chars};

verus! {

// ---------------------------------------------------------------------------
// Conditions
// ---------------------------------------------------------------------------

/// The comparison operators a WHERE clause can use.
#[derive(Debug, Clone, Copy, PartialEq, Eq, Structural)]
pub enum Operator {
    Equal,
    NotEqual,
    GreaterThan,
    GreaterThanOrEqual,
    LessThan,
    LessThanOrEqual,
}

/// A row filter: `column <op> value`.
#[derive(Debug, Clone)]
pub struct Condition {
    pub column: String,
    pub operator: Operator,
    pub value: Value,
}

/// The mathematical content of a `Condition`.
#[verifier::ext_equal]
pub struct ConditionView {
    pub column: Seq<char>,
    pub operator: Operator,
    pub value: ValueView,
}

impl View for Condition {
    type V = ConditionView;

    open spec fn view(&self) -> ConditionView {
        ConditionView { column: self.column@, operator: self.operator, value: self.value@ }
    }
}

/// What each operator means, over the value equality and order of the
/// domain: values of different variants are unequal and unordered.
pub open spec fn eval_op(op: Operator, a: ValueView, b: ValueView) -> bool {
    match op {
        Operator::Equal => value_eq_spec(a, b),
        Operator::NotEqual => !value_eq_spec(a, b),
        Operator::GreaterThan => value_lt_spec(b, a),
        Operator::GreaterThanOrEqual => value_lt_spec(b, a) || value_eq_spec(a, b),
        Operator::LessThan => value_lt_spec(a, b),
        Operator::LessThanOrEqual => value_lt_spec(a, b) || value_eq_spec(a, b),
    }
}

/// Applies `operator` to the two values.
fn evaluate_condition(value1: &Value, value2: &Value, operator: &Operator) -> (r: bool)
    requires
        value1.wf(),
        value2.wf(),
    ensures
        r == eval_op(*operator, value1@, value2@),
{
    match operator {
        Operator::Equal => crate::domain::value_eq(value1, value2),
        Operator::NotEqual => !crate::domain::value_eq(value1, value2),
        Operator::GreaterThan => crate::domain::value_lt(value2, value1),
        Operator::GreaterThanOrEqual => crate::domain::value_lt(value2, value1)
            || crate::domain::value_eq(value1, value2),
        Operator::LessThan => crate::domain::value_lt(value1, value2),
        Operator::LessThanOrEqual => crate::domain::value_lt(value1, value2)
            || crate::domain::value_eq(value1, value2),
    }
}

// ---------------------------------------------------------------------------
// The meaning of SELECT
// ---------------------------------------------------------------------------

/// The views of a list of column names.
pub open spec fn fields_view(s: Seq<String>) -> Seq<Seq<char>> {
    s.map_values(|x: String| x@)
}

/// The records of a row sequence, keys dropped.
pub open spec fn store_records(s: Seq<RowView>) -> Seq<Seq<(Seq<char>, ValueView)>> {
    s.map_values(|p: RowView| p.1)
}

/// The projected cells of one record, joined with `", "`; the first
/// requested column that the record lacks is the error.
pub open spec fn row_cells(
    rec: Seq<(Seq<char>, ValueView)>,
    fields: Seq<Seq<char>>,
) -> Result<Seq<char>, Seq<char>>
    decreases fields.len(),
{
    if fields.len() == 0 {
        Ok(Seq::<char>::empty())
    } else {
        match rec_get(rec, fields[0]) {
            Option::None => Err(fields[0]),
            Option::Some(v) => match row_cells(rec, fields.subrange(1, fields.len() as int)) {
                Result::Err(c) => Err(c),
                Result::Ok(rest) => if fields.len() == 1 {
                    Ok(value_text(v))
                } else {
                    Ok(value_text(v) + seq![',', ' '] + rest)
                },
            },
        }
    }
}

/// One record under SELECT: the condition is evaluated first (a missing
/// condition column is an error); a row that fails it is skipped; a
/// surviving row is projected.
pub open spec fn select_row(
    rec: Seq<(Seq<char>, ValueView)>,
    fields: Seq<Seq<char>>,
    cond: Option<ConditionView>,
) -> Result<Option<Seq<char>>, Seq<char>> {
    match cond {
        Option::Some(c) => match rec_get(rec, c.column) {
            Option::None => Err(c.column),
            Option::Some(v) => if !eval_op(c.operator, v, c.value) {
                Ok(None)
            } else {
                match row_cells(rec, fields) {
                    Result::Err(e) => Err(e),
                    Result::Ok(t) => Ok(Some(t)),
                }
            },
        },
        Option::None => match row_cells(rec, fields) {
            Result::Err(e) => Err(e),
            Result::Ok(t) => Ok(Some(t)),
        },
    }
}

/// All records under SELECT, in order; the first error aborts the whole
/// statement.
pub open spec fn select_rows(
    rows: Seq<Seq<(Seq<char>, ValueView)>>,
    fields: Seq<Seq<char>>,
    cond: Option<ConditionView>,
) -> Result<Seq<Seq<char>>, Seq<char>>
    decreases rows.len(),
{
    if rows.len() == 0 {
        Ok(Seq::<Seq<char>>::empty())
    } else {
        match select_row(rows[0], fields, cond) {
            Result::Err(e) => Err(e),
            Result::Ok(line) => match select_rows(
                rows.subrange(1, rows.len() as int),
                fields,
                cond,
            ) {
                Result::Err(e) => Err(e),
                Result::Ok(rest) => match line {
                    Option::Some(t) => Ok(rest.insert(0, t)),
                    Option::None => Ok(rest),
                },
            },
        }
    }
}

/// Lines joined with a newline; no trailing newline.
pub open spec fn join_lines(ts: Seq<Seq<char>>) -> Seq<char>
    decreases ts.len(),
{
    if ts.len() == 0 {
        Seq::<char>::empty()
    } else if ts.len() == 1 {
        ts[0]
    } else {
        ts[0] + seq!['\n'] + join_lines(ts.subrange(1, ts.len() as int))
    }
}

proof fn lemma_join_push(ts: Seq<Seq<char>>, t: Seq<char>)
    ensures
        ts.len() == 0 ==> join_lines(ts.push(t)) == t,
        ts.len() > 0 ==> join_lines(ts.push(t)) == join_lines(ts) + seq!['\n'] + t,
    decreases ts.len(),
{
    let p = ts.push(t);
    if ts.len() == 0 {
        assert(p.len() == 1);
        assert(p[0] == t);
    } else if ts.len() == 1 {
        assert(p.len() == 2);
        assert(p[0] == ts[0]);
        assert(p.subrange(1, 2) =~= seq![t]);
        assert(join_lines(seq![t]) == t);
    } else {
        lemma_join_push(ts.subrange(1, ts.len() as int), t);
        assert(p.subrange(1, p.len() as int) =~= ts.subrange(1, ts.len() as int).push(t));
        assert(join_lines(p) == p[0] + seq!['\n'] + join_lines(
            ts.subrange(1, ts.len() as int).push(t),
        ));
        assert(p[0] == ts[0]);
        assert(ts[0] + seq!['\n'] + (join_lines(ts.subrange(1, ts.len() as int)) + seq!['\n'] + t)
            =~= (ts[0] + seq!['\n'] + join_lines(ts.subrange(1, ts.len() as int))) + seq!['\n']
            + t);
    }
}

/// Composes already-produced lines with the outcome on the remaining rows.
pub open spec fn compose_lines(
    acc: Seq<Seq<char>>,
    r: Result<Seq<Seq<char>>, Seq<char>>,
) -> Result<Seq<Seq<char>>, Seq<char>> {
    match r {
        Result::Ok(ts) => Ok(acc + ts),
        Result::Err(e) => Err(e),
    }
}

// ---------------------------------------------------------------------------
// The uniform execution contract
// ---------------------------------------------------------------------------

/// One operation per statement kind.  `pre`/`post` are the database before
/// and after, and `spec_post` is what the command promises of them and of
/// its result.
pub trait Command<K: DatabaseKey>: Sized {
    /// The command's own well-formedness.
    spec fn wf_cmd(&self) -> bool;

    /// The command's effect: how the database after relates to the one
    /// before, and what result comes back.
    spec fn spec_post(
        &self,
        pre: Database<K>,
        post: Database<K>,
        r: DbResult<Option<String>>,
    ) -> bool;

    /// Carries the command out against the database.
    fn execute(&self, db: &mut Database<K>) -> (r: DbResult<Option<String>>)
        requires
            old(db).wf(),
            self.wf_cmd(),
        ensures
            final(db).wf(),
            self.spec_post(*old(db), *final(db), r),
    ;
}

// ---------------------------------------------------------------------------
// SELECT
// ---------------------------------------------------------------------------

/// Projects the requested columns of one record into `", "`-joined cells.
fn project_record(rec: &Record, fields: &Vec<String>) -> (r: Result<Vec<char>, String>)
    ensures
        match r {
            Result::Ok(cells) => row_cells(rec@, fields_view(fields@)) == Ok::<_, Seq<char>>(
                cells@,
            ),
            Result::Err(c) => row_cells(rec@, fields_view(fields@)) == Err::<Seq<char>, _>(c@),
        },
{
    let ghost fv = fields_view(fields@);
    let n = fields.len();
    let mut row: Vec<char> = Vec::new();
    let mut j: usize = 0;
    proof {
        assert(fv.subrange(0, n as int) =~= fv);
    }
    while j < n
        invariant
            j <= n,
            n == fields@.len(),
            fv == fields_view(fields@),
            j == 0 ==> row@.len() == 0,
            match row_cells(rec@, fv.subrange(j as int, n as int)) {
                Result::Err(e) => row_cells(rec@, fv) == Err::<Seq<char>, Seq<char>>(e),
                Result::Ok(rest) => if j == 0 {
                    row_cells(rec@, fv) == Ok::<Seq<char>, Seq<char>>(rest)
                } else if j == n {
                    row_cells(rec@, fv) == Ok::<Seq<char>, Seq<char>>(row@)
                } else {
                    row_cells(rec@, fv) == Ok::<Seq<char>, Seq<char>>(
                        row@ + seq![',', ' '] + rest,
                    )
                },
            },
        decreases n - j,
    {
        let ghost suf = fv.subrange(j as int, n as int);
        proof {
            assert(suf[0] == fv[j as int]);
            assert(fv[j as int] == fields@[j as int]@);
            assert(suf.subrange(1, suf.len() as int) =~= fv.subrange(j + 1 as int, n as int));
        }
        match rec.get(&fields[j]) {
            None => {
                return Err(fields[j].clone());
            },
            Some(v) => {
                let ghost row0 = row@;
                if j > 0 {
                    row.push(',');
                    row.push(' ');
                }
                crate::domain::append_value_text(&mut row, v);
                proof {
                    let vv = rec_get(rec@, fv[j as int]).unwrap();
                    if j == 0 {
                        assert(row@ =~= value_text(vv));
                    } else {
                        assert(row@ =~= row0 + seq![',', ' '] + value_text(vv));
                    }
                    let rest_r = row_cells(rec@, fv.subrange(j + 1 as int, n as int));
                    if rest_r is Ok {
                        let rest = rest_r->Ok_0;
                        if j + 1 < n {
                            if j == 0 {
                                assert(value_text(vv) + seq![',', ' '] + rest =~= row@ + seq![
                                    ',',
                                    ' ',
                                ] + rest);
                            } else {
                                assert(row0 + seq![',', ' '] + (value_text(vv) + seq![',', ' ']
                                    + rest) =~= row@ + seq![',', ' '] + rest);
                            }
                        } else {
                            if j > 0 {
                                assert(row0 + seq![',', ' '] + value_text(vv) =~= row@);
                            }
                        }
                    }
                }
            },
        }
        j = j + 1;
    }
    proof {
        assert(fv.subrange(n as int, n as int).len() == 0);
        if n == 0 {
            assert(row@ =~= Seq::<char>::empty());
        }
    }
    Ok(row)
}

/// Filters the table's rows by the optional condition and projects the
/// requested columns, in ascending primary-key order.
pub struct SelectCommand {
    pub condition: Option<Condition>,
    pub table: String,
    pub fields: Vec<String>,
}

/// The view of an optional condition.
pub open spec fn cond_view(c: Option<Condition>) -> Option<ConditionView> {
    match c {
        Option::Some(cv) => Some(cv@),
        Option::None => None,
    }
}

impl<K: DatabaseKey> Command<K> for SelectCommand {
    open spec fn wf_cmd(&self) -> bool {
        match self.condition {
            Option::Some(c) => value_wf(c.value@),
            Option::None => true,
        }
    }

    open spec fn spec_post(
        &self,
        pre: Database<K>,
        post: Database<K>,
        r: DbResult<Option<String>>,
    ) -> bool {
        &&& post.spec_tables() == pre.spec_tables()
        &&& match spec_find(pre.spec_tables(), self.table@) {
            Option::None => r matches Err(e) && e is TableNotFound,
            Option::Some(ti) => {
                let rows = store_records(pre.spec_tables()[ti].spec_store());
                match select_rows(rows, fields_view(self.fields@), cond_view(self.condition)) {
                    Result::Ok(ts) => (r matches Ok(m) && m matches Some(s) && s@ == join_lines(
                        ts,
                    )),
                    Result::Err(c) => (r matches Err(e) && e matches DbError::ColumnNotFound(cs)
                        && cs@ == c),
                }
            },
        }
    }

    fn execute(&self, db: &mut Database<K>) -> (r: DbResult<Option<String>>) {
        let ti = match db.find_table(self.table.as_str()) {
            Some(i) => i,
            None => {
                return Err(DbError::TableNotFound(self.table.clone()));
            },
        };
        proof {
            db.lemma_wf_table(ti as int);
        }
        let t = db.table_at(ti);
        let rows = t.scan();
        let ghost rv = store_records(t.spec_store());
        let ghost fv = fields_view(self.fields@);
        let ghost cv = cond_view(self.condition);
        proof {
            t.lemma_wf_parts();
            assert(rows@.len() == rv.len());
            assert(forall|i: int| 0 <= i < rv.len() ==> (#[trigger] rows@[i])@ == rv[i]);
            assert forall|k: int| 0 <= k < rv.len() implies record_wf(rv[k]) by {
                assert(rv[k] == t.spec_store()[k].1);
            }
        }
        let n = rows.len();
        let mut out: Vec<char> = Vec::new();
        let ghost mut acc: Seq<Seq<char>> = Seq::<Seq<char>>::empty();
        let mut first: bool = true;
        let mut i: usize = 0;
        proof {
            assert(rv.subrange(0, rv.len() as int) =~= rv);
            if select_rows(rv, fv, cv) is Ok {
                let ts0 = select_rows(rv, fv, cv)->Ok_0;
                assert(acc + ts0 =~= ts0);
            }
        }
        while i < n
            invariant
                i <= n,
                n == rows@.len(),
                n == rv.len(),
                db == old(db),
                old(db).wf(),
                spec_find(old(db).spec_tables(), self.table@) == Some(ti as int),
                ti < old(db).spec_tables().len(),
                rv == store_records(old(db).spec_tables()[ti as int].spec_store()),
                forall|k: int| 0 <= k < rv.len() ==> (#[trigger] rows@[k])@ == rv[k],
                forall|k: int| 0 <= k < rv.len() ==> record_wf(rv[k]),
                match self.condition {
                    Option::Some(c) => value_wf(c.value@),
                    Option::None => true,
                },
                fv == fields_view(self.fields@),
                cv == cond_view(self.condition),
                first == (acc.len() == 0),
                out@ == join_lines(acc),
                select_rows(rv, fv, cv) == compose_lines(
                    acc,
                    select_rows(rv.subrange(i as int, n as int), fv, cv),
                ),
            decreases n - i,
        {
            let rec = &rows[i];
            let ghost suf = rv.subrange(i as int, n as int);
            proof {
                assert(suf[0] == rv[i as int]);
                assert(suf.subrange(1, suf.len() as int) =~= rv.subrange(i + 1 as int, n as int));
            }
            let mut keep: bool = true;
            if let Some(cond) = &self.condition {
                match rec.get(&cond.column) {
                    None => {
                        proof {
                            assert(select_row(rv[i as int], fv, cv) == Err::<
                                Option<Seq<char>>,
                                Seq<char>,
                            >(cond.column@));
                        }
                        return Err(DbError::ColumnNotFound(cond.column.clone()));
                    },
                    Some(value) => {
                        proof {
                            lemma_rec_get_wf(rv[i as int], cond.column@);
                        }
                        keep = evaluate_condition(value, &cond.value, &cond.operator);
                    },
                }
            }
            if keep {
                match project_record(rec, &self.fields) {
                    Err(c) => {
                        proof {
                            assert(select_row(rv[i as int], fv, cv) == Err::<
                                Option<Seq<char>>,
                                Seq<char>,
                            >(c@));
                        }
                        return Err(DbError::ColumnNotFound(c));
                    },
                    Ok(cells) => {
                        proof {
                            assert(select_row(rv[i as int], fv, cv) == Ok::<
                                Option<Seq<char>>,
                                Seq<char>,
                            >(Some(cells@)));
                        }
                        if !first {
                            out.push('\n');
                        }
                        let ghost before = out@;
                        append_vec_chars(&mut out, &cells);
                        proof {
                            lemma_join_push(acc, cells@);
                            if acc.len() == 0 {
                                assert(out@ =~= cells@);
                            } else {
                                assert(out@ =~= join_lines(acc) + seq!['\n'] + cells@);
                            }
                            let old_acc = acc;
                            acc = acc.push(cells@);
                            assert(out@ == join_lines(acc));
                            // The produced line moves from the remaining rows
                            // to the accumulator.
                            let rest = select_rows(
                                rv.subrange(i + 1 as int, n as int),
                                fv,
                                cv,
                            );
                            if rest is Ok {
                                let ts = rest->Ok_0;
                                assert(select_rows(suf, fv, cv) == Ok::<_, Seq<char>>(
                                    ts.insert(0, cells@),
                                ));
                                assert(old_acc + ts.insert(0, cells@) =~= acc + ts);
                            }
                        }
                    },
                }
            } else {
                proof {
                    assert(select_row(rv[i as int], fv, cv) == Ok::<Option<Seq<char>>, Seq<char>>(
                        None,
                    ));
                }
            }
            if keep {
                first = false;
            }
            i = i + 1;
        }
        proof {
            assert(rv.subrange(n as int, n as int).len() == 0);
            assert(select_rows(rv.subrange(n as int, n as int), fv, cv) == Ok::<
                Seq<Seq<char>>,
                Seq<char>,
            >(Seq::<Seq<char>>::empty()));
            if select_rows(rv, fv, cv) is Ok {
                assert(acc + Seq::<Seq<char>>::empty() =~= acc);
            }
        }
        Ok(Some(string_from_chars(&out)))
    }
}

// ---------------------------------------------------------------------------
// CREATE
// ---------------------------------------------------------------------------

/// Builds a fresh table and registers it.
pub struct CreateTableCommand {
    pub name: String,
    pub pk_name: String,
    pub schema: Vec<(String, DataType)>,
}

impl<K: DatabaseKey> Command<K> for CreateTableCommand {
    open spec fn wf_cmd(&self) -> bool {
        true
    }

    open spec fn spec_post(
        &self,
        pre: Database<K>,
        post: Database<K>,
        r: DbResult<Option<String>>,
    ) -> bool {
        if spec_find(pre.spec_tables(), self.name@) is None {
            &&& post.spec_tables().len() == pre.spec_tables().len() + 1
            &&& post.spec_tables().subrange(0, pre.spec_tables().len() as int)
                == pre.spec_tables()
            &&& post.spec_tables().last().spec_name() == self.name@
            &&& post.spec_tables().last().spec_pk() == self.pk_name@
            &&& post.spec_tables().last().spec_schema() == schema_view(self.schema@)
            &&& post.spec_tables().last().spec_store() == Seq::<RowView>::empty()
            &&& (r matches Ok(m) && m matches Some(s) && s@ == "Table "@ + self.name@
                + " created."@)
        } else {
            &&& post.spec_tables() == pre.spec_tables()
            &&& (r matches Err(e) && e is TableAlreadyExists)
        }
    }

    fn execute(&self, db: &mut Database<K>) -> (r: DbResult<Option<String>>) {
        let mut schema: Vec<(String, DataType)> = Vec::new();
        let n = self.schema.len();
        let mut i: usize = 0;
        while i < n
            invariant
                i <= n,
                n == self.schema@.len(),
                schema@.len() == i,
                forall|j: int|
                    0 <= j < i ==> (#[trigger] schema@[j]).0@ == self.schema@[j].0@ && schema@[j].1
                        == self.schema@[j].1,
            decreases n - i,
        {
            let name = self.schema[i].0.clone();
            let ty = self.schema[i].1;
            schema.push((name, ty));
            i = i + 1;
        }
        proof {
            assert(schema_view(schema@) =~= schema_view(self.schema@));
        }
        let table: Table<K> = Table::new(self.name.clone(), schema, self.pk_name.clone());
        let ghost pre = db.spec_tables();
        match db.create_table(table) {
            Ok(_) => {
                proof {
                    assert(db.spec_tables().subrange(0, pre.len() as int) =~= pre);
                }
                let mut msg: Vec<char> = Vec::new();
                append_str_chars(&mut msg, "Table ");
                append_str_chars(&mut msg, self.name.as_str());
                append_str_chars(&mut msg, " created.");
                Ok(Some(string_from_chars(&msg)))
            },
            Err(e) => Err(e),
        }
    }
}

// ---------------------------------------------------------------------------
// INSERT
// ---------------------------------------------------------------------------

/// Validates a record against the named table and stores it.
pub struct InsertCommand {
    pub table: String,
    pub record: Record,
}

impl<K: DatabaseKey> Command<K> for InsertCommand {
    open spec fn wf_cmd(&self) -> bool {
        self.record.wf()
    }

    open spec fn spec_post(
        &self,
        pre: Database<K>,
        post: Database<K>,
        r: DbResult<Option<String>>,
    ) -> bool {
        match spec_find(pre.spec_tables(), self.table@) {
            Option::None => post.spec_tables() == pre.spec_tables() && (r matches Err(e)
                && e is TableNotFound),
            Option::Some(ti) => {
                let t = pre.spec_tables()[ti];
                let valid = validate_ok(self.record@, t.spec_schema());
                let pk = rec_get(self.record@, t.spec_pk());
                let key = match pk {
                    Option::Some(v) => K::spec_from_value(v),
                    Option::None => None,
                };
                let dup = match key {
                    Option::Some(m) => contains_key_model(t.spec_store(), m),
                    Option::None => false,
                };
                &&& post.spec_tables().len() == pre.spec_tables().len()
                &&& forall|j: int|
                    0 <= j < pre.spec_tables().len() && j != ti ==> post.spec_tables()[j] == pre.spec_tables()[j]
                &&& post.spec_tables()[ti].spec_name() == t.spec_name()
                &&& post.spec_tables()[ti].spec_pk() == t.spec_pk()
                &&& post.spec_tables()[ti].spec_schema() == t.spec_schema()
                &&& match r {
                    Result::Ok(m) => valid && pk is Some && key is Some && !dup
                        && post.spec_tables()[ti].spec_store() == t.spec_store().insert(
                        row_insert_pos(t.spec_store(), key.unwrap()),
                        (key.unwrap(), self.record@),
                    ) && (m matches Some(s) && s@ == "Record inserted"@),
                    Result::Err(e) => post.spec_tables()[ti].spec_store() == t.spec_store() && (
                    match e {
                        DbError::DuplicateKey => valid && pk is Some && key is Some && dup,
                        DbError::KeyMismatch => valid && pk is Some && key is None,
                        DbError::ColumnNotFound(_) => !valid || pk is None,
                        DbError::TypeMismatch(_) => !valid,
                        _ => false,
                    }),
                }
            },
        }
    }

    fn execute(&self, db: &mut Database<K>) -> (r: DbResult<Option<String>>) {
        let ti = match db.find_table(self.table.as_str()) {
            Some(i) => i,
            None => {
                return Err(DbError::TableNotFound(self.table.clone()));
            },
        };
        let rec = self.record.dup();
        proof {
            db.lemma_wf_table(ti as int);
        }
        let t = db.table_at_mut(ti);
        let res = t.insert(rec);
        proof {
            old(db).lemma_update_keeps_wf(db, ti as int);
        }
        match res {
            Ok(_) => Ok(Some("Record inserted".to_owned())),
            Err(e) => Err(e),
        }
    }
}

// ---------------------------------------------------------------------------
// DELETE
// ---------------------------------------------------------------------------

/// Removes the record stored under a key; an absent key is an error, not a
/// no-op.
pub struct DeleteCommand<K: DatabaseKey> {
    pub table: String,
    pub key: K,
}

/// The effect of deleting the record under key model `m` from the named
/// table.
pub open spec fn delete_post<K: DatabaseKey>(
    table: Seq<char>,
    m: KeyModel,
    pre: Database<K>,
    post: Database<K>,
    r: DbResult<Option<String>>,
) -> bool {
    match spec_find(pre.spec_tables(), table) {
        Option::None => post.spec_tables() == pre.spec_tables() && (r matches Err(e)
            && e is TableNotFound),
        Option::Some(ti) => {
            let t = pre.spec_tables()[ti];
            &&& post.spec_tables().len() == pre.spec_tables().len()
            &&& forall|j: int|
                0 <= j < pre.spec_tables().len() && j != ti ==> post.spec_tables()[j] == pre.spec_tables()[j]
            &&& post.spec_tables()[ti].spec_name() == t.spec_name()
            &&& post.spec_tables()[ti].spec_pk() == t.spec_pk()
            &&& post.spec_tables()[ti].spec_schema() == t.spec_schema()
            &&& if contains_key_model(t.spec_store(), m) {
                &&& (r matches Ok(om) && om matches Some(s) && s@ == "Deleted record"@)
                &&& exists|i: int|
                    0 <= i < t.spec_store().len() && (#[trigger] t.spec_store()[i].0) == m
                        && post.spec_tables()[ti].spec_store() == t.spec_store().remove(i)
            } else {
                &&& (r matches Err(e) && e is KeyMismatch)
                &&& post.spec_tables()[ti].spec_store() == t.spec_store()
            }
        },
    }
}

impl<K: DatabaseKey> Command<K> for DeleteCommand<K> {
    open spec fn wf_cmd(&self) -> bool {
        true
    }

    open spec fn spec_post(
        &self,
        pre: Database<K>,
        post: Database<K>,
        r: DbResult<Option<String>>,
    ) -> bool {
        delete_post(self.table@, self.key.model(), pre, post, r)
    }

    fn execute(&self, db: &mut Database<K>) -> (r: DbResult<Option<String>>) {
        let ti = match db.find_table(self.table.as_str()) {
            Some(i) => i,
            None => {
                return Err(DbError::TableNotFound(self.table.clone()));
            },
        };
        proof {
            db.lemma_wf_table(ti as int);
        }
        let t = db.table_at_mut(ti);
        let res = t.delete(&self.key);
        proof {
            old(db).lemma_update_keeps_wf(db, ti as int);
        }
        match res {
            Some(_) => Ok(Some("Deleted record".to_owned())),
            None => Err(DbError::KeyMismatch),
        }
    }
}

} // verus!
