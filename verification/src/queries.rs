//! The query language: the typed statements and the grammar that reads one
//! line of text into a statement.

use vstd::prelude::*;
use crate::commands::{Condition, ConditionView, Operator, cond_view, fields_view};
use crate::domain::{DataType, Decimal, DecimalView, Value, ValueView, record_wf, value_wf};
use crate::error::{DbError, DbResult};
use crate::text::{
    chars_of, copy_range, in_i64_range, int_literal_val, is_alpha_char, is_digit_char,
    is_ident_char, is_int_literal, is_space_char, chars_to_i64, string_from_chars,
};

verus! {

/// The grammar's marker type.
#[derive(Debug)]
pub struct QueryParser;

/// One parsed, typed statement.
#[derive(Debug)]
pub enum Query {
    Select { table: String, fields: Vec<String>, condition: Option<Condition> },
    Create { table: String, pk: String, columns: Vec<(String, DataType)> },
    Insert { table: String, values: Vec<(String, Value)> },
    Delete { table: String, key_value: Value },
    SaveAs(String),
    ReadFrom(String),
}

/// The mathematical content of a `Query`.
#[verifier::ext_equal]
pub enum QueryView {
    Select { table: Seq<char>, fields: Seq<Seq<char>>, condition: Option<ConditionView> },
    Create { table: Seq<char>, pk: Seq<char>, columns: Seq<(Seq<char>, DataType)> },
    Insert { table: Seq<char>, values: Seq<(Seq<char>, ValueView)> },
    Delete { table: Seq<char>, key_value: ValueView },
    SaveAs(Seq<char>),
    ReadFrom(Seq<char>),
}

/// The view of a name/value assignment list.
pub open spec fn assigns_view(s: Seq<(String, Value)>) -> Seq<(Seq<char>, ValueView)> {
    s.map_values(|p: (String, Value)| (p.0@, p.1@))
}

impl View for Query {
    type V = QueryView;

    open spec fn view(&self) -> QueryView {
        match self {
            Query::Select { table, fields, condition } => QueryView::Select {
                table: table@,
                fields: fields_view(fields@),
                condition: cond_view(*condition),
            },
            Query::Create { table, pk, columns } => QueryView::Create {
                table: table@,
                pk: pk@,
                columns: crate::domain::schema_view(columns@),
            },
            Query::Insert { table, values } => QueryView::Insert {
                table: table@,
                values: assigns_view(values@),
            },
            Query::Delete { table, key_value } => QueryView::Delete {
                table: table@,
                key_value: key_value@,
            },
            Query::SaveAs(p) => QueryView::SaveAs(p@),
            Query::ReadFrom(p) => QueryView::ReadFrom(p@),
        }
    }
}

/// Every value carried by the statement is well formed.
pub open spec fn query_view_wf(q: QueryView) -> bool {
    match q {
        QueryView::Select { condition, .. } => match condition {
            Option::Some(c) => value_wf(c.value),
            Option::None => true,
        },
        QueryView::Insert { values, .. } => record_wf(values),
        QueryView::Delete { key_value, .. } => value_wf(key_value),
        _ => true,
    }
}

// ---------------------------------------------------------------------------
// The grammar, production by production
// ---------------------------------------------------------------------------

/// The first position at or after `i` that is not a blank.
pub open spec fn sp_ws(s: Seq<char>, i: int) -> int
    decreases s.len() - i,
{
    if 0 <= i < s.len() && is_space_char(s[i]) {
        sp_ws(s, i + 1)
    } else {
        i
    }
}

/// At least one blank, then any more.
pub open spec fn sp_req_ws(s: Seq<char>, i: int) -> Option<int> {
    if 0 <= i < s.len() && is_space_char(s[i]) {
        Some(sp_ws(s, i))
    } else {
        None
    }
}

pub open spec fn ident_end(s: Seq<char>, i: int) -> int
    decreases s.len() - i,
{
    if 0 <= i < s.len() && is_ident_char(s[i]) {
        ident_end(s, i + 1)
    } else {
        i
    }
}

/// An identifier: a letter, then letters, digits or underscores.
pub open spec fn sp_ident(s: Seq<char>, i: int) -> Option<(Seq<char>, int)> {
    if 0 <= i < s.len() && is_alpha_char(s[i]) {
        Some((s.subrange(i, ident_end(s, i)), ident_end(s, i)))
    } else {
        None
    }
}

/// Whether the keyword stands at position `i`.
pub open spec fn has_kw(s: Seq<char>, i: int, kw: Seq<char>) -> bool {
    0 <= i && i + kw.len() <= s.len() && s.subrange(i, i + kw.len() as int) == kw
}

pub open spec fn digit_end(s: Seq<char>, i: int) -> int
    decreases s.len() - i,
{
    if 0 <= i < s.len() && is_digit_char(s[i]) {
        digit_end(s, i + 1)
    } else {
        i
    }
}

/// The position of the closing quote at or after `i`, or the end.
pub open spec fn quote_end(s: Seq<char>, i: int) -> int
    decreases s.len() - i,
{
    if 0 <= i < s.len() {
        if s[i] == '"' {
            i
        } else {
            quote_end(s, i + 1)
        }
    } else {
        s.len() as int
    }
}

/// The end of a path: the first blank at or after `i`, or the end.
pub open spec fn path_end(s: Seq<char>, i: int) -> int
    decreases s.len() - i,
{
    if 0 <= i < s.len() && !is_space_char(s[i]) {
        path_end(s, i + 1)
    } else {
        i
    }
}

/// A value literal: a double-quoted text (quotes stripped, no escapes),
/// `true` or `false`, a decimal with a fractional part, or a 64-bit
/// integer.  An out-of-range integer is a syntax error.
pub open spec fn sp_value(s: Seq<char>, i: int) -> Option<(ValueView, int)> {
    if 0 <= i < s.len() && s[i] == '"' {
        let e = quote_end(s, i + 1);
        if e < s.len() {
            Some((ValueView::Str(s.subrange(i + 1, e)), e + 1))
        } else {
            None
        }
    } else if has_kw(s, i, "true"@) {
        Some((ValueView::Bool(true), i + "true"@.len()))
    } else if has_kw(s, i, "false"@) {
        Some((ValueView::Bool(false), i + "false"@.len()))
    } else if 0 <= i <= s.len() {
        let start = if i < s.len() && s[i] == '-' {
            i + 1
        } else {
            i
        };
        let de = digit_end(s, start);
        if de == start {
            None
        } else if de < s.len() && s[de] == '.' && digit_end(s, de + 1) > de + 1 {
            Some(
                (
                    ValueView::Float(
                        DecimalView {
                            neg: start > i,
                            int_digits: s.subrange(start, de),
                            frac_digits: s.subrange(de + 1, digit_end(s, de + 1)),
                        },
                    ),
                    digit_end(s, de + 1),
                ),
            )
        } else {
            let tok = s.subrange(i, de);
            if in_i64_range(int_literal_val(tok)) {
                Some((ValueView::Int(int_literal_val(tok) as i64), de))
            } else {
                None
            }
        }
    } else {
        None
    }
}

/// A comparison operator; two-character operators win over their prefixes.
pub open spec fn sp_op(s: Seq<char>, i: int) -> Option<(Operator, int)> {
    if 0 <= i < s.len() {
        if s[i] == '!' && i + 1 < s.len() && s[i + 1] == '=' {
            Some((Operator::NotEqual, i + 2))
        } else if s[i] == '<' && i + 1 < s.len() && s[i + 1] == '=' {
            Some((Operator::LessThanOrEqual, i + 2))
        } else if s[i] == '>' && i + 1 < s.len() && s[i + 1] == '=' {
            Some((Operator::GreaterThanOrEqual, i + 2))
        } else if s[i] == '=' {
            Some((Operator::Equal, i + 1))
        } else if s[i] == '<' {
            Some((Operator::LessThan, i + 1))
        } else if s[i] == '>' {
            Some((Operator::GreaterThan, i + 1))
        } else {
            None
        }
    } else {
        None
    }
}

/// A comma-separated, non-empty list of identifiers.
pub open spec fn sp_ident_list(s: Seq<char>, i: int) -> Option<(Seq<Seq<char>>, int)>
    decreases s.len() - i,
{
    match sp_ident(s, i) {
        Option::None => None,
        Option::Some((name, e)) => {
            let jc = sp_ws(s, e);
            if jc < s.len() && s[jc] == ',' {
                let jn = sp_ws(s, jc + 1);
                if i < jn <= s.len() {
                    match sp_ident_list(s, jn) {
                        Option::None => None,
                        Option::Some((rest, e2)) => Some((rest.insert(0, name), e2)),
                    }
                } else {
                    None
                }
            } else {
                Some((seq![name], e))
            }
        },
    }
}

/// A comma-separated, non-empty list of `name:Type` column declarations.
pub open spec fn sp_col_list(s: Seq<char>, i: int) -> Option<(Seq<(Seq<char>, DataType)>, int)>
    decreases s.len() - i,
{
    match sp_ident(s, i) {
        Option::None => None,
        Option::Some((name, e)) => {
            let jc = sp_ws(s, e);
            if jc < s.len() && s[jc] == ':' {
                let jt = sp_ws(s, jc + 1);
                let ty = if has_kw(s, jt, "Int"@) {
                    Some((DataType::Int, jt + "Int"@.len()))
                } else if has_kw(s, jt, "Float"@) {
                    Some((DataType::Float, jt + "Float"@.len()))
                } else if has_kw(s, jt, "Bool"@) {
                    Some((DataType::Bool, jt + "Bool"@.len()))
                } else if has_kw(s, jt, "String"@) {
                    Some((DataType::String, jt + "String"@.len()))
                } else {
                    None
                };
                match ty {
                    Option::None => None,
                    Option::Some((dt, e2)) => {
                        let jn = sp_ws(s, e2);
                        if jn < s.len() && s[jn] == ',' {
                            let j2 = sp_ws(s, jn + 1);
                            if i < j2 <= s.len() {
                                match sp_col_list(s, j2) {
                                    Option::None => None,
                                    Option::Some((rest, e3)) => Some(
                                        (rest.insert(0, (name, dt)), e3),
                                    ),
                                }
                            } else {
                                None
                            }
                        } else {
                            Some((seq![(name, dt)], e2))
                        }
                    },
                }
            } else {
                None
            }
        },
    }
}

/// A comma-separated, non-empty list of `name=value` assignments.
pub open spec fn sp_assign_list(s: Seq<char>, i: int) -> Option<(Seq<(Seq<char>, ValueView)>, int)>
    decreases s.len() - i,
{
    match sp_ident(s, i) {
        Option::None => None,
        Option::Some((name, e)) => {
            let je = sp_ws(s, e);
            if je < s.len() && s[je] == '=' {
                let jv = sp_ws(s, je + 1);
                match sp_value(s, jv) {
                    Option::None => None,
                    Option::Some((val, e2)) => {
                        let jn = sp_ws(s, e2);
                        if jn < s.len() && s[jn] == ',' {
                            let j2 = sp_ws(s, jn + 1);
                            if i < j2 <= s.len() {
                                match sp_assign_list(s, j2) {
                                    Option::None => None,
                                    Option::Some((rest, e3)) => Some(
                                        (rest.insert(0, (name, val)), e3),
                                    ),
                                }
                            } else {
                                None
                            }
                        } else {
                            Some((seq![(name, val)], e2))
                        }
                    },
                }
            } else {
                None
            }
        },
    }
}

/// `SELECT <ident>(, <ident>)* FROM <ident> [WHERE <ident> <op> <value>]`,
/// `i` standing just after the keyword.
pub open spec fn sp_select(s: Seq<char>, i: int) -> Option<QueryView> {
    match sp_req_ws(s, i) {
        Option::None => None,
        Option::Some(j) => match sp_ident_list(s, j) {
            Option::None => None,
            Option::Some((names, e)) => {
                let jf = sp_ws(s, e);
                if has_kw(s, jf, "FROM"@) {
                    match sp_req_ws(s, jf + "FROM"@.len()) {
                        Option::None => None,
                        Option::Some(j2) => match sp_ident(s, j2) {
                            Option::None => None,
                            Option::Some((table, e2)) => {
                                let j3 = sp_ws(s, e2);
                                if j3 == s.len() {
                                    Some(
                                        QueryView::Select {
                                            table,
                                            fields: names,
                                            condition: None,
                                        },
                                    )
                                } else if has_kw(s, j3, "WHERE"@) {
                                    sp_where(s, j3 + "WHERE"@.len(), table, names)
                                } else {
                                    None
                                }
                            },
                        },
                    }
                } else {
                    None
                }
            },
        },
    }
}

/// The WHERE tail of a SELECT, `i` standing just after the keyword.
pub open spec fn sp_where(
    s: Seq<char>,
    i: int,
    table: Seq<char>,
    names: Seq<Seq<char>>,
) -> Option<QueryView> {
    match sp_req_ws(s, i) {
        Option::None => None,
        Option::Some(j) => match sp_ident(s, j) {
            Option::None => None,
            Option::Some((col, e)) => {
                let j2 = sp_ws(s, e);
                match sp_op(s, j2) {
                    Option::None => None,
                    Option::Some((op, e2)) => {
                        let j3 = sp_ws(s, e2);
                        match sp_value(s, j3) {
                            Option::None => None,
                            Option::Some((val, e3)) => {
                                if sp_ws(s, e3) == s.len() {
                                    Some(
                                        QueryView::Select {
                                            table,
                                            fields: names,
                                            condition: Some(
                                                ConditionView {
                                                    column: col,
                                                    operator: op,
                                                    value: val,
                                                },
                                            ),
                                        },
                                    )
                                } else {
                                    None
                                }
                            },
                        }
                    },
                }
            },
        },
    }
}

/// `CREATE <ident> KEY <ident> FIELDS <ident>:<Type>(, <ident>:<Type>)*`.
pub open spec fn sp_create(s: Seq<char>, i: int) -> Option<QueryView> {
    match sp_req_ws(s, i) {
        Option::None => None,
        Option::Some(j) => match sp_ident(s, j) {
            Option::None => None,
            Option::Some((table, e)) => {
                let j2 = sp_ws(s, e);
                if has_kw(s, j2, "KEY"@) {
                    match sp_req_ws(s, j2 + "KEY"@.len()) {
                        Option::None => None,
                        Option::Some(j3) => match sp_ident(s, j3) {
                            Option::None => None,
                            Option::Some((pk, e2)) => {
                                let j4 = sp_ws(s, e2);
                                if has_kw(s, j4, "FIELDS"@) {
                                    match sp_req_ws(s, j4 + "FIELDS"@.len()) {
                                        Option::None => None,
                                        Option::Some(j5) => match sp_col_list(s, j5) {
                                            Option::None => None,
                                            Option::Some((cols, e3)) => {
                                                if sp_ws(s, e3) == s.len() {
                                                    Some(
                                                        QueryView::Create {
                                                            table,
                                                            pk,
                                                            columns: cols,
                                                        },
                                                    )
                                                } else {
                                                    None
                                                }
                                            },
                                        },
                                    }
                                } else {
                                    None
                                }
                            },
                        },
                    }
                } else {
                    None
                }
            },
        },
    }
}

/// `INSERT <ident>=<value>(, <ident>=<value>)* INTO <ident>`.
pub open spec fn sp_insert(s: Seq<char>, i: int) -> Option<QueryView> {
    match sp_req_ws(s, i) {
        Option::None => None,
        Option::Some(j) => match sp_assign_list(s, j) {
            Option::None => None,
            Option::Some((vals, e)) => {
                let j2 = sp_ws(s, e);
                if has_kw(s, j2, "INTO"@) {
                    match sp_req_ws(s, j2 + "INTO"@.len()) {
                        Option::None => None,
                        Option::Some(j3) => match sp_ident(s, j3) {
                            Option::None => None,
                            Option::Some((table, e2)) => {
                                if sp_ws(s, e2) == s.len() {
                                    Some(QueryView::Insert { table, values: vals })
                                } else {
                                    None
                                }
                            },
                        },
                    }
                } else {
                    None
                }
            },
        },
    }
}

/// `DELETE <value> FROM <ident>`.
pub open spec fn sp_delete(s: Seq<char>, i: int) -> Option<QueryView> {
    match sp_req_ws(s, i) {
        Option::None => None,
        Option::Some(j) => match sp_value(s, j) {
            Option::None => None,
            Option::Some((val, e)) => {
                let j2 = sp_ws(s, e);
                if has_kw(s, j2, "FROM"@) {
                    match sp_req_ws(s, j2 + "FROM"@.len()) {
                        Option::None => None,
                        Option::Some(j3) => match sp_ident(s, j3) {
                            Option::None => None,
                            Option::Some((table, e2)) => {
                                if sp_ws(s, e2) == s.len() {
                                    Some(QueryView::Delete { table, key_value: val })
                                } else {
                                    None
                                }
                            },
                        },
                    }
                } else {
                    None
                }
            },
        },
    }
}

/// `SAVE_AS <path>` or `READ_FROM <path>`.
pub open spec fn sp_path_cmd(s: Seq<char>, i: int, save: bool) -> Option<QueryView> {
    match sp_req_ws(s, i) {
        Option::None => None,
        Option::Some(j) => {
            let e = path_end(s, j);
            if e > j && sp_ws(s, e) == s.len() {
                if save {
                    Some(QueryView::SaveAs(s.subrange(j, e)))
                } else {
                    Some(QueryView::ReadFrom(s.subrange(j, e)))
                }
            } else {
                None
            }
        },
    }
}

/// One line of query text, as a statement: the six command forms, each
/// introduced by its keyword, with nothing but blanks around them.
pub open spec fn spec_parse(s: Seq<char>) -> Option<QueryView> {
    let i0 = sp_ws(s, 0);
    if has_kw(s, i0, "SELECT"@) {
        sp_select(s, i0 + "SELECT"@.len())
    } else if has_kw(s, i0, "CREATE"@) {
        sp_create(s, i0 + "CREATE"@.len())
    } else if has_kw(s, i0, "INSERT"@) {
        sp_insert(s, i0 + "INSERT"@.len())
    } else if has_kw(s, i0, "DELETE"@) {
        sp_delete(s, i0 + "DELETE"@.len())
    } else if has_kw(s, i0, "SAVE_AS"@) {
        sp_path_cmd(s, i0 + "SAVE_AS"@.len(), true)
    } else if has_kw(s, i0, "READ_FROM"@) {
        sp_path_cmd(s, i0 + "READ_FROM"@.len(), false)
    } else {
        None
    }
}

// ---------------------------------------------------------------------------
// The canonical rendering of a statement, and its round trip
// ---------------------------------------------------------------------------

/// The canonical text of a value: decimal digits, a quoted text,
/// `true`/`false`, or the decimal's own text.
pub open spec fn render_value(v: ValueView) -> Seq<char> {
    match v {
        ValueView::Int(x) => crate::text::int_dec_seq(x as int),
        ValueView::Str(t) => seq!['"'] + t + seq!['"'],
        ValueView::Bool(b) => if b {
            "true"@
        } else {
            "false"@
        },
        ValueView::Float(d) => crate::domain::dec_text(d),
    }
}

/// The canonical text of a declared type.
pub open spec fn render_type(t: DataType) -> Seq<char> {
    match t {
        DataType::Int => "Int"@,
        DataType::Float => "Float"@,
        DataType::Bool => "Bool"@,
        DataType::String => "String"@,
    }
}

/// The canonical text of an operator.
pub open spec fn render_op(op: Operator) -> Seq<char> {
    match op {
        Operator::Equal => "="@,
        Operator::NotEqual => "!="@,
        Operator::GreaterThan => ">"@,
        Operator::GreaterThanOrEqual => ">="@,
        Operator::LessThan => "<"@,
        Operator::LessThanOrEqual => "<="@,
    }
}

pub open spec fn render_fields(fields: Seq<Seq<char>>) -> Seq<char>
    decreases fields.len(),
{
    if fields.len() == 0 {
        Seq::<char>::empty()
    } else if fields.len() == 1 {
        fields[0]
    } else {
        fields[0] + seq![',', ' '] + render_fields(fields.subrange(1, fields.len() as int))
    }
}

pub open spec fn render_columns(cols: Seq<(Seq<char>, DataType)>) -> Seq<char>
    decreases cols.len(),
{
    if cols.len() == 0 {
        Seq::<char>::empty()
    } else if cols.len() == 1 {
        cols[0].0 + seq![':'] + render_type(cols[0].1)
    } else {
        cols[0].0 + seq![':'] + render_type(cols[0].1) + seq![',', ' '] + render_columns(
            cols.subrange(1, cols.len() as int),
        )
    }
}

pub open spec fn render_assigns(vals: Seq<(Seq<char>, ValueView)>) -> Seq<char>
    decreases vals.len(),
{
    if vals.len() == 0 {
        Seq::<char>::empty()
    } else if vals.len() == 1 {
        vals[0].0 + seq!['='] + render_value(vals[0].1)
    } else {
        vals[0].0 + seq!['='] + render_value(vals[0].1) + seq![',', ' '] + render_assigns(
            vals.subrange(1, vals.len() as int),
        )
    }
}

/// The canonical one-line text of a statement.
pub open spec fn render_query(q: QueryView) -> Seq<char> {
    match q {
        QueryView::Select { table, fields, condition } => {
            let head = "SELECT "@ + render_fields(fields) + " FROM "@ + table;
            match condition {
                Option::Some(c) => head + " WHERE "@ + c.column + seq![' '] + render_op(c.operator)
                    + seq![' '] + render_value(c.value),
                Option::None => head,
            }
        },
        QueryView::Create { table, pk, columns } => "CREATE "@ + table + " KEY "@ + pk
            + " FIELDS "@ + render_columns(columns),
        QueryView::Insert { table, values } => "INSERT "@ + render_assigns(values) + " INTO "@
            + table,
        QueryView::Delete { table, key_value } => "DELETE "@ + render_value(key_value) + " FROM "@
            + table,
        QueryView::SaveAs(p) => "SAVE_AS "@ + p,
        QueryView::ReadFrom(p) => "READ_FROM "@ + p,
    }
}

/// A name the grammar can read back: a letter, then letters, digits or
/// underscores.
pub open spec fn ident_ok(x: Seq<char>) -> bool {
    x.len() > 0 && is_alpha_char(x[0]) && (forall|k: int| 0 <= k < x.len() ==> is_ident_char(
        #[trigger] x[k],
    ))
}

/// A value whose canonical text reads back: texts hold no quote, decimals
/// are well formed.
pub open spec fn value_render_ok(v: ValueView) -> bool {
    match v {
        ValueView::Str(t) => forall|k: int| 0 <= k < t.len() ==> (#[trigger] t[k]) != '"',
        ValueView::Float(d) => crate::domain::dec_wf(d),
        _ => true,
    }
}

/// A path the grammar can read back: non-empty, with no blanks.
pub open spec fn path_ok(p: Seq<char>) -> bool {
    p.len() > 0 && (forall|k: int|
        0 <= k < p.len() ==> !is_space_char(#[trigger] p[k]))
}

proof fn lemma_sp_ws_run(s: Seq<char>, i: int, e: int)
    requires
        0 <= i <= e <= s.len(),
        forall|k: int| i <= k < e ==> is_space_char(#[trigger] s[k]),
        e == s.len() || !is_space_char(s[e]),
    ensures
        sp_ws(s, i) == e,
    decreases e - i,
{
    if i < e {
        lemma_sp_ws_run(s, i + 1, e);
    }
}

proof fn lemma_ident_end_run(s: Seq<char>, i: int, e: int)
    requires
        0 <= i <= e <= s.len(),
        forall|k: int| i <= k < e ==> is_ident_char(#[trigger] s[k]),
        e == s.len() || !is_ident_char(s[e]),
    ensures
        ident_end(s, i) == e,
    decreases e - i,
{
    if i < e {
        lemma_ident_end_run(s, i + 1, e);
    }
}

proof fn lemma_digit_end_run(s: Seq<char>, i: int, e: int)
    requires
        0 <= i <= e <= s.len(),
        forall|k: int| i <= k < e ==> is_digit_char(#[trigger] s[k]),
        e == s.len() || !is_digit_char(s[e]),
    ensures
        digit_end(s, i) == e,
    decreases e - i,
{
    if i < e {
        lemma_digit_end_run(s, i + 1, e);
    }
}

proof fn lemma_path_end_run(s: Seq<char>, i: int, e: int)
    requires
        0 <= i <= e <= s.len(),
        forall|k: int| i <= k < e ==> !is_space_char(#[trigger] s[k]),
        e == s.len() || is_space_char(s[e]),
    ensures
        path_end(s, i) == e,
    decreases e - i,
{
    if i < e {
        lemma_path_end_run(s, i + 1, e);
    }
}

proof fn lemma_quote_end_run(s: Seq<char>, i: int, e: int)
    requires
        0 <= i <= e < s.len(),
        forall|k: int| i <= k < e ==> (#[trigger] s[k]) != '"',
        s[e] == '"',
    ensures
        quote_end(s, i) == e,
    decreases e - i,
{
    if i < e {
        lemma_quote_end_run(s, i + 1, e);
    }
}

proof fn lemma_kw_at(s: Seq<char>, i: int, kw: Seq<char>)
    requires
        0 <= i,
        i + kw.len() <= s.len(),
        forall|k: int| 0 <= k < kw.len() ==> s[i + k] == kw[k],
    ensures
        has_kw(s, i, kw),
{
    assert(s.subrange(i, i + kw.len() as int) =~= kw);
}

proof fn lemma_not_kw(s: Seq<char>, i: int, kw: Seq<char>, k: int)
    requires
        0 <= i,
        0 <= k < kw.len(),
        i + k < s.len(),
        s[i + k] != kw[k],
    ensures
        !has_kw(s, i, kw),
{
    if has_kw(s, i, kw) {
        assert(s.subrange(i, i + kw.len() as int)[k] == kw[k]);
    }
}

/// The canonical text of a value reads back as that value, wherever it is
/// followed by a blank, a comma, or the end of the line.
#[verifier::rlimit(60)]
#[verifier::spinoff_prover]
proof fn lemma_parse_render_value(s: Seq<char>, i: int, v: ValueView)
    requires
        value_render_ok(v),
        0 <= i,
        i + render_value(v).len() <= s.len(),
        forall|k: int|
            0 <= k < render_value(v).len() ==> s[i + k] == #[trigger] render_value(v)[k],
        i + render_value(v).len() == s.len() || s[i + render_value(v).len()] == ' ' || s[i
            + render_value(v).len()] == ',',
    ensures
        sp_value(s, i) == Some((v, i + render_value(v).len())),
{
    reveal_strlit("true");
    reveal_strlit("false");
    let rv = render_value(v);
    let e = i + rv.len();
    match v {
        ValueView::Int(x) => {
            crate::text::lemma_int_dec_seq(x as int);
            assert(rv.len() >= 1);
            assert(s[i] == rv[0]);
            assert(s[i] != '"' && s[i] != 't' && s[i] != 'f') by {
                if is_digit_char(rv[0]) {
                    assert('"' as u32 == 34 && 't' as u32 == 116 && 'f' as u32 == 102);
                } else {
                    assert(rv[0] == '-');
                }
            }
            lemma_not_kw(s, i, "true"@, 0);
            lemma_not_kw(s, i, "false"@, 0);
            let start = if s[i] == '-' {
                i + 1
            } else {
                i
            };
            assert forall|k: int| start <= k < e implies is_digit_char(#[trigger] s[k]) by {
                assert(s[k] == rv[k - i]);
                if k == i {
                    assert(s[i] != '-');
                    assert(is_digit_char(rv[0]) || rv[0] == '-');
                } else {
                    assert(is_digit_char(rv[k - i]));
                }
            }
            assert(e == s.len() || !is_digit_char(s[e])) by {
                if e < s.len() {
                    assert(s[e] == ' ' || s[e] == ',');
                    assert(' ' as u32 == 32 && ',' as u32 == 44);
                }
            }
            lemma_digit_end_run(s, start, e);
            assert(start < e) by {
                if s[i] == '-' {
                    assert(rv[0] == '-' || is_digit_char(rv[0]));
                    assert(rv.len() > 1) by {
                        if rv[0] != '-' {
                            assert(is_digit_char(rv[0]));
                            assert('-' as u32 == 45);
                        }
                    }
                }
            }
            assert(e == s.len() || s[e] != '.') by {
                if e < s.len() {
                    assert('.' as u32 == 46 && ' ' as u32 == 32 && ',' as u32 == 44);
                }
            }
            let tok = s.subrange(i, e);
            assert(tok =~= rv);
            assert(is_int_literal(tok) && int_literal_val(tok) == x as int);
            assert(in_i64_range(x as int));
        },
        ValueView::Str(t) => {
            assert(rv =~= seq!['"'] + t + seq!['"']);
            assert(rv.len() == t.len() + 2);
            assert(s[i] == rv[0] && rv[0] == '"');
            assert forall|k: int| i + 1 <= k < e - 1 implies (#[trigger] s[k]) != '"' by {
                assert(s[k] == rv[k - i]);
                assert(rv[k - i] == t[k - i - 1]);
            }
            assert(s[e - 1] == rv[rv.len() - 1] && rv[rv.len() - 1] == '"');
            lemma_quote_end_run(s, i + 1, e - 1);
            assert forall|k: int| 0 <= k < t.len() implies s.subrange(i + 1, e - 1)[k] == t[k] by {
                assert(s[i + 1 + k] == rv[k + 1]);
                assert(rv[k + 1] == t[k]);
            }
            assert(s.subrange(i + 1, e - 1) =~= t);
        },
        ValueView::Bool(b) => {
            if b {
                assert("true"@.len() == 4);
                assert(s[i] == rv[0] && rv[0] == 't');
                assert('"' as u32 == 34 && 't' as u32 == 116);
                assert(s[i] != '"');
                lemma_kw_at(s, i, "true"@);
            } else {
                assert("false"@.len() == 5);
                assert(s[i] == rv[0] && rv[0] == 'f');
                assert('"' as u32 == 34 && 'f' as u32 == 102 && 't' as u32 == 116);
                assert(s[i] != '"');
                lemma_not_kw(s, i, "true"@, 0);
                lemma_kw_at(s, i, "false"@);
            }
        },
        ValueView::Float(d) => {
            let sign: int = if d.neg {
                1
            } else {
                0
            };
            let ip = d.int_digits;
            let fp = d.frac_digits;
            assert(rv =~= (if d.neg {
                seq!['-']
            } else {
                Seq::<char>::empty()
            }) + ip + seq!['.'] + fp);
            assert(rv.len() == sign + ip.len() + 1 + fp.len());
            assert(forall|k: int| 0 <= k < ip.len() ==> rv[sign + k] == ip[k]);
            assert(rv[sign + ip.len()] == '.');
            assert(forall|k: int| 0 <= k < fp.len() ==> rv[sign + ip.len() + 1 + k] == fp[k]);
            if d.neg {
                assert(rv[0] == '-');
            } else {
                assert(rv[0] == ip[0]);
                assert(is_digit_char(rv[0]));
            }
            assert(s[i] == rv[0]);
            assert(s[i] != '"' && s[i] != 't' && s[i] != 'f') by {
                if sign == 1 {
                    assert(rv[0] == '-');
                    assert('-' as u32 == 45);
                }
                assert('"' as u32 == 34 && 't' as u32 == 116 && 'f' as u32 == 102);
            }
            lemma_not_kw(s, i, "true"@, 0);
            lemma_not_kw(s, i, "false"@, 0);
            let start = if s[i] == '-' {
                i + 1
            } else {
                i
            };
            assert(start == i + sign) by {
                if sign == 0 {
                    assert(is_digit_char(rv[0]));
                    assert('-' as u32 == 45);
                }
            }
            let de = start + ip.len();
            assert forall|k: int| start <= k < de implies is_digit_char(#[trigger] s[k]) by {
                assert(s[k] == rv[k - i]);
                assert(rv[k - i] == ip[k - i - sign]);
            }
            assert(s[de] == rv[de - i] && rv[de - i] == '.');
            assert(!is_digit_char(s[de])) by {
                assert('.' as u32 == 46);
            }
            lemma_digit_end_run(s, start, de);
            assert(de != start);
            let fe = de + 1 + fp.len();
            assert forall|k: int| de + 1 <= k < fe implies is_digit_char(#[trigger] s[k]) by {
                assert(s[k] == rv[k - i]);
                assert(rv[k - i] == fp[k - i - sign - ip.len() - 1]);
            }
            assert(fe == e);
            assert(e == s.len() || !is_digit_char(s[e])) by {
                if e < s.len() {
                    assert(' ' as u32 == 32 && ',' as u32 == 44);
                }
            }
            lemma_digit_end_run(s, de + 1, fe);
            assert(fe > de + 1);
            let parsed = DecimalView {
                neg: start > i,
                int_digits: s.subrange(start, de),
                frac_digits: s.subrange(de + 1, fe),
            };
            assert forall|k: int| 0 <= k < ip.len() implies s.subrange(start, de)[k] == ip[k] by {
                assert(s[start + k] == rv[start + k - i]);
            }
            assert(s.subrange(start, de) =~= ip);
            assert forall|k: int| 0 <= k < fp.len() implies s.subrange(de + 1, fe)[k] == fp[k] by {
                assert(s[de + 1 + k] == rv[de + 1 + k - i]);
            }
            assert(s.subrange(de + 1, fe) =~= fp);
            assert((start > i) == d.neg);
            assert(parsed =~= d);
        },
    }
}

/// Round trip for DELETE: parsing the canonical text of a DELETE statement
/// yields that statement back.
#[verifier::rlimit(100)]
#[verifier::spinoff_prover]
pub proof fn lemma_parse_render_delete(table: Seq<char>, v: ValueView)
    requires
        ident_ok(table),
        value_render_ok(v),
    ensures
        spec_parse(render_query(QueryView::Delete { table, key_value: v })) == Some(
            QueryView::Delete { table, key_value: v },
        ),
{
    reveal_strlit("DELETE ");
    reveal_strlit("DELETE");
    reveal_strlit("SELECT");
    reveal_strlit("CREATE");
    reveal_strlit("INSERT");
    reveal_strlit(" FROM ");
    reveal_strlit("FROM");
    let rv = render_value(v);
    let s = "DELETE "@ + rv + " FROM "@ + table;
    assert(s =~= "DELETE "@ + rv + " FROM "@ + table);
    let e: int = 7 + rv.len() as int;
    assert(s.len() == 7 + rv.len() + 6 + table.len());
    assert(forall|k: int| 0 <= k < 7 ==> s[k] == "DELETE "@[k]);
    assert(forall|k: int| 0 <= k < rv.len() ==> s[7 + k] == #[trigger] rv[k]);
    assert(forall|k: int| 0 <= k < 6 ==> s[e + k] == " FROM "@[k]);
    assert(forall|k: int| 0 <= k < table.len() ==> s[e + 6 + k] == #[trigger] table[k]);
    // Dispatch: the line starts with DELETE and with no other keyword.
    assert(!is_space_char(s[0]));
    assert(sp_ws(s, 0) == 0) by {
        lemma_sp_ws_run(s, 0, 0);
    }
    lemma_not_kw(s, 0, "SELECT"@, 0);
    lemma_not_kw(s, 0, "CREATE"@, 0);
    lemma_not_kw(s, 0, "INSERT"@, 0);
    lemma_kw_at(s, 0, "DELETE"@);
    assert(spec_parse(s) == sp_delete(s, 6));
    // One blank, then the value.
    assert(is_space_char(s[6]));
    lemma_value_head_not_space(v);
    assert(!is_space_char(s[7]));
    lemma_sp_ws_run(s, 6, 7);
    assert(sp_req_ws(s, 6) == Some(7int));
    assert(s[e] == ' ');
    lemma_parse_render_value(s, 7, v);
    // One blank, FROM, one blank, the table name up to the end.
    assert(!is_space_char(s[e + 1]));
    lemma_sp_ws_run(s, e, e + 1);
    lemma_kw_at(s, e + 1, "FROM"@);
    assert(is_space_char(s[e + 5]));
    assert(!is_space_char(s[e + 6])) by {
        assert(is_alpha_char(table[0]));
        assert(' ' as u32 == 32 && '\t' as u32 == 9);
    }
    lemma_sp_ws_run(s, e + 5, e + 6);
    assert(sp_req_ws(s, e + 5) == Some(e + 6));
    assert(is_alpha_char(s[e + 6]));
    assert(forall|k: int| e + 6 <= k < s.len() ==> is_ident_char(#[trigger] s[k])) by {
        assert(forall|k: int|
            e + 6 <= k < s.len() ==> s[k] == #[trigger] table[k - e - 6] && is_ident_char(
                table[k - e - 6],
            ));
    }
    lemma_ident_end_run(s, e + 6, s.len() as int);
    assert(s.subrange(e + 6, s.len() as int) =~= table);
    lemma_sp_ws_run(s, s.len() as int, s.len() as int);
    assert(sp_delete(s, 6) == Some(QueryView::Delete { table, key_value: v }));
}

/// The first character of a rendered value is never a blank.
proof fn lemma_value_head_not_space(v: ValueView)
    requires
        value_render_ok(v),
    ensures
        render_value(v).len() > 0,
        !is_space_char(render_value(v)[0]),
{
    reveal_strlit("true");
    reveal_strlit("false");
    let rv = render_value(v);
    match v {
        ValueView::Int(x) => {
            crate::text::lemma_int_dec_seq(x as int);
            assert(is_digit_char(rv[0]) || rv[0] == '-');
            assert(' ' as u32 == 32 && '\t' as u32 == 9 && '-' as u32 == 45);
        },
        ValueView::Str(t) => {
            assert(rv[0] == '"');
            assert(' ' as u32 == 32 && '\t' as u32 == 9 && '"' as u32 == 34);
        },
        ValueView::Bool(b) => {
            assert(' ' as u32 == 32 && '\t' as u32 == 9 && 't' as u32 == 116 && 'f' as u32 == 102);
        },
        ValueView::Float(d) => {
            assert(rv =~= (if d.neg {
                seq!['-']
            } else {
                Seq::<char>::empty()
            }) + d.int_digits + seq!['.'] + d.frac_digits);
            if d.neg {
                assert(rv[0] == '-');
            } else {
                assert(rv[0] == d.int_digits[0]);
                assert(is_digit_char(rv[0]));
            }
            assert(' ' as u32 == 32 && '\t' as u32 == 9 && '-' as u32 == 45);
        },
    }
}

/// Round trip for SAVE_AS and READ_FROM: parsing the canonical text yields
/// the statement back.
pub proof fn lemma_parse_render_path(p: Seq<char>, save: bool)
    requires
        path_ok(p),
    ensures
        save ==> spec_parse(render_query(QueryView::SaveAs(p))) == Some(QueryView::SaveAs(p)),
        !save ==> spec_parse(render_query(QueryView::ReadFrom(p))) == Some(
            QueryView::ReadFrom(p),
        ),
{
    reveal_strlit("SAVE_AS ");
    reveal_strlit("SAVE_AS");
    reveal_strlit("READ_FROM ");
    reveal_strlit("READ_FROM");
    reveal_strlit("SELECT");
    reveal_strlit("CREATE");
    reveal_strlit("INSERT");
    reveal_strlit("DELETE");
    let kw = if save {
        "SAVE_AS "@
    } else {
        "READ_FROM "@
    };
    let klen: int = kw.len() as int;
    let s = kw + p;
    assert(forall|k: int| 0 <= k < klen ==> s[k] == kw[k]);
    assert(forall|k: int| 0 <= k < p.len() ==> s[klen + k] == #[trigger] p[k]);
    assert(!is_space_char(s[0])) by {
        assert(' ' as u32 == 32 && '\t' as u32 == 9 && 'S' as u32 == 83 && 'R' as u32 == 82);
    }
    lemma_sp_ws_run(s, 0, 0);
    lemma_not_kw(s, 0, "DELETE"@, 0);
    lemma_not_kw(s, 0, "CREATE"@, 0);
    lemma_not_kw(s, 0, "INSERT"@, 0);
    if save {
        assert(render_query(QueryView::SaveAs(p)) =~= s);
        lemma_not_kw(s, 0, "SELECT"@, 1);
        lemma_kw_at(s, 0, "SAVE_AS"@);
        assert(spec_parse(s) == sp_path_cmd(s, 7, true));
        assert(is_space_char(s[7]));
        assert(!is_space_char(s[8]));
        lemma_sp_ws_run(s, 7, 8);
        assert(sp_req_ws(s, 7) == Some(8int));
        assert(forall|k: int| 8 <= k < s.len() ==> !is_space_char(#[trigger] s[k])) by {
            assert(forall|k: int|
                8 <= k < s.len() ==> s[k] == #[trigger] p[k - 8] && !is_space_char(p[k - 8]));
        }
        lemma_path_end_run(s, 8, s.len() as int);
        lemma_sp_ws_run(s, s.len() as int, s.len() as int);
        assert(s.subrange(8, s.len() as int) =~= p);
    } else {
        assert(render_query(QueryView::ReadFrom(p)) =~= s);
        lemma_not_kw(s, 0, "SELECT"@, 0);
        lemma_not_kw(s, 0, "SAVE_AS"@, 0);
        lemma_kw_at(s, 0, "READ_FROM"@);
        assert(spec_parse(s) == sp_path_cmd(s, 9, false));
        assert(is_space_char(s[9]));
        assert(!is_space_char(s[10]));
        lemma_sp_ws_run(s, 9, 10);
        assert(sp_req_ws(s, 9) == Some(10int));
        assert(forall|k: int| 10 <= k < s.len() ==> !is_space_char(#[trigger] s[k])) by {
            assert(forall|k: int|
                10 <= k < s.len() ==> s[k] == #[trigger] p[k - 10] && !is_space_char(p[k - 10]));
        }
        lemma_path_end_run(s, 10, s.len() as int);
        lemma_sp_ws_run(s, s.len() as int, s.len() as int);
        assert(s.subrange(10, s.len() as int) =~= p);
    }
}

/// The canonical text of a non-empty column list reads back as that list,
/// where it runs to the end of the line.
#[verifier::rlimit(100)]
#[verifier::spinoff_prover]
proof fn lemma_parse_render_columns(s: Seq<char>, i: int, cols: Seq<(Seq<char>, DataType)>)
    requires
        cols.len() >= 1,
        forall|j: int| 0 <= j < cols.len() ==> ident_ok((#[trigger] cols[j]).0),
        0 <= i,
        i + render_columns(cols).len() == s.len(),
        forall|k: int|
            0 <= k < render_columns(cols).len() ==> s[i + k] == #[trigger] render_columns(
                cols,
            )[k],
    ensures
        sp_col_list(s, i) == Some((cols, s.len() as int)),
    decreases cols.len(),
{
    reveal_strlit("Int");
    reveal_strlit("Float");
    reveal_strlit("Bool");
    reveal_strlit("String");
    let rc = render_columns(cols);
    let name = cols[0].0;
    let dt = cols[0].1;
    let tk = render_type(dt);
    assert(tk.len() >= 3 && is_alpha_char(tk[0]) && (forall|k: int|
        0 <= k < tk.len() ==> is_ident_char(#[trigger] tk[k]))) by {
        match dt {
            DataType::Int => {},
            DataType::Float => {},
            DataType::Bool => {},
            DataType::String => {},
        }
    }
    let single = cols.len() == 1;
    let rest = cols.subrange(1, cols.len() as int);
    let head = name + seq![':'] + tk;
    if single {
        assert(rc =~= head);
    } else {
        assert(rc =~= head + seq![',', ' '] + render_columns(rest));
    }
    // The name, up to the colon.
    let e = i + name.len();
    assert forall|k: int| i <= k < e implies is_ident_char(#[trigger] s[k]) by {
        assert(s[k] == rc[k - i]);
        assert(rc[k - i] == name[k - i]);
    }
    assert(s[e] == rc[name.len() as int] && rc[name.len() as int] == ':');
    assert(!is_ident_char(s[e]) && !is_space_char(s[e])) by {
        assert(':' as u32 == 58);
    }
    lemma_ident_end_run(s, i, e);
    assert(s[i] == rc[0] && rc[0] == name[0]);
    assert forall|k: int| 0 <= k < name.len() implies s.subrange(i, e)[k] == name[k] by {
        assert(s[i + k] == rc[k]);
        assert(rc[k] == name[k]);
    }
    assert(s.subrange(i, e) =~= name);
    lemma_sp_ws_run(s, e, e);
    // The colon, then the type keyword.
    let jt = e + 1;
    assert forall|k: int| 0 <= k < tk.len() implies s[jt + k] == #[trigger] tk[k] by {
        assert(s[jt + k] == rc[jt + k - i]);
        assert(rc[jt + k - i] == tk[k]);
    }
    assert(!is_space_char(s[jt])) by {
        assert(' ' as u32 == 32 && '\t' as u32 == 9);
    }
    lemma_sp_ws_run(s, jt, jt);
    let e2 = jt + tk.len();
    match dt {
        DataType::Int => {
            lemma_kw_at(s, jt, "Int"@);
        },
        DataType::Float => {
            lemma_not_kw(s, jt, "Int"@, 0);
            lemma_kw_at(s, jt, "Float"@);
        },
        DataType::Bool => {
            lemma_not_kw(s, jt, "Int"@, 0);
            lemma_not_kw(s, jt, "Float"@, 0);
            lemma_kw_at(s, jt, "Bool"@);
        },
        DataType::String => {
            lemma_not_kw(s, jt, "Int"@, 0);
            lemma_not_kw(s, jt, "Float"@, 0);
            lemma_not_kw(s, jt, "Bool"@, 0);
            lemma_kw_at(s, jt, "String"@);
        },
    }
    if single {
        assert(e2 == s.len());
        lemma_sp_ws_run(s, e2, e2);
        assert(seq![(name, dt)] =~= cols) by {
            assert(cols[0] == (cols[0].0, cols[0].1));
        }
    } else {
        assert(s[e2] == rc[e2 - i] && rc[e2 - i] == ',');
        assert(!is_space_char(s[e2])) by {
            assert(',' as u32 == 44);
        }
        lemma_sp_ws_run(s, e2, e2);
        assert(s[e2 + 1] == rc[e2 + 1 - i] && rc[e2 + 1 - i] == ' ');
        let j2 = e2 + 2;
        assert(ident_ok(rest[0].0)) by {
            assert(rest[0] == cols[1]);
        }
        assert(s[j2] == rc[j2 - i] && rc[j2 - i] == render_columns(rest)[0]);
        assert(render_columns(rest)[0] == rest[0].0[0]) by {
            let rr = render_columns(rest);
            if rest.len() == 1 {
                assert(rr =~= rest[0].0 + seq![':'] + render_type(rest[0].1));
            } else {
                assert(rr =~= rest[0].0 + seq![':'] + render_type(rest[0].1) + seq![',', ' ']
                    + render_columns(rest.subrange(1, rest.len() as int)));
            }
        }
        assert(!is_space_char(s[j2])) by {
            assert(is_alpha_char(rest[0].0[0]));
            assert(' ' as u32 == 32 && '\t' as u32 == 9);
        }
        lemma_sp_ws_run(s, e2 + 1, j2);
        assert forall|k: int|
            0 <= k < render_columns(rest).len() implies s[j2 + k] == #[trigger] render_columns(
            rest,
        )[k] by {
            assert(s[j2 + k] == rc[j2 + k - i]);
            assert(rc[j2 + k - i] == render_columns(rest)[k]);
        }
        lemma_parse_render_columns(s, j2, rest);
        assert(rest.insert(0, (name, dt)) =~= cols) by {
            assert(cols[0] == (cols[0].0, cols[0].1));
        }
    }
}

/// Round trip for CREATE: parsing the canonical text of a CREATE statement
/// yields that statement back.
pub proof fn lemma_parse_render_create(
    table: Seq<char>,
    pk: Seq<char>,
    columns: Seq<(Seq<char>, DataType)>,
)
    requires
        ident_ok(table),
        ident_ok(pk),
        columns.len() >= 1,
        forall|j: int| 0 <= j < columns.len() ==> ident_ok((#[trigger] columns[j]).0),
    ensures
        spec_parse(render_query(QueryView::Create { table, pk, columns })) == Some(
            QueryView::Create { table, pk, columns },
        ),
{
    reveal_strlit("CREATE ");
    reveal_strlit("CREATE");
    reveal_strlit("SELECT");
    let rc = render_columns(columns);
    let s = "CREATE "@ + table + " KEY "@ + pk + " FIELDS "@ + rc;
    assert(render_query(QueryView::Create { table, pk, columns }) =~= s);
    assert(forall|k: int| 0 <= k < 7 ==> s[k] == "CREATE "@[k]);
    assert(!is_space_char(s[0]));
    lemma_sp_ws_run(s, 0, 0);
    lemma_not_kw(s, 0, "SELECT"@, 0);
    lemma_kw_at(s, 0, "CREATE"@);
    assert(spec_parse(s) == sp_create(s, 6));
    lemma_create_body(s, table, pk, columns);
}

/// The body of a CREATE line, from just after the keyword.
#[verifier::rlimit(100)]
#[verifier::spinoff_prover]
proof fn lemma_create_body(
    s: Seq<char>,
    table: Seq<char>,
    pk: Seq<char>,
    columns: Seq<(Seq<char>, DataType)>,
)
    requires
        ident_ok(table),
        ident_ok(pk),
        columns.len() >= 1,
        forall|j: int| 0 <= j < columns.len() ==> ident_ok((#[trigger] columns[j]).0),
        s == "CREATE "@ + table + " KEY "@ + pk + " FIELDS "@ + render_columns(columns),
    ensures
        sp_create(s, 6) == Some(QueryView::Create { table, pk, columns }),
{
    reveal_strlit("CREATE ");
    reveal_strlit(" KEY ");
    reveal_strlit("KEY");
    reveal_strlit(" FIELDS ");
    reveal_strlit("FIELDS");
    let rc = render_columns(columns);
    let e: int = 7 + table.len() as int;
    let e2: int = e + 5 + pk.len() as int;
    let ec: int = e2 + 8;
    assert(forall|k: int| 0 <= k < 7 ==> s[k] == "CREATE "@[k]);
    assert(forall|k: int| 0 <= k < table.len() ==> s[7 + k] == #[trigger] table[k]);
    assert(forall|k: int| 0 <= k < 5 ==> s[e + k] == " KEY "@[k]);
    assert(forall|k: int| 0 <= k < pk.len() ==> s[e + 5 + k] == #[trigger] pk[k]);
    assert(forall|k: int| 0 <= k < 8 ==> s[e2 + k] == " FIELDS "@[k]);
    assert(forall|k: int| 0 <= k < rc.len() ==> s[ec + k] == #[trigger] rc[k]);
    // One blank, then the table name up to the next blank.
    assert(is_space_char(s[6]));
    assert(!is_space_char(s[7])) by {
        assert(is_alpha_char(table[0]));
        assert(' ' as u32 == 32 && '\t' as u32 == 9);
    }
    lemma_sp_ws_run(s, 6, 7);
    assert forall|k: int| 7 <= k < e implies is_ident_char(#[trigger] s[k]) by {
        assert(s[k] == table[k - 7]);
    }
    assert(s[e] == ' ');
    assert(!is_ident_char(s[e])) by {
        assert(' ' as u32 == 32);
    }
    lemma_ident_end_run(s, 7, e);
    assert(s.subrange(7, e) =~= table);
    // KEY, one blank, the key column.
    assert(s[e + 1] == 'K' && !is_space_char(s[e + 1]));
    lemma_sp_ws_run(s, e, e + 1);
    lemma_kw_at(s, e + 1, "KEY"@);
    assert(is_space_char(s[e + 4]));
    assert(!is_space_char(s[e + 5])) by {
        assert(is_alpha_char(pk[0]));
        assert(' ' as u32 == 32 && '\t' as u32 == 9);
    }
    lemma_sp_ws_run(s, e + 4, e + 5);
    assert forall|k: int| e + 5 <= k < e2 implies is_ident_char(#[trigger] s[k]) by {
        assert(s[k] == pk[k - e - 5]);
    }
    assert(s[e2] == ' ');
    assert(!is_ident_char(s[e2])) by {
        assert(' ' as u32 == 32);
    }
    lemma_ident_end_run(s, e + 5, e2);
    assert(s.subrange(e + 5, e2) =~= pk);
    // FIELDS, one blank, then the columns to the end of the line.
    assert(s[e2 + 1] == 'F' && !is_space_char(s[e2 + 1]));
    lemma_sp_ws_run(s, e2, e2 + 1);
    lemma_kw_at(s, e2 + 1, "FIELDS"@);
    assert(is_space_char(s[e2 + 7]));
    assert(rc.len() >= 1 && is_alpha_char(rc[0])) by {
        if columns.len() == 1 {
            assert(rc =~= columns[0].0 + seq![':'] + render_type(columns[0].1));
        } else {
            assert(rc =~= columns[0].0 + seq![':'] + render_type(columns[0].1) + seq![',', ' ']
                + render_columns(columns.subrange(1, columns.len() as int)));
        }
        assert(rc[0] == columns[0].0[0]);
    }
    assert(!is_space_char(s[ec])) by {
        assert(s[ec] == rc[0]);
        assert(' ' as u32 == 32 && '\t' as u32 == 9);
    }
    lemma_sp_ws_run(s, e2 + 7, ec);
    lemma_parse_render_columns(s, ec, columns);
    assert(sp_create(s, 6) == Some(QueryView::Create { table, pk, columns }));
}

/// The canonical text of a non-empty assignment list reads back as that
/// list, where a blank and more text follow it.
#[verifier::rlimit(100)]
#[verifier::spinoff_prover]
proof fn lemma_parse_render_assigns(s: Seq<char>, i: int, vals: Seq<(Seq<char>, ValueView)>)
    requires
        vals.len() >= 1,
        forall|j: int| 0 <= j < vals.len() ==> ident_ok((#[trigger] vals[j]).0),
        forall|j: int| 0 <= j < vals.len() ==> value_render_ok((#[trigger] vals[j]).1),
        0 <= i,
        i + render_assigns(vals).len() + 1 < s.len(),
        forall|k: int|
            0 <= k < render_assigns(vals).len() ==> s[i + k] == #[trigger] render_assigns(
                vals,
            )[k],
        s[i + render_assigns(vals).len()] == ' ',
        !is_space_char(s[i + render_assigns(vals).len() + 1]),
        s[i + render_assigns(vals).len() + 1] != ',',
    ensures
        sp_assign_list(s, i) == Some((vals, i + render_assigns(vals).len())),
    decreases vals.len(),
{
    let ra = render_assigns(vals);
    let name = vals[0].0;
    let v = vals[0].1;
    let rv = render_value(v);
    let rest = vals.subrange(1, vals.len() as int);
    let head = name + seq!['='] + rv;
    let single = vals.len() == 1;
    if single {
        assert(ra =~= head);
    } else {
        assert(ra =~= head + seq![',', ' '] + render_assigns(rest));
    }
    // The name, up to the equals sign.
    let e = i + name.len();
    assert forall|k: int| i <= k < e implies is_ident_char(#[trigger] s[k]) by {
        assert(s[k] == ra[k - i]);
        assert(ra[k - i] == name[k - i]);
    }
    assert(s[e] == ra[name.len() as int] && ra[name.len() as int] == '=');
    assert(!is_ident_char(s[e]) && !is_space_char(s[e])) by {
        assert('=' as u32 == 61);
    }
    lemma_ident_end_run(s, i, e);
    assert(s[i] == ra[0] && ra[0] == name[0]);
    assert forall|k: int| 0 <= k < name.len() implies s.subrange(i, e)[k] == name[k] by {
        assert(s[i + k] == ra[k]);
        assert(ra[k] == name[k]);
    }
    assert(s.subrange(i, e) =~= name);
    lemma_sp_ws_run(s, e, e);
    // The equals sign, then the value.
    let jv = e + 1;
    let e2 = jv + rv.len();
    assert forall|k: int| 0 <= k < rv.len() implies s[jv + k] == #[trigger] rv[k] by {
        assert(s[jv + k] == ra[jv + k - i]);
        assert(ra[jv + k - i] == rv[k]);
    }
    lemma_value_head_not_space(v);
    assert(!is_space_char(s[jv])) by {
        assert(s[jv] == rv[0]);
    }
    lemma_sp_ws_run(s, jv, jv);
    if single {
        assert(s[e2] == ' ' && !is_space_char(s[e2 + 1]) && s[e2 + 1] != ',');
        lemma_parse_render_value(s, jv, v);
        assert(!is_space_char(s[e2 + 1]));
        lemma_sp_ws_run(s, e2, e2 + 1);
        assert(seq![(name, v)] =~= vals) by {
            assert(vals[0] == (vals[0].0, vals[0].1));
        }
    } else {
        assert(s[e2] == ra[e2 - i] && ra[e2 - i] == ',');
        lemma_parse_render_value(s, jv, v);
        assert(!is_space_char(s[e2])) by {
            assert(',' as u32 == 44);
        }
        lemma_sp_ws_run(s, e2, e2);
        assert(s[e2 + 1] == ra[e2 + 1 - i] && ra[e2 + 1 - i] == ' ');
        let j2 = e2 + 2;
        assert(ident_ok(rest[0].0)) by {
            assert(rest[0] == vals[1]);
        }
        assert(s[j2] == ra[j2 - i] && ra[j2 - i] == render_assigns(rest)[0]);
        assert(render_assigns(rest)[0] == rest[0].0[0]) by {
            let rr = render_assigns(rest);
            if rest.len() == 1 {
                assert(rr =~= rest[0].0 + seq!['='] + render_value(rest[0].1));
            } else {
                assert(rr =~= rest[0].0 + seq!['='] + render_value(rest[0].1) + seq![',', ' ']
                    + render_assigns(rest.subrange(1, rest.len() as int)));
            }
        }
        assert(!is_space_char(s[j2])) by {
            assert(is_alpha_char(rest[0].0[0]));
            assert(' ' as u32 == 32 && '\t' as u32 == 9);
        }
        lemma_sp_ws_run(s, e2 + 1, j2);
        assert forall|k: int|
            0 <= k < render_assigns(rest).len() implies s[j2 + k] == #[trigger] render_assigns(
            rest,
        )[k] by {
            assert(s[j2 + k] == ra[j2 + k - i]);
            assert(ra[j2 + k - i] == render_assigns(rest)[k]);
        }
        lemma_parse_render_assigns(s, j2, rest);
        assert(rest.insert(0, (name, v)) =~= vals) by {
            assert(vals[0] == (vals[0].0, vals[0].1));
        }
    }
}

/// Round trip for INSERT: parsing the canonical text of an INSERT statement
/// yields that statement back.
pub proof fn lemma_parse_render_insert(table: Seq<char>, values: Seq<(Seq<char>, ValueView)>)
    requires
        ident_ok(table),
        values.len() >= 1,
        forall|j: int| 0 <= j < values.len() ==> ident_ok((#[trigger] values[j]).0),
        forall|j: int| 0 <= j < values.len() ==> value_render_ok((#[trigger] values[j]).1),
    ensures
        spec_parse(render_query(QueryView::Insert { table, values })) == Some(
            QueryView::Insert { table, values },
        ),
{
    reveal_strlit("INSERT ");
    reveal_strlit("INSERT");
    reveal_strlit("SELECT");
    reveal_strlit("CREATE");
    let ra = render_assigns(values);
    let s = "INSERT "@ + ra + " INTO "@ + table;
    assert(render_query(QueryView::Insert { table, values }) =~= s);
    assert(forall|k: int| 0 <= k < 7 ==> s[k] == "INSERT "@[k]);
    assert(!is_space_char(s[0]));
    lemma_sp_ws_run(s, 0, 0);
    lemma_not_kw(s, 0, "SELECT"@, 0);
    lemma_not_kw(s, 0, "CREATE"@, 0);
    lemma_kw_at(s, 0, "INSERT"@);
    assert(spec_parse(s) == sp_insert(s, 6));
    lemma_insert_body(s, table, values);
}

/// The body of an INSERT line, from just after the keyword.
#[verifier::rlimit(100)]
#[verifier::spinoff_prover]
proof fn lemma_insert_body(s: Seq<char>, table: Seq<char>, values: Seq<(Seq<char>, ValueView)>)
    requires
        ident_ok(table),
        values.len() >= 1,
        forall|j: int| 0 <= j < values.len() ==> ident_ok((#[trigger] values[j]).0),
        forall|j: int| 0 <= j < values.len() ==> value_render_ok((#[trigger] values[j]).1),
        s == "INSERT "@ + render_assigns(values) + " INTO "@ + table,
    ensures
        sp_insert(s, 6) == Some(QueryView::Insert { table, values }),
{
    reveal_strlit("INSERT ");
    reveal_strlit(" INTO ");
    reveal_strlit("INTO");
    let ra = render_assigns(values);
    let e: int = 7 + ra.len() as int;
    assert(forall|k: int| 0 <= k < 7 ==> s[k] == "INSERT "@[k]);
    assert(forall|k: int| 0 <= k < ra.len() ==> s[7 + k] == #[trigger] ra[k]);
    assert(forall|k: int| 0 <= k < 6 ==> s[e + k] == " INTO "@[k]);
    assert(forall|k: int| 0 <= k < table.len() ==> s[e + 6 + k] == #[trigger] table[k]);
    // One blank, then the assignments.
    assert(is_space_char(s[6]));
    assert(ra.len() >= 1 && ra[0] == values[0].0[0] && is_alpha_char(ra[0])) by {
        if values.len() == 1 {
            assert(ra =~= values[0].0 + seq!['='] + render_value(values[0].1));
        } else {
            assert(ra =~= values[0].0 + seq!['='] + render_value(values[0].1) + seq![',', ' ']
                + render_assigns(values.subrange(1, values.len() as int)));
        }
        assert(ra[0] == values[0].0[0]);
    }
    assert(!is_space_char(s[7])) by {
        assert(s[7] == ra[0]);
        assert(' ' as u32 == 32 && '\t' as u32 == 9);
    }
    lemma_sp_ws_run(s, 6, 7);
    assert(s[e] == ' ' && s[e + 1] == 'I');
    assert(!is_space_char(s[e + 1]) && s[e + 1] != ',') by {
        assert('I' as u32 == 73 && ',' as u32 == 44 && ' ' as u32 == 32 && '\t' as u32 == 9);
    }
    lemma_parse_render_assigns(s, 7, values);
    // One blank, INTO, one blank, the table name to the end.
    lemma_sp_ws_run(s, e, e + 1);
    lemma_kw_at(s, e + 1, "INTO"@);
    assert(is_space_char(s[e + 5]));
    assert(!is_space_char(s[e + 6])) by {
        assert(is_alpha_char(table[0]));
        assert(' ' as u32 == 32 && '\t' as u32 == 9);
    }
    lemma_sp_ws_run(s, e + 5, e + 6);
    assert forall|k: int| e + 6 <= k < s.len() implies is_ident_char(#[trigger] s[k]) by {
        assert(s[k] == table[k - e - 6]);
    }
    lemma_ident_end_run(s, e + 6, s.len() as int);
    assert forall|k: int|
        0 <= k < table.len() implies s.subrange(e + 6, s.len() as int)[k] == table[k] by {
        assert(s[e + 6 + k] == table[k]);
    }
    assert(s.subrange(e + 6, s.len() as int) =~= table);
    lemma_sp_ws_run(s, s.len() as int, s.len() as int);
}

/// The canonical text of a non-empty field list reads back as that list,
/// where a blank and more text follow it.
#[verifier::rlimit(100)]
#[verifier::spinoff_prover]
proof fn lemma_parse_render_fields(s: Seq<char>, i: int, fields: Seq<Seq<char>>)
    requires
        fields.len() >= 1,
        forall|j: int| 0 <= j < fields.len() ==> ident_ok(#[trigger] fields[j]),
        0 <= i,
        i + render_fields(fields).len() + 1 < s.len(),
        forall|k: int|
            0 <= k < render_fields(fields).len() ==> s[i + k] == #[trigger] render_fields(
                fields,
            )[k],
        s[i + render_fields(fields).len()] == ' ',
        !is_space_char(s[i + render_fields(fields).len() + 1]),
        s[i + render_fields(fields).len() + 1] != ',',
    ensures
        sp_ident_list(s, i) == Some((fields, i + render_fields(fields).len())),
    decreases fields.len(),
{
    let rf = render_fields(fields);
    let name = fields[0];
    let rest = fields.subrange(1, fields.len() as int);
    let single = fields.len() == 1;
    if single {
        assert(rf =~= name);
    } else {
        assert(rf =~= name + seq![',', ' '] + render_fields(rest));
    }
    let e = i + name.len();
    assert forall|k: int| i <= k < e implies is_ident_char(#[trigger] s[k]) by {
        assert(s[k] == rf[k - i]);
        assert(rf[k - i] == name[k - i]);
    }
    assert(s[i] == rf[0] && rf[0] == name[0]);
    if single {
        assert(s[e] == ' ');
        assert(!is_ident_char(s[e])) by {
            assert(' ' as u32 == 32);
        }
        lemma_ident_end_run(s, i, e);
        assert forall|k: int| 0 <= k < name.len() implies s.subrange(i, e)[k] == name[k] by {
            assert(s[i + k] == rf[k]);
        }
        assert(s.subrange(i, e) =~= name);
        assert(!is_space_char(s[e + 1]));
        lemma_sp_ws_run(s, e, e + 1);
        assert(s[e + 1] != ',');
        assert(seq![name] =~= fields);
    } else {
        assert(s[e] == rf[name.len() as int] && rf[name.len() as int] == ',');
        assert(!is_ident_char(s[e]) && !is_space_char(s[e])) by {
            assert(',' as u32 == 44);
        }
        lemma_ident_end_run(s, i, e);
        assert forall|k: int| 0 <= k < name.len() implies s.subrange(i, e)[k] == name[k] by {
            assert(s[i + k] == rf[k]);
        }
        assert(s.subrange(i, e) =~= name);
        lemma_sp_ws_run(s, e, e);
        assert(s[e + 1] == rf[e + 1 - i] && rf[e + 1 - i] == ' ');
        let j2 = e + 2;
        assert(ident_ok(rest[0])) by {
            assert(rest[0] == fields[1]);
        }
        assert(s[j2] == rf[j2 - i] && rf[j2 - i] == render_fields(rest)[0]);
        assert(render_fields(rest)[0] == rest[0][0]) by {
            let rr = render_fields(rest);
            if rest.len() == 1 {
                assert(rr =~= rest[0]);
            } else {
                assert(rr =~= rest[0] + seq![',', ' '] + render_fields(
                    rest.subrange(1, rest.len() as int),
                ));
            }
        }
        assert(!is_space_char(s[j2])) by {
            assert(is_alpha_char(rest[0][0]));
            assert(' ' as u32 == 32 && '\t' as u32 == 9);
        }
        lemma_sp_ws_run(s, e + 1, j2);
        assert forall|k: int|
            0 <= k < render_fields(rest).len() implies s[j2 + k] == #[trigger] render_fields(
            rest,
        )[k] by {
            assert(s[j2 + k] == rf[j2 + k - i]);
            assert(rf[j2 + k - i] == render_fields(rest)[k]);
        }
        lemma_parse_render_fields(s, j2, rest);
        assert(rest.insert(0, name) =~= fields);
    }
}

/// The canonical text of an operator reads back as that operator.
proof fn lemma_parse_render_op(s: Seq<char>, i: int, op: Operator)
    requires
        0 <= i,
        i + render_op(op).len() < s.len(),
        forall|k: int| 0 <= k < render_op(op).len() ==> s[i + k] == #[trigger] render_op(op)[k],
        s[i + render_op(op).len()] == ' ',
    ensures
        sp_op(s, i) == Some((op, i + render_op(op).len())),
{
    reveal_strlit("=");
    reveal_strlit("!=");
    reveal_strlit("<");
    reveal_strlit("<=");
    reveal_strlit(">");
    reveal_strlit(">=");
    let ro = render_op(op);
    assert(s[i] == ro[0]);
    match op {
        Operator::Equal => {
            assert(s[i] == '=');
            assert('=' as u32 == 61 && '!' as u32 == 33 && '<' as u32 == 60 && '>' as u32 == 62);
        },
        Operator::NotEqual => {
            assert(s[i] == '!' && s[i + 1] == ro[1] && ro[1] == '=');
        },
        Operator::LessThan => {
            assert(s[i] == '<' && s[i + 1] == ' ');
            assert('=' as u32 == 61 && '!' as u32 == 33 && ' ' as u32 == 32 && '<' as u32 == 60);
        },
        Operator::LessThanOrEqual => {
            assert(s[i] == '<' && s[i + 1] == ro[1] && ro[1] == '=');
            assert('!' as u32 == 33 && '<' as u32 == 60);
        },
        Operator::GreaterThan => {
            assert(s[i] == '>' && s[i + 1] == ' ');
            assert('=' as u32 == 61 && '!' as u32 == 33 && ' ' as u32 == 32 && '>' as u32 == 62
                && '<' as u32 == 60);
        },
        Operator::GreaterThanOrEqual => {
            assert(s[i] == '>' && s[i + 1] == ro[1] && ro[1] == '=');
            assert('!' as u32 == 33 && '>' as u32 == 62 && '<' as u32 == 60);
        },
    }
}

/// Round trip for SELECT: parsing the canonical text of a SELECT statement
/// yields that statement back.
pub proof fn lemma_parse_render_select(
    table: Seq<char>,
    fields: Seq<Seq<char>>,
    condition: Option<ConditionView>,
)
    requires
        ident_ok(table),
        fields.len() >= 1,
        forall|j: int| 0 <= j < fields.len() ==> ident_ok(#[trigger] fields[j]),
        condition matches Some(c) ==> ident_ok(c.column) && value_render_ok(c.value),
    ensures
        spec_parse(render_query(QueryView::Select { table, fields, condition })) == Some(
            QueryView::Select { table, fields, condition },
        ),
{
    reveal_strlit("SELECT ");
    reveal_strlit("SELECT");
    let q = QueryView::Select { table, fields, condition };
    let s = render_query(q);
    assert(forall|k: int| 0 <= k < 7 ==> s[k] == "SELECT "@[k]) by {
        match condition {
            Option::Some(c) => {
                assert(s =~= "SELECT "@ + (render_fields(fields) + " FROM "@ + table + " WHERE "@
                    + c.column + seq![' '] + render_op(c.operator) + seq![' '] + render_value(
                    c.value,
                )));
            },
            Option::None => {
                assert(s =~= "SELECT "@ + (render_fields(fields) + " FROM "@ + table));
            },
        }
    }
    assert(!is_space_char(s[0]));
    lemma_sp_ws_run(s, 0, 0);
    lemma_kw_at(s, 0, "SELECT"@);
    assert(spec_parse(s) == sp_select(s, 6));
    lemma_select_body(table, fields, condition);
}

/// The body of a SELECT line, from just after the keyword.
#[verifier::rlimit(100)]
#[verifier::spinoff_prover]
proof fn lemma_select_body(
    table: Seq<char>,
    fields: Seq<Seq<char>>,
    condition: Option<ConditionView>,
)
    requires
        ident_ok(table),
        fields.len() >= 1,
        forall|j: int| 0 <= j < fields.len() ==> ident_ok(#[trigger] fields[j]),
        condition matches Some(c) ==> ident_ok(c.column) && value_render_ok(c.value),
    ensures
        sp_select(render_query(QueryView::Select { table, fields, condition }), 6) == Some(
            QueryView::Select { table, fields, condition },
        ),
{
    reveal_strlit("SELECT ");
    reveal_strlit(" FROM ");
    reveal_strlit("FROM");
    reveal_strlit(" WHERE ");
    reveal_strlit("WHERE");
    let s = render_query(QueryView::Select { table, fields, condition });
    let rf = render_fields(fields);
    let e: int = 7 + rf.len() as int;
    let e2: int = e + 6 + table.len() as int;
    let head = "SELECT "@ + rf + " FROM "@ + table;
    match condition {
        Option::Some(c) => {
            assert(s =~= head + " WHERE "@ + c.column + seq![' '] + render_op(c.operator) + seq![
                ' ',
            ] + render_value(c.value));
        },
        Option::None => {
            assert(s =~= head);
        },
    }
    assert(forall|k: int| 0 <= k < 7 ==> s[k] == "SELECT "@[k]);
    assert(forall|k: int| 0 <= k < rf.len() ==> s[7 + k] == #[trigger] rf[k]);
    assert(forall|k: int| 0 <= k < 6 ==> s[e + k] == " FROM "@[k]);
    assert(forall|k: int| 0 <= k < table.len() ==> s[e + 6 + k] == #[trigger] table[k]);
    // One blank, then the field list.
    assert(is_space_char(s[6]));
    assert(rf.len() >= 1 && rf[0] == fields[0][0] && is_alpha_char(rf[0])) by {
        if fields.len() == 1 {
            assert(rf =~= fields[0]);
        } else {
            assert(rf =~= fields[0] + seq![',', ' '] + render_fields(
                fields.subrange(1, fields.len() as int),
            ));
        }
    }
    assert(!is_space_char(s[7])) by {
        assert(s[7] == rf[0]);
        assert(' ' as u32 == 32 && '\t' as u32 == 9);
    }
    lemma_sp_ws_run(s, 6, 7);
    assert(s[e] == ' ' && s[e + 1] == 'F');
    assert(!is_space_char(s[e + 1]) && s[e + 1] != ',') by {
        assert('F' as u32 == 70 && ',' as u32 == 44 && ' ' as u32 == 32 && '\t' as u32 == 9);
    }
    lemma_parse_render_fields(s, 7, fields);
    // One blank, FROM, one blank, then the table name.
    lemma_sp_ws_run(s, e, e + 1);
    lemma_kw_at(s, e + 1, "FROM"@);
    assert(is_space_char(s[e + 5]));
    assert(!is_space_char(s[e + 6])) by {
        assert(is_alpha_char(table[0]));
        assert(' ' as u32 == 32 && '\t' as u32 == 9);
    }
    lemma_sp_ws_run(s, e + 5, e + 6);
    assert forall|k: int| e + 6 <= k < e2 implies is_ident_char(#[trigger] s[k]) by {
        assert(s[k] == table[k - e - 6]);
    }
    match condition {
        Option::None => {
            lemma_ident_end_run(s, e + 6, s.len() as int);
            assert forall|k: int|
                0 <= k < table.len() implies s.subrange(e + 6, s.len() as int)[k] == table[k] by {
                assert(s[e + 6 + k] == table[k]);
            }
            assert(s.subrange(e + 6, s.len() as int) =~= table);
            lemma_sp_ws_run(s, s.len() as int, s.len() as int);
        },
        Option::Some(c) => {
            let col = c.column;
            let ro = render_op(c.operator);
            let rv = render_value(c.value);
            let w: int = e2 + 7;
            let ce: int = w + col.len() as int;
            let oe: int = ce + 1 + ro.len() as int;
            assert(forall|k: int| 0 <= k < 7 ==> s[e2 + k] == " WHERE "@[k]);
            assert(forall|k: int| 0 <= k < col.len() ==> s[w + k] == #[trigger] col[k]);
            assert(s[ce] == ' ');
            assert(forall|k: int| 0 <= k < ro.len() ==> s[ce + 1 + k] == #[trigger] ro[k]);
            assert(s[oe] == ' ');
            assert(forall|k: int| 0 <= k < rv.len() ==> s[oe + 1 + k] == #[trigger] rv[k]);
            assert(s.len() == oe + 1 + rv.len());
            // The table name stops at the blank before WHERE.
            assert(s[e2] == ' ');
            assert(!is_ident_char(s[e2])) by {
                assert(' ' as u32 == 32);
            }
            lemma_ident_end_run(s, e + 6, e2);
            assert forall|k: int|
                0 <= k < table.len() implies s.subrange(e + 6, e2)[k] == table[k] by {
                assert(s[e + 6 + k] == table[k]);
            }
            assert(s.subrange(e + 6, e2) =~= table);
            assert(s[e2 + 1] == 'W' && !is_space_char(s[e2 + 1]));
            lemma_sp_ws_run(s, e2, e2 + 1);
            assert(e2 + 1 < s.len());
            lemma_kw_at(s, e2 + 1, "WHERE"@);
            lemma_where_tail(s, e2 + 6, table, fields, c);
        },
    }
}

/// The tail of a WHERE clause, from just after the keyword.
#[verifier::rlimit(100)]
#[verifier::spinoff_prover]
proof fn lemma_where_tail(
    s: Seq<char>,
    i: int,
    table: Seq<char>,
    names: Seq<Seq<char>>,
    c: ConditionView,
)
    requires
        ident_ok(c.column),
        value_render_ok(c.value),
        0 <= i < s.len(),
        is_space_char(s[i]),
        ({
            let w = i + 1;
            let ce = w + c.column.len() as int;
            let oe = ce + 1 + render_op(c.operator).len() as int;
            &&& forall|k: int| 0 <= k < c.column.len() ==> s[w + k] == #[trigger] c.column[k]
            &&& s[ce] == ' '
            &&& forall|k: int|
                0 <= k < render_op(c.operator).len() ==> s[ce + 1 + k] == #[trigger] render_op(
                    c.operator,
                )[k]
            &&& s[oe] == ' '
            &&& forall|k: int|
                0 <= k < render_value(c.value).len() ==> s[oe + 1 + k] == #[trigger] render_value(
                    c.value,
                )[k]
            &&& s.len() == oe + 1 + render_value(c.value).len()
        }),
    ensures
        sp_where(s, i, table, names) == Some(
            QueryView::Select { table, fields: names, condition: Some(c) },
        ),
{
    let col = c.column;
    let ro = render_op(c.operator);
    let rv = render_value(c.value);
    let w: int = i + 1;
    let ce: int = w + col.len() as int;
    let oe: int = ce + 1 + ro.len() as int;
    assert(!is_space_char(s[w])) by {
        assert(s[w] == col[0]);
        assert(is_alpha_char(col[0]));
        assert(' ' as u32 == 32 && '\t' as u32 == 9);
    }
    lemma_sp_ws_run(s, i, w);
    assert forall|k: int| w <= k < ce implies is_ident_char(#[trigger] s[k]) by {
        assert(s[k] == col[k - w]);
    }
    assert(!is_ident_char(s[ce])) by {
        assert(' ' as u32 == 32);
    }
    assert(is_alpha_char(s[w])) by {
        assert(s[w] == col[0]);
    }
    lemma_ident_end_run(s, w, ce);
    assert forall|k: int| 0 <= k < col.len() implies s.subrange(w, ce)[k] == col[k] by {
        assert(s[w + k] == col[k]);
    }
    assert(s.subrange(w, ce) =~= col);
    lemma_op_head(c.operator);
    assert(!is_space_char(s[ce + 1])) by {
        assert(s[ce + 1] == ro[0]);
    }
    lemma_sp_ws_run(s, ce, ce + 1);
    lemma_parse_render_op(s, ce + 1, c.operator);
    lemma_value_head_not_space(c.value);
    assert(!is_space_char(s[oe + 1])) by {
        assert(s[oe + 1] == rv[0]);
    }
    lemma_sp_ws_run(s, oe, oe + 1);
    lemma_parse_render_value(s, oe + 1, c.value);
    lemma_sp_ws_run(s, s.len() as int, s.len() as int);
    assert(ConditionView { column: s.subrange(w, ce), operator: c.operator, value: c.value }
        =~= c);
}


/// The first character of a rendered operator is never a blank.
proof fn lemma_op_head(op: Operator)
    ensures
        render_op(op).len() >= 1,
        !is_space_char(render_op(op)[0]),
{
    reveal_strlit("=");
    reveal_strlit("!=");
    reveal_strlit("<");
    reveal_strlit("<=");
    reveal_strlit(">");
    reveal_strlit(">=");
    assert('=' as u32 == 61 && '!' as u32 == 33 && '<' as u32 == 60 && '>' as u32 == 62 && ' '
        as u32 == 32 && '\t' as u32 == 9);
    match op {
        Operator::Equal => {},
        Operator::NotEqual => {},
        Operator::LessThan => {},
        Operator::LessThanOrEqual => {},
        Operator::GreaterThan => {},
        Operator::GreaterThanOrEqual => {},
    }
}

/// What a statement needs for its canonical text to read back: names match
/// the identifier grammar, lists are non-empty, texts hold no quote, paths
/// hold no blank.
pub open spec fn query_render_ok(q: QueryView) -> bool {
    match q {
        QueryView::Select { table, fields, condition } => ident_ok(table) && fields.len() >= 1 && (
        forall|j: int| 0 <= j < fields.len() ==> ident_ok(#[trigger] fields[j])) && (
        condition matches Some(c) ==> ident_ok(c.column) && value_render_ok(c.value)),
        QueryView::Create { table, pk, columns } => ident_ok(table) && ident_ok(pk)
            && columns.len() >= 1 && (forall|j: int|
            0 <= j < columns.len() ==> ident_ok((#[trigger] columns[j]).0)),
        QueryView::Insert { table, values } => ident_ok(table) && values.len() >= 1 && (forall|
            j: int,
        |
            0 <= j < values.len() ==> ident_ok((#[trigger] values[j]).0)) && (forall|j: int|
            0 <= j < values.len() ==> value_render_ok((#[trigger] values[j]).1)),
        QueryView::Delete { table, key_value } => ident_ok(table) && value_render_ok(key_value),
        QueryView::SaveAs(p) => path_ok(p),
        QueryView::ReadFrom(p) => path_ok(p),
    }
}

/// Round trip: parsing the text produced by a statement's canonical
/// rendering yields an equivalent statement.
pub proof fn lemma_parse_render(q: QueryView)
    requires
        query_render_ok(q),
    ensures
        spec_parse(render_query(q)) == Some(q),
{
    match q {
        QueryView::Select { table, fields, condition } => {
            lemma_parse_render_select(table, fields, condition);
        },
        QueryView::Create { table, pk, columns } => {
            lemma_parse_render_create(table, pk, columns);
        },
        QueryView::Insert { table, values } => {
            lemma_parse_render_insert(table, values);
        },
        QueryView::Delete { table, key_value } => {
            lemma_parse_render_delete(table, key_value);
        },
        QueryView::SaveAs(p) => {
            lemma_parse_render_path(p, true);
        },
        QueryView::ReadFrom(p) => {
            lemma_parse_render_path(p, false);
        },
    }
}

// ---------------------------------------------------------------------------
// Writing a statement back out
// ---------------------------------------------------------------------------

/// Appends the canonical text of a value, quotes and all.
fn append_value_render(out: &mut Vec<char>, v: &Value)
    ensures
        final(out)@ == old(out)@ + render_value(v@),
{
    match v {
        Value::Int(n) => {
            let t = crate::text::int_text(*n);
            crate::text::append_str_chars(out, t.as_str());
        },
        Value::String(t) => {
            let ghost pre = out@;
            out.push('"');
            crate::text::append_str_chars(out, t.as_str());
            out.push('"');
            proof {
                assert(out@ =~= pre + render_value(v@));
            }
        },
        Value::Bool(b) => {
            if *b {
                crate::text::append_str_chars(out, "true");
            } else {
                crate::text::append_str_chars(out, "false");
            }
        },
        Value::Float(d) => {
            let ghost pre = out@;
            if d.neg {
                out.push('-');
            }
            crate::text::append_vec_chars(out, &d.int_digits);
            out.push('.');
            crate::text::append_vec_chars(out, &d.frac_digits);
            proof {
                assert(out@ =~= pre + crate::domain::dec_text(d@));
            }
        },
    }
}

/// Appends the canonical text of an operator.
fn append_op_render(out: &mut Vec<char>, op: &Operator)
    ensures
        final(out)@ == old(out)@ + render_op(*op),
{
    match op {
        Operator::Equal => crate::text::append_str_chars(out, "="),
        Operator::NotEqual => crate::text::append_str_chars(out, "!="),
        Operator::GreaterThan => crate::text::append_str_chars(out, ">"),
        Operator::GreaterThanOrEqual => crate::text::append_str_chars(out, ">="),
        Operator::LessThan => crate::text::append_str_chars(out, "<"),
        Operator::LessThanOrEqual => crate::text::append_str_chars(out, "<="),
    }
}

/// Appends the field names from `i` on, separated by `", "`.
fn append_fields_render(out: &mut Vec<char>, fields: &Vec<String>, i: usize)
    requires
        i < fields@.len(),
    ensures
        final(out)@ == old(out)@ + render_fields(
            fields_view(fields@).subrange(i as int, fields@.len() as int),
        ),
    decreases fields@.len() - i,
{
    let ghost fv = fields_view(fields@).subrange(i as int, fields@.len() as int);
    crate::text::append_str_chars(out, fields[i].as_str());
    if i < fields.len() - 1 {
        out.push(',');
        out.push(' ');
        append_fields_render(out, fields, i + 1);
        proof {
            assert(fv.subrange(1, fv.len() as int) =~= fields_view(fields@).subrange(
                i + 1 as int,
                fields@.len() as int,
            ));
            assert(fv[0] == fields@[i as int]@);
            assert(out@ =~= old(out)@ + render_fields(fv));
        }
    } else {
        proof {
            assert(fv.len() == 1);
            assert(fv[0] == fields@[i as int]@);
            assert(out@ =~= old(out)@ + render_fields(fv));
        }
    }
}

/// Appends the column declarations from `i` on, separated by `", "`.
fn append_columns_render(out: &mut Vec<char>, cols: &Vec<(String, DataType)>, i: usize)
    requires
        i < cols@.len(),
    ensures
        final(out)@ == old(out)@ + render_columns(
            crate::domain::schema_view(cols@).subrange(i as int, cols@.len() as int),
        ),
    decreases cols@.len() - i,
{
    let ghost cv = crate::domain::schema_view(cols@).subrange(i as int, cols@.len() as int);
    crate::text::append_str_chars(out, cols[i].0.as_str());
    out.push(':');
    match cols[i].1 {
        DataType::Int => crate::text::append_str_chars(out, "Int"),
        DataType::Float => crate::text::append_str_chars(out, "Float"),
        DataType::Bool => crate::text::append_str_chars(out, "Bool"),
        DataType::String => crate::text::append_str_chars(out, "String"),
    }
    proof {
        assert(cv[0] == (cols@[i as int].0@, cols@[i as int].1));
    }
    if i < cols.len() - 1 {
        out.push(',');
        out.push(' ');
        append_columns_render(out, cols, i + 1);
        proof {
            assert(cv.subrange(1, cv.len() as int) =~= crate::domain::schema_view(
                cols@,
            ).subrange(i + 1 as int, cols@.len() as int));
            assert(out@ =~= old(out)@ + render_columns(cv));
        }
    } else {
        proof {
            assert(cv.len() == 1);
            assert(out@ =~= old(out)@ + render_columns(cv));
        }
    }
}

/// Appends the assignments from `i` on, separated by `", "`.
fn append_assigns_render(out: &mut Vec<char>, vals: &Vec<(String, Value)>, i: usize)
    requires
        i < vals@.len(),
    ensures
        final(out)@ == old(out)@ + render_assigns(
            assigns_view(vals@).subrange(i as int, vals@.len() as int),
        ),
    decreases vals@.len() - i,
{
    let ghost av = assigns_view(vals@).subrange(i as int, vals@.len() as int);
    crate::text::append_str_chars(out, vals[i].0.as_str());
    out.push('=');
    append_value_render(out, &vals[i].1);
    proof {
        assert(av[0] == (vals@[i as int].0@, vals@[i as int].1@));
    }
    if i < vals.len() - 1 {
        out.push(',');
        out.push(' ');
        append_assigns_render(out, vals, i + 1);
        proof {
            assert(av.subrange(1, av.len() as int) =~= assigns_view(vals@).subrange(
                i + 1 as int,
                vals@.len() as int,
            ));
            assert(out@ =~= old(out)@ + render_assigns(av));
        }
    } else {
        proof {
            assert(av.len() == 1);
            assert(out@ =~= old(out)@ + render_assigns(av));
        }
    }
}

/// The canonical one-line text of a statement; parsing it yields the
/// statement back whenever `query_render_ok` holds of it.
pub fn render(q: &Query) -> (r: String)
    requires
        match q {
            Query::Select { fields, .. } => fields@.len() >= 1,
            Query::Create { columns, .. } => columns@.len() >= 1,
            Query::Insert { values, .. } => values@.len() >= 1,
            _ => true,
        },
    ensures
        r@ == render_query(q@),
{
    let mut out: Vec<char> = Vec::new();
    match q {
        Query::Select { table, fields, condition } => {
            crate::text::append_str_chars(&mut out, "SELECT ");
            append_fields_render(&mut out, fields, 0);
            crate::text::append_str_chars(&mut out, " FROM ");
            crate::text::append_str_chars(&mut out, table.as_str());
            proof {
                assert(fields_view(fields@).subrange(0, fields@.len() as int) =~= fields_view(
                    fields@,
                ));
            }
            if let Some(c) = condition {
                crate::text::append_str_chars(&mut out, " WHERE ");
                crate::text::append_str_chars(&mut out, c.column.as_str());
                out.push(' ');
                append_op_render(&mut out, &c.operator);
                out.push(' ');
                append_value_render(&mut out, &c.value);
                proof {
                    assert(out@ =~= render_query(q@));
                }
            } else {
                proof {
                    assert(out@ =~= render_query(q@));
                }
            }
        },
        Query::Create { table, pk, columns } => {
            crate::text::append_str_chars(&mut out, "CREATE ");
            crate::text::append_str_chars(&mut out, table.as_str());
            crate::text::append_str_chars(&mut out, " KEY ");
            crate::text::append_str_chars(&mut out, pk.as_str());
            crate::text::append_str_chars(&mut out, " FIELDS ");
            append_columns_render(&mut out, columns, 0);
            proof {
                assert(crate::domain::schema_view(columns@).subrange(0, columns@.len() as int)
                    =~= crate::domain::schema_view(columns@));
                assert(out@ =~= render_query(q@));
            }
        },
        Query::Insert { table, values } => {
            crate::text::append_str_chars(&mut out, "INSERT ");
            append_assigns_render(&mut out, values, 0);
            crate::text::append_str_chars(&mut out, " INTO ");
            crate::text::append_str_chars(&mut out, table.as_str());
            proof {
                assert(assigns_view(values@).subrange(0, values@.len() as int) =~= assigns_view(
                    values@,
                ));
                assert(out@ =~= render_query(q@));
            }
        },
        Query::Delete { table, key_value } => {
            crate::text::append_str_chars(&mut out, "DELETE ");
            append_value_render(&mut out, key_value);
            crate::text::append_str_chars(&mut out, " FROM ");
            crate::text::append_str_chars(&mut out, table.as_str());
            proof {
                assert(out@ =~= render_query(q@));
            }
        },
        Query::SaveAs(p) => {
            crate::text::append_str_chars(&mut out, "SAVE_AS ");
            crate::text::append_str_chars(&mut out, p.as_str());
            proof {
                assert(out@ =~= render_query(q@));
            }
        },
        Query::ReadFrom(p) => {
            crate::text::append_str_chars(&mut out, "READ_FROM ");
            crate::text::append_str_chars(&mut out, p.as_str());
            proof {
                assert(out@ =~= render_query(q@));
            }
        },
    }
    string_from_chars(&out)
}

// ---------------------------------------------------------------------------
// Reading the grammar, production by production
// ---------------------------------------------------------------------------

fn ch_is_ident(c: char) -> (r: bool)
    ensures
        r == is_ident_char(c),
{
    let u = c as u32;
    (65 <= u && u <= 90) || (97 <= u && u <= 122) || (48 <= u && u <= 57) || c == '_'
}

fn ch_is_digit(c: char) -> (r: bool)
    ensures
        r == is_digit_char(c),
{
    let u = c as u32;
    48 <= u && u <= 57
}

fn e_ws(v: &Vec<char>, i: usize) -> (j: usize)
    requires
        i <= v@.len(),
    ensures
        i <= j <= v@.len(),
        j == sp_ws(v@, i as int),
{
    let n = v.len();
    let mut j: usize = i;
    while j < n && (v[j] == ' ' || v[j] == '\t')
        invariant
            i <= j <= n,
            n == v@.len(),
            sp_ws(v@, i as int) == sp_ws(v@, j as int),
        decreases n - j,
    {
        j = j + 1;
    }
    j
}

fn e_req_ws(v: &Vec<char>, i: usize) -> (r: Option<usize>)
    requires
        i <= v@.len(),
    ensures
        match r {
            Option::Some(j) => sp_req_ws(v@, i as int) == Some(j as int) && i <= j <= v@.len(),
            Option::None => sp_req_ws(v@, i as int) is None,
        },
{
    if i < v.len() && (v[i] == ' ' || v[i] == '\t') {
        Some(e_ws(v, i))
    } else {
        None
    }
}

fn e_ident(v: &Vec<char>, i: usize) -> (r: Option<(String, usize)>)
    requires
        i <= v@.len(),
    ensures
        match r {
            Option::Some((name, j)) => sp_ident(v@, i as int) == Some((name@, j as int)) && i < j
                <= v@.len(),
            Option::None => sp_ident(v@, i as int) is None,
        },
{
    let n = v.len();
    if i < n {
        let c0 = v[i] as u32;
        if (65 <= c0 && c0 <= 90) || (97 <= c0 && c0 <= 122) {
            let mut j: usize = i;
            while j < n && ch_is_ident(v[j])
                invariant
                    i <= j <= n,
                    n == v@.len(),
                    ident_end(v@, i as int) == ident_end(v@, j as int),
                    j > i || is_ident_char(v@[i as int]),
                decreases n - j,
            {
                j = j + 1;
            }
            proof {
                assert(is_alpha_char(v@[i as int]));
                assert(is_ident_char(v@[i as int]));
                assert(ident_end(v@, i as int) == j);
                assert(j > i) by {
                    if ident_end(v@, i as int) == i as int {
                    }
                }
            }
            let name = string_from_chars(&copy_range(v, i, j));
            return Some((name, j));
        }
        proof {
            assert(!is_alpha_char(v@[i as int]));
        }
    }
    None
}

/// Whether the keyword's characters stand at position `i`.
fn e_kw(v: &Vec<char>, i: usize, kw: &str) -> (r: Option<usize>)
    requires
        i <= v@.len(),
    ensures
        match r {
            Option::Some(j) => has_kw(v@, i as int, kw@) && j == i + kw@.len() && j <= v@.len(),
            Option::None => !has_kw(v@, i as int, kw@),
        },
{
    let m = kw.unicode_len();
    let n = v.len();
    if m > n - i {
        return None;
    }
    let mut k: usize = 0;
    while k < m
        invariant
            k <= m,
            m == kw@.len(),
            n == v@.len(),
            i + m <= n,
            forall|p: int| 0 <= p < k ==> v@[i + p] == kw@[p],
        decreases m - k,
    {
        let a = v[i + k];
        let b = kw.get_char(k);
        if a as u32 != b as u32 {
            proof {
                assert(v@[i + k as int] != kw@[k as int]) by {
                    if v@[i + k as int] == kw@[k as int] {
                    }
                }
                assert(!has_kw(v@, i as int, kw@)) by {
                    if has_kw(v@, i as int, kw@) {
                        let kk = k as int;
                        assert(v@.subrange(i as int, i + kw@.len() as int)[kk] == kw@[kk]);
                    }
                }
            }
            return None;
        }
        proof {
            vstd::utf8::char_u32_cast(a, a as u32);
            vstd::utf8::char_u32_cast(b, b as u32);
        }
        k = k + 1;
    }
    proof {
        assert(v@.subrange(i as int, i + m as int) =~= kw@);
    }
    Some(i + m)
}

fn e_digit_end(v: &Vec<char>, i: usize) -> (j: usize)
    requires
        i <= v@.len(),
    ensures
        i <= j <= v@.len(),
        j == digit_end(v@, i as int),
        forall|p: int| i <= p < j ==> is_digit_char(#[trigger] v@[p]),
{
    let n = v.len();
    let mut j: usize = i;
    while j < n && ch_is_digit(v[j])
        invariant
            i <= j <= n,
            n == v@.len(),
            digit_end(v@, i as int) == digit_end(v@, j as int),
            forall|p: int| i <= p < j ==> is_digit_char(#[trigger] v@[p]),
        decreases n - j,
    {
        j = j + 1;
    }
    j
}

fn e_quote_end(v: &Vec<char>, i: usize) -> (j: usize)
    requires
        i <= v@.len(),
    ensures
        i <= j <= v@.len(),
        j == quote_end(v@, i as int),
{
    let n = v.len();
    let mut j: usize = i;
    while j < n && v[j] != '"'
        invariant
            i <= j <= n,
            n == v@.len(),
            quote_end(v@, i as int) == quote_end(v@, j as int),
        decreases n - j,
    {
        j = j + 1;
    }
    j
}

fn e_path_end(v: &Vec<char>, i: usize) -> (j: usize)
    requires
        i <= v@.len(),
    ensures
        i <= j <= v@.len(),
        j == path_end(v@, i as int),
{
    let n = v.len();
    let mut j: usize = i;
    while j < n && !(v[j] == ' ' || v[j] == '\t')
        invariant
            i <= j <= n,
            n == v@.len(),
            path_end(v@, i as int) == path_end(v@, j as int),
        decreases n - j,
    {
        j = j + 1;
    }
    j
}

fn e_value(v: &Vec<char>, i: usize) -> (r: Option<(Value, usize)>)
    requires
        i <= v@.len(),
    ensures
        match r {
            Option::Some((val, j)) => sp_value(v@, i as int) == Some((val@, j as int)) && j
                <= v@.len() && val.wf(),
            Option::None => sp_value(v@, i as int) is None,
        },
{
    let n = v.len();
    if i < n && v[i] == '"' {
        let e = e_quote_end(v, i + 1);
        if e < n {
            let text = string_from_chars(&copy_range(v, i + 1, e));
            return Some((Value::String(text), e + 1));
        }
        return None;
    }
    if let Some(j) = e_kw(v, i, "true") {
        return Some((Value::Bool(true), j));
    }
    if let Some(j) = e_kw(v, i, "false") {
        return Some((Value::Bool(false), j));
    }
    let start = if i < n && v[i] == '-' {
        i + 1
    } else {
        i
    };
    let de = e_digit_end(v, start);
    if de == start {
        return None;
    }
    if de < n && v[de] == '.' {
        let fe = e_digit_end(v, de + 1);
        if fe > de + 1 {
            let d = Decimal {
                neg: start > i,
                int_digits: copy_range(v, start, de),
                frac_digits: copy_range(v, de + 1, fe),
            };
            return Some((Value::Float(d), fe));
        }
    }
    match chars_to_i64(v, i, de) {
        Some(x) => Some((Value::Int(x), de)),
        None => {
            proof {
                let tok = v@.subrange(i as int, de as int);
                // The token matches `-?[0-9]+` by construction, so only the
                // range check can have failed.
                assert(is_int_literal(tok)) by {
                    if i < start {
                        assert(tok[0] == '-');
                        assert(tok.subrange(1, tok.len() as int) =~= v@.subrange(
                            start as int,
                            de as int,
                        ));
                    } else {
                        assert(tok =~= v@.subrange(start as int, de as int));
                    }
                }
            }
            None
        },
    }
}

fn e_op(v: &Vec<char>, i: usize) -> (r: Option<(Operator, usize)>)
    requires
        i <= v@.len(),
    ensures
        match r {
            Option::Some((op, j)) => sp_op(v@, i as int) == Some((op, j as int)) && j <= v@.len(),
            Option::None => sp_op(v@, i as int) is None,
        },
{
    let n = v.len();
    if i < n {
        if v[i] == '!' && i + 1 < n && v[i + 1] == '=' {
            return Some((Operator::NotEqual, i + 2));
        }
        if v[i] == '<' && i + 1 < n && v[i + 1] == '=' {
            return Some((Operator::LessThanOrEqual, i + 2));
        }
        if v[i] == '>' && i + 1 < n && v[i + 1] == '=' {
            return Some((Operator::GreaterThanOrEqual, i + 2));
        }
        if v[i] == '=' {
            return Some((Operator::Equal, i + 1));
        }
        if v[i] == '<' {
            return Some((Operator::LessThan, i + 1));
        }
        if v[i] == '>' {
            return Some((Operator::GreaterThan, i + 1));
        }
    }
    None
}

fn e_ident_list(v: &Vec<char>, i: usize) -> (r: Option<(Vec<String>, usize)>)
    requires
        i <= v@.len(),
    ensures
        match r {
            Option::Some((names, j)) => sp_ident_list(v@, i as int) == Some(
                (fields_view(names@), j as int),
            ) && j <= v@.len(),
            Option::None => sp_ident_list(v@, i as int) is None,
        },
    decreases v@.len() - i,
{
    match e_ident(v, i) {
        None => None,
        Some((name, e)) => {
            let jc = e_ws(v, e);
            if jc < v.len() && v[jc] == ',' {
                let jn = e_ws(v, jc + 1);
                if i < jn {
                    match e_ident_list(v, jn) {
                        None => None,
                        Some((mut rest, e2)) => {
                            let ghost rest_view = fields_view(rest@);
                            rest.insert(0, name);
                            proof {
                                assert(fields_view(rest@) =~= rest_view.insert(0, name@));
                            }
                            Some((rest, e2))
                        },
                    }
                } else {
                    None
                }
            } else {
                proof {
                    assert(fields_view(seq![name]) =~= seq![name@]);
                }
                Some((vec![name], e))
            }
        },
    }
}

fn e_col_list(v: &Vec<char>, i: usize) -> (r: Option<(Vec<(String, DataType)>, usize)>)
    requires
        i <= v@.len(),
    ensures
        match r {
            Option::Some((cols, j)) => sp_col_list(v@, i as int) == Some(
                (crate::domain::schema_view(cols@), j as int),
            ) && j <= v@.len(),
            Option::None => sp_col_list(v@, i as int) is None,
        },
    decreases v@.len() - i,
{
    match e_ident(v, i) {
        None => None,
        Some((name, e)) => {
            let jc = e_ws(v, e);
            if jc < v.len() && v[jc] == ':' {
                let jt = e_ws(v, jc + 1);
                let ty: Option<(DataType, usize)> = if let Some(j) = e_kw(v, jt, "Int") {
                    Some((DataType::Int, j))
                } else if let Some(j) = e_kw(v, jt, "Float") {
                    Some((DataType::Float, j))
                } else if let Some(j) = e_kw(v, jt, "Bool") {
                    Some((DataType::Bool, j))
                } else if let Some(j) = e_kw(v, jt, "String") {
                    Some((DataType::String, j))
                } else {
                    None
                };
                match ty {
                    None => None,
                    Some((dt, e2)) => {
                        let jn = e_ws(v, e2);
                        if jn < v.len() && v[jn] == ',' {
                            let j2 = e_ws(v, jn + 1);
                            if i < j2 {
                                match e_col_list(v, j2) {
                                    None => None,
                                    Some((mut rest, e3)) => {
                                        let ghost rest_view = crate::domain::schema_view(rest@);
                                        rest.insert(0, (name, dt));
                                        proof {
                                            assert(crate::domain::schema_view(rest@)
                                                =~= rest_view.insert(0, (name@, dt)));
                                        }
                                        Some((rest, e3))
                                    },
                                }
                            } else {
                                None
                            }
                        } else {
                            proof {
                                assert(crate::domain::schema_view(seq![(name, dt)]) =~= seq![
                                    (name@, dt),
                                ]);
                            }
                            Some((vec![(name, dt)], e2))
                        }
                    },
                }
            } else {
                None
            }
        },
    }
}

fn e_assign_list(v: &Vec<char>, i: usize) -> (r: Option<(Vec<(String, Value)>, usize)>)
    requires
        i <= v@.len(),
    ensures
        match r {
            Option::Some((vals, j)) => sp_assign_list(v@, i as int) == Some(
                (assigns_view(vals@), j as int),
            ) && j <= v@.len() && record_wf(assigns_view(vals@)),
            Option::None => sp_assign_list(v@, i as int) is None,
        },
    decreases v@.len() - i,
{
    match e_ident(v, i) {
        None => None,
        Some((name, e)) => {
            let je = e_ws(v, e);
            if je < v.len() && v[je] == '=' {
                let jv = e_ws(v, je + 1);
                match e_value(v, jv) {
                    None => None,
                    Some((val, e2)) => {
                        let jn = e_ws(v, e2);
                        if jn < v.len() && v[jn] == ',' {
                            let j2 = e_ws(v, jn + 1);
                            if i < j2 {
                                match e_assign_list(v, j2) {
                                    None => None,
                                    Some((mut rest, e3)) => {
                                        let ghost rest_view = assigns_view(rest@);
                                        let ghost vv = val@;
                                        rest.insert(0, (name, val));
                                        proof {
                                            let nv = assigns_view(rest@);
                                            assert(nv =~= rest_view.insert(0, (name@, vv)));
                                            assert forall|k: int|
                                                0 <= k < nv.len() implies value_wf(
                                                (#[trigger] nv[k]).1,
                                            ) by {
                                                if k > 0 {
                                                    assert(nv[k] == rest_view[k - 1]);
                                                }
                                            }
                                        }
                                        Some((rest, e3))
                                    },
                                }
                            } else {
                                None
                            }
                        } else {
                            let ghost vv = val@;
                            let out = vec![(name, val)];
                            proof {
                                let nv = assigns_view(out@);
                                assert(nv =~= seq![(name@, vv)]);
                                assert forall|k: int|
                                    0 <= k < nv.len() implies value_wf((#[trigger] nv[k]).1) by {
                                    assert(nv[k] == (name@, vv));
                                }
                            }
                            Some((out, e2))
                        }
                    },
                }
            } else {
                None
            }
        },
    }
}

/// Reads one line of query text into a statement, or reports a syntax
/// error.  Parsing never partially succeeds: either the whole line matches
/// one of the six statement forms, or nothing is produced.
pub fn parse(input: &str) -> (r: DbResult<Query>)
    ensures
        (r is Ok) == (spec_parse(input@) is Some),
        r matches Ok(q) ==> spec_parse(input@) == Some(q@) && query_view_wf(q@),
        r matches Err(e) ==> e is SyntaxError,
{
    let v = chars_of(input);
    let i0 = e_ws(&v, 0);
    let parsed: Option<Query> = if let Some(j) = e_kw(&v, i0, "SELECT") {
        e_select(&v, j)
    } else if let Some(j) = e_kw(&v, i0, "CREATE") {
        e_create(&v, j)
    } else if let Some(j) = e_kw(&v, i0, "INSERT") {
        e_insert(&v, j)
    } else if let Some(j) = e_kw(&v, i0, "DELETE") {
        e_delete(&v, j)
    } else if let Some(j) = e_kw(&v, i0, "SAVE_AS") {
        e_path_cmd(&v, j, true)
    } else if let Some(j) = e_kw(&v, i0, "READ_FROM") {
        e_path_cmd(&v, j, false)
    } else {
        None
    };
    match parsed {
        Some(q) => Ok(q),
        None => Err(DbError::SyntaxError("Invalid query format".to_owned())),
    }
}

fn e_select(v: &Vec<char>, i: usize) -> (r: Option<Query>)
    requires
        i <= v@.len(),
    ensures
        match r {
            Option::Some(q) => sp_select(v@, i as int) == Some(q@) && query_view_wf(q@),
            Option::None => sp_select(v@, i as int) is None,
        },
{
    let j = match e_req_ws(v, i) {
        Some(j) => j,
        None => {
            return None;
        },
    };
    let (names, e) = match e_ident_list(v, j) {
        Some(x) => x,
        None => {
            return None;
        },
    };
    let jf = e_ws(v, e);
    let j2 = match e_kw(v, jf, "FROM") {
        Some(jk) => match e_req_ws(v, jk) {
            Some(j2) => j2,
            None => {
                return None;
            },
        },
        None => {
            return None;
        },
    };
    let (table, e2) = match e_ident(v, j2) {
        Some(x) => x,
        None => {
            return None;
        },
    };
    let j3 = e_ws(v, e2);
    if j3 == v.len() {
        return Some(Query::Select { table, fields: names, condition: None });
    }
    let jw = match e_kw(v, j3, "WHERE") {
        Some(jw) => jw,
        None => {
            return None;
        },
    };
    let j4 = match e_req_ws(v, jw) {
        Some(j4) => j4,
        None => {
            return None;
        },
    };
    let (col, e3) = match e_ident(v, j4) {
        Some(x) => x,
        None => {
            return None;
        },
    };
    let j5 = e_ws(v, e3);
    let (op, e4) = match e_op(v, j5) {
        Some(x) => x,
        None => {
            return None;
        },
    };
    let j6 = e_ws(v, e4);
    let (val, e5) = match e_value(v, j6) {
        Some(x) => x,
        None => {
            return None;
        },
    };
    if e_ws(v, e5) == v.len() {
        Some(
            Query::Select {
                table,
                fields: names,
                condition: Some(Condition { column: col, operator: op, value: val }),
            },
        )
    } else {
        None
    }
}

fn e_create(v: &Vec<char>, i: usize) -> (r: Option<Query>)
    requires
        i <= v@.len(),
    ensures
        match r {
            Option::Some(q) => sp_create(v@, i as int) == Some(q@) && query_view_wf(q@),
            Option::None => sp_create(v@, i as int) is None,
        },
{
    let j = match e_req_ws(v, i) {
        Some(j) => j,
        None => {
            return None;
        },
    };
    let (table, e) = match e_ident(v, j) {
        Some(x) => x,
        None => {
            return None;
        },
    };
    let j2 = e_ws(v, e);
    let j3 = match e_kw(v, j2, "KEY") {
        Some(jk) => match e_req_ws(v, jk) {
            Some(j3) => j3,
            None => {
                return None;
            },
        },
        None => {
            return None;
        },
    };
    let (pk, e2) = match e_ident(v, j3) {
        Some(x) => x,
        None => {
            return None;
        },
    };
    let j4 = e_ws(v, e2);
    let j5 = match e_kw(v, j4, "FIELDS") {
        Some(jk) => match e_req_ws(v, jk) {
            Some(j5) => j5,
            None => {
                return None;
            },
        },
        None => {
            return None;
        },
    };
    let (cols, e3) = match e_col_list(v, j5) {
        Some(x) => x,
        None => {
            return None;
        },
    };
    if e_ws(v, e3) == v.len() {
        Some(Query::Create { table, pk, columns: cols })
    } else {
        None
    }
}

fn e_insert(v: &Vec<char>, i: usize) -> (r: Option<Query>)
    requires
        i <= v@.len(),
    ensures
        match r {
            Option::Some(q) => sp_insert(v@, i as int) == Some(q@) && query_view_wf(q@),
            Option::None => sp_insert(v@, i as int) is None,
        },
{
    let j = match e_req_ws(v, i) {
        Some(j) => j,
        None => {
            return None;
        },
    };
    let (vals, e) = match e_assign_list(v, j) {
        Some(x) => x,
        None => {
            return None;
        },
    };
    let j2 = e_ws(v, e);
    let j3 = match e_kw(v, j2, "INTO") {
        Some(jk) => match e_req_ws(v, jk) {
            Some(j3) => j3,
            None => {
                return None;
            },
        },
        None => {
            return None;
        },
    };
    let (table, e2) = match e_ident(v, j3) {
        Some(x) => x,
        None => {
            return None;
        },
    };
    if e_ws(v, e2) == v.len() {
        Some(Query::Insert { table, values: vals })
    } else {
        None
    }
}

fn e_delete(v: &Vec<char>, i: usize) -> (r: Option<Query>)
    requires
        i <= v@.len(),
    ensures
        match r {
            Option::Some(q) => sp_delete(v@, i as int) == Some(q@) && query_view_wf(q@),
            Option::None => sp_delete(v@, i as int) is None,
        },
{
    let j = match e_req_ws(v, i) {
        Some(j) => j,
        None => {
            return None;
        },
    };
    let (val, e) = match e_value(v, j) {
        Some(x) => x,
        None => {
            return None;
        },
    };
    let j2 = e_ws(v, e);
    let j3 = match e_kw(v, j2, "FROM") {
        Some(jk) => match e_req_ws(v, jk) {
            Some(j3) => j3,
            None => {
                return None;
            },
        },
        None => {
            return None;
        },
    };
    let (table, e2) = match e_ident(v, j3) {
        Some(x) => x,
        None => {
            return None;
        },
    };
    if e_ws(v, e2) == v.len() {
        Some(Query::Delete { table, key_value: val })
    } else {
        None
    }
}

fn e_path_cmd(v: &Vec<char>, i: usize, save: bool) -> (r: Option<Query>)
    requires
        i <= v@.len(),
    ensures
        match r {
            Option::Some(q) => sp_path_cmd(v@, i as int, save) == Some(q@) && query_view_wf(q@),
            Option::None => sp_path_cmd(v@, i as int, save) is None,
        },
{
    let j = match e_req_ws(v, i) {
        Some(j) => j,
        None => {
            return None;
        },
    };
    let e = e_path_end(v, j);
    if e > j && e_ws(v, e) == v.len() {
        let path = string_from_chars(&copy_range(v, j, e));
        if save {
            Some(Query::SaveAs(path))
        } else {
            Some(Query::ReadFrom(path))
        }
    } else {
        None
    }
}

} // verus!
