//! What the statements mean: the part of SQL that they are written in, as text and as a reading of
//! tables.

use vstd::prelude::*;

#[allow(unused_imports)]
use crate::json::JsonView;
#[allow(unused_imports)]
use crate::query::{literal_value, member_name, placeholders, SqlValueView, StatementView};

verus! {

/// A value in a table, or of an expression.
pub enum Datum {
    Null,
    Integer(int),
    Text(Seq<char>),
}

/// What a bound value is in an expression.
pub open spec fn datum(value: SqlValueView) -> Datum {
    match value {
        SqlValueView::Null => Datum::Null,
        SqlValueView::Integer(n) => Datum::Integer(n as int),
        SqlValueView::Text(text) => Datum::Text(text),
    }
}

/// An expression. Columns, functions and operators go by the names under which SQL knows them.
pub enum Expr {
    /// A column.
    Column(Seq<char>),
    /// A column of the table that goes by a name.
    ColumnOf(Seq<char>, Seq<char>),
    /// The next of the bound values.
    Bound,
    /// A number.
    Number(nat),
    /// A text, given by what stands between its quotes.
    Quoted(Seq<char>),
    /// All columns.
    Star,
    /// A function of one value.
    Call(Seq<char>, Box<Expr>),
    /// A function of two values.
    CallOfTwo(Seq<char>, Box<Expr>, Box<Expr>),
    /// An operator between two values, with the blanks around it.
    Infix(Box<Expr>, Seq<char>, Box<Expr>),
    /// A value as one of another type.
    Cast(Box<Expr>, Seq<char>),
    /// Whether a value is one of the next so many bound values.
    OneOf(Box<Expr>, nat),
}

/// How an expression is written.
pub open spec fn expr_text(expr: Expr) -> Seq<char>
    decreases expr,
{
    match expr {
        Expr::Column(name) => name,
        Expr::ColumnOf(table, name) => table + "."@ + name,
        Expr::Bound => "?"@,
        Expr::Number(n) => crate::text::decimal(n),
        Expr::Quoted(text) => "'"@ + text + "'"@,
        Expr::Star => "*"@,
        Expr::Call(name, a) => name + "("@ + expr_text(*a) + ")"@,
        Expr::CallOfTwo(name, a, b) => name + "("@ + expr_text(*a) + ", "@ + expr_text(*b) + ")"@,
        Expr::Infix(a, operator, b) => expr_text(*a) + operator + expr_text(*b),
        Expr::Cast(a, kind) => "CAST("@ + expr_text(*a) + " AS "@ + kind + ")"@,
        Expr::OneOf(a, count) => expr_text(*a) + " IN ("@ + placeholders(count) + ")"@,
    }
}

/// The number of bound values that an expression takes.
pub open spec fn bound_in(expr: Expr) -> nat
    decreases expr,
{
    match expr {
        Expr::Bound => 1,
        Expr::Call(_, a) => bound_in(*a),
        Expr::CallOfTwo(_, a, b) => bound_in(*a) + bound_in(*b),
        Expr::Infix(a, _, b) => bound_in(*a) + bound_in(*b),
        Expr::Cast(a, _) => bound_in(*a),
        Expr::OneOf(a, count) => bound_in(*a) + count,
        _ => 0,
    }
}

/// A row: a value for each column.
pub type Row = Map<Seq<char>, Datum>;

/// The value of a column, null if there is none.
pub open spec fn in_row(row: Row, name: Seq<char>) -> Datum {
    if row.contains_key(name) {
        row[name]
    } else {
        Datum::Null
    }
}

/// How the database reads an object of JSON, and how it writes other values than texts.
pub struct JsonText {
    pub object: spec_fn(Seq<char>) -> Map<Seq<char>, JsonView>,
    pub written: spec_fn(JsonView) -> Seq<char>,
}

/// What an expression can see: the row of the table, the rows by the names of their tables, and
/// the bound values.
pub struct Scope {
    pub row: Row,
    pub tables: Map<Seq<char>, Row>,
    pub bound: Seq<SqlValueView>,
    pub json: JsonText,
}

/// The text that a value of JSON is taken out of its object as.
pub open spec fn extracted(value: JsonView, json: JsonText) -> Datum {
    match value {
        JsonView::Null => Datum::Null,
        JsonView::Text(text) => Datum::Text(text),
        _ => Datum::Text((json.written)(value)),
    }
}

/// The key that a path of JSON names, if it is that of a quoted member of the object.
pub open spec fn path_key(path: Seq<char>) -> Option<Seq<char>> {
    if path.len() >= 4 && path.take(3) == "$.\""@ && path.last() == '"' {
        member_name(path.subrange(3, path.len() - 1))
    } else {
        None
    }
}

/// What a path of JSON finds in the text of an object.
pub open spec fn at_path(data: Seq<char>, path: Seq<char>, json: JsonText) -> Datum {
    match path_key(path) {
        Some(key) => if (json.object)(data).contains_key(key) {
            extracted((json.object)(data)[key], json)
        } else {
            Datum::Null
        },
        None => Datum::Null,
    }
}

/// The value of a function of two values.
pub open spec fn applied(name: Seq<char>, a: Datum, b: Datum, json: JsonText) -> Datum {
    if name == "greatest"@ {
        match (a, b) {
            (Datum::Integer(x), Datum::Integer(y)) => Datum::Integer(
                if x >= y {
                    x
                } else {
                    y
                },
            ),
            _ => Datum::Null,
        }
    } else if name == "least"@ {
        match (a, b) {
            (Datum::Integer(x), Datum::Integer(y)) => Datum::Integer(
                if x <= y {
                    x
                } else {
                    y
                },
            ),
            _ => Datum::Null,
        }
    } else if name == "json_extract_string"@ {
        match (a, b) {
            (Datum::Text(data), Datum::Text(path)) => at_path(data, path, json),
            _ => Datum::Null,
        }
    } else if name == "coalesce"@ {
        if a is Null {
            b
        } else {
            a
        }
    } else {
        Datum::Null
    }
}

/// The value of an operator between two values.
pub open spec fn combined(a: Datum, operator: Seq<char>, b: Datum) -> Datum {
    match (a, b) {
        (Datum::Integer(x), Datum::Integer(y)) => if operator == " - "@ {
            Datum::Integer(x - y)
        } else {
            Datum::Null
        },
        _ => Datum::Null,
    }
}

/// The value of an expression, whose first bound value is the one at `at`.
pub open spec fn value_of(expr: Expr, scope: Scope, at: int) -> Datum
    decreases expr,
{
    match expr {
        Expr::Column(name) => in_row(scope.row, name),
        Expr::ColumnOf(table, name) => in_row(scope.tables[table], name),
        Expr::Bound => datum(scope.bound[at]),
        Expr::Number(n) => Datum::Integer(n as int),
        Expr::Quoted(text) => match literal_value(text) {
            Some(text) => Datum::Text(text),
            None => Datum::Null,
        },
        Expr::CallOfTwo(name, a, b) => applied(
            name,
            value_of(*a, scope, at),
            value_of(*b, scope, at + bound_in(*a)),
            scope.json,
        ),
        Expr::Infix(a, operator, b) => combined(
            value_of(*a, scope, at),
            operator,
            value_of(*b, scope, at + bound_in(*a)),
        ),
        Expr::Cast(a, _) => value_of(*a, scope, at),
        _ => Datum::Null,
    }
}

/// Whether a comparison is true. It is not if one of the values is null.
pub open spec fn compared(a: Datum, operator: Seq<char>, b: Datum) -> bool {
    match (a, b) {
        (Datum::Integer(x), Datum::Integer(y)) => {
            ||| (operator == " = "@ || operator == "="@) && x == y
            ||| operator == " < "@ && x < y
            ||| operator == " > "@ && x > y
            ||| operator == " >= "@ && x >= y
            ||| operator == " <= "@ && x <= y
        },
        (Datum::Text(x), Datum::Text(y)) => {
            ||| operator == " = "@ && x == y
            ||| operator == " LIKE "@ && alike(x, y)
        },
        _ => false,
    }
}

/// Whether a text is one that a pattern describes, in which a percent sign stands for any text and
/// an underscore for any character.
pub open spec fn alike(text: Seq<char>, pattern: Seq<char>) -> bool
    decreases pattern.len(),
{
    if pattern.len() == 0 {
        text.len() == 0
    } else if pattern.last() == '%' {
        exists|n: int| 0 <= n <= text.len() && alike(#[trigger] text.take(n), pattern.drop_last())
    } else {
        &&& text.len() > 0
        &&& pattern.last() == '_' || pattern.last() == text.last()
        &&& alike(text.drop_last(), pattern.drop_last())
    }
}

/// Whether a condition is true.
pub open spec fn holds(expr: Expr, scope: Scope, at: int) -> bool {
    match expr {
        Expr::Infix(a, operator, b) => compared(
            value_of(*a, scope, at),
            operator,
            value_of(*b, scope, at + bound_in(*a)),
        ),
        Expr::OneOf(a, count) => exists|k: int|
            0 <= k < count && compared(
                value_of(*a, scope, at),
                " = "@,
                datum(#[trigger] scope.bound[at + bound_in(*a) + k]),
            ),
        _ => false,
    }
}

/// Texts with another one between them.
pub open spec fn joined(parts: Seq<Seq<char>>, between: Seq<char>) -> Seq<char>
    decreases parts.len(),
{
    if parts.len() == 0 {
        Seq::empty()
    } else if parts.len() == 1 {
        parts[0]
    } else {
        joined(parts.drop_last(), between) + between + parts.last()
    }
}

/// How conditions that must all be true are written.
pub open spec fn all_text(conditions: Seq<Expr>) -> Seq<char> {
    joined(conditions.map_values(|c: Expr| expr_text(c)), " AND "@)
}

/// The number of bound values that conditions take.
pub open spec fn bound_in_all(conditions: Seq<Expr>) -> nat
    decreases conditions.len(),
{
    if conditions.len() == 0 {
        0
    } else {
        bound_in_all(conditions.drop_last()) + bound_in(conditions.last())
    }
}

/// Whether all the conditions are true.
pub open spec fn all_hold(conditions: Seq<Expr>, scope: Scope, at: int) -> bool
    decreases conditions.len(),
{
    if conditions.len() == 0 {
        true
    } else {
        &&& all_hold(conditions.drop_last(), scope, at)
        &&& holds(conditions.last(), scope, at + bound_in_all(conditions.drop_last()))
    }
}

/// A column of what is selected, and the name that it is given.
pub struct Output {
    pub expr: Expr,
    pub name: Option<Seq<char>>,
}

/// How a column of what is selected is written.
pub open spec fn output_text(output: Output) -> Seq<char> {
    match output.name {
        Some(name) => expr_text(output.expr) + " as "@ + name,
        None => expr_text(output.expr),
    }
}

/// Where rows are selected from.
pub enum Source {
    /// A table.
    Table(Seq<char>),
    /// Pairs of rows of two tables, each under a name, that meet conditions.
    Join { left: (Seq<char>, Seq<char>), right: (Seq<char>, Seq<char>), on: Seq<Expr> },
}

/// How the source of rows is written.
pub open spec fn source_text(source: Source) -> Seq<char> {
    match source {
        Source::Table(name) => name,
        Source::Join { left, right, on } => left.0 + " "@ + left.1 + " JOIN "@ + right.0 + " "@
            + right.1 + " ON "@ + all_text(on),
    }
}

/// A statement that selects rows.
pub struct Select {
    pub outputs: Seq<Output>,
    pub source: Source,
    pub conditions: Seq<Expr>,
    /// The name of the output by whose value rows are put together.
    pub group_by: Option<Seq<char>>,
    /// The outputs by which rows are put in order, and the direction.
    pub order_by: Seq<(Seq<char>, Seq<char>)>,
    pub limit: Option<Expr>,
}

/// How a statement that selects rows is written.
pub open spec fn select_text(select: Select) -> Seq<char> {
    "SELECT "@ + joined(select.outputs.map_values(|o: Output| output_text(o)), ", "@) + " FROM "@
        + source_text(select.source) + (if select.conditions.len() == 0 {
        Seq::empty()
    } else {
        " WHERE "@ + all_text(select.conditions)
    }) + (match select.group_by {
        Some(name) => " GROUP BY "@ + name,
        None => Seq::empty(),
    }) + (if select.order_by.len() == 0 {
        Seq::empty()
    } else {
        " ORDER BY "@ + joined(
            select.order_by.map_values(|o: (Seq<char>, Seq<char>)| o.0 + " "@ + o.1),
            ", "@,
        )
    }) + (match select.limit {
        Some(limit) => " LIMIT "@ + expr_text(limit),
        None => Seq::empty(),
    })
}

/// What a statement is run on: the tables by their names, the bound values, and how JSON is read.
pub struct Database {
    pub tables: Map<Seq<char>, Seq<Row>>,
    pub bound: Seq<SqlValueView>,
    pub json: JsonText,
}

/// What can be seen of one row of a table.
pub open spec fn scope_of(name: Seq<char>, row: Row, db: Database) -> Scope {
    Scope {
        row,
        tables: Map::<Seq<char>, Row>::empty().insert(name, row),
        bound: db.bound,
        json: db.json,
    }
}

/// What can be seen of two rows of tables that go by names.
pub open spec fn scope_of_two(left: (Seq<char>, Row), right: (Seq<char>, Row), db: Database) -> Scope {
    Scope {
        row: Map::empty(),
        tables: Map::<Seq<char>, Row>::empty().insert(left.0, left.1).insert(right.0, right.1),
        bound: db.bound,
        json: db.json,
    }
}

/// What can be seen of one row of each table.
pub open spec fn pair_at(
    left: (Seq<char>, Seq<Row>),
    right: (Seq<char>, Seq<Row>),
    db: Database,
    i: int,
    j: int,
) -> Scope {
    scope_of_two((left.0, left.1[i]), (right.0, right.1[j]), db)
}

/// What there is for each of the first `n` numbers and each of the first `m`.
pub open spec fn crossed<A>(n: nat, m: nat, of: spec_fn(int, int) -> A) -> Seq<A>
    decreases n,
{
    if n == 0 {
        Seq::empty()
    } else {
        crossed((n - 1) as nat, m, of) + Seq::new(m, |j: int| of(n - 1, j))
    }
}

/// What can be seen of each of the pairs of rows.
pub open spec fn pairs_of(
    left: (Seq<char>, Seq<Row>),
    right: (Seq<char>, Seq<Row>),
    db: Database,
) -> Seq<Scope> {
    crossed(left.1.len(), right.1.len(), |i: int, j: int| pair_at(left, right, db, i, j))
}

/// Those of the scopes in which all the conditions are true.
pub open spec fn where_all(scopes: Seq<Scope>, conditions: Seq<Expr>, at: int) -> Seq<Scope> {
    scopes.filter(|scope: Scope| all_hold(conditions, scope, at))
}

/// The number of bound values in what comes before the source.
pub open spec fn bound_in_outputs(outputs: Seq<Output>) -> nat
    decreases outputs.len(),
{
    if outputs.len() == 0 {
        0
    } else {
        bound_in_outputs(outputs.drop_last()) + bound_in(outputs.last().expr)
    }
}

/// What can be seen of each of the rows of the source.
pub open spec fn source_scopes(select: Select, db: Database) -> Seq<Scope> {
    match select.source {
        Source::Table(name) => db.tables[name].map_values(|row: Row| scope_of(name, row, db)),
        Source::Join { left, right, on } => where_all(
            pairs_of((left.1, db.tables[left.0]), (right.1, db.tables[right.0]), db),
            on,
            bound_in_outputs(select.outputs) as int,
        ),
    }
}

/// The number of bound values in the source.
pub open spec fn bound_in_source(source: Source) -> nat {
    match source {
        Source::Table(_) => 0,
        Source::Join { left, right, on } => bound_in_all(on),
    }
}

/// What can be seen of each of the rows that are selected.
pub open spec fn selected_scopes(select: Select, db: Database) -> Seq<Scope> {
    where_all(
        source_scopes(select, db),
        select.conditions,
        (bound_in_outputs(select.outputs) + bound_in_source(select.source)) as int,
    )
}

/// The sum of an expression over rows.
pub open spec fn sum_over(expr: Expr, scopes: Seq<Scope>, at: int) -> int
    decreases scopes.len(),
{
    if scopes.len() == 0 {
        0
    } else {
        sum_over(expr, scopes.drop_last(), at) + match value_of(expr, scopes.last(), at) {
            Datum::Integer(n) => n,
            _ => 0,
        }
    }
}

/// The smallest or the largest value of an expression over rows, null if there is none.
pub open spec fn extreme_over(expr: Expr, scopes: Seq<Scope>, at: int, largest: bool) -> Datum
    decreases scopes.len(),
{
    if scopes.len() == 0 {
        Datum::Null
    } else {
        let before = extreme_over(expr, scopes.drop_last(), at, largest);
        let value = value_of(expr, scopes.last(), at);
        match (before, value) {
            (Datum::Integer(x), Datum::Integer(y)) => if largest == (x >= y) {
                before
            } else {
                value
            },
            (Datum::Integer(_), _) => before,
            _ => value,
        }
    }
}

/// The value of an expression for rows that are put together: of a function of all of them, or
/// what it is for each.
pub open spec fn value_of_all(expr: Expr, scopes: Seq<Scope>, at: int) -> Datum
    decreases expr,
{
    match expr {
        Expr::Call(name, a) => if name == "sum"@ {
            Datum::Integer(sum_over(*a, scopes, at))
        } else if name == "min"@ {
            extreme_over(*a, scopes, at, false)
        } else if name == "max"@ {
            extreme_over(*a, scopes, at, true)
        } else if name == "count"@ {
            Datum::Integer(scopes.len() as int)
        } else {
            Datum::Null
        },
        Expr::Cast(a, _) => value_of_all(*a, scopes, at),
        Expr::CallOfTwo(name, a, b) => if calls_all(*a) {
            applied(
                name,
                value_of_all(*a, scopes, at),
                value_of_all(*b, scopes, at + bound_in(*a)),
                scopes[0].json,
            )
        } else {
            value_of(expr, scopes[0], at)
        },
        Expr::Number(n) => Datum::Integer(n as int),
        _ => value_of(expr, scopes[0], at),
    }
}

/// Whether an expression holds a function of all rows that are put together.
pub open spec fn calls_all(expr: Expr) -> bool
    decreases expr,
{
    match expr {
        Expr::Call(name, _) => name == "sum"@ || name == "min"@ || name == "max"@ || name == "count"@,
        Expr::Cast(a, _) => calls_all(*a),
        Expr::CallOfTwo(_, a, b) => calls_all(*a) || calls_all(*b),
        _ => false,
    }
}

/// Whether a statement puts all rows together, because each of its outputs is a function of them.
pub open spec fn takes_all(select: Select) -> bool {
    select.group_by is None && select.outputs.len() > 0 && forall|i: int|
        0 <= i < select.outputs.len() ==> calls_all((#[trigger] select.outputs[i]).expr)
}

/// The expression of the output that has this name, or is the column of this name.
pub open spec fn output_named(outputs: Seq<Output>, name: Seq<char>) -> int
    decreases outputs.len(),
{
    if outputs.len() == 0 {
        -1
    } else if outputs.last().name == Some(name) || (outputs.last().name is None
        && outputs.last().expr == Expr::Column(name)) {
        outputs.len() - 1
    } else {
        output_named(outputs.drop_last(), name)
    }
}

/// The different values of an expression over rows, in the order in which they first come.
pub open spec fn values_over(expr: Expr, scopes: Seq<Scope>, at: int) -> Seq<Datum>
    decreases scopes.len(),
{
    if scopes.len() == 0 {
        Seq::empty()
    } else {
        let before = values_over(expr, scopes.drop_last(), at);
        let value = value_of(expr, scopes.last(), at);
        if before.contains(value) {
            before
        } else {
            before.push(value)
        }
    }
}

/// Those of the rows for which an expression has a value.
pub open spec fn with_value(expr: Expr, scopes: Seq<Scope>, at: int, value: Datum) -> Seq<Scope> {
    scopes.filter(|scope: Scope| value_of(expr, scope, at) == value)
}

/// The values of the outputs for one row.
pub open spec fn outputs_of(outputs: Seq<Output>, scope: Scope) -> Seq<Datum> {
    outputs.map_values(|o: Output| value_of(o.expr, scope, 0))
}

/// The values of the outputs for rows that are put together.
pub open spec fn outputs_of_all(outputs: Seq<Output>, scopes: Seq<Scope>) -> Seq<Datum> {
    outputs.map_values(|o: Output| value_of_all(o.expr, scopes, 0))
}

/// What a statement selects, before it is put in order and cut off: one row for each row of the
/// source, one for each value that rows are put together by, or one for all. No output takes a
/// bound value.
pub open spec fn found(select: Select, db: Database) -> Seq<Seq<Datum>> {
    let scopes = selected_scopes(select, db);
    match select.group_by {
        Some(name) => {
            let by = select.outputs[output_named(select.outputs, name)].expr;
            values_over(by, scopes, 0).map_values(
                |value: Datum| outputs_of_all(select.outputs, with_value(by, scopes, 0, value)),
            )
        },
        None => if takes_all(select) {
            seq![outputs_of_all(select.outputs, scopes)]
        } else {
            scopes.map_values(|scope: Scope| outputs_of(select.outputs, scope))
        },
    }
}

/// Whether a row may come before another, going by the columns that are to put them in order.
pub open spec fn may_come_before(
    select: Select,
    a: Seq<Datum>,
    b: Seq<Datum>,
    order_by: Seq<(Seq<char>, Seq<char>)>,
) -> bool
    decreases order_by.len(),
{
    if order_by.len() == 0 {
        true
    } else {
        let i = output_named(select.outputs, order_by[0].0);
        match (a[i], b[i]) {
            (Datum::Integer(x), Datum::Integer(y)) => {
                ||| order_by[0].1 == "DESC"@ && x > y
                ||| order_by[0].1 == "ASC"@ && x < y
                ||| x == y && may_come_before(select, a, b, order_by.drop_first())
            },
            _ => true,
        }
    }
}

/// How many rows are left of so many.
pub open spec fn limited(select: Select, db: Database, count: nat) -> int {
    match select.limit {
        Some(limit) => match value_of(
            limit,
            Scope { row: Map::empty(), tables: Map::empty(), bound: db.bound, json: db.json },
            (bound_in_outputs(select.outputs) + bound_in_source(select.source) + bound_in_all(
                select.conditions,
            )) as int,
        ) {
            Datum::Integer(n) => if 0 <= n < count {
                n
            } else {
                count as int
            },
            _ => count as int,
        },
        None => count as int,
    }
}

/// Whether these rows are an answer to a statement: what it finds, put in order and cut off. Which
/// of several rows comes first is left open where the order does not say it.
pub open spec fn is_answer(select: Select, db: Database, rows: Seq<Seq<Datum>>) -> bool {
    exists|all: Seq<Seq<Datum>>|
        {
            &&& all.to_multiset() == found(select, db).to_multiset()
            &&& forall|i: int, j: int|
                0 <= i < j < all.len() ==> may_come_before(
                    select,
                    #[trigger] all[i],
                    #[trigger] all[j],
                    select.order_by,
                )
            &&& rows == #[trigger] all.take(limited(select, db, all.len()))
        }
}

/// Whether a statement is written as this one that selects rows.
pub open spec fn reads_as(statement: StatementView, select: Select) -> bool {
    statement.sql == select_text(select)
}

/// A statement that puts the rows of a table together with those of another one that go with each.
/// The rows of the first table differ in one of the outputs, so that each of them is on its own.
pub struct Summary {
    pub outputs: Seq<Output>,
    pub left: Seq<char>,
    pub right: Seq<char>,
    pub on: Seq<Expr>,
}

/// How such a statement is written.
pub open spec fn summary_text(summary: Summary) -> Seq<char> {
    "SELECT "@ + joined(summary.outputs.map_values(|o: Output| output_text(o)), ", "@) + " FROM "@
        + summary.left + " LEFT OUTER JOIN "@ + summary.right + " ON "@ + all_text(summary.on)
        + " GROUP BY ALL"@
}

/// What can be seen of a row of the first table with each of the rows of the second one that go with
/// it, or with nothing if there is none.
pub open spec fn summary_scopes(summary: Summary, row: Row, db: Database) -> Seq<Scope> {
    let pairs = where_all(
        db.tables[summary.right].map_values(
            |other: Row| scope_of_two((summary.left, row), (summary.right, other), db),
        ),
        summary.on,
        0,
    );
    if pairs.len() == 0 {
        seq![scope_of_two((summary.left, row), (summary.right, Map::empty()), db)]
    } else {
        pairs
    }
}

/// What such a statement finds: one row for each row of the first table.
pub open spec fn summarized(summary: Summary, db: Database) -> Seq<Seq<Datum>> {
    db.tables[summary.left].map_values(
        |row: Row| outputs_of_all(summary.outputs, summary_scopes(summary, row, db)),
    )
}

/// A statement that changes a table.
pub enum Change {
    /// Adds a row, which may take the place of one with the same key. There may be a blank before
    /// the columns, and the number of the row may be asked for.
    Insert {
        in_place: bool,
        table: Seq<char>,
        blank: bool,
        columns: Seq<Seq<char>>,
        numbered: bool,
    },
    /// Sets columns of rows.
    Update { table: Seq<char>, columns: Seq<Seq<char>>, conditions: Seq<Expr> },
    /// Removes rows.
    Delete { table: Seq<char>, conditions: Seq<Expr> },
}

/// How a statement that changes a table is written.
pub open spec fn change_text(change: Change) -> Seq<char> {
    match change {
        Change::Insert { in_place, table, blank, columns, numbered } => (if in_place {
            "INSERT OR REPLACE INTO "@
        } else {
            "INSERT INTO "@
        }) + table + (if blank {
            " "@
        } else {
            Seq::empty()
        }) + "("@ + joined(columns, ", "@) + ") VALUES ("@ + placeholders(columns.len()) + ")"@ + (
        if numbered {
            " RETURNING id"@
        } else {
            Seq::empty()
        }),
        Change::Update { table, columns, conditions } => "UPDATE "@ + table + " SET "@ + joined(
            columns.map_values(|name: Seq<char>| name + " = ?"@),
            ", "@,
        ) + " WHERE "@ + all_text(conditions),
        Change::Delete { table, conditions } => "DELETE FROM "@ + table + " WHERE "@ + all_text(
            conditions,
        ),
    }
}

/// A row with columns set to the bound values, one after the other.
pub open spec fn with_columns(row: Row, columns: Seq<Seq<char>>, bound: Seq<SqlValueView>) -> Row
    decreases columns.len(),
{
    if columns.len() == 0 {
        row
    } else {
        with_columns(row, columns.drop_last(), bound).insert(
            columns.last(),
            datum(bound[columns.len() - 1]),
        )
    }
}

/// The rows of a table after a statement has changed it. `key` is the column by which its rows are
/// told apart, and `number` the next number for a row that comes without.
pub open spec fn changed(change: Change, db: Database, key: Seq<char>, number: int) -> Seq<Row> {
    match change {
        Change::Insert { in_place, table, columns, .. } => {
            let given = with_columns(Map::empty(), columns, db.bound);
            let row = if columns.contains(key) {
                given
            } else {
                given.insert(key, Datum::Integer(number))
            };
            let others = if in_place {
                db.tables[table].filter(|other: Row| in_row(other, key) != in_row(row, key))
            } else {
                db.tables[table]
            };
            others.push(row)
        },
        Change::Update { table, columns, conditions } => db.tables[table].map_values(
            |row: Row|
                if all_hold(conditions, scope_of(table, row, db), columns.len() as int) {
                    with_columns(row, columns, db.bound)
                } else {
                    row
                },
        ),
        Change::Delete { table, conditions } => db.tables[table].filter(
            |row: Row| !all_hold(conditions, scope_of(table, row, db), 0),
        ),
    }
}

/// Whether a statement is written as this one that changes a table.
pub open spec fn changes_as(statement: StatementView, change: Change) -> bool {
    statement.sql == change_text(change)
}

/// The row of an event in its table.
pub struct EventRecord {
    pub id: int,
    pub bucketrow: int,
    pub starttime: int,
    pub endtime: int,
    /// The text of an object of JSON.
    pub data: Seq<char>,
}

impl EventRecord {
    /// The row, by the names of its columns.
    pub open spec fn row(self) -> Row {
        Map::<Seq<char>, Datum>::empty().insert("id"@, Datum::Integer(self.id)).insert(
            "bucketrow"@,
            Datum::Integer(self.bucketrow),
        ).insert("starttime"@, Datum::Integer(self.starttime)).insert(
            "endtime"@,
            Datum::Integer(self.endtime),
        ).insert("data"@, Datum::Text(self.data))
    }
}

/// A database with these events.
pub open spec fn with_records(
    records: Seq<EventRecord>,
    bound: Seq<SqlValueView>,
    json: JsonText,
) -> Database {
    Database {
        tables: Map::<Seq<char>, Seq<Row>>::empty().insert(
            "events"@,
            records.map_values(|r: EventRecord| r.row()),
        ),
        bound,
        json,
    }
}

/// The values of the columns of an event.
pub(crate) proof fn lemma_record_columns(record: EventRecord)
    ensures
        in_row(record.row(), "id"@) == Datum::Integer(record.id),
        in_row(record.row(), "bucketrow"@) == Datum::Integer(record.bucketrow),
        in_row(record.row(), "starttime"@) == Datum::Integer(record.starttime),
        in_row(record.row(), "endtime"@) == Datum::Integer(record.endtime),
        in_row(record.row(), "data"@) == Datum::Text(record.data),
{
    reveal_strlit("id");
    reveal_strlit("bucketrow");
    reveal_strlit("starttime");
    reveal_strlit("endtime");
    reveal_strlit("data");
    assert("id"@.len() == 2 && "data"@.len() == 4 && "endtime"@.len() == 7);
    assert("bucketrow"@[0] == 'b' && "starttime"@[0] == 's');
}

/// The operators are different from each other.
pub(crate) proof fn lemma_operators()
    ensures
        forall|x: int, y: int|
            #![trigger compared(Datum::Integer(x), " = "@, Datum::Integer(y))]
            compared(Datum::Integer(x), " = "@, Datum::Integer(y)) <==> x == y,
        forall|x: int, y: int|
            #![trigger compared(Datum::Integer(x), " < "@, Datum::Integer(y))]
            compared(Datum::Integer(x), " < "@, Datum::Integer(y)) <==> x < y,
        forall|x: int, y: int|
            #![trigger compared(Datum::Integer(x), " > "@, Datum::Integer(y))]
            compared(Datum::Integer(x), " > "@, Datum::Integer(y)) <==> x > y,
        forall|x: int, y: int|
            #![trigger compared(Datum::Integer(x), " >= "@, Datum::Integer(y))]
            compared(Datum::Integer(x), " >= "@, Datum::Integer(y)) <==> x >= y,
        forall|x: int, y: int|
            #![trigger compared(Datum::Integer(x), " <= "@, Datum::Integer(y))]
            compared(Datum::Integer(x), " <= "@, Datum::Integer(y)) <==> x <= y,
        forall|x: Datum, y: Seq<char>|
            #![trigger compared(x, " = "@, Datum::Text(y))]
            compared(x, " = "@, Datum::Text(y)) <==> x == Datum::Text(y),
        forall|x: Datum, y: int|
            #![trigger compared(x, " = "@, Datum::Integer(y))]
            compared(x, " = "@, Datum::Integer(y)) <==> x == Datum::Integer(y),
        forall|x: Datum, y: Seq<char>|
            #![trigger compared(x, " LIKE "@, Datum::Text(y))]
            compared(x, " LIKE "@, Datum::Text(y)) <==> x is Text && alike(x->Text_0, y),
{
    reveal_strlit(" = ");
    reveal_strlit("=");
    reveal_strlit(" < ");
    reveal_strlit(" > ");
    reveal_strlit(" >= ");
    reveal_strlit(" <= ");
    reveal_strlit(" LIKE ");
    assert(" = "@.len() == 3 && " < "@.len() == 3 && " > "@.len() == 3 && "="@.len() == 1);
    assert(" = "@[1] == '=' && " < "@[1] == '<' && " > "@[1] == '>');
    assert(" >= "@.len() == 4 && " <= "@.len() == 4 && " LIKE "@.len() == 6);
    assert(" >= "@[1] == '>' && " <= "@[1] == '<');
}

/// The functions are different from each other.
pub(crate) proof fn lemma_functions()
    ensures
        forall|x: int, y: int, json: JsonText|
            #![trigger applied("greatest"@, Datum::Integer(x), Datum::Integer(y), json)]
            applied("greatest"@, Datum::Integer(x), Datum::Integer(y), json) == Datum::Integer(
                if x >= y {
                    x
                } else {
                    y
                },
            ),
        forall|x: int, y: int, json: JsonText|
            #![trigger applied("least"@, Datum::Integer(x), Datum::Integer(y), json)]
            applied("least"@, Datum::Integer(x), Datum::Integer(y), json) == Datum::Integer(
                if x <= y {
                    x
                } else {
                    y
                },
            ),
        forall|x: Seq<char>, y: Seq<char>, json: JsonText|
            #![trigger applied("json_extract_string"@, Datum::Text(x), Datum::Text(y), json)]
            applied("json_extract_string"@, Datum::Text(x), Datum::Text(y), json) == at_path(
                x,
                y,
                json,
            ),
{
    reveal_strlit("greatest");
    reveal_strlit("least");
    reveal_strlit("json_extract_string");
    assert("greatest"@.len() == 8 && "least"@.len() == 5 && "json_extract_string"@.len() == 19);
}

/// The bound values in one condition more.
pub(crate) proof fn lemma_bound_in_more(conditions: Seq<Expr>, condition: Expr)
    ensures
        bound_in_all(conditions.push(condition)) == bound_in_all(conditions) + bound_in(condition),
{
    assert(conditions.push(condition).drop_last() =~= conditions);
}

/// One condition more.
pub(crate) proof fn lemma_one_more_holds(
    conditions: Seq<Expr>,
    condition: Expr,
    scope: Scope,
    at: int,
)
    ensures
        all_hold(conditions.push(condition), scope, at) == (all_hold(conditions, scope, at) && holds(
            condition,
            scope,
            at + bound_in_all(conditions),
        )),
{
    assert(conditions.push(condition).drop_last() =~= conditions);
}

/// Whether a scope is what can be seen of one row of each table.
pub open spec fn is_pair(
    left: (Seq<char>, Seq<Row>),
    right: (Seq<char>, Seq<Row>),
    db: Database,
    scope: Scope,
) -> bool {
    exists|i: int, j: int|
        0 <= i < left.1.len() && 0 <= j < right.1.len() && scope == #[trigger] pair_at(
            left,
            right,
            db,
            i,
            j,
        )
}

proof fn lemma_crossed_holds<A>(n: nat, m: nat, of: spec_fn(int, int) -> A, i: int, j: int)
    requires
        0 <= i < n,
        0 <= j < m,
    ensures
        crossed(n, m, of).contains(of(i, j)),
    decreases n,
{
    let all = crossed(n, m, of);
    let before = crossed((n - 1) as nat, m, of);
    let more = Seq::new(m, |j: int| of(n - 1, j));
    if i < n - 1 {
        lemma_crossed_holds((n - 1) as nat, m, of, i, j);
        let k = choose|k: int| 0 <= k < before.len() && before[k] == of(i, j);
        assert(all[k] == of(i, j));
    } else {
        assert(all[before.len() + j] == more[j]);
    }
}

proof fn lemma_crossed_at<A>(n: nat, m: nat, of: spec_fn(int, int) -> A, k: int) -> (at: (int, int))
    requires
        0 <= k < crossed(n, m, of).len(),
    ensures
        0 <= at.0 < n,
        0 <= at.1 < m,
        crossed(n, m, of)[k] == of(at.0, at.1),
    decreases n,
{
    let all = crossed(n, m, of);
    let before = crossed((n - 1) as nat, m, of);
    let more = Seq::new(m, |j: int| of(n - 1, j));
    if k < before.len() {
        assert(all[k] == before[k]);
        lemma_crossed_at((n - 1) as nat, m, of, k)
    } else {
        assert(all[k] == more[k - before.len()]);
        (n - 1, k - before.len())
    }
}

/// Each of the pairs of rows can be seen, and nothing else.
pub(crate) proof fn lemma_pairs_of(
    left: (Seq<char>, Seq<Row>),
    right: (Seq<char>, Seq<Row>),
    db: Database,
)
    ensures
        forall|i: int, j: int|
            0 <= i < left.1.len() && 0 <= j < right.1.len() ==> pairs_of(left, right, db).contains(
                #[trigger] pair_at(left, right, db, i, j),
            ),
        forall|k: int|
            0 <= k < pairs_of(left, right, db).len() ==> is_pair(
                left,
                right,
                db,
                #[trigger] pairs_of(left, right, db)[k],
            ),
{
    let of = |i: int, j: int| pair_at(left, right, db, i, j);
    let all = pairs_of(left, right, db);
    assert forall|i: int, j: int| 0 <= i < left.1.len() && 0 <= j < right.1.len() implies all.contains(
        #[trigger] pair_at(left, right, db, i, j),
    ) by {
        lemma_crossed_holds(left.1.len(), right.1.len(), of, i, j);
    }
    assert forall|k: int| 0 <= k < all.len() implies is_pair(left, right, db, #[trigger] all[k]) by {
        let (i, j) = lemma_crossed_at(left.1.len(), right.1.len(), of, k);
        assert(all[k] == pair_at(left, right, db, i, j));
    }
}

/// What is left of scopes where conditions must be true.
pub(crate) proof fn lemma_where_all(scopes: Seq<Scope>, conditions: Seq<Expr>, at: int, scope: Scope)
    ensures
        where_all(scopes, conditions, at).contains(scope) <==> scopes.contains(scope) && all_hold(
            conditions,
            scope,
            at,
        ),
{
    let pred = |scope: Scope| all_hold(conditions, scope, at);
    let kept = scopes.filter(pred);
    assert(kept == where_all(scopes, conditions, at));
    if kept.contains(scope) {
        scopes.lemma_filter_contains_rev(pred, scope);
        let k = choose|k: int| 0 <= k < kept.len() && kept[k] == scope;
        scopes.lemma_filter_pred(pred, k);
        assert(pred(kept[k]));
    }
    if scopes.contains(scope) && all_hold(conditions, scope, at) {
        let k = choose|k: int| 0 <= k < scopes.len() && scopes[k] == scope;
        assert(pred(scopes[k]));
        scopes.lemma_filter_contains(pred, k);
    }
}

/// An answer that is not cut off holds what is found, in order.
pub(crate) proof fn lemma_whole_answer(select: Select, db: Database, rows: Seq<Seq<Datum>>)
    requires
        is_answer(select, db, rows),
        select.limit is None,
    ensures
        rows.to_multiset() == found(select, db).to_multiset(),
        rows.len() == found(select, db).len(),
        forall|row: Seq<Datum>| #[trigger] rows.contains(row) <==> found(select, db).contains(row),
        forall|i: int, j: int|
            0 <= i < j < rows.len() ==> may_come_before(
                select,
                #[trigger] rows[i],
                #[trigger] rows[j],
                select.order_by,
            ),
{
    broadcast use vstd::seq_lib::group_to_multiset_ensures;

    let all = choose|all: Seq<Seq<Datum>>|
        {
            &&& all.to_multiset() == found(select, db).to_multiset()
            &&& forall|i: int, j: int|
                0 <= i < j < all.len() ==> may_come_before(
                    select,
                    #[trigger] all[i],
                    #[trigger] all[j],
                    select.order_by,
                )
            &&& rows == #[trigger] all.take(limited(select, db, all.len()))
        };
    assert(rows =~= all);
    assert(rows.to_multiset().len() == found(select, db).to_multiset().len());
    assert forall|row: Seq<Datum>| #[trigger] rows.contains(row) <==> found(select, db).contains(row) by {
        assert(rows.to_multiset().count(row) == found(select, db).to_multiset().count(row));
    }
}

} // verus!
