//! What the statements on the tables of buckets and of settings find and change.

use vstd::prelude::*;

#[allow(unused_imports)]
use crate::answers::{
    infix, lemma_infix_holds, lemma_joined_more, lemma_joined_two, lemma_words, plain, rows_of,
};
#[allow(unused_imports)]
use crate::changes::lemma_placeholders;
#[allow(unused_imports)]
use crate::datastore::{
    delete_bucket_statement, delete_value_statement, new_bucket_statement, store_value_statement,
    value_statement, values_statement,
};
#[allow(unused_imports)]
use crate::model::BucketView;
#[allow(unused_imports)]
use crate::query::{
    bid_statement, buckets_statement, largest_statement, placeholders, SqlValueView, StatementView,
};
#[allow(unused_imports)]
use crate::selections::{kept_records, lemma_compared_text};
#[allow(unused_imports)]
use crate::sql::{
    all_hold, all_text, alike, bound_in, bound_in_outputs, calls_all, extreme_over, change_text, changed, changes_as, datum,
    expr_text, found, in_row, is_answer, joined, lemma_one_more_holds, lemma_operators, lemma_record_columns,
    lemma_where_all, lemma_whole_answer, output_text, outputs_of, outputs_of_all, reads_as, scope_of, scope_of_two, select_text,
    selected_scopes, summarized, summary_scopes, summary_text, value_of, value_of_all, where_all,
    with_columns, Change, Database, Datum, EventRecord, Expr, JsonText, Output, Row, Scope, Select,
    Source, Summary,
};

verus! {

/// A database with one table.
pub open spec fn with_table(
    name: Seq<char>,
    rows: Seq<Row>,
    bound: Seq<SqlValueView>,
    json: JsonText,
) -> Database {
    Database { tables: Map::<Seq<char>, Seq<Row>>::empty().insert(name, rows), bound, json }
}

/// A statement that selects columns of the rows of a table in which one column is compared with a
/// bound value.
pub open spec fn look_up(
    outputs: Seq<Output>,
    table: Seq<char>,
    column: Seq<char>,
    operator: Seq<char>,
) -> Select {
    Select {
        outputs,
        source: Source::Table(table),
        conditions: seq![infix(Expr::Column(column), operator, Expr::Bound)],
        group_by: None,
        order_by: Seq::empty(),
        limit: None,
    }
}

proof fn lemma_condition_text(column: Seq<char>, operator: Seq<char>)
    ensures
        all_text(seq![infix(Expr::Column(column), operator, Expr::Bound)]) == column + operator + "?"@,
{
    let conditions = seq![infix(Expr::Column(column), operator, Expr::Bound)];
    lemma_compared_text(column, operator);
    assert(conditions.map_values(|c: Expr| expr_text(c)) =~= seq![column + operator + "?"@]);
}

proof fn lemma_look_up_text(
    outputs: Seq<Output>,
    list: Seq<char>,
    table: Seq<char>,
    column: Seq<char>,
    operator: Seq<char>,
)
    requires
        joined(outputs.map_values(|o: Output| output_text(o)), ", "@) == list,
    ensures
        select_text(look_up(outputs, table, column, operator)) == "SELECT "@ + list + " FROM "@ + table
            + " WHERE "@ + column + operator + "?"@,
{
    lemma_condition_text(column, operator);
    assert(select_text(look_up(outputs, table, column, operator)) =~= "SELECT "@ + list + " FROM "@
        + table + " WHERE "@ + column + operator + "?"@);
}

/// Whether a comparison of a column of a row with a bound value is true.
pub open spec fn meets_condition(
    row: Row,
    column: Seq<char>,
    operator: Seq<char>,
    value: SqlValueView,
) -> bool {
    crate::sql::compared(in_row(row, column), operator, datum(value))
}

proof fn lemma_condition_holds(
    table: Seq<char>,
    row: Row,
    db: Database,
    column: Seq<char>,
    operator: Seq<char>,
)
    requires
        db.bound.len() == 1,
    ensures
        all_hold(
            seq![infix(Expr::Column(column), operator, Expr::Bound)],
            scope_of(table, row, db),
            0,
        ) <==> meets_condition(row, column, operator, db.bound[0]),
{
    let scope = scope_of(table, row, db);
    let none = Seq::<Expr>::empty();
    let a = infix(Expr::Column(column), operator, Expr::Bound);
    assert(seq![a] =~= none.push(a));
    lemma_one_more_holds(none, a, scope, 0);
    lemma_infix_holds(Expr::Column(column), operator, Expr::Bound, scope, 0);
    assert(value_of(Expr::Column(column), scope, 0) == in_row(row, column));
    assert(value_of(Expr::Bound, scope, 0) == datum(db.bound[0]));
}

/// What such a statement finds.
#[verifier::spinoff_prover]
proof fn lemma_look_up(
    outputs: Seq<Output>,
    table: Seq<char>,
    column: Seq<char>,
    operator: Seq<char>,
    rows: Seq<Row>,
    db: Database,
    answer: Seq<Seq<Datum>>,
)
    requires
        db.tables == Map::<Seq<char>, Seq<Row>>::empty().insert(table, rows),
        db.bound.len() == 1,
        outputs.len() > 0,
        outputs[0].expr is Column,
        bound_in_outputs(outputs) == 0,
        is_answer(look_up(outputs, table, column, operator), db, answer),
    ensures
        forall|row: Seq<Datum>| #[trigger]
            answer.contains(row) <==> exists|i: int|
                0 <= i < rows.len() && meets_condition(
                    #[trigger] rows[i],
                    column,
                    operator,
                    db.bound[0],
                ) && row == outputs_of(outputs, scope_of(table, rows[i], db)),
{
    let select = look_up(outputs, table, column, operator);
    let all = found(select, db);
    let every = rows.map_values(|row: Row| scope_of(table, row, db));
    let scopes = selected_scopes(select, db);
    assert(db.tables[table] == rows);
    assert(!crate::sql::calls_all(outputs[0].expr));
    assert(!crate::sql::takes_all(select));
    assert(scopes == where_all(every, select.conditions, 0));
    assert(all == scopes.map_values(|scope: Scope| outputs_of(outputs, scope)));
    lemma_whole_answer(select, db, answer);
    assert forall|row: Seq<Datum>| #[trigger] answer.contains(row) <==> exists|i: int|
        0 <= i < rows.len() && meets_condition(#[trigger] rows[i], column, operator, db.bound[0])
            && row == outputs_of(outputs, scope_of(table, rows[i], db)) by {
        if answer.contains(row) {
            let k = choose|k: int| 0 <= k < all.len() && all[k] == row;
            assert(scopes.contains(scopes[k]));
            lemma_where_all(every, select.conditions, 0, scopes[k]);
            let i = choose|i: int| 0 <= i < every.len() && every[i] == scopes[k];
            lemma_condition_holds(table, rows[i], db, column, operator);
            assert(meets_condition(rows[i], column, operator, db.bound[0]));
        }
        if exists|i: int|
            0 <= i < rows.len() && meets_condition(#[trigger] rows[i], column, operator, db.bound[0])
                && row == outputs_of(outputs, scope_of(table, rows[i], db)) {
            let i = choose|i: int|
                0 <= i < rows.len() && meets_condition(
                    #[trigger] rows[i],
                    column,
                    operator,
                    db.bound[0],
                ) && row == outputs_of(outputs, scope_of(table, rows[i], db));
            lemma_condition_holds(table, rows[i], db, column, operator);
            assert(every[i] == scope_of(table, rows[i], db));
            assert(every.contains(every[i]));
            lemma_where_all(every, select.conditions, 0, every[i]);
            let k = choose|k: int| 0 <= k < scopes.len() && scopes[k] == every[i];
            assert(all[k] == row);
            assert(all.contains(row));
        }
    }
}

proof fn lemma_one_output(name: Seq<char>, scope: Scope)
    ensures
        joined(seq![plain(Expr::Column(name))].map_values(|o: Output| output_text(o)), ", "@) == name,
        outputs_of(seq![plain(Expr::Column(name))], scope) == seq![in_row(scope.row, name)],
        bound_in_outputs(seq![plain(Expr::Column(name))]) == 0,
{
    let outputs = seq![plain(Expr::Column(name))];
    assert(outputs.map_values(|o: Output| output_text(o)) =~= seq![name]);
    assert(outputs_of(outputs, scope) =~= seq![in_row(scope.row, name)]);
    assert(outputs.drop_last() =~= Seq::<Output>::empty());
    reveal_with_fuel(bound_in_outputs, 2);
}

proof fn lemma_two_outputs(a: Seq<char>, b: Seq<char>, scope: Scope)
    ensures
        joined(
            seq![plain(Expr::Column(a)), plain(Expr::Column(b))].map_values(
                |o: Output| output_text(o),
            ),
            ", "@,
        ) == a + ", "@ + b,
        outputs_of(seq![plain(Expr::Column(a)), plain(Expr::Column(b))], scope) == seq![
            in_row(scope.row, a),
            in_row(scope.row, b),
        ],
        bound_in_outputs(seq![plain(Expr::Column(a)), plain(Expr::Column(b))]) == 0,
{
    let outputs = seq![plain(Expr::Column(a)), plain(Expr::Column(b))];
    assert(outputs.map_values(|o: Output| output_text(o)) =~= seq![a, b]);
    lemma_joined_two(a, b, ", "@);
    assert(outputs_of(outputs, scope) =~= seq![in_row(scope.row, a), in_row(scope.row, b)]);
    assert(outputs.drop_last() =~= seq![plain(Expr::Column(a))]);
    assert(outputs.drop_last().drop_last() =~= Seq::<Output>::empty());
    reveal_with_fuel(bound_in_outputs, 3);
}

/// The statement that looks up a bucket finds the number of every bucket with that name, and of no
/// other.
#[verifier::spinoff_prover]
pub proof fn law_bucket_is_found_by_its_name(
    name: Seq<char>,
    rows: Seq<Row>,
    json: JsonText,
    answer: Seq<Seq<Datum>>,
)
    requires
        is_answer(
            look_up(seq![plain(Expr::Column("id"@))], "buckets"@, "name"@, " = "@),
            with_table("buckets"@, rows, bid_statement(name).params, json),
            answer,
        ),
    ensures
        reads_as(
            bid_statement(name),
            look_up(seq![plain(Expr::Column("id"@))], "buckets"@, "name"@, " = "@),
        ),
        forall|row: Seq<Datum>| #[trigger]
            answer.contains(row) <==> exists|i: int|
                0 <= i < rows.len() && in_row(#[trigger] rows[i], "name"@) == Datum::Text(name) && row
                    == seq![in_row(rows[i], "id"@)],
{
    let outputs = seq![plain(Expr::Column("id"@))];
    let db = with_table("buckets"@, rows, bid_statement(name).params, json);
    lemma_one_output("id"@, scope_of("buckets"@, Map::empty(), db));
    lemma_look_up_text(outputs, "id"@, "buckets"@, "name"@, " = "@);
    assert("SELECT "@ + "id"@ + " FROM "@ + "buckets"@ + " WHERE "@ + "name"@ + " = "@ + "?"@
        =~= "SELECT id FROM buckets WHERE name = ?"@) by {
        lemma_words();
        reveal_strlit("SELECT ");
        reveal_strlit(" FROM ");
        reveal_strlit(" WHERE ");
        reveal_strlit("buckets");
        reveal_strlit("name");
        reveal_strlit("SELECT id FROM buckets WHERE name = ?");
    }
    lemma_look_up(outputs, "buckets"@, "name"@, " = "@, rows, db, answer);
    lemma_operators();
    assert forall|row: Seq<Datum>| #[trigger] answer.contains(row) <==> exists|i: int|
        0 <= i < rows.len() && in_row(#[trigger] rows[i], "name"@) == Datum::Text(name) && row
            == seq![in_row(rows[i], "id"@)] by {
        assert forall|i: int| 0 <= i < rows.len() implies (meets_condition(
            #[trigger] rows[i],
            "name"@,
            " = "@,
            db.bound[0],
        ) <==> in_row(rows[i], "name"@) == Datum::Text(name)) && outputs_of(
            outputs,
            scope_of("buckets"@, rows[i], db),
        ) == seq![in_row(rows[i], "id"@)] by {
            lemma_one_output("id"@, scope_of("buckets"@, rows[i], db));
        }
    }
}

/// The statement that reads the value of a key finds every value that is stored under it, and no
/// other.
#[verifier::spinoff_prover]
pub proof fn law_value_is_found_by_its_key(
    key: Seq<char>,
    rows: Seq<Row>,
    json: JsonText,
    answer: Seq<Seq<Datum>>,
)
    requires
        is_answer(
            look_up(seq![plain(Expr::Column("value"@))], "key_value"@, "key"@, " = "@),
            with_table("key_value"@, rows, value_statement(key).params, json),
            answer,
        ),
    ensures
        reads_as(
            value_statement(key),
            look_up(seq![plain(Expr::Column("value"@))], "key_value"@, "key"@, " = "@),
        ),
        forall|row: Seq<Datum>| #[trigger]
            answer.contains(row) <==> exists|i: int|
                0 <= i < rows.len() && in_row(#[trigger] rows[i], "key"@) == Datum::Text(key) && row
                    == seq![in_row(rows[i], "value"@)],
{
    let outputs = seq![plain(Expr::Column("value"@))];
    let db = with_table("key_value"@, rows, value_statement(key).params, json);
    lemma_one_output("value"@, scope_of("key_value"@, Map::empty(), db));
    lemma_look_up_text(outputs, "value"@, "key_value"@, "key"@, " = "@);
    assert("SELECT "@ + "value"@ + " FROM "@ + "key_value"@ + " WHERE "@ + "key"@ + " = "@ + "?"@
        =~= "SELECT value FROM key_value WHERE key = ?"@) by {
        lemma_words();
        reveal_strlit("SELECT ");
        reveal_strlit(" FROM ");
        reveal_strlit(" WHERE ");
        reveal_strlit("key_value");
        reveal_strlit("key");
        reveal_strlit("value");
        reveal_strlit("SELECT value FROM key_value WHERE key = ?");
    }
    lemma_look_up(outputs, "key_value"@, "key"@, " = "@, rows, db, answer);
    lemma_operators();
    assert forall|row: Seq<Datum>| #[trigger] answer.contains(row) <==> exists|i: int|
        0 <= i < rows.len() && in_row(#[trigger] rows[i], "key"@) == Datum::Text(key) && row
            == seq![in_row(rows[i], "value"@)] by {
        assert forall|i: int| 0 <= i < rows.len() implies (meets_condition(
            #[trigger] rows[i],
            "key"@,
            " = "@,
            db.bound[0],
        ) <==> in_row(rows[i], "key"@) == Datum::Text(key)) && outputs_of(
            outputs,
            scope_of("key_value"@, rows[i], db),
        ) == seq![in_row(rows[i], "value"@)] by {
            lemma_one_output("value"@, scope_of("key_value"@, rows[i], db));
        }
    }
}

/// The statement that reads the values of keys that are like a pattern finds each such key with its
/// value, and no other.
#[verifier::spinoff_prover]
pub proof fn law_values_are_found_by_a_pattern(
    pattern: Seq<char>,
    rows: Seq<Row>,
    json: JsonText,
    answer: Seq<Seq<Datum>>,
)
    requires
        is_answer(
            look_up(
                seq![plain(Expr::Column("key"@)), plain(Expr::Column("value"@))],
                "key_value"@,
                "key"@,
                " LIKE "@,
            ),
            with_table("key_value"@, rows, values_statement(pattern).params, json),
            answer,
        ),
    ensures
        reads_as(
            values_statement(pattern),
            look_up(
                seq![plain(Expr::Column("key"@)), plain(Expr::Column("value"@))],
                "key_value"@,
                "key"@,
                " LIKE "@,
            ),
        ),
        forall|row: Seq<Datum>| #[trigger]
            answer.contains(row) <==> exists|i: int|
                0 <= i < rows.len() && is_like(#[trigger] rows[i], pattern) && row == seq![
                    in_row(rows[i], "key"@),
                    in_row(rows[i], "value"@),
                ],
{
    let outputs = seq![plain(Expr::Column("key"@)), plain(Expr::Column("value"@))];
    let db = with_table("key_value"@, rows, values_statement(pattern).params, json);
    lemma_two_outputs("key"@, "value"@, scope_of("key_value"@, Map::empty(), db));
    lemma_look_up_text(outputs, "key"@ + ", "@ + "value"@, "key_value"@, "key"@, " LIKE "@);
    assert("SELECT "@ + ("key"@ + ", "@ + "value"@) + " FROM "@ + "key_value"@ + " WHERE "@ + "key"@
        + " LIKE "@ + "?"@ =~= "SELECT key, value FROM key_value WHERE key LIKE ?"@) by {
        lemma_words();
        reveal_strlit("SELECT ");
        reveal_strlit(" FROM ");
        reveal_strlit(" WHERE ");
        reveal_strlit("key_value");
        reveal_strlit("key");
        reveal_strlit("value");
        reveal_strlit(" LIKE ");
        reveal_strlit("SELECT key, value FROM key_value WHERE key LIKE ?");
    }
    lemma_look_up(outputs, "key_value"@, "key"@, " LIKE "@, rows, db, answer);
    lemma_operators();
    assert forall|row: Seq<Datum>| #[trigger] answer.contains(row) <==> exists|i: int|
        0 <= i < rows.len() && is_like(#[trigger] rows[i], pattern) && row == seq![
            in_row(rows[i], "key"@),
            in_row(rows[i], "value"@),
        ] by {
        assert forall|i: int| 0 <= i < rows.len() implies (meets_condition(
            #[trigger] rows[i],
            "key"@,
            " LIKE "@,
            db.bound[0],
        ) <==> is_like(rows[i], pattern)) && outputs_of(
            outputs,
            scope_of("key_value"@, rows[i], db),
        ) == seq![in_row(rows[i], "key"@), in_row(rows[i], "value"@)] by {
            lemma_two_outputs("key"@, "value"@, scope_of("key_value"@, rows[i], db));
        }
    }
}

/// Whether the key of a row is like a pattern.
pub open spec fn is_like(row: Row, pattern: Seq<char>) -> bool {
    in_row(row, "key"@) matches Datum::Text(key) && alike(key, pattern)
}

/// A pattern that ends with a percent sign, and holds no other wildcard, describes the texts that
/// start with what stands before it.
#[verifier::spinoff_prover]
pub proof fn law_pattern_describes_what_starts_alike(text: Seq<char>, start: Seq<char>)
    requires
        forall|i: int| 0 <= i < start.len() ==> (#[trigger] start[i]) != '%' && start[i] != '_',
    ensures
        alike(text, start.push('%')) <==> start.len() <= text.len() && text.take(start.len() as int)
            == start,
{
    let pattern = start.push('%');
    assert(pattern.drop_last() =~= start);
    if alike(text, pattern) {
        let n = choose|n: int| 0 <= n <= text.len() && alike(#[trigger] text.take(n), start);
        lemma_alike_plain(text.take(n), start);
    }
    if start.len() <= text.len() && text.take(start.len() as int) == start {
        lemma_alike_plain(start, start);
        assert(alike(text.take(start.len() as int), start));
    }
}

proof fn lemma_alike_plain(text: Seq<char>, pattern: Seq<char>)
    requires
        forall|i: int| 0 <= i < pattern.len() ==> (#[trigger] pattern[i]) != '%' && pattern[i] != '_',
    ensures
        alike(text, pattern) <==> text == pattern,
    decreases pattern.len(),
{
    if pattern.len() == 0 {
        assert(text.len() == 0 ==> text =~= pattern);
    } else {
        let head = pattern.drop_last();
        assert(pattern[pattern.len() - 1] != '%');
        assert forall|i: int| 0 <= i < head.len() implies (#[trigger] head[i]) != '%' && head[i]
            != '_' by {
            assert(head[i] == pattern[i]);
        }
        if text.len() > 0 {
            lemma_alike_plain(text.drop_last(), head);
            if alike(text, pattern) {
                assert(text =~= text.drop_last().push(text.last()));
                assert(pattern =~= head.push(pattern.last()));
            }
        }
    }
}

/// The statement that stores a value under a key.
pub open spec fn value_insert() -> Change {
    Change::Insert {
        in_place: true,
        table: "key_value"@,
        blank: false,
        columns: seq!["key"@, "value"@, "last_modified"@],
        numbered: false,
    }
}

#[verifier::spinoff_prover]
proof fn lemma_value_insert_text()
    ensures
        change_text(value_insert())
            == "INSERT OR REPLACE INTO key_value(key, value, last_modified) VALUES (?, ?, ?)"@,
{
    lemma_placeholders();
    let columns = seq!["key"@, "value"@, "last_modified"@];
    assert(columns =~= seq!["key"@, "value"@].push("last_modified"@));
    lemma_joined_two("key"@, "value"@, ", "@);
    lemma_joined_more(seq!["key"@, "value"@], "last_modified"@, ", "@);
    let list = "key"@ + ", "@ + "value"@ + ", "@ + "last_modified"@;
    let whole = "INSERT OR REPLACE INTO "@ + "key_value"@ + "("@ + list + ") VALUES ("@ + "?, ?, ?"@
        + ")"@;
    assert(change_text(value_insert()) =~= whole);
    assert(whole =~= "INSERT OR REPLACE INTO key_value(key, value, last_modified) VALUES (?, ?, ?)"@)
        by {
        lemma_words();
        reveal_strlit("INSERT OR REPLACE INTO ");
        reveal_strlit("key_value");
        reveal_strlit("key");
        reveal_strlit("value");
        reveal_strlit("last_modified");
        reveal_strlit(") VALUES (");
        reveal_strlit("?, ?, ?");
        reveal_strlit("INSERT OR REPLACE INTO key_value(key, value, last_modified) VALUES (?, ?, ?)");
    }
}

/// What is left of rows where others are taken out.
proof fn lemma_kept_rows(rows: Seq<Row>, pred: spec_fn(Row) -> bool, row: Row)
    ensures
        rows.filter(pred).contains(row) <==> rows.contains(row) && pred(row),
{
    let kept = rows.filter(pred);
    if kept.contains(row) {
        rows.lemma_filter_contains_rev(pred, row);
        let k = choose|k: int| 0 <= k < kept.len() && kept[k] == row;
        rows.lemma_filter_pred(pred, k);
        assert(pred(kept[k]));
    }
    if rows.contains(row) && pred(row) {
        let k = choose|k: int| 0 <= k < rows.len() && rows[k] == row;
        assert(pred(rows[k]));
        rows.lemma_filter_contains(pred, k);
    }
}

/// The statement that stores a value leaves one row for its key: with this value, and when it was
/// stored. The rows of other keys are as they were.
#[verifier::spinoff_prover]
pub proof fn law_stored_value_is_in_the_table(
    key: Seq<char>,
    data: Seq<char>,
    timestamp: i64,
    rows: Seq<Row>,
    json: JsonText,
    number: int,
) -> (stored: Row)
    ensures
        changes_as(store_value_statement(key, data, timestamp), value_insert()),
        in_row(stored, "key"@) == Datum::Text(key),
        in_row(stored, "value"@) == Datum::Text(data),
        in_row(stored, "last_modified"@) == Datum::Integer(timestamp as int),
        forall|row: Row| #[trigger]
            changed(
                value_insert(),
                with_table(
                    "key_value"@,
                    rows,
                    store_value_statement(key, data, timestamp).params,
                    json,
                ),
                "key"@,
                number,
            ).contains(row) <==> row == stored || (rows.contains(row) && in_row(row, "key"@)
                != Datum::Text(key)),
{
    let db = with_table(
        "key_value"@,
        rows,
        store_value_statement(key, data, timestamp).params,
        json,
    );
    let columns = seq!["key"@, "value"@, "last_modified"@];
    let stored = with_columns(Map::empty(), columns, db.bound);
    lemma_value_insert_text();
    assert(columns[0] == "key"@);
    assert(columns.contains("key"@));
    assert(columns.drop_last() =~= seq!["key"@, "value"@]);
    assert(columns.drop_last().drop_last() =~= seq!["key"@]);
    assert(columns.drop_last().drop_last().drop_last() =~= Seq::<Seq<char>>::empty());
    reveal_with_fuel(with_columns, 4);
    assert(in_row(stored, "key"@) == Datum::Text(key) && in_row(stored, "value"@) == Datum::Text(data)
        && in_row(stored, "last_modified"@) == Datum::Integer(timestamp as int)) by {
        reveal_strlit("key");
        reveal_strlit("value");
        reveal_strlit("last_modified");
        assert("key"@.len() == 3 && "value"@.len() == 5 && "last_modified"@.len() == 13);
    }
    let pred = |other: Row| in_row(other, "key"@) != in_row(stored, "key"@);
    let others = rows.filter(pred);
    let after = changed(value_insert(), db, "key"@, number);
    assert(db.tables["key_value"@] == rows);
    assert(after == others.push(stored));
    assert forall|row: Row| #[trigger] after.contains(row) <==> row == stored || (rows.contains(row)
        && in_row(row, "key"@) != Datum::Text(key)) by {
        lemma_kept_rows(rows, pred, row);
        if after.contains(row) {
            let k = choose|k: int| 0 <= k < after.len() && after[k] == row;
            if k < others.len() {
                assert(others[k] == row);
            }
        }
        if others.contains(row) {
            let k = choose|k: int| 0 <= k < others.len() && others[k] == row;
            assert(after[k] == row);
        }
        assert(after[after.len() - 1] == stored);
    }
    stored
}

/// The statement that deletes rows in which a column has the bound value.
pub open spec fn delete_by(table: Seq<char>, column: Seq<char>) -> Change {
    Change::Delete { table, conditions: seq![infix(Expr::Column(column), " = "@, Expr::Bound)] }
}

proof fn lemma_delete_by(
    table: Seq<char>,
    column: Seq<char>,
    rows: Seq<Row>,
    db: Database,
    key: Seq<char>,
    number: int,
    row: Row,
)
    requires
        db.tables == Map::<Seq<char>, Seq<Row>>::empty().insert(table, rows),
        db.bound.len() == 1,
    ensures
        change_text(delete_by(table, column)) == "DELETE FROM "@ + table + " WHERE "@ + column + " = "@
            + "?"@,
        changed(delete_by(table, column), db, key, number).contains(row) <==> rows.contains(row)
            && !meets_condition(row, column, " = "@, db.bound[0]),
{
    let conditions = seq![infix(Expr::Column(column), " = "@, Expr::Bound)];
    lemma_condition_text(column, " = "@);
    assert(change_text(delete_by(table, column)) =~= "DELETE FROM "@ + table + " WHERE "@ + column
        + " = "@ + "?"@);
    let pred = |row: Row| !all_hold(conditions, scope_of(table, row, db), 0);
    assert(db.tables[table] == rows);
    lemma_kept_rows(rows, pred, row);
    lemma_condition_holds(table, row, db, column, " = "@);
}

/// The statement that deletes the value of a key leaves no row for it, and those of other keys as
/// they were.
#[verifier::spinoff_prover]
pub proof fn law_deleted_value_is_gone(
    key: Seq<char>,
    rows: Seq<Row>,
    json: JsonText,
    number: int,
    row: Row,
)
    ensures
        changes_as(delete_value_statement(key), delete_by("key_value"@, "key"@)),
        changed(
            delete_by("key_value"@, "key"@),
            with_table("key_value"@, rows, delete_value_statement(key).params, json),
            "key"@,
            number,
        ).contains(row) <==> rows.contains(row) && in_row(row, "key"@) != Datum::Text(key),
{
    let db = with_table("key_value"@, rows, delete_value_statement(key).params, json);
    lemma_delete_by("key_value"@, "key"@, rows, db, "key"@, number, row);
    lemma_operators();
    assert("DELETE FROM "@ + "key_value"@ + " WHERE "@ + "key"@ + " = "@ + "?"@
        =~= "DELETE FROM key_value WHERE key = ?"@) by {
        lemma_words();
        reveal_strlit("DELETE FROM ");
        reveal_strlit(" WHERE ");
        reveal_strlit("key_value");
        reveal_strlit("key");
        reveal_strlit("DELETE FROM key_value WHERE key = ?");
    }
}

/// The statement that deletes a bucket takes out its row, and leaves those of other buckets as they
/// were.
#[verifier::spinoff_prover]
pub proof fn law_deleted_bucket_is_gone(
    bid: i64,
    rows: Seq<Row>,
    json: JsonText,
    number: int,
    row: Row,
)
    ensures
        changes_as(delete_bucket_statement(bid), delete_by("buckets"@, "id"@)),
        changed(
            delete_by("buckets"@, "id"@),
            with_table("buckets"@, rows, delete_bucket_statement(bid).params, json),
            "id"@,
            number,
        ).contains(row) <==> rows.contains(row) && in_row(row, "id"@) != Datum::Integer(bid as int),
{
    let db = with_table("buckets"@, rows, delete_bucket_statement(bid).params, json);
    lemma_delete_by("buckets"@, "id"@, rows, db, "id"@, number, row);
    lemma_operators();
    assert("DELETE FROM "@ + "buckets"@ + " WHERE "@ + "id"@ + " = "@ + "?"@
        =~= "DELETE FROM buckets WHERE id = ?"@) by {
        lemma_words();
        reveal_strlit("DELETE FROM ");
        reveal_strlit(" WHERE ");
        reveal_strlit("buckets");
        reveal_strlit("DELETE FROM buckets WHERE id = ?");
    }
}

/// The columns of a bucket, but for its number.
pub open spec fn bucket_columns() -> Seq<Seq<char>> {
    seq!["name"@, "\"type\""@, "client"@, "hostname"@, "created"@, "data"@]
}

/// The statement that stores a bucket.
pub open spec fn bucket_insert() -> Change {
    Change::Insert {
        in_place: false,
        table: "buckets"@,
        blank: true,
        columns: bucket_columns(),
        numbered: true,
    }
}

#[verifier::spinoff_prover]
proof fn lemma_bucket_insert_text()
    ensures
        change_text(bucket_insert())
            == "INSERT INTO buckets (name, \"type\", client, hostname, created, data) VALUES (?, ?, ?, ?, ?, ?) RETURNING id"@,
{
    lemma_placeholders();
    let two = seq!["name"@, "\"type\""@];
    let columns = bucket_columns();
    assert(columns =~= two.push("client"@).push("hostname"@).push("created"@).push("data"@));
    lemma_joined_two("name"@, "\"type\""@, ", "@);
    lemma_joined_more(two, "client"@, ", "@);
    lemma_joined_more(two.push("client"@), "hostname"@, ", "@);
    lemma_joined_more(two.push("client"@).push("hostname"@), "created"@, ", "@);
    lemma_joined_more(two.push("client"@).push("hostname"@).push("created"@), "data"@, ", "@);
    let list = "name"@ + ", "@ + "\"type\""@ + ", "@ + "client"@ + ", "@ + "hostname"@ + ", "@
        + "created"@ + ", "@ + "data"@;
    let whole = "INSERT INTO "@ + "buckets"@ + " "@ + "("@ + list + ") VALUES ("@
        + "?, ?, ?, ?, ?, ?"@ + ")"@ + " RETURNING id"@;
    assert(change_text(bucket_insert()) == whole);
    assert(whole
        =~= "INSERT INTO buckets (name, \"type\", client, hostname, created, data) VALUES (?, ?, ?, ?, ?, ?) RETURNING id"@)
        by {
        lemma_words();
        reveal_strlit("INSERT INTO ");
        reveal_strlit("buckets");
        reveal_strlit("name");
        reveal_strlit("\"type\"");
        reveal_strlit("client");
        reveal_strlit("hostname");
        reveal_strlit("created");
        reveal_strlit(") VALUES (");
        reveal_strlit("?, ?, ?, ?, ?, ?");
        reveal_strlit(" RETURNING id");
        reveal_strlit("INSERT INTO buckets (name, \"type\", client, hostname, created, data) VALUES (?, ?, ?, ?, ?, ?) RETURNING id");
    }
}

/// The statement that stores a bucket adds one row, under the next number, with its name, its type,
/// its client, its host, when it was created and its data. All other rows are as they were.
#[verifier::spinoff_prover]
pub proof fn law_stored_bucket_is_in_the_table(
    bucket: BucketView,
    created: Seq<char>,
    data: Seq<char>,
    rows: Seq<Row>,
    json: JsonText,
    number: int,
) -> (stored: Row)
    ensures
        changes_as(new_bucket_statement(bucket, created, data), bucket_insert()),
        in_row(stored, "id"@) == Datum::Integer(number),
        in_row(stored, "name"@) == Datum::Text(bucket.id),
        in_row(stored, "\"type\""@) == Datum::Text(bucket._type),
        in_row(stored, "client"@) == Datum::Text(bucket.client),
        in_row(stored, "hostname"@) == Datum::Text(bucket.hostname),
        in_row(stored, "created"@) == Datum::Text(created),
        in_row(stored, "data"@) == Datum::Text(data),
        changed(
            bucket_insert(),
            with_table(
                "buckets"@,
                rows,
                new_bucket_statement(bucket, created, data).params,
                json,
            ),
            "id"@,
            number,
        ) == rows.push(stored),
{
    let db = with_table(
        "buckets"@,
        rows,
        new_bucket_statement(bucket, created, data).params,
        json,
    );
    let columns = bucket_columns();
    lemma_bucket_insert_text();
    assert(columns.drop_last() =~= columns.take(5));
    assert(columns.take(5).drop_last() =~= columns.take(4));
    assert(columns.take(4).drop_last() =~= columns.take(3));
    assert(columns.take(3).drop_last() =~= columns.take(2));
    assert(columns.take(2).drop_last() =~= columns.take(1));
    assert(columns.take(1).drop_last() =~= columns.take(0));
    reveal_with_fuel(with_columns, 7);
    let given = with_columns(Map::empty(), columns, db.bound);
    assert(given == Map::<Seq<char>, Datum>::empty().insert("name"@, datum(db.bound[0])).insert(
        "\"type\""@,
        datum(db.bound[1]),
    ).insert("client"@, datum(db.bound[2])).insert("hostname"@, datum(db.bound[3])).insert(
        "created"@,
        datum(db.bound[4]),
    ).insert("data"@, datum(db.bound[5])));
    let stored = given.insert("id"@, Datum::Integer(number));
    lemma_bucket_columns_differ();
    assert(!columns.contains("id"@)) by {
        assert(forall|i: int| 0 <= i < columns.len() ==> (#[trigger] columns[i]).len() != 2);
    }
    assert(db.tables["buckets"@] == rows);
    stored
}

proof fn lemma_bucket_columns_differ()
    ensures
        "id"@.len() == 2,
        "name"@.len() == 4,
        "data"@.len() == 4,
        "\"type\""@.len() == 6,
        "client"@.len() == 6,
        "hostname"@.len() == 8,
        "created"@.len() == 7,
        "name"@ != "data"@,
        "\"type\""@ != "client"@,
{
    reveal_strlit("id");
    reveal_strlit("name");
    reveal_strlit("data");
    reveal_strlit("\"type\"");
    reveal_strlit("client");
    reveal_strlit("hostname");
    reveal_strlit("created");
    assert("name"@[0] == 'n' && "data"@[0] == 'd' && "\"type\""@[0] == '"' && "client"@[0] == 'c');
}

/// The columns of a bucket in the statement that reads all buckets, and the time that its events
/// span.
pub open spec fn buckets_outputs() -> Seq<Output> {
    seq![
        plain(Expr::ColumnOf("buckets"@, "id"@)),
        plain(Expr::ColumnOf("buckets"@, "name"@)),
        plain(Expr::ColumnOf("buckets"@, "\"type\""@)),
        plain(Expr::ColumnOf("buckets"@, "client"@)),
        plain(Expr::ColumnOf("buckets"@, "hostname"@)),
        plain(Expr::ColumnOf("buckets"@, "created"@)),
        plain(Expr::Call("min"@, Box::new(Expr::ColumnOf("events"@, "starttime"@)))),
        plain(Expr::Call("max"@, Box::new(Expr::ColumnOf("events"@, "endtime"@)))),
        plain(Expr::ColumnOf("buckets"@, "data"@)),
    ]
}

/// The statement that reads all buckets, with the time that their events span.
pub open spec fn buckets_summary() -> Summary {
    Summary {
        outputs: buckets_outputs(),
        left: "buckets"@,
        right: "events"@,
        on: seq![
            infix(
                Expr::ColumnOf("buckets"@, "id"@),
                " = "@,
                Expr::ColumnOf("events"@, "bucketrow"@),
            ),
        ],
    }
}

proof fn lemma_bucket_column_texts()
    ensures
        expr_text(Expr::ColumnOf("buckets"@, "id"@)) == "buckets.id"@,
        expr_text(Expr::ColumnOf("buckets"@, "name"@)) == "buckets.name"@,
        expr_text(Expr::ColumnOf("buckets"@, "\"type\""@)) == "buckets.\"type\""@,
        expr_text(Expr::ColumnOf("buckets"@, "client"@)) == "buckets.client"@,
        expr_text(Expr::ColumnOf("buckets"@, "hostname"@)) == "buckets.hostname"@,
        expr_text(Expr::ColumnOf("buckets"@, "created"@)) == "buckets.created"@,
        expr_text(Expr::ColumnOf("buckets"@, "data"@)) == "buckets.data"@,
        expr_text(Expr::ColumnOf("events"@, "starttime"@)) == "events.starttime"@,
        expr_text(Expr::ColumnOf("events"@, "endtime"@)) == "events.endtime"@,
        expr_text(Expr::ColumnOf("events"@, "bucketrow"@)) == "events.bucketrow"@,
{
    lemma_words();
    reveal_strlit("buckets");
    reveal_strlit("events");
    reveal_strlit("name");
    reveal_strlit("\"type\"");
    reveal_strlit("client");
    reveal_strlit("hostname");
    reveal_strlit("created");
    reveal_strlit("buckets.id");
    reveal_strlit("buckets.name");
    reveal_strlit("buckets.\"type\"");
    reveal_strlit("buckets.client");
    reveal_strlit("buckets.hostname");
    reveal_strlit("buckets.created");
    reveal_strlit("buckets.data");
    reveal_strlit("events.starttime");
    reveal_strlit("events.endtime");
    reveal_strlit("events.bucketrow");
    assert("buckets"@ + "."@ + "id"@ =~= "buckets.id"@);
    assert("buckets"@ + "."@ + "name"@ =~= "buckets.name"@);
    assert("buckets"@ + "."@ + "\"type\""@ =~= "buckets.\"type\""@);
    assert("buckets"@ + "."@ + "client"@ =~= "buckets.client"@);
    assert("buckets"@ + "."@ + "hostname"@ =~= "buckets.hostname"@);
    assert("buckets"@ + "."@ + "created"@ =~= "buckets.created"@);
    assert("buckets"@ + "."@ + "data"@ =~= "buckets.data"@);
    assert("events"@ + "."@ + "starttime"@ =~= "events.starttime"@);
    assert("events"@ + "."@ + "endtime"@ =~= "events.endtime"@);
    assert("events"@ + "."@ + "bucketrow"@ =~= "events.bucketrow"@);
}

#[verifier::spinoff_prover]
proof fn lemma_buckets_outputs_text()
    ensures
        joined(buckets_outputs().map_values(|o: Output| output_text(o)), ", "@)
            == "buckets.id, buckets.name, buckets.\"type\", buckets.client, buckets.hostname, buckets.created, min(events.starttime), max(events.endtime), buckets.data"@,
{
    lemma_bucket_column_texts();
    let texts = buckets_outputs().map_values(|o: Output| output_text(o));
    let a = "buckets.id"@;
    let b = "buckets.name"@;
    let c = "buckets.\"type\""@;
    let d = "buckets.client"@;
    let e = "buckets.hostname"@;
    let f = "buckets.created"@;
    let g = "min"@ + "("@ + "events.starttime"@ + ")"@;
    let h = "max"@ + "("@ + "events.endtime"@ + ")"@;
    let i = "buckets.data"@;
    let p2 = seq![a, b];
    let p3 = p2.push(c);
    let p4 = p3.push(d);
    let p5 = p4.push(e);
    let p6 = p5.push(f);
    let p7 = p6.push(g);
    let p8 = p7.push(h);
    assert(texts =~= p8.push(i));
    lemma_joined_two(a, b, ", "@);
    lemma_joined_more(p2, c, ", "@);
    lemma_joined_more(p3, d, ", "@);
    lemma_joined_more(p4, e, ", "@);
    lemma_joined_more(p5, f, ", "@);
    lemma_joined_more(p6, g, ", "@);
    lemma_joined_more(p7, h, ", "@);
    lemma_joined_more(p8, i, ", "@);
    assert(a + ", "@ + b + ", "@ + c + ", "@ + d + ", "@ + e + ", "@ + f + ", "@ + g + ", "@ + h
        + ", "@ + i
        =~= "buckets.id, buckets.name, buckets.\"type\", buckets.client, buckets.hostname, buckets.created, min(events.starttime), max(events.endtime), buckets.data"@)
        by {
        lemma_words();
        reveal_strlit("buckets.id");
        reveal_strlit("buckets.name");
        reveal_strlit("buckets.\"type\"");
        reveal_strlit("buckets.client");
        reveal_strlit("buckets.hostname");
        reveal_strlit("buckets.created");
        reveal_strlit("buckets.data");
        reveal_strlit("events.starttime");
        reveal_strlit("events.endtime");
        reveal_strlit("min");
        reveal_strlit("max");
        reveal_strlit("buckets.id, buckets.name, buckets.\"type\", buckets.client, buckets.hostname, buckets.created, min(events.starttime), max(events.endtime), buckets.data");
    }
}

#[verifier::spinoff_prover]
proof fn lemma_buckets_text()
    ensures
        summary_text(buckets_summary()) == buckets_statement().sql,
{
    let summary = buckets_summary();
    lemma_buckets_outputs_text();
    lemma_bucket_column_texts();
    let outputs = "buckets.id, buckets.name, buckets.\"type\", buckets.client, buckets.hostname, buckets.created, min(events.starttime), max(events.endtime), buckets.data"@;
    let on = "buckets.id"@ + " = "@ + "events.bucketrow"@;
    assert(summary.on.map_values(|c: Expr| expr_text(c)) =~= seq![on]);
    assert(all_text(summary.on) == on);
    let whole = "SELECT "@ + outputs + " FROM "@ + "buckets"@ + " LEFT OUTER JOIN "@ + "events"@
        + " ON "@ + on + " GROUP BY ALL"@;
    assert(summary_text(summary) == whole);
    assert(whole =~= buckets_statement().sql) by {
        lemma_words();
        reveal_strlit("SELECT ");
        reveal_strlit(" FROM ");
        reveal_strlit("buckets");
        reveal_strlit(" LEFT OUTER JOIN ");
        reveal_strlit("events");
        reveal_strlit(" ON ");
        reveal_strlit("buckets.id");
        reveal_strlit("events.bucketrow");
        reveal_strlit(" GROUP BY ALL");
        reveal_strlit("buckets.id, buckets.name, buckets.\"type\", buckets.client, buckets.hostname, buckets.created, min(events.starttime), max(events.endtime), buckets.data");
        reveal_strlit("SELECT buckets.id, buckets.name, buckets.\"type\", buckets.client, buckets.hostname, buckets.created, min(events.starttime), max(events.endtime), buckets.data FROM buckets LEFT OUTER JOIN events ON buckets.id = events.bucketrow GROUP BY ALL");
    }
}

/// What can be seen of a bucket and an event.
spec fn bucket_scope(bucket: Row, record: EventRecord, db: Database) -> Scope {
    scope_of_two(("buckets"@, bucket), ("events"@, record.row()), db)
}

/// What can be seen of a bucket and each of the events.
spec fn bucket_scopes(bucket: Row, records: Seq<EventRecord>, db: Database) -> Seq<Scope> {
    records.map_values(|r: EventRecord| bucket_scope(bucket, r, db))
}

proof fn lemma_bucket_values(bucket: Row, record: EventRecord, db: Database)
    ensures
        value_of(Expr::ColumnOf("events"@, "starttime"@), bucket_scope(bucket, record, db), 0)
            == Datum::Integer(record.starttime),
        value_of(Expr::ColumnOf("events"@, "endtime"@), bucket_scope(bucket, record, db), 0)
            == Datum::Integer(record.endtime),
        value_of(Expr::ColumnOf("events"@, "bucketrow"@), bucket_scope(bucket, record, db), 0)
            == Datum::Integer(record.bucketrow),
        forall|name: Seq<char>| #[trigger]
            value_of(Expr::ColumnOf("buckets"@, name), bucket_scope(bucket, record, db), 0) == in_row(
                bucket,
                name,
            ),
{
    let scope = bucket_scope(bucket, record, db);
    assert(scope.tables["events"@] == record.row() && scope.tables["buckets"@] == bucket) by {
        reveal_strlit("events");
        reveal_strlit("buckets");
        assert("events"@.len() == 6 && "buckets"@.len() == 7);
    }
    lemma_record_columns(record);
}

/// The earliest start and the latest end of the events of a bucket.
#[verifier::spinoff_prover]
proof fn lemma_span_over(bucket: Row, records: Seq<EventRecord>, db: Database)
    ensures
        ({
            let scopes = bucket_scopes(bucket, records, db);
            let first = extreme_over(Expr::ColumnOf("events"@, "starttime"@), scopes, 0, false);
            let last = extreme_over(Expr::ColumnOf("events"@, "endtime"@), scopes, 0, true);
            if records.len() == 0 {
                first == Datum::Null && last == Datum::Null
            } else {
                &&& first is Integer && last is Integer
                &&& forall|i: int|
                    0 <= i < records.len() ==> first->Integer_0 <= (#[trigger] records[i]).starttime
                        && records[i].endtime <= last->Integer_0
                &&& exists|i: int|
                    0 <= i < records.len() && (#[trigger] records[i]).starttime == first->Integer_0
                &&& exists|i: int|
                    0 <= i < records.len() && (#[trigger] records[i]).endtime == last->Integer_0
            }
        }),
    decreases records.len(),
{
    if records.len() > 0 {
        let head = records.drop_last();
        let n = records.len() - 1;
        let scopes = bucket_scopes(bucket, records, db);
        assert(scopes.drop_last() =~= bucket_scopes(bucket, head, db));
        assert(scopes.last() == bucket_scope(bucket, records.last(), db));
        lemma_bucket_values(bucket, records.last(), db);
        lemma_span_over(bucket, head, db);
        let first = extreme_over(Expr::ColumnOf("events"@, "starttime"@), scopes, 0, false);
        let last = extreme_over(Expr::ColumnOf("events"@, "endtime"@), scopes, 0, true);
        assert(records[n] == records.last());
        assert forall|i: int| 0 <= i < records.len() implies first->Integer_0 <= (
        #[trigger] records[i]).starttime && records[i].endtime <= last->Integer_0 by {
            if i < n {
                assert(head[i] == records[i]);
            }
        }
        if head.len() > 0 {
            let before = extreme_over(
                Expr::ColumnOf("events"@, "starttime"@),
                bucket_scopes(bucket, head, db),
                0,
                false,
            );
            let a = choose|a: int|
                0 <= a < head.len() && (#[trigger] head[a]).starttime == before->Integer_0;
            assert(records[a] == head[a]);
            let after = extreme_over(
                Expr::ColumnOf("events"@, "endtime"@),
                bucket_scopes(bucket, head, db),
                0,
                true,
            );
            let b = choose|b: int|
                0 <= b < head.len() && (#[trigger] head[b]).endtime == after->Integer_0;
            assert(records[b] == head[b]);
        }
    }
}

/// Whether a row holds a bucket as it stands in its table, and the time that its events span: from
/// the earliest start to the latest end, or none if there are no events.
pub open spec fn is_bucket_row(row: Seq<Datum>, bucket: Row, events: Seq<EventRecord>) -> bool {
    &&& row.len() == 9
    &&& row[0] == in_row(bucket, "id"@)
    &&& row[1] == in_row(bucket, "name"@)
    &&& row[2] == in_row(bucket, "\"type\""@)
    &&& row[3] == in_row(bucket, "client"@)
    &&& row[4] == in_row(bucket, "hostname"@)
    &&& row[5] == in_row(bucket, "created"@)
    &&& row[8] == in_row(bucket, "data"@)
    &&& if events.len() == 0 {
        row[6] == Datum::Null && row[7] == Datum::Null
    } else {
        &&& row[6] is Integer && row[7] is Integer
        &&& forall|i: int|
            0 <= i < events.len() ==> row[6]->Integer_0 <= (#[trigger] events[i]).starttime
                && events[i].endtime <= row[7]->Integer_0
        &&& exists|i: int|
            0 <= i < events.len() && (#[trigger] events[i]).starttime == row[6]->Integer_0
        &&& exists|i: int|
            0 <= i < events.len() && (#[trigger] events[i]).endtime == row[7]->Integer_0
    }
}

/// A database with these buckets and events.
pub open spec fn with_buckets(
    buckets: Seq<Row>,
    records: Seq<EventRecord>,
    json: JsonText,
) -> Database {
    Database {
        tables: Map::<Seq<char>, Seq<Row>>::empty().insert("buckets"@, buckets).insert(
            "events"@,
            rows_of(records),
        ),
        bound: Seq::empty(),
        json,
    }
}

proof fn lemma_bucket_outputs(scopes: Seq<Scope>, bucket: Row)
    requires
        scopes.len() > 0,
        scopes[0].tables["buckets"@] == bucket,
    ensures
        ({
            let row = outputs_of_all(buckets_outputs(), scopes);
            &&& row.len() == 9
            &&& row[0] == in_row(bucket, "id"@)
            &&& row[1] == in_row(bucket, "name"@)
            &&& row[2] == in_row(bucket, "\"type\""@)
            &&& row[3] == in_row(bucket, "client"@)
            &&& row[4] == in_row(bucket, "hostname"@)
            &&& row[5] == in_row(bucket, "created"@)
            &&& row[6] == extreme_over(Expr::ColumnOf("events"@, "starttime"@), scopes, 0, false)
            &&& row[7] == extreme_over(Expr::ColumnOf("events"@, "endtime"@), scopes, 0, true)
            &&& row[8] == in_row(bucket, "data"@)
        }),
{
    reveal_strlit("sum");
    reveal_strlit("min");
    reveal_strlit("max");
    assert("sum"@[0] == 's' && "min"@[1] == 'i' && "max"@[1] == 'a' && "min"@[0] == 'm' && "max"@[0]
        == 'm');
}

/// The statement that reads all buckets finds one row for each bucket, with its number, name, type,
/// client, host, data and when it was created, as they stand in its table, and the time that its
/// own events span.
#[verifier::spinoff_prover]
pub proof fn law_buckets_span_their_events(
    buckets: Seq<Row>,
    records: Seq<EventRecord>,
    json: JsonText,
    i: int,
    id: int,
)
    requires
        0 <= i < buckets.len(),
        in_row(buckets[i], "id"@) == Datum::Integer(id),
    ensures
        buckets_statement().sql == summary_text(buckets_summary()),
        summarized(buckets_summary(), with_buckets(buckets, records, json)).len() == buckets.len(),
        is_bucket_row(
            summarized(buckets_summary(), with_buckets(buckets, records, json))[i],
            buckets[i],
            kept_records(records, |r: EventRecord| r.bucketrow == id),
        ),
{
    let summary = buckets_summary();
    let db = with_buckets(buckets, records, json);
    let bucket = buckets[i];
    let kept = |r: EventRecord| r.bucketrow == id;
    let own = kept_records(records, kept);
    lemma_buckets_text();
    assert(db.tables["events"@] == rows_of(records) && db.tables["buckets"@] == buckets) by {
        reveal_strlit("events");
        reveal_strlit("buckets");
        assert("events"@.len() == 6 && "buckets"@.len() == 7);
    }
    let every = rows_of(records).map_values(
        |other: Row| scope_of_two(("buckets"@, bucket), ("events"@, other), db),
    );
    assert(every =~= bucket_scopes(bucket, records, db));
    let pred = |scope: Scope| all_hold(summary.on, scope, 0);
    assert forall|r: EventRecord| #[trigger] kept(r) <==> pred(bucket_scope(bucket, r, db)) by {
        let scope = bucket_scope(bucket, r, db);
        let none = Seq::<Expr>::empty();
        let a = summary.on[0];
        assert(summary.on =~= none.push(a));
        lemma_one_more_holds(none, a, scope, 0);
        lemma_infix_holds(
            Expr::ColumnOf("buckets"@, "id"@),
            " = "@,
            Expr::ColumnOf("events"@, "bucketrow"@),
            scope,
            0,
        );
        lemma_bucket_values(bucket, r, db);
        lemma_operators();
        assert(value_of(Expr::ColumnOf("buckets"@, "id"@), scope, 0) == Datum::Integer(id));
    }
    lemma_filtered_bucket_scopes(bucket, records, db, pred, kept);
    let pairs = bucket_scopes(bucket, own, db);
    assert(where_all(every, summary.on, 0) == pairs);
    let scopes = summary_scopes(summary, bucket, db);
    lemma_span_over(bucket, own, db);
    if own.len() == 0 {
        let alone = scope_of_two(("buckets"@, bucket), ("events"@, Map::empty()), db);
        assert(scopes == seq![alone]);
        assert(alone.tables["buckets"@] == bucket && alone.tables["events"@] == Map::<
            Seq<char>,
            Datum,
        >::empty()) by {
            reveal_strlit("events");
            reveal_strlit("buckets");
            assert("events"@.len() == 6 && "buckets"@.len() == 7);
        }
        assert(scopes.drop_last() =~= Seq::<Scope>::empty());
        reveal_with_fuel(extreme_over, 2);
        lemma_bucket_outputs(scopes, bucket);
    } else {
        assert(scopes == pairs);
        assert(scopes[0] == bucket_scope(bucket, own[0], db));
        assert(scopes[0].tables["buckets"@] == bucket) by {
            reveal_strlit("events");
            reveal_strlit("buckets");
            assert("events"@.len() == 6 && "buckets"@.len() == 7);
        }
        lemma_bucket_outputs(scopes, bucket);
    }
}

proof fn lemma_filtered_bucket_scopes(
    bucket: Row,
    records: Seq<EventRecord>,
    db: Database,
    pred: spec_fn(Scope) -> bool,
    kept: spec_fn(EventRecord) -> bool,
)
    requires
        forall|r: EventRecord| #[trigger] kept(r) <==> pred(bucket_scope(bucket, r, db)),
    ensures
        bucket_scopes(bucket, records, db).filter(pred) == bucket_scopes(
            bucket,
            kept_records(records, kept),
            db,
        ),
    decreases records.len(),
{
    reveal(Seq::filter);
    let scopes = bucket_scopes(bucket, records, db);
    if records.len() == 0 {
        assert(scopes.filter(pred) =~= bucket_scopes(bucket, kept_records(records, kept), db));
    } else {
        let head = records.drop_last();
        lemma_filtered_bucket_scopes(bucket, head, db, pred, kept);
        assert(scopes.drop_last() =~= bucket_scopes(bucket, head, db));
        assert(scopes.last() == bucket_scope(bucket, records.last(), db));
        assert(kept(records.last()) <==> pred(bucket_scope(bucket, records.last(), db)));
        assert(scopes.filter(pred) =~= bucket_scopes(bucket, kept_records(records, kept), db));
    }
}

/// The statement that reads the largest number of a table.
pub open spec fn largest_select(table: Seq<char>) -> Select {
    Select {
        outputs: seq![
            plain(
                Expr::CallOfTwo(
                    "coalesce"@,
                    Box::new(Expr::Call("max"@, Box::new(Expr::Column("id"@)))),
                    Box::new(Expr::Number(0)),
                ),
            ),
        ],
        source: Source::Table(table),
        conditions: Seq::empty(),
        group_by: None,
        order_by: Seq::empty(),
        limit: None,
    }
}

proof fn lemma_largest_text(table: Seq<char>)
    ensures
        select_text(largest_select(table)) == "SELECT coalesce(max(id), 0) FROM "@ + table,
{
    let select = largest_select(table);
    let largest = "max"@ + "("@ + "id"@ + ")"@;
    let output = "coalesce"@ + "("@ + largest + ", "@ + seq!['0'] + ")"@;
    assert(expr_text(Expr::Column("id"@)) == "id"@);
    assert(expr_text(Expr::Call("max"@, Box::new(Expr::Column("id"@)))) == largest);
    assert(expr_text(Expr::Number(0)) == seq!['0']);
    assert(select.outputs.map_values(|o: Output| output_text(o)) =~= seq![output]);
    assert(joined(seq![output], ", "@) == output);
    assert(select_text(select) =~= ("SELECT "@ + output + " FROM "@) + table);
    assert("SELECT "@ + output + " FROM "@ =~= "SELECT coalesce(max(id), 0) FROM "@) by {
        lemma_words();
        reveal_strlit("SELECT ");
        reveal_strlit(" FROM ");
        reveal_strlit("coalesce");
        reveal_strlit("max");
        reveal_strlit("SELECT coalesce(max(id), 0) FROM ");
    }
}

proof fn lemma_largest_over(name: Seq<char>, rows: Seq<Row>, db: Database)
    requires
        forall|i: int| 0 <= i < rows.len() ==> in_row(#[trigger] rows[i], "id"@) is Integer,
    ensures
        ({
            let scopes = rows.map_values(|row: Row| scope_of(name, row, db));
            let largest = extreme_over(Expr::Column("id"@), scopes, 0, true);
            if rows.len() == 0 {
                largest == Datum::Null
            } else {
                &&& largest is Integer
                &&& forall|i: int|
                    0 <= i < rows.len() ==> in_row(#[trigger] rows[i], "id"@)->Integer_0
                        <= largest->Integer_0
                &&& exists|i: int| 0 <= i < rows.len() && in_row(#[trigger] rows[i], "id"@) == largest
            }
        }),
    decreases rows.len(),
{
    if rows.len() > 0 {
        let head = rows.drop_last();
        let n = rows.len() - 1;
        let scopes = rows.map_values(|row: Row| scope_of(name, row, db));
        let before = head.map_values(|row: Row| scope_of(name, row, db));
        assert forall|i: int| 0 <= i < head.len() implies in_row(#[trigger] head[i], "id"@) is Integer by {
            assert(head[i] == rows[i]);
        }
        lemma_largest_over(name, head, db);
        assert(scopes.drop_last() =~= before);
        assert(scopes.last() == scope_of(name, rows.last(), db));
        assert(in_row(rows[n], "id"@) is Integer);
        assert(value_of(Expr::Column("id"@), scopes.last(), 0) == in_row(rows[n], "id"@));
        let largest = extreme_over(Expr::Column("id"@), scopes, 0, true);
        assert forall|i: int| 0 <= i < rows.len() implies in_row(#[trigger] rows[i], "id"@)->Integer_0
            <= largest->Integer_0 by {
            if i < n {
                assert(head[i] == rows[i]);
            }
        }
        if head.len() > 0 {
            let earlier = extreme_over(Expr::Column("id"@), before, 0, true);
            let a = choose|a: int| 0 <= a < head.len() && in_row(#[trigger] head[a], "id"@) == earlier;
            assert(rows[a] == head[a]);
        }
    }
}

/// The statement that reads the largest number of a table finds it, and 0 if the table is empty.
#[verifier::spinoff_prover]
pub proof fn law_largest_number_is_found(
    table: Seq<char>,
    rows: Seq<Row>,
    json: JsonText,
    answer: Seq<Seq<Datum>>,
) -> (largest: int)
    requires
        forall|i: int| 0 <= i < rows.len() ==> in_row(#[trigger] rows[i], "id"@) is Integer,
        is_answer(
            largest_select(table),
            with_table(table, rows, largest_statement(table).params, json),
            answer,
        ),
    ensures
        reads_as(largest_statement(table), largest_select(table)),
        answer == seq![seq![Datum::Integer(largest)]],
        rows.len() == 0 ==> largest == 0,
        forall|i: int|
            0 <= i < rows.len() ==> in_row(#[trigger] rows[i], "id"@)->Integer_0 <= largest,
        rows.len() > 0 ==> exists|i: int|
            0 <= i < rows.len() && in_row(#[trigger] rows[i], "id"@) == Datum::Integer(largest),
{
    let select = largest_select(table);
    let db = with_table(table, rows, largest_statement(table).params, json);
    let scopes = rows.map_values(|row: Row| scope_of(table, row, db));
    lemma_largest_text(table);
    lemma_largest_over(table, rows, db);
    assert(db.tables[table] == rows);
    assert(selected_scopes(select, db) == scopes) by {
        let at = bound_in_outputs(select.outputs) + crate::sql::bound_in_source(select.source);
        assert(crate::sql::source_scopes(select, db) =~= scopes);
        lemma_all_scopes_hold(scopes, at as int);
    }
    let largest = extreme_over(Expr::Column("id"@), scopes, 0, true);
    let value = if largest is Null {
        0
    } else {
        largest->Integer_0
    };
    let one = seq![Datum::Integer(value)];
    assert(outputs_of_all(select.outputs, scopes) =~= one) by {
        reveal_strlit("sum");
        reveal_strlit("min");
        reveal_strlit("max");
        reveal_strlit("greatest");
        reveal_strlit("least");
        reveal_strlit("json_extract_string");
        reveal_strlit("coalesce");
        assert("coalesce"@[0] == 'c' && "greatest"@[0] == 'g' && "least"@.len() == 5
            && "json_extract_string"@.len() == 19);
        assert("sum"@[0] == 's' && "min"@[1] == 'i' && "max"@[1] == 'a');
        reveal_with_fuel(value_of_all, 2);
    }
    assert(crate::sql::takes_all(select)) by {
        reveal_with_fuel(calls_all, 2);
    }
    assert(found(select, db) == seq![one]);
    lemma_whole_answer(select, db, answer);
    assert(found(select, db).contains(answer[0])) by {
        assert(answer.contains(answer[0]));
    }
    assert(answer =~= seq![one]);
    value
}

proof fn lemma_all_scopes_hold(scopes: Seq<Scope>, at: int)
    ensures
        where_all(scopes, Seq::empty(), at) == scopes,
    decreases scopes.len(),
{
    reveal(Seq::filter);
    if scopes.len() > 0 {
        lemma_all_scopes_hold(scopes.drop_last(), at);
        assert(scopes.drop_last().push(scopes.last()) =~= scopes);
    } else {
        assert(where_all(scopes, Seq::empty(), at) =~= scopes);
    }
}

} // verus!
