//! What the statements find in the tables of the database.

use vstd::prelude::*;

#[allow(unused_imports)]
use crate::event::{covered, EventView};
#[allow(unused_imports)]
use crate::filter_period::{law_shared_time_is_kept, period_intersection};
#[allow(unused_imports)]
use crate::json::{equal, JsonView};
#[allow(unused_imports)]
use crate::query::{
    escaped, extraction, fits, grouped_statement, intersected_statement, lemma_path_names_the_key,
    query_range, SqlValueView, StatementView,
};
#[allow(unused_imports)]
use crate::sql::{
    lemma_bound_in_more, lemma_functions, lemma_one_more_holds, lemma_operators, lemma_pairs_of,
    lemma_record_columns, lemma_where_all, lemma_whole_answer, all_hold, compared, holds,
    is_answer,
    may_come_before, output_named, all_text, at_path, bound_in, bound_in_all, bound_in_outputs, expr_text, extracted,
    found, is_pair, joined, outputs_of, pair_at, pairs_of, reads_as, scope_of, scope_of_two, select_text,
    selected_scopes, value_of, where_all, with_records, Database, Datum, EventRecord, Expr,
    JsonText, Output, Row, Scope, Select, Source,
};
#[allow(unused_imports)]
use crate::worker::with_keyvals;

verus! {

/// A column of what is selected.
pub open spec fn plain(expr: Expr) -> Output {
    Output { expr, name: None }
}

/// A column of what is selected, under a name.
pub open spec fn named(expr: Expr, name: Seq<char>) -> Output {
    Output { expr, name: Some(name) }
}

/// A comparison.
pub open spec fn infix(a: Expr, operator: Seq<char>, b: Expr) -> Expr {
    Expr::Infix(Box::new(a), operator, Box::new(b))
}

/// The value of a key of the data in a column.
pub open spec fn value_at(column: Expr, key: Seq<char>) -> Expr {
    Expr::CallOfTwo(
        "json_extract_string"@,
        Box::new(column),
        Box::new(Expr::Quoted("$.\""@ + escaped(key) + "\""@)),
    )
}

/// The larger of the starts of a window and of an afk event.
pub open spec fn later_start() -> Expr {
    Expr::CallOfTwo(
        "greatest"@,
        Box::new(Expr::ColumnOf("window"@, "starttime"@)),
        Box::new(Expr::ColumnOf("afk"@, "starttime"@)),
    )
}

/// The smaller of their ends.
pub open spec fn earlier_end() -> Expr {
    Expr::CallOfTwo(
        "least"@,
        Box::new(Expr::ColumnOf("window"@, "endtime"@)),
        Box::new(Expr::ColumnOf("afk"@, "endtime"@)),
    )
}

/// The statement that reads the parts of the events of one bucket during which an event of another
/// one has a value.
pub open spec fn intersected_select(filter_key: Seq<char>) -> Select {
    Select {
        outputs: seq![
            plain(Expr::ColumnOf("window"@, "id"@)),
            named(later_start(), "intersect_start"@),
            named(earlier_end(), "intersect_end"@),
            plain(Expr::ColumnOf("window"@, "data"@)),
        ],
        source: Source::Join {
            left: ("events"@, "window"@),
            right: ("events"@, "afk"@),
            on: seq![
                infix(Expr::ColumnOf("window"@, "bucketrow"@), " = "@, Expr::Bound),
                infix(Expr::ColumnOf("afk"@, "bucketrow"@), " = "@, Expr::Bound),
                infix(
                    Expr::ColumnOf("window"@, "starttime"@),
                    " < "@,
                    Expr::ColumnOf("afk"@, "endtime"@),
                ),
                infix(
                    Expr::ColumnOf("window"@, "endtime"@),
                    " > "@,
                    Expr::ColumnOf("afk"@, "starttime"@),
                ),
                infix(value_at(Expr::ColumnOf("afk"@, "data"@), filter_key), " = "@, Expr::Bound),
            ],
        },
        conditions: seq![
            infix(later_start(), " < "@, earlier_end()),
            infix(Expr::ColumnOf("window"@, "endtime"@), " >= "@, Expr::Bound),
            infix(Expr::ColumnOf("window"@, "starttime"@), " <= "@, Expr::Bound),
        ],
        group_by: None,
        order_by: seq![("intersect_start"@, "ASC"@)],
        limit: None,
    }
}

pub(crate) proof fn lemma_joined_two(a: Seq<char>, b: Seq<char>, between: Seq<char>)
    ensures
        joined(seq![a, b], between) == a + between + b,
{
    assert(seq![a, b].drop_last() =~= seq![a]);
    reveal_with_fuel(joined, 2);
}

pub(crate) proof fn lemma_joined_more(parts: Seq<Seq<char>>, last: Seq<char>, between: Seq<char>)
    requires
        parts.len() > 0,
    ensures
        joined(parts.push(last), between) == joined(parts, between) + between + last,
{
    assert(parts.push(last).drop_last() =~= parts);
}

pub(crate) proof fn lemma_value_at_text(column: Expr, key: Seq<char>)
    ensures
        expr_text(value_at(column, key)) == extraction(expr_text(column), key),
{
    reveal_strlit("json_extract_string(");
    reveal_strlit("json_extract_string");
    reveal_strlit("(");
    reveal_strlit(")");
    reveal_strlit(", ");
    reveal_strlit("'");
    reveal_strlit("$.\"");
    reveal_strlit("\"");
    reveal_strlit(", '$.\"");
    reveal_strlit("\"')");
    reveal_with_fuel(expr_text, 2);
    assert(expr_text(value_at(column, key)) =~= extraction(expr_text(column), key));
}

/// The words of which the statements are made.
pub(crate) proof fn lemma_words()
    ensures
        "."@ == seq!['.'],
        "?"@ == seq!['?'],
        "("@ == seq!['('],
        ")"@ == seq![')'],
        ", "@ == seq![',', ' '],
        " "@ == seq![' '],
        " = "@ == seq![' ', '=', ' '],
        " < "@ == seq![' ', '<', ' '],
        " > "@ == seq![' ', '>', ' '],
        " >= "@ == seq![' ', '>', '=', ' '],
        " <= "@ == seq![' ', '<', '=', ' '],
        " - "@ == seq![' ', '-', ' '],
        " as "@ == seq![' ', 'a', 's', ' '],
        " AND "@ == seq![' ', 'A', 'N', 'D', ' '],
        "afk"@ == seq!['a', 'f', 'k'],
        "window"@ == seq!['w', 'i', 'n', 'd', 'o', 'w'],
        "id"@ == seq!['i', 'd'],
        "data"@ == seq!['d', 'a', 't', 'a'],
        "bucketrow"@ == seq!['b', 'u', 'c', 'k', 'e', 't', 'r', 'o', 'w'],
        "starttime"@ == seq!['s', 't', 'a', 'r', 't', 't', 'i', 'm', 'e'],
        "endtime"@ == seq!['e', 'n', 'd', 't', 'i', 'm', 'e'],
        "least"@ == seq!['l', 'e', 'a', 's', 't'],
        "greatest"@ == seq!['g', 'r', 'e', 'a', 't', 'e', 's', 't'],
{
    reveal_strlit(".");
    reveal_strlit("?");
    reveal_strlit("(");
    reveal_strlit(")");
    reveal_strlit(", ");
    reveal_strlit(" ");
    reveal_strlit(" = ");
    reveal_strlit(" < ");
    reveal_strlit(" > ");
    reveal_strlit(" >= ");
    reveal_strlit(" <= ");
    reveal_strlit(" - ");
    reveal_strlit(" as ");
    reveal_strlit(" AND ");
    reveal_strlit("afk");
    reveal_strlit("window");
    reveal_strlit("id");
    reveal_strlit("data");
    reveal_strlit("bucketrow");
    reveal_strlit("starttime");
    reveal_strlit("endtime");
    reveal_strlit("least");
    reveal_strlit("greatest");
}

proof fn lemma_intersected_columns()
    ensures
        expr_text(Expr::ColumnOf("window"@, "id"@)) == "window.id"@,
        expr_text(Expr::ColumnOf("window"@, "data"@)) == "window.data"@,
        expr_text(Expr::ColumnOf("afk"@, "data"@)) == "afk.data"@,
        expr_text(Expr::ColumnOf("window"@, "bucketrow"@)) == "window.bucketrow"@,
        expr_text(Expr::ColumnOf("afk"@, "bucketrow"@)) == "afk.bucketrow"@,
        expr_text(Expr::ColumnOf("window"@, "starttime"@)) == "window.starttime"@,
        expr_text(Expr::ColumnOf("afk"@, "starttime"@)) == "afk.starttime"@,
        expr_text(Expr::ColumnOf("window"@, "endtime"@)) == "window.endtime"@,
        expr_text(Expr::ColumnOf("afk"@, "endtime"@)) == "afk.endtime"@,
{
    lemma_words();
    reveal_strlit("window.id");
    reveal_strlit("window.data");
    reveal_strlit("afk.data");
    reveal_strlit("window.bucketrow");
    reveal_strlit("afk.bucketrow");
    reveal_strlit("window.starttime");
    reveal_strlit("afk.starttime");
    reveal_strlit("window.endtime");
    reveal_strlit("afk.endtime");
    assert("window"@ + "."@ + "id"@ =~= "window.id"@);
    assert("window"@ + "."@ + "data"@ =~= "window.data"@);
    assert("afk"@ + "."@ + "data"@ =~= "afk.data"@);
    assert("window"@ + "."@ + "bucketrow"@ =~= "window.bucketrow"@);
    assert("afk"@ + "."@ + "bucketrow"@ =~= "afk.bucketrow"@);
    assert("window"@ + "."@ + "starttime"@ =~= "window.starttime"@);
    assert("afk"@ + "."@ + "starttime"@ =~= "afk.starttime"@);
    assert("window"@ + "."@ + "endtime"@ =~= "window.endtime"@);
    assert("afk"@ + "."@ + "endtime"@ =~= "afk.endtime"@);
}

proof fn lemma_bounds_text()
    ensures
        expr_text(later_start()) == "greatest(window.starttime, afk.starttime)"@,
        expr_text(earlier_end()) == "least(window.endtime, afk.endtime)"@,
{
    lemma_intersected_columns();
    lemma_words();
    reveal_strlit("window.starttime");
    reveal_strlit("afk.starttime");
    reveal_strlit("window.endtime");
    reveal_strlit("afk.endtime");
    reveal_strlit("greatest(window.starttime, afk.starttime)");
    reveal_strlit("least(window.endtime, afk.endtime)");
    assert(expr_text(later_start()) =~= "greatest(window.starttime, afk.starttime)"@);
    assert(expr_text(earlier_end()) =~= "least(window.endtime, afk.endtime)"@);
}

#[verifier::spinoff_prover]
proof fn lemma_intersected_outputs(outputs: Seq<Output>)
    requires
        outputs == intersected_select(Seq::empty()).outputs,
    ensures
        joined(outputs.map_values(|o: Output| crate::sql::output_text(o)), ", "@)
            == "window.id, greatest(window.starttime, afk.starttime) as intersect_start, least(window.endtime, afk.endtime) as intersect_end, window.data"@,
{
    let texts = outputs.map_values(|o: Output| crate::sql::output_text(o));
    let a = "window.id"@;
    let b = "greatest(window.starttime, afk.starttime)"@ + " as "@ + "intersect_start"@;
    let c = "least(window.endtime, afk.endtime)"@ + " as "@ + "intersect_end"@;
    let d = "window.data"@;
    lemma_intersected_columns();
    lemma_bounds_text();
    assert(texts =~= seq![a, b].push(c).push(d));
    lemma_joined_two(a, b, ", "@);
    lemma_joined_more(seq![a, b], c, ", "@);
    lemma_joined_more(seq![a, b].push(c), d, ", "@);
    assert(a + ", "@ + b + ", "@ + c + ", "@ + d
        =~= "window.id, greatest(window.starttime, afk.starttime) as intersect_start, least(window.endtime, afk.endtime) as intersect_end, window.data"@)
        by {
        reveal_strlit("window.id");
        reveal_strlit("greatest(window.starttime, afk.starttime)");
        reveal_strlit("least(window.endtime, afk.endtime)");
        reveal_strlit("window.data");
        reveal_strlit(" as ");
        reveal_strlit(", ");
        reveal_strlit("intersect_start");
        reveal_strlit("intersect_end");
        reveal_strlit("window.id, greatest(window.starttime, afk.starttime) as intersect_start, least(window.endtime, afk.endtime) as intersect_end, window.data");
    }
}

#[verifier::spinoff_prover]
proof fn lemma_intersected_on(filter_key: Seq<char>, on: Seq<Expr>)
    requires
        on == intersected_select(filter_key).source->Join_on,
    ensures
        all_text(on)
            == "window.bucketrow = ? AND afk.bucketrow = ? AND window.starttime < afk.endtime AND window.endtime > afk.starttime"@
            + " AND "@ + (extraction("afk.data"@, filter_key) + " = "@ + "?"@),
{
    lemma_intersected_columns();
    lemma_value_at_text(Expr::ColumnOf("afk"@, "data"@), filter_key);
    let on1 = "window.bucketrow"@ + " = "@ + "?"@;
    let on2 = "afk.bucketrow"@ + " = "@ + "?"@;
    let on3 = "window.starttime"@ + " < "@ + "afk.endtime"@;
    let on4 = "window.endtime"@ + " > "@ + "afk.starttime"@;
    let on5 = extraction("afk.data"@, filter_key) + " = "@ + "?"@;
    assert(expr_text(Expr::Bound) == "?"@);
    assert(on.map_values(|c: Expr| expr_text(c)) =~= seq![on1, on2].push(on3).push(on4).push(on5));
    lemma_joined_two(on1, on2, " AND "@);
    lemma_joined_more(seq![on1, on2], on3, " AND "@);
    lemma_joined_more(seq![on1, on2].push(on3), on4, " AND "@);
    lemma_joined_more(seq![on1, on2].push(on3).push(on4), on5, " AND "@);
    assert(on1 + " AND "@ + on2 + " AND "@ + on3 + " AND "@ + on4
        =~= "window.bucketrow = ? AND afk.bucketrow = ? AND window.starttime < afk.endtime AND window.endtime > afk.starttime"@)
        by {
        lemma_words();
        reveal_strlit("window.bucketrow");
        reveal_strlit("afk.bucketrow");
        reveal_strlit("window.starttime");
        reveal_strlit("afk.starttime");
        reveal_strlit("window.endtime");
        reveal_strlit("afk.endtime");
        reveal_strlit("window.bucketrow = ? AND afk.bucketrow = ? AND window.starttime < afk.endtime AND window.endtime > afk.starttime");
    }
}

#[verifier::spinoff_prover]
proof fn lemma_intersected_where(conditions: Seq<Expr>)
    requires
        conditions == intersected_select(Seq::empty()).conditions,
    ensures
        all_text(conditions)
            == "greatest(window.starttime, afk.starttime) < least(window.endtime, afk.endtime) AND window.endtime >= ? AND window.starttime <= ?"@,
{
    lemma_intersected_columns();
    lemma_bounds_text();
    let c1 = "greatest(window.starttime, afk.starttime)"@ + " < "@
        + "least(window.endtime, afk.endtime)"@;
    let c2 = "window.endtime"@ + " >= "@ + "?"@;
    let c3 = "window.starttime"@ + " <= "@ + "?"@;
    assert(expr_text(Expr::Bound) == "?"@);
    assert(conditions.map_values(|c: Expr| expr_text(c)) =~= seq![c1, c2].push(c3));
    lemma_joined_two(c1, c2, " AND "@);
    lemma_joined_more(seq![c1, c2], c3, " AND "@);
    assert(c1 + " AND "@ + c2 + " AND "@ + c3
        =~= "greatest(window.starttime, afk.starttime) < least(window.endtime, afk.endtime) AND window.endtime >= ? AND window.starttime <= ?"@)
        by {
        lemma_words();
        reveal_strlit("greatest(window.starttime, afk.starttime)");
        reveal_strlit("least(window.endtime, afk.endtime)");
        reveal_strlit("window.starttime");
        reveal_strlit("window.endtime");
        reveal_strlit("greatest(window.starttime, afk.starttime) < least(window.endtime, afk.endtime) AND window.endtime >= ? AND window.starttime <= ?");
    }
}

/// What stands before and behind a text that is put in the middle.
proof fn lemma_around(a: Seq<char>, b: Seq<char>, middle: Seq<char>, c: Seq<char>, d: Seq<char>)
    ensures
        (a + (b + (middle + c))) + d == (a + b) + middle + (c + d),
{
    assert((a + (b + (middle + c))) + d =~= (a + b) + middle + (c + d));
}

/// The statement for the parts of events is written as the one that is read here.
#[verifier::spinoff_prover]
proof fn lemma_intersected_text(filter_key: Seq<char>)
    ensures
        select_text(intersected_select(filter_key)) == "SELECT window.id, greatest(window.starttime, afk.starttime) as intersect_start, least(window.endtime, afk.endtime) as intersect_end, window.data FROM events window JOIN events afk ON window.bucketrow = ? AND afk.bucketrow = ? AND window.starttime < afk.endtime AND window.endtime > afk.starttime AND "@
            + extraction("afk.data"@, filter_key)
            + " = ? WHERE greatest(window.starttime, afk.starttime) < least(window.endtime, afk.endtime) AND window.endtime >= ? AND window.starttime <= ? ORDER BY intersect_start ASC"@,
{
    let select = intersected_select(filter_key);
    lemma_intersected_outputs(select.outputs);
    lemma_intersected_on(filter_key, select.source->Join_on);
    lemma_intersected_where(select.conditions);
    let outputs = "window.id, greatest(window.starttime, afk.starttime) as intersect_start, least(window.endtime, afk.endtime) as intersect_end, window.data"@;
    let on = "window.bucketrow = ? AND afk.bucketrow = ? AND window.starttime < afk.endtime AND window.endtime > afk.starttime"@;
    let conditions = "greatest(window.starttime, afk.starttime) < least(window.endtime, afk.endtime) AND window.endtime >= ? AND window.starttime <= ?"@;
    let middle = extraction("afk.data"@, filter_key);
    let order = select.order_by.map_values(|o: (Seq<char>, Seq<char>)| o.0 + " "@ + o.1);
    let last = "intersect_start"@ + " "@ + "ASC"@;
    assert(order =~= seq![last]);
    assert(joined(order, ", "@) == last);
    let tables = "events"@ + " "@ + "window"@ + " JOIN "@ + "events"@ + " "@ + "afk"@ + " ON "@;
    let a = "SELECT "@ + outputs + " FROM "@ + tables;
    let b = on + " AND "@;
    let c = " = "@ + "?"@;
    let d = " WHERE "@ + conditions + " ORDER BY "@ + last;
    assert(select_text(select) =~= (a + (b + (middle + c))) + d);
    lemma_around(a, b, middle, c, d);
    assert(a + b
        =~= "SELECT window.id, greatest(window.starttime, afk.starttime) as intersect_start, least(window.endtime, afk.endtime) as intersect_end, window.data FROM events window JOIN events afk ON window.bucketrow = ? AND afk.bucketrow = ? AND window.starttime < afk.endtime AND window.endtime > afk.starttime AND "@)
        by {
        lemma_words();
        reveal_strlit("SELECT ");
        reveal_strlit(" FROM ");
        reveal_strlit(" JOIN ");
        reveal_strlit(" ON ");
        reveal_strlit("events");
        reveal_strlit("window.id, greatest(window.starttime, afk.starttime) as intersect_start, least(window.endtime, afk.endtime) as intersect_end, window.data");
        reveal_strlit("window.bucketrow = ? AND afk.bucketrow = ? AND window.starttime < afk.endtime AND window.endtime > afk.starttime");
        reveal_strlit("SELECT window.id, greatest(window.starttime, afk.starttime) as intersect_start, least(window.endtime, afk.endtime) as intersect_end, window.data FROM events window JOIN events afk ON window.bucketrow = ? AND afk.bucketrow = ? AND window.starttime < afk.endtime AND window.endtime > afk.starttime AND ");
    }
    assert(c + d
        =~= " = ? WHERE greatest(window.starttime, afk.starttime) < least(window.endtime, afk.endtime) AND window.endtime >= ? AND window.starttime <= ? ORDER BY intersect_start ASC"@)
        by {
        lemma_words();
        reveal_strlit(" WHERE ");
        reveal_strlit(" ORDER BY ");
        reveal_strlit("intersect_start");
        reveal_strlit("ASC");
        reveal_strlit("greatest(window.starttime, afk.starttime) < least(window.endtime, afk.endtime) AND window.endtime >= ? AND window.starttime <= ?");
        reveal_strlit(" = ? WHERE greatest(window.starttime, afk.starttime) < least(window.endtime, afk.endtime) AND window.endtime >= ? AND window.starttime <= ? ORDER BY intersect_start ASC");
    }
}

/// The text that an event has for a key of its data, null if it has none.
pub open spec fn value_in(record: EventRecord, key: Seq<char>, json: JsonText) -> Datum {
    let object = (json.object)(record.data);
    if object.contains_key(key) {
        extracted(object[key], json)
    } else {
        Datum::Null
    }
}

pub(crate) proof fn lemma_value_at(column: Expr, key: Seq<char>, record: EventRecord, scope: Scope, at: int)
    requires
        value_of(column, scope, at) == Datum::Text(record.data),
    ensures
        value_of(value_at(column, key), scope, at) == value_in(record, key, scope.json),
{
    lemma_functions();
    lemma_path_names_the_key(key);
    reveal_with_fuel(value_of, 2);
}

/// Whether the row is the part of a window event during which an afk event lasts: it starts at the
/// later of the two starts and ends at the earlier of the two ends, it has a length, and the
/// number and the data are those of the window event.
pub open spec fn is_shared_part(row: Seq<Datum>, window: EventRecord, afk: EventRecord) -> bool {
    &&& row.len() == 4
    &&& row[0] == Datum::Integer(window.id)
    &&& row[3] == Datum::Text(window.data)
    &&& row[1] matches Datum::Integer(start) && row[2] matches Datum::Integer(end) && {
        &&& start < end
        &&& start >= window.starttime && start >= afk.starttime
        &&& start == window.starttime || start == afk.starttime
        &&& end <= window.endtime && end <= afk.endtime
        &&& end == window.endtime || end == afk.endtime
    }
}

pub(crate) proof fn lemma_infix_holds(a: Expr, operator: Seq<char>, b: Expr, scope: Scope, at: int)
    ensures
        holds(infix(a, operator, b), scope, at) == compared(
            value_of(a, scope, at),
            operator,
            value_of(b, scope, at + bound_in(a)),
        ),
        bound_in(infix(a, operator, b)) == bound_in(a) + bound_in(b),
{
}

/// What can be seen of a window and an afk event.
spec fn pair_scope(window: EventRecord, afk: EventRecord, db: Database) -> Scope {
    scope_of_two(("window"@, window.row()), ("afk"@, afk.row()), db)
}

proof fn lemma_pair_columns(window: EventRecord, afk: EventRecord, db: Database, at: int)
    ensures
        ({
            let scope = pair_scope(window, afk, db);
            &&& value_of(Expr::ColumnOf("window"@, "id"@), scope, at) == Datum::Integer(window.id)
            &&& value_of(Expr::ColumnOf("window"@, "data"@), scope, at) == Datum::Text(window.data)
            &&& value_of(Expr::ColumnOf("afk"@, "data"@), scope, at) == Datum::Text(afk.data)
            &&& value_of(Expr::ColumnOf("window"@, "bucketrow"@), scope, at) == Datum::Integer(
                window.bucketrow,
            )
            &&& value_of(Expr::ColumnOf("afk"@, "bucketrow"@), scope, at) == Datum::Integer(
                afk.bucketrow,
            )
            &&& value_of(Expr::ColumnOf("window"@, "starttime"@), scope, at) == Datum::Integer(
                window.starttime,
            )
            &&& value_of(Expr::ColumnOf("afk"@, "starttime"@), scope, at) == Datum::Integer(
                afk.starttime,
            )
            &&& value_of(Expr::ColumnOf("window"@, "endtime"@), scope, at) == Datum::Integer(
                window.endtime,
            )
            &&& value_of(Expr::ColumnOf("afk"@, "endtime"@), scope, at) == Datum::Integer(
                afk.endtime,
            )
        }),
{
    let scope = pair_scope(window, afk, db);
    assert(scope.tables["window"@] == window.row() && scope.tables["afk"@] == afk.row()) by {
        reveal_strlit("window");
        reveal_strlit("afk");
        assert("window"@.len() == 6 && "afk"@.len() == 3);
    }
    lemma_record_columns(window);
    lemma_record_columns(afk);
}

proof fn lemma_pair_bounds(window: EventRecord, afk: EventRecord, db: Database, at: int)
    ensures
        value_of(later_start(), pair_scope(window, afk, db), at) == Datum::Integer(
            if window.starttime >= afk.starttime {
                window.starttime
            } else {
                afk.starttime
            },
        ),
        value_of(earlier_end(), pair_scope(window, afk, db), at) == Datum::Integer(
            if window.endtime <= afk.endtime {
                window.endtime
            } else {
                afk.endtime
            },
        ),
        bound_in(later_start()) == 0,
        bound_in(earlier_end()) == 0,
{
    lemma_pair_columns(window, afk, db, at);
    lemma_functions();
    reveal_with_fuel(bound_in, 2);
}

pub(crate) proof fn lemma_three_hold(a: Expr, b: Expr, c: Expr, scope: Scope, at: int)
    ensures
        all_hold(seq![a, b, c], scope, at) == (holds(a, scope, at) && holds(b, scope, at + bound_in(a))
            && holds(c, scope, at + bound_in(a) + bound_in(b))),
        bound_in_all(seq![a, b, c]) == bound_in(a) + bound_in(b) + bound_in(c),
{
    let none = Seq::<Expr>::empty();
    assert(seq![a, b, c] =~= none.push(a).push(b).push(c));
    lemma_one_more_holds(none, a, scope, at);
    lemma_one_more_holds(none.push(a), b, scope, at);
    lemma_one_more_holds(none.push(a).push(b), c, scope, at);
    lemma_bound_in_more(none, a);
    lemma_bound_in_more(none.push(a), b);
    lemma_bound_in_more(none.push(a).push(b), c);
}

proof fn lemma_five_hold(a: Expr, b: Expr, c: Expr, d: Expr, e: Expr, scope: Scope, at: int)
    ensures
        all_hold(seq![a, b, c, d, e], scope, at) == (holds(a, scope, at) && holds(
            b,
            scope,
            at + bound_in(a),
        ) && holds(c, scope, at + bound_in(a) + bound_in(b)) && holds(
            d,
            scope,
            at + bound_in(a) + bound_in(b) + bound_in(c),
        ) && holds(e, scope, at + bound_in(a) + bound_in(b) + bound_in(c) + bound_in(d))),
        bound_in_all(seq![a, b, c, d, e]) == bound_in(a) + bound_in(b) + bound_in(c) + bound_in(d)
            + bound_in(e),
{
    let three = seq![a, b, c];
    assert(seq![a, b, c, d, e] =~= three.push(d).push(e));
    lemma_three_hold(a, b, c, scope, at);
    lemma_one_more_holds(three, d, scope, at);
    lemma_one_more_holds(three.push(d), e, scope, at);
    lemma_bound_in_more(three, d);
    lemma_bound_in_more(three.push(d), e);
}

#[verifier::spinoff_prover]
proof fn lemma_intersected_on_holds(
    filter_key: Seq<char>,
    window: EventRecord,
    afk: EventRecord,
    db: Database,
    target: i64,
    filter: i64,
    filter_val: Seq<char>,
)
    requires
        db.bound.len() == 5,
        db.bound[0] == SqlValueView::Integer(target),
        db.bound[1] == SqlValueView::Integer(filter),
        db.bound[2] == SqlValueView::Text(filter_val),
    ensures
        bound_in_all(intersected_select(filter_key).source->Join_on) == 3,
        all_hold(intersected_select(filter_key).source->Join_on, pair_scope(window, afk, db), 0) <==> {
            &&& window.bucketrow == target
            &&& afk.bucketrow == filter
            &&& window.starttime < afk.endtime
            &&& window.endtime > afk.starttime
            &&& value_in(afk, filter_key, db.json) == Datum::Text(filter_val)
        },
{
    let scope = pair_scope(window, afk, db);
    let on = intersected_select(filter_key).source->Join_on;
    let data = Expr::ColumnOf("afk"@, "data"@);
    lemma_five_hold(on[0], on[1], on[2], on[3], on[4], scope, 0);
    assert(on == seq![on[0], on[1], on[2], on[3], on[4]]);
    lemma_pair_columns(window, afk, db, 0);
    lemma_pair_columns(window, afk, db, 1);
    lemma_pair_columns(window, afk, db, 2);
    lemma_value_at(data, filter_key, afk, scope, 2);
    lemma_operators();
    assert(bound_in(value_at(data, filter_key)) == 0) by {
        reveal_with_fuel(bound_in, 2);
    }
    assert(bound_in(Expr::Bound) == 1);
    lemma_infix_holds(Expr::ColumnOf("window"@, "bucketrow"@), " = "@, Expr::Bound, scope, 0);
    lemma_infix_holds(Expr::ColumnOf("afk"@, "bucketrow"@), " = "@, Expr::Bound, scope, 1);
    lemma_infix_holds(
        Expr::ColumnOf("window"@, "starttime"@),
        " < "@,
        Expr::ColumnOf("afk"@, "endtime"@),
        scope,
        2,
    );
    lemma_infix_holds(
        Expr::ColumnOf("window"@, "endtime"@),
        " > "@,
        Expr::ColumnOf("afk"@, "starttime"@),
        scope,
        2,
    );
    lemma_infix_holds(value_at(data, filter_key), " = "@, Expr::Bound, scope, 2);
    assert(value_of(Expr::Bound, scope, 0) == Datum::Integer(target as int));
    assert(value_of(Expr::Bound, scope, 1) == Datum::Integer(filter as int));
    assert(value_of(Expr::Bound, scope, 2) == Datum::Text(filter_val));
}

#[verifier::spinoff_prover]
proof fn lemma_intersected_where_holds(
    filter_key: Seq<char>,
    window: EventRecord,
    afk: EventRecord,
    db: Database,
    from: i64,
    to: i64,
)
    requires
        db.bound.len() == 5,
        db.bound[3] == SqlValueView::Integer(from),
        db.bound[4] == SqlValueView::Integer(to),
    ensures
        all_hold(intersected_select(filter_key).conditions, pair_scope(window, afk, db), 3) <==> {
            &&& window.starttime < window.endtime
            &&& afk.starttime < afk.endtime
            &&& window.starttime < afk.endtime
            &&& window.endtime > afk.starttime
            &&& window.endtime >= from
            &&& window.starttime <= to
        },
{
    let scope = pair_scope(window, afk, db);
    let conditions = intersected_select(filter_key).conditions;
    lemma_three_hold(conditions[0], conditions[1], conditions[2], scope, 3);
    assert(conditions == seq![conditions[0], conditions[1], conditions[2]]);
    lemma_pair_columns(window, afk, db, 3);
    lemma_pair_columns(window, afk, db, 4);
    lemma_pair_bounds(window, afk, db, 3);
    lemma_operators();
    assert(bound_in(Expr::Bound) == 1);
    lemma_infix_holds(later_start(), " < "@, earlier_end(), scope, 3);
    lemma_infix_holds(Expr::ColumnOf("window"@, "endtime"@), " >= "@, Expr::Bound, scope, 3);
    lemma_infix_holds(Expr::ColumnOf("window"@, "starttime"@), " <= "@, Expr::Bound, scope, 4);
    assert(value_of(Expr::Bound, scope, 3) == Datum::Integer(from as int));
    assert(value_of(Expr::Bound, scope, 4) == Datum::Integer(to as int));
}

/// The row that is selected for a window and an afk event.
#[verifier::spinoff_prover]
proof fn lemma_intersected_row(
    filter_key: Seq<char>,
    window: EventRecord,
    afk: EventRecord,
    db: Database,
)
    ensures
        outputs_of(intersected_select(filter_key).outputs, pair_scope(window, afk, db)) == seq![
            Datum::Integer(window.id),
            Datum::Integer(
                if window.starttime >= afk.starttime {
                    window.starttime
                } else {
                    afk.starttime
                },
            ),
            Datum::Integer(
                if window.endtime <= afk.endtime {
                    window.endtime
                } else {
                    afk.endtime
                },
            ),
            Datum::Text(window.data),
        ],
        bound_in_outputs(intersected_select(filter_key).outputs) == 0,
{
    let outputs = intersected_select(filter_key).outputs;
    let scope = pair_scope(window, afk, db);
    lemma_pair_columns(window, afk, db, 0);
    lemma_pair_bounds(window, afk, db, 0);
    assert(outputs_of(outputs, scope) =~= seq![
        value_of(Expr::ColumnOf("window"@, "id"@), scope, 0),
        value_of(later_start(), scope, 0),
        value_of(earlier_end(), scope, 0),
        value_of(Expr::ColumnOf("window"@, "data"@), scope, 0),
    ]);
    assert(outputs.drop_last() =~= outputs.take(3));
    assert(outputs.take(3).drop_last() =~= outputs.take(2));
    assert(outputs.take(2).drop_last() =~= outputs.take(1));
    assert(outputs.take(1).drop_last() =~= outputs.take(0));
    reveal_with_fuel(bound_in_outputs, 5);
}

/// Whether a row is the part of an event of the one bucket, in the range of time, during which an
/// event of the other one has the value.
pub open spec fn is_found_part(
    row: Seq<Datum>,
    window: EventRecord,
    afk: EventRecord,
    buckets: (i64, i64),
    range: (int, int),
    filter_key: Seq<char>,
    filter_val: Seq<char>,
    json: JsonText,
) -> bool {
    &&& window.bucketrow == buckets.0
    &&& window.endtime >= range.0
    &&& window.starttime <= range.1
    &&& afk.bucketrow == buckets.1
    &&& value_in(afk, filter_key, json) == Datum::Text(filter_val)
    &&& is_shared_part(row, window, afk)
}

/// The rows of events.
pub open spec fn rows_of(records: Seq<EventRecord>) -> Seq<Row> {
    records.map_values(|r: EventRecord| r.row())
}

#[verifier::spinoff_prover]
proof fn lemma_intersected_scopes(filter_key: Seq<char>, records: Seq<EventRecord>, db: Database)
    requires
        db.tables == Map::<Seq<char>, Seq<Row>>::empty().insert("events"@, rows_of(records)),
        bound_in_outputs(intersected_select(filter_key).outputs) == 0,
        bound_in_all(intersected_select(filter_key).source->Join_on) == 3,
    ensures
        ({
            let select = intersected_select(filter_key);
            let scopes = selected_scopes(select, db);
            &&& found(select, db) == scopes.map_values(
                |scope: Scope| outputs_of(select.outputs, scope),
            )
            &&& forall|scope: Scope| #[trigger] scopes.contains(scope) <==> is_pair(
                ("window"@, rows_of(records)),
                ("afk"@, rows_of(records)),
                db,
                scope,
            ) && all_hold(select.source->Join_on, scope, 0) && all_hold(select.conditions, scope, 3)
        }),
{
    let select = intersected_select(filter_key);
    let on = select.source->Join_on;
    let left = ("window"@, rows_of(records));
    let right = ("afk"@, rows_of(records));
    let pairs = pairs_of(left, right, db);
    let scopes = selected_scopes(select, db);
    assert(db.tables["events"@] == rows_of(records));
    assert(!crate::sql::calls_all(select.outputs[0].expr));
    assert(!crate::sql::takes_all(select));
    assert(scopes == where_all(where_all(pairs, on, 0), select.conditions, 3));
    assert forall|scope: Scope| #[trigger] scopes.contains(scope) <==> is_pair(
        left,
        right,
        db,
        scope,
    ) && all_hold(on, scope, 0) && all_hold(select.conditions, scope, 3) by {
        lemma_where_all(where_all(pairs, on, 0), select.conditions, 3, scope);
        lemma_where_all(pairs, on, 0, scope);
        lemma_pairs_of(left, right, db);
        if pairs.contains(scope) {
            let k = choose|k: int| 0 <= k < pairs.len() && pairs[k] == scope;
            assert(is_pair(left, right, db, pairs[k]));
        }
        if is_pair(left, right, db, scope) {
            let (i, j) = choose|i: int, j: int|
                0 <= i < left.1.len() && 0 <= j < right.1.len() && scope == #[trigger] pair_at(
                    left,
                    right,
                    db,
                    i,
                    j,
                );
            assert(pairs.contains(pair_at(left, right, db, i, j)));
        }
    }
}

#[verifier::spinoff_prover]
proof fn lemma_pair_in_range(
    window: EventRecord,
    afk: EventRecord,
    db: Database,
    buckets: (i64, i64),
    range: (int, int),
    filter_key: Seq<char>,
    filter_val: Seq<char>,
)
    requires
        i64::MIN <= range.0 <= i64::MAX,
        i64::MIN <= range.1 <= i64::MAX,
        db.bound == intersected_values(buckets, range, filter_val),
    ensures
        pair_in_range(window, afk, db, buckets, range, filter_key, filter_val),
{
    lemma_intersected_row(filter_key, window, afk, db);
    lemma_intersected_on_holds(
        filter_key,
        window,
        afk,
        db,
        buckets.0,
        buckets.1,
        filter_val,
    );
    lemma_intersected_where_holds(
        filter_key,
        window,
        afk,
        db,
        range.0 as i64,
        range.1 as i64,
    );
}

/// The values that are bound to the statement for parts of events.
spec fn intersected_values(buckets: (i64, i64), range: (int, int), filter_val: Seq<char>) -> Seq<
    SqlValueView,
> {
    seq![
        SqlValueView::Integer(buckets.0),
        SqlValueView::Integer(buckets.1),
        SqlValueView::Text(filter_val),
        SqlValueView::Integer(range.0 as i64),
        SqlValueView::Integer(range.1 as i64),
    ]
}

/// A row that is found is the part of two events.
#[verifier::spinoff_prover]
proof fn lemma_found_is_a_part(
    db: Database,
    buckets: (i64, i64),
    range: (int, int),
    filter_key: Seq<char>,
    filter_val: Seq<char>,
    records: Seq<EventRecord>,
    row: Seq<Datum>,
) -> (pair: (int, int))
    requires
        i64::MIN <= range.0 <= i64::MAX,
        i64::MIN <= range.1 <= i64::MAX,
        db.bound == intersected_values(buckets, range, filter_val),
        db.tables == Map::<Seq<char>, Seq<Row>>::empty().insert("events"@, rows_of(records)),
        found(intersected_select(filter_key), db).contains(row),
    ensures
        0 <= pair.0 < records.len(),
        0 <= pair.1 < records.len(),
        is_found_part(
            row,
            records[pair.0],
            records[pair.1],
            buckets,
            range,
            filter_key,
            filter_val,
            db.json,
        ),
{
    let select = intersected_select(filter_key);
    let left = ("window"@, rows_of(records));
    let right = ("afk"@, rows_of(records));
    let scopes = selected_scopes(select, db);
    let all = found(select, db);
    let any = EventRecord { id: 0, bucketrow: 0, starttime: 0, endtime: 0, data: Seq::empty() };
    lemma_intersected_row(filter_key, any, any, db);
    lemma_intersected_on_holds(filter_key, any, any, db, buckets.0, buckets.1, filter_val);
    lemma_intersected_scopes(filter_key, records, db);
    let k = choose|k: int| 0 <= k < all.len() && all[k] == row;
    let scope = scopes[k];
    assert(scopes.contains(scope));
    assert(row == outputs_of(select.outputs, scope));
    let (i, j) = choose|i: int, j: int|
        0 <= i < left.1.len() && 0 <= j < right.1.len() && scope == #[trigger] pair_at(
            left,
            right,
            db,
            i,
            j,
        );
    assert(scope == pair_scope(records[i], records[j], db));
    lemma_pair_in_range(records[i], records[j], db, buckets, range, filter_key, filter_val);
    (i, j)
}

/// The part of two events is found.
#[verifier::spinoff_prover]
proof fn lemma_part_is_found(
    db: Database,
    buckets: (i64, i64),
    range: (int, int),
    filter_key: Seq<char>,
    filter_val: Seq<char>,
    records: Seq<EventRecord>,
    row: Seq<Datum>,
    i: int,
    j: int,
)
    requires
        i64::MIN <= range.0 <= i64::MAX,
        i64::MIN <= range.1 <= i64::MAX,
        db.bound == intersected_values(buckets, range, filter_val),
        db.tables == Map::<Seq<char>, Seq<Row>>::empty().insert("events"@, rows_of(records)),
        0 <= i < records.len(),
        0 <= j < records.len(),
        is_found_part(
            row,
            records[i],
            records[j],
            buckets,
            range,
            filter_key,
            filter_val,
            db.json,
        ),
    ensures
        found(intersected_select(filter_key), db).contains(row),
{
    let select = intersected_select(filter_key);
    let left = ("window"@, rows_of(records));
    let right = ("afk"@, rows_of(records));
    let scopes = selected_scopes(select, db);
    let all = found(select, db);
    let scope = pair_scope(records[i], records[j], db);
    lemma_intersected_row(filter_key, records[i], records[j], db);
    lemma_intersected_on_holds(
        filter_key,
        records[i],
        records[j],
        db,
        buckets.0,
        buckets.1,
        filter_val,
    );
    lemma_intersected_scopes(filter_key, records, db);
    lemma_pair_in_range(records[i], records[j], db, buckets, range, filter_key, filter_val);
    assert(pair_at(left, right, db, i, j) == scope);
    assert(outputs_of(select.outputs, scope) =~= row);
    assert(scopes.contains(scope));
    let k = choose|k: int| 0 <= k < scopes.len() && scopes[k] == scope;
    assert(all[k] == row);
}

proof fn lemma_intersected_found(
    statement: StatementView,
    buckets: (i64, i64),
    start: Option<i128>,
    end: Option<i128>,
    filter_key: Seq<char>,
    filter_val: Seq<char>,
    records: Seq<EventRecord>,
    json: JsonText,
    row: Seq<Datum>,
)
    requires
        fits(start),
        fits(end),
        intersected_statement(buckets.0, buckets.1, start, end, filter_key, filter_val) == Some(
            statement,
        ),
    ensures
        found(intersected_select(filter_key), with_records(records, statement.params, json)).contains(
            row,
        ) <==> exists|i: int, j: int|
            0 <= i < records.len() && 0 <= j < records.len() && is_found_part(
                row,
                #[trigger] records[i],
                #[trigger] records[j],
                buckets,
                query_range(start, end),
                filter_key,
                filter_val,
                json,
            ),
{
    let db = with_records(records, statement.params, json);
    let range = query_range(start, end);
    assert(db.tables =~= Map::<Seq<char>, Seq<Row>>::empty().insert("events"@, rows_of(records)));
    assert(db.bound =~= intersected_values(buckets, range, filter_val));
    if found(intersected_select(filter_key), db).contains(row) {
        let (i, j) = lemma_found_is_a_part(
            db,
            buckets,
            range,
            filter_key,
            filter_val,
            records,
            row,
        );
        assert(is_found_part(
            row,
            records[i],
            records[j],
            buckets,
            range,
            filter_key,
            filter_val,
            json,
        ));
    }
    if exists|i: int, j: int|
        0 <= i < records.len() && 0 <= j < records.len() && is_found_part(
            row,
            #[trigger] records[i],
            #[trigger] records[j],
            buckets,
            range,
            filter_key,
            filter_val,
            json,
        ) {
        let (i, j) = choose|i: int, j: int|
            0 <= i < records.len() && 0 <= j < records.len() && is_found_part(
                row,
                #[trigger] records[i],
                #[trigger] records[j],
                buckets,
                range,
                filter_key,
                filter_val,
                json,
            );
        lemma_part_is_found(db, buckets, range, filter_key, filter_val, records, row, i, j);
    }
}

/// Two events meet the conditions if and only if what is selected for them is a part that is found.
spec fn pair_in_range(
    window: EventRecord,
    afk: EventRecord,
    db: Database,
    buckets: (i64, i64),
    range: (int, int),
    filter_key: Seq<char>,
    filter_val: Seq<char>,
) -> bool {
    let select = intersected_select(filter_key);
    let scope = pair_scope(window, afk, db);
    all_hold(select.source->Join_on, scope, 0) && all_hold(select.conditions, scope, 3)
        <==> is_found_part(
        outputs_of(select.outputs, scope),
        window,
        afk,
        buckets,
        range,
        filter_key,
        filter_val,
        db.json,
    )
}

/// The statement for the parts of events during which another event has a value finds exactly the
/// parts that are shared: each one starts at the later of the starts of an event of the one bucket
/// and of an event of the other one with the value, and ends at the earlier of their ends, and
/// there is one for any two such events that share time, if the first one overlaps the range. They
/// come in the order of their starts. There is no statement if and only if the range ends before
/// it starts.
#[verifier::spinoff_prover]
pub proof fn law_intersection_finds_the_shared_parts(
    buckets: (i64, i64),
    start: Option<i128>,
    end: Option<i128>,
    filter_key: Seq<char>,
    filter_val: Seq<char>,
    records: Seq<EventRecord>,
    json: JsonText,
    rows: Seq<Seq<Datum>>,
)
    requires
        fits(start),
        fits(end),
        match intersected_statement(buckets.0, buckets.1, start, end, filter_key, filter_val) {
            Some(statement) => is_answer(
                intersected_select(filter_key),
                with_records(records, statement.params, json),
                rows,
            ),
            None => true,
        },
    ensures
        match intersected_statement(buckets.0, buckets.1, start, end, filter_key, filter_val) {
            Some(statement) => {
                &&& reads_as(statement, intersected_select(filter_key))
                &&& query_range(start, end).0 <= query_range(start, end).1
                &&& forall|row: Seq<Datum>| #[trigger]
                    rows.contains(row) <==> exists|i: int, j: int|
                        0 <= i < records.len() && 0 <= j < records.len() && is_found_part(
                            row,
                            #[trigger] records[i],
                            #[trigger] records[j],
                            buckets,
                            query_range(start, end),
                            filter_key,
                            filter_val,
                            json,
                        )
                &&& forall|i: int, j: int|
                    0 <= i < j < rows.len() ==> (#[trigger] rows[i])[1]->Integer_0 <= (
                    #[trigger] rows[j])[1]->Integer_0
            },
            None => query_range(start, end).0 > query_range(start, end).1,
        },
{
    if query_range(start, end).0 <= query_range(start, end).1 {
        let select = intersected_select(filter_key);
        let statement = intersected_statement(
            buckets.0,
            buckets.1,
            start,
            end,
            filter_key,
            filter_val,
        )->Some_0;
        let db = with_records(records, statement.params, json);
        lemma_intersected_text(filter_key);
        lemma_whole_answer(select, db, rows);
        assert forall|row: Seq<Datum>| #[trigger] rows.contains(row) <==> exists|i: int, j: int|
            0 <= i < records.len() && 0 <= j < records.len() && is_found_part(
                row,
                #[trigger] records[i],
                #[trigger] records[j],
                buckets,
                query_range(start, end),
                filter_key,
                filter_val,
                json,
            ) by {
            lemma_intersected_found(
                statement,
                buckets,
                start,
                end,
                filter_key,
                filter_val,
                records,
                json,
                row,
            );
        }
        assert forall|i: int, j: int| 0 <= i < j < rows.len() implies (#[trigger]
        rows[i])[1]->Integer_0 <= (#[trigger] rows[j])[1]->Integer_0 by {
            assert(rows.contains(rows[i]) && rows.contains(rows[j]));
            assert(may_come_before(select, rows[i], rows[j], select.order_by));
            lemma_ordered_by_start(select, rows[i], rows[j], filter_key);
        }
    }
}

proof fn lemma_ordered_by_start(select: Select, a: Seq<Datum>, b: Seq<Datum>, filter_key: Seq<char>)
    requires
        select == intersected_select(filter_key),
        may_come_before(select, a, b, select.order_by),
        a[1] is Integer,
        b[1] is Integer,
    ensures
        a[1]->Integer_0 <= b[1]->Integer_0,
{
    reveal_strlit("ASC");
    reveal_strlit("DESC");
    assert("ASC"@.len() == 3 && "DESC"@.len() == 4);
    reveal_strlit("intersect_start");
    reveal_strlit("intersect_end");
    assert("intersect_start"@.len() == 15 && "intersect_end"@.len() == 13);
    let outputs = select.outputs;
    let name = "intersect_start"@;
    reveal_with_fuel(output_named, 5);
    assert(outputs.drop_last().last() == outputs[2]);
    assert(outputs.drop_last().drop_last().last() == outputs[1]);
    assert(output_named(outputs, name) == 1);
    assert(select.order_by[0] == (name, "ASC"@));
}

/// The event that a row stands for.
pub open spec fn event_of(record: EventRecord, json: JsonText) -> EventView {
    EventView {
        id: Some(record.id as i64),
        timestamp: record.starttime,
        duration: record.endtime - record.starttime,
        data: (json.object)(record.data),
    }
}

/// The events of a bucket.
pub open spec fn events_of(records: Seq<EventRecord>, bid: int, json: JsonText) -> Seq<EventView>
    decreases records.len(),
{
    if records.len() == 0 {
        Seq::empty()
    } else if records.last().bucketrow == bid {
        events_of(records.drop_last(), bid, json).push(event_of(records.last(), json))
    } else {
        events_of(records.drop_last(), bid, json)
    }
}

#[verifier::spinoff_prover]
proof fn lemma_events_of(records: Seq<EventRecord>, bid: int, json: JsonText, event: EventView)
    ensures
        events_of(records, bid, json).contains(event) <==> exists|i: int|
            0 <= i < records.len() && (#[trigger] records[i]).bucketrow == bid && event == event_of(
                records[i],
                json,
            ),
    decreases records.len(),
{
    let all = events_of(records, bid, json);
    if records.len() > 0 {
        let head = records.drop_last();
        let earlier = events_of(head, bid, json);
        lemma_events_of(head, bid, json, event);
        assert forall|i: int| 0 <= i < head.len() implies #[trigger] head[i] == records[i] by {}
        if all.contains(event) {
            let k = choose|k: int| 0 <= k < all.len() && all[k] == event;
            if k < earlier.len() {
                assert(earlier[k] == event);
                let i = choose|i: int|
                    0 <= i < head.len() && (#[trigger] head[i]).bucketrow == bid && event == event_of(
                        head[i],
                        json,
                    );
                assert(records[i].bucketrow == bid);
            } else {
                assert(records[records.len() - 1].bucketrow == bid);
            }
        }
        if exists|i: int|
            0 <= i < records.len() && (#[trigger] records[i]).bucketrow == bid && event == event_of(
                records[i],
                json,
            ) {
            let i = choose|i: int|
                0 <= i < records.len() && (#[trigger] records[i]).bucketrow == bid && event
                    == event_of(records[i], json);
            if i < head.len() {
                assert(head[i].bucketrow == bid);
                let k = choose|k: int| 0 <= k < earlier.len() && earlier[k] == event;
                assert(all[k] == event);
            } else {
                assert(all[all.len() - 1] == event);
            }
        }
    }
}

/// Whether one of the rows for parts of events covers the instant `t`.
pub open spec fn part_covers(rows: Seq<Seq<Datum>>, t: int) -> bool {
    exists|k: int|
        0 <= k < rows.len() && (#[trigger] rows[k])[1]->Integer_0 <= t < rows[k][2]->Integer_0
}

/// Where events have texts for the key if anything, and none has a negative length, the parts that
/// the statement finds cover the same time since the Unix epoch as those that are worked out from
/// the same events in memory, whether events overlap or not.
#[verifier::spinoff_prover]
pub proof fn law_intersection_is_the_one_in_memory(
    buckets: (i64, i64),
    filter_key: Seq<char>,
    filter_val: Seq<char>,
    records: Seq<EventRecord>,
    json: JsonText,
    rows: Seq<Seq<Datum>>,
    t: int,
)
    requires
        0 <= t,
        forall|i: int|
            0 <= i < records.len() && (json.object)((#[trigger] records[i]).data).contains_key(
                filter_key,
            ) ==> (json.object)(records[i].data)[filter_key] is Text,
        forall|i: int|
            0 <= i < records.len() ==> (#[trigger] records[i]).starttime <= records[i].endtime
                && records[i].starttime <= i64::MAX,
        match intersected_statement(buckets.0, buckets.1, None, None, filter_key, filter_val) {
            Some(statement) => is_answer(
                intersected_select(filter_key),
                with_records(records, statement.params, json),
                rows,
            ),
            None => true,
        },
    ensures
        part_covers(rows, t) <==> covered(
            period_intersection(
                events_of(records, buckets.0 as int, json),
                with_keyvals(
                    events_of(records, buckets.1 as int, json),
                    filter_key,
                    seq![JsonView::Text(filter_val)],
                ),
            ),
            t,
        ),
{
    let targets = events_of(records, buckets.0 as int, json);
    let others = events_of(records, buckets.1 as int, json);
    let wanted = JsonView::Text(filter_val);
    let filters = with_keyvals(others, filter_key, seq![wanted]);
    let parts = period_intersection(targets, filters);
    let range = query_range(None, None);
    law_intersection_finds_the_shared_parts(
        buckets,
        None,
        None,
        filter_key,
        filter_val,
        records,
        json,
        rows,
    );
    assert forall|k: int| 0 <= k < targets.len() implies (#[trigger] targets[k]).duration >= 0 by {
        lemma_events_of(records, buckets.0 as int, json, targets[k]);
        assert(targets.contains(targets[k]));
    }
    let pred = |e: EventView| crate::worker::has_value(e, filter_key, seq![wanted]);
    assert(filters == others.filter(pred));
    assert forall|k: int| 0 <= k < filters.len() implies (#[trigger] filters[k]).duration >= 0
        && others.contains(filters[k]) && pred(filters[k]) by {
        assert(filters.contains(filters[k]));
        others.lemma_filter_contains_rev(pred, filters[k]);
        others.lemma_filter_pred(pred, k);
        lemma_events_of(records, buckets.1 as int, json, filters[k]);
    }
    law_shared_time_is_kept(targets, filters, t);
    if covered(parts, t) {
        let a = choose|a: int| 0 <= a < targets.len() && (#[trigger] targets[a]).covers(t);
        let b = choose|b: int| 0 <= b < filters.len() && (#[trigger] filters[b]).covers(t);
        assert(targets.contains(targets[a]));
        lemma_events_of(records, buckets.0 as int, json, targets[a]);
        lemma_events_of(records, buckets.1 as int, json, filters[b]);
        let i = choose|i: int|
            0 <= i < records.len() && (#[trigger] records[i]).bucketrow == buckets.0 && targets[a]
                == event_of(records[i], json);
        let j = choose|j: int|
            0 <= j < records.len() && (#[trigger] records[j]).bucketrow == buckets.1 && filters[b]
                == event_of(records[j], json);
        let w = records[i];
        let f = records[j];
        assert(pred(filters[b]));
        assert((json.object)(f.data)[filter_key] is Text);
        assert(value_in(f, filter_key, json) == Datum::Text(filter_val));
        let start = if w.starttime >= f.starttime { w.starttime } else { f.starttime };
        let end = if w.endtime <= f.endtime { w.endtime } else { f.endtime };
        let row = seq![
            Datum::Integer(w.id),
            Datum::Integer(start),
            Datum::Integer(end),
            Datum::Text(w.data),
        ];
        assert(is_found_part(
            row,
            records[i],
            records[j],
            buckets,
            range,
            filter_key,
            filter_val,
            json,
        ));
        assert(rows.contains(row));
        let n = choose|n: int| 0 <= n < rows.len() && rows[n] == row;
        assert(rows[n][1]->Integer_0 <= t < rows[n][2]->Integer_0);
    }
    if part_covers(rows, t) {
        let n = choose|n: int|
            0 <= n < rows.len() && (#[trigger] rows[n])[1]->Integer_0 <= t < rows[n][2]->Integer_0;
        assert(rows.contains(rows[n]));
        let (i, j) = choose|i: int, j: int|
            0 <= i < records.len() && 0 <= j < records.len() && is_found_part(
                rows[n],
                #[trigger] records[i],
                #[trigger] records[j],
                buckets,
                range,
                filter_key,
                filter_val,
                json,
            );
        let w = event_of(records[i], json);
        let f = event_of(records[j], json);
        lemma_events_of(records, buckets.0 as int, json, w);
        lemma_events_of(records, buckets.1 as int, json, f);
        let a = choose|a: int| 0 <= a < targets.len() && targets[a] == w;
        let b = choose|b: int| 0 <= b < others.len() && others[b] == f;
        assert(targets[a].covers(t));
        assert(covered(targets, t));
        assert(equal(seq![wanted][0], f.data[filter_key]));
        assert(pred(others[b]));
        others.lemma_filter_contains(pred, b);
        let c = choose|c: int| 0 <= c < filters.len() && filters[c] == f;
        assert(filters[c].covers(t));
    }
}

} // verus!
