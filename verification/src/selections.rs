//! What the statements on the table of events find in it.

use vstd::prelude::*;

#[allow(unused_imports)]
use crate::answers::{
    event_of, infix, lemma_infix_holds, lemma_joined_more, lemma_joined_two, lemma_three_hold,
    lemma_value_at, lemma_value_at_text, lemma_words, named, plain, rows_of, value_at, value_in,
};
#[allow(unused_imports)]
use crate::event::EventView;
#[allow(unused_imports)]
use crate::json::JsonView;
#[allow(unused_imports)]
use crate::query::{
    all_filter_values, bound_limit, comparable, count_statement, event_statement, events_selection, events_statement, extraction,
    filter_condition, filter_conditions, filter_values, fits, grouped_statement, newest_first,
    placeholders, query_range, EventFilterView, SqlValueView, StatementView,
};
#[allow(unused_imports)]
use crate::sql::{
    all_hold, all_text, bound_in, bound_in_all, bound_in_outputs, expr_text, extreme_over, found,
    holds, is_answer, joined, lemma_bound_in_more, lemma_one_more_holds, lemma_operators, lemma_record_columns, lemma_whole_answer, may_come_before,
    limited, output_named, output_text, outputs_of, outputs_of_all, reads_as, scope_of, select_text,
    selected_scopes, sum_over, value_of, value_of_all, values_over, where_all, with_records,
    with_value, Database, Datum, EventRecord, Expr, JsonText, Output, Row, Scope, Select, Source,
};
#[allow(unused_imports)]
use crate::worker::{groups_of, is_group_of, law_groups_add_up_their_events, length_with};

verus! {

/// The conditions for the events of a bucket that overlap a range of time.
pub open spec fn range_conditions() -> Seq<Expr> {
    seq![
        infix(Expr::Column("bucketrow"@), " = "@, Expr::Bound),
        infix(Expr::Column("endtime"@), " >= "@, Expr::Bound),
        infix(Expr::Column("starttime"@), " <= "@, Expr::Bound),
    ]
}

/// The length of an event.
pub open spec fn row_length() -> Expr {
    infix(Expr::Column("endtime"@), " - "@, Expr::Column("starttime"@))
}

/// The statement that adds up the lengths of the events of a bucket by the value of a key.
pub open spec fn grouped_select(key: Seq<char>) -> Select {
    Select {
        outputs: seq![
            named(Expr::Call("min"@, Box::new(Expr::Column("starttime"@))), "starttime"@),
            named(
                Expr::Cast(Box::new(Expr::Call("sum"@, Box::new(row_length()))), "BIGINT"@),
                "duration_ns"@,
            ),
            named(value_at(Expr::Column("data"@), key), "group_val"@),
        ],
        source: Source::Table("events"@),
        conditions: range_conditions(),
        group_by: Some("group_val"@),
        order_by: seq![("duration_ns"@, "DESC"@)],
        limit: None,
    }
}

/// How a column is compared with a bound value.
pub(crate) proof fn lemma_compared_text(name: Seq<char>, operator: Seq<char>)
    ensures
        expr_text(infix(Expr::Column(name), operator, Expr::Bound)) == name + operator + "?"@,
{
    assert(expr_text(Expr::Column(name)) == name);
    assert(expr_text(Expr::Bound) == "?"@);
}

proof fn lemma_range_text()
    ensures
        all_text(range_conditions()) == "bucketrow = ? AND endtime >= ? AND starttime <= ?"@,
{
    let conditions = range_conditions();
    let c1 = "bucketrow"@ + " = "@ + "?"@;
    let c2 = "endtime"@ + " >= "@ + "?"@;
    let c3 = "starttime"@ + " <= "@ + "?"@;
    lemma_compared_text("bucketrow"@, " = "@);
    lemma_compared_text("endtime"@, " >= "@);
    lemma_compared_text("starttime"@, " <= "@);
    assert(conditions.map_values(|c: Expr| expr_text(c)) =~= seq![c1, c2].push(c3));
    lemma_joined_two(c1, c2, " AND "@);
    lemma_joined_more(seq![c1, c2], c3, " AND "@);
    assert(c1 + " AND "@ + c2 + " AND "@ + c3
        =~= "bucketrow = ? AND endtime >= ? AND starttime <= ?"@) by {
        lemma_words();
        reveal_strlit("bucketrow = ? AND endtime >= ? AND starttime <= ?");
    }
}

#[verifier::spinoff_prover]
proof fn lemma_grouped_outputs_text(key: Seq<char>)
    ensures
        joined(grouped_select(key).outputs.map_values(|o: Output| output_text(o)), ", "@)
            == "min(starttime) as starttime, CAST(sum(endtime - starttime) AS BIGINT) as duration_ns, "@
            + (extraction("data"@, key) + " as "@ + "group_val"@),
{
    let outputs = grouped_select(key).outputs;
    let texts = outputs.map_values(|o: Output| output_text(o));
    let a = "min"@ + "("@ + "starttime"@ + ")"@ + " as "@ + "starttime"@;
    let sum = "sum"@ + "("@ + ("endtime"@ + " - "@ + "starttime"@) + ")"@;
    let b = "CAST("@ + sum + " AS "@ + "BIGINT"@ + ")"@ + " as "@ + "duration_ns"@;
    let c = extraction("data"@, key) + " as "@ + "group_val"@;
    lemma_value_at_text(Expr::Column("data"@), key);
    assert(expr_text(Expr::Column("data"@)) == "data"@);
    assert(expr_text(Expr::Column("starttime"@)) == "starttime"@);
    assert(expr_text(Expr::Column("endtime"@)) == "endtime"@);
    assert(expr_text(row_length()) == "endtime"@ + " - "@ + "starttime"@);
    assert(expr_text(Expr::Call("sum"@, Box::new(row_length()))) == sum);
    assert(output_text(outputs[0]) == a);
    assert(output_text(outputs[1]) == b);
    assert(output_text(outputs[2]) == c);
    assert(texts =~= seq![a, b].push(c));
    lemma_joined_two(a, b, ", "@);
    lemma_joined_more(seq![a, b], c, ", "@);
    assert(a + ", "@ + b + ", "@
        =~= "min(starttime) as starttime, CAST(sum(endtime - starttime) AS BIGINT) as duration_ns, "@)
        by {
        lemma_words();
        reveal_strlit("min");
        reveal_strlit("sum");
        reveal_strlit("CAST(");
        reveal_strlit(" AS ");
        reveal_strlit("BIGINT");
        reveal_strlit("duration_ns");
        reveal_strlit("min(starttime) as starttime, CAST(sum(endtime - starttime) AS BIGINT) as duration_ns, ");
    }
}

proof fn lemma_put_in_the_middle(a: Seq<char>, b: Seq<char>, middle: Seq<char>, c: Seq<char>, d: Seq<char>)
    ensures
        (a + (b + (middle + c))) + d == (a + b) + middle + (c + d),
{
    assert((a + (b + (middle + c))) + d =~= (a + b) + middle + (c + d));
}

#[verifier::spinoff_prover]
proof fn lemma_grouped_text(key: Seq<char>)
    ensures
        select_text(grouped_select(key))
            == "SELECT min(starttime) as starttime, CAST(sum(endtime - starttime) AS BIGINT) as duration_ns, "@
            + extraction("data"@, key)
            + " as group_val FROM events WHERE bucketrow = ? AND endtime >= ? AND starttime <= ? GROUP BY group_val ORDER BY duration_ns DESC"@,
{
    let select = grouped_select(key);
    lemma_grouped_outputs_text(key);
    lemma_range_text();
    let outputs = "min(starttime) as starttime, CAST(sum(endtime - starttime) AS BIGINT) as duration_ns, "@;
    let conditions = "bucketrow = ? AND endtime >= ? AND starttime <= ?"@;
    let middle = extraction("data"@, key);
    let order = select.order_by.map_values(|o: (Seq<char>, Seq<char>)| o.0 + " "@ + o.1);
    let last = "duration_ns"@ + " "@ + "DESC"@;
    assert(order =~= seq![last]);
    assert(joined(order, ", "@) == last);
    let c = " as "@ + "group_val"@;
    let d = " FROM "@ + "events"@ + (" WHERE "@ + conditions) + (" GROUP BY "@ + "group_val"@) + (
    " ORDER BY "@ + last);
    assert(select_text(select) =~= ("SELECT "@ + (outputs + (middle + c))) + d);
    lemma_put_in_the_middle("SELECT "@, outputs, middle, c, d);
    assert("SELECT "@ + outputs
        =~= "SELECT min(starttime) as starttime, CAST(sum(endtime - starttime) AS BIGINT) as duration_ns, "@)
        by {
        reveal_strlit("SELECT ");
        reveal_strlit("min(starttime) as starttime, CAST(sum(endtime - starttime) AS BIGINT) as duration_ns, ");
        reveal_strlit("SELECT min(starttime) as starttime, CAST(sum(endtime - starttime) AS BIGINT) as duration_ns, ");
    }
    assert(c + d
        =~= " as group_val FROM events WHERE bucketrow = ? AND endtime >= ? AND starttime <= ? GROUP BY group_val ORDER BY duration_ns DESC"@)
        by {
        reveal_strlit(" as ");
        reveal_strlit(" ");
        reveal_strlit("group_val");
        reveal_strlit(" FROM ");
        reveal_strlit("events");
        reveal_strlit(" WHERE ");
        reveal_strlit(" GROUP BY ");
        reveal_strlit(" ORDER BY ");
        reveal_strlit("duration_ns");
        reveal_strlit("DESC");
        reveal_strlit("bucketrow = ? AND endtime >= ? AND starttime <= ?");
        reveal_strlit(" as group_val FROM events WHERE bucketrow = ? AND endtime >= ? AND starttime <= ? GROUP BY group_val ORDER BY duration_ns DESC");
    }
}

/// What can be seen of an event.
pub open spec fn record_scope(record: EventRecord, db: Database) -> Scope {
    scope_of("events"@, record.row(), db)
}

/// What can be seen of each of the events.
pub open spec fn record_scopes(records: Seq<EventRecord>, db: Database) -> Seq<Scope> {
    records.map_values(|r: EventRecord| record_scope(r, db))
}

/// Those of the events that are asked for.
pub open spec fn kept_records(records: Seq<EventRecord>, kept: spec_fn(EventRecord) -> bool) -> Seq<
    EventRecord,
>
    decreases records.len(),
{
    if records.len() == 0 {
        Seq::empty()
    } else if kept(records.last()) {
        kept_records(records.drop_last(), kept).push(records.last())
    } else {
        kept_records(records.drop_last(), kept)
    }
}

/// Whether an event of the bucket overlaps the range.
pub open spec fn in_range(record: EventRecord, bid: int, range: (int, int)) -> bool {
    record.bucketrow == bid && record.endtime >= range.0 && record.starttime <= range.1
}

/// The events of the bucket that overlap the range.
pub open spec fn records_in_range(records: Seq<EventRecord>, bid: int, range: (int, int)) -> Seq<
    EventRecord,
> {
    kept_records(records, |r: EventRecord| in_range(r, bid, range))
}

pub(crate) proof fn lemma_kept_records(records: Seq<EventRecord>, kept: spec_fn(EventRecord) -> bool)
    ensures
        forall|r: EventRecord| #[trigger]
            kept_records(records, kept).contains(r) <==> records.contains(r) && kept(r),
    decreases records.len(),
{
    let all = kept_records(records, kept);
    if records.len() > 0 {
        let head = records.drop_last();
        let before = kept_records(head, kept);
        lemma_kept_records(head, kept);
        assert forall|r: EventRecord| #[trigger] all.contains(r) <==> records.contains(r) && kept(r) by {
            if all.contains(r) {
                let k = choose|k: int| 0 <= k < all.len() && all[k] == r;
                if k < before.len() {
                    assert(before[k] == r);
                    assert(before.contains(r));
                    let i = choose|i: int| 0 <= i < head.len() && head[i] == r;
                    assert(records[i] == r);
                } else {
                    assert(records[records.len() - 1] == r);
                }
            }
            if records.contains(r) && kept(r) {
                let i = choose|i: int| 0 <= i < records.len() && records[i] == r;
                if i < head.len() {
                    assert(head[i] == r);
                    assert(before.contains(r));
                    let k = choose|k: int| 0 <= k < before.len() && before[k] == r;
                    assert(all[k] == r);
                } else {
                    assert(all[all.len() - 1] == r);
                }
            }
        }
    }
}

/// Filtering what can be seen of events is filtering the events.
proof fn lemma_filtered_scopes(
    records: Seq<EventRecord>,
    db: Database,
    pred: spec_fn(Scope) -> bool,
    kept: spec_fn(EventRecord) -> bool,
)
    requires
        forall|r: EventRecord| #[trigger] kept(r) <==> pred(record_scope(r, db)),
    ensures
        record_scopes(records, db).filter(pred) == record_scopes(kept_records(records, kept), db),
    decreases records.len(),
{
    reveal(Seq::filter);
    let scopes = record_scopes(records, db);
    if records.len() == 0 {
        assert(scopes.filter(pred) =~= record_scopes(kept_records(records, kept), db));
    } else {
        let head = records.drop_last();
        lemma_filtered_scopes(head, db, pred, kept);
        assert(scopes.drop_last() =~= record_scopes(head, db));
        assert(scopes.last() == record_scope(records.last(), db));
        assert(kept(records.last()) <==> pred(record_scope(records.last(), db)));
        assert(scopes.filter(pred) =~= record_scopes(kept_records(records, kept), db));
    }
}

pub(crate) proof fn lemma_record_values(record: EventRecord, db: Database, at: int)
    ensures
        value_of(Expr::Column("id"@), record_scope(record, db), at) == Datum::Integer(record.id),
        value_of(Expr::Column("bucketrow"@), record_scope(record, db), at) == Datum::Integer(
            record.bucketrow,
        ),
        value_of(Expr::Column("starttime"@), record_scope(record, db), at) == Datum::Integer(
            record.starttime,
        ),
        value_of(Expr::Column("endtime"@), record_scope(record, db), at) == Datum::Integer(
            record.endtime,
        ),
        value_of(Expr::Column("data"@), record_scope(record, db), at) == Datum::Text(record.data),
{
    lemma_record_columns(record);
}

#[verifier::spinoff_prover]
proof fn lemma_range_holds(record: EventRecord, db: Database, bid: i64, from: i64, to: i64)
    requires
        db.bound.len() >= 3,
        db.bound[0] == SqlValueView::Integer(bid),
        db.bound[1] == SqlValueView::Integer(from),
        db.bound[2] == SqlValueView::Integer(to),
    ensures
        all_hold(range_conditions(), record_scope(record, db), 0) <==> in_range(
            record,
            bid as int,
            (from as int, to as int),
        ),
        bound_in_all(range_conditions()) == 3,
{
    let scope = record_scope(record, db);
    let conditions = range_conditions();
    lemma_three_hold(conditions[0], conditions[1], conditions[2], scope, 0);
    assert(conditions == seq![conditions[0], conditions[1], conditions[2]]);
    lemma_record_values(record, db, 0);
    lemma_record_values(record, db, 1);
    lemma_record_values(record, db, 2);
    lemma_operators();
    assert(bound_in(Expr::Bound) == 1);
    lemma_infix_holds(Expr::Column("bucketrow"@), " = "@, Expr::Bound, scope, 0);
    lemma_infix_holds(Expr::Column("endtime"@), " >= "@, Expr::Bound, scope, 1);
    lemma_infix_holds(Expr::Column("starttime"@), " <= "@, Expr::Bound, scope, 2);
    assert(value_of(Expr::Bound, scope, 0) == Datum::Integer(bid as int));
    assert(value_of(Expr::Bound, scope, 1) == Datum::Integer(from as int));
    assert(value_of(Expr::Bound, scope, 2) == Datum::Integer(to as int));
}

/// Whether a database holds these events, and nothing else.
pub open spec fn holds_records(db: Database, records: Seq<EventRecord>) -> bool {
    db.tables == Map::<Seq<char>, Seq<Row>>::empty().insert("events"@, rows_of(records))
}

/// What a statement on the table of events selects.
proof fn lemma_selected_records(
    select: Select,
    records: Seq<EventRecord>,
    db: Database,
    kept: spec_fn(EventRecord) -> bool,
)
    requires
        holds_records(db, records),
        select.source == Source::Table("events"@),
        bound_in_outputs(select.outputs) == 0,
        forall|r: EventRecord| #[trigger]
            kept(r) <==> all_hold(select.conditions, record_scope(r, db), 0),
    ensures
        selected_scopes(select, db) == record_scopes(kept_records(records, kept), db),
{
    let pred = |scope: Scope| all_hold(select.conditions, scope, 0);
    assert(db.tables["events"@] == rows_of(records));
    assert(crate::sql::source_scopes(select, db) =~= record_scopes(records, db));
    lemma_filtered_scopes(records, db, pred, kept);
}

/// The sum of the lengths of events.
pub open spec fn total_length(records: Seq<EventRecord>) -> int
    decreases records.len(),
{
    if records.len() == 0 {
        0
    } else {
        total_length(records.drop_last()) + (records.last().endtime - records.last().starttime)
    }
}

/// Those of the events that have a value for the key.
pub open spec fn records_with(
    records: Seq<EventRecord>,
    key: Seq<char>,
    value: Datum,
    json: JsonText,
) -> Seq<EventRecord> {
    kept_records(records, |r: EventRecord| value_in(r, key, json) == value)
}

/// Whether a row stands for all those of the events that have its value for the key: it holds the
/// earliest of their starts, and the sum of their lengths.
pub open spec fn is_group_row(
    row: Seq<Datum>,
    records: Seq<EventRecord>,
    key: Seq<char>,
    json: JsonText,
) -> bool {
    &&& row.len() == 3
    &&& row[1] == Datum::Integer(total_length(records_with(records, key, row[2], json)))
    &&& row[0] is Integer
    &&& forall|i: int|
        0 <= i < records.len() && value_in(#[trigger] records[i], key, json) == row[2]
            ==> row[0]->Integer_0 <= records[i].starttime
    &&& exists|i: int|
        0 <= i < records.len() && value_in(#[trigger] records[i], key, json) == row[2]
            && row[0]->Integer_0 == records[i].starttime
}

proof fn lemma_sum_over(records: Seq<EventRecord>, db: Database)
    ensures
        sum_over(row_length(), record_scopes(records, db), 0) == total_length(records),
    decreases records.len(),
{
    if records.len() > 0 {
        let head = records.drop_last();
        let scopes = record_scopes(records, db);
        lemma_sum_over(head, db);
        assert(scopes.drop_last() =~= record_scopes(head, db));
        assert(scopes.last() == record_scope(records.last(), db));
        lemma_record_values(records.last(), db, 0);
        assert(value_of(row_length(), scopes.last(), 0) == Datum::Integer(
            records.last().endtime - records.last().starttime,
        ));
    }
}

proof fn lemma_min_over(records: Seq<EventRecord>, db: Database) -> (first: int)
    requires
        records.len() > 0,
    ensures
        0 <= first < records.len(),
        extreme_over(Expr::Column("starttime"@), record_scopes(records, db), 0, false)
            == Datum::Integer(records[first].starttime),
        forall|i: int|
            0 <= i < records.len() ==> records[first].starttime <= (#[trigger] records[i]).starttime,
    decreases records.len(),
{
    let head = records.drop_last();
    let scopes = record_scopes(records, db);
    let n = records.len() - 1;
    assert(scopes.drop_last() =~= record_scopes(head, db));
    assert(scopes.last() == record_scope(records.last(), db));
    lemma_record_values(records.last(), db, 0);
    if head.len() == 0 {
        assert(extreme_over(Expr::Column("starttime"@), scopes.drop_last(), 0, false)
            == Datum::Null);
        n
    } else {
        let before = lemma_min_over(head, db);
        assert forall|i: int| 0 <= i < n implies records[before].starttime <= (
        #[trigger] records[i]).starttime by {
            assert(head[i] == records[i]);
        }
        if records[before].starttime < records[n].starttime {
            before
        } else {
            n
        }
    }
}

#[verifier::spinoff_prover]
proof fn lemma_values_over(records: Seq<EventRecord>, db: Database, key: Seq<char>)
    ensures
        ({
            let values = values_over(
                value_at(Expr::Column("data"@), key),
                record_scopes(records, db),
                0,
            );
            &&& values.no_duplicates()
            &&& forall|value: Datum| #[trigger]
                values.contains(value) <==> exists|i: int|
                    0 <= i < records.len() && value_in(#[trigger] records[i], key, db.json) == value
        }),
    decreases records.len(),
{
    let by = value_at(Expr::Column("data"@), key);
    let values = values_over(by, record_scopes(records, db), 0);
    if records.len() > 0 {
        let head = records.drop_last();
        let last = records.last();
        let scopes = record_scopes(records, db);
        lemma_values_over(head, db, key);
        assert(scopes.drop_last() =~= record_scopes(head, db));
        assert(scopes.last() == record_scope(last, db));
        lemma_record_values(last, db, 0);
        lemma_value_at(Expr::Column("data"@), key, last, scopes.last(), 0);
        let before = values_over(by, record_scopes(head, db), 0);
        let value = value_in(last, key, db.json);
        assert(values == if before.contains(value) {
            before
        } else {
            before.push(value)
        });
        assert forall|v: Datum| #[trigger] values.contains(v) <==> exists|i: int|
            0 <= i < records.len() && value_in(#[trigger] records[i], key, db.json) == v by {
            if values.contains(v) {
                if before.contains(v) {
                    let i = choose|i: int|
                        0 <= i < head.len() && value_in(#[trigger] head[i], key, db.json) == v;
                    assert(records[i] == head[i]);
                } else {
                    assert(v == value);
                    assert(records[records.len() - 1] == last);
                }
            }
            if exists|i: int|
                0 <= i < records.len() && value_in(#[trigger] records[i], key, db.json) == v {
                let i = choose|i: int|
                    0 <= i < records.len() && value_in(#[trigger] records[i], key, db.json) == v;
                if i < head.len() {
                    assert(head[i] == records[i]);
                    assert(before.contains(v));
                    let k = choose|k: int| 0 <= k < before.len() && before[k] == v;
                    assert(values[k] == v);
                } else if !before.contains(value) {
                    assert(values[values.len() - 1] == v);
                }
            }
        }
    }
}

/// The row for the events that have a value.
#[verifier::spinoff_prover]
proof fn lemma_group_row(records: Seq<EventRecord>, db: Database, key: Seq<char>, value: Datum)
    requires
        exists|i: int|
            0 <= i < records.len() && value_in(#[trigger] records[i], key, db.json) == value,
    ensures
        ({
            let by = value_at(Expr::Column("data"@), key);
            let row = outputs_of_all(
                grouped_select(key).outputs,
                with_value(by, record_scopes(records, db), 0, value),
            );
            &&& row[2] == value
            &&& is_group_row(row, records, key, db.json)
        }),
{
    let outputs = grouped_select(key).outputs;
    let by = value_at(Expr::Column("data"@), key);
    let kept = |r: EventRecord| value_in(r, key, db.json) == value;
    let pred = |scope: Scope| value_of(by, scope, 0) == value;
    let group = records_with(records, key, value, db.json);
    let scopes = record_scopes(group, db);
    assert forall|r: EventRecord| #[trigger] kept(r) <==> pred(record_scope(r, db)) by {
        lemma_record_values(r, db, 0);
        lemma_value_at(Expr::Column("data"@), key, r, record_scope(r, db), 0);
    }
    lemma_filtered_scopes(records, db, pred, kept);
    lemma_kept_records(records, kept);
    assert(with_value(by, record_scopes(records, db), 0, value) == scopes);
    let some = choose|i: int|
        0 <= i < records.len() && value_in(#[trigger] records[i], key, db.json) == value;
    assert(records.contains(records[some]) && kept(records[some]));
    assert(group.contains(records[some]));
    let first = lemma_min_over(group, db);
    lemma_sum_over(group, db);
    let row = outputs_of_all(outputs, scopes);
    assert(row[0] == Datum::Integer(group[first].starttime)) by {
        reveal_strlit("sum");
        reveal_strlit("min");
        assert("sum"@[0] == 's' && "min"@[0] == 'm');
    }
    assert(row[1] == Datum::Integer(total_length(group))) by {
        reveal_with_fuel(value_of_all, 2);
    }
    assert(group.contains(group[0]));
    lemma_record_values(group[0], db, 0);
    lemma_value_at(Expr::Column("data"@), key, group[0], record_scope(group[0], db), 0);
    assert(scopes[0] == record_scope(group[0], db));
    assert(!crate::sql::calls_all(Expr::Column("data"@)));
    assert(row[2] == value_of(by, scopes[0], 0));
    assert(row[2] == value);
    assert forall|i: int|
        0 <= i < records.len() && value_in(#[trigger] records[i], key, db.json)
            == value implies group[first].starttime <= records[i].starttime by {
        assert(records.contains(records[i]) && kept(records[i]));
        assert(group.contains(records[i]));
        let k = choose|k: int| 0 <= k < group.len() && group[k] == records[i];
        assert(group[first].starttime <= group[k].starttime);
    }
    assert(group.contains(group[first]));
    assert(records.contains(group[first]) && kept(group[first]));
    let i = choose|i: int| 0 <= i < records.len() && records[i] == group[first];
    assert(value_in(records[i], key, db.json) == value);
}

/// The sum of the lengths in rows of groups.
pub open spec fn sum_of_groups(rows: Seq<Seq<Datum>>) -> int
    decreases rows.len(),
{
    if rows.len() == 0 {
        0
    } else {
        sum_of_groups(rows.drop_last()) + rows.last()[1]->Integer_0
    }
}

/// Whether there is a row for a value.
pub open spec fn has_row_for(rows: Seq<Seq<Datum>>, value: Datum) -> bool {
    exists|k: int| 0 <= k < rows.len() && (#[trigger] rows[k])[2] == value
}

/// The events that do not have a value.
spec fn records_without(
    records: Seq<EventRecord>,
    key: Seq<char>,
    value: Datum,
    json: JsonText,
) -> Seq<EventRecord> {
    kept_records(records, |r: EventRecord| value_in(r, key, json) != value)
}

proof fn lemma_with_and_without(
    records: Seq<EventRecord>,
    key: Seq<char>,
    value: Datum,
    other: Datum,
    json: JsonText,
)
    ensures
        total_length(records) == total_length(records_with(records, key, value, json))
            + total_length(records_without(records, key, value, json)),
        other != value ==> records_with(
            records_without(records, key, value, json),
            key,
            other,
            json,
        ) == records_with(records, key, other, json),
    decreases records.len(),
{
    if records.len() > 0 {
        let head = records.drop_last();
        let last = records.last();
        lemma_with_and_without(head, key, value, other, json);
        let with = records_with(head, key, value, json);
        let without = records_without(head, key, value, json);
        assert(with.push(last).drop_last() =~= with);
        assert(without.push(last).drop_last() =~= without);
    }
}

/// Rows for all the values that occur add up to all the events.
#[verifier::spinoff_prover]
proof fn lemma_groups_add_up(
    rows: Seq<Seq<Datum>>,
    records: Seq<EventRecord>,
    key: Seq<char>,
    json: JsonText,
)
    requires
        forall|k: int|
            0 <= k < rows.len() ==> (#[trigger] rows[k])[1] == Datum::Integer(
                total_length(records_with(records, key, rows[k][2], json)),
            ),
        forall|k: int, l: int|
            0 <= k < l < rows.len() ==> (#[trigger] rows[k])[2] != (#[trigger] rows[l])[2],
        forall|i: int|
            0 <= i < records.len() ==> has_row_for(rows, value_in(#[trigger] records[i], key, json)),
    ensures
        sum_of_groups(rows) == total_length(records),
    decreases rows.len(),
{
    if rows.len() == 0 {
        if records.len() > 0 {
            assert(value_in(records[0], key, json) == value_in(records[0], key, json));
            assert(false);
        }
    } else {
        let n = rows.len() - 1;
        let value = rows[n][2];
        let kept = |r: EventRecord| value_in(r, key, json) != value;
        let rest = records_without(records, key, value, json);
        let fewer = rows.drop_last();
        lemma_kept_records(records, kept);
        lemma_with_and_without(records, key, value, value, json);
        assert forall|k: int| 0 <= k < fewer.len() implies (#[trigger] fewer[k])[1]
            == Datum::Integer(total_length(records_with(rest, key, fewer[k][2], json))) by {
            assert(rows[k][2] != rows[n][2]);
            lemma_with_and_without(records, key, value, rows[k][2], json);
        }
        assert forall|k: int, l: int| 0 <= k < l < fewer.len() implies (#[trigger] fewer[k])[2] != (
        #[trigger] fewer[l])[2] by {
            assert(rows[k][2] != rows[l][2]);
        }
        assert forall|i: int| 0 <= i < rest.len() implies has_row_for(fewer, value_in(#[trigger] rest[i], key, json)) by {
            assert(rest.contains(rest[i]));
            assert(kept(rest[i]) && records.contains(rest[i]));
            let j = choose|j: int| 0 <= j < records.len() && records[j] == rest[i];
            let k = choose|k: int|
                0 <= k < rows.len() && (#[trigger] rows[k])[2] == value_in(records[j], key, json);
            assert(k != n);
            assert(fewer[k] == rows[k]);
        }
        lemma_groups_add_up(fewer, rest, key, json);
    }
}

/// What the statement for groups finds, before it is put in order.
#[verifier::spinoff_prover]
proof fn lemma_grouped_found(
    records: Seq<EventRecord>,
    db: Database,
    bid: i64,
    from: i64,
    to: i64,
    key: Seq<char>,
)
    requires
        holds_records(db, records),
        db.bound.len() >= 3,
        db.bound[0] == SqlValueView::Integer(bid),
        db.bound[1] == SqlValueView::Integer(from),
        db.bound[2] == SqlValueView::Integer(to),
    ensures
        ({
            let picked = records_in_range(records, bid as int, (from as int, to as int));
            let all = found(grouped_select(key), db);
            &&& forall|k: int|
                0 <= k < all.len() ==> is_group_row(#[trigger] all[k], picked, key, db.json)
            &&& forall|k: int, l: int|
                0 <= k < l < all.len() ==> (#[trigger] all[k])[2] != (#[trigger] all[l])[2]
            &&& forall|i: int|
                0 <= i < picked.len() ==> has_row_for(all, value_in(#[trigger] picked[i], key, db.json))
        }),
{
    let select = grouped_select(key);
    let outputs = select.outputs;
    let by = value_at(Expr::Column("data"@), key);
    let kept = |r: EventRecord| in_range(r, bid as int, (from as int, to as int));
    let picked = records_in_range(records, bid as int, (from as int, to as int));
    let scopes = record_scopes(picked, db);
    let all = found(select, db);
    assert forall|r: EventRecord| #[trigger] kept(r) <==> all_hold(
        select.conditions,
        record_scope(r, db),
        0,
    ) by {
        lemma_range_holds(r, db, bid, from, to);
    }
    assert(bound_in_outputs(outputs) == 0) by {
        assert(outputs.drop_last() =~= outputs.take(2));
        assert(outputs.take(2).drop_last() =~= outputs.take(1));
        assert(outputs.take(1).drop_last() =~= outputs.take(0));
        reveal_with_fuel(bound_in_outputs, 4);
        reveal_with_fuel(bound_in, 4);
    }
    lemma_selected_records(select, records, db, kept);
    assert(output_named(outputs, "group_val"@) == 2);
    let values = values_over(by, scopes, 0);
    lemma_values_over(picked, db, key);
    assert(all == values.map_values(
        |value: Datum| outputs_of_all(outputs, with_value(by, scopes, 0, value)),
    ));
    assert forall|k: int| 0 <= k < all.len() implies is_group_row(
        #[trigger] all[k],
        picked,
        key,
        db.json,
    ) && all[k][2] == values[k] by {
        assert(values.contains(values[k]));
        lemma_group_row(picked, db, key, values[k]);
    }
    assert forall|i: int| 0 <= i < picked.len() implies has_row_for(all, value_in(#[trigger] picked[i], key, db.json)) by {
        let value = value_in(picked[i], key, db.json);
        assert(values.contains(value));
        let k = choose|k: int| 0 <= k < values.len() && values[k] == value;
        assert(all[k][2] == value);
    }
}

/// Rows that are what is found in another order are as different from each other.
#[verifier::spinoff_prover]
proof fn lemma_reordered_groups(all: Seq<Seq<Datum>>, rows: Seq<Seq<Datum>>)
    requires
        rows.to_multiset() == all.to_multiset(),
        forall|k: int, l: int|
            0 <= k < l < all.len() ==> (#[trigger] all[k])[2] != (#[trigger] all[l])[2],
    ensures
        forall|k: int, l: int|
            0 <= k < l < rows.len() ==> (#[trigger] rows[k])[2] != (#[trigger] rows[l])[2],
{
    broadcast use vstd::seq_lib::group_to_multiset_ensures;

    assert(all.no_duplicates()) by {
        assert forall|k: int, l: int| 0 <= k < all.len() && 0 <= l < all.len() && k != l implies all[k]
            != all[l] by {
            if k < l {
                assert(all[k][2] != all[l][2]);
            } else {
                assert(all[l][2] != all[k][2]);
            }
        }
    }
    all.lemma_multiset_has_no_duplicates();
    assert forall|x: Seq<Datum>| rows.to_multiset().contains(x) implies #[trigger] rows.to_multiset().count(
        x,
    ) == 1 by {
        assert(all.to_multiset().contains(x));
    }
    rows.lemma_multiset_has_no_duplicates_conv();
    assert forall|k: int, l: int| 0 <= k < l < rows.len() implies (#[trigger] rows[k])[2] != (
    #[trigger] rows[l])[2] by {
        assert(rows.contains(rows[k]) && rows.contains(rows[l]));
        assert(rows.to_multiset().count(rows[k]) > 0 && rows.to_multiset().count(rows[l]) > 0);
        assert(all.contains(rows[k]) && all.contains(rows[l]));
        let a = choose|a: int| 0 <= a < all.len() && all[a] == rows[k];
        let b = choose|b: int| 0 <= b < all.len() && all[b] == rows[l];
        assert(rows[k] != rows[l]);
        if a < b {
            assert(all[a][2] != all[b][2]);
        } else {
            assert(all[b][2] != all[a][2]);
        }
    }
}

/// The statement that adds up lengths finds one row for each value that the key has in the events of
/// the bucket in the range, and no two for the same. Its length is the sum of the lengths of all
/// events with that value, and its start the earliest of their starts. The lengths of all rows add
/// up to the length of all those events, and the longest come first. There is no statement if and
/// only if the range ends before it starts.
#[verifier::spinoff_prover]
pub proof fn law_grouping_adds_up_the_events(
    bid: i64,
    start: Option<i128>,
    end: Option<i128>,
    key: Seq<char>,
    records: Seq<EventRecord>,
    json: JsonText,
    rows: Seq<Seq<Datum>>,
)
    requires
        fits(start),
        fits(end),
        match grouped_statement(bid, start, end, key) {
            Some(statement) => is_answer(
                grouped_select(key),
                with_records(records, statement.params, json),
                rows,
            ),
            None => true,
        },
    ensures
        match grouped_statement(bid, start, end, key) {
            Some(statement) => {
                let picked = records_in_range(records, bid as int, query_range(start, end));
                &&& reads_as(statement, grouped_select(key))
                &&& query_range(start, end).0 <= query_range(start, end).1
                &&& forall|k: int|
                    0 <= k < rows.len() ==> is_group_row(#[trigger] rows[k], picked, key, json)
                &&& forall|k: int, l: int|
                    0 <= k < l < rows.len() ==> (#[trigger] rows[k])[2] != (#[trigger] rows[l])[2]
                &&& forall|i: int|
                    0 <= i < picked.len() ==> has_row_for(rows, value_in(#[trigger] picked[i], key, json))
                &&& sum_of_groups(rows) == total_length(picked)
                &&& forall|k: int, l: int|
                    0 <= k < l < rows.len() ==> (#[trigger] rows[k])[1]->Integer_0 >= (
                    #[trigger] rows[l])[1]->Integer_0
            },
            None => query_range(start, end).0 > query_range(start, end).1,
        },
{
    let range = query_range(start, end);
    if range.0 <= range.1 {
        let select = grouped_select(key);
        let statement = grouped_statement(bid, start, end, key)->Some_0;
        let db = with_records(records, statement.params, json);
        let picked = records_in_range(records, bid as int, range);
        lemma_with_records(db, records, statement.params, json);
        lemma_grouped_text(key);
        lemma_grouped_found(records, db, bid, range.0 as i64, range.1 as i64, key);
        lemma_whole_answer(select, db, rows);
        lemma_reordered_groups(found(select, db), rows);
        lemma_group_rows(found(select, db), rows, picked, key, json);
        lemma_groups_add_up(rows, picked, key, json);
        lemma_rows_by_length(rows, picked, key, json);
    }
}

proof fn lemma_with_records(
    db: Database,
    records: Seq<EventRecord>,
    bound: Seq<SqlValueView>,
    json: JsonText,
)
    requires
        db == with_records(records, bound, json),
    ensures
        holds_records(db, records),
        db.bound == bound,
        db.json == json,
{
    assert(db.tables =~= Map::<Seq<char>, Seq<Row>>::empty().insert("events"@, rows_of(records)));
}

#[verifier::spinoff_prover]
proof fn lemma_group_rows(
    all: Seq<Seq<Datum>>,
    rows: Seq<Seq<Datum>>,
    picked: Seq<EventRecord>,
    key: Seq<char>,
    json: JsonText,
)
    requires
        forall|row: Seq<Datum>| #[trigger] rows.contains(row) <==> all.contains(row),
        forall|k: int| 0 <= k < all.len() ==> is_group_row(#[trigger] all[k], picked, key, json),
        forall|i: int|
            0 <= i < picked.len() ==> has_row_for(all, value_in(#[trigger] picked[i], key, json)),
    ensures
        forall|k: int| 0 <= k < rows.len() ==> is_group_row(#[trigger] rows[k], picked, key, json),
        forall|k: int|
            0 <= k < rows.len() ==> (#[trigger] rows[k])[1] == Datum::Integer(
                total_length(records_with(picked, key, rows[k][2], json)),
            ),
        forall|i: int|
            0 <= i < picked.len() ==> has_row_for(rows, value_in(#[trigger] picked[i], key, json)),
{
    assert forall|k: int| 0 <= k < rows.len() implies is_group_row(
        #[trigger] rows[k],
        picked,
        key,
        json,
    ) by {
        assert(rows.contains(rows[k]));
        let n = choose|n: int| 0 <= n < all.len() && all[n] == rows[k];
        assert(is_group_row(all[n], picked, key, json));
    }
    assert forall|k: int| 0 <= k < rows.len() implies (#[trigger] rows[k])[1] == Datum::Integer(
        total_length(records_with(picked, key, rows[k][2], json)),
    ) by {
        assert(is_group_row(rows[k], picked, key, json));
    }
    assert forall|i: int| 0 <= i < picked.len() implies has_row_for(rows, value_in(#[trigger] picked[i], key, json)) by {
        let n = choose|n: int|
            0 <= n < all.len() && (#[trigger] all[n])[2] == value_in(picked[i], key, json);
        assert(all.contains(all[n]));
        assert(rows.contains(all[n]));
        let k = choose|k: int| 0 <= k < rows.len() && rows[k] == all[n];
        assert(rows[k][2] == value_in(picked[i], key, json));
    }
}

#[verifier::spinoff_prover]
proof fn lemma_rows_by_length(
    rows: Seq<Seq<Datum>>,
    picked: Seq<EventRecord>,
    key: Seq<char>,
    json: JsonText,
)
    requires
        forall|k: int| 0 <= k < rows.len() ==> is_group_row(#[trigger] rows[k], picked, key, json),
        forall|k: int, l: int|
            0 <= k < l < rows.len() ==> may_come_before(
                grouped_select(key),
                #[trigger] rows[k],
                #[trigger] rows[l],
                grouped_select(key).order_by,
            ),
    ensures
        forall|k: int, l: int|
            0 <= k < l < rows.len() ==> (#[trigger] rows[k])[1]->Integer_0 >= (
            #[trigger] rows[l])[1]->Integer_0,
{
    assert forall|k: int, l: int| 0 <= k < l < rows.len() implies (#[trigger] rows[k])[1]->Integer_0
        >= (#[trigger] rows[l])[1]->Integer_0 by {
        assert(may_come_before(
            grouped_select(key),
            rows[k],
            rows[l],
            grouped_select(key).order_by,
        ));
        assert(is_group_row(rows[k], picked, key, json));
        assert(is_group_row(rows[l], picked, key, json));
        lemma_ordered_by_length(rows[k], rows[l], key);
    }
}

proof fn lemma_ordered_by_length(a: Seq<Datum>, b: Seq<Datum>, key: Seq<char>)
    requires
        may_come_before(grouped_select(key), a, b, grouped_select(key).order_by),
        a[1] is Integer,
        b[1] is Integer,
    ensures
        a[1]->Integer_0 >= b[1]->Integer_0,
{
    reveal_strlit("ASC");
    reveal_strlit("DESC");
    assert("ASC"@.len() == 3 && "DESC"@.len() == 4);
    reveal_strlit("duration_ns");
    reveal_strlit("group_val");
    assert("duration_ns"@.len() == 11 && "group_val"@.len() == 9);
    let select = grouped_select(key);
    let outputs = select.outputs;
    let name = "duration_ns"@;
    reveal_with_fuel(output_named, 4);
    assert(outputs.drop_last().last() == outputs[1]);
    assert(output_named(outputs, name) == 1);
    assert(select.order_by[0] == (name, "DESC"@));
}

/// The events that rows stand for.
pub open spec fn record_events(records: Seq<EventRecord>, json: JsonText) -> Seq<EventView> {
    records.map_values(|r: EventRecord| event_of(r, json))
}

/// Whether an event has a text for the key.
pub open spec fn has_text(record: EventRecord, key: Seq<char>, json: JsonText) -> bool {
    let object = (json.object)(record.data);
    object.contains_key(key) && object[key] is Text
}

/// Whether every event has a text for the key.
pub open spec fn all_have_text(records: Seq<EventRecord>, key: Seq<char>, json: JsonText) -> bool {
    forall|i: int| 0 <= i < records.len() ==> has_text(#[trigger] records[i], key, json)
}

proof fn lemma_same_length(
    records: Seq<EventRecord>,
    key: Seq<char>,
    text: Seq<char>,
    json: JsonText,
)
    requires
        all_have_text(records, key, json),
    ensures
        total_length(records_with(records, key, Datum::Text(text), json)) == length_with(
            record_events(records, json),
            key,
            JsonView::Text(text),
        ),
    decreases records.len(),
{
    if records.len() > 0 {
        let head = records.drop_last();
        let events = record_events(records, json);
        assert forall|i: int| 0 <= i < head.len() implies has_text(
            #[trigger] head[i],
            key,
            json,
        ) by {
            assert(head[i] == records[i]);
        }
        lemma_same_length(head, key, text, json);
        assert(events.drop_last() =~= record_events(head, json));
        assert(events.last() == event_of(records.last(), json));
        let last = records[records.len() - 1];
        let with = records_with(head, key, Datum::Text(text), json);
        assert(with.push(last).drop_last() =~= with);
        assert(has_text(last, key, json));
    }
}

/// A row for a text has its group.
#[verifier::spinoff_prover]
proof fn lemma_row_has_group(
    picked: Seq<EventRecord>,
    key: Seq<char>,
    json: JsonText,
    row: Seq<Datum>,
) -> (g: int)
    requires
        all_have_text(picked, key, json),
        is_group_row(row, picked, key, json),
    ensures
        0 <= g < groups_of(record_events(picked, json), key).len(),
        group_is_row(groups_of(record_events(picked, json), key)[g], key, row),
{
    let events = record_events(picked, json);
    let groups = groups_of(events, key);
    law_groups_add_up_their_events(events, key);
    let i = choose|i: int|
        0 <= i < picked.len() && value_in(#[trigger] picked[i], key, json) == row[2]
            && row[0]->Integer_0 == picked[i].starttime;
    let object = (json.object)(picked[i].data);
    assert(has_text(picked[i], key, json));
    assert(events[i].data == object);
    let g = choose|g: int|
        0 <= g < groups.len() && (#[trigger] groups[g]).data[key] == events[i].data[key];
    assert(is_group_of(groups[g], events, key));
    lemma_same_length(picked, key, object[key]->Text_0, json);
    g
}

/// A group has an event, and the text of that.
#[verifier::spinoff_prover]
proof fn lemma_group_has_event(picked: Seq<EventRecord>, key: Seq<char>, json: JsonText, g: int) -> (i:
    int)
    requires
        all_have_text(picked, key, json),
        0 <= g < groups_of(record_events(picked, json), key).len(),
    ensures
        0 <= i < picked.len(),
        ({
            let group = groups_of(record_events(picked, json), key)[g];
            &&& group.data.contains_key(key)
            &&& group.data[key] matches JsonView::Text(text) && {
                &&& value_in(picked[i], key, json) == Datum::Text(text)
                &&& group.duration == total_length(
                    records_with(picked, key, Datum::Text(text), json),
                )
            }
        }),
{
    let events = record_events(picked, json);
    let groups = groups_of(events, key);
    law_groups_add_up_their_events(events, key);
    assert(is_group_of(groups[g], events, key));
    let value = groups[g].data[key];
    let i = choose|i: int| #[trigger]
        crate::worker::is_first_with(events, key, value, i) && groups[g].timestamp
            == events[i].timestamp;
    assert(has_text(picked[i], key, json));
    assert(events[i] == event_of(picked[i], json));
    lemma_same_length(picked, key, value->Text_0, json);
    i
}

/// Where every event in the range has a text for the key, the lengths that the statement finds are
/// those of the groups that are put together from the same events in memory, value for value.
#[verifier::spinoff_prover]
pub proof fn law_grouping_is_the_one_in_memory(
    bid: i64,
    start: Option<i128>,
    end: Option<i128>,
    key: Seq<char>,
    records: Seq<EventRecord>,
    json: JsonText,
    rows: Seq<Seq<Datum>>,
)
    requires
        fits(start),
        fits(end),
        match grouped_statement(bid, start, end, key) {
            Some(statement) => is_answer(
                grouped_select(key),
                with_records(records, statement.params, json),
                rows,
            ),
            None => false,
        },
        all_have_text(records_in_range(records, bid as int, query_range(start, end)), key, json),
    ensures
        ({
            let picked = records_in_range(records, bid as int, query_range(start, end));
            let groups = groups_of(record_events(picked, json), key);
            &&& forall|k: int|
                0 <= k < rows.len() ==> exists|g: int|
                    0 <= g < groups.len() && group_is_row(
                        #[trigger] groups[g],
                        key,
                        #[trigger] rows[k],
                    )
            &&& forall|g: int|
                0 <= g < groups.len() ==> exists|k: int|
                    0 <= k < rows.len() && group_is_row(
                        #[trigger] groups[g],
                        key,
                        #[trigger] rows[k],
                    )
        }),
{
    let picked = records_in_range(records, bid as int, query_range(start, end));
    let groups = groups_of(record_events(picked, json), key);
    law_grouping_adds_up_the_events(bid, start, end, key, records, json, rows);
    assert forall|k: int| 0 <= k < rows.len() implies exists|g: int|
        0 <= g < groups.len() && group_is_row(#[trigger] groups[g], key, #[trigger] rows[k]) by {
        let g = lemma_row_has_group(picked, key, json, rows[k]);
        assert(group_is_row(groups[g], key, rows[k]));
    }
    assert forall|g: int| 0 <= g < groups.len() implies exists|k: int|
        0 <= k < rows.len() && group_is_row(#[trigger] groups[g], key, #[trigger] rows[k]) by {
        let i = lemma_group_has_event(picked, key, json, g);
        assert(value_in(picked[i], key, json) == Datum::Text(groups[g].data[key]->Text_0));
        let k = choose|k: int|
            0 <= k < rows.len() && (#[trigger] rows[k])[2] == value_in(picked[i], key, json);
        assert(is_group_row(rows[k], picked, key, json));
        assert(group_is_row(groups[g], key, rows[k]));
    }
}

/// Whether a group and a row are for the same text of the key, and equally long.
pub open spec fn group_is_row(group: EventView, key: Seq<char>, row: Seq<Datum>) -> bool {
    &&& group.data.contains_key(key)
    &&& group.data[key] matches JsonView::Text(text) && row[2] == Datum::Text(text)
    &&& row[1] == Datum::Integer(group.duration)
}

/// The columns of an event that are read.
pub open spec fn event_outputs() -> Seq<Output> {
    seq![
        plain(Expr::Column("id"@)),
        plain(Expr::Column("starttime"@)),
        plain(Expr::Column("endtime"@)),
        plain(Expr::Column("data"@)),
    ]
}

/// The condition of a filter.
pub open spec fn filter_expr(filter: EventFilterView) -> Expr {
    if filter.vals.len() == 0 {
        infix(Expr::Number(1), "="@, Expr::Number(0))
    } else {
        Expr::OneOf(Box::new(value_at(Expr::Column("data"@), filter.key)), filter.vals.len())
    }
}

/// The conditions of a range of time and of filters.
pub open spec fn filtered_conditions(filters: Seq<EventFilterView>) -> Seq<Expr>
    decreases filters.len(),
{
    if filters.len() == 0 {
        range_conditions()
    } else {
        filtered_conditions(filters.drop_last()).push(filter_expr(filters.last()))
    }
}

/// The statement that reads the events of a bucket in a range of time that meet filters.
pub open spec fn events_select(filters: Seq<EventFilterView>) -> Select {
    Select {
        outputs: event_outputs(),
        source: Source::Table("events"@),
        conditions: filtered_conditions(filters),
        group_by: None,
        order_by: seq![("starttime"@, "DESC"@), ("id"@, "ASC"@)],
        limit: Some(Expr::Bound),
    }
}

/// What is read of an event.
pub open spec fn event_row(record: EventRecord) -> Seq<Datum> {
    seq![
        Datum::Integer(record.id),
        Datum::Integer(record.starttime),
        Datum::Integer(record.endtime),
        Datum::Text(record.data),
    ]
}

proof fn lemma_event_outputs_text()
    ensures
        joined(event_outputs().map_values(|o: Output| output_text(o)), ", "@)
            == "id, starttime, endtime, data"@,
{
    let texts = event_outputs().map_values(|o: Output| output_text(o));
    assert(texts =~= seq!["id"@, "starttime"@].push("endtime"@).push("data"@));
    lemma_joined_two("id"@, "starttime"@, ", "@);
    lemma_joined_more(seq!["id"@, "starttime"@], "endtime"@, ", "@);
    lemma_joined_more(seq!["id"@, "starttime"@].push("endtime"@), "data"@, ", "@);
    assert("id"@ + ", "@ + "starttime"@ + ", "@ + "endtime"@ + ", "@ + "data"@
        =~= "id, starttime, endtime, data"@) by {
        lemma_words();
        reveal_strlit("id, starttime, endtime, data");
    }
}

proof fn lemma_filter_text(filter: EventFilterView)
    ensures
        " AND "@ + expr_text(filter_expr(filter)) == filter_condition(filter),
{
    if filter.vals.len() == 0 {
        reveal_strlit(" AND 1=0");
        reveal_strlit(" AND ");
        reveal_strlit("=");
        assert(expr_text(Expr::Number(1)) == seq!['1']);
        assert(expr_text(Expr::Number(0)) == seq!['0']);
        assert(expr_text(filter_expr(filter)) == seq!['1'] + "="@ + seq!['0']);
        assert(" AND "@ + (seq!['1'] + "="@ + seq!['0']) =~= " AND 1=0"@);
    } else {
        lemma_value_at_text(Expr::Column("data"@), filter.key);
        assert(expr_text(Expr::Column("data"@)) == "data"@);
        let value = extraction("data"@, filter.key);
        let count = placeholders(filter.vals.len());
        assert(expr_text(filter_expr(filter)) == value + " IN ("@ + count + ")"@);
        assert(" AND "@ + (value + " IN ("@ + count + ")"@) =~= " AND "@ + value + " IN ("@ + count
            + ")"@);
    }
}

proof fn lemma_filters_text(filters: Seq<EventFilterView>)
    ensures
        filtered_conditions(filters).len() > 0,
        all_text(filtered_conditions(filters))
            == "bucketrow = ? AND endtime >= ? AND starttime <= ?"@ + filter_conditions(filters),
    decreases filters.len(),
{
    let front = "bucketrow = ? AND endtime >= ? AND starttime <= ?"@;
    if filters.len() == 0 {
        lemma_range_text();
        assert(front + Seq::<char>::empty() =~= front);
    } else {
        let head = filters.drop_last();
        let before = filtered_conditions(head);
        let last = filter_expr(filters.last());
        let texts = before.map_values(|c: Expr| expr_text(c));
        lemma_filters_text(head);
        lemma_filter_text(filters.last());
        assert(before.push(last).map_values(|c: Expr| expr_text(c)) =~= texts.push(expr_text(last)));
        lemma_joined_more(texts, expr_text(last), " AND "@);
        assert(front + filter_conditions(head) + " AND "@ + expr_text(last) =~= front + (
        filter_conditions(head) + (" AND "@ + expr_text(last))));
    }
}

#[verifier::spinoff_prover]
proof fn lemma_events_text(filters: Seq<EventFilterView>)
    ensures
        select_text(events_select(filters)) == events_selection() + filter_conditions(filters)
            + newest_first(),
{
    let select = events_select(filters);
    lemma_event_outputs_text();
    lemma_filters_text(filters);
    let outputs = "id, starttime, endtime, data"@;
    let front = "bucketrow = ? AND endtime >= ? AND starttime <= ?"@;
    let middle = filter_conditions(filters);
    let order = select.order_by.map_values(|o: (Seq<char>, Seq<char>)| o.0 + " "@ + o.1);
    let first = "starttime"@ + " "@ + "DESC"@;
    let second = "id"@ + " "@ + "ASC"@;
    assert(order =~= seq![first, second]);
    lemma_joined_two(first, second, ", "@);
    assert(expr_text(Expr::Bound) == "?"@);
    let a = "SELECT "@ + outputs + " FROM "@ + "events"@ + " WHERE "@;
    let d = " ORDER BY "@ + (first + ", "@ + second) + (" LIMIT "@ + "?"@);
    assert(select_text(select) =~= a + (front + middle) + d);
    assert(a + (front + middle) + d =~= (a + front) + middle + d);
    assert(a + front =~= events_selection()) by {
        lemma_words();
        reveal_strlit("SELECT ");
        reveal_strlit(" FROM ");
        reveal_strlit("events");
        reveal_strlit(" WHERE ");
        reveal_strlit("id, starttime, endtime, data");
        reveal_strlit("bucketrow = ? AND endtime >= ? AND starttime <= ?");
        reveal_strlit("SELECT id, starttime, endtime, data FROM events WHERE bucketrow = ? AND endtime >= ? AND starttime <= ?");
    }
    assert(d =~= newest_first()) by {
        lemma_words();
        reveal_strlit(" ORDER BY ");
        reveal_strlit("DESC");
        reveal_strlit("ASC");
        reveal_strlit(" LIMIT ");
        reveal_strlit(" ORDER BY starttime DESC, id ASC LIMIT ?");
    }
}

/// Whether the value that an event has for the key of the filter is one of those of the filter,
/// compared as text.
pub open spec fn meets(record: EventRecord, filter: EventFilterView, json: JsonText) -> bool {
    exists|k: int|
        0 <= k < filter.vals.len() && value_in(record, filter.key, json) == Datum::Text(
            comparable((#[trigger] filter.vals[k]).0, filter.vals[k].1),
        )
}

/// Whether an event is one of the bucket that overlaps the range and meets every filter.
pub open spec fn is_asked_for(
    record: EventRecord,
    bid: int,
    range: (int, int),
    filters: Seq<EventFilterView>,
    json: JsonText,
) -> bool {
    &&& in_range(record, bid, range)
    &&& forall|f: int| 0 <= f < filters.len() ==> meets(record, #[trigger] filters[f], json)
}

#[verifier::spinoff_prover]
proof fn lemma_filter_holds(
    filter: EventFilterView,
    record: EventRecord,
    db: Database,
    at: int,
)
    requires
        0 <= at,
        at + filter.vals.len() <= db.bound.len(),
        forall|k: int|
            0 <= k < filter.vals.len() ==> #[trigger] db.bound[at + k] == filter_values(filter)[k],
    ensures
        bound_in(filter_expr(filter)) == filter.vals.len(),
        holds(filter_expr(filter), record_scope(record, db), at) <==> meets(record, filter, db.json),
{
    let scope = record_scope(record, db);
    lemma_operators();
    if filter.vals.len() == 0 {
        lemma_infix_holds(Expr::Number(1), "="@, Expr::Number(0), scope, at);
        assert(value_of(Expr::Number(1), scope, at) == Datum::Integer(1));
        assert(value_of(Expr::Number(0), scope, at) == Datum::Integer(0));
        reveal_strlit("=");
        reveal_strlit(" < ");
        reveal_strlit(" > ");
        reveal_strlit(" >= ");
        reveal_strlit(" <= ");
        assert("="@.len() == 1 && " < "@.len() == 3 && " > "@.len() == 3 && " >= "@.len() == 4
            && " <= "@.len() == 4);
    } else {
        let value = value_at(Expr::Column("data"@), filter.key);
        assert(bound_in(value) == 0) by {
            reveal_with_fuel(bound_in, 2);
        }
        lemma_record_values(record, db, at);
        lemma_value_at(Expr::Column("data"@), filter.key, record, scope, at);
        assert forall|k: int| 0 <= k < filter.vals.len() implies crate::sql::datum(
            #[trigger] scope.bound[at + bound_in(value) + k],
        ) == Datum::Text(comparable(filter.vals[k].0, filter.vals[k].1)) by {
            assert(db.bound[at + k] == filter_values(filter)[k]);
        }
        if meets(record, filter, db.json) {
            let k = choose|k: int|
                0 <= k < filter.vals.len() && value_in(record, filter.key, db.json) == Datum::Text(
                    comparable((#[trigger] filter.vals[k]).0, filter.vals[k].1),
                );
            assert(crate::sql::compared(
                value_of(value, scope, at),
                " = "@,
                crate::sql::datum(scope.bound[at + bound_in(value) + k]),
            ));
        }
        if holds(filter_expr(filter), scope, at) {
            let k = choose|k: int|
                0 <= k < filter.vals.len() && crate::sql::compared(
                    value_of(value, scope, at),
                    " = "@,
                    crate::sql::datum(#[trigger] scope.bound[at + bound_in(value) + k]),
                );
            assert(value_in(record, filter.key, db.json) == Datum::Text(
                comparable(filter.vals[k].0, filter.vals[k].1),
            ));
        }
    }
}

#[verifier::spinoff_prover]
proof fn lemma_filters_hold(
    filters: Seq<EventFilterView>,
    record: EventRecord,
    db: Database,
    bid: i64,
    from: i64,
    to: i64,
)
    requires
        db.bound.len() >= 3 + all_filter_values(filters).len(),
        db.bound[0] == SqlValueView::Integer(bid),
        db.bound[1] == SqlValueView::Integer(from),
        db.bound[2] == SqlValueView::Integer(to),
        forall|k: int|
            0 <= k < all_filter_values(filters).len() ==> #[trigger] db.bound[3 + k]
                == all_filter_values(filters)[k],
    ensures
        bound_in_all(filtered_conditions(filters)) == 3 + all_filter_values(filters).len(),
        all_hold(filtered_conditions(filters), record_scope(record, db), 0) <==> is_asked_for(
            record,
            bid as int,
            (from as int, to as int),
            filters,
            db.json,
        ),
    decreases filters.len(),
{
    if filters.len() == 0 {
        lemma_range_holds(record, db, bid, from, to);
    } else {
        let head = filters.drop_last();
        let last = filters.last();
        let scope = record_scope(record, db);
        let values = all_filter_values(filters);
        let before = all_filter_values(head);
        assert(values == before + filter_values(last));
        assert forall|k: int| 0 <= k < before.len() implies #[trigger] db.bound[3 + k] == before[k] by {
            assert(db.bound[3 + k] == values[k]);
        }
        let at = 3 + before.len() as int;
        assert forall|k: int| 0 <= k < last.vals.len() implies #[trigger] db.bound[at + k]
            == filter_values(last)[k] by {
            assert(db.bound[3 + (before.len() + k)] == values[before.len() + k]);
        }
        lemma_filters_hold(head, record, db, bid, from, to);
        lemma_filter_holds(last, record, db, at);
        lemma_one_more_holds(filtered_conditions(head), filter_expr(last), scope, 0);
        lemma_bound_in_more(filtered_conditions(head), filter_expr(last));
        assert forall|f: int| 0 <= f < head.len() implies #[trigger] head[f] == filters[f] by {}
        assert(filters[filters.len() - 1] == last);
        if is_asked_for(record, bid as int, (from as int, to as int), head, db.json) && meets(
            record,
            last,
            db.json,
        ) {
            assert forall|f: int| 0 <= f < filters.len() implies meets(
                record,
                #[trigger] filters[f],
                db.json,
            ) by {
                if f < head.len() {
                    assert(meets(record, head[f], db.json));
                }
            }
        }
        if is_asked_for(record, bid as int, (from as int, to as int), filters, db.json) {
            assert forall|f: int| 0 <= f < head.len() implies meets(
                record,
                #[trigger] head[f],
                db.json,
            ) by {
                assert(meets(record, filters[f], db.json));
            }
        }
    }
}

/// Whether what is read of one event may come before what is read of another: it starts later, or
/// at the same time and has no larger number.
pub open spec fn is_newer(a: Seq<Datum>, b: Seq<Datum>) -> bool {
    &&& a[0] is Integer && a[1] is Integer && b[0] is Integer && b[1] is Integer
    &&& a[1]->Integer_0 > b[1]->Integer_0 || (a[1]->Integer_0 == b[1]->Integer_0 && a[0]->Integer_0
        <= b[0]->Integer_0)
}

#[verifier::spinoff_prover]
proof fn lemma_newest_first(filters: Seq<EventFilterView>, a: EventRecord, b: EventRecord)
    ensures
        may_come_before(
            events_select(filters),
            event_row(a),
            event_row(b),
            events_select(filters).order_by,
        ) <==> is_newer(event_row(a), event_row(b)),
{
    let select = events_select(filters);
    let outputs = select.outputs;
    let order = select.order_by;
    reveal_strlit("ASC");
    reveal_strlit("DESC");
    assert("ASC"@.len() == 3 && "DESC"@.len() == 4);
    reveal_strlit("id");
    reveal_strlit("starttime");
    reveal_strlit("endtime");
    reveal_strlit("data");
    assert("id"@.len() == 2 && "starttime"@.len() == 9 && "endtime"@.len() == 7 && "data"@.len() == 4);
    reveal_with_fuel(output_named, 5);
    assert(outputs.drop_last().last() == outputs[2]);
    assert(outputs.drop_last().drop_last().last() == outputs[1]);
    assert(outputs.drop_last().drop_last().drop_last().last() == outputs[0]);
    assert(output_named(outputs, "starttime"@) == 1);
    assert(output_named(outputs, "id"@) == 0);
    assert(order.drop_first() =~= seq![("id"@, "ASC"@)]);
    assert(order.drop_first().drop_first().len() == 0);
    reveal_with_fuel(may_come_before, 3);
}

#[verifier::spinoff_prover]
proof fn lemma_event_rows(records: Seq<EventRecord>, db: Database)
    ensures
        bound_in_outputs(event_outputs()) == 0,
        record_scopes(records, db).map_values(|scope: Scope| outputs_of(event_outputs(), scope))
            == records.map_values(|r: EventRecord| event_row(r)),
{
    let outputs = event_outputs();
    let rows = record_scopes(records, db).map_values(|scope: Scope| outputs_of(outputs, scope));
    assert forall|i: int| 0 <= i < records.len() implies #[trigger] rows[i] == event_row(records[i]) by {
        lemma_record_values(records[i], db, 0);
        assert(outputs_of(outputs, record_scope(records[i], db)) =~= event_row(records[i]));
    }
    assert(rows =~= records.map_values(|r: EventRecord| event_row(r)));
    assert(outputs.drop_last() =~= outputs.take(3));
    assert(outputs.take(3).drop_last() =~= outputs.take(2));
    assert(outputs.take(2).drop_last() =~= outputs.take(1));
    assert(outputs.take(1).drop_last() =~= outputs.take(0));
    reveal_with_fuel(bound_in_outputs, 5);
}

/// The events that are asked for.
pub open spec fn records_asked_for(
    records: Seq<EventRecord>,
    bid: int,
    range: (int, int),
    filters: Seq<EventFilterView>,
    json: JsonText,
) -> Seq<EventRecord> {
    kept_records(records, |r: EventRecord| is_asked_for(r, bid, range, filters, json))
}

/// Whether a row is what is read of one of the events.
pub open spec fn is_row_of_one(row: Seq<Datum>, records: Seq<EventRecord>) -> bool {
    exists|i: int| 0 <= i < records.len() && row == event_row(#[trigger] records[i])
}

#[verifier::spinoff_prover]
proof fn lemma_events_found(
    records: Seq<EventRecord>,
    db: Database,
    bid: i64,
    from: i64,
    to: i64,
    limit: Option<u64>,
    filters: Seq<EventFilterView>,
)
    requires
        holds_records(db, records),
        db.bound == (seq![
            SqlValueView::Integer(bid),
            SqlValueView::Integer(from),
            SqlValueView::Integer(to),
        ] + all_filter_values(filters)).push(bound_limit(limit)),
    ensures
        ({
            let picked = records_asked_for(
                records,
                bid as int,
                (from as int, to as int),
                filters,
                db.json,
            );
            &&& found(events_select(filters), db) == picked.map_values(
                |r: EventRecord| event_row(r),
            )
            &&& forall|count: nat| #[trigger]
                limited(events_select(filters), db, count) == match limit {
                    Some(limit) => if limit < count && limit <= i64::MAX {
                        limit as int
                    } else {
                        count as int
                    },
                    None => count as int,
                }
        }),
{
    let select = events_select(filters);
    let range = (from as int, to as int);
    let kept = |r: EventRecord| is_asked_for(r, bid as int, range, filters, db.json);
    let values = all_filter_values(filters);
    let start = seq![
        SqlValueView::Integer(bid),
        SqlValueView::Integer(from),
        SqlValueView::Integer(to),
    ];
    assert forall|k: int| 0 <= k < values.len() implies #[trigger] db.bound[3 + k] == values[k] by {
        assert((start + values)[3 + k] == values[k]);
    }
    assert(db.bound[0] == start[0] && db.bound[1] == start[1] && db.bound[2] == start[2]);
    assert forall|r: EventRecord| #[trigger] kept(r) <==> all_hold(
        select.conditions,
        record_scope(r, db),
        0,
    ) by {
        lemma_filters_hold(filters, r, db, bid, from, to);
    }
    let any = EventRecord { id: 0, bucketrow: 0, starttime: 0, endtime: 0, data: Seq::empty() };
    lemma_filters_hold(filters, any, db, bid, from, to);
    lemma_event_rows(kept_records(records, kept), db);
    lemma_selected_records(select, records, db, kept);
    assert(!crate::sql::calls_all(select.outputs[0].expr));
    assert(!crate::sql::takes_all(select));
    assert(db.bound[3 + values.len() as int] == bound_limit(limit));
}

/// The statement that reads events finds those of the bucket that overlap the range and meet every
/// filter, each with its number, its start, its end and its data. The newest come first, and of
/// those with the same start the one with the smallest number. A limit leaves the newest so many.
/// There is no statement if and only if the range ends before it starts.
#[verifier::spinoff_prover]
pub proof fn law_events_are_found_newest_first(
    bid: i64,
    start: Option<i128>,
    end: Option<i128>,
    limit: Option<u64>,
    filters: Seq<EventFilterView>,
    records: Seq<EventRecord>,
    json: JsonText,
    rows: Seq<Seq<Datum>>,
)
    requires
        fits(start),
        fits(end),
        match events_statement(bid, start, end, limit, filters) {
            Some(statement) => is_answer(
                events_select(filters),
                with_records(records, statement.params, json),
                rows,
            ),
            None => true,
        },
    ensures
        match events_statement(bid, start, end, limit, filters) {
            Some(statement) => {
                let picked = records_asked_for(
                    records,
                    bid as int,
                    query_range(start, end),
                    filters,
                    json,
                );
                &&& reads_as(statement, events_select(filters))
                &&& query_range(start, end).0 <= query_range(start, end).1
                &&& forall|k: int|
                    0 <= k < rows.len() ==> is_row_of_one(#[trigger] rows[k], picked)
                &&& forall|k: int, l: int|
                    0 <= k < l < rows.len() ==> is_newer(#[trigger] rows[k], #[trigger] rows[l])
                &&& rows.len() == match limit {
                    Some(limit) => if limit < picked.len() && limit <= i64::MAX {
                        limit as int
                    } else {
                        picked.len() as int
                    },
                    None => picked.len() as int,
                }
                &&& forall|i: int|
                    0 <= i < picked.len() ==> rows.contains(event_row(#[trigger] picked[i])) || forall|
                        k: int,
                    |
                        0 <= k < rows.len() ==> is_newer(#[trigger] rows[k], event_row(picked[i]))
            },
            None => query_range(start, end).0 > query_range(start, end).1,
        },
{
    let range = query_range(start, end);
    if range.0 <= range.1 {
        let statement = events_statement(bid, start, end, limit, filters)->Some_0;
        let select = events_select(filters);
        let db = with_records(records, statement.params, json);
        let picked = records_asked_for(records, bid as int, range, filters, json);
        lemma_with_records(db, records, statement.params, json);
        lemma_events_text(filters);
        lemma_events_found(records, db, bid, range.0 as i64, range.1 as i64, limit, filters);
        lemma_limited_rows(select, db, filters, picked, rows);
    }
}

/// What is left of events that are put in order and cut off.
#[verifier::spinoff_prover]
proof fn lemma_limited_rows(
    select: Select,
    db: Database,
    filters: Seq<EventFilterView>,
    picked: Seq<EventRecord>,
    rows: Seq<Seq<Datum>>,
)
    requires
        select == events_select(filters),
        found(select, db) == picked.map_values(|r: EventRecord| event_row(r)),
        is_answer(select, db, rows),
        0 <= limited(select, db, picked.len()) <= picked.len(),
    ensures
        rows.len() == limited(select, db, picked.len()),
        forall|k: int| 0 <= k < rows.len() ==> is_row_of_one(#[trigger] rows[k], picked),
        forall|k: int, l: int|
            0 <= k < l < rows.len() ==> is_newer(#[trigger] rows[k], #[trigger] rows[l]),
        forall|i: int|
            0 <= i < picked.len() ==> rows.contains(event_row(#[trigger] picked[i])) || forall|k: int|
                0 <= k < rows.len() ==> is_newer(#[trigger] rows[k], event_row(picked[i])),
{
    broadcast use vstd::seq_lib::group_to_multiset_ensures;

    let everything = found(select, db);
    let all = choose|all: Seq<Seq<Datum>>|
        {
            &&& all.to_multiset() == found(select, db).to_multiset()
            &&& forall|i: int, j: int|
                0 <= i < j < all.len() ==> may_come_before(
                    select,
                    #[trigger] all[i],
                    #[trigger] all[j],
                    select.order_by,
                )
            &&& rows == #[trigger] all.take(limited(select, db, all.len()))
        };
    assert(all.to_multiset().len() == everything.to_multiset().len());
    assert(all.len() == picked.len());
    assert forall|k: int| 0 <= k < all.len() implies is_row_of_one(#[trigger] all[k], picked) by {
        assert(all.contains(all[k]));
        assert(all.to_multiset().count(all[k]) > 0);
        assert(everything.contains(all[k]));
        let i = choose|i: int| 0 <= i < everything.len() && everything[i] == all[k];
        assert(everything[i] == event_row(picked[i]));
    }
    assert forall|k: int, l: int| 0 <= k < l < all.len() implies is_newer(
        #[trigger] all[k],
        #[trigger] all[l],
    ) by {
        assert(is_row_of_one(all[k], picked) && is_row_of_one(all[l], picked));
        let i = choose|i: int| 0 <= i < picked.len() && all[k] == event_row(#[trigger] picked[i]);
        let j = choose|j: int| 0 <= j < picked.len() && all[l] == event_row(#[trigger] picked[j]);
        lemma_newest_first(filters, picked[i], picked[j]);
    }
    assert forall|k: int| 0 <= k < rows.len() implies #[trigger] rows[k] == all[k] && is_row_of_one(
        rows[k],
        picked,
    ) by {
        assert(is_row_of_one(all[k], picked));
    }
    assert forall|i: int| 0 <= i < picked.len() implies rows.contains(
        event_row(#[trigger] picked[i]),
    ) || forall|k: int|
        0 <= k < rows.len() ==> is_newer(#[trigger] rows[k], event_row(picked[i])) by {
        let row = event_row(picked[i]);
        assert(everything[i] == row);
        assert(everything.contains(row));
        assert(everything.to_multiset().count(row) > 0);
        assert(all.contains(row));
        let a = choose|a: int| 0 <= a < all.len() && all[a] == row;
        if a < rows.len() {
            assert(rows[a] == row);
        } else {
            assert forall|k: int| 0 <= k < rows.len() implies is_newer(#[trigger] rows[k], row) by {
                assert(is_newer(all[k], all[a]));
            }
        }
    }
}

/// The statement that reads one event.
pub open spec fn event_select() -> Select {
    Select {
        outputs: event_outputs(),
        source: Source::Table("events"@),
        conditions: seq![
            infix(Expr::Column("bucketrow"@), " = "@, Expr::Bound),
            infix(Expr::Column("id"@), " = "@, Expr::Bound),
        ],
        group_by: None,
        order_by: Seq::empty(),
        limit: Some(Expr::Number(1)),
    }
}

#[verifier::spinoff_prover]
proof fn lemma_event_text()
    ensures
        select_text(event_select())
            == "SELECT id, starttime, endtime, data FROM events WHERE bucketrow = ? AND id = ? LIMIT 1"@,
{
    let select = event_select();
    lemma_event_outputs_text();
    let outputs = "id, starttime, endtime, data"@;
    let c1 = "bucketrow"@ + " = "@ + "?"@;
    let c2 = "id"@ + " = "@ + "?"@;
    lemma_compared_text("bucketrow"@, " = "@);
    lemma_compared_text("id"@, " = "@);
    assert(select.conditions.map_values(|c: Expr| expr_text(c)) =~= seq![c1, c2]);
    lemma_joined_two(c1, c2, " AND "@);
    assert(expr_text(Expr::Number(1)) == seq!['1']);
    let whole = "SELECT "@ + outputs + " FROM "@ + "events"@ + (" WHERE "@ + (c1 + " AND "@ + c2)) + (
    " LIMIT "@ + seq!['1']);
    assert(select_text(select) =~= whole);
    assert(whole
        =~= "SELECT id, starttime, endtime, data FROM events WHERE bucketrow = ? AND id = ? LIMIT 1"@)
        by {
        lemma_words();
        reveal_strlit("SELECT ");
        reveal_strlit(" FROM ");
        reveal_strlit("events");
        reveal_strlit(" WHERE ");
        reveal_strlit(" LIMIT ");
        reveal_strlit("id, starttime, endtime, data");
        reveal_strlit("SELECT id, starttime, endtime, data FROM events WHERE bucketrow = ? AND id = ? LIMIT 1");
    }
}

/// The statement that reads one event finds the one with this number in the bucket, and nothing if
/// there is none.
#[verifier::spinoff_prover]
pub proof fn law_event_is_found_by_its_number(
    bid: i64,
    event_id: i64,
    records: Seq<EventRecord>,
    json: JsonText,
    rows: Seq<Seq<Datum>>,
)
    requires
        is_answer(
            event_select(),
            with_records(records, event_statement(bid, event_id).params, json),
            rows,
        ),
    ensures
        reads_as(event_statement(bid, event_id), event_select()),
        rows.len() <= 1,
        forall|k: int|
            0 <= k < rows.len() ==> exists|i: int|
                0 <= i < records.len() && #[trigger] rows[k] == event_row(#[trigger] records[i])
                    && records[i].bucketrow == bid && records[i].id == event_id,
        (exists|i: int|
            0 <= i < records.len() && (#[trigger] records[i]).bucketrow == bid && records[i].id
                == event_id) ==> rows.len() == 1,
{
    broadcast use vstd::seq_lib::group_to_multiset_ensures;

    let select = event_select();
    let db = with_records(records, event_statement(bid, event_id).params, json);
    let kept = |r: EventRecord| r.bucketrow == bid && r.id == event_id;
    let picked = kept_records(records, kept);
    lemma_with_records(db, records, event_statement(bid, event_id).params, json);
    lemma_event_text();
    assert forall|r: EventRecord| #[trigger] kept(r) <==> all_hold(
        select.conditions,
        record_scope(r, db),
        0,
    ) by {
        let scope = record_scope(r, db);
        let none = Seq::<Expr>::empty();
        let a = select.conditions[0];
        let b = select.conditions[1];
        assert(select.conditions =~= none.push(a).push(b));
        lemma_one_more_holds(none, a, scope, 0);
        lemma_one_more_holds(none.push(a), b, scope, 0);
        lemma_bound_in_more(none, a);
        lemma_record_values(r, db, 0);
        lemma_record_values(r, db, 1);
        lemma_operators();
        lemma_infix_holds(Expr::Column("bucketrow"@), " = "@, Expr::Bound, scope, 0);
        lemma_infix_holds(Expr::Column("id"@), " = "@, Expr::Bound, scope, 1);
        assert(value_of(Expr::Bound, scope, 0) == Datum::Integer(bid as int));
        assert(value_of(Expr::Bound, scope, 1) == Datum::Integer(event_id as int));
    }
    lemma_event_rows(picked, db);
    lemma_selected_records(select, records, db, kept);
    assert(!crate::sql::calls_all(select.outputs[0].expr));
    assert(!crate::sql::takes_all(select));
    lemma_kept_records(records, kept);
    let everything = found(select, db);
    assert(everything == picked.map_values(|r: EventRecord| event_row(r)));
    let all = choose|all: Seq<Seq<Datum>>|
        {
            &&& all.to_multiset() == found(select, db).to_multiset()
            &&& forall|i: int, j: int|
                0 <= i < j < all.len() ==> may_come_before(
                    select,
                    #[trigger] all[i],
                    #[trigger] all[j],
                    select.order_by,
                )
            &&& rows == #[trigger] all.take(limited(select, db, all.len()))
        };
    assert(all.to_multiset().len() == everything.to_multiset().len());
    assert forall|k: int| 0 <= k < rows.len() implies exists|i: int|
        0 <= i < records.len() && #[trigger] rows[k] == event_row(#[trigger] records[i])
            && records[i].bucketrow == bid && records[i].id == event_id by {
        assert(all[k] == rows[k]);
        assert(all.contains(all[k]));
        assert(all.to_multiset().count(all[k]) > 0);
        assert(everything.contains(all[k]));
        let n = choose|n: int| 0 <= n < everything.len() && everything[n] == all[k];
        assert(picked.contains(picked[n]));
        assert(records.contains(picked[n]) && kept(picked[n]));
        let i = choose|i: int| 0 <= i < records.len() && records[i] == picked[n];
        assert(rows[k] == event_row(records[i]));
    }
    if exists|i: int|
        0 <= i < records.len() && (#[trigger] records[i]).bucketrow == bid && records[i].id == event_id {
        let i = choose|i: int|
            0 <= i < records.len() && (#[trigger] records[i]).bucketrow == bid && records[i].id
                == event_id;
        assert(records.contains(records[i]) && kept(records[i]));
        assert(picked.contains(records[i]));
        assert(picked.len() > 0);
    }
}

/// The statement that counts the events of a bucket in a range of time.
pub open spec fn count_select() -> Select {
    Select {
        outputs: seq![plain(Expr::Call("count"@, Box::new(Expr::Star)))],
        source: Source::Table("events"@),
        conditions: range_conditions(),
        group_by: None,
        order_by: Seq::empty(),
        limit: None,
    }
}

#[verifier::spinoff_prover]
proof fn lemma_count_text()
    ensures
        select_text(count_select())
            == "SELECT count(*) FROM events WHERE bucketrow = ? AND endtime >= ? AND starttime <= ?"@,
{
    let select = count_select();
    lemma_range_text();
    let conditions = "bucketrow = ? AND endtime >= ? AND starttime <= ?"@;
    let count = "count"@ + "("@ + "*"@ + ")"@;
    assert(expr_text(Expr::Star) == "*"@);
    assert(select.outputs.map_values(|o: Output| output_text(o)) =~= seq![count]);
    assert(joined(seq![count], ", "@) == count);
    let whole = "SELECT "@ + count + " FROM "@ + "events"@ + (" WHERE "@ + conditions);
    assert(select_text(select) =~= whole);
    assert(whole
        =~= "SELECT count(*) FROM events WHERE bucketrow = ? AND endtime >= ? AND starttime <= ?"@)
        by {
        lemma_words();
        reveal_strlit("SELECT ");
        reveal_strlit(" FROM ");
        reveal_strlit("events");
        reveal_strlit(" WHERE ");
        reveal_strlit("count");
        reveal_strlit("*");
        reveal_strlit("bucketrow = ? AND endtime >= ? AND starttime <= ?");
        reveal_strlit("SELECT count(*) FROM events WHERE bucketrow = ? AND endtime >= ? AND starttime <= ?");
    }
}

/// The statement that counts events finds the number of those of the bucket that overlap the range.
/// There is no statement if and only if the range does not end after it starts.
#[verifier::spinoff_prover]
pub proof fn law_count_is_the_number_of_events(
    bid: i64,
    start: Option<i128>,
    end: Option<i128>,
    records: Seq<EventRecord>,
    json: JsonText,
    rows: Seq<Seq<Datum>>,
)
    requires
        fits(start),
        fits(end),
        match count_statement(bid, start, end) {
            Some(statement) => is_answer(
                count_select(),
                with_records(records, statement.params, json),
                rows,
            ),
            None => true,
        },
    ensures
        match count_statement(bid, start, end) {
            Some(statement) => {
                &&& reads_as(statement, count_select())
                &&& query_range(start, end).0 < query_range(start, end).1
                &&& rows == seq![
                    seq![
                        Datum::Integer(
                            records_in_range(
                                records,
                                bid as int,
                                query_range(start, end),
                            ).len() as int,
                        ),
                    ],
                ]
            },
            None => query_range(start, end).0 >= query_range(start, end).1,
        },
{
    let range = query_range(start, end);
    if range.0 < range.1 {
        let select = count_select();
        let statement = count_statement(bid, start, end)->Some_0;
        let db = with_records(records, statement.params, json);
        let kept = |r: EventRecord| in_range(r, bid as int, range);
        let picked = records_in_range(records, bid as int, range);
        let scopes = record_scopes(picked, db);
        lemma_with_records(db, records, statement.params, json);
        lemma_count_text();
        assert forall|r: EventRecord| #[trigger] kept(r) <==> all_hold(
            select.conditions,
            record_scope(r, db),
            0,
        ) by {
            lemma_range_holds(r, db, bid, range.0 as i64, range.1 as i64);
        }
        assert(bound_in_outputs(select.outputs) == 0) by {
            assert(select.outputs.drop_last() =~= Seq::<Output>::empty());
            reveal_with_fuel(bound_in_outputs, 2);
            reveal_with_fuel(bound_in, 2);
        }
        lemma_selected_records(select, records, db, kept);
        let one = seq![Datum::Integer(picked.len() as int)];
        assert(crate::sql::takes_all(select));
        assert(outputs_of_all(select.outputs, scopes) =~= one) by {
            reveal_strlit("count");
            reveal_strlit("sum");
            reveal_strlit("min");
            reveal_strlit("max");
            assert("count"@.len() == 5 && "sum"@.len() == 3 && "min"@.len() == 3 && "max"@.len() == 3);
        }
        assert(found(select, db) == seq![one]);
        lemma_whole_answer(select, db, rows);
        assert(found(select, db).contains(rows[0])) by {
            assert(rows.contains(rows[0]));
        }
        assert(rows =~= seq![one]);
    }
}

/// Where an event has a text for the key of a filter, or nothing, and the filter has texts, the
/// event meets the filter in the database if and only if it does in memory.
pub proof fn law_filter_is_the_one_in_memory(
    record: EventRecord,
    filter: EventFilterView,
    json: JsonText,
)
    requires
        (json.object)(record.data).contains_key(filter.key) ==> (json.object)(
            record.data,
        )[filter.key] is Text,
        forall|k: int| 0 <= k < filter.vals.len() ==> (#[trigger] filter.vals[k]).0 is Text,
    ensures
        meets(record, filter, json) <==> crate::worker::has_value(
            event_of(record, json),
            filter.key,
            crate::worker::filter_vals(filter),
        ),
{
    let event = event_of(record, json);
    let vals = crate::worker::filter_vals(filter);
    if meets(record, filter, json) {
        let k = choose|k: int|
            0 <= k < filter.vals.len() && value_in(record, filter.key, json) == Datum::Text(
                comparable((#[trigger] filter.vals[k]).0, filter.vals[k].1),
            );
        assert(filter.vals[k].0 is Text);
        assert(crate::json::equal(vals[k], event.data[filter.key]));
    }
    if crate::worker::has_value(event, filter.key, vals) {
        let k = choose|k: int|
            0 <= k < vals.len() && crate::json::equal(#[trigger] vals[k], event.data[filter.key]);
        assert(filter.vals[k].0 is Text);
        assert(value_in(record, filter.key, json) == Datum::Text(
            comparable(filter.vals[k].0, filter.vals[k].1),
        ));
    }
}

} // verus!
