//! What the statements that change the table of events leave in it.

use vstd::prelude::*;

#[allow(unused_imports)]
use crate::answers::{
    event_of, infix, lemma_infix_holds, lemma_joined_more, lemma_joined_two, lemma_words, rows_of,
};
#[allow(unused_imports)]
use crate::datastore::{
    delete_event_statement, delete_events_statement, insert_statement, replace_statement,
    storable_length, storable_times,
};
#[allow(unused_imports)]
use crate::event::EventView;
#[allow(unused_imports)]
use crate::query::{placeholders, SqlValueView, StatementView};
#[allow(unused_imports)]
use crate::selections::{
    holds_records, kept_records, lemma_compared_text, lemma_kept_records, lemma_record_values,
    record_scope,
};
#[allow(unused_imports)]
use crate::sql::{
    all_hold, all_text, bound_in, change_text, changed, changes_as, datum, expr_text, in_row, joined,
    lemma_bound_in_more, lemma_one_more_holds, lemma_operators, lemma_record_columns, scope_of,
    value_of, with_columns, with_records, Change, Database, Datum, EventRecord, Expr, JsonText, Row,
};

verus! {

/// Rows of which some are taken out are those of the events that are left.
proof fn lemma_filtered_rows(
    records: Seq<EventRecord>,
    pred: spec_fn(Row) -> bool,
    kept: spec_fn(EventRecord) -> bool,
)
    requires
        forall|r: EventRecord| #[trigger] kept(r) <==> pred(r.row()),
    ensures
        rows_of(records).filter(pred) == rows_of(kept_records(records, kept)),
    decreases records.len(),
{
    reveal(Seq::filter);
    let rows = rows_of(records);
    if records.len() == 0 {
        assert(rows.filter(pred) =~= rows_of(kept_records(records, kept)));
    } else {
        let head = records.drop_last();
        lemma_filtered_rows(head, pred, kept);
        assert(rows.drop_last() =~= rows_of(head));
        assert(rows.last() == records.last().row());
        assert(kept(records.last()) <==> pred(records.last().row()));
        assert(rows.filter(pred) =~= rows_of(kept_records(records, kept)));
    }
}

/// The columns of an event, but for its number.
pub open spec fn event_columns() -> Seq<Seq<char>> {
    seq!["bucketrow"@, "starttime"@, "endtime"@, "data"@]
}

/// The statement that stores an event, with a number of its own or without.
pub open spec fn event_insert(with_number: bool) -> Change {
    Change::Insert {
        in_place: with_number,
        table: "events"@,
        blank: false,
        columns: if with_number {
            seq!["id"@] + event_columns()
        } else {
            event_columns()
        },
        numbered: true,
    }
}

pub(crate) proof fn lemma_placeholders()
    ensures
        placeholders(3) == "?, ?, ?"@,
        placeholders(4) == "?, ?, ?, ?"@,
        placeholders(5) == "?, ?, ?, ?, ?"@,
        placeholders(6) == "?, ?, ?, ?, ?, ?"@,
{
    reveal_strlit("?");
    reveal_strlit(", ");
    reveal_strlit("?, ?, ?");
    reveal_strlit("?, ?, ?, ?");
    reveal_strlit("?, ?, ?, ?, ?");
    reveal_strlit("?, ?, ?, ?, ?, ?");
    assert(placeholders(1) == "?"@);
    assert(placeholders(2) == placeholders(1) + ", "@ + "?"@);
    assert(placeholders(3) =~= "?, ?, ?"@);
    assert(placeholders(4) =~= "?, ?, ?, ?"@);
    assert(placeholders(5) =~= "?, ?, ?, ?, ?"@);
    assert(placeholders(6) =~= "?, ?, ?, ?, ?, ?"@);
}

#[verifier::spinoff_prover]
proof fn lemma_insert_text(with_number: bool)
    ensures
        change_text(event_insert(with_number)) == if with_number {
            "INSERT OR REPLACE INTO events(id, bucketrow, starttime, endtime, data) VALUES (?, ?, ?, ?, ?) RETURNING id"@
        } else {
            "INSERT INTO events(bucketrow, starttime, endtime, data) VALUES (?, ?, ?, ?) RETURNING id"@
        },
{
    lemma_placeholders();
    let a = "bucketrow"@;
    let b = "starttime"@;
    let c = "endtime"@;
    let d = "data"@;
    if with_number {
        let columns = seq!["id"@] + event_columns();
        assert(columns =~= seq!["id"@, a].push(b).push(c).push(d));
        lemma_joined_two("id"@, a, ", "@);
        lemma_joined_more(seq!["id"@, a], b, ", "@);
        lemma_joined_more(seq!["id"@, a].push(b), c, ", "@);
        lemma_joined_more(seq!["id"@, a].push(b).push(c), d, ", "@);
        let list = "id"@ + ", "@ + a + ", "@ + b + ", "@ + c + ", "@ + d;
        assert(columns.len() == 5);
        assert(change_text(event_insert(true)) =~= "INSERT OR REPLACE INTO "@ + "events"@ + "("@ + list
            + ") VALUES ("@ + "?, ?, ?, ?, ?"@ + ")"@ + " RETURNING id"@);
        assert("INSERT OR REPLACE INTO "@ + "events"@ + "("@ + list + ") VALUES ("@
            + "?, ?, ?, ?, ?"@ + ")"@ + " RETURNING id"@
            =~= "INSERT OR REPLACE INTO events(id, bucketrow, starttime, endtime, data) VALUES (?, ?, ?, ?, ?) RETURNING id"@)
            by {
            lemma_words();
            reveal_strlit("INSERT OR REPLACE INTO ");
            reveal_strlit("events");
            reveal_strlit(") VALUES (");
            reveal_strlit("?, ?, ?, ?, ?");
            reveal_strlit(" RETURNING id");
            reveal_strlit("INSERT OR REPLACE INTO events(id, bucketrow, starttime, endtime, data) VALUES (?, ?, ?, ?, ?) RETURNING id");
        }
    } else {
        let columns = event_columns();
        assert(columns =~= seq![a, b].push(c).push(d));
        lemma_joined_two(a, b, ", "@);
        lemma_joined_more(seq![a, b], c, ", "@);
        lemma_joined_more(seq![a, b].push(c), d, ", "@);
        let list = a + ", "@ + b + ", "@ + c + ", "@ + d;
        assert(columns.len() == 4);
        assert(change_text(event_insert(false)) =~= "INSERT INTO "@ + "events"@ + "("@ + list
            + ") VALUES ("@ + "?, ?, ?, ?"@ + ")"@ + " RETURNING id"@);
        assert("INSERT INTO "@ + "events"@ + "("@ + list + ") VALUES ("@ + "?, ?, ?, ?"@ + ")"@
            + " RETURNING id"@
            =~= "INSERT INTO events(bucketrow, starttime, endtime, data) VALUES (?, ?, ?, ?) RETURNING id"@)
            by {
            lemma_words();
            reveal_strlit("INSERT INTO ");
            reveal_strlit("events");
            reveal_strlit(") VALUES (");
            reveal_strlit("?, ?, ?, ?");
            reveal_strlit(" RETURNING id");
            reveal_strlit("INSERT INTO events(bucketrow, starttime, endtime, data) VALUES (?, ?, ?, ?) RETURNING id");
        }
    }
}

/// The names of the columns are different from each other.
proof fn lemma_columns_differ()
    ensures
        "id"@.len() == 2,
        "data"@.len() == 4,
        "endtime"@.len() == 7,
        "bucketrow"@.len() == 9,
        "starttime"@.len() == 9,
        "bucketrow"@ != "starttime"@,
{
    reveal_strlit("id");
    reveal_strlit("bucketrow");
    reveal_strlit("starttime");
    reveal_strlit("endtime");
    reveal_strlit("data");
    assert("bucketrow"@[0] == 'b' && "starttime"@[0] == 's');
}

/// The row that four values make.
#[verifier::spinoff_prover]
proof fn lemma_row_of_columns(
    row: Row,
    before: Seq<Seq<char>>,
    bound: Seq<SqlValueView>,
)
    requires
        bound.len() >= before.len() + 4,
    ensures
        with_columns(row, before + event_columns(), bound) == with_columns(row, before, bound).insert(
            "bucketrow"@,
            datum(bound[before.len() as int]),
        ).insert("starttime"@, datum(bound[before.len() as int + 1])).insert(
            "endtime"@,
            datum(bound[before.len() as int + 2]),
        ).insert("data"@, datum(bound[before.len() as int + 3])),
{
    let n = before.len();
    let all = before + event_columns();
    assert(all.drop_last() =~= before.push("bucketrow"@).push("starttime"@).push("endtime"@));
    assert(all.drop_last().drop_last() =~= before.push("bucketrow"@).push("starttime"@));
    assert(all.drop_last().drop_last().drop_last() =~= before.push("bucketrow"@));
    assert(all.drop_last().drop_last().drop_last().drop_last() =~= before);
    assert(all.last() == "data"@);
    assert(all.drop_last().last() == "endtime"@);
    assert(all.drop_last().drop_last().last() == "starttime"@);
    assert(all.drop_last().drop_last().drop_last().last() == "bucketrow"@);
    reveal_with_fuel(with_columns, 5);
}

/// Whether an event is in the table for the given one: in the bucket, with its start, its end, its
/// data as it is written, and its number or the next one.
pub open spec fn stands_for(
    record: EventRecord,
    bid: i64,
    event: EventView,
    data: Seq<char>,
    number: int,
) -> bool {
    &&& record.bucketrow == bid
    &&& record.starttime == event.timestamp
    &&& record.endtime == event.timestamp + event.duration
    &&& record.data == data
    &&& record.id == match event.id {
        Some(id) => id as int,
        None => number,
    }
}

/// The statement that stores an event leaves it in the table, in its bucket and with its start, its
/// end and its data, under its own number or the next one. An event that had this number of its
/// own before is no longer there, and every other one is as it was. What is read of it is the
/// event, with its number.
#[verifier::spinoff_prover]
pub proof fn law_stored_event_is_in_the_table(
    bid: i64,
    event: EventView,
    data: Seq<char>,
    number: int,
    records: Seq<EventRecord>,
    json: JsonText,
) -> (after: Seq<EventRecord>)
    requires
        storable_times(event),
        storable_length(event),
        i64::MIN <= number <= i64::MAX,
    ensures
        changes_as(insert_statement(bid, event, data), event_insert(event.id is Some)),
        changed(
            event_insert(event.id is Some),
            with_records(records, insert_statement(bid, event, data).params, json),
            "id"@,
            number,
        ) == rows_of(after),
        forall|r: EventRecord| #[trigger]
            after.contains(r) <==> stands_for(r, bid, event, data, number) || (records.contains(r) && (
            event.id is Some ==> r.id != event.id->Some_0)),
        forall|r: EventRecord| #[trigger]
            stands_for(r, bid, event, data, number) && (json.object)(data) == event.data ==> event_of(
                r,
                json,
            ) == (EventView {
                id: Some(
                    match event.id {
                        Some(id) => id,
                        None => number as i64,
                    },
                ),
                ..event
            }),
{
    let statement = insert_statement(bid, event, data);
    let db = with_records(records, statement.params, json);
    let new = EventRecord {
        id: match event.id {
            Some(id) => id as int,
            None => number,
        },
        bucketrow: bid as int,
        starttime: event.timestamp,
        endtime: event.end(),
        data,
    };
    lemma_insert_text(event.id is Some);
    lemma_columns_differ();
    let change = event_insert(event.id is Some);
    assert(db.tables["events"@] == rows_of(records));
    let none = Seq::<Seq<char>>::empty();
    let after = match event.id {
        Some(id) => {
            let kept = |r: EventRecord| r.id != id;
            let rest = kept_records(records, kept);
            let columns = seq!["id"@] + event_columns();
            let row = with_columns(Map::empty(), columns, db.bound);
            assert(columns[0] == "id"@);
            assert(columns.contains("id"@));
            lemma_row_of_columns(Map::empty(), seq!["id"@], db.bound);
            assert(seq!["id"@].drop_last() =~= none);
            reveal_with_fuel(with_columns, 2);
            assert(row =~= new.row());
            lemma_record_columns(new);
            let pred = |other: Row| in_row(other, "id"@) != in_row(row, "id"@);
            assert forall|r: EventRecord| #[trigger] kept(r) <==> pred(r.row()) by {
                lemma_record_columns(r);
            }
            lemma_filtered_rows(records, pred, kept);
            lemma_kept_records(records, kept);
            assert(changed(change, db, "id"@, number) == rows_of(rest).push(row));
            assert(rows_of(rest).push(row) =~= rows_of(rest.push(new)));
            rest.push(new)
        },
        None => {
            let columns = event_columns();
            let given = with_columns(Map::empty(), columns, db.bound);
            assert(columns =~= none + columns);
            lemma_row_of_columns(Map::empty(), none, db.bound);
            assert(!columns.contains("id"@)) by {
                assert(forall|i: int| 0 <= i < columns.len() ==> (#[trigger] columns[i]).len() != 2);
            }
            assert(given.insert("id"@, Datum::Integer(number)) =~= new.row());
            assert(rows_of(records).push(new.row()) =~= rows_of(records.push(new)));
            records.push(new)
        },
    };
    assert forall|r: EventRecord| #[trigger]
        after.contains(r) <==> stands_for(r, bid, event, data, number) || (records.contains(r) && (
        event.id is Some ==> r.id != event.id->Some_0)) by {
        let before = after.drop_last();
        assert(after.last() == new);
        assert(stands_for(r, bid, event, data, number) <==> r == new);
        if after.contains(r) {
            let k = choose|k: int| 0 <= k < after.len() && after[k] == r;
            if k < before.len() {
                assert(before[k] == r);
                assert(before.contains(r));
            }
        }
        if before.contains(r) {
            let k = choose|k: int| 0 <= k < before.len() && before[k] == r;
            assert(after[k] == r);
        }
        assert(after[after.len() - 1] == new);
        if event.id is Some {
            assert(before =~= kept_records(records, |r: EventRecord| r.id != event.id->Some_0));
        } else {
            assert(before =~= records);
        }
    }
    after
}

/// The conditions for one event of a bucket.
pub open spec fn one_event() -> Seq<Expr> {
    seq![
        infix(Expr::Column("bucketrow"@), " = "@, Expr::Bound),
        infix(Expr::Column("id"@), " = "@, Expr::Bound),
    ]
}

/// The condition for the events of a bucket.
pub open spec fn all_events() -> Seq<Expr> {
    seq![infix(Expr::Column("bucketrow"@), " = "@, Expr::Bound)]
}

proof fn lemma_conditions_text()
    ensures
        all_text(one_event()) == "bucketrow = ? AND id = ?"@,
        all_text(all_events()) == "bucketrow = ?"@,
{
    let c1 = "bucketrow"@ + " = "@ + "?"@;
    let c2 = "id"@ + " = "@ + "?"@;
    lemma_compared_text("bucketrow"@, " = "@);
    lemma_compared_text("id"@, " = "@);
    assert(one_event().map_values(|c: Expr| expr_text(c)) =~= seq![c1, c2]);
    assert(all_events().map_values(|c: Expr| expr_text(c)) =~= seq![c1]);
    lemma_joined_two(c1, c2, " AND "@);
    assert(c1 + " AND "@ + c2 =~= "bucketrow = ? AND id = ?"@) by {
        lemma_words();
        reveal_strlit("bucketrow = ? AND id = ?");
    }
    assert(c1 =~= "bucketrow = ?"@) by {
        lemma_words();
        reveal_strlit("bucketrow = ?");
    }
}

proof fn lemma_one_event_holds(record: EventRecord, db: Database, at: int, bid: i64, event_id: i64)
    requires
        0 <= at,
        db.bound.len() == at + 2,
        db.bound[at] == SqlValueView::Integer(bid),
        db.bound[at + 1] == SqlValueView::Integer(event_id),
    ensures
        all_hold(one_event(), record_scope(record, db), at) <==> record.bucketrow == bid && record.id
            == event_id,
{
    let scope = record_scope(record, db);
    let none = Seq::<Expr>::empty();
    let a = one_event()[0];
    let b = one_event()[1];
    assert(one_event() =~= none.push(a).push(b));
    lemma_one_more_holds(none, a, scope, at);
    lemma_one_more_holds(none.push(a), b, scope, at);
    lemma_bound_in_more(none, a);
    lemma_record_values(record, db, at);
    lemma_record_values(record, db, at + 1);
    lemma_operators();
    lemma_infix_holds(Expr::Column("bucketrow"@), " = "@, Expr::Bound, scope, at);
    lemma_infix_holds(Expr::Column("id"@), " = "@, Expr::Bound, scope, at + 1);
    assert(value_of(Expr::Bound, scope, at) == Datum::Integer(bid as int));
    assert(value_of(Expr::Bound, scope, at + 1) == Datum::Integer(event_id as int));
}

proof fn lemma_all_events_hold(record: EventRecord, db: Database, bid: i64)
    requires
        db.bound.len() == 1,
        db.bound[0] == SqlValueView::Integer(bid),
    ensures
        all_hold(all_events(), record_scope(record, db), 0) <==> record.bucketrow == bid,
{
    let scope = record_scope(record, db);
    let none = Seq::<Expr>::empty();
    let a = all_events()[0];
    assert(all_events() =~= none.push(a));
    lemma_one_more_holds(none, a, scope, 0);
    lemma_record_values(record, db, 0);
    lemma_operators();
    lemma_infix_holds(Expr::Column("bucketrow"@), " = "@, Expr::Bound, scope, 0);
    assert(value_of(Expr::Bound, scope, 0) == Datum::Integer(bid as int));
}

/// The statement that deletes events that meet conditions.
pub open spec fn event_delete(conditions: Seq<Expr>) -> Change {
    Change::Delete { table: "events"@, conditions }
}

proof fn lemma_delete_text()
    ensures
        change_text(event_delete(one_event())) == "DELETE FROM events WHERE bucketrow = ? AND id = ?"@,
        change_text(event_delete(all_events())) == "DELETE FROM events WHERE bucketrow = ?"@,
{
    lemma_conditions_text();
    reveal_strlit("DELETE FROM ");
    reveal_strlit("events");
    reveal_strlit(" WHERE ");
    reveal_strlit("bucketrow = ? AND id = ?");
    reveal_strlit("bucketrow = ?");
    reveal_strlit("DELETE FROM events WHERE bucketrow = ? AND id = ?");
    reveal_strlit("DELETE FROM events WHERE bucketrow = ?");
    assert(change_text(event_delete(one_event()))
        =~= "DELETE FROM events WHERE bucketrow = ? AND id = ?"@);
    assert(change_text(event_delete(all_events())) =~= "DELETE FROM events WHERE bucketrow = ?"@);
}

/// The statement that deletes an event takes out the one with this number, if it is in the bucket,
/// and leaves every other one as it was.
#[verifier::spinoff_prover]
pub proof fn law_deleted_event_is_gone(
    bid: i64,
    event_id: i64,
    records: Seq<EventRecord>,
    json: JsonText,
    number: int,
) -> (after: Seq<EventRecord>)
    ensures
        changes_as(delete_event_statement(bid, event_id), event_delete(one_event())),
        changed(
            event_delete(one_event()),
            with_records(records, delete_event_statement(bid, event_id).params, json),
            "id"@,
            number,
        ) == rows_of(after),
        forall|r: EventRecord| #[trigger]
            after.contains(r) <==> records.contains(r) && !(r.bucketrow == bid && r.id == event_id),
{
    let db = with_records(records, delete_event_statement(bid, event_id).params, json);
    let kept = |r: EventRecord| !(r.bucketrow == bid && r.id == event_id);
    let pred = |row: Row| !all_hold(one_event(), scope_of("events"@, row, db), 0);
    lemma_delete_text();
    assert(db.tables["events"@] == rows_of(records));
    assert forall|r: EventRecord| #[trigger] kept(r) <==> pred(r.row()) by {
        lemma_one_event_holds(r, db, 0, bid, event_id);
    }
    lemma_filtered_rows(records, pred, kept);
    lemma_kept_records(records, kept);
    kept_records(records, kept)
}

/// The statement that deletes the events of a bucket takes out all of them, and leaves those of
/// every other bucket as they were.
#[verifier::spinoff_prover]
pub proof fn law_deleted_bucket_leaves_no_event(
    bid: i64,
    records: Seq<EventRecord>,
    json: JsonText,
    number: int,
) -> (after: Seq<EventRecord>)
    ensures
        changes_as(delete_events_statement(bid), event_delete(all_events())),
        changed(
            event_delete(all_events()),
            with_records(records, delete_events_statement(bid).params, json),
            "id"@,
            number,
        ) == rows_of(after),
        forall|r: EventRecord| #[trigger]
            after.contains(r) <==> records.contains(r) && r.bucketrow != bid,
{
    let db = with_records(records, delete_events_statement(bid).params, json);
    let kept = |r: EventRecord| r.bucketrow != bid;
    let pred = |row: Row| !all_hold(all_events(), scope_of("events"@, row, db), 0);
    lemma_delete_text();
    assert(db.tables["events"@] == rows_of(records));
    assert forall|r: EventRecord| #[trigger] kept(r) <==> pred(r.row()) by {
        lemma_all_events_hold(r, db, bid);
    }
    lemma_filtered_rows(records, pred, kept);
    lemma_kept_records(records, kept);
    kept_records(records, kept)
}

/// The statement that puts an event in the place of a stored one.
pub open spec fn event_update() -> Change {
    Change::Update {
        table: "events"@,
        columns: seq!["starttime"@, "endtime"@, "data"@],
        conditions: one_event(),
    }
}

#[verifier::spinoff_prover]
proof fn lemma_update_text()
    ensures
        change_text(event_update())
            == "UPDATE events SET starttime = ?, endtime = ?, data = ? WHERE bucketrow = ? AND id = ?"@,
{
    lemma_conditions_text();
    let columns = seq!["starttime"@, "endtime"@, "data"@];
    let a = "starttime"@ + " = ?"@;
    let b = "endtime"@ + " = ?"@;
    let c = "data"@ + " = ?"@;
    assert(columns.map_values(|name: Seq<char>| name + " = ?"@) =~= seq![a, b].push(c));
    lemma_joined_two(a, b, ", "@);
    lemma_joined_more(seq![a, b], c, ", "@);
    let whole = "UPDATE "@ + "events"@ + " SET "@ + (a + ", "@ + b + ", "@ + c) + " WHERE "@
        + "bucketrow = ? AND id = ?"@;
    assert(change_text(event_update()) =~= whole);
    assert(whole
        =~= "UPDATE events SET starttime = ?, endtime = ?, data = ? WHERE bucketrow = ? AND id = ?"@)
        by {
        lemma_words();
        reveal_strlit("UPDATE ");
        reveal_strlit("events");
        reveal_strlit(" SET ");
        reveal_strlit(" = ?");
        reveal_strlit(" WHERE ");
        reveal_strlit("bucketrow = ? AND id = ?");
        reveal_strlit("UPDATE events SET starttime = ?, endtime = ?, data = ? WHERE bucketrow = ? AND id = ?");
    }
}

/// An event of the table after another one was put in its place, if it is the one.
pub open spec fn is_replaced(
    before: EventRecord,
    after: EventRecord,
    bid: i64,
    event_id: i64,
    event: EventView,
    data: Seq<char>,
) -> bool {
    if before.bucketrow == bid && before.id == event_id {
        &&& after.id == before.id
        &&& after.bucketrow == before.bucketrow
        &&& after.starttime == event.timestamp
        &&& after.endtime == event.timestamp + event.duration
        &&& after.data == data
    } else {
        after == before
    }
}

/// The statement that puts an event in the place of a stored one gives the event with this number
/// in the bucket the new start, end and data. It stays in its bucket under its number, and every
/// other one is as it was.
#[verifier::spinoff_prover]
pub proof fn law_replaced_event_keeps_its_number(
    bid: i64,
    event_id: i64,
    event: EventView,
    data: Seq<char>,
    records: Seq<EventRecord>,
    json: JsonText,
    number: int,
) -> (after: Seq<EventRecord>)
    requires
        storable_times(event),
        storable_length(event),
    ensures
        changes_as(replace_statement(bid, event_id, event, data), event_update()),
        changed(
            event_update(),
            with_records(records, replace_statement(bid, event_id, event, data).params, json),
            "id"@,
            number,
        ) == rows_of(after),
        after.len() == records.len(),
        forall|i: int|
            0 <= i < records.len() ==> is_replaced(
                #[trigger] records[i],
                #[trigger] after[i],
                bid,
                event_id,
                event,
                data,
            ),
{
    let db = with_records(records, replace_statement(bid, event_id, event, data).params, json);
    let columns = seq!["starttime"@, "endtime"@, "data"@];
    let after = records.map_values(
        |r: EventRecord|
            if r.bucketrow == bid && r.id == event_id {
                EventRecord { starttime: event.timestamp, endtime: event.end(), data, ..r }
            } else {
                r
            },
    );
    lemma_update_text();
    lemma_columns_differ();
    assert(db.tables["events"@] == rows_of(records));
    let rows = changed(event_update(), db, "id"@, number);
    assert forall|i: int| 0 <= i < records.len() implies #[trigger] rows[i] == after[i].row() by {
        let r = records[i];
        assert(rows_of(records)[i] == r.row());
        lemma_one_event_holds(r, db, 3, bid, event_id);
        if r.bucketrow == bid && r.id == event_id {
            lemma_three_columns(r.row(), db.bound);
            assert(with_columns(r.row(), columns, db.bound) =~= after[i].row());
        }
    }
    assert(rows =~= rows_of(after));
    after
}

proof fn lemma_three_columns(row: Row, bound: Seq<SqlValueView>)
    requires
        bound.len() >= 3,
    ensures
        with_columns(row, seq!["starttime"@, "endtime"@, "data"@], bound) == row.insert(
            "starttime"@,
            datum(bound[0]),
        ).insert("endtime"@, datum(bound[1])).insert("data"@, datum(bound[2])),
{
    let all = seq!["starttime"@, "endtime"@, "data"@];
    assert(all.drop_last() =~= seq!["starttime"@, "endtime"@]);
    assert(all.drop_last().drop_last() =~= seq!["starttime"@]);
    assert(all.drop_last().drop_last().drop_last() =~= Seq::<Seq<char>>::empty());
    reveal_with_fuel(with_columns, 4);
}

} // verus!
