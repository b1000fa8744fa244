//! The statements that read events, and what becomes of the rows that they return.

use vstd::prelude::*;

use crate::event::Event;
#[allow(unused_imports)]
use crate::event::{views, EventView};
use crate::json::{Json, JsonMap};
#[allow(unused_imports)]
use crate::json::JsonView;
use crate::model::{internal_error, DatastoreError};
#[allow(unused_imports)]
use crate::model::DatastoreErrorView;
#[allow(unused_imports)]
use crate::sql::path_key;
use crate::text::{chars_of, join};
#[allow(unused_imports)]
use crate::text::texts;

verus! {

/// The number of nanoseconds in a second.
pub const SECOND: i64 = 1_000_000_000;

/// A value that is bound to a statement.
#[derive(Debug)]
pub enum SqlValue {
    Null,
    Integer(i64),
    Text(String),
}

/// What an [`SqlValue`] stands for.
pub enum SqlValueView {
    Null,
    Integer(i64),
    Text(Seq<char>),
}

impl View for SqlValue {
    type V = SqlValueView;

    open spec fn view(&self) -> SqlValueView {
        match self {
            SqlValue::Null => SqlValueView::Null,
            SqlValue::Integer(n) => SqlValueView::Integer(*n),
            SqlValue::Text(text) => SqlValueView::Text(text@),
        }
    }
}

/// What a list of bound values stands for.
pub open spec fn value_views(values: Seq<SqlValue>) -> Seq<SqlValueView> {
    values.map_values(|v: SqlValue| v@)
}

/// A statement and the values for its parameters.
#[derive(Debug)]
pub struct Statement {
    pub sql: String,
    pub params: Vec<SqlValue>,
}

/// What a [`Statement`] stands for.
#[verifier::ext_equal]
pub struct StatementView {
    pub sql: Seq<char>,
    pub params: Seq<SqlValueView>,
}

impl View for Statement {
    type V = StatementView;

    open spec fn view(&self) -> StatementView {
        StatementView { sql: self.sql@, params: value_views(self.params@) }
    }
}

/// What an optional statement stands for.
pub open spec fn optional_statement(statement: Option<Statement>) -> Option<StatementView> {
    match statement {
        Some(statement) => Some(statement@),
        None => None,
    }
}

impl Statement {
    pub fn new(sql: String) -> (statement: Statement)
        ensures
            statement@ == (StatementView { sql: sql@, params: Seq::empty() }),
    {
        let statement = Statement { sql, params: Vec::new() };
        proof {
            assert(value_views(statement.params@) =~= Seq::empty());
        }
        statement
    }

    /// Binds one more value.
    pub fn bind(&mut self, value: SqlValue)
        ensures
            final(self)@ == (StatementView {
                sql: old(self)@.sql,
                params: old(self)@.params.push(value@),
            }),
    {
        let ghost before = value_views(self.params@);
        self.params.push(value);
        proof {
            assert(value_views(self.params@) =~= before.push(value@));
        }
    }
}

/// How a character of a key is written in a path of JSON inside a literal of SQL. Backslashes
/// and double quotes are escaped for the path, single quotes for the literal.
pub open spec fn escaped_char(c: char) -> Seq<char> {
    if c == '\\' {
        seq!['\\', '\\']
    } else if c == '"' {
        seq!['\\', '"']
    } else if c == '\'' {
        seq!['\'', '\'']
    } else {
        seq![c]
    }
}

/// How a key is written in a path of JSON inside a literal of SQL.
pub open spec fn escaped(key: Seq<char>) -> Seq<char>
    decreases key.len(),
{
    if key.len() == 0 {
        Seq::empty()
    } else {
        escaped(key.drop_last()) + escaped_char(key.last())
    }
}

/// The expression that takes a value of the data of an event out of a column.
pub open spec fn extraction(column: Seq<char>, key: Seq<char>) -> Seq<char> {
    "json_extract_string("@ + column + ", '$.\""@ + escaped(key) + "\"')"@
}

/// What the database reads of a literal of SQL, given what stands between its quotes. Nothing
/// if a single quote would end the literal before.
pub open spec fn literal_value(text: Seq<char>) -> Option<Seq<char>>
    decreases text.len(),
{
    if text.len() == 0 {
        Some(Seq::empty())
    } else if text.last() != '\'' {
        match literal_value(text.drop_last()) {
            Some(head) => Some(head.push(text.last())),
            None => None,
        }
    } else if text.len() >= 2 && text[text.len() - 2] == '\'' {
        match literal_value(text.take(text.len() - 2)) {
            Some(head) => Some(head.push('\'')),
            None => None,
        }
    } else {
        None
    }
}

/// The name that a quoted member of a path of JSON stands for, read from its front, given what
/// stands between its quotes. Nothing if a double quote would end the member before.
pub open spec fn member_name(text: Seq<char>) -> Option<Seq<char>>
    decreases text.len(),
{
    if text.len() == 0 {
        Some(Seq::empty())
    } else if text[0] == '"' {
        None
    } else if text[0] == '\\' {
        if text.len() < 2 {
            None
        } else {
            match member_name(text.skip(2)) {
                Some(rest) => Some(seq![text[1]] + rest),
                None => None,
            }
        }
    } else {
        match member_name(text.drop_first()) {
            Some(rest) => Some(seq![text[0]] + rest),
            None => None,
        }
    }
}

/// How a character of a key is written in a path of JSON.
spec fn member_char(c: char) -> Seq<char> {
    if c == '\\' {
        seq!['\\', '\\']
    } else if c == '"' {
        seq!['\\', '"']
    } else {
        seq![c]
    }
}

/// How a key is written in a path of JSON.
spec fn member(key: Seq<char>) -> Seq<char>
    decreases key.len(),
{
    if key.len() == 0 {
        Seq::empty()
    } else {
        member(key.drop_last()) + member_char(key.last())
    }
}

proof fn lemma_member_front(key: Seq<char>)
    requires
        key.len() > 0,
    ensures
        member(key) == member_char(key[0]) + member(key.drop_first()),
    decreases key.len(),
{
    if key.len() == 1 {
        assert(key.drop_last() =~= Seq::<char>::empty());
        assert(key.drop_first() =~= Seq::<char>::empty());
        reveal_with_fuel(member, 2);
        assert(member(key) =~= member_char(key[0]) + member(key.drop_first()));
    } else {
        let head = key.drop_last();
        lemma_member_front(head);
        assert(head.drop_first() =~= key.drop_first().drop_last());
        assert(member(key) =~= member_char(key[0]) + (member(head.drop_first()) + member_char(
            key.last(),
        )));
    }
}

proof fn lemma_member_reads_back(key: Seq<char>)
    ensures
        member_name(member(key)) == Some(key),
    decreases key.len(),
{
    if key.len() > 0 {
        let rest = key.drop_first();
        lemma_member_front(key);
        lemma_member_reads_back(rest);
        let text = member(key);
        let first = member_char(key[0]);
        assert(text[0] == first[0]);
        if first.len() == 2 {
            assert(text[1] == first[1]);
            assert(text.skip(2) =~= member(rest));
        } else {
            assert(text.drop_first() =~= member(rest));
        }
        assert(seq![key[0]] + rest =~= key);
    } else {
        assert(member_name(member(key))->Some_0 =~= key);
    }
}

proof fn lemma_literal_of_escaped(key: Seq<char>)
    ensures
        literal_value(escaped(key)) == Some(member(key)),
    decreases key.len(),
{
    if key.len() > 0 {
        let head = key.drop_last();
        let c = key.last();
        lemma_literal_of_escaped(head);
        let text = escaped(key);
        let before = escaped(head);
        reveal_with_fuel(literal_value, 3);
        if c == '\\' || c == '"' {
            assert(text.drop_last() =~= before.push('\\'));
            assert(before.push('\\').drop_last() =~= before);
            assert(member(head).push('\\').push(c) =~= member(key));
        } else if c == '\'' {
            assert(text.take(text.len() - 2) =~= before);
            assert(member(head).push('\'') =~= member(key));
        } else {
            assert(text.drop_last() =~= before);
            assert(member(head).push(c) =~= member(key));
        }
    } else {
        assert(literal_value(escaped(key))->Some_0 =~= member(key));
    }
}

/// Whatever the key, the literal in the expression ends where it is meant to, so does the
/// member of the path inside it, and the member names the key.
pub proof fn law_escaped_key_reads_back(key: Seq<char>)
    ensures
        match literal_value(escaped(key)) {
            Some(path) => member_name(path) == Some(key),
            None => false,
        },
{
    lemma_literal_of_escaped(key);
    lemma_member_reads_back(key);
}

/// A text in front that holds no single quote stays as it is.
proof fn lemma_literal_behind(front: Seq<char>, text: Seq<char>)
    requires
        forall|i: int| 0 <= i < front.len() ==> #[trigger] front[i] != '\'',
        literal_value(text) is Some,
    ensures
        literal_value(front + text) == Some(front + literal_value(text)->Some_0),
    decreases front.len() + text.len(),
{
    let whole = front + text;
    if text.len() == 0 {
        assert(whole =~= front);
        assert(front + Seq::<char>::empty() =~= front);
        if front.len() > 0 {
            let shorter = front.drop_last();
            assert(shorter + Seq::<char>::empty() =~= shorter);
            lemma_literal_behind(shorter, text);
            assert(shorter + text =~= whole.drop_last());
            assert(shorter.push(front.last()) =~= front);
        }
    } else if text.last() != '\'' {
        assert(whole.drop_last() =~= front + text.drop_last());
        lemma_literal_behind(front, text.drop_last());
        let head = literal_value(text.drop_last())->Some_0;
        assert((front + head).push(text.last()) =~= front + head.push(text.last()));
    } else {
        assert(text.len() >= 2 && text[text.len() - 2] == '\'');
        assert(whole.take(whole.len() - 2) =~= front + text.take(text.len() - 2));
        assert(whole[whole.len() - 2] == '\'');
        lemma_literal_behind(front, text.take(text.len() - 2));
        let head = literal_value(text.take(text.len() - 2))->Some_0;
        assert((front + head).push('\'') =~= front + head.push('\''));
    }
}

/// The path in the expression that takes the value of a key out of a column names that key.
pub(crate) proof fn lemma_path_names_the_key(key: Seq<char>)
    ensures
        match literal_value("$.\""@ + escaped(key) + "\""@) {
            Some(path) => path_key(path) == Some(key),
            None => false,
        },
{
    reveal_strlit("$.\"");
    reveal_strlit("\"");
    let front = "$.\""@;
    let text = escaped(key);
    lemma_literal_of_escaped(key);
    lemma_member_reads_back(key);
    lemma_literal_behind(front, text);
    let whole = front + text + "\""@;
    assert(whole.drop_last() =~= front + text);
    let path = (front + member(key)).push('"');
    assert(literal_value(whole) == Some(path));
    assert(path.take(3) =~= front);
    assert(path.subrange(3, path.len() - 1) =~= member(key));
}

/// The expression that takes a value of the data of an event out of a column. The key is
/// escaped, so that it can stand inside the text of a statement.
pub fn json_extract_expr(column: &str, key: &str) -> (expr: String)
    ensures
        expr@ == extraction(column@, key@),
{
    let mut expr = join("json_extract_string(", column);
    expr.append(", '$.\"");
    let ghost before = expr@;
    let chars = chars_of(key);
    let mut i: usize = 0;
    proof {
        assert(key@.take(0) =~= Seq::<char>::empty());
        assert(before + Seq::<char>::empty() =~= before);
    }
    while i < chars.len()
        invariant
            chars@ == key@,
            i <= chars.len(),
            expr@ == before + escaped(key@.take(i as int)),
        decreases chars.len() - i,
    {
        let c = chars[i];
        let ghost so_far = expr@;
        if c == '\\' || c == '"' {
            expr.push('\\');
        } else if c == '\'' {
            expr.push('\'');
        }
        expr.push(c);
        proof {
            assert(key@.take(i + 1).drop_last() =~= key@.take(i as int));
            assert(expr@ =~= so_far + escaped_char(c));
            assert(expr@ =~= before + escaped(key@.take(i + 1)));
        }
        i += 1;
    }
    expr.append("\"')");
    proof {
        assert(key@.take(key@.len() as int) =~= key@);
    }
    expr
}

/// A value to compare with, and how JSON writes it.
#[derive(Debug)]
pub struct FilterValue {
    pub value: Json,
    pub written: String,
}

/// The text that stands for a value where values are compared as text: a text stands for
/// itself, null for the empty text, anything else for how JSON writes it.
pub open spec fn comparable(value: JsonView, written: Seq<char>) -> Seq<char> {
    match value {
        JsonView::Text(text) => text,
        JsonView::Null => Seq::empty(),
        _ => written,
    }
}

impl FilterValue {
    /// The text that the value is compared as.
    pub fn text(&self) -> (text: String)
        ensures
            text@ == comparable(self.value@, self.written@),
    {
        match &self.value {
            Json::Text(text) => text.clone(),
            Json::Null => {
                let empty = String::new();
                proof {
                    assert(empty@ =~= Seq::empty());
                }
                empty
            },
            _ => self.written.clone(),
        }
    }
}

/// A condition on events: the value of the key is one of these.
#[derive(Debug)]
pub struct EventFilter {
    pub key: String,
    pub vals: Vec<FilterValue>,
}

/// What an [`EventFilter`] stands for: the key, and each value with how JSON writes it.
#[verifier::ext_equal]
pub struct EventFilterView {
    pub key: Seq<char>,
    pub vals: Seq<(JsonView, Seq<char>)>,
}

impl View for EventFilter {
    type V = EventFilterView;

    open spec fn view(&self) -> EventFilterView {
        EventFilterView {
            key: self.key@,
            vals: self.vals@.map_values(|v: FilterValue| (v.value@, v.written@)),
        }
    }
}

/// What a list of filters stands for.
pub open spec fn filter_views(filters: Seq<EventFilter>) -> Seq<EventFilterView> {
    filters.map_values(|f: EventFilter| f@)
}

/// The earliest and the latest time of a query, in nanoseconds since the Unix epoch.
pub open spec fn query_range(start: Option<i128>, end: Option<i128>) -> (int, int) {
    (
        match start {
            Some(t) => t as int,
            None => 0,
        },
        match end {
            Some(t) => t as int,
            None => i64::MAX as int,
        },
    )
}

/// Whether the time, if there is one, counts its nanoseconds in 64 bits.
pub open spec fn fits(time: Option<i128>) -> bool {
    match time {
        Some(t) => i64::MIN <= t <= i64::MAX,
        None => true,
    }
}

/// The earliest and the latest time of a query.
pub fn range_of(start: Option<i128>, end: Option<i128>) -> (range: (i64, i64))
    requires
        fits(start),
        fits(end),
    ensures
        (range.0 as int, range.1 as int) == query_range(start, end),
{
    let from: i64 = match start {
        Some(t) => t as i64,
        None => 0,
    };
    let to: i64 = match end {
        Some(t) => t as i64,
        None => i64::MAX,
    };
    (from, to)
}

/// How a limit is bound: nothing where there is none, or where it is too large to matter.
pub open spec fn bound_limit(limit: Option<u64>) -> SqlValueView {
    match limit {
        Some(limit) => if limit <= i64::MAX {
            SqlValueView::Integer(limit as i64)
        } else {
            SqlValueView::Null
        },
        None => SqlValueView::Null,
    }
}

fn limit_value(limit: Option<u64>) -> (value: SqlValue)
    ensures
        value@ == bound_limit(limit),
{
    match limit {
        Some(limit) => if limit <= i64::MAX as u64 {
            SqlValue::Integer(limit as i64)
        } else {
            SqlValue::Null
        },
        None => SqlValue::Null,
    }
}

/// The beginning of the statement that reads events of a bucket in a range of time.
pub open spec fn events_selection() -> Seq<char> {
    "SELECT id, starttime, endtime, data FROM events WHERE bucketrow = ? AND endtime >= ? AND starttime <= ?"@
}

/// The end of that statement.
pub open spec fn newest_first() -> Seq<char> {
    " ORDER BY starttime DESC, id ASC LIMIT ?"@
}

/// The placeholders for so many values.
pub open spec fn placeholders(count: nat) -> Seq<char>
    decreases count,
{
    if count == 0 {
        Seq::empty()
    } else if count == 1 {
        "?"@
    } else {
        placeholders((count - 1) as nat) + ", "@ + "?"@
    }
}

/// The condition of one filter. Without values it is met by nothing.
pub open spec fn filter_condition(filter: EventFilterView) -> Seq<char> {
    if filter.vals.len() == 0 {
        " AND 1=0"@
    } else {
        " AND "@ + extraction("data"@, filter.key) + " IN ("@ + placeholders(filter.vals.len())
            + ")"@
    }
}

/// The conditions of all the filters.
pub open spec fn filter_conditions(filters: Seq<EventFilterView>) -> Seq<char>
    decreases filters.len(),
{
    if filters.len() == 0 {
        Seq::empty()
    } else {
        filter_conditions(filters.drop_last()) + filter_condition(filters.last())
    }
}

/// The values that one filter binds.
pub open spec fn filter_values(filter: EventFilterView) -> Seq<SqlValueView> {
    filter.vals.map_values(|v: (JsonView, Seq<char>)| SqlValueView::Text(comparable(v.0, v.1)))
}

/// The values that all the filters bind.
pub open spec fn all_filter_values(filters: Seq<EventFilterView>) -> Seq<SqlValueView>
    decreases filters.len(),
{
    if filters.len() == 0 {
        Seq::empty()
    } else {
        all_filter_values(filters.drop_last()) + filter_values(filters.last())
    }
}

/// The statement that reads the events of a bucket that overlap a range of time and meet every
/// filter. There is none if the range ends before it starts.
pub open spec fn events_statement(
    bid: i64,
    start: Option<i128>,
    end: Option<i128>,
    limit: Option<u64>,
    filters: Seq<EventFilterView>,
) -> Option<StatementView> {
    let (from, to) = query_range(start, end);
    if from > to {
        None
    } else {
        Some(
            StatementView {
                sql: events_selection() + filter_conditions(filters) + newest_first(),
                params: (seq![
                    SqlValueView::Integer(bid),
                    SqlValueView::Integer(from as i64),
                    SqlValueView::Integer(to as i64),
                ] + all_filter_values(filters)).push(bound_limit(limit)),
            },
        )
    }
}

fn push_filter(statement: &mut Statement, filter: &EventFilter)
    ensures
        final(statement)@ == (StatementView {
            sql: old(statement)@.sql + filter_condition(filter@),
            params: old(statement)@.params + filter_values(filter@),
        }),
{
    let ghost before = statement@;
    let ghost wanted = filter_values(filter@);
    if filter.vals.len() == 0 {
        statement.sql.append(" AND 1=0");
        proof {
            assert(before.params + wanted =~= before.params);
        }
        return ;
    }
    statement.sql.append(" AND ");
    let expr = json_extract_expr("data", filter.key.as_str());
    statement.sql.append(expr.as_str());
    statement.sql.append(" IN (");
    let ghost opened = statement@.sql;
    let mut i: usize = 0;
    proof {
        assert(opened + placeholders(0) =~= opened);
        assert(before.params + wanted.take(0) =~= before.params);
    }
    while i < filter.vals.len()
        invariant
            i <= filter.vals.len(),
            filter.vals@.len() == wanted.len(),
            wanted == filter_values(filter@),
            statement@.sql == opened + placeholders(i as nat),
            statement@.params == before.params + wanted.take(i as int),
        decreases filter.vals.len() - i,
    {
        let ghost so_far = statement@;
        if i > 0 {
            statement.sql.append(", ");
        }
        statement.sql.append("?");
        statement.bind(SqlValue::Text(filter.vals[i].text()));
        proof {
            reveal_strlit(", ");
            reveal_strlit("?");
            assert(filter@.vals[i as int] == (
                filter.vals@[i as int].value@,
                filter.vals@[i as int].written@,
            ));
            assert(statement@.sql =~= opened + placeholders((i + 1) as nat));
            assert(wanted.take(i + 1) =~= wanted.take(i as int).push(wanted[i as int]));
            assert(statement@.params =~= before.params + wanted.take(i + 1));
        }
        i += 1;
    }
    statement.sql.append(")");
    proof {
        assert(wanted.take(i as int) =~= wanted);
        assert(statement@.sql =~= before.sql + filter_condition(filter@));
    }
}

/// The statement that reads the events of a bucket that overlap a range of time and meet every
/// filter, the newest first. There is none if the range ends before it starts: nothing is
/// found then.
pub fn query_events(
    bid: i64,
    start: Option<i128>,
    end: Option<i128>,
    limit: Option<u64>,
    filters: &Vec<EventFilter>,
) -> (r: Option<Statement>)
    requires
        fits(start),
        fits(end),
    ensures
        optional_statement(r) == events_statement(bid, start, end, limit, filter_views(filters@)),
{
    let (from, to) = range_of(start, end);
    if from > to {
        return None;
    }
    let mut statement = Statement::new(
        "SELECT id, starttime, endtime, data FROM events WHERE bucketrow = ? AND endtime >= ? AND starttime <= ?".to_string(),
    );
    statement.bind(SqlValue::Integer(bid));
    statement.bind(SqlValue::Integer(from));
    statement.bind(SqlValue::Integer(to));
    let ghost wanted = filter_views(filters@);
    let ghost start_params = statement@.params;
    let mut i: usize = 0;
    proof {
        assert(start_params =~= seq![
            SqlValueView::Integer(bid),
            SqlValueView::Integer(from),
            SqlValueView::Integer(to),
        ]);
        assert(wanted.take(0) =~= Seq::empty());
        assert(statement@.sql + Seq::<char>::empty() =~= statement@.sql);
        assert(start_params + Seq::<SqlValueView>::empty() =~= start_params);
    }
    while i < filters.len()
        invariant
            i <= filters.len(),
            wanted == filter_views(filters@),
            statement@.sql == events_selection() + filter_conditions(wanted.take(i as int)),
            statement@.params == start_params + all_filter_values(wanted.take(i as int)),
        decreases filters.len() - i,
    {
        let ghost so_far = statement@;
        push_filter(&mut statement, &filters[i]);
        proof {
            assert(wanted.take(i + 1).drop_last() =~= wanted.take(i as int));
            assert(wanted.take(i + 1).last() == filters@[i as int]@);
            assert(statement@.sql =~= events_selection() + filter_conditions(wanted.take(i + 1)));
            assert(statement@.params =~= start_params + all_filter_values(wanted.take(i + 1)));
        }
        i += 1;
    }
    statement.sql.append(" ORDER BY starttime DESC, id ASC LIMIT ?");
    statement.bind(limit_value(limit));
    proof {
        assert(wanted.take(i as int) =~= wanted);
    }
    Some(statement)
}

/// A statement that reads events, and the range that they are clipped to.
#[derive(Debug)]
pub struct EventsQuery {
    pub statement: Statement,
    pub clip_start: i64,
    pub clip_end: i64,
    /// Whether they are clipped at all.
    pub clip: bool,
}

/// What an [`EventsQuery`] stands for.
pub struct EventsQueryView {
    pub statement: StatementView,
    pub clip_start: int,
    pub clip_end: int,
    pub clip: bool,
}

impl View for EventsQuery {
    type V = EventsQueryView;

    open spec fn view(&self) -> EventsQueryView {
        EventsQueryView {
            statement: self.statement@,
            clip_start: self.clip_start as int,
            clip_end: self.clip_end as int,
            clip: self.clip,
        }
    }
}

/// What a query that may not be needed stands for.
pub open spec fn optional_query(query: Option<EventsQuery>) -> Option<EventsQueryView> {
    match query {
        Some(query) => Some(query@),
        None => None,
    }
}

/// The query for the events of a bucket that overlap a range of time and meet every filter,
/// clipped to the range or not.
pub open spec fn events_query(
    bid: i64,
    start: Option<i128>,
    end: Option<i128>,
    limit: Option<u64>,
    filters: Seq<EventFilterView>,
    clip: bool,
) -> Option<EventsQueryView> {
    let (clip_start, clip_end) = query_range(start, end);
    match events_statement(bid, start, end, limit, filters) {
        Some(statement) => Some(EventsQueryView { statement, clip_start, clip_end, clip }),
        None => None,
    }
}

/// The query for the events of a bucket that overlap a range of time and meet every filter,
/// clipped to the range or not. There is none if the range ends before it starts.
pub fn select_events(
    bid: i64,
    start: Option<i128>,
    end: Option<i128>,
    limit: Option<u64>,
    filters: &Vec<EventFilter>,
    clip: bool,
) -> (r: Option<EventsQuery>)
    requires
        fits(start),
        fits(end),
    ensures
        optional_query(r) == events_query(
            bid,
            start,
            end,
            limit,
            filter_views(filters@),
            clip,
        ),
{
    let (clip_start, clip_end) = range_of(start, end);
    match query_events(bid, start, end, limit, filters) {
        Some(statement) => Some(EventsQuery { statement, clip_start, clip_end, clip }),
        None => None,
    }
}

/// The statement that reads one event of a bucket.
pub open spec fn event_statement(bid: i64, event_id: i64) -> StatementView {
    StatementView {
        sql: "SELECT id, starttime, endtime, data FROM events WHERE bucketrow = ? AND id = ? LIMIT 1"@,
        params: seq![SqlValueView::Integer(bid), SqlValueView::Integer(event_id)],
    }
}

/// The statement that reads one event of a bucket.
pub fn query_event(bid: i64, event_id: i64) -> (statement: Statement)
    ensures
        statement@ == event_statement(bid, event_id),
{
    let mut statement = Statement::new(
        "SELECT id, starttime, endtime, data FROM events WHERE bucketrow = ? AND id = ? LIMIT 1".to_string(),
    );
    statement.bind(SqlValue::Integer(bid));
    statement.bind(SqlValue::Integer(event_id));
    proof {
        assert(statement@.params =~= seq![
            SqlValueView::Integer(bid),
            SqlValueView::Integer(event_id),
        ]);
    }
    statement
}

/// The statement that adds up the lengths of the events of a bucket by the value of a key.
pub open spec fn grouped_statement(
    bid: i64,
    start: Option<i128>,
    end: Option<i128>,
    group_by_key: Seq<char>,
) -> Option<StatementView> {
    let (from, to) = query_range(start, end);
    if from > to {
        None
    } else {
        Some(
            StatementView {
                sql: "SELECT min(starttime) as starttime, CAST(sum(endtime - starttime) AS BIGINT) as duration_ns, "@
                    + extraction("data"@, group_by_key)
                    + " as group_val FROM events WHERE bucketrow = ? AND endtime >= ? AND starttime <= ? GROUP BY group_val ORDER BY duration_ns DESC"@,
                params: seq![
                    SqlValueView::Integer(bid),
                    SqlValueView::Integer(from as i64),
                    SqlValueView::Integer(to as i64),
                ],
            },
        )
    }
}

/// The statement that adds up the lengths of the events of a bucket by the value of a key.
/// There is none if the range ends before it starts: nothing is found then.
///
/// The sum of a column is wider than the column, and is cast back. The total of a bucket does
/// not leave the range of 64 bits, which is some 292 years.
pub fn query_events_grouped(
    bid: i64,
    start: Option<i128>,
    end: Option<i128>,
    group_by_key: &str,
) -> (r: Option<Statement>)
    requires
        fits(start),
        fits(end),
    ensures
        optional_statement(r) == grouped_statement(bid, start, end, group_by_key@),
{
    let (from, to) = range_of(start, end);
    if from > to {
        return None;
    }
    let expr = json_extract_expr("data", group_by_key);
    let mut sql = join(
        "SELECT min(starttime) as starttime, CAST(sum(endtime - starttime) AS BIGINT) as duration_ns, ",
        expr.as_str(),
    );
    sql.append(
        " as group_val FROM events WHERE bucketrow = ? AND endtime >= ? AND starttime <= ? GROUP BY group_val ORDER BY duration_ns DESC",
    );
    let mut statement = Statement::new(sql);
    statement.bind(SqlValue::Integer(bid));
    statement.bind(SqlValue::Integer(from));
    statement.bind(SqlValue::Integer(to));
    proof {
        assert(statement@.params =~= seq![
            SqlValueView::Integer(bid),
            SqlValueView::Integer(from),
            SqlValueView::Integer(to),
        ]);
    }
    Some(statement)
}

/// The statement that reads the parts of the events of one bucket during which an event of
/// another bucket has a value.
pub open spec fn intersected_statement(
    target_bid: i64,
    filter_bid: i64,
    start: Option<i128>,
    end: Option<i128>,
    filter_key: Seq<char>,
    filter_val: Seq<char>,
) -> Option<StatementView> {
    let (from, to) = query_range(start, end);
    if from > to {
        None
    } else {
        Some(
            StatementView {
                sql: "SELECT window.id, greatest(window.starttime, afk.starttime) as intersect_start, least(window.endtime, afk.endtime) as intersect_end, window.data FROM events window JOIN events afk ON window.bucketrow = ? AND afk.bucketrow = ? AND window.starttime < afk.endtime AND window.endtime > afk.starttime AND "@
                    + extraction("afk.data"@, filter_key)
                    + " = ? WHERE greatest(window.starttime, afk.starttime) < least(window.endtime, afk.endtime) AND window.endtime >= ? AND window.starttime <= ? ORDER BY intersect_start ASC"@,
                params: seq![
                    SqlValueView::Integer(target_bid),
                    SqlValueView::Integer(filter_bid),
                    SqlValueView::Text(filter_val),
                    SqlValueView::Integer(from as i64),
                    SqlValueView::Integer(to as i64),
                ],
            },
        )
    }
}

/// The statement that reads the parts of the events of one bucket during which an event of
/// another bucket has a value. There is none if the range ends before it starts.
pub fn query_events_intersected(
    target_bid: i64,
    filter_bid: i64,
    start: Option<i128>,
    end: Option<i128>,
    filter_key: &str,
    filter_val: &FilterValue,
) -> (r: Option<Statement>)
    requires
        fits(start),
        fits(end),
    ensures
        optional_statement(r) == intersected_statement(
            target_bid,
            filter_bid,
            start,
            end,
            filter_key@,
            comparable(filter_val.value@, filter_val.written@),
        ),
{
    let (from, to) = range_of(start, end);
    if from > to {
        return None;
    }
    let expr = json_extract_expr("afk.data", filter_key);
    let mut sql = join(
        "SELECT window.id, greatest(window.starttime, afk.starttime) as intersect_start, least(window.endtime, afk.endtime) as intersect_end, window.data FROM events window JOIN events afk ON window.bucketrow = ? AND afk.bucketrow = ? AND window.starttime < afk.endtime AND window.endtime > afk.starttime AND ",
        expr.as_str(),
    );
    sql.append(
        " = ? WHERE greatest(window.starttime, afk.starttime) < least(window.endtime, afk.endtime) AND window.endtime >= ? AND window.starttime <= ? ORDER BY intersect_start ASC",
    );
    let mut statement = Statement::new(sql);
    statement.bind(SqlValue::Integer(target_bid));
    statement.bind(SqlValue::Integer(filter_bid));
    statement.bind(SqlValue::Text(filter_val.text()));
    statement.bind(SqlValue::Integer(from));
    statement.bind(SqlValue::Integer(to));
    proof {
        assert(statement@.params =~= seq![
            SqlValueView::Integer(target_bid),
            SqlValueView::Integer(filter_bid),
            SqlValueView::Text(comparable(filter_val.value@, filter_val.written@)),
            SqlValueView::Integer(from),
            SqlValueView::Integer(to),
        ]);
    }
    Some(statement)
}

/// The statement that counts the events of a bucket that overlap a range of time.
pub open spec fn count_statement(bid: i64, start: Option<i128>, end: Option<i128>) -> Option<
    StatementView,
> {
    let (from, to) = query_range(start, end);
    if from >= to {
        None
    } else {
        Some(
            StatementView {
                sql: "SELECT count(*) FROM events WHERE bucketrow = ? AND endtime >= ? AND starttime <= ?"@,
                params: seq![
                    SqlValueView::Integer(bid),
                    SqlValueView::Integer(from as i64),
                    SqlValueView::Integer(to as i64),
                ],
            },
        )
    }
}

/// The statement that counts the events of a bucket that overlap a range of time. There is none
/// if the range is empty: the count is 0 then.
pub fn query_event_count(bid: i64, start: Option<i128>, end: Option<i128>) -> (r: Option<Statement>)
    requires
        fits(start),
        fits(end),
    ensures
        optional_statement(r) == count_statement(bid, start, end),
{
    let (from, to) = range_of(start, end);
    if from >= to {
        return None;
    }
    let mut statement = Statement::new(
        "SELECT count(*) FROM events WHERE bucketrow = ? AND endtime >= ? AND starttime <= ?".to_string(),
    );
    statement.bind(SqlValue::Integer(bid));
    statement.bind(SqlValue::Integer(from));
    statement.bind(SqlValue::Integer(to));
    proof {
        assert(statement@.params =~= seq![
            SqlValueView::Integer(bid),
            SqlValueView::Integer(from),
            SqlValueView::Integer(to),
        ]);
    }
    Some(statement)
}

/// How the look-up of a row can end.
#[derive(Debug)]
pub enum RowError {
    /// The statement could not be prepared.
    Prepare(String),
    /// There is no such row.
    NoRows,
    /// Anything else that the database says.
    Other(String),
}

impl RowError {
    /// What the database says.
    pub open spec fn says(self) -> Seq<char> {
        match self {
            RowError::Prepare(reason) => reason@,
            RowError::NoRows => "Query returned no rows"@,
            RowError::Other(reason) => reason@,
        }
    }

    /// What the database says.
    pub fn text(self) -> (text: String)
        ensures
            text@ == self.says(),
    {
        match self {
            RowError::Prepare(reason) => reason,
            RowError::NoRows => "Query returned no rows".to_string(),
            RowError::Other(reason) => reason,
        }
    }
}

/// What is said of a statement that could not be prepared, or could not be run.
pub open spec fn statement_failure(what: Seq<char>, running: Seq<char>, error: RowError) -> Seq<char> {
    "Failed to "@ + (if error is Prepare {
        "prepare"@
    } else {
        running
    }) + " "@ + what + " SQL statement: "@ + error.says()
}

/// The error for a statement that could not be prepared, or could not be run.
pub fn statement_error(what: &str, running: &str, error: RowError) -> (e: DatastoreError)
    ensures
        e@ == DatastoreErrorView::InternalError(statement_failure(what@, running@, error)),
{
    let ghost expected = statement_failure(what@, running@, error);
    let mut text = "Failed to ".to_string();
    match &error {
        RowError::Prepare(_) => {
            text.append("prepare");
        },
        _ => {
            text.append(running);
        },
    }
    text.append(" ");
    text.append(what);
    text.append(" SQL statement: ");
    let reason = error.text();
    text.append(reason.as_str());
    proof {
        assert(text@ =~= expected);
    }
    DatastoreError::InternalError(text)
}

/// The statement that looks up the row of a bucket by its name.
pub open spec fn bid_statement(bucket_id: Seq<char>) -> StatementView {
    StatementView {
        sql: "SELECT id FROM buckets WHERE name = ?"@,
        params: seq![SqlValueView::Text(bucket_id)],
    }
}

/// The statement that looks up the row of a bucket by its name.
pub fn query_bid(bucket_id: &str) -> (statement: Statement)
    ensures
        statement@ == bid_statement(bucket_id@),
{
    let mut statement = Statement::new("SELECT id FROM buckets WHERE name = ?".to_string());
    statement.bind(SqlValue::Text(bucket_id.to_string()));
    proof {
        assert(statement@.params =~= seq![SqlValueView::Text(bucket_id@)]);
    }
    statement
}

/// What the look-up of a bucket gives.
pub fn found_bid(bucket_id: &str, row: Result<i64, RowError>) -> (r: Result<i64, DatastoreError>)
    ensures
        match row {
            Ok(bid) => r matches Ok(found) && found == bid,
            Err(RowError::NoRows) => r matches Err(e) && e@ == DatastoreErrorView::NoSuchBucket(
                bucket_id@,
            ),
            Err(RowError::Prepare(reason)) => r matches Err(e) && e@
                == DatastoreErrorView::InternalError(
                "Failed to prepare bucket id lookup: "@ + reason@,
            ),
            Err(RowError::Other(reason)) => r matches Err(e) && e@
                == DatastoreErrorView::InternalError(
                "Failed to look up bucket id for "@ + bucket_id@ + ": "@ + reason@,
            ),
        },
{
    match row {
        Ok(bid) => Ok(bid),
        Err(RowError::NoRows) => Err(DatastoreError::NoSuchBucket(bucket_id.to_string())),
        Err(RowError::Prepare(reason)) => Err(
            internal_error("Failed to prepare bucket id lookup: ", reason.as_str()),
        ),
        Err(RowError::Other(reason)) => {
            let mut doing = join("Failed to look up bucket id for ", bucket_id);
            doing.append(": ");
            Err(internal_error(doing.as_str(), reason.as_str()))
        },
    }
}

/// The row of an event.
#[derive(Debug)]
pub struct EventRow {
    pub id: i64,
    pub starttime: i64,
    pub endtime: i64,
    /// The data, or why it is not an object of JSON.
    pub data: Result<JsonMap, String>,
}

/// The start and the end of a row, moved into a range if it is to be clipped.
pub open spec fn row_span(
    starttime: int,
    endtime: int,
    clip_start: int,
    clip_end: int,
    clip: bool,
) -> (int, int) {
    (
        if clip && starttime < clip_start {
            clip_start
        } else {
            starttime
        },
        if clip && endtime > clip_end {
            clip_end
        } else {
            endtime
        },
    )
}

/// Whether an instant counted in nanoseconds since the Unix epoch can be taken apart into
/// seconds and a fraction that is not negative, without rounding down.
pub open spec fn splits_evenly(time: int) -> bool {
    time >= 0 || time % SECOND as int == 0
}

/// Whether the time is that of an event: its start can be taken apart, and its length counts its
/// nanoseconds in 64 bits.
pub open spec fn proper_span(span: (int, int)) -> bool {
    &&& i64::MIN <= span.1 - span.0 <= i64::MAX
    &&& splits_evenly(span.0)
}

/// Whether the row is that of an event. Of one whose data cannot be read, only the length
/// matters.
pub open spec fn proper_row(row: EventRow, clip_start: i64, clip_end: i64, clip: bool) -> bool {
    let span = row.span(clip_start, clip_end, clip);
    &&& i64::MIN <= span.1 - span.0 <= i64::MAX
    &&& row.data is Ok ==> splits_evenly(span.0)
}

/// The event of a row.
pub open spec fn row_event(id: i64, span: (int, int), data: Map<Seq<char>, JsonView>) -> EventView {
    EventView { id: Some(id), timestamp: span.0, duration: span.1 - span.0, data }
}

impl EventRow {
    /// The start and the end of the row, moved into a range if it is to be clipped.
    pub open spec fn span(self, clip_start: i64, clip_end: i64, clip: bool) -> (int, int) {
        row_span(
            self.starttime as int,
            self.endtime as int,
            clip_start as int,
            clip_end as int,
            clip,
        )
    }
}

/// What is left of a row that overlaps a range when it is clipped is the time that it shares
/// with the range. A row that is not clipped keeps its time.
pub proof fn law_clipped_rows_lie_in_the_range(
    starttime: int,
    endtime: int,
    clip_start: int,
    clip_end: int,
    t: int,
)
    requires
        starttime <= endtime,
        clip_start <= clip_end,
        clip_start <= endtime,
        starttime <= clip_end,
    ensures
        ({
            let (from, to) = row_span(starttime, endtime, clip_start, clip_end, true);
            &&& clip_start <= from <= to <= clip_end
            &&& from <= t < to <==> starttime <= t < endtime && clip_start <= t < clip_end
        }),
        row_span(starttime, endtime, clip_start, clip_end, false) == (starttime, endtime),
{
}

/// The event of a row. If it is to be clipped, its start and end are moved into the range.
pub fn event_from_row(row: EventRow, clip_start: i64, clip_end: i64, clip: bool) -> (r: Result<
    Event,
    String,
>)
    requires
        proper_row(row, clip_start, clip_end, clip),
    ensures
        match row.data {
            Ok(data) => r matches Ok(event) && event@ == row_event(
                row.id,
                row.span(clip_start, clip_end, clip),
                data@,
            ),
            Err(reason) => r matches Err(e) && e@ == "Invalid column name: invalid event data JSON: "@ + reason@,
        },
{
    let mut starttime: i64 = row.starttime;
    let mut endtime: i64 = row.endtime;
    if clip {
        if starttime < clip_start {
            starttime = clip_start;
        }
        if endtime > clip_end {
            endtime = clip_end;
        }
    }
    let duration: i64 = endtime - starttime;
    match row.data {
        Ok(data) => Ok(
            Event { id: Some(row.id), timestamp: starttime as i128, duration: duration as i128, data },
        ),
        Err(reason) => Err(join("Invalid column name: invalid event data JSON: ", reason.as_str())),
    }
}

/// The events of the rows that could be read.
pub open spec fn readable_events(
    rows: Seq<Result<EventRow, String>>,
    clip_start: i64,
    clip_end: i64,
    clip: bool,
) -> Seq<EventView>
    decreases rows.len(),
{
    if rows.len() == 0 {
        Seq::empty()
    } else {
        let earlier = readable_events(rows.drop_last(), clip_start, clip_end, clip);
        match rows.last() {
            Ok(row) => match row.data {
                Ok(data) => earlier.push(
                    row_event(row.id, row.span(clip_start, clip_end, clip), data@),
                ),
                Err(_) => earlier,
            },
            Err(_) => earlier,
        }
    }
}

/// Why the other rows could not be read.
pub open spec fn unreadable_rows(rows: Seq<Result<EventRow, String>>) -> Seq<Seq<char>>
    decreases rows.len(),
{
    if rows.len() == 0 {
        Seq::empty()
    } else {
        let earlier = unreadable_rows(rows.drop_last());
        match rows.last() {
            Ok(row) => match row.data {
                Ok(_) => earlier,
                Err(reason) => earlier.push("Invalid column name: invalid event data JSON: "@ + reason@),
            },
            Err(reason) => earlier.push(reason@),
        }
    }
}

/// Whether every row is that of an event.
pub open spec fn proper_rows(
    rows: Seq<Result<EventRow, String>>,
    clip_start: i64,
    clip_end: i64,
    clip: bool,
) -> bool {
    forall|i: int|
        0 <= i < rows.len() && rows[i] is Ok ==> proper_row(
            (#[trigger] rows[i])->Ok_0,
            clip_start,
            clip_end,
            clip,
        )
}

/// What rows give: the events of those that could be read, and why the others could not.
#[derive(Debug)]
pub struct ReadEvents {
    pub events: Vec<Event>,
    pub corrupt: Vec<String>,
}

/// The events of the rows, in their order. Rows that cannot be read are left out.
pub fn events_from_rows(
    rows: Vec<Result<EventRow, String>>,
    clip_start: i64,
    clip_end: i64,
    clip: bool,
) -> (r: ReadEvents)
    requires
        proper_rows(rows@, clip_start, clip_end, clip),
    ensures
        views(r.events@) == readable_events(rows@, clip_start, clip_end, clip),
        texts(r.corrupt@) == unreadable_rows(rows@),
{
    let mut events: Vec<Event> = Vec::new();
    let mut corrupt: Vec<String> = Vec::new();
    let ghost all = rows@;
    proof {
        assert(views(events@) =~= readable_events(all.take(0), clip_start, clip_end, clip));
        assert(texts(corrupt@) =~= unreadable_rows(all.take(0)));
    }
    for row in it: rows
        invariant
            it.seq() == all,
            proper_rows(all, clip_start, clip_end, clip),
            views(events@) == readable_events(all.take(it.index()), clip_start, clip_end, clip),
            texts(corrupt@) == unreadable_rows(all.take(it.index())),
    {
        let ghost before = views(events@);
        let ghost before_corrupt = texts(corrupt@);
        proof {
            let i = it.index();
            assert(row == all[i]);
            assert(all.take(i + 1).drop_last() =~= all.take(i));
            assert(all.take(i + 1).last() == row);
        }
        match row {
            Ok(row) => match event_from_row(row, clip_start, clip_end, clip) {
                Ok(event) => {
                    events.push(event);
                    proof {
                        assert(views(events@) =~= before.push(event@));
                    }
                },
                Err(reason) => {
                    corrupt.push(reason);
                    proof {
                        assert(texts(corrupt@) =~= before_corrupt.push(reason@));
                    }
                },
            },
            Err(reason) => {
                corrupt.push(reason);
                proof {
                    assert(texts(corrupt@) =~= before_corrupt.push(reason@));
                }
            },
        }
    }
    proof {
        assert(all.take(all.len() as int) =~= all);
    }
    ReadEvents { events, corrupt }
}

/// The event that a look-up gives.
pub fn found_event(row: Result<EventRow, RowError>) -> (r: Result<Event, DatastoreError>)
    requires
        row matches Ok(row) ==> proper_row(row, 0, 0, false),
    ensures
        match row {
            Ok(row) => match row.data {
                Ok(data) => r matches Ok(event) && event@ == row_event(
                    row.id,
                    row.span(0, 0, false),
                    data@,
                ),
                Err(reason) => r matches Err(e) && e@ == DatastoreErrorView::InternalError(
                    "Failed to map get_event SQL statement: "@ + (
                    "Invalid column name: invalid event data JSON: "@ + reason@),
                ),
            },
            Err(error) => r matches Err(e) && e@ == DatastoreErrorView::InternalError(
                statement_failure("get_event"@, "map"@, error),
            ),
        },
{
    match row {
        Ok(row) => match event_from_row(row, 0, 0, false) {
            Ok(event) => Ok(event),
            Err(reason) => Err(
                internal_error("Failed to map get_event SQL statement: ", reason.as_str()),
            ),
        },
        Err(error) => Err(statement_error("get_event", "map", error)),
    }
}

/// The events that a query gives, clipped or not. Rows that cannot be read are left out.
pub fn found_events(
    rows: Result<Vec<Result<EventRow, String>>, RowError>,
    clip_start: i64,
    clip_end: i64,
    clip: bool,
) -> (r: Result<ReadEvents, DatastoreError>)
    requires
        rows matches Ok(rows) ==> proper_rows(rows@, clip_start, clip_end, clip),
    ensures
        match rows {
            Ok(rows) => r matches Ok(read) && {
                &&& views(read.events@) == readable_events(rows@, clip_start, clip_end, clip)
                &&& texts(read.corrupt@) == unreadable_rows(rows@)
            },
            Err(error) => r matches Err(e) && e@ == DatastoreErrorView::InternalError(
                statement_failure("get_events"@, "map"@, error),
            ),
        },
{
    match rows {
        Ok(rows) => Ok(events_from_rows(rows, clip_start, clip_end, clip)),
        Err(error) => Err(statement_error("get_events", "map", error)),
    }
}

/// The number of events that a count gives.
pub fn found_count(row: Result<i64, RowError>) -> (r: Result<i64, DatastoreError>)
    ensures
        match row {
            Ok(n) => r matches Ok(count) && count == n,
            Err(error) => r matches Err(e) && e@ == DatastoreErrorView::InternalError(
                statement_failure("get_event_count"@, "query"@, error),
            ),
        },
{
    match row {
        Ok(n) => Ok(n),
        Err(error) => Err(statement_error("get_event_count", "query", error)),
    }
}

/// The row of a group of events.
#[derive(Debug)]
pub struct GroupRow {
    pub starttime: i64,
    pub duration: i64,
    /// The value that the events have in common.
    pub value: Option<String>,
}

/// The event for a group.
pub open spec fn group_event(row: GroupRow, group_by_key: Seq<char>) -> EventView {
    EventView {
        id: None,
        timestamp: row.starttime as int,
        duration: row.duration as int,
        data: Map::<Seq<char>, JsonView>::empty().insert(
            group_by_key,
            match row.value {
                Some(text) => JsonView::Text(text@),
                None => JsonView::Null,
            },
        ),
    }
}

/// The event for a group of events: the start of the first of them, the sum of their lengths,
/// and the value that they have in common.
pub fn grouped_event(starttime: i64, duration: i64, group_by_key: &str, group_val: Option<String>) -> (event:
    Event)
    requires
        splits_evenly(starttime as int),
    ensures
        event@ == group_event(
            GroupRow { starttime, duration, value: group_val },
            group_by_key@,
        ),
{
    let mut data = JsonMap::new();
    let value = match group_val {
        Some(text) => Json::Text(text),
        None => Json::Null,
    };
    data.insert(group_by_key.to_string(), value);
    Event { id: None, timestamp: starttime as i128, duration: duration as i128, data }
}

/// The events for the groups whose rows could be read.
pub open spec fn group_events(rows: Seq<Result<GroupRow, String>>, group_by_key: Seq<char>) -> Seq<
    EventView,
>
    decreases rows.len(),
{
    if rows.len() == 0 {
        Seq::empty()
    } else {
        let earlier = group_events(rows.drop_last(), group_by_key);
        match rows.last() {
            Ok(row) => earlier.push(group_event(row, group_by_key)),
            Err(_) => earlier,
        }
    }
}

/// Why rows could not be read.
pub open spec fn row_errors<T>(rows: Seq<Result<T, String>>) -> Seq<Seq<char>>
    decreases rows.len(),
{
    if rows.len() == 0 {
        Seq::empty()
    } else {
        let earlier = row_errors(rows.drop_last());
        match rows.last() {
            Ok(_) => earlier,
            Err(reason) => earlier.push(reason@),
        }
    }
}

/// The events for the groups that a query gives. Rows that cannot be read are left out.
pub fn found_groups(rows: Result<Vec<Result<GroupRow, String>>, RowError>, group_by_key: &str) -> (r:
    Result<ReadEvents, DatastoreError>)
    requires
        rows matches Ok(rows) ==> forall|i: int|
            0 <= i < rows@.len() && rows@[i] is Ok ==> splits_evenly(
                (#[trigger] rows@[i])->Ok_0.starttime as int,
            ),
    ensures
        match rows {
            Ok(rows) => r matches Ok(read) && {
                &&& views(read.events@) == group_events(rows@, group_by_key@)
                &&& texts(read.corrupt@) == row_errors(rows@)
            },
            Err(error) => r matches Err(e) && e@ == DatastoreErrorView::InternalError(
                statement_failure("query_events_grouped"@, "map"@, error),
            ),
        },
{
    let rows = match rows {
        Ok(rows) => rows,
        Err(error) => {
            return Err(statement_error("query_events_grouped", "map", error));
        },
    };
    let ghost all = rows@;
    let mut events: Vec<Event> = Vec::new();
    let mut corrupt: Vec<String> = Vec::new();
    proof {
        assert(views(events@) =~= group_events(all.take(0), group_by_key@));
        assert(texts(corrupt@) =~= row_errors(all.take(0)));
    }
    for row in it: rows
        invariant
            it.seq() == all,
            forall|i: int|
                0 <= i < all.len() && all[i] is Ok ==> splits_evenly(
                    (#[trigger] all[i])->Ok_0.starttime as int,
                ),
            views(events@) == group_events(all.take(it.index()), group_by_key@),
            texts(corrupt@) == row_errors(all.take(it.index())),
    {
        let ghost before = views(events@);
        let ghost before_corrupt = texts(corrupt@);
        proof {
            let i = it.index();
            assert(row == all[i]);
            assert(all.take(i + 1).drop_last() =~= all.take(i));
            assert(all.take(i + 1).last() == row);
        }
        match row {
            Ok(row) => {
                let event = grouped_event(row.starttime, row.duration, group_by_key, row.value);
                events.push(event);
                proof {
                    assert(views(events@) =~= before.push(event@));
                }
            },
            Err(reason) => {
                corrupt.push(reason);
                proof {
                    assert(texts(corrupt@) =~= before_corrupt.push(reason@));
                }
            },
        }
    }
    proof {
        assert(all.take(all.len() as int) =~= all);
    }
    Ok(ReadEvents { events, corrupt })
}

/// The event for the row of a part of an event.
pub open spec fn part_event(row: EventRow) -> EventView {
    row_event(
        row.id,
        row.span(0, 0, false),
        match row.data {
            Ok(data) => data@,
            Err(_) => Map::empty(),
        },
    )
}

/// The event for a part of an event. Data that cannot be read counts as empty.
pub fn intersected_event(row: EventRow) -> (event: Event)
    requires
        proper_span(row.span(0, 0, false)),
    ensures
        event@ == part_event(row),
{
    let data = match row.data {
        Ok(data) => data,
        Err(_) => JsonMap::new(),
    };
    let duration: i64 = row.endtime - row.starttime;
    Event {
        id: Some(row.id),
        timestamp: row.starttime as i128,
        duration: duration as i128,
        data,
    }
}

/// The events for the parts whose rows could be read.
pub open spec fn part_events(rows: Seq<Result<EventRow, String>>) -> Seq<EventView>
    decreases rows.len(),
{
    if rows.len() == 0 {
        Seq::empty()
    } else {
        let earlier = part_events(rows.drop_last());
        match rows.last() {
            Ok(row) => earlier.push(part_event(row)),
            Err(_) => earlier,
        }
    }
}

/// The events for the parts that a query gives. Rows that cannot be read are left out; data that
/// cannot be read counts as empty.
pub fn found_intersections(rows: Result<Vec<Result<EventRow, String>>, RowError>) -> (r: Result<
    ReadEvents,
    DatastoreError,
>)
    requires
        rows matches Ok(rows) ==> forall|i: int|
            0 <= i < rows@.len() && rows@[i] is Ok ==> proper_span(
                (#[trigger] rows@[i])->Ok_0.span(0, 0, false),
            ),
    ensures
        match rows {
            Ok(rows) => r matches Ok(read) && {
                &&& views(read.events@) == part_events(rows@)
                &&& texts(read.corrupt@) == row_errors(rows@)
            },
            Err(error) => r matches Err(e) && e@ == DatastoreErrorView::InternalError(
                statement_failure("query_events_intersected"@, "map"@, error),
            ),
        },
{
    let rows = match rows {
        Ok(rows) => rows,
        Err(error) => {
            return Err(statement_error("query_events_intersected", "map", error));
        },
    };
    let ghost all = rows@;
    let mut events: Vec<Event> = Vec::new();
    let mut corrupt: Vec<String> = Vec::new();
    proof {
        assert(views(events@) =~= part_events(all.take(0)));
        assert(texts(corrupt@) =~= row_errors(all.take(0)));
    }
    for row in it: rows
        invariant
            it.seq() == all,
            forall|i: int|
                0 <= i < all.len() && all[i] is Ok ==> proper_span(
                    (#[trigger] all[i])->Ok_0.span(0, 0, false),
                ),
            views(events@) == part_events(all.take(it.index())),
            texts(corrupt@) == row_errors(all.take(it.index())),
    {
        let ghost before = views(events@);
        let ghost before_corrupt = texts(corrupt@);
        proof {
            let i = it.index();
            assert(row == all[i]);
            assert(all.take(i + 1).drop_last() =~= all.take(i));
            assert(all.take(i + 1).last() == row);
        }
        match row {
            Ok(row) => {
                let event = intersected_event(row);
                events.push(event);
                proof {
                    assert(views(events@) =~= before.push(event@));
                }
            },
            Err(reason) => {
                corrupt.push(reason);
                proof {
                    assert(texts(corrupt@) =~= before_corrupt.push(reason@));
                }
            },
        }
    }
    proof {
        assert(all.take(all.len() as int) =~= all);
    }
    Ok(ReadEvents { events, corrupt })
}

/// The tables whose rows are numbered, each with the sequence that its numbers come from.
pub fn numbered_tables() -> (tables: Vec<(String, String)>)
    ensures
        tables@.map_values(|t: (String, String)| (t.0@, t.1@)) == seq![
            ("seq_bucket_id"@, "buckets"@),
            ("seq_event_id"@, "events"@),
        ],
{
    let mut tables: Vec<(String, String)> = Vec::new();
    tables.push(("seq_bucket_id".to_string(), "buckets".to_string()));
    tables.push(("seq_event_id".to_string(), "events".to_string()));
    proof {
        assert(tables@.map_values(|t: (String, String)| (t.0@, t.1@)) =~= seq![
            ("seq_bucket_id"@, "buckets"@),
            ("seq_event_id"@, "events"@),
        ]);
    }
    tables
}

/// The statement that reads the largest number of a table.
pub open spec fn largest_statement(table: Seq<char>) -> StatementView {
    StatementView { sql: "SELECT coalesce(max(id), 0) FROM "@ + table, params: Seq::empty() }
}

/// The statement that reads the largest number of a table.
pub fn max_id_statement(table: &str) -> (statement: Statement)
    ensures
        statement@ == largest_statement(table@),
{
    Statement::new(join("SELECT coalesce(max(id), 0) FROM ", table))
}

/// What an error that concerns a table or a sequence says.
pub open spec fn named_failure(doing: Seq<char>, name: Seq<char>, reason: Seq<char>) -> Seq<char> {
    doing + name + ": "@ + reason
}

fn named_error(doing: &str, name: &str, reason: &str) -> (e: DatastoreError)
    ensures
        e@ == DatastoreErrorView::InternalError(named_failure(doing@, name@, reason@)),
{
    let mut text = join(doing, name);
    text.append(": ");
    internal_error(text.as_str(), reason)
}

/// The largest number of a table, by what the database says.
pub fn found_max_id(table: &str, row: Result<i64, String>) -> (r: Result<i64, DatastoreError>)
    ensures
        match row {
            Ok(n) => r matches Ok(max_id) && max_id == n,
            Err(reason) => r matches Err(e) && e@ == DatastoreErrorView::InternalError(
                named_failure("Failed to read max id from "@, table@, reason@),
            ),
        },
{
    match row {
        Ok(n) => Ok(n),
        Err(reason) => Err(named_error("Failed to read max id from ", table, reason.as_str())),
    }
}

/// The statement that takes the next number of the sequence for a table with this largest
/// number. There is none if the table is empty: the sequence starts with the first number then.
pub fn nextval_statement(sequence: &str, max_id: i64) -> (r: Option<Statement>)
    ensures
        optional_statement(r) == if max_id == 0 {
            None
        } else {
            Some(
                StatementView {
                    sql: "SELECT nextval('"@ + sequence@ + "')"@,
                    params: Seq::empty(),
                },
            )
        },
{
    if max_id == 0 {
        return None;
    }
    let mut sql = join("SELECT nextval('", sequence);
    sql.append("')");
    Some(Statement::new(sql))
}

/// The number that a sequence gives, by what the database says.
pub fn found_number(sequence: &str, row: Result<i64, String>) -> (r: Result<i64, DatastoreError>)
    ensures
        match row {
            Ok(n) => r matches Ok(number) && number == n,
            Err(reason) => r matches Err(e) && e@ == DatastoreErrorView::InternalError(
                named_failure("Failed to read sequence "@, sequence@, reason@),
            ),
        },
{
    match row {
        Ok(n) => Ok(n),
        Err(reason) => Err(named_error("Failed to read sequence ", sequence, reason.as_str())),
    }
}

/// Takes what the database says to the statement that advances a sequence.
pub fn sequence_advanced(sequence: &str, outcome: Result<(), String>) -> (r: Result<
    (),
    DatastoreError,
>)
    ensures
        match outcome {
            Ok(_) => r is Ok,
            Err(reason) => r matches Err(e) && e@ == DatastoreErrorView::InternalError(
                named_failure("Failed to advance sequence "@, sequence@, reason@),
            ),
        },
{
    match outcome {
        Ok(_) => Ok(()),
        Err(reason) => Err(named_error("Failed to advance sequence ", sequence, reason.as_str())),
    }
}

/// How many more numbers have to be taken from a sequence, the last of which was `current`,
/// so that the next one is larger than every number of the table.
pub open spec fn missing_numbers(max_id: int, current: int) -> int {
    if current < max_id {
        max_id - current
    } else {
        0
    }
}

/// The statement that takes the numbers of a sequence that the table holds already, given the
/// largest number of the table and the number that the sequence gave last. There is none if
/// the sequence is past them.
pub fn advance_statement(sequence: &str, max_id: i64, current: i64) -> (r: Option<Statement>)
    requires
        max_id - current <= i64::MAX,
    ensures
        optional_statement(r) == if missing_numbers(max_id as int, current as int) > 0 {
            Some(
                StatementView {
                    sql: "SELECT nextval('"@ + sequence@ + "') FROM range("@ + crate::text::decimal(
                        missing_numbers(max_id as int, current as int) as nat,
                    ) + ");"@,
                    params: Seq::empty(),
                },
            )
        } else {
            None
        },
{
    if current < max_id {
        let mut sql = join("SELECT nextval('", sequence);
        sql.append("') FROM range(");
        let count = crate::text::decimal_text((max_id - current) as u128);
        sql.append(count.as_str());
        sql.append(");");
        Some(Statement::new(sql))
    } else {
        None
    }
}

/// A sequence that has been advanced gives a number next that the table does not hold, and that
/// is not larger than it has to be if the sequence was behind.
pub proof fn law_advanced_sequence_is_past_the_table(max_id: int, current: int)
    ensures
        ({
            let next = current + missing_numbers(max_id, current) + 1;
            &&& next > max_id
            &&& current < max_id ==> next == max_id + 1
        }),
{
}

/// The statements that create the tables that are not there yet. Numbers come from sequences;
/// times are stored in nanoseconds since the Unix epoch, data as JSON.
pub fn create_tables() -> (sql: String)
    ensures
        sql@ == "CREATE SEQUENCE IF NOT EXISTS seq_bucket_id START 1; CREATE TABLE IF NOT EXISTS buckets (id BIGINT PRIMARY KEY DEFAULT nextval('seq_bucket_id'), name VARCHAR UNIQUE NOT NULL, \"type\" VARCHAR NOT NULL, client VARCHAR NOT NULL, hostname VARCHAR NOT NULL, created VARCHAR NOT NULL, data VARCHAR NOT NULL DEFAULT '{}'); CREATE SEQUENCE IF NOT EXISTS seq_event_id START 1; CREATE TABLE IF NOT EXISTS events (id BIGINT PRIMARY KEY DEFAULT nextval('seq_event_id'), bucketrow BIGINT NOT NULL, starttime BIGINT NOT NULL, endtime BIGINT NOT NULL, data VARCHAR NOT NULL); CREATE TABLE IF NOT EXISTS key_value (key VARCHAR PRIMARY KEY, value VARCHAR, last_modified BIGINT NOT NULL); CREATE INDEX IF NOT EXISTS events_bucketrow_starttime ON events (bucketrow, starttime, endtime);"@,
{
    "CREATE SEQUENCE IF NOT EXISTS seq_bucket_id START 1; CREATE TABLE IF NOT EXISTS buckets (id BIGINT PRIMARY KEY DEFAULT nextval('seq_bucket_id'), name VARCHAR UNIQUE NOT NULL, \"type\" VARCHAR NOT NULL, client VARCHAR NOT NULL, hostname VARCHAR NOT NULL, created VARCHAR NOT NULL, data VARCHAR NOT NULL DEFAULT '{}'); CREATE SEQUENCE IF NOT EXISTS seq_event_id START 1; CREATE TABLE IF NOT EXISTS events (id BIGINT PRIMARY KEY DEFAULT nextval('seq_event_id'), bucketrow BIGINT NOT NULL, starttime BIGINT NOT NULL, endtime BIGINT NOT NULL, data VARCHAR NOT NULL); CREATE TABLE IF NOT EXISTS key_value (key VARCHAR PRIMARY KEY, value VARCHAR, last_modified BIGINT NOT NULL); CREATE INDEX IF NOT EXISTS events_bucketrow_starttime ON events (bucketrow, starttime, endtime);".to_string()
}

/// The statement that counts the tables of buckets: none in a database that is not set up.
pub fn tables_exist() -> (statement: Statement)
    ensures
        statement@ == (StatementView {
            sql: "SELECT count(*) FROM information_schema.tables WHERE table_name = 'buckets'"@,
            params: Seq::empty(),
        }),
{
    Statement::new(
        "SELECT count(*) FROM information_schema.tables WHERE table_name = 'buckets'".to_string(),
    )
}

/// The statement that reads all buckets, with the time that their events span.
pub open spec fn buckets_statement() -> StatementView {
    StatementView {
        sql: "SELECT buckets.id, buckets.name, buckets.\"type\", buckets.client, buckets.hostname, buckets.created, min(events.starttime), max(events.endtime), buckets.data FROM buckets LEFT OUTER JOIN events ON buckets.id = events.bucketrow GROUP BY ALL"@,
        params: Seq::empty(),
    }
}

/// The statement that reads all buckets, with the time that their events span.
pub fn stored_buckets() -> (statement: Statement)
    ensures
        statement@ == buckets_statement(),
{
    Statement::new(
        "SELECT buckets.id, buckets.name, buckets.\"type\", buckets.client, buckets.hostname, buckets.created, min(events.starttime), max(events.endtime), buckets.data FROM buckets LEFT OUTER JOIN events ON buckets.id = events.bucketrow GROUP BY ALL".to_string(),
    )
}

/// Rows are read one by one: what comes of some rows and of others comes of all of them, in order.
pub proof fn law_rows_are_read_one_by_one(
    a: Seq<Result<EventRow, String>>,
    b: Seq<Result<EventRow, String>>,
    clip_start: i64,
    clip_end: i64,
    clip: bool,
)
    ensures
        readable_events(a + b, clip_start, clip_end, clip) == readable_events(
            a,
            clip_start,
            clip_end,
            clip,
        ) + readable_events(b, clip_start, clip_end, clip),
        unreadable_rows(a + b) == unreadable_rows(a) + unreadable_rows(b),
        part_events(a + b) == part_events(a) + part_events(b),
    decreases b.len(),
{
    if b.len() == 0 {
        assert(a + b =~= a);
        assert(readable_events(a, clip_start, clip_end, clip) + Seq::<EventView>::empty()
            =~= readable_events(a, clip_start, clip_end, clip));
        assert(unreadable_rows(a) + Seq::<Seq<char>>::empty() =~= unreadable_rows(a));
        assert(part_events(a) + Seq::<EventView>::empty() =~= part_events(a));
    } else {
        let head = b.drop_last();
        law_rows_are_read_one_by_one(a, head, clip_start, clip_end, clip);
        assert((a + b).drop_last() =~= a + head);
        assert((a + b).last() == b.last());
        assert(readable_events(a + b, clip_start, clip_end, clip) =~= readable_events(
            a,
            clip_start,
            clip_end,
            clip,
        ) + readable_events(b, clip_start, clip_end, clip));
        assert(unreadable_rows(a + b) =~= unreadable_rows(a) + unreadable_rows(b));
        assert(part_events(a + b) =~= part_events(a) + part_events(b));
    }
}

/// A row is read as one event, with its number and its data, or it is reported; never both. The
/// event starts and ends where the row does, unless it is clipped. Of a part of an event whose
/// data cannot be read, the time is kept.
pub proof fn law_row_is_read_or_reported(
    row: Result<EventRow, String>,
    clip_start: i64,
    clip_end: i64,
    clip: bool,
)
    ensures
        ({
            let events = readable_events(seq![row], clip_start, clip_end, clip);
            let reported = unreadable_rows(seq![row]);
            let parts = part_events(seq![row]);
            match row {
                Ok(row) => {
                    &&& parts.len() == 1
                    &&& parts[0].id == Some(row.id)
                    &&& parts[0].timestamp == row.starttime
                    &&& parts[0].end() == row.endtime
                    &&& match row.data {
                        Ok(data) => {
                            &&& events.len() == 1 && reported.len() == 0
                            &&& events[0].id == Some(row.id)
                            &&& events[0].data == data@
                            &&& !clip ==> events[0].timestamp == row.starttime && events[0].end()
                                == row.endtime
                            &&& parts[0].data == data@
                        },
                        Err(_) => {
                            &&& events.len() == 0 && reported.len() == 1
                            &&& parts[0].data == Map::<Seq<char>, JsonView>::empty()
                        },
                    }
                },
                Err(reason) => events.len() == 0 && reported == seq![reason@] && parts.len() == 0,
            }
        }),
{
    let rows = seq![row];
    assert(rows.drop_last() =~= Seq::<Result<EventRow, String>>::empty());
    assert(rows.last() == row);
    reveal_with_fuel(readable_events, 2);
    reveal_with_fuel(unreadable_rows, 2);
    reveal_with_fuel(part_events, 2);
    if let Err(reason) = row {
        assert(unreadable_rows(rows) =~= seq![reason@]);
    }
}

/// The rows of groups are read one by one. Each that can be read becomes an event without a number,
/// with the start and the length of the row, and its value, or null, under the key and nothing
/// else.
pub proof fn law_group_rows_are_read_one_by_one(
    a: Seq<Result<GroupRow, String>>,
    row: Result<GroupRow, String>,
    key: Seq<char>,
)
    ensures
        match row {
            Ok(row) => {
                let events = group_events(a.push(Ok(row)), key);
                &&& events.len() == group_events(a, key).len() + 1
                &&& events.drop_last() == group_events(a, key)
                &&& events.last().id is None
                &&& events.last().timestamp == row.starttime
                &&& events.last().duration == row.duration
                &&& events.last().data.dom() == set![key]
                &&& events.last().data[key] == match row.value {
                    Some(text) => JsonView::Text(text@),
                    None => JsonView::Null,
                }
            },
            Err(reason) => group_events(a.push(Err(reason)), key) == group_events(a, key),
        },
{
    assert(a.push(row).drop_last() =~= a);
    if let Ok(row) = row {
        let events = group_events(a.push(Ok(row)), key);
        assert(events.drop_last() =~= group_events(a, key));
        assert(events.last().data.dom() =~= set![key]);
    }
}

/// A query without a start begins with the Unix epoch, and one without an end has none that could be
/// counted in nanoseconds; what is given is kept.
pub proof fn law_missing_bounds_leave_the_range_open(
    start: Option<i128>,
    end: Option<i128>,
    t: i64,
)
    ensures
        query_range(start, end).0 <= t <==> match start {
            Some(start) => start <= t,
            None => 0 <= t,
        },
        t <= query_range(start, end).1 <==> match end {
            Some(end) => t <= end,
            None => true,
        },
{
}

/// A text is compared as it is, whatever JSON makes of it, and nothing as the empty text. Any other
/// value is compared as JSON writes it.
pub proof fn law_values_are_compared_by_their_text(value: JsonView, written: Seq<char>)
    ensures
        value matches JsonView::Text(text) ==> comparable(value, written) == text,
        value is Null ==> comparable(value, written).len() == 0,
        value !is Text && value !is Null ==> comparable(value, written) == written,
{
}

/// A failure names the statement, whether it already failed to be prepared, and the reason that
/// the database gave.
pub proof fn law_failure_names_its_statement(what: Seq<char>, running: Seq<char>, error: RowError)
    ensures
        ({
            let message = statement_failure(what, running, error);
            &&& error matches RowError::Prepare(reason) ==> message == "Failed to prepare "@ + what
                + " SQL statement: "@ + reason@
            &&& error matches RowError::Other(reason) ==> message == "Failed to "@ + running + " "@
                + what + " SQL statement: "@ + reason@
            &&& error is NoRows ==> message == "Failed to "@ + running + " "@ + what
                + " SQL statement: Query returned no rows"@
        }),
{
    match error {
        RowError::Prepare(reason) => {
            reveal_strlit("Failed to ");
            reveal_strlit("prepare");
            reveal_strlit(" ");
            reveal_strlit("Failed to prepare ");
            assert("Failed to "@ + "prepare"@ + " "@ =~= "Failed to prepare "@);
        },
        RowError::NoRows => {
            reveal_strlit(" SQL statement: ");
            reveal_strlit("Query returned no rows");
            reveal_strlit(" SQL statement: Query returned no rows");
            assert(" SQL statement: "@ + "Query returned no rows"@
                =~= " SQL statement: Query returned no rows"@);
            let front = "Failed to "@ + running + " "@ + what;
            assert(front + " SQL statement: "@ + "Query returned no rows"@ =~= front
                + " SQL statement: Query returned no rows"@);
        },
        RowError::Other(_) => {},
    }
}

} // verus!
