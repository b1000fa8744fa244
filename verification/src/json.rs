//! JSON values, as the data of events and buckets holds them.

use vstd::prelude::*;

verus! {

/// A JSON value. A number is held as its text.
#[derive(Debug)]
pub enum Json {
    Null,
    Bool(bool),
    Number(String),
    Text(String),
    Array(Vec<Json>),
    Object(JsonMap),
}

/// A JSON object: names with their values. Where a name stands twice, the later
/// entry counts.
#[derive(Debug)]
pub struct JsonMap {
    pub entries: Vec<(String, Json)>,
}

/// What a [`Json`] stands for.
pub enum JsonView {
    Null,
    Bool(bool),
    Number(Seq<char>),
    Text(Seq<char>),
    Array(Seq<JsonView>),
    Object(Map<Seq<char>, JsonView>),
}

pub open spec fn json_view(json: Json) -> JsonView
    decreases json,
{
    match json {
        Json::Null => JsonView::Null,
        Json::Bool(b) => JsonView::Bool(b),
        Json::Number(n) => JsonView::Number(n@),
        Json::Text(s) => JsonView::Text(s@),
        Json::Array(items) => JsonView::Array(list_view(items@)),
        Json::Object(map) => JsonView::Object(object_view(map.entries@)),
    }
}

pub open spec fn list_view(items: Seq<Json>) -> Seq<JsonView>
    decreases items,
{
    if items.len() == 0 {
        Seq::empty()
    } else {
        list_view(items.drop_last()).push(json_view(items.last()))
    }
}

pub open spec fn object_view(entries: Seq<(String, Json)>) -> Map<Seq<char>, JsonView>
    decreases entries,
{
    if entries.len() == 0 {
        Map::empty()
    } else {
        object_view(entries.drop_last()).insert(
            entries.last().0@,
            json_view(entries.last().1),
        )
    }
}

/// A number as it is written, but for a negative zero, which is written as zero.
pub open spec fn unsigned_zero(number: Seq<char>) -> Seq<char> {
    if number == "-0.0"@ {
        "0.0"@
    } else {
        number
    }
}

/// A value with every negative zero in it replaced by zero.
pub open spec fn leveled(json: JsonView) -> JsonView
    decreases json,
{
    match json {
        JsonView::Number(n) => JsonView::Number(unsigned_zero(n)),
        JsonView::Array(items) => JsonView::Array(
            Seq::new(
                items.len(),
                |i: int|
                    if 0 <= i < items.len() {
                        leveled(items[i])
                    } else {
                        JsonView::Null
                    },
            ),
        ),
        JsonView::Object(map) => JsonView::Object(
            Map::new(
                |name: Seq<char>| map.contains_key(name),
                |name: Seq<char>|
                    if map.contains_key(name) {
                        leveled(map[name])
                    } else {
                        JsonView::Null
                    },
            ),
        ),
        _ => json,
    }
}

/// An object with every negative zero in it replaced by zero.
pub open spec fn leveled_data(data: Map<Seq<char>, JsonView>) -> Map<Seq<char>, JsonView> {
    data.map_values(|value: JsonView| leveled(value))
}

/// Whether two values are equal. A negative zero is equal to zero; but for that, values are
/// equal that are written alike.
pub open spec fn equal(a: JsonView, b: JsonView) -> bool {
    leveled(a) == leveled(b)
}

/// Whether two objects are equal: they have the same names with equal values.
pub open spec fn equal_data(a: Map<Seq<char>, JsonView>, b: Map<Seq<char>, JsonView>) -> bool {
    leveled_data(a) == leveled_data(b)
}

/// What counts of a value when it is compared: all of it, or all but the sign of a zero.
spec fn judged(json: JsonView, signed: bool) -> JsonView {
    if signed {
        json
    } else {
        leveled(json)
    }
}

/// What counts of an object when it is compared.
spec fn judged_data(data: Map<Seq<char>, JsonView>, signed: bool) -> Map<Seq<char>, JsonView> {
    if signed {
        data
    } else {
        leveled_data(data)
    }
}

proof fn lemma_leveled_object(map: Map<Seq<char>, JsonView>)
    ensures
        leveled(JsonView::Object(map)) == JsonView::Object(leveled_data(map)),
{
    assert(leveled(JsonView::Object(map))->Object_0 =~= leveled_data(map));
}

proof fn lemma_leveled_list(items: Seq<JsonView>)
    ensures
        leveled(JsonView::Array(items)) == JsonView::Array(
            items.map_values(|item: JsonView| leveled(item)),
        ),
{
    assert(leveled(JsonView::Array(items))->Array_0 =~= items.map_values(
        |item: JsonView| leveled(item),
    ));
}

impl View for Json {
    type V = JsonView;

    open spec fn view(&self) -> JsonView {
        json_view(*self)
    }
}

impl View for JsonMap {
    type V = Map<Seq<char>, JsonView>;

    open spec fn view(&self) -> Map<Seq<char>, JsonView> {
        object_view(self.entries@)
    }
}

/// A list of values stands for the list of what they stand for.
pub(crate) proof fn lemma_list_view(items: Seq<Json>)
    ensures
        list_view(items).len() == items.len(),
        forall|i: int| 0 <= i < items.len() ==> #[trigger] list_view(items)[i] == items[i]@,
    decreases items.len(),
{
    if items.len() > 0 {
        lemma_list_view(items.drop_last());
    }
}

/// The value of `name` is that of its last entry.
proof fn lemma_object_view_last(entries: Seq<(String, Json)>, name: Seq<char>, at: int)
    requires
        0 <= at < entries.len(),
        entries[at].0@ == name,
        forall|i: int| at < i < entries.len() ==> (#[trigger] entries[i]).0@ != name,
    ensures
        object_view(entries).contains_key(name),
        object_view(entries)[name] == json_view(entries[at].1),
    decreases entries.len(),
{
    if at < entries.len() - 1 {
        lemma_object_view_last(entries.drop_last(), name, at);
    }
}

proof fn lemma_object_view_absent(entries: Seq<(String, Json)>, name: Seq<char>)
    requires
        forall|i: int| 0 <= i < entries.len() ==> (#[trigger] entries[i]).0@ != name,
    ensures
        !object_view(entries).contains_key(name),
    decreases entries.len(),
{
    if entries.len() > 0 {
        lemma_object_view_absent(entries.drop_last(), name);
    }
}

/// Every name of the object is that of some entry.
proof fn lemma_object_view_present(entries: Seq<(String, Json)>, name: Seq<char>)
    requires
        object_view(entries).contains_key(name),
    ensures
        exists|i: int| 0 <= i < entries.len() && (#[trigger] entries[i]).0@ == name,
{
    if forall|i: int| 0 <= i < entries.len() ==> (#[trigger] entries[i]).0@ != name {
        lemma_object_view_absent(entries, name);
    }
}

/// Changing the last entry of a name changes its value and nothing else.
proof fn lemma_object_view_update(entries: Seq<(String, Json)>, at: int, entry: (String, Json))
    requires
        0 <= at < entries.len(),
        entries[at].0@ == entry.0@,
        forall|i: int| at < i < entries.len() ==> (#[trigger] entries[i]).0@ != entry.0@,
    ensures
        object_view(entries.update(at, entry)) == object_view(entries).insert(
            entry.0@,
            json_view(entry.1),
        ),
    decreases entries.len(),
{
    let changed = entries.update(at, entry);
    if at == entries.len() - 1 {
        assert(changed.drop_last() =~= entries.drop_last());
    } else {
        lemma_object_view_update(entries.drop_last(), at, entry);
        assert(changed.drop_last() =~= entries.drop_last().update(at, entry));
    }
    assert(object_view(changed) =~= object_view(entries).insert(entry.0@, json_view(entry.1)));
}

impl Json {
    /// Whether the two values are written alike.
    pub fn same(&self, other: &Json) -> (same: bool)
        ensures
            same == (self@ == other@),
    {
        self.matches(other, true)
    }

    /// Whether the two values are equal.
    pub fn equals(&self, other: &Json) -> (r: bool)
        ensures
            r == equal(self@, other@),
    {
        self.matches(other, false)
    }

    /// Whether the two values match, with the sign of a zero or without it.
    fn matches(&self, other: &Json, signed: bool) -> (r: bool)
        ensures
            r == (judged(self@, signed) == judged(other@, signed)),
        decreases *self,
    {
        match (self, other) {
            (Json::Null, Json::Null) => true,
            (Json::Bool(a), Json::Bool(b)) => *a == *b,
            (Json::Number(a), Json::Number(b)) => {
                if *a == *b {
                    return true;
                }
                if signed {
                    return false;
                }
                let zero = "0.0".to_string();
                let negative = "-0.0".to_string();
                (*a == zero || *a == negative) && (*b == zero || *b == negative)
            },
            (Json::Text(a), Json::Text(b)) => *a == *b,
            (Json::Array(a), Json::Array(b)) => {
                proof {
                    lemma_list_view(a@);
                    lemma_list_view(b@);
                    lemma_leveled_list(list_view(a@));
                    lemma_leveled_list(list_view(b@));
                }
                let ghost level = |item: JsonView| leveled(item);
                let ghost la = list_view(a@);
                let ghost lb = list_view(b@);
                if a.len() != b.len() {
                    assert(la.map_values(level).len() != lb.map_values(level).len());
                    return false;
                }
                let mut i: usize = 0;
                while i < a.len()
                    invariant
                        i <= a.len(),
                        a.len() == b.len(),
                        *self == Json::Array(*a),
                        *other == Json::Array(*b),
                        la == list_view(a@),
                        lb == list_view(b@),
                        la.len() == a.len(),
                        lb.len() == b.len(),
                        level == (|item: JsonView| leveled(item)),
                        leveled(self@) == JsonView::Array(la.map_values(level)),
                        leveled(other@) == JsonView::Array(lb.map_values(level)),
                        forall|k: int| 0 <= k < a.len() ==> #[trigger] la[k] == json_view(a@[k]),
                        forall|k: int| 0 <= k < b.len() ==> #[trigger] lb[k] == json_view(b@[k]),
                        forall|k: int|
                            0 <= k < i ==> judged(#[trigger] la[k], signed) == judged(lb[k], signed),
                    decreases a.len() - i,
                {
                    assert(decreases_to!(*self => a@[i as int])) by {
                        assert(decreases_to!(*self => a@));
                    }
                    if !a[i].matches(&b[i], signed) {
                        assert(judged(la[i as int], signed) != judged(lb[i as int], signed));
                        assert(la.map_values(level)[i as int] == leveled(la[i as int]));
                        assert(lb.map_values(level)[i as int] == leveled(lb[i as int]));
                        return false;
                    }
                    i += 1;
                }
                proof {
                    if signed {
                        assert forall|k: int| 0 <= k < la.len() implies la[k] == lb[k] by {
                            assert(judged(la[k], signed) == judged(lb[k], signed));
                        }
                        assert(la =~= lb);
                    } else {
                        assert forall|k: int| 0 <= k < la.len() implies la.map_values(level)[k]
                            == lb.map_values(level)[k] by {
                            assert(judged(la[k], signed) == judged(lb[k], signed));
                        }
                        assert(la.map_values(level) =~= lb.map_values(level));
                    }
                }
                true
            },
            (Json::Object(a), Json::Object(b)) => {
                proof {
                    lemma_leveled_object(a@);
                    lemma_leveled_object(b@);
                }
                a.matches(b, signed)
            },
            _ => false,
        }
    }

    pub fn copy(&self) -> (copied: Json)
        ensures
            copied@ == self@,
        decreases *self,
    {
        match self {
            Json::Null => Json::Null,
            Json::Bool(b) => Json::Bool(*b),
            Json::Number(n) => Json::Number(n.clone()),
            Json::Text(s) => Json::Text(s.clone()),
            Json::Array(items) => {
                let mut copies: Vec<Json> = Vec::new();
                let mut i: usize = 0;
                while i < items.len()
                    invariant
                        i <= items.len(),
                        *self == Json::Array(*items),
                        list_view(copies@) == list_view(items@.take(i as int)),
                    decreases items.len() - i,
                {
                    assert(decreases_to!(*self => items@[i as int])) by {
                        assert(decreases_to!(*self => self->Array_0));
                        assert(decreases_to!(*self => items@));
                    }
                    let item = items[i].copy();
                    let ghost before = copies@;
                    copies.push(item);
                    proof {
                        assert(copies@.drop_last() =~= before);
                        assert(items@.take(i + 1).drop_last() =~= items@.take(i as int));
                    }
                    i += 1;
                }
                assert(items@.take(items.len() as int) =~= items@);
                Json::Array(copies)
            },
            Json::Object(map) => Json::Object(map.copy()),
        }
    }
}

impl JsonMap {
    /// The object without names.
    pub fn new() -> (map: JsonMap)
        ensures
            map@ == Map::<Seq<char>, JsonView>::empty(),
    {
        JsonMap { entries: Vec::new() }
    }

    /// The position of the entry that counts for `name`.
    fn position(&self, name: &str) -> (at: Option<usize>)
        ensures
            at is Some <==> self@.contains_key(name@),
            at matches Some(at) ==> {
                &&& at < self.entries@.len()
                &&& self.entries@[at as int].0@ == name@
                &&& json_view(self.entries@[at as int].1) == self@[name@]
                &&& forall|i: int|
                    at < i < self.entries@.len() ==> (#[trigger] self.entries@[i]).0@ != name@
            },
    {
        let wanted: String = name.to_string();
        let mut i: usize = self.entries.len();
        while i > 0
            invariant
                i <= self.entries@.len(),
                wanted@ == name@,
                forall|k: int|
                    i <= k < self.entries@.len() ==> (#[trigger] self.entries@[k]).0@ != name@,
            decreases i,
        {
            i -= 1;
            if self.entries[i].0 == wanted {
                proof {
                    lemma_object_view_last(self.entries@, name@, i as int);
                }
                return Some(i);
            }
        }
        proof {
            lemma_object_view_absent(self.entries@, name@);
        }
        None
    }

    /// The value of `name`.
    pub fn get(&self, name: &str) -> (value: Option<&Json>)
        ensures
            value is Some <==> self@.contains_key(name@),
            value matches Some(value) ==> value@ == self@[name@],
    {
        match self.position(name) {
            Some(at) => Some(&self.entries[at].1),
            None => None,
        }
    }

    /// Give `name` the value, in place of one that it may have had.
    pub fn insert(&mut self, name: String, value: Json)
        ensures
            final(self)@ == old(self)@.insert(name@, value@),
    {
        match self.position(name.as_str()) {
            Some(at) => {
                proof {
                    lemma_object_view_update(self.entries@, at as int, (name, value));
                }
                self.entries.set(at, (name, value));
            },
            None => {
                let ghost before = self.entries@;
                self.entries.push((name, value));
                assert(self.entries@.drop_last() =~= before);
            },
        }
    }

    /// Whether the two objects have the same names with values that are written alike.
    pub fn same(&self, other: &JsonMap) -> (same: bool)
        ensures
            same == (self@ == other@),
    {
        self.matches(other, true)
    }

    /// Whether the two objects are equal.
    pub fn equals(&self, other: &JsonMap) -> (r: bool)
        ensures
            r == equal_data(self@, other@),
    {
        self.matches(other, false)
    }

    /// Whether the two objects match, with the sign of a zero or without it.
    fn matches(&self, other: &JsonMap, signed: bool) -> (r: bool)
        ensures
            r == (judged_data(self@, signed) == judged_data(other@, signed)),
        decreases *self,
    {
        let ghost mine = judged_data(self@, signed);
        let ghost others = judged_data(other@, signed);
        assert forall|name: Seq<char>| #[trigger] mine.contains_key(name) implies
            self@.contains_key(name) && mine[name] == judged(self@[name], signed) by {}
        assert forall|name: Seq<char>| #[trigger] others.contains_key(name) implies
            other@.contains_key(name) && others[name] == judged(other@[name], signed) by {}
        let mut i: usize = 0;
        while i < self.entries.len()
            invariant
                i <= self.entries@.len(),
                mine == judged_data(self@, signed),
                others == judged_data(other@, signed),
                forall|k: int|
                    0 <= k < i ==> {
                        let name = (#[trigger] self.entries@[k]).0@;
                        other@.contains_key(name) && judged(self@[name], signed) == judged(
                            other@[name],
                            signed,
                        )
                    },
            decreases self.entries@.len() - i,
        {
            let name = self.entries[i].0.as_str();
            match (self.position(name), other.get(name)) {
                (Some(at), Some(theirs)) => {
                    assert(decreases_to!(*self => self.entries@[at as int].1));
                    if !self.entries[at].1.matches(theirs, signed) {
                        assert(mine.contains_key(name@) && others.contains_key(name@));
                        assert(mine[name@] != others[name@]);
                        return false;
                    }
                },
                _ => {
                    proof {
                        lemma_object_view_contains(self.entries@, i as int);
                        assert(mine.contains_key(name@) && !others.contains_key(name@));
                    }
                    return false;
                },
            }
            i += 1;
        }
        let mut j: usize = 0;
        while j < other.entries.len()
            invariant
                j <= other.entries@.len(),
                mine == judged_data(self@, signed),
                others == judged_data(other@, signed),
                forall|k: int|
                    0 <= k < j ==> self@.contains_key((#[trigger] other.entries@[k]).0@),
            decreases other.entries@.len() - j,
        {
            let name = other.entries[j].0.as_str();
            if self.position(name).is_none() {
                proof {
                    lemma_object_view_contains(other.entries@, j as int);
                    assert(others.contains_key(name@) && !mine.contains_key(name@));
                }
                return false;
            }
            j += 1;
        }
        proof {
            assert forall|name: Seq<char>| #[trigger] self@.contains_key(name) implies
                other@.contains_key(name) && judged(self@[name], signed) == judged(
                    other@[name],
                    signed,
                ) by {
                lemma_object_view_present(self.entries@, name);
                let k = choose|k: int|
                    0 <= k < self.entries@.len() && (#[trigger] self.entries@[k]).0@ == name;
                assert(self.entries@[k].0@ == name);
            }
            assert forall|name: Seq<char>| #[trigger] other@.contains_key(name) implies
                self@.contains_key(name) by {
                lemma_object_view_present(other.entries@, name);
                let k = choose|k: int|
                    0 <= k < other.entries@.len() && (#[trigger] other.entries@[k]).0@ == name;
                assert(other.entries@[k].0@ == name);
            }
            assert(mine =~= others);
        }
        true
    }

    pub fn copy(&self) -> (copied: JsonMap)
        ensures
            copied@ == self@,
        decreases *self,
    {
        let mut entries: Vec<(String, Json)> = Vec::new();
        let mut i: usize = 0;
        while i < self.entries.len()
            invariant
                i <= self.entries@.len(),
                object_view(entries@) == object_view(self.entries@.take(i as int)),
            decreases self.entries@.len() - i,
        {
            let name = self.entries[i].0.clone();
            let value = self.entries[i].1.copy();
            let ghost before = entries@;
            entries.push((name, value));
            proof {
                assert(entries@.drop_last() =~= before);
                assert(self.entries@.take(i + 1).drop_last() =~= self.entries@.take(i as int));
            }
            i += 1;
        }
        assert(self.entries@.take(self.entries@.len() as int) =~= self.entries@);
        JsonMap { entries }
    }
}

/// The name of every entry is a name of the object.
proof fn lemma_object_view_contains(entries: Seq<(String, Json)>, i: int)
    requires
        0 <= i < entries.len(),
    ensures
        object_view(entries).contains_key(entries[i].0@),
    decreases entries.len(),
{
    if i < entries.len() - 1 {
        lemma_object_view_contains(entries.drop_last(), i);
        assert(entries.drop_last()[i] == entries[i]);
    }
}

impl Clone for Json {
    fn clone(&self) -> (copied: Json)
        ensures
            copied@ == self@,
    {
        self.copy()
    }
}

impl Clone for JsonMap {
    fn clone(&self) -> (copied: JsonMap)
        ensures
            copied@ == self@,
    {
        self.copy()
    }
}

impl PartialEq for Json {
    fn eq(&self, other: &Json) -> (same: bool) {
        self.equals(other)
    }
}

impl vstd::std_specs::cmp::PartialEqSpecImpl for Json {
    open spec fn obeys_eq_spec() -> bool {
        true
    }

    open spec fn eq_spec(&self, other: &Json) -> bool {
        equal(self@, other@)
    }
}

impl PartialEq for JsonMap {
    fn eq(&self, other: &JsonMap) -> (same: bool) {
        self.equals(other)
    }
}

impl vstd::std_specs::cmp::PartialEqSpecImpl for JsonMap {
    open spec fn obeys_eq_spec() -> bool {
        true
    }

    open spec fn eq_spec(&self, other: &JsonMap) -> bool {
        equal_data(self@, other@)
    }
}

/// Equality of values is as one expects: a value is equal to itself, it does not matter which of
/// two comes first, and what is equal to the same is equal.
pub proof fn law_equality_is_an_equivalence(a: JsonView, b: JsonView, c: JsonView)
    ensures
        equal(a, a),
        equal(a, b) ==> equal(b, a),
        equal(a, b) && equal(b, c) ==> equal(a, c),
{
}

/// Two lists are equal if and only if they are as long and equal item by item.
pub proof fn law_equal_lists_have_equal_items(x: Seq<JsonView>, y: Seq<JsonView>)
    ensures
        equal(JsonView::Array(x), JsonView::Array(y)) <==> x.len() == y.len() && forall|i: int|
            0 <= i < x.len() ==> equal(#[trigger] x[i], y[i]),
{
    let p = x.map_values(|item: JsonView| leveled(item));
    let q = y.map_values(|item: JsonView| leveled(item));
    lemma_leveled_list(x);
    lemma_leveled_list(y);
    if equal(JsonView::Array(x), JsonView::Array(y)) {
        assert(p == q);
        assert(p.len() == x.len() && q.len() == y.len());
        assert forall|i: int| 0 <= i < x.len() implies equal(#[trigger] x[i], y[i]) by {
            assert(p[i] == q[i]);
        }
    }
    if x.len() == y.len() && forall|i: int| 0 <= i < x.len() ==> equal(#[trigger] x[i], y[i]) {
        assert forall|i: int| 0 <= i < p.len() implies #[trigger] p[i] == q[i] by {
            assert(equal(x[i], y[i]));
        }
        assert(p =~= q);
    }
}

/// Two objects are equal if and only if they have the same names with equal values.
pub proof fn law_equal_objects_have_equal_values(
    x: Map<Seq<char>, JsonView>,
    y: Map<Seq<char>, JsonView>,
)
    ensures
        equal(JsonView::Object(x), JsonView::Object(y)) <==> equal_data(x, y),
        equal_data(x, y) <==> x.dom() == y.dom() && forall|name: Seq<char>| #[trigger]
            x.contains_key(name) ==> equal(x[name], y[name]),
{
    let p = leveled_data(x);
    let q = leveled_data(y);
    lemma_leveled_object(x);
    lemma_leveled_object(y);
    assert(p.dom() =~= x.dom());
    assert(q.dom() =~= y.dom());
    if equal_data(x, y) {
        assert forall|name: Seq<char>| #[trigger] x.contains_key(name) implies equal(
            x[name],
            y[name],
        ) by {
            assert(p.dom().contains(name) && q.dom().contains(name));
            assert(p[name] == q[name]);
        }
    }
    if x.dom() == y.dom() && forall|name: Seq<char>| #[trigger]
        x.contains_key(name) ==> equal(x[name], y[name]) {
        assert forall|name: Seq<char>| p.dom().contains(name) implies #[trigger] p[name] == q[name] by {
            assert(x.contains_key(name));
            assert(y.dom().contains(name));
        }
        assert(p =~= q);
    }
}

/// Two texts are equal if and only if they are the same, and so are two booleans. Values of
/// different kinds are not equal, and numbers differ by more than the sign of a zero if they are
/// not.
pub proof fn law_equal_values_are_of_one_kind(a: JsonView, b: JsonView)
    ensures
        match (a, b) {
            (JsonView::Null, JsonView::Null) => equal(a, b),
            (JsonView::Bool(x), JsonView::Bool(y)) => equal(a, b) <==> x == y,
            (JsonView::Text(x), JsonView::Text(y)) => equal(a, b) <==> x == y,
            (JsonView::Number(x), JsonView::Number(y)) => equal(a, b) <==> x == y || ((x == "0.0"@
                || x == "-0.0"@) && (y == "0.0"@ || y == "-0.0"@)),
            (JsonView::Array(x), JsonView::Array(y)) => true,
            (JsonView::Object(x), JsonView::Object(y)) => true,
            _ => !equal(a, b),
        },
{
}

} // verus!
