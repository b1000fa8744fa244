//! The options of the server.

use vstd::prelude::*;

use crate::text::{chars_of, parse_natural, text_of};
#[allow(unused_imports)]
use crate::text::natural_value;
use crate::textmap::TextMap;
#[allow(unused_imports)]
use crate::datastore::text_map;

verus! {

/// Where a text has the first such character, or where it ends.
pub open spec fn first_at(text: Seq<char>, c: char) -> nat
    decreases text.len(),
{
    if text.len() == 0 || text[0] == c {
        0
    } else {
        1 + first_at(text.drop_first(), c)
    }
}

/// The pieces of a text between such characters.
pub open spec fn pieces(text: Seq<char>, c: char) -> Seq<Seq<char>>
    decreases text.len(),
{
    let at = first_at(text, c) as int;
    if at < text.len() {
        seq![text.take(at)] + pieces(text.skip(at + 1), c)
    } else {
        seq![text]
    }
}

proof fn lemma_first_at(text: Seq<char>, c: char)
    ensures
        first_at(text, c) <= text.len(),
        first_at(text, c) < text.len() ==> text[first_at(text, c) as int] == c,
        forall|i: int| 0 <= i < first_at(text, c) ==> #[trigger] text[i] != c,
    decreases text.len(),
{
    if text.len() > 0 && text[0] != c {
        let rest = text.drop_first();
        lemma_first_at(rest, c);
        assert forall|i: int| 0 <= i < first_at(text, c) implies #[trigger] text[i] != c by {
            if i > 0 {
                assert(rest[i - 1] == text[i]);
            }
        }
    }
}

proof fn lemma_first_at_is(text: Seq<char>, c: char, at: int)
    requires
        0 <= at <= text.len(),
        at < text.len() ==> text[at] == c,
        forall|i: int| 0 <= i < at ==> #[trigger] text[i] != c,
    ensures
        first_at(text, c) == at,
{
    lemma_first_at(text, c);
    let found = first_at(text, c) as int;
    if found < at {
        assert(text[found] != c);
    }
    if at < found {
        assert(text[at] != c);
    }
}

fn find_from(chars: &Vec<char>, from: usize, to: usize, c: char) -> (at: usize)
    requires
        from <= to <= chars@.len(),
    ensures
        from <= at <= to,
        at - from == first_at(chars@.subrange(from as int, to as int), c),
{
    let ghost rest = chars@.subrange(from as int, to as int);
    let mut at: usize = from;
    while at < to && chars[at] != c
        invariant
            from <= at <= to <= chars@.len(),
            rest == chars@.subrange(from as int, to as int),
            forall|i: int| 0 <= i < at - from ==> #[trigger] rest[i] != c,
        decreases to - at,
    {
        assert(rest[at - from] == chars@[at as int]);
        at += 1;
    }
    proof {
        if at < to {
            assert(rest[at - from] == chars@[at as int]);
        }
        lemma_first_at_is(rest, c, at - from);
    }
    at
}

/// The name and the path of an item such as `name=/path`. What follows a second equals sign is
/// ignored.
pub open spec fn static_item(item: Seq<char>) -> (Seq<char>, Seq<char>) {
    (pieces(item, '=')[0], pieces(item, '=')[1])
}

/// Whether the item has a name and a path.
pub open spec fn proper_item(item: Seq<char>) -> bool {
    pieces(item, '=').len() >= 2
}

/// The names and paths of the items. A later item of the same name counts.
pub open spec fn static_items(items: Seq<Seq<char>>) -> Map<Seq<char>, Seq<char>>
    decreases items.len(),
{
    if items.len() == 0 {
        Map::empty()
    } else {
        let (name, path) = static_item(items.last());
        static_items(items.drop_last()).insert(name, path)
    }
}

proof fn lemma_pieces_nonempty(text: Seq<char>, c: char)
    ensures
        pieces(text, c).len() >= 1,
        pieces(text, c)[0] == text.take(first_at(text, c) as int),
        first_at(text, c) < text.len() ==> pieces(text, c) == seq![
            text.take(first_at(text, c) as int),
        ] + pieces(text.skip(first_at(text, c) as int + 1), c),
        first_at(text, c) == text.len() ==> pieces(text, c) == seq![text],
{
    lemma_first_at(text, c);
    if first_at(text, c) == text.len() {
        assert(text.take(text.len() as int) =~= text);
    }
}

/// The custom static paths to serve, from a text such as `watcher1=/path,watcher2=/path2`.
pub fn parse_custom_static(text: &str) -> (r: TextMap<String>)
    requires
        forall|i: int|
            0 <= i < pieces(text@, ',').len() ==> proper_item(#[trigger] pieces(text@, ',')[i]),
    ensures
        r.wf(),
        text_map(r@) == static_items(pieces(text@, ',')),
{
    let chars = chars_of(text);
    let ghost all = pieces(text@, ',');
    let mut r: TextMap<String> = TextMap::new();
    let mut from: usize = 0;
    let ghost mut count: int = 0;
    let mut more = true;
    proof {
        assert(text@.skip(0) =~= text@);
        assert(all.skip(0) =~= all);
        assert(all.take(0) =~= Seq::empty());
        assert(text_map(r@) =~= Map::empty());
    }
    while more
        invariant
            chars@ == text@,
            all == pieces(text@, ','),
            forall|i: int| 0 <= i < all.len() ==> proper_item(#[trigger] all[i]),
            0 <= count <= all.len(),
            r.wf(),
            more ==> from <= chars.len() && all.skip(count) == pieces(
                text@.skip(from as int),
                ',',
            ),
            !more ==> count == all.len(),
            text_map(r@) == static_items(all.take(count)),
        decreases (if more {
            1int
        } else {
            0int
        }), chars.len() - from,
    {
        let ghost rest = text@.skip(from as int);
        let ghost before = r@;
        let length: usize = chars.len();
        let end = find_from(&chars, from, length, ',');
        proof {
            assert(chars@.subrange(from as int, length as int) =~= rest);
            lemma_pieces_nonempty(rest, ',');
            assert(all[count] == all.skip(count)[0]);
        }
        let ghost item = text@.subrange(from as int, end as int);
        proof {
            assert(rest.take(end - from) =~= item);
            assert(all[count] == item);
            assert(proper_item(all[count]));
            lemma_pieces_nonempty(item, '=');
        }
        let equals = find_from(&chars, from, end, '=');
        assert(equals < end) by {
            if equals == end {
                assert(pieces(item, '=').len() == 1);
            }
        }
        let ghost after = item.skip(equals - from + 1);
        let value_end = find_from(&chars, equals + 1, end, '=');
        proof {
            assert(after =~= text@.subrange(equals + 1, end as int));
            lemma_pieces_nonempty(after, '=');
            assert(pieces(item, '=')[1] == pieces(after, '=')[0]);
        }
        let name = text_of(&chars, from, equals);
        let path = text_of(&chars, equals + 1, value_end);
        proof {
            assert(name@ =~= item.take(equals - from));
            assert(path@ =~= after.take(value_end - (equals + 1)));
        }
        r.insert(name, path);
        proof {
            assert(all.take(count + 1).drop_last() =~= all.take(count));
            assert(all.take(count + 1).last() == item);
            assert(text_map(r@) =~= text_map(before).insert(name@, path@));
        }
        if end < length {
            proof {
                assert(rest.skip(end - from + 1) =~= text@.skip(end + 1));
                assert(all.skip(count + 1) =~= pieces(text@.skip(end + 1), ',')) by {
                    assert(all.skip(count) == seq![item] + pieces(text@.skip(end + 1), ','));
                    assert(all.skip(count).skip(1) =~= all.skip(count + 1));
                }
                count = count + 1;
            }
            from = end + 1;
        } else {
            more = false;
            proof {
                assert(all.skip(count).len() == 1);
                count = count + 1;
            }
        }
    }
    proof {
        assert(all.take(all.len() as int) =~= all);
    }
    r
}

/// The port to listen on. There is none if the text is not a port number.
pub fn parse_port(text: &str) -> (r: Option<u16>)
    ensures
        match r {
            Some(port) => natural_value(text@, 65535) == Some(port as nat),
            None => natural_value(text@, 65535) is None,
        },
{
    match parse_natural(text, 65535) {
        Some(n) => Some(n as u16),
        None => None,
    }
}

/// Whether the server runs in testing mode. A build for debugging always does.
pub fn runs_testing(testing: bool, debug_build: bool) -> (r: bool)
    ensures
        r == (testing || debug_build),
{
    testing || debug_build
}

/// Whether an older database is imported: not into a database that the user has named.
pub fn uses_legacy_import(no_legacy_import: bool, dbpath_set: bool) -> (r: bool)
    ensures
        r == (!no_legacy_import && !dbpath_set),
{
    !no_legacy_import && !dbpath_set
}

/// The name of the older database, which is left untouched.
pub fn legacy_database(testing: bool) -> (name: String)
    ensures
        name@ == if testing {
            "sqlite-testing.db"@
        } else {
            "sqlite.db"@
        },
{
    if testing {
        "sqlite-testing.db".to_string()
    } else {
        "sqlite.db".to_string()
    }
}

/// Texts with a character between them.
pub open spec fn put_together(parts: Seq<Seq<char>>, c: char) -> Seq<char>
    decreases parts.len(),
{
    if parts.len() == 0 {
        Seq::empty()
    } else if parts.len() == 1 {
        parts[0]
    } else {
        parts[0].push(c) + put_together(parts.drop_first(), c)
    }
}

/// Whether a text does not hold a character.
pub open spec fn lacks(text: Seq<char>, c: char) -> bool {
    forall|i: int| 0 <= i < text.len() ==> (#[trigger] text[i]) != c
}

/// The pieces of a text do not hold the character between them, and put together again they are
/// the text.
pub proof fn law_pieces_make_up_the_text(text: Seq<char>, c: char)
    ensures
        pieces(text, c).len() > 0,
        forall|i: int| 0 <= i < pieces(text, c).len() ==> lacks(#[trigger] pieces(text, c)[i], c),
        put_together(pieces(text, c), c) == text,
    decreases text.len(),
{
    let all = pieces(text, c);
    let at = first_at(text, c) as int;
    lemma_first_at(text, c);
    if at < text.len() {
        let rest = text.skip(at + 1);
        law_pieces_make_up_the_text(rest, c);
        let others = pieces(rest, c);
        assert(all == seq![text.take(at)] + others);
        assert forall|i: int| 0 <= i < all.len() implies lacks(#[trigger] all[i], c) by {
            if i > 0 {
                assert(all[i] == others[i - 1]);
            }
        }
        assert(all.drop_first() =~= others);
        assert(text.take(at).push(c) + rest =~= text);
    } else {
        assert(all =~= seq![text]);
    }
}

/// Texts that do not hold a character, put together with it between them, come apart again.
pub proof fn law_put_together_comes_apart(parts: Seq<Seq<char>>, c: char)
    requires
        parts.len() > 0,
        forall|i: int| 0 <= i < parts.len() ==> lacks(#[trigger] parts[i], c),
    ensures
        pieces(put_together(parts, c), c) == parts,
    decreases parts.len(),
{
    let text = put_together(parts, c);
    let first = parts[0];
    assert(lacks(parts[0], c));
    let n = first.len() as int;
    if parts.len() == 1 {
        lemma_first_at_is(text, c, n);
        assert(parts =~= seq![text]);
    } else {
        let rest = parts.drop_first();
        assert forall|i: int| 0 <= i < rest.len() implies lacks(#[trigger] rest[i], c) by {
            assert(rest[i] == parts[i + 1]);
        }
        law_put_together_comes_apart(rest, c);
        assert forall|i: int| 0 <= i < n implies #[trigger] text[i] != c by {
            assert(text[i] == first[i]);
        }
        assert(text[n] == c);
        lemma_first_at_is(text, c, n);
        assert(text.take(n) =~= first);
        assert(text.skip(n + 1) =~= put_together(rest, c));
        assert(seq![first] + rest =~= parts);
    }
}

/// An item is written as its name, an equals sign and its path.
pub proof fn law_written_item_reads_back(name: Seq<char>, path: Seq<char>)
    requires
        lacks(name, '='),
        lacks(path, '='),
    ensures
        proper_item(name.push('=') + path),
        static_item(name.push('=') + path) == (name, path),
{
    let parts = seq![name, path];
    assert(parts.drop_first() =~= seq![path]);
    reveal_with_fuel(put_together, 2);
    assert(put_together(parts, '=') == name.push('=') + path);
    law_put_together_comes_apart(parts, '=');
}

/// What the items say of a name is what the last item with that name says, and there is nothing for
/// a name without an item.
pub proof fn law_last_item_of_a_name_counts(items: Seq<Seq<char>>, name: Seq<char>)
    ensures
        static_items(items).contains_key(name) <==> exists|i: int|
            0 <= i < items.len() && static_item(#[trigger] items[i]).0 == name,
        forall|i: int|
            0 <= i < items.len() && static_item(#[trigger] items[i]).0 == name && (forall|j: int|
                i < j < items.len() ==> static_item(#[trigger] items[j]).0 != name) ==> static_items(
                items,
            )[name] == static_item(items[i]).1,
    decreases items.len(),
{
    if items.len() > 0 {
        let head = items.drop_last();
        let n = items.len() - 1;
        law_last_item_of_a_name_counts(head, name);
        assert forall|i: int| 0 <= i < head.len() implies #[trigger] head[i] == items[i] by {}
        assert(items[n] == items.last());
        if exists|i: int| 0 <= i < items.len() && static_item(#[trigger] items[i]).0 == name {
            let i = choose|i: int| 0 <= i < items.len() && static_item(#[trigger] items[i]).0 == name;
            if i < n {
                assert(static_item(head[i]).0 == name);
            }
        }
        if exists|i: int| 0 <= i < head.len() && static_item(#[trigger] head[i]).0 == name {
            let i = choose|i: int| 0 <= i < head.len() && static_item(#[trigger] head[i]).0 == name;
            assert(static_item(items[i]).0 == name);
        }
        assert forall|i: int|
            0 <= i < items.len() && static_item(#[trigger] items[i]).0 == name && (forall|j: int|
                i < j < items.len() ==> static_item(#[trigger] items[j]).0 != name) implies
            static_items(items)[name] == static_item(items[i]).1 by {
            if i < n {
                assert(static_item(items[n]).0 != name);
                assert(static_item(head[i]).0 == name);
                assert forall|j: int| i < j < head.len() implies static_item(#[trigger] head[j]).0
                    != name by {
                    assert(static_item(items[j]).0 != name);
                }
            }
        }
    }
}

} // verus!
