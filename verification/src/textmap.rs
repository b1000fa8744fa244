//! A map from names to values.

use vstd::prelude::*;

use crate::text::same_text;

verus! {

/// What the entries of a map stand for.
pub open spec fn contents<V>(entries: Seq<(String, V)>) -> Map<Seq<char>, V>
    decreases entries.len(),
{
    if entries.len() == 0 {
        Map::empty()
    } else {
        contents(entries.drop_last()).insert(entries.last().0@, entries.last().1)
    }
}

/// No name occurs twice.
pub open spec fn distinct_names<V>(entries: Seq<(String, V)>) -> bool {
    forall|i: int, j: int|
        0 <= i < j < entries.len() ==> (#[trigger] entries[i]).0@ != (#[trigger] entries[j]).0@
}

/// A map from names to values.
#[derive(Debug)]
pub struct TextMap<V> {
    /// The names and their values. No name occurs twice.
    pub entries: Vec<(String, V)>,
}

impl<V> View for TextMap<V> {
    type V = Map<Seq<char>, V>;

    open spec fn view(&self) -> Map<Seq<char>, V> {
        contents(self.entries@)
    }
}

/// A name is in the map exactly if an entry has it, and where no name occurs twice the map holds
/// the value of that entry.
pub proof fn lemma_contents<V>(entries: Seq<(String, V)>)
    ensures
        forall|name: Seq<char>| #[trigger]
            contents(entries).contains_key(name) <==> exists|i: int|
                0 <= i < entries.len() && (#[trigger] entries[i]).0@ == name,
        distinct_names(entries) ==> forall|i: int|
            0 <= i < entries.len() ==> contents(entries)[(#[trigger] entries[i]).0@]
                == entries[i].1,
    decreases entries.len(),
{
    if entries.len() > 0 {
        let head = entries.drop_last();
        let last = entries.last();
        lemma_contents(head);
        assert forall|i: int| 0 <= i < head.len() implies #[trigger] head[i] == entries[i] by {}
        assert forall|name: Seq<char>| #[trigger]
            contents(entries).contains_key(name) <==> exists|i: int|
                0 <= i < entries.len() && (#[trigger] entries[i]).0@ == name by {
            if contents(entries).contains_key(name) {
                if name == last.0@ {
                    assert(entries[entries.len() - 1].0@ == name);
                } else {
                    assert(contents(head).contains_key(name));
                    let i = choose|i: int| 0 <= i < head.len() && (#[trigger] head[i]).0@ == name;
                    assert(entries[i].0@ == name);
                }
            }
            if exists|i: int| 0 <= i < entries.len() && (#[trigger] entries[i]).0@ == name {
                let i = choose|i: int| 0 <= i < entries.len() && (#[trigger] entries[i]).0@ == name;
                if i < head.len() {
                    assert(head[i].0@ == name);
                    assert(contents(head).contains_key(name));
                }
            }
        }
        if distinct_names(entries) {
            assert(distinct_names(head));
            assert forall|i: int| 0 <= i < entries.len() implies contents(entries)[(
            #[trigger] entries[i]).0@] == entries[i].1 by {
                if i < head.len() {
                    assert(head[i].0@ != last.0@) by {
                        assert(entries[i].0@ != entries[entries.len() - 1].0@);
                    }
                    assert(contents(head)[head[i].0@] == head[i].1);
                }
            }
        }
    }
}

impl<V> TextMap<V> {
    /// No name occurs twice.
    pub open spec fn wf(self) -> bool {
        distinct_names(self.entries@)
    }

    pub fn new() -> (map: TextMap<V>)
        ensures
            map.wf(),
            map@ == Map::<Seq<char>, V>::empty(),
    {
        TextMap { entries: Vec::new() }
    }

    fn position(&self, name: &str) -> (at: Option<usize>)
        requires
            self.wf(),
        ensures
            match at {
                Some(at) => at < self.entries@.len() && self.entries@[at as int].0@ == name@,
                None => !self@.contains_key(name@),
            },
    {
        let mut i: usize = 0;
        while i < self.entries.len()
            invariant
                i <= self.entries.len(),
                forall|k: int| 0 <= k < i ==> (#[trigger] self.entries@[k]).0@ != name@,
            decreases self.entries.len() - i,
        {
            if same_text(self.entries[i].0.as_str(), name) {
                return Some(i);
            }
            i += 1;
        }
        proof {
            lemma_contents(self.entries@);
        }
        None
    }

    /// The value of a name.
    pub fn get(&self, name: &str) -> (value: Option<&V>)
        requires
            self.wf(),
        ensures
            match value {
                Some(value) => self@.contains_key(name@) && *value == self@[name@],
                None => !self@.contains_key(name@),
            },
    {
        proof {
            lemma_contents(self.entries@);
        }
        match self.position(name) {
            Some(at) => Some(&self.entries[at].1),
            None => None,
        }
    }

    pub fn contains_key(&self, name: &str) -> (r: bool)
        requires
            self.wf(),
        ensures
            r == self@.contains_key(name@),
    {
        self.get(name).is_some()
    }

    /// Removes a name, and gives back its value.
    pub fn remove(&mut self, name: &str) -> (value: Option<V>)
        requires
            old(self).wf(),
        ensures
            final(self).wf(),
            final(self)@ == old(self)@.remove(name@),
            match value {
                Some(value) => old(self)@.contains_key(name@) && value == old(self)@[name@],
                None => !old(self)@.contains_key(name@),
            },
    {
        let ghost before = self.entries@;
        match self.position(name) {
            Some(at) => {
                let (_, value) = self.entries.remove(at);
                proof {
                    let after = self.entries@;
                    lemma_contents(before);
                    assert(after =~= before.remove(at as int));
                    assert forall|i: int| 0 <= i < after.len() implies #[trigger] after[i]
                        == before[if i < at {
                        i
                    } else {
                        i + 1
                    }] by {}
                    assert(distinct_names(after));
                    lemma_contents(after);
                    let wanted = contents(before).remove(name@);
                    assert forall|key: Seq<char>| #[trigger]
                        contents(after).contains_key(key) == wanted.contains_key(key) by {
                        if contents(after).contains_key(key) {
                            let i = choose|i: int|
                                0 <= i < after.len() && (#[trigger] after[i]).0@ == key;
                            let j = if i < at {
                                i
                            } else {
                                i + 1
                            };
                            assert(before[j].0@ == key);
                            assert(before[at as int].0@ == name@);
                        }
                        if wanted.contains_key(key) {
                            let j = choose|j: int|
                                0 <= j < before.len() && (#[trigger] before[j]).0@ == key;
                            let i = if j < at {
                                j
                            } else {
                                j - 1
                            };
                            assert(after[i].0@ == key);
                        }
                    }
                    assert forall|key: Seq<char>| #[trigger]
                        contents(after).contains_key(key) implies contents(after)[key]
                        == wanted[key] by {
                        let i = choose|i: int|
                            0 <= i < after.len() && (#[trigger] after[i]).0@ == key;
                        let j = if i < at {
                            i
                        } else {
                            i + 1
                        };
                        assert(before[j].0@ == key);
                    }
                    assert(contents(after) =~= wanted);
                }
                Some(value)
            },
            None => {
                proof {
                    assert(self@.remove(name@) =~= self@);
                }
                None
            },
        }
    }

    /// Gives a name a value, in place of the one it may have.
    pub fn insert(&mut self, name: String, value: V)
        requires
            old(self).wf(),
        ensures
            final(self).wf(),
            final(self)@ == old(self)@.insert(name@, value),
    {
        let _ = self.remove(name.as_str());
        let ghost before = self.entries@;
        self.entries.push((name, value));
        proof {
            lemma_contents(before);
            assert(self.entries@.drop_last() =~= before);
            let after = self.entries@;
            assert forall|i: int, j: int| 0 <= i < j < after.len() implies (
            #[trigger] after[i]).0@ != (#[trigger] after[j]).0@ by {
                assert(after[i] == before[i]);
                if j < before.len() {
                    assert(after[j] == before[j]);
                } else {
                    assert(!contents(before).contains_key(name@));
                }
            }
            assert(self@ =~= old(self)@.insert(name@, value));
        }
    }
}

} // verus!
