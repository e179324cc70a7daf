//! Tables from texts to values.

use crate::text::same_text;
use vstd::prelude::*;

verus! {

/// A table from texts to values.
pub struct Table<V> {
    items: Vec<(String, V)>,
}

impl<V> Table<V> {
    /// The pairs that the table holds.
    pub closed spec fn pairs(self) -> Seq<(Seq<char>, V)> {
        Seq::new(self.items@.len(), |i: int| (self.items@[i].0@, self.items@[i].1))
    }

    /// No text occurs twice.
    pub open spec fn well_formed(self) -> bool {
        distinct(self.pairs())
    }
}

/// No text occurs twice.
pub open spec fn distinct<V>(pairs: Seq<(Seq<char>, V)>) -> bool {
    forall|i: int, j: int|
        0 <= i < pairs.len() && 0 <= j < pairs.len() && (#[trigger] pairs[i]).0 == (#[trigger] pairs[j]).0
            ==> i == j
}

/// Whether a text occurs among the pairs.
pub open spec fn occurs<V>(pairs: Seq<(Seq<char>, V)>, key: Seq<char>) -> bool {
    exists|i: int| 0 <= i < pairs.len() && (#[trigger] pairs[i]).0 == key
}

/// Where a text occurs among the pairs.
pub open spec fn place<V>(pairs: Seq<(Seq<char>, V)>, key: Seq<char>) -> int {
    choose|i: int| 0 <= i < pairs.len() && (#[trigger] pairs[i]).0 == key
}

/// The map that pairs make.
pub open spec fn map_of<V>(pairs: Seq<(Seq<char>, V)>) -> Map<Seq<char>, V> {
    Map::new(|key: Seq<char>| occurs(pairs, key), |key: Seq<char>| pairs[place(pairs, key)].1)
}

impl<V> View for Table<V> {
    type V = Map<Seq<char>, V>;

    open spec fn view(&self) -> Map<Seq<char>, V> {
        map_of(self.pairs())
    }
}

/// A pair is found under its text.
proof fn lemma_place<V>(pairs: Seq<(Seq<char>, V)>, i: int)
    requires
        distinct(pairs),
        0 <= i < pairs.len(),
    ensures
        occurs(pairs, pairs[i].0),
        place(pairs, pairs[i].0) == i,
        map_of(pairs)[pairs[i].0] == pairs[i].1,
{
    assert(occurs(pairs, pairs[i].0));
}

/// Pairs that agree with a map make it.
proof fn lemma_map_of<V>(pairs: Seq<(Seq<char>, V)>, map: Map<Seq<char>, V>)
    requires
        distinct(pairs),
        forall|i: int|
            0 <= i < pairs.len() ==> map.dom().contains((#[trigger] pairs[i]).0)
                && map[pairs[i].0] == pairs[i].1,
        forall|key: Seq<char>| #[trigger] map.dom().contains(key) ==> occurs(pairs, key),
    ensures
        map_of(pairs) == map,
{
    assert forall|key: Seq<char>| map_of(pairs).dom().contains(key) == #[trigger]
        map.dom().contains(key) by {
        if occurs(pairs, key) {
            let i = place(pairs, key);
            assert(pairs[i].0 == key);
        }
    }
    assert forall|key: Seq<char>| #[trigger] map.dom().contains(key) implies map_of(pairs)[key]
        == map[key] by {
        let i = place(pairs, key);
        assert(pairs[i].0 == key);
    }
    assert(map_of(pairs) =~= map);
}

impl<V> Table<V> {
    /// An empty table.
    pub fn new() -> (table: Self)
        ensures
            table.well_formed(),
            table@ == Map::<Seq<char>, V>::empty(),
    {
        let table = Table { items: Vec::new() };
        assert(table.pairs().len() == 0);
        assert(table@ =~= Map::<Seq<char>, V>::empty());
        table
    }

    /// Finds the place of a text.
    fn find(&self, key: &str) -> (found: Option<usize>)
        requires
            self.well_formed(),
        ensures
            found matches Some(i) ==> i < self.items@.len() && self.pairs()[i as int].0 == key@,
            found is None ==> !occurs(self.pairs(), key@),
    {
        let mut i: usize = 0;
        while i < self.items.len()
            invariant
                i <= self.items@.len(),
                forall|j: int| 0 <= j < i ==> (#[trigger] self.pairs()[j]).0 != key@,
            decreases self.items@.len() - i,
        {
            assert(self.pairs()[i as int].0 == self.items@[i as int].0@);
            if same_text(self.items[i].0.as_str(), key) {
                return Some(i);
            }
            i += 1;
        }
        None
    }

    /// The value of a text.
    pub fn get(&self, key: &str) -> (value: Option<&V>)
        requires
            self.well_formed(),
        ensures
            value matches Some(v) ==> self@.dom().contains(key@) && *v == self@[key@],
            value is None ==> !self@.dom().contains(key@),
    {
        match self.find(key) {
            Some(i) => {
                proof {
                    lemma_place(self.pairs(), i as int);
                }
                Some(&self.items[i].1)
            },
            None => None,
        }
    }

    /// Lists the texts and their values.
    pub fn list(&self) -> (list: Vec<(&String, &V)>)
        requires
            self.well_formed(),
        ensures
            forall|i: int|
                0 <= i < list@.len() ==> self@.dom().contains((#[trigger] list@[i]).0@)
                    && *list@[i].1 == self@[list@[i].0@],
            forall|key: Seq<char>| #[trigger]
                self@.dom().contains(key) ==> exists|i: int|
                    0 <= i < list@.len() && (#[trigger] list@[i]).0@ == key,
    {
        let mut list: Vec<(&String, &V)> = Vec::new();
        let mut i: usize = 0;
        while i < self.items.len()
            invariant
                self.well_formed(),
                i == list@.len() <= self.items@.len(),
                forall|k: int|
                    0 <= k < i ==> (#[trigger] list@[k]).0@ == self.pairs()[k].0 && *list@[k].1
                        == self.pairs()[k].1,
            decreases self.items@.len() - i,
        {
            list.push((&self.items[i].0, &self.items[i].1));
            i += 1;
        }
        proof {
            let pairs = self.pairs();
            assert forall|k: int| 0 <= k < list@.len() implies self@.dom().contains(
                (#[trigger] list@[k]).0@,
            ) && *list@[k].1 == self@[list@[k].0@] by {
                lemma_place(pairs, k);
            }
            assert forall|key: Seq<char>| #[trigger] self@.dom().contains(key) implies exists|
                k: int,
            |
                0 <= k < list@.len() && (#[trigger] list@[k]).0@ == key by {
                let k = choose|k: int| 0 <= k < pairs.len() && (#[trigger] pairs[k]).0 == key;
                assert(list@[k].0@ == key);
            }
        }
        list
    }

    /// Gives a text a value.
    pub fn insert(&mut self, key: &str, value: V)
        requires
            old(self).well_formed(),
        ensures
            final(self).well_formed(),
            final(self)@ == old(self)@.insert(key@, value),
    {
        let ghost before = self.pairs();
        let ghost mut at = before.len() as int;
        match self.find(key) {
            Some(i) => {
                self.items.set(i, (key.to_string(), value));
                assert(self.pairs() =~= before.update(i as int, (key@, value)));
                proof {
                    at = i as int;
                }
            },
            None => {
                self.items.push((key.to_string(), value));
                assert(self.pairs() =~= before.push((key@, value)));
            },
        }
        proof {
            let after = self.pairs();
            let map = map_of(before).insert(key@, value);
            assert forall|j: int| 0 <= j < after.len() implies map.dom().contains(
                (#[trigger] after[j]).0,
            ) && map[after[j].0] == after[j].1 by {
                if after[j].0 != key@ {
                    assert(before[j] == after[j]);
                    lemma_place(before, j);
                }
            }
            assert forall|k: Seq<char>| #[trigger] map.dom().contains(k) implies occurs(
                after,
                k,
            ) by {
                if k == key@ {
                    assert(after[at].0 == k);
                } else {
                    let j = place(before, k);
                    assert(before[j].0 == k);
                    assert(after[j] == before[j]);
                }
            }
            lemma_map_of(after, map);
        }
    }

    /// Takes a text out of the table, and gives back its value.
    pub fn remove(&mut self, key: &str) -> (value: Option<V>)
        requires
            old(self).well_formed(),
        ensures
            final(self).well_formed(),
            final(self)@ == old(self)@.remove(key@),
            value matches Some(v) ==> old(self)@.dom().contains(key@) && v == old(self)@[key@],
            value is None ==> !old(self)@.dom().contains(key@),
    {
        let ghost before = self.pairs();
        match self.find(key) {
            Some(i) => {
                let ghost last = before.len() - 1;
                let pair = self.items.swap_remove(i);
                proof {
                    lemma_place(before, i as int);
                    let after = self.pairs();
                    let map = map_of(before).remove(key@);
                    assert(after =~= before.update(i as int, before.last()).drop_last());
                    assert forall|j: int| 0 <= j < after.len() implies map.dom().contains(
                        (#[trigger] after[j]).0,
                    ) && map[after[j].0] == after[j].1 by {
                        let origin = if j == i {
                            last
                        } else {
                            j
                        };
                        assert(after[j] == before[origin]);
                        lemma_place(before, origin);
                        assert(before[i as int].0 == key@);
                    }
                    assert forall|k: Seq<char>| #[trigger] map.dom().contains(k) implies occurs(
                        after,
                        k,
                    ) by {
                        let j = place(before, k);
                        assert(before[j].0 == k);
                        if j == last {
                            assert(after[i as int] == before[j]);
                        } else {
                            assert(after[j] == before[j]);
                        }
                    }
                    lemma_map_of(after, map);
                }
                Some(pair.1)
            },
            None => {
                assert(!map_of(before).dom().contains(key@));
                assert(map_of(before).remove(key@) =~= map_of(before));
                None
            },
        }
    }
}

} // verus!
