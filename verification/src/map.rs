//! A map keyed by strings, kept as a vector of entries whose keys are distinct.
//!
//! vstd's specification of `std::collections::HashMap` holds only for key types
//! whose hashing it models (`obeys_key_model`), and `String` is not one of them,
//! so a `HashMap<String, _>` would give the contracts nothing to build on.
use vstd::prelude::*;

use crate::text::str_eq;

verus! {

/// The map that a sequence of (key, value) entries denotes; a later entry for a
/// key wins over an earlier one.
pub open spec fn map_of<V>(p: Seq<(Seq<char>, V)>) -> Map<Seq<char>, V>
    decreases p.len(),
{
    if p.len() == 0 {
        Map::empty()
    } else {
        map_of(p.drop_last()).insert(p.last().0, p.last().1)
    }
}

pub open spec fn keys_distinct<V>(p: Seq<(Seq<char>, V)>) -> bool {
    forall|i: int, j: int| 0 <= i < j < p.len() ==> p[i].0 != p[j].0
}

pub proof fn lemma_map_of_dom<V>(p: Seq<(Seq<char>, V)>)
    ensures
        map_of(p).dom().finite(),
        forall|k: Seq<char>|
            #[trigger] map_of(p).contains_key(k) <==> exists|i: int| 0 <= i < p.len() && p[i].0 == k,
    decreases p.len(),
{
    if p.len() > 0 {
        lemma_map_of_dom(p.drop_last());
        assert forall|k: Seq<char>| #[trigger]
            map_of(p).contains_key(k) <==> exists|i: int| 0 <= i < p.len() && p[i].0 == k by {
            if map_of(p).contains_key(k) {
                if k == p.last().0 {
                    assert(p[p.len() - 1].0 == k);
                } else {
                    let i = choose|i: int|
                        0 <= i < p.drop_last().len() && p.drop_last()[i].0 == k;
                    assert(p[i].0 == k);
                }
            }
            if exists|i: int| 0 <= i < p.len() && p[i].0 == k {
                let i = choose|i: int| 0 <= i < p.len() && p[i].0 == k;
                if i < p.len() - 1 {
                    assert(p.drop_last()[i].0 == k);
                }
            }
        }
    }
}

pub proof fn lemma_map_of_values<V>(p: Seq<(Seq<char>, V)>)
    requires
        keys_distinct(p),
    ensures
        forall|i: int| 0 <= i < p.len() ==> #[trigger] map_of(p)[p[i].0] == p[i].1,
    decreases p.len(),
{
    if p.len() > 0 {
        assert(keys_distinct(p.drop_last()));
        lemma_map_of_values(p.drop_last());
        assert forall|i: int| 0 <= i < p.len() implies #[trigger] map_of(p)[p[i].0] == p[i].1 by {
            if i < p.len() - 1 {
                assert(p.drop_last()[i] == p[i]);
                assert(p[i].0 != p.last().0);
                assert(map_of(p.drop_last())[p.drop_last()[i].0] == p.drop_last()[i].1);
            }
        }
    }
}

pub proof fn lemma_map_of_len<V>(p: Seq<(Seq<char>, V)>)
    requires
        keys_distinct(p),
    ensures
        map_of(p).len() == p.len(),
    decreases p.len(),
{
    lemma_map_of_dom(p);
    if p.len() > 0 {
        assert(keys_distinct(p.drop_last()));
        lemma_map_of_len(p.drop_last());
        lemma_map_of_dom(p.drop_last());
        assert(!map_of(p.drop_last()).contains_key(p.last().0)) by {
            if map_of(p.drop_last()).contains_key(p.last().0) {
                let i = choose|i: int|
                    0 <= i < p.drop_last().len() && p.drop_last()[i].0 == p.last().0;
                assert(p[i].0 == p[p.len() - 1].0);
            }
        }
    }
}

/// The entries and the map agree: each entry is in the map with its value, each
/// key of the map comes from one entry, and there are as many entries as keys.
pub proof fn lemma_map_of_entries<V>(p: Seq<(Seq<char>, V)>)
    requires
        keys_distinct(p),
    ensures
        map_of(p).dom().finite(),
        map_of(p).len() == p.len(),
        forall|i: int|
            0 <= i < p.len() ==> #[trigger] map_of(p).contains_key(p[i].0) && map_of(p)[p[i].0]
                == p[i].1,
        forall|k: Seq<char>|
            #[trigger] map_of(p).contains_key(k) ==> exists|i: int| 0 <= i < p.len() && p[i].0 == k,
{
    lemma_map_of_dom(p);
    lemma_map_of_values(p);
    lemma_map_of_len(p);
    assert forall|i: int| 0 <= i < p.len() implies #[trigger] map_of(p).contains_key(p[i].0)
        && map_of(p)[p[i].0] == p[i].1 by {
        assert(map_of(p).contains_key(p[i].0));
    }
}

/// Entries with the same keys in the same places denote maps with the same keys;
/// each key maps to the value of its entry.
pub proof fn lemma_map_of_same_keys<V>(p: Seq<(Seq<char>, V)>, q: Seq<(Seq<char>, V)>)
    requires
        keys_distinct(p),
        p.len() == q.len(),
        forall|i: int| 0 <= i < p.len() ==> #[trigger] q[i].0 == p[i].0,
    ensures
        keys_distinct(q),
        map_of(q).dom() == map_of(p).dom(),
        forall|i: int| 0 <= i < q.len() ==> #[trigger] map_of(q)[p[i].0] == q[i].1,
{
    assert(keys_distinct(q)) by {
        assert forall|i: int, j: int| 0 <= i < j < q.len() implies q[i].0 != q[j].0 by {
            assert(q[i].0 == p[i].0);
            assert(q[j].0 == p[j].0);
        }
    }
    lemma_map_of_entries(p);
    lemma_map_of_entries(q);
    assert forall|k: Seq<char>| #[trigger] map_of(q).dom().contains(k) <==> map_of(p).dom().contains(k) by {
        if map_of(q).contains_key(k) {
            let i = choose|i: int| 0 <= i < q.len() && q[i].0 == k;
            assert(p[i].0 == k);
            assert(map_of(p).contains_key(p[i].0));
        }
        if map_of(p).contains_key(k) {
            let i = choose|i: int| 0 <= i < p.len() && p[i].0 == k;
            assert(q[i].0 == k);
            assert(map_of(q).contains_key(q[i].0));
        }
    }
    assert(map_of(q).dom() =~= map_of(p).dom());
    assert forall|i: int| 0 <= i < q.len() implies #[trigger] map_of(q)[p[i].0] == q[i].1 by {
        assert(map_of(q).contains_key(q[i].0) && map_of(q)[q[i].0] == q[i].1);
    }
}

/// Replacing the value of one entry replaces the value of its key.
pub proof fn lemma_map_of_update<V>(p: Seq<(Seq<char>, V)>, i: int, v: V)
    requires
        keys_distinct(p),
        0 <= i < p.len(),
    ensures
        keys_distinct(p.update(i, (p[i].0, v))),
        map_of(p.update(i, (p[i].0, v))) == map_of(p).insert(p[i].0, v),
{
    let q = p.update(i, (p[i].0, v));
    lemma_map_of_same_keys(p, q);
    lemma_map_of_entries(p);
    lemma_map_of_entries(q);
    assert(map_of(q).dom() =~= map_of(p).insert(p[i].0, v).dom());
    assert forall|k: Seq<char>| #[trigger] map_of(q).contains_key(k) implies map_of(q)[k]
        == map_of(p).insert(p[i].0, v)[k] by {
        let j = choose|j: int| 0 <= j < q.len() && q[j].0 == k;
        assert(map_of(q)[p[j].0] == q[j].1);
        if j != i {
            assert(map_of(p)[p[j].0] == p[j].1);
        }
    }
    assert(map_of(q) =~= map_of(p).insert(p[i].0, v));
}

/// A map from strings to values.
pub struct StrMap<V> {
    entries: Vec<(String, V)>,
}

impl<V> StrMap<V> {
    /// The entries, keys by their characters, in storage order.
    pub closed spec fn pairs(self) -> Seq<(Seq<char>, V)> {
        self.entries@.map_values(|e: (String, V)| (e.0@, e.1))
    }

    /// The keys are distinct.
    pub open spec fn wf(self) -> bool {
        keys_distinct(self.pairs())
    }

    /// The map the entries denote.
    pub open spec fn view(self) -> Map<Seq<char>, V> {
        map_of(self.pairs())
    }

    pub fn new() -> (res: Self)
        ensures
            res.wf(),
            res.pairs() == Seq::<(Seq<char>, V)>::empty(),
            res.view() == Map::<Seq<char>, V>::empty(),
    {
        let res = StrMap { entries: Vec::new() };
        assert(res.pairs() =~= Seq::<(Seq<char>, V)>::empty());
        res
    }

    /// The number of entries, which is the number of keys.
    pub fn len(&self) -> (res: usize)
        requires
            self.wf(),
        ensures
            res == self.pairs().len(),
            res == self.view().len(),
    {
        proof {
            lemma_map_of_len(self.pairs());
        }
        self.entries.len()
    }

    /// The key of the entry at `i`.
    pub fn key_at(&self, i: usize) -> (res: &String)
        requires
            i < self.pairs().len(),
        ensures
            res@ == self.pairs()[i as int].0,
    {
        &self.entries[i].0
    }

    /// The value of the entry at `i`.
    pub fn value_at(&self, i: usize) -> (res: &V)
        requires
            i < self.pairs().len(),
        ensures
            *res == self.pairs()[i as int].1,
    {
        &self.entries[i].1
    }

    /// Replaces the value of the entry at `i`, keeping its key and place.
    pub fn set_value_at(&mut self, i: usize, value: V)
        requires
            i < old(self).pairs().len(),
        ensures
            final(self).pairs() == old(self).pairs().update(
                i as int,
                (old(self).pairs()[i as int].0, value),
            ),
            old(self).wf() ==> final(self).wf() && final(self).view() == old(self).view().insert(
                old(self).pairs()[i as int].0,
                value,
            ),
    {
        let e = &mut self.entries[i];
        e.1 = value;
        assert(self.pairs() =~= old(self).pairs().update(
            i as int,
            (old(self).pairs()[i as int].0, value),
        ));
        proof {
            if old(self).wf() {
                lemma_map_of_update(old(self).pairs(), i as int, value);
            }
        }
    }

    /// Puts `value` in the entry at `i` and gives back the value it held.
    pub fn replace_value_at(&mut self, i: usize, value: V) -> (res: V)
        requires
            i < old(self).pairs().len(),
        ensures
            res == old(self).pairs()[i as int].1,
            final(self).pairs() == old(self).pairs().update(
                i as int,
                (old(self).pairs()[i as int].0, value),
            ),
            old(self).wf() ==> final(self).wf() && final(self).view() == old(self).view().insert(
                old(self).pairs()[i as int].0,
                value,
            ),
    {
        let mut v = value;
        let e = &mut self.entries[i];
        std::mem::swap(&mut e.1, &mut v);
        assert(self.pairs() =~= old(self).pairs().update(
            i as int,
            (old(self).pairs()[i as int].0, value),
        ));
        proof {
            if old(self).wf() {
                lemma_map_of_update(old(self).pairs(), i as int, value);
            }
        }
        v
    }

    /// The position of `key`, if it is present.
    pub fn index_of(&self, key: &str) -> (res: Option<usize>)
        requires
            self.wf(),
        ensures
            match res {
                Some(i) => i < self.pairs().len() && self.pairs()[i as int].0 == key@,
                None => forall|i: int| 0 <= i < self.pairs().len() ==> self.pairs()[i].0 != key@,
            },
    {
        let mut i: usize = 0;
        while i < self.entries.len()
            invariant
                i <= self.entries.len() == self.pairs().len(),
                forall|j: int| 0 <= j < i ==> self.pairs()[j].0 != key@,
            decreases self.entries.len() - i,
        {
            if str_eq(self.entries[i].0.as_str(), key) {
                return Some(i);
            }
            i = i + 1;
        }
        None
    }

    /// The value for `key`, if the map has one.
    pub fn get(&self, key: &str) -> (res: Option<&V>)
        requires
            self.wf(),
        ensures
            match res {
                Some(v) => self.view().contains_key(key@) && *v == self.view()[key@],
                None => !self.view().contains_key(key@),
            },
    {
        proof {
            lemma_map_of_entries(self.pairs());
        }
        match self.index_of(key) {
            Some(i) => {
                assert(self.pairs()[i as int] == (self.entries@[i as int].0@, self.entries@[i as int].1));
                assert(self.view().contains_key(self.pairs()[i as int].0));
                Some(&self.entries[i].1)
            },
            None => None,
        }
    }

    /// Sets the value for `key`: an existing entry keeps its place, a new key is
    /// added at the end.
    pub fn insert(&mut self, key: String, value: V)
        requires
            old(self).wf(),
        ensures
            final(self).wf(),
            final(self).view() == old(self).view().insert(key@, value),
            match old(self).index_of_spec(key@) {
                Some(i) => final(self).pairs() == old(self).pairs().update(i, (key@, value)),
                None => final(self).pairs() == old(self).pairs().push((key@, value)),
            },
    {
        let ghost p = self.pairs();
        proof {
            lemma_map_of_entries(p);
        }
        match self.index_of(key.as_str()) {
            Some(i) => {
                let ghost k = key@;
                let e = &mut self.entries[i];
                *e = (key, value);
                let ghost q = p.update(i as int, (k, value));
                assert(self.pairs() =~= q);
                assert(keys_distinct(q));
                proof {
                    lemma_map_of_entries(q);
                    assert(map_of(q) =~= map_of(p).insert(k, value)) by {
                        assert forall|x: Seq<char>| #[trigger]
                            map_of(q).contains_key(x) <==> map_of(p).insert(k, value).contains_key(x) by {
                            if map_of(q).contains_key(x) {
                                let j = choose|j: int| 0 <= j < q.len() && q[j].0 == x;
                                if j != i {
                                    assert(p[j].0 == x);
                                }
                            }
                            if map_of(p).contains_key(x) {
                                let j = choose|j: int| 0 <= j < p.len() && p[j].0 == x;
                                assert(q[j].0 == x);
                            }
                        }
                        assert forall|x: Seq<char>| #[trigger] map_of(q).contains_key(x) implies map_of(q)[x]
                            == map_of(p).insert(k, value)[x] by {
                            let j = choose|j: int| 0 <= j < q.len() && q[j].0 == x;
                            if j != i {
                                assert(p[j] == q[j]);
                            }
                        }
                    }
                    assert(old(self).index_of_spec(k) == Some(i as int));
                }
            },
            None => {
                let ghost k = key@;
                self.entries.push((key, value));
                assert(self.pairs() =~= p.push((k, value)));
                assert(self.pairs().drop_last() =~= p);
                proof {
                    assert(old(self).index_of_spec(k) is None);
                }
            },
        }
    }

    /// The position of the entry for `key`, if any.
    pub open spec fn index_of_spec(self, key: Seq<char>) -> Option<int> {
        if exists|i: int| 0 <= i < self.pairs().len() && self.pairs()[i].0 == key {
            Some(choose|i: int| 0 <= i < self.pairs().len() && self.pairs()[i].0 == key)
        } else {
            None
        }
    }
}

impl<V: Clone> StrMap<V> {
    /// A copy of the map whose values are clones of the values here.
    pub fn duplicate(&self) -> (res: Self)
        requires
            self.wf(),
            forall|a: V, b: V| #[trigger] cloned::<V>(a, b) ==> a == b,
        ensures
            res.wf(),
            res.pairs() == self.pairs(),
            res.view() == self.view(),
    {
        let mut entries: Vec<(String, V)> = Vec::new();
        let mut i: usize = 0;
        while i < self.entries.len()
            invariant
                i <= self.entries.len(),
                forall|a: V, b: V| #[trigger] cloned::<V>(a, b) ==> a == b,
                entries@.len() == i,
                forall|j: int|
                    0 <= j < i ==> (#[trigger] entries@[j]).0@ == self.pairs()[j].0 && entries@[j].1
                        == self.pairs()[j].1,
            decreases self.entries.len() - i,
        {
            let k = self.entries[i].0.clone();
            let v = self.entries[i].1.clone();
            assert(cloned::<V>(self.entries@[i as int].1, v));
            assert(v == self.entries@[i as int].1);
            let ghost before = entries@;
            entries.push((k, v));
            assert(entries@ == before.push((k, v)));
            assert(k@ == self.entries@[i as int].0@);
            assert(self.pairs()[i as int] == (k@, v));
            i = i + 1;
        }
        let res = StrMap { entries };
        assert(res.pairs() =~= self.pairs());
        res
    }
}

} // verus!
