//! A map keyed by text that remembers the order in which keys came in.

use vstd::prelude::*;

use crate::text::same;

verus! {

/// The map with these entries, entered one after the other.
pub open spec fn map_of<V>(items: Seq<(Seq<char>, V)>) -> Map<Seq<char>, V>
    decreases items.len(),
{
    if items.len() == 0 {
        Map::empty()
    } else {
        map_of(items.drop_last()).insert(items.last().0, items.last().1)
    }
}

/// No key is listed twice.
pub open spec fn distinct_keys<V>(items: Seq<(Seq<char>, V)>) -> bool {
    forall|i: int, j: int| 0 <= i < j < items.len() ==> items[i].0 != items[j].0
}

/// A listed key maps to the value listed with it.
pub proof fn listed_key<V>(items: Seq<(Seq<char>, V)>, i: int)
    requires
        distinct_keys(items),
        0 <= i < items.len(),
    ensures
        map_of(items).contains_key(items[i].0),
        map_of(items)[items[i].0] == items[i].1,
    decreases items.len(),
{
    if i < items.len() - 1 {
        listed_key(items.drop_last(), i);
        assert(items.last().0 != items[i].0);
    }
}

/// A key that is mapped is listed.
pub proof fn mapped_key<V>(items: Seq<(Seq<char>, V)>, key: Seq<char>)
    ensures
        map_of(items).contains_key(key) ==> exists|i: int|
            0 <= i < items.len() && (#[trigger] items[i]).0 == key,
    decreases items.len(),
{
    if items.len() > 0 {
        mapped_key(items.drop_last(), key);
        if map_of(items.drop_last()).contains_key(key) {
            let i = choose|i: int|
                0 <= i < items.len() - 1 && (#[trigger] items.drop_last()[i]).0 == key;
            assert(items[i].0 == key);
        } else if items.last().0 == key {
            assert(items[items.len() - 1].0 == key);
        }
    }
}

proof fn lemma_replaced<V>(items: Seq<(Seq<char>, V)>, i: int, v: V)
    requires
        distinct_keys(items),
        0 <= i < items.len(),
    ensures
        map_of(items.update(i, (items[i].0, v))) == map_of(items).insert(items[i].0, v),
    decreases items.len(),
{
    let u = items.update(i, (items[i].0, v));
    if i < items.len() - 1 {
        lemma_replaced(items.drop_last(), i, v);
        assert(u.drop_last() =~= items.drop_last().update(i, (items[i].0, v)));
        assert(items.last().0 != items[i].0);
        assert(map_of(u) =~= map_of(items).insert(items[i].0, v));
    } else {
        assert(u.drop_last() =~= items.drop_last());
        assert(map_of(u) =~= map_of(items).insert(items[i].0, v));
    }
}

/// A map keyed by text.
pub struct StrMap<V> {
    entries: Vec<(String, V)>,
}

/// The entries, with the keys as text.
pub open spec fn text_items<V>(e: Seq<(String, V)>) -> Seq<(Seq<char>, V)> {
    e.map_values(|p: (String, V)| (p.0@, p.1))
}

impl<V> View for StrMap<V> {
    type V = Map<Seq<char>, V>;

    closed spec fn view(&self) -> Map<Seq<char>, V> {
        map_of(self.items())
    }
}

impl<V> StrMap<V> {
    #[verifier::type_invariant]
    spec fn keys_are_distinct(self) -> bool {
        distinct_keys(text_items(self.entries@))
    }

    /// The entries in the order in which their keys came in.
    pub closed spec fn items(self) -> Seq<(Seq<char>, V)> {
        text_items(self.entries@)
    }

    /// An empty map.
    pub fn new() -> (r: StrMap<V>)
        ensures
            r@ == Map::<Seq<char>, V>::empty(),
            r.items() == Seq::<(Seq<char>, V)>::empty(),
    {
        let r = StrMap { entries: Vec::new() };
        assert(r.items() =~= Seq::<(Seq<char>, V)>::empty());
        r
    }

    fn position(&self, key: &str) -> (r: Option<usize>)
        ensures
            match r {
                Some(i) => i < self.entries@.len() && self.entries@[i as int].0@ == key@,
                None => forall|i: int| 0 <= i < self.entries@.len() ==> self.entries@[i].0@ != key@,
            },
    {
        let mut i: usize = 0;
        while i < self.entries.len()
            invariant
                i <= self.entries@.len(),
                forall|j: int| 0 <= j < i ==> self.entries@[j].0@ != key@,
            decreases self.entries@.len() - i,
        {
            if same(self.entries[i].0.as_str(), key) {
                return Some(i);
            }
            i = i + 1;
        }
        None
    }

    /// The value that `key` maps to.
    pub fn get(&self, key: &str) -> (r: Option<&V>)
        ensures
            r is Some <==> self@.contains_key(key@),
            r is Some ==> *r->0 == self@[key@],
    {
        proof {
            use_type_invariant(self);
        }
        match self.position(key) {
            Some(i) => {
                proof {
                    listed_key(self.items(), i as int);
                }
                Some(&self.entries[i].1)
            },
            None => {
                proof {
                    mapped_key(self.items(), key@);
                }
                None
            },
        }
    }

    /// Map `key` to `value`. A key that is already there keeps its place.
    pub fn insert(&mut self, key: String, value: V)
        ensures
            final(self)@ == old(self)@.insert(key@, value),
            final(self).items() == (if old(self)@.contains_key(key@) {
                old(self).items().map_values(
                    |p: (Seq<char>, V)|
                        if p.0 == key@ {
                            (key@, value)
                        } else {
                            p
                        },
                )
            } else {
                old(self).items().push((key@, value))
            }),
    {
        proof {
            use_type_invariant(&*self);
        }
        let ghost before = self.items();
        let at = self.position(key.as_str());
        let mut e: Vec<(String, V)> = Vec::new();
        std::mem::swap(&mut e, &mut self.entries);
        match at {
            Some(i) => {
                proof {
                    listed_key(before, i as int);
                    lemma_replaced(before, i as int, value);
                }
                e.set(i, (key, value));
                proof {
                    assert(text_items(e@) =~= before.update(i as int, (key@, value)));
                    assert(text_items(e@) =~= before.map_values(
                        |p: (Seq<char>, V)|
                            if p.0 == key@ {
                                (key@, value)
                            } else {
                                p
                            },
                    ));
                }
            },
            None => {
                proof {
                    mapped_key(before, key@);
                }
                e.push((key, value));
                proof {
                    assert(text_items(e@) =~= before.push((key@, value)));
                    assert(text_items(e@).drop_last() =~= before);
                }
            },
        }
        self.entries = e;
    }

    /// How many keys there are.
    pub fn len(&self) -> (r: usize)
        ensures
            r == self.items().len(),
    {
        self.entries.len()
    }

    /// The key that came in at position `i`.
    pub fn key_at(&self, i: usize) -> (r: &String)
        requires
            i < self.items().len(),
        ensures
            r@ == self.items()[i as int].0,
    {
        &self.entries[i].0
    }

    /// The value of the key that came in at position `i`.
    pub fn value_at(&self, i: usize) -> (r: &V)
        requires
            i < self.items().len(),
        ensures
            *r == self.items()[i as int].1,
    {
        &self.entries[i].1
    }
}

} // verus!
