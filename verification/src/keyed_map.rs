//! A map from text to values that can also be walked.
use vstd::hash_map::StringHashMap;
use vstd::prelude::*;

use crate::text;

verus! {

broadcast use text::lemma_texts_push;

/// `s` lists the members of `members`, each exactly once.
pub open spec fn enumerates<A>(s: Seq<A>, members: Set<A>) -> bool {
    &&& s.no_duplicates()
    &&& s.to_set() == members
}

/// The first components of a sequence of pairs.
pub open spec fn firsts<A, B>(s: Seq<(A, B)>) -> Seq<A> {
    Seq::new(s.len(), |i: int| s[i].0)
}

/// `s` lists the entries of `m`, each key exactly once.
pub open spec fn lists_entries<A, B>(s: Seq<(A, B)>, m: Map<A, B>) -> bool {
    &&& enumerates(firsts(s), m.dom())
    &&& forall|i: int| 0 <= i < s.len() ==> (#[trigger] s[i]).1 == m[s[i].0]
}

/// A map from text to values. The entries live in a dense vector; a hash index
/// gives each key its position, so lookups stay constant-time while the entries
/// can still be walked one after another.
#[verifier::reject_recursive_types(V)]
pub struct KeyedMap<V> {
    entries: Vec<(String, V)>,
    index: StringHashMap<usize>,
}

impl<V> View for KeyedMap<V> {
    type V = Map<Seq<char>, V>;

    closed spec fn view(&self) -> Map<Seq<char>, V> {
        Map::new(
            |k: Seq<char>| self.index@.contains_key(k),
            |k: Seq<char>| self.entries@[self.index@[k] as int].1,
        )
    }
}

impl<V> KeyedMap<V> {
    /// Every entry is found through the index, and the index names entries only.
    #[verifier::type_invariant]
    spec fn indexed(self) -> bool {
        &&& forall|i: int|
            0 <= i < self.entries@.len() ==> {
                let k = (#[trigger] self.entries@[i]).0@;
                self.index@.contains_key(k) && self.index@[k] == i
            }
        &&& forall|k: Seq<char>| #[trigger]
            self.index@.contains_key(k) ==> {
                &&& self.index@[k] < self.entries@.len()
                &&& self.entries@[self.index@[k] as int].0@ == k
            }
    }

    /// The empty map.
    pub fn new() -> (r: Self)
        ensures
            r@ == Map::<Seq<char>, V>::empty(),
    {
        let r = KeyedMap { entries: Vec::new(), index: StringHashMap::new() };
        assert(r@ =~= Map::<Seq<char>, V>::empty());
        r
    }

    pub fn get<'a>(&'a self, key: &str) -> (r: Option<&'a V>)
        ensures
            match r {
                Some(v) => self@.contains_key(key@) && *v == self@[key@],
                None => !self@.contains_key(key@),
            },
    {
        proof {
            use_type_invariant(self);
        }
        match self.index.get(key) {
            Some(i) => Some(&self.entries[*i].1),
            None => None,
        }
    }

    /// The keys in the order in which the entries are walked.
    pub closed spec fn order(&self) -> Seq<Seq<char>> {
        Seq::new(self.entries@.len(), |i: int| self.entries@[i].0@)
    }

    /// The number of entries. The walking order lists every key once.
    pub fn len(&self) -> (r: usize)
        ensures
            r == self@.dom().len(),
            r == self.order().len(),
            self@.dom().finite(),
            enumerates(self.order(), self@.dom()),
    {
        proof {
            use_type_invariant(self);
            let order = self.order();
            assert(order.no_duplicates()) by {
                assert forall|i: int, j: int|
                    0 <= i < order.len() && 0 <= j < order.len() && i != j implies order[i]
                    != order[j] by {
                    assert(self.entries@[i].0@ == order[i]);
                    assert(self.entries@[j].0@ == order[j]);
                }
            }
            assert forall|k: Seq<char>| order.to_set().contains(k) == self@.dom().contains(k) by {
                if self@.dom().contains(k) {
                    assert(order[self.index@[k] as int] == k);
                }
                if order.to_set().contains(k) {
                    let i = choose|i: int| 0 <= i < order.len() && order[i] == k;
                    assert(self.entries@[i].0@ == k);
                }
            }
            assert(order.to_set() =~= self@.dom());
            order.unique_seq_to_set();
        }
        self.entries.len()
    }

    pub fn is_empty(&self) -> (r: bool)
        ensures
            r == (self@ == Map::<Seq<char>, V>::empty()),
            r == (self@.dom().len() == 0),
            self@.dom().finite(),
    {
        let n = self.len();
        proof {
            if n == 0 {
                assert(self.order() =~= Seq::<Seq<char>>::empty());
                assert(self@.dom() =~= Set::<Seq<char>>::empty());
                assert(self@ =~= Map::<Seq<char>, V>::empty());
            }
        }
        n == 0
    }

    /// The entry at position `i` of the walking order.
    pub fn entry<'a>(&'a self, i: usize) -> (r: (&'a String, &'a V))
        requires
            i < self.order().len(),
        ensures
            r.0@ == self.order()[i as int],
            self@.contains_key(self.order()[i as int]),
            *r.1 == self@[self.order()[i as int]],
    {
        proof {
            use_type_invariant(self);
            assert(self.entries@[i as int].0@ == self.order()[i as int]);
        }
        let e = &self.entries[i];
        (&e.0, &e.1)
    }

    /// Every key, in walking order.
    pub fn keys(&self) -> (r: Vec<String>)
        ensures
            text::texts(r@) == self.order(),
            enumerates(text::texts(r@), self@.dom()),
    {
        let n: usize = self.len();
        let mut r: Vec<String> = Vec::new();
        let mut i: usize = 0;
        while i < n
            invariant
                n == self.order().len(),
                i <= n,
                text::texts(r@) == self.order().take(i as int),
            decreases n - i,
        {
            let (key, _) = self.entry(i);
            assert(self.order().take(i + 1) =~= self.order().take(i as int).push(key@));
            r.push(key.clone());
            i = i + 1;
        }
        proof {
            assert(self.order().take(i as int) =~= self.order());
        }
        r
    }

    pub fn contains_key(&self, key: &str) -> (r: bool)
        ensures
            r == self@.contains_key(key@),
    {
        self.get(key).is_some()
    }

    /// Removes every entry.
    pub fn clear(&mut self)
        ensures
            final(self)@ == Map::<Seq<char>, V>::empty(),
    {
        *self = KeyedMap::new();
    }

    /// Stores `value` at `key`, returning the value it replaces.
    pub fn insert(&mut self, key: String, value: V) -> (r: Option<V>)
        ensures
            final(self)@ == old(self)@.insert(key@, value),
            match r {
                Some(v) => old(self)@.contains_key(key@) && v == old(self)@[key@],
                None => !old(self)@.contains_key(key@),
            },
    {
        let previous = self.remove(key.as_str());
        let mut taken = KeyedMap::new();
        std::mem::swap(self, &mut taken);
        proof {
            use_type_invariant(&taken);
        }
        let ghost before = taken@;
        let KeyedMap { mut entries, mut index } = taken;
        assert(!before.contains_key(key@));
        let position: usize = entries.len();
        index.insert(key.clone(), position);
        entries.push((key, value));
        *self = KeyedMap { entries, index };
        assert(self@ =~= before.insert(key@, value));
        assert(before.insert(key@, value) =~= old(self)@.insert(key@, value));
        previous
    }

    /// Removes `key`, returning the value it had.
    pub fn remove(&mut self, key: &str) -> (r: Option<V>)
        ensures
            final(self)@ == old(self)@.remove(key@),
            match r {
                Some(v) => old(self)@.contains_key(key@) && v == old(self)@[key@],
                None => !old(self)@.contains_key(key@),
            },
    {
        let mut taken = KeyedMap::new();
        std::mem::swap(self, &mut taken);
        proof {
            use_type_invariant(&taken);
        }
        let ghost before = taken@;
        let KeyedMap { mut entries, mut index } = taken;
        let found = match index.get(key) {
            Some(i) => Some(*i),
            None => None,
        };
        match found {
            Some(i) => {
                let (_, value) = entries.swap_remove(i);
                index.remove(key);
                if i < entries.len() {
                    let moved = entries[i].0.clone();
                    index.insert(moved, i);
                }
                *self = KeyedMap { entries, index };
                assert(self@ =~= before.remove(key@));
                Some(value)
            },
            None => {
                *self = KeyedMap { entries, index };
                assert(self@ =~= before.remove(key@));
                None
            },
        }
    }
}

} // verus!
