//! The concrete value types stored in the database: lists, sets, hashes and
//! sorted sets. Each type owns its data and exposes only the operations the
//! command layer needs, keeping the storage details encapsulated.
use std::collections::VecDeque;

use vstd::prelude::*;

use crate::keyed_map;
use crate::keyed_map::KeyedMap;
use crate::score;
use crate::score::{does_rank_before, Score, ScoreView};
use crate::text;

verus! {

broadcast use text::lemma_texts_push;

/// An index that may count back from the end: `-1` is the last element.
pub open spec fn resolved(index: int, len: nat) -> int {
    if index < 0 {
        index + len
    } else {
        index
    }
}

/// The first position of an inclusive range: at least zero.
pub open spec fn range_start(start: int, len: nat) -> int {
    if resolved(start, len) < 0 {
        0
    } else {
        resolved(start, len)
    }
}

/// The last position of an inclusive range: at most the last element.
pub open spec fn range_stop(stop: int, len: nat) -> int {
    if resolved(stop, len) > len - 1 {
        len - 1
    } else {
        resolved(stop, len)
    }
}

/// The elements that the inclusive range `[start, stop]` selects.
pub open spec fn selected<A>(s: Seq<A>, start: int, stop: int) -> Seq<A> {
    if range_start(start, s.len()) > range_stop(stop, s.len()) {
        Seq::empty()
    } else {
        s.subrange(range_start(start, s.len()), range_stop(stop, s.len()) + 1)
    }
}

/// The element that an index selects.
pub open spec fn element_at<A>(s: Seq<A>, index: int) -> Option<A> {
    if 0 <= resolved(index, s.len()) < s.len() {
        Some(s[resolved(index, s.len())])
    } else {
        None
    }
}

/// Translate Redis-style inclusive `[start, stop]` indices into a concrete
/// `(start, stop)` pair of `usize` offsets.
///
/// Redis indices may be negative, counting back from the end (`-1` is the last
/// element), and out-of-range values are clamped rather than rejected. Returns
/// `None` when the range selects no elements.
pub fn resolve_range(start: i64, stop: i64, len: usize) -> (r: Option<(usize, usize)>)
    ensures
        r.is_some() == (range_start(start as int, len as nat) <= range_stop(
            stop as int,
            len as nat,
        )),
        match r {
            Some((from, to)) => {
                &&& from == range_start(start as int, len as nat)
                &&& to == range_stop(stop as int, len as nat)
                &&& from <= to < len
            },
            None => true,
        },
{
    if len == 0 {
        return None;
    }
    let size: i128 = len as i128;
    let low: i128 = if start < 0 {
        start as i128 + size
    } else {
        start as i128
    };
    let high: i128 = if stop < 0 {
        stop as i128 + size
    } else {
        stop as i128
    };
    let from: i128 = if low < 0 {
        0
    } else {
        low
    };
    let to: i128 = if high > size - 1 {
        size - 1
    } else {
        high
    };
    if from > to {
        return None;
    }
    Some((from as usize, to as usize))
}

/// Translate a single Redis index (possibly negative) into a concrete in-bounds
/// offset, or `None` if it falls outside the collection.
pub fn normalize_index(index: i64, len: usize) -> (r: Option<usize>)
    ensures
        r.is_some() == (0 <= resolved(index as int, len as nat) < len),
        match r {
            Some(i) => i == resolved(index as int, len as nat),
            None => true,
        },
{
    let resolved_index: i128 = if index < 0 {
        index as i128 + len as i128
    } else {
        index as i128
    };
    if 0 <= resolved_index && resolved_index < len as i128 {
        Some(resolved_index as usize)
    } else {
        None
    }
}

/// A Redis list, backed by a double-ended queue for O(1) pushes and pops at
/// both ends.
pub struct RList {
    list: VecDeque<String>,
}

impl View for RList {
    type V = Seq<Seq<char>>;

    closed spec fn view(&self) -> Seq<Seq<char>> {
        text::texts(self.list@)
    }
}

impl Default for RList {
    fn default() -> (r: Self)
        ensures
            r@ == Seq::<Seq<char>>::empty(),
    {
        RList::new()
    }
}

impl RList {
    pub fn new() -> (r: Self)
        ensures
            r@ == Seq::<Seq<char>>::empty(),
    {
        let r = RList { list: VecDeque::new() };
        assert(r@ =~= Seq::<Seq<char>>::empty());
        r
    }

    pub fn lpush(&mut self, value: String)
        ensures
            final(self)@ == seq![value@] + old(self)@,
    {
        self.list.push_front(value);
        assert(self@ =~= seq![value@] + old(self)@);
    }

    pub fn rpush(&mut self, value: String)
        ensures
            final(self)@ == old(self)@.push(value@),
    {
        self.list.push_back(value);
    }

    pub fn lpop(&mut self) -> (r: Option<String>)
        ensures
            match r {
                Some(value) => {
                    &&& old(self)@.len() > 0
                    &&& value@ == old(self)@.first()
                    &&& final(self)@ == old(self)@.drop_first()
                },
                None => old(self)@.len() == 0 && final(self)@ == old(self)@,
            },
    {
        let r = self.list.pop_front();
        assert(r.is_some() ==> self@ =~= old(self)@.drop_first());
        r
    }

    pub fn rpop(&mut self) -> (r: Option<String>)
        ensures
            match r {
                Some(value) => {
                    &&& old(self)@.len() > 0
                    &&& value@ == old(self)@.last()
                    &&& final(self)@ == old(self)@.drop_last()
                },
                None => old(self)@.len() == 0 && final(self)@ == old(self)@,
            },
    {
        let r = self.list.pop_back();
        assert(r.is_some() ==> self@ =~= old(self)@.drop_last());
        r
    }

    /// Returns the elements in the inclusive `[start, stop]` range, honouring
    /// negative indices. An empty range yields an empty vector.
    pub fn lrange(&self, start: i64, stop: i64) -> (r: Vec<String>)
        ensures
            text::texts(r@) == selected(self@, start as int, stop as int),
    {
        let mut r: Vec<String> = Vec::new();
        let len: usize = self.list.len();
        match resolve_range(start, stop, len) {
            Some((from, to)) => {
                let mut i: usize = from;
                assert(text::texts(r@) =~= self@.subrange(from as int, i as int));
                while i <= to
                    invariant
                        from <= i <= to + 1,
                        to < len == self.list@.len(),
                        text::texts(r@) == self@.subrange(from as int, i as int),
                    decreases to + 1 - i,
                {
                    assert(self@.subrange(from as int, i + 1) =~= self@.subrange(
                        from as int,
                        i as int,
                    ).push(self@[i as int]));
                    r.push(self.list[i].clone());
                    i = i + 1;
                }
            },
            None => {
                assert(text::texts(r@) =~= Seq::<Seq<char>>::empty());
            },
        }
        r
    }

    /// Returns the element at `index` (negative counts from the end), or `None`
    /// if the index is out of range.
    pub fn lindex(&self, index: i64) -> (r: Option<String>)
        ensures
            match r {
                Some(value) => element_at(self@, index as int) == Some(value@),
                None => element_at(self@, index as int) is None,
            },
    {
        match normalize_index(index, self.list.len()) {
            Some(i) => Some(self.list[i].clone()),
            None => None,
        }
    }

    /// Overwrites the element at `index`, returning `false` if the index is out
    /// of range.
    pub fn lset(&mut self, index: i64, value: String) -> (r: bool)
        ensures
            r == (0 <= resolved(index as int, old(self)@.len()) < old(self)@.len()),
            final(self)@ == if r {
                old(self)@.update(resolved(index as int, old(self)@.len()), value@)
            } else {
                old(self)@
            },
    {
        match normalize_index(index, self.list.len()) {
            Some(i) => {
                let _ = self.list.remove(i);
                self.list.insert(i, value);
                assert(self@ =~= old(self)@.update(i as int, value@));
                true
            },
            None => false,
        }
    }

    pub fn len(&self) -> (r: usize)
        ensures
            r == self@.len(),
    {
        self.list.len()
    }

    pub fn is_empty(&self) -> (r: bool)
        ensures
            r == (self@.len() == 0),
    {
        self.list.len() == 0
    }
}

/// A Redis set of unique string members.
pub struct RSet {
    set: KeyedMap<()>,
}

impl View for RSet {
    type V = Set<Seq<char>>;

    closed spec fn view(&self) -> Set<Seq<char>> {
        self.set@.dom()
    }
}

impl Default for RSet {
    fn default() -> (r: Self)
        ensures
            r@ == Set::<Seq<char>>::empty(),
    {
        RSet::new()
    }
}

impl RSet {
    pub fn new() -> (r: Self)
        ensures
            r@ == Set::<Seq<char>>::empty(),
    {
        let r = RSet { set: KeyedMap::new() };
        assert(r@ =~= Set::<Seq<char>>::empty());
        r
    }

    /// Adds a member, returning `true` if it was not already present.
    pub fn sadd(&mut self, value: String) -> (r: bool)
        ensures
            final(self)@ == old(self)@.insert(value@),
            r == !old(self)@.contains(value@),
    {
        let r = self.set.insert(value, ()).is_none();
        assert(self@ =~= old(self)@.insert(value@));
        r
    }

    /// Removes a member, returning `true` if it was present.
    pub fn srem(&mut self, value: &str) -> (r: bool)
        ensures
            final(self)@ == old(self)@.remove(value@),
            r == old(self)@.contains(value@),
    {
        let r = self.set.remove(value).is_some();
        assert(self@ =~= old(self)@.remove(value@));
        r
    }

    /// Every member, in no particular order.
    pub fn smembers(&self) -> (r: Vec<String>)
        ensures
            keyed_map::enumerates(text::texts(r@), self@),
    {
        self.set.keys()
    }

    pub fn sismember(&self, value: &str) -> (r: bool)
        ensures
            r == self@.contains(value@),
    {
        self.set.contains_key(value)
    }

    pub fn scard(&self) -> (r: usize)
        ensures
            self@.finite(),
            r == self@.len(),
    {
        self.set.len()
    }

    /// Removes and returns an arbitrary member, or `None` if the set is empty.
    pub fn spop(&mut self) -> (r: Option<String>)
        ensures
            match r {
                Some(member) => {
                    &&& old(self)@.contains(member@)
                    &&& final(self)@ == old(self)@.remove(member@)
                },
                None => old(self)@ == Set::<Seq<char>>::empty() && final(self)@ == old(self)@,
            },
    {
        if self.set.is_empty() {
            assert(self@ =~= Set::<Seq<char>>::empty());
            return None;
        }
        let _ = self.set.len();
        let member = self.set.entry(0).0.clone();
        self.srem(member.as_str());
        Some(member)
    }

    pub fn is_empty(&self) -> (r: bool)
        ensures
            r == (self@ == Set::<Seq<char>>::empty()),
            self@.finite(),
    {
        let r = self.set.is_empty();
        proof {
            if self@ == Set::<Seq<char>>::empty() {
                assert(self.set@ =~= Map::<Seq<char>, ()>::empty());
            }
        }
        r
    }
}

/// The characters of each pair of strings of a sequence.
pub open spec fn pair_texts(v: Seq<(String, String)>) -> Seq<(Seq<char>, Seq<char>)> {
    Seq::new(v.len(), |i: int| (v[i].0@, v[i].1@))
}

/// A Redis hash: a map from string field to string value, stored under a single
/// key.
pub struct RHash {
    map: KeyedMap<String>,
}

impl View for RHash {
    type V = Map<Seq<char>, Seq<char>>;

    closed spec fn view(&self) -> Map<Seq<char>, Seq<char>> {
        self.map@.map_values(|s: String| s@)
    }
}

impl Default for RHash {
    fn default() -> (r: Self)
        ensures
            r@ == Map::<Seq<char>, Seq<char>>::empty(),
    {
        RHash::new()
    }
}

impl RHash {
    pub fn new() -> (r: Self)
        ensures
            r@ == Map::<Seq<char>, Seq<char>>::empty(),
    {
        let r = RHash { map: KeyedMap::new() };
        assert(r@ =~= Map::<Seq<char>, Seq<char>>::empty());
        r
    }

    /// Sets `field` to `value`, returning `true` if the field is newly added
    /// (rather than overwritten), matching `HSET`'s "number of new fields" reply.
    pub fn hset(&mut self, field: String, value: String) -> (r: bool)
        ensures
            final(self)@ == old(self)@.insert(field@, value@),
            r == !old(self)@.contains_key(field@),
    {
        let r = self.map.insert(field, value).is_none();
        assert(self@ =~= old(self)@.insert(field@, value@));
        r
    }

    pub fn hget<'a>(&'a self, field: &str) -> (r: Option<&'a String>)
        ensures
            match r {
                Some(value) => self@.contains_key(field@) && value@ == self@[field@],
                None => !self@.contains_key(field@),
            },
    {
        self.map.get(field)
    }

    /// Removes `field`, returning `true` if it was present.
    pub fn hdel(&mut self, field: &str) -> (r: bool)
        ensures
            final(self)@ == old(self)@.remove(field@),
            r == old(self)@.contains_key(field@),
    {
        let r = self.map.remove(field).is_some();
        assert(self@ =~= old(self)@.remove(field@));
        r
    }

    /// The fields in the order in which they are listed.
    pub closed spec fn order(&self) -> Seq<Seq<char>> {
        self.map.order()
    }

    /// Returns every (field, value) pair, in no particular order.
    pub fn hgetall(&self) -> (r: Vec<(String, String)>)
        ensures
            keyed_map::lists_entries(pair_texts(r@), self@),
            keyed_map::firsts(pair_texts(r@)) == self.order(),
    {
        let n: usize = self.map.len();
        let mut r: Vec<(String, String)> = Vec::new();
        let mut i: usize = 0;
        while i < n
            invariant
                n == self.map.order().len(),
                keyed_map::enumerates(self.map.order(), self.map@.dom()),
                r@.len() == i <= n,
                forall|j: int|
                    0 <= j < i ==> (#[trigger] r@[j]).0@ == self.map.order()[j] && r@[j].1@
                        == self@[self.map.order()[j]],
            decreases n - i,
        {
            let (field, value) = self.map.entry(i);
            r.push((field.clone(), value.clone()));
            i = i + 1;
        }
        proof {
            assert(keyed_map::firsts(pair_texts(r@)) =~= self.map.order());
            assert(self@.dom() =~= self.map@.dom());
            assert forall|j: int| 0 <= j < pair_texts(r@).len() implies (#[trigger] pair_texts(
                r@,
            )[j]).1 == self@[pair_texts(r@)[j].0] by {
                assert(r@[j].0@ == self.map.order()[j]);
            }
        }
        r
    }

    pub fn hkeys(&self) -> (r: Vec<String>)
        ensures
            text::texts(r@) == self.order(),
            keyed_map::enumerates(text::texts(r@), self@.dom()),
    {
        assert(self@.dom() =~= self.map@.dom());
        self.map.keys()
    }

    /// Every value, in the order in which [`hkeys`](Self::hkeys) lists the
    /// fields.
    pub fn hvals(&self) -> (r: Vec<String>)
        ensures
            keyed_map::enumerates(self.order(), self@.dom()),
            text::texts(r@) == self.order().map_values(|f: Seq<char>| self@[f]),
    {
        let n: usize = self.map.len();
        let mut r: Vec<String> = Vec::new();
        let mut i: usize = 0;
        while i < n
            invariant
                n == self.map.order().len(),
                keyed_map::enumerates(self.map.order(), self.map@.dom()),
                r@.len() == i <= n,
                forall|j: int|
                    0 <= j < i ==> (#[trigger] r@[j])@ == self@[self.map.order()[j]],
            decreases n - i,
        {
            let (_, value) = self.map.entry(i);
            r.push(value.clone());
            i = i + 1;
        }
        proof {
            assert(text::texts(r@) =~= self.order().map_values(|f: Seq<char>| self@[f]));
            assert(self@.dom() =~= self.map@.dom());
        }
        r
    }

    pub fn hlen(&self) -> (r: usize)
        ensures
            self@.dom().finite(),
            r == self@.dom().len(),
    {
        assert(self@.dom() =~= self.map@.dom());
        self.map.len()
    }

    pub fn hexists(&self, field: &str) -> (r: bool)
        ensures
            r == self@.contains_key(field@),
    {
        self.map.contains_key(field)
    }

    pub fn is_empty(&self) -> (r: bool)
        ensures
            r == (self@ == Map::<Seq<char>, Seq<char>>::empty()),
            self@.dom().finite(),
    {
        let r = self.map.is_empty();
        proof {
            assert(self@.dom() =~= self.map@.dom());
            if r {
                assert(self@ =~= Map::<Seq<char>, Seq<char>>::empty());
            }
            if self@ == Map::<Seq<char>, Seq<char>>::empty() {
                assert(self.map@.dom() =~= self@.dom());
                assert(self.map@ =~= Map::<Seq<char>, String>::empty());
            }
        }
        r
    }
}

/// The members and scores of a sequence of scored members.
pub open spec fn scored_texts(v: Seq<(String, Score)>) -> Seq<(Seq<char>, ScoreView)> {
    Seq::new(v.len(), |i: int| (v[i].0@, v[i].1@))
}

/// Each member of `s` with its score.
pub open spec fn with_scores(
    s: Seq<Seq<char>>,
    m: Map<Seq<char>, ScoreView>,
) -> Seq<(Seq<char>, ScoreView)> {
    s.map_values(|k: Seq<char>| (k, m[k]))
}

/// Adding `member` with `score` to a sorted set. A score that stands where the
/// member's score already stands changes nothing.
pub open spec fn zset_add(
    m: Map<Seq<char>, ScoreView>,
    score: ScoreView,
    member: Seq<char>,
) -> Map<Seq<char>, ScoreView> {
    if m.contains_key(member) && score::level(m[member].bits) == score::level(score.bits) {
        m
    } else {
        m.insert(member, score)
    }
}

/// The members of a sorted set whose score lies within the bounds, in ranking
/// order.
pub open spec fn members_in_bounds(
    m: Map<Seq<char>, ScoreView>,
    min: u64,
    min_inclusive: bool,
    max: u64,
    max_inclusive: bool,
) -> Seq<Seq<char>> {
    score::ranking(m).filter(
        |k: Seq<char>| score::in_bounds(m[k].bits, min, min_inclusive, max, max_inclusive),
    )
}

/// A Redis sorted set. Two indexes are kept in sync: a map for O(1) score lookup
/// by member, and a vector that keeps the members in ranking order for range
/// queries.
pub struct RSortedSet {
    members: KeyedMap<Score>,
    sorted: Vec<(String, Score)>,
}

impl View for RSortedSet {
    type V = Map<Seq<char>, ScoreView>;

    closed spec fn view(&self) -> Map<Seq<char>, ScoreView> {
        self.members@.map_values(|s: Score| s@)
    }
}

/// `sorted` holds the entries of `m` in ranking order.
spec fn ranked(sorted: Seq<(String, Score)>, m: Map<Seq<char>, ScoreView>) -> bool {
    &&& score::is_ranking(keyed_map::firsts(scored_texts(sorted)), m)
    &&& forall|i: int| 0 <= i < sorted.len() ==> (#[trigger] sorted[i]).1@ == m[sorted[i].0@]
}

/// The number of entries that rank before the given one.
fn rank_position(sorted: &Vec<(String, Score)>, score: &Score, member: &str) -> (r: usize)
    requires
        exists|m: Map<Seq<char>, ScoreView>| ranked(sorted@, m),
    ensures
        r <= sorted@.len(),
        forall|i: int|
            0 <= i < r ==> score::ranks_before(
                (#[trigger] sorted@[i]).1@,
                sorted@[i].0@,
                score@,
                member@,
            ),
        forall|i: int|
            r <= i < sorted@.len() ==> !score::ranks_before(
                (#[trigger] sorted@[i]).1@,
                sorted@[i].0@,
                score@,
                member@,
            ),
{
    let mut low: usize = 0;
    let mut high: usize = sorted.len();
    let ghost m = choose|m: Map<Seq<char>, ScoreView>| ranked(sorted@, m);
    while low < high
        invariant
            low <= high <= sorted@.len(),
            ranked(sorted@, m),
            forall|i: int|
                0 <= i < low ==> score::ranks_before(
                    (#[trigger] sorted@[i]).1@,
                    sorted@[i].0@,
                    score@,
                    member@,
                ),
            forall|i: int|
                high <= i < sorted@.len() ==> !score::ranks_before(
                    (#[trigger] sorted@[i]).1@,
                    sorted@[i].0@,
                    score@,
                    member@,
                ),
        decreases high - low,
    {
        let middle: usize = low + (high - low) / 2;
        let entry = &sorted[middle];
        let ghost pivot = sorted@[middle as int];
        let ghost names = keyed_map::firsts(scored_texts(sorted@));
        if does_rank_before(&entry.1, entry.0.as_str(), score, member) {
            proof {
                assert forall|i: int| 0 <= i < middle + 1 implies score::ranks_before(
                    (#[trigger] sorted@[i]).1@,
                    sorted@[i].0@,
                    score@,
                    member@,
                ) by {
                    if i < middle {
                        assert(names[i] == sorted@[i].0@ && names[middle as int] == pivot.0@);
                        score::lemma_ranks_before_transitive(
                            sorted@[i].1@,
                            sorted@[i].0@,
                            pivot.1@,
                            pivot.0@,
                            score@,
                            member@,
                        );
                    }
                }
            }
            low = middle + 1;
        } else {
            proof {
                assert forall|i: int| middle <= i < sorted@.len() implies !score::ranks_before(
                    (#[trigger] sorted@[i]).1@,
                    sorted@[i].0@,
                    score@,
                    member@,
                ) by {
                    if i > middle && score::ranks_before(
                        sorted@[i].1@,
                        sorted@[i].0@,
                        score@,
                        member@,
                    ) {
                        assert(names[i] == sorted@[i].0@ && names[middle as int] == pivot.0@);
                        score::lemma_ranks_before_transitive(
                            pivot.1@,
                            pivot.0@,
                            sorted@[i].1@,
                            sorted@[i].0@,
                            score@,
                            member@,
                        );
                    }
                }
            }
            high = middle;
        }
    }
    low
}

/// Where the search for a member of the set ends up.
proof fn lemma_position_of_member(
    sorted: Seq<(String, Score)>,
    m: Map<Seq<char>, ScoreView>,
    member: Seq<char>,
    r: int,
)
    requires
        ranked(sorted, m),
        m.contains_key(member),
        0 <= r <= sorted.len(),
        forall|i: int|
            0 <= i < r ==> score::ranks_before(
                (#[trigger] sorted[i]).1@,
                sorted[i].0@,
                m[member],
                member,
            ),
        forall|i: int|
            r <= i < sorted.len() ==> !score::ranks_before(
                (#[trigger] sorted[i]).1@,
                sorted[i].0@,
                m[member],
                member,
            ),
    ensures
        r < sorted.len(),
        sorted[r].0@ == member,
        keyed_map::firsts(scored_texts(sorted))[r] == member,
{
    let names = keyed_map::firsts(scored_texts(sorted));
    assert(names.contains(member));
    let j = choose|j: int| 0 <= j < names.len() && names[j] == member;
    assert(names[j] == sorted[j].0@);
    score::lemma_ranks_before_irreflexive(m[member], member);
    assert(j >= r);
    if j > r {
        assert(names[r] == sorted[r].0@);
        assert(score::ranks_before(m[names[r]], names[r], m[names[j]], names[j]));
    }
}

impl Default for RSortedSet {
    fn default() -> (r: Self)
        ensures
            r@ == Map::<Seq<char>, ScoreView>::empty(),
    {
        RSortedSet::new()
    }
}

impl RSortedSet {
    #[verifier::type_invariant]
    spec fn in_sync(self) -> bool {
        ranked(self.sorted@, self@)
    }

    pub fn new() -> (r: Self)
        ensures
            r@ == Map::<Seq<char>, ScoreView>::empty(),
    {
        let r = RSortedSet { members: KeyedMap::new(), sorted: Vec::new() };
        assert(r@ =~= Map::<Seq<char>, ScoreView>::empty());
        r
    }

    /// Adds `member` with `score`, or updates its score if it already exists.
    /// Returns `true` only when the member is newly added, matching Redis'
    /// `ZADD` reply which counts added (not updated) members.
    pub fn zadd(&mut self, score: Score, member: String) -> (r: bool)
        ensures
            final(self)@ == zset_add(old(self)@, score@, member@),
            r == !old(self)@.contains_key(member@),
    {
        let is_new = match self.members.get(member.as_str()) {
            Some(current) => {
                if current.place() == score.place() {
                    return false;
                }
                false
            },
            None => true,
        };
        self.zrem(member.as_str());
        let mut taken = RSortedSet::new();
        std::mem::swap(self, &mut taken);
        proof {
            use_type_invariant(&taken);
        }
        let ghost before = taken@;
        let RSortedSet { mut members, mut sorted } = taken;
        let at: usize = rank_position(&sorted, &score, member.as_str());
        let ghost list = sorted@;
        let copy = score.duplicate();
        members.insert(member.clone(), copy);
        let ghost after = before.insert(member@, score@);
        assert(members@.map_values(|s: Score| s@) =~= after);
        sorted.insert(at, (member, score));
        proof {
            let names = keyed_map::firsts(scored_texts(list));
            let more = keyed_map::firsts(scored_texts(sorted@));
            assert(!before.contains_key(member@));
            assert(more =~= names.insert(at as int, member@));
            assert forall|i: int| 0 <= i < names.len() implies names[i] != member@ by {
                assert(before.contains_key(names[i]));
            }
            assert forall|i: int| 0 <= i < more.len() implies after.contains_key(
                #[trigger] more[i],
            ) by {
                if i < at {
                    assert(more[i] == names[i]);
                } else if i > at {
                    assert(more[i] == names[i - 1]);
                }
            }
            assert forall|k: Seq<char>| #[trigger] after.contains_key(k) implies more.contains(
                k,
            ) by {
                if k == member@ {
                    assert(more[at as int] == k);
                } else {
                    assert(before.contains_key(k));
                    let i = choose|i: int| 0 <= i < names.len() && names[i] == k;
                    if i < at {
                        assert(more[i] == k);
                    } else {
                        assert(more[i + 1] == k);
                    }
                }
            }
            assert forall|i: int| 0 <= i < names.len() implies (#[trigger] names[i])
                == list[i].0@ && list[i].1@ == before[names[i]] by {}
            assert forall|i: int, j: int|
                #![trigger more[i], more[j]]
                0 <= i < j < more.len() implies score::ranks_before(
                after[more[i]],
                more[i],
                after[more[j]],
                more[j],
            ) by {
                if j == at {
                    assert(more[i] == names[i] && names[i] == list[i].0@);
                } else if i == at {
                    assert(more[j] == names[j - 1] && names[j - 1] == list[j - 1].0@);
                    score::lemma_ranks_before_total(
                        before[names[j - 1]],
                        names[j - 1],
                        score@,
                        member@,
                    );
                } else {
                    let x = if i < at {
                        i
                    } else {
                        i - 1
                    };
                    let y = if j < at {
                        j
                    } else {
                        j - 1
                    };
                    assert(more[i] == names[x] && more[j] == names[y]);
                }
            }
            assert forall|i: int| 0 <= i < sorted@.len() implies (#[trigger] sorted@[i]).1@
                == after[sorted@[i].0@] by {
                if i < at {
                    assert(sorted@[i] == list[i]);
                    assert(names[i] == list[i].0@);
                } else if i > at {
                    assert(sorted@[i] == list[i - 1]);
                    assert(names[i - 1] == list[i - 1].0@);
                }
            }
        }
        *self = RSortedSet { members, sorted };
        assert(self@ =~= old(self)@.insert(member@, score@));
        is_new
    }

    /// Removes `member`, returning `true` if it was present.
    pub fn zrem(&mut self, member: &str) -> (r: bool)
        ensures
            final(self)@ == old(self)@.remove(member@),
            r == old(self)@.contains_key(member@),
    {
        let mut taken = RSortedSet::new();
        std::mem::swap(self, &mut taken);
        proof {
            use_type_invariant(&taken);
        }
        let ghost before = taken@;
        let RSortedSet { mut members, mut sorted } = taken;
        let ghost after = before.remove(member@);
        match members.remove(member) {
            Some(current) => {
                assert(members@.map_values(|s: Score| s@) =~= after);
                let at: usize = rank_position(&sorted, &current, member);
                let ghost list = sorted@;
                proof {
                    lemma_position_of_member(list, before, member@, at as int);
                }
                let _ = sorted.remove(at);
                proof {
                    let names = keyed_map::firsts(scored_texts(list));
                    let fewer = keyed_map::firsts(scored_texts(sorted@));
                    assert(fewer =~= names.remove(at as int));
                    assert forall|i: int| 0 <= i < names.len() && i != at implies (#[trigger]
                    names[i]) != member@ by {
                        score::lemma_ranks_before_irreflexive(before[member@], member@);
                        if i < at {
                            assert(score::ranks_before(
                                before[names[i]],
                                names[i],
                                before[names[at as int]],
                                names[at as int],
                            ));
                        } else {
                            assert(score::ranks_before(
                                before[names[at as int]],
                                names[at as int],
                                before[names[i]],
                                names[i],
                            ));
                        }
                    }
                    assert forall|i: int| 0 <= i < fewer.len() implies after.contains_key(
                        #[trigger] fewer[i],
                    ) by {
                        let x = if i < at {
                            i
                        } else {
                            i + 1
                        };
                        assert(fewer[i] == names[x]);
                    }
                    assert forall|k: Seq<char>| #[trigger]
                        after.contains_key(k) implies fewer.contains(k) by {
                        assert(before.contains_key(k));
                        let i = choose|i: int| 0 <= i < names.len() && names[i] == k;
                        if i < at {
                            assert(fewer[i] == k);
                        } else {
                            assert(fewer[i - 1] == k);
                        }
                    }
                    assert forall|i: int, j: int|
                        #![trigger fewer[i], fewer[j]]
                        0 <= i < j < fewer.len() implies score::ranks_before(
                        after[fewer[i]],
                        fewer[i],
                        after[fewer[j]],
                        fewer[j],
                    ) by {
                        let x = if i < at {
                            i
                        } else {
                            i + 1
                        };
                        let y = if j < at {
                            j
                        } else {
                            j + 1
                        };
                        assert(fewer[i] == names[x] && fewer[j] == names[y]);
                    }
                    assert forall|i: int| 0 <= i < sorted@.len() implies (#[trigger]
                    sorted@[i]).1@ == after[sorted@[i].0@] by {
                        let x = if i < at {
                            i
                        } else {
                            i + 1
                        };
                        assert(sorted@[i] == list[x]);
                        assert(names[x] == list[x].0@);
                    }
                }
                *self = RSortedSet { members, sorted };
                assert(self@ =~= after);
                true
            },
            None => {
                assert(members@.map_values(|s: Score| s@) =~= before);
                *self = RSortedSet { members, sorted };
                assert(self@ =~= after);
                false
            },
        }
    }

    /// Returns members in the inclusive `[start, stop]` rank range (ascending
    /// by score), honouring negative indices.
    pub fn zrange(&self, start: i64, stop: i64) -> (r: Vec<String>)
        ensures
            score::is_ranking(score::ranking(self@), self@),
            text::texts(r@) == selected(score::ranking(self@), start as int, stop as int),
    {
        let ghost names = keyed_map::firsts(scored_texts(self.sorted@));
        proof {
            use_type_invariant(self);
            score::lemma_is_the_ranking(names, self@);
        }
        let mut r: Vec<String> = Vec::new();
        let len: usize = self.sorted.len();
        match resolve_range(start, stop, len) {
            Some((from, to)) => {
                let mut i: usize = from;
                assert(text::texts(r@) =~= names.subrange(from as int, i as int));
                while i <= to
                    invariant
                        from <= i <= to + 1,
                        to < len == self.sorted@.len(),
                        names == keyed_map::firsts(scored_texts(self.sorted@)),
                        text::texts(r@) == names.subrange(from as int, i as int),
                    decreases to + 1 - i,
                {
                    assert(names.subrange(from as int, i + 1) =~= names.subrange(
                        from as int,
                        i as int,
                    ).push(names[i as int]));
                    r.push(self.sorted[i].0.clone());
                    i = i + 1;
                }
            },
            None => {
                assert(text::texts(r@) =~= Seq::<Seq<char>>::empty());
            },
        }
        r
    }

    pub fn zscore(&self, member: &str) -> (r: Option<Score>)
        ensures
            match r {
                Some(score) => self@.contains_key(member@) && score@ == self@[member@],
                None => !self@.contains_key(member@),
            },
    {
        match self.members.get(member) {
            Some(score) => Some(score.duplicate()),
            None => None,
        }
    }

    pub fn zcard(&self) -> (r: usize)
        ensures
            self@.dom().finite(),
            r == self@.dom().len(),
    {
        assert(self@.dom() =~= self.members@.dom());
        self.members.len()
    }

    /// Returns the 0-based rank of `member` (ascending by score), or `None` if
    /// it is not present.
    pub fn zrank(&self, member: &str) -> (r: Option<usize>)
        ensures
            score::is_ranking(score::ranking(self@), self@),
            r.is_some() == self@.contains_key(member@),
            match r {
                Some(i) => {
                    &&& i < score::ranking(self@).len()
                    &&& score::ranking(self@)[i as int] == member@
                    &&& i == score::ranking(self@).index_of(member@)
                },
                None => true,
            },
    {
        let ghost names = keyed_map::firsts(scored_texts(self.sorted@));
        proof {
            use_type_invariant(self);
            score::lemma_is_the_ranking(names, self@);
        }
        match self.members.get(member) {
            Some(score) => {
                let at: usize = rank_position(&self.sorted, score, member);
                proof {
                    lemma_position_of_member(self.sorted@, self@, member@, at as int);
                    let m = self@;
                    let k = names.index_of(member@);
                    assert(0 <= k < names.len() && names[k] == member@);
                    score::lemma_ranks_before_irreflexive(m[member@], member@);
                    if k < at {
                        assert(score::ranks_before(
                            m[names[k]],
                            names[k],
                            m[names[at as int]],
                            names[at as int],
                        ));
                    } else if at < k {
                        assert(score::ranks_before(
                            m[names[at as int]],
                            names[at as int],
                            m[names[k]],
                            names[k],
                        ));
                    }
                }
                Some(at)
            },
            None => None,
        }
    }

    /// Like [`zrange`](Self::zrange) but returns each member paired with its
    /// score, for the `WITHSCORES` option.
    pub fn zrange_with_scores(&self, start: i64, stop: i64) -> (r: Vec<(String, Score)>)
        ensures
            score::is_ranking(score::ranking(self@), self@),
            scored_texts(r@) == with_scores(
                selected(score::ranking(self@), start as int, stop as int),
                self@,
            ),
    {
        let ghost names = keyed_map::firsts(scored_texts(self.sorted@));
        proof {
            use_type_invariant(self);
            score::lemma_is_the_ranking(names, self@);
        }
        let mut r: Vec<(String, Score)> = Vec::new();
        let len: usize = self.sorted.len();
        match resolve_range(start, stop, len) {
            Some((from, to)) => {
                let mut i: usize = from;
                while i <= to
                    invariant
                        from <= i <= to + 1,
                        to < len == self.sorted@.len(),
                        ranked(self.sorted@, self@),
                        names == keyed_map::firsts(scored_texts(self.sorted@)),
                        r@.len() == i - from,
                        forall|j: int|
                            0 <= j < r@.len() ==> (#[trigger] r@[j]).0@ == names[from + j]
                                && r@[j].1@ == self@[names[from + j]],
                    decreases to + 1 - i,
                {
                    let entry = &self.sorted[i];
                    r.push((entry.0.clone(), entry.1.duplicate()));
                    i = i + 1;
                }
                assert(scored_texts(r@) =~= with_scores(
                    names.subrange(from as int, to + 1),
                    self@,
                ));
            },
            None => {
                assert(scored_texts(r@) =~= with_scores(Seq::<Seq<char>>::empty(), self@));
            },
        }
        r
    }

    /// Returns members whose score falls within the given bounds (ascending by
    /// score). Each bound carries an `inclusive` flag, supporting Redis'
    /// exclusive `(` syntax and `+inf`/`-inf`.
    pub fn zrange_by_score(
        &self,
        min: &Score,
        min_inclusive: bool,
        max: &Score,
        max_inclusive: bool,
    ) -> (r: Vec<String>)
        ensures
            score::is_ranking(score::ranking(self@), self@),
            text::texts(r@) == members_in_bounds(
                self@,
                min.bits,
                min_inclusive,
                max.bits,
                max_inclusive,
            ),
    {
        let ghost names = keyed_map::firsts(scored_texts(self.sorted@));
        let ghost m = self@;
        let ghost keep = |k: Seq<char>|
            score::in_bounds(m[k].bits, min.bits, min_inclusive, max.bits, max_inclusive);
        proof {
            use_type_invariant(self);
            score::lemma_is_the_ranking(names, self@);
        }
        let mut r: Vec<String> = Vec::new();
        let mut i: usize = 0;
        proof {
            reveal(Seq::filter);
            assert(text::texts(r@) =~= names.take(0).filter(keep));
        }
        while i < self.sorted.len()
            invariant
                i <= self.sorted@.len(),
                m == self@,
                ranked(self.sorted@, self@),
                names == keyed_map::firsts(scored_texts(self.sorted@)),
                keep == (|k: Seq<char>|
                    score::in_bounds(m[k].bits, min.bits, min_inclusive, max.bits, max_inclusive)),
                text::texts(r@) == names.take(i as int).filter(keep),
            decreases self.sorted@.len() - i,
        {
            let entry = &self.sorted[i];
            proof {
                reveal(Seq::filter);
                let next = names.take(i + 1);
                assert(next.drop_last() =~= names.take(i as int));
                assert(next.last() == names[i as int]);
                assert(names[i as int] == self.sorted@[i as int].0@);
            }
            if entry.1.is_within(min, min_inclusive, max, max_inclusive) {
                r.push(entry.0.clone());
            }
            i = i + 1;
        }
        proof {
            assert(names.take(i as int) =~= names);
        }
        r
    }

    pub fn is_empty(&self) -> (r: bool)
        ensures
            r == (self@ == Map::<Seq<char>, ScoreView>::empty()),
            self@.dom().finite(),
            score::is_ranking(score::ranking(self@), self@),
    {
        let r = self.members.is_empty();
        proof {
            use_type_invariant(self);
            score::lemma_is_the_ranking(keyed_map::firsts(scored_texts(self.sorted@)), self@);
            assert(self@.dom() =~= self.members@.dom());
            if r {
                assert(self@ =~= Map::<Seq<char>, ScoreView>::empty());
            }
            if self@ == Map::<Seq<char>, ScoreView>::empty() {
                assert(self.members@.dom() =~= self@.dom());
                assert(self.members@ =~= Map::<Seq<char>, Score>::empty());
            }
        }
        r
    }
}

} // verus!
