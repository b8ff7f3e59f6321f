//! The snapshot format, decoupled from the live in-memory types.
//!
//! Persisting a separate, flat representation (rather than serializing the
//! runtime structures directly) keeps the disk format stable and avoids writing
//! redundant internal state — for example a sorted set keeps two in-memory
//! indexes but only needs its `(member, score)` pairs on disk. TTLs are stored as
//! *remaining seconds* so they survive a restart, where an absolute instant would
//! be meaningless.
use vstd::prelude::*;

use crate::command::meaning;
use crate::database::data_structure;
use crate::database::data_structure::{RHash, RList, RSet, RSortedSet};
use crate::database::keyspace;
use crate::database::keyspace::{EntryView, StoreView, Value, ValueView};
use crate::keyed_map;
use crate::score;
use crate::score::{FloatReadings, ScoreView};
use crate::text;

verus! {

broadcast use text::lemma_texts_push;

/// A full point-in-time copy of the keyspace.
#[derive(Debug)]
pub struct Snapshot {
    pub entries: Vec<SnapshotEntry>,
}

/// One key: its name, optional remaining TTL, and value.
#[derive(Debug)]
pub struct SnapshotEntry {
    pub key: String,
    pub ttl_secs: Option<u64>,
    pub value: SerValue,
}

/// A serializable view of a stored value.
///
/// Sorted-set scores are stored as their string form: a JSON number cannot
/// represent a non-finite score, while the string form round-trips every one.
#[derive(Debug)]
pub enum SerValue {
    Str(String),
    List(Vec<String>),
    StrSet(Vec<String>),
    ZSet(Vec<(String, String)>),
    Hash(Vec<(String, String)>),
}

/// What a [`SerValue`] holds.
pub enum SerView {
    Str(Seq<char>),
    List(Seq<Seq<char>>),
    StrSet(Seq<Seq<char>>),
    ZSet(Seq<(Seq<char>, Seq<char>)>),
    Hash(Seq<(Seq<char>, Seq<char>)>),
}

impl View for SerValue {
    type V = SerView;

    open spec fn view(&self) -> SerView {
        match self {
            SerValue::Str(value) => SerView::Str(value@),
            SerValue::List(items) => SerView::List(text::texts(items@)),
            SerValue::StrSet(items) => SerView::StrSet(text::texts(items@)),
            SerValue::ZSet(items) => SerView::ZSet(data_structure::pair_texts(items@)),
            SerValue::Hash(items) => SerView::Hash(data_structure::pair_texts(items@)),
        }
    }
}

/// What a [`SnapshotEntry`] holds.
pub struct SnapshotEntryView {
    pub key: Seq<char>,
    pub ttl_secs: Option<u64>,
    pub value: SerView,
}

impl View for SnapshotEntry {
    type V = SnapshotEntryView;

    open spec fn view(&self) -> SnapshotEntryView {
        SnapshotEntryView { key: self.key@, ttl_secs: self.ttl_secs, value: self.value@ }
    }
}

impl View for Snapshot {
    type V = Seq<SnapshotEntryView>;

    open spec fn view(&self) -> Seq<SnapshotEntryView> {
        entry_views(self.entries@)
    }
}

pub open spec fn entry_views(entries: Seq<SnapshotEntry>) -> Seq<SnapshotEntryView> {
    Seq::new(entries.len(), |i: int| entries[i]@)
}

/// The keys of the entries.
pub open spec fn entry_keys(entries: Seq<SnapshotEntryView>) -> Seq<Seq<char>> {
    Seq::new(entries.len(), |i: int| entries[i].key)
}

/// `ser` is a flat form of `value`.
pub open spec fn records(ser: SerView, value: ValueView) -> bool {
    match (ser, value) {
        (SerView::Str(a), ValueView::Str(b)) => a == b,
        (SerView::List(a), ValueView::List(b)) => a == b,
        (SerView::StrSet(items), ValueView::StrSet(members)) => keyed_map::enumerates(
            items,
            members,
        ),
        (SerView::ZSet(items), ValueView::SortedSet(members)) => {
            &&& score::is_ranking(keyed_map::firsts(items), members)
            &&& forall|i: int|
                0 <= i < items.len() ==> (#[trigger] items[i]).1 == members[items[i].0].text
        },
        (SerView::Hash(items), ValueView::Hash(fields)) => keyed_map::lists_entries(
            items,
            fields,
        ),
        _ => false,
    }
}

/// The TTL that stands for a deadline.
pub open spec fn recorded_ttl(expires_at: Option<int>, now: u64) -> Option<u64> {
    match expires_at {
        Some(deadline) => Some(
            if keyspace::seconds_left(deadline, now) > u64::MAX {
                u64::MAX
            } else {
                keyspace::seconds_left(deadline, now) as u64
            },
        ),
        None => None,
    }
}

/// `entries` is a copy of every live key of `store`, in any order.
pub open spec fn is_snapshot(
    entries: Seq<SnapshotEntryView>,
    store: StoreView,
    now: u64,
) -> bool {
    &&& keyed_map::enumerates(entry_keys(entries), keyspace::live_keys(store, now))
    &&& forall|i: int|
        0 <= i < entries.len() ==> {
            let entry = #[trigger] entries[i];
            &&& records(entry.value, store[entry.key].value)
            &&& entry.ttl_secs == recorded_ttl(store[entry.key].expires_at, now)
        }
}

/// The sorted set that a list of members and score texts stands for. A member
/// whose score text is no number is left out.
pub open spec fn read_members(
    items: Seq<(Seq<char>, Seq<char>)>,
    readings: Map<Seq<char>, ScoreView>,
) -> Map<Seq<char>, ScoreView>
    decreases items.len(),
{
    if items.len() == 0 {
        Map::empty()
    } else {
        let before = read_members(items.drop_last(), readings);
        let (member, score_text) = items.last();
        if readings.contains_key(score_text) {
            data_structure::zset_add(before, readings[score_text], member)
        } else {
            before
        }
    }
}

/// The hash that a list of fields and values stands for; of a field that is
/// listed twice the last value counts.
pub open spec fn read_fields(items: Seq<(Seq<char>, Seq<char>)>) -> Map<Seq<char>, Seq<char>>
    decreases items.len(),
{
    if items.len() == 0 {
        Map::empty()
    } else {
        read_fields(items.drop_last()).insert(items.last().0, items.last().1)
    }
}

/// The value that a flat form stands for.
pub open spec fn restored(ser: SerView, readings: Map<Seq<char>, ScoreView>) -> ValueView {
    match ser {
        SerView::Str(value) => ValueView::Str(value),
        SerView::List(items) => ValueView::List(items),
        SerView::StrSet(items) => ValueView::StrSet(items.to_set()),
        SerView::ZSet(items) => ValueView::SortedSet(read_members(items, readings)),
        SerView::Hash(items) => ValueView::Hash(read_fields(items)),
    }
}

/// The entry that a snapshot entry becomes when it is loaded.
pub open spec fn restored_entry(
    entry: SnapshotEntryView,
    readings: Map<Seq<char>, ScoreView>,
    now: u64,
) -> EntryView {
    EntryView {
        value: restored(entry.value, readings),
        expires_at: match entry.ttl_secs {
            Some(seconds) => Some(keyspace::deadline_after(now, seconds as int)),
            None => None,
        },
    }
}

/// The keyspace that the entries give when they are loaded in turn.
pub open spec fn after_load(
    entries: Seq<SnapshotEntryView>,
    readings: Map<Seq<char>, ScoreView>,
    now: u64,
) -> StoreView
    decreases entries.len(),
{
    if entries.len() == 0 {
        Map::empty()
    } else {
        after_load(entries.drop_last(), readings, now).insert(
            entries.last().key,
            restored_entry(entries.last(), readings, now),
        )
    }
}

impl SerValue {
    /// The flat form of a value.
    pub fn record(value: &Value) -> (r: SerValue)
        ensures
            records(r@, value@),
    {
        match value {
            Value::Str(value) => SerValue::Str(value.clone()),
            Value::List(list) => {
                let items = list.lrange(0, -1);
                assert(data_structure::selected(list@, 0, -1) =~= list@);
                SerValue::List(items)
            },
            Value::StrSet(set) => SerValue::StrSet(set.smembers()),
            Value::SortedSet(zset) => SerValue::ZSet(scored_members(zset)),
            Value::Hash(hash) => SerValue::Hash(hash.hgetall()),
        }
    }

    /// The value that a flat form stands for.
    pub fn restore(self, readings: &FloatReadings) -> (r: Value)
        ensures
            r@ == restored(self@, readings@),
    {
        match self {
            SerValue::Str(value) => Value::Str(value),
            SerValue::List(items) => {
                let mut list = RList::new();
                let ghost all = text::texts(items@);
                assert(all.take(0) =~= list@);
                for item in it: items
                    invariant
                        all == text::texts(it.seq()),
                        list@ == all.take(it.index()),
                {
                    assert(all.take(it.index() + 1) =~= all.take(it.index()).push(item@));
                    list.rpush(item);
                }
                assert(all.take(all.len() as int) =~= all);
                Value::List(list)
            },
            SerValue::StrSet(items) => {
                let mut set = RSet::new();
                let ghost all = text::texts(items@);
                assert(all.take(0).to_set() =~= set@);
                for item in it: items
                    invariant
                        all == text::texts(it.seq()),
                        set@ == all.take(it.index()).to_set(),
                {
                    proof {
                        let taken = all.take(it.index());
                        assert(all.take(it.index() + 1) =~= taken.push(item@));
                        text::lemma_push_to_set(taken, item@);
                    }
                    set.sadd(item);
                }
                assert(all.take(all.len() as int) =~= all);
                Value::StrSet(set)
            },
            SerValue::ZSet(items) => {
                let mut zset = RSortedSet::new();
                let ghost all = data_structure::pair_texts(items@);
                for item in it: items
                    invariant
                        all == data_structure::pair_texts(it.seq()),
                        zset@ == read_members(all.take(it.index()), readings@),
                {
                    let (member, score_text) = item;
                    proof {
                        let next = all.take(it.index() + 1);
                        assert(next.drop_last() =~= all.take(it.index()));
                        assert(next.last() == (member@, score_text@));
                    }
                    match readings.read(score_text.as_str()) {
                        Some(score) => {
                            zset.zadd(score, member);
                        },
                        None => {},
                    }
                }
                assert(all.take(all.len() as int) =~= all);
                Value::SortedSet(zset)
            },
            SerValue::Hash(items) => {
                let mut hash = RHash::new();
                let ghost all = data_structure::pair_texts(items@);
                for item in it: items
                    invariant
                        all == data_structure::pair_texts(it.seq()),
                        hash@ == read_fields(all.take(it.index())),
                {
                    let (field, value) = item;
                    proof {
                        let next = all.take(it.index() + 1);
                        assert(next.drop_last() =~= all.take(it.index()));
                        assert(next.last() == (field@, value@));
                    }
                    hash.hset(field, value);
                }
                assert(all.take(all.len() as int) =~= all);
                Value::Hash(hash)
            },
        }
    }
}

/// The members of a sorted set in ranking order, with their scores as text.
fn scored_members(zset: &RSortedSet) -> (r: Vec<(String, String)>)
    ensures
        records(SerView::ZSet(data_structure::pair_texts(r@)), ValueView::SortedSet(zset@)),
{
    let pairs = zset.zrange_with_scores(0, -1);
    proof {
        assert(data_structure::selected(score::ranking(zset@), 0, -1) =~= score::ranking(zset@));
    }
    let ghost names = score::ranking(zset@);
    let mut r: Vec<(String, String)> = Vec::new();
    let mut i: usize = 0;
    assert(data_structure::scored_texts(pairs@).len() == names.len());
    while i < pairs.len()
        invariant
            i <= pairs@.len(),
            names.len() == pairs@.len(),
            data_structure::scored_texts(pairs@) == data_structure::with_scores(names, zset@),
            r@.len() == i,
            forall|j: int|
                0 <= j < i ==> (#[trigger] r@[j]).0@ == names[j] && r@[j].1@
                    == zset@[names[j]].text,
        decreases pairs@.len() - i,
    {
        assert(data_structure::scored_texts(pairs@)[i as int] == (
            names[i as int],
            zset@[names[i as int]],
        ));
        r.push((pairs[i].0.clone(), pairs[i].1.text.clone()));
        i = i + 1;
    }
    proof {
        let items = data_structure::pair_texts(r@);
        assert(data_structure::with_scores(names, zset@).len() == names.len());
        assert(keyed_map::firsts(items) =~= names);
        assert forall|j: int| 0 <= j < items.len() implies (#[trigger] items[j]).1
            == zset@[items[j].0].text by {
            assert(r@[j].0@ == names[j]);
        }
    }
    r
}

/// Whether `score_text` is the text of a score in the entries.
pub open spec fn has_score_text(entries: Seq<SnapshotEntryView>, score_text: Seq<char>) -> bool {
    exists|i: int| 0 <= i < entries.len() && value_has_score(
        (#[trigger] entries[i]).value,
        score_text,
    )
}

pub open spec fn value_has_score(value: SerView, score_text: Seq<char>) -> bool {
    value is ZSet && exists|j: int|
        0 <= j < value->ZSet_0.len() && (#[trigger] value->ZSet_0[j]).1 == score_text
}

impl Snapshot {
    /// The texts of all the scores in the snapshot.
    pub fn score_texts(&self) -> (r: Vec<String>)
        ensures
            forall|t: Seq<char>| #[trigger]
                text::texts(r@).contains(t) == has_score_text(self@, t),
    {
        let mut r: Vec<String> = Vec::new();
        let mut i: usize = 0;
        while i < self.entries.len()
            invariant
                i <= self.entries@.len(),
                forall|t: Seq<char>| #[trigger]
                    text::texts(r@).contains(t) == has_score_text(self@.take(i as int), t),
            decreases self.entries@.len() - i,
        {
            let ghost done = self@.take(i as int);
            let ghost more = self@.take(i + 1);
            let ghost value = self.entries@[i as int].value@;
            let ghost base = text::texts(r@);
            match &self.entries[i].value {
                SerValue::ZSet(items) => {
                    assert(value == SerView::ZSet(data_structure::pair_texts(items@)));
                    let mut j: usize = 0;
                    while j < items.len()
                        invariant
                            j <= items@.len(),
                            forall|t: Seq<char>| #[trigger]
                                text::texts(r@).contains(t) == (base.contains(t) || exists|k: int|
                                    0 <= k < j && (#[trigger] items@[k]).1@ == t),
                        decreases items@.len() - j,
                    {
                        let ghost before = text::texts(r@);
                        let score_text = items[j].1.clone();
                        r.push(score_text);
                        proof {
                            assert forall|t: Seq<char>| #[trigger]
                                text::texts(r@).contains(t) == (base.contains(t) || exists|k: int|
                                    0 <= k < j + 1 && (#[trigger] items@[k]).1@ == t) by {
                                text::lemma_push_contains(before, score_text@, t);
                                if exists|k: int| 0 <= k < j && (#[trigger] items@[k]).1@ == t {
                                    let k = choose|k: int|
                                        0 <= k < j && (#[trigger] items@[k]).1@ == t;
                                    assert(items@[k].1@ == t);
                                }
                                assert(items@[j as int].1@ == score_text@);
                            }
                        }
                        j = j + 1;
                    }
                    proof {
                        assert forall|t: Seq<char>| #[trigger]
                            value_has_score(value, t) == (exists|k: int|
                                0 <= k < items@.len() && (#[trigger] items@[k]).1@ == t) by {
                            lemma_zset_has_score(items@, t);
                        }
                    }
                },
                _ => {},
            }
            proof {
                assert forall|t: Seq<char>| #[trigger]
                    text::texts(r@).contains(t) == has_score_text(more, t) by {
                    lemma_score_text_step(done, self@[i as int], t);
                    assert(more =~= done.push(self@[i as int]));
                }
            }
            i = i + 1;
        }
        assert(self@.take(i as int) =~= self@);
        r
    }
}

proof fn lemma_zset_has_score(items: Seq<(String, String)>, t: Seq<char>)
    ensures
        value_has_score(SerView::ZSet(data_structure::pair_texts(items)), t) == (exists|k: int|
            0 <= k < items.len() && (#[trigger] items[k]).1@ == t),
{
    let pairs = data_structure::pair_texts(items);
    if value_has_score(SerView::ZSet(pairs), t) {
        let k = choose|k: int| 0 <= k < pairs.len() && (#[trigger] pairs[k]).1 == t;
        assert(items[k].1@ == t);
    }
    if exists|k: int| 0 <= k < items.len() && (#[trigger] items[k]).1@ == t {
        let k = choose|k: int| 0 <= k < items.len() && (#[trigger] items[k]).1@ == t;
        assert(SerView::ZSet(pairs)->ZSet_0[k].1 == t);
    }
}

proof fn lemma_score_text_step(
    entries: Seq<SnapshotEntryView>,
    entry: SnapshotEntryView,
    t: Seq<char>,
)
    ensures
        has_score_text(entries.push(entry), t) == (has_score_text(entries, t) || value_has_score(
            entry.value,
            t,
        )),
{
    if has_score_text(entries, t) {
        let i = choose|i: int|
            0 <= i < entries.len() && value_has_score((#[trigger] entries[i]).value, t);
        assert(entries.push(entry)[i] == entries[i]);
    }
    assert(entries.push(entry)[entries.len() as int] == entry);
}

/// Every score of the value, where it is a sorted set, is read back as it was.
pub open spec fn scores_read_back(
    value: ValueView,
    readings: Map<Seq<char>, ScoreView>,
) -> bool {
    value matches ValueView::SortedSet(members) ==> forall|member: Seq<char>| #[trigger]
        members.contains_key(member) ==> readings.contains_key(members[member].text)
            && readings[members[member].text] == members[member]
}

proof fn lemma_read_members(
    items: Seq<(Seq<char>, Seq<char>)>,
    readings: Map<Seq<char>, ScoreView>,
    members: Map<Seq<char>, ScoreView>,
)
    requires
        keyed_map::firsts(items).no_duplicates(),
        forall|i: int|
            0 <= i < items.len() ==> readings.contains_key((#[trigger] items[i]).1)
                && readings[items[i].1] == members[items[i].0],
    ensures
        read_members(items, readings).dom() == keyed_map::firsts(items).to_set(),
        forall|i: int|
            0 <= i < items.len() ==> read_members(items, readings)[(#[trigger] items[i]).0]
                == members[items[i].0],
    decreases items.len(),
{
    let names = keyed_map::firsts(items);
    if items.len() == 0 {
        assert(names.to_set() =~= Set::<Seq<char>>::empty());
        assert(read_members(items, readings).dom() =~= names.to_set());
    } else {
        let fewer = items.drop_last();
        let last = items.last();
        assert(last == items[items.len() - 1]);
        assert(keyed_map::firsts(fewer) =~= names.drop_last());
        assert forall|i: int| 0 <= i < fewer.len() implies readings.contains_key(
            (#[trigger] fewer[i]).1,
        ) && readings[fewer[i].1] == members[fewer[i].0] by {
            assert(fewer[i] == items[i]);
        }
        lemma_read_members(fewer, readings, members);
        assert(!names.drop_last().contains(last.0)) by {
            assert(names[items.len() - 1] == last.0);
        }
        assert(names =~= names.drop_last().push(last.0));
        text::lemma_push_to_set(names.drop_last(), last.0);
        assert(read_members(items, readings).dom() =~= names.to_set());
        assert forall|i: int| 0 <= i < items.len() implies read_members(items, readings)[(
        #[trigger] items[i]).0] == members[items[i].0] by {
            if i < items.len() - 1 {
                assert(fewer[i] == items[i]);
                assert(names[i] == items[i].0);
                assert(names[items.len() - 1] == last.0);
            }
        }
    }
}

proof fn lemma_read_fields(
    items: Seq<(Seq<char>, Seq<char>)>,
    fields: Map<Seq<char>, Seq<char>>,
)
    requires
        keyed_map::firsts(items).no_duplicates(),
        forall|i: int| 0 <= i < items.len() ==> (#[trigger] items[i]).1 == fields[items[i].0],
    ensures
        read_fields(items).dom() == keyed_map::firsts(items).to_set(),
        forall|i: int|
            0 <= i < items.len() ==> read_fields(items)[(#[trigger] items[i]).0]
                == fields[items[i].0],
    decreases items.len(),
{
    let names = keyed_map::firsts(items);
    if items.len() == 0 {
        assert(names.to_set() =~= Set::<Seq<char>>::empty());
        assert(read_fields(items).dom() =~= names.to_set());
    } else {
        let fewer = items.drop_last();
        let last = items.last();
        assert(last == items[items.len() - 1]);
        assert(keyed_map::firsts(fewer) =~= names.drop_last());
        assert forall|i: int| 0 <= i < fewer.len() implies (#[trigger] fewer[i]).1
            == fields[fewer[i].0] by {
            assert(fewer[i] == items[i]);
        }
        lemma_read_fields(fewer, fields);
        assert(names =~= names.drop_last().push(last.0));
        text::lemma_push_to_set(names.drop_last(), last.0);
        assert(read_fields(items).dom() =~= names.to_set());
        assert forall|i: int| 0 <= i < items.len() implies read_fields(items)[(
        #[trigger] items[i]).0] == fields[items[i].0] by {
            if i < items.len() - 1 {
                assert(fewer[i] == items[i]);
                assert(names[i] == items[i].0);
                assert(names[items.len() - 1] == last.0);
            }
        }
    }
}

/// The flat form of a value stands for that value, as long as every score is
/// read back as it was.
pub proof fn lemma_value_round_trip(
    ser: SerView,
    value: ValueView,
    readings: Map<Seq<char>, ScoreView>,
)
    requires
        records(ser, value),
        scores_read_back(value, readings),
    ensures
        restored(ser, readings) == value,
{
    match (ser, value) {
        (SerView::StrSet(items), ValueView::StrSet(members)) => {},
        (SerView::ZSet(items), ValueView::SortedSet(members)) => {
            let names = keyed_map::firsts(items);
            assert forall|i: int| 0 <= i < items.len() implies readings.contains_key(
                (#[trigger] items[i]).1,
            ) && readings[items[i].1] == members[items[i].0] by {
                assert(names[i] == items[i].0);
            }
            assert(names.no_duplicates()) by {
                assert forall|i: int, j: int|
                    0 <= i < names.len() && 0 <= j < names.len() && i != j implies names[i]
                    != names[j] by {
                    score::lemma_ranks_before_irreflexive(members[names[i]], names[i]);
                    if i < j {
                        assert(score::ranks_before(
                            members[names[i]],
                            names[i],
                            members[names[j]],
                            names[j],
                        ));
                    } else {
                        assert(score::ranks_before(
                            members[names[j]],
                            names[j],
                            members[names[i]],
                            names[i],
                        ));
                    }
                }
            }
            lemma_read_members(items, readings, members);
            let back = read_members(items, readings);
            assert forall|k: Seq<char>| back.contains_key(k) == members.contains_key(k) by {
                assert(back.contains_key(k) == names.contains(k));
            }
            assert forall|k: Seq<char>| back.contains_key(k) implies back[k] == members[k] by {
                assert(names.to_set().contains(k));
                let i = choose|i: int| 0 <= i < names.len() && names[i] == k;
                assert(items[i].0 == k);
            }
            assert(back =~= members);
        },
        (SerView::Hash(items), ValueView::Hash(fields)) => {
            lemma_read_fields(items, fields);
            let names = keyed_map::firsts(items);
            let back = read_fields(items);
            assert forall|k: Seq<char>| back.contains_key(k) implies back[k] == fields[k] by {
                assert(names.to_set().contains(k));
                let i = choose|i: int| 0 <= i < names.len() && names[i] == k;
                assert(items[i].0 == k);
            }
            assert(back =~= fields);
        },
        _ => {},
    }
}

proof fn lemma_after_load(
    entries: Seq<SnapshotEntryView>,
    readings: Map<Seq<char>, ScoreView>,
    now: u64,
)
    requires
        entry_keys(entries).no_duplicates(),
    ensures
        after_load(entries, readings, now).dom() == entry_keys(entries).to_set(),
        forall|i: int|
            0 <= i < entries.len() ==> after_load(entries, readings, now)[(
            #[trigger] entries[i]).key] == restored_entry(entries[i], readings, now),
    decreases entries.len(),
{
    let names = entry_keys(entries);
    if entries.len() == 0 {
        assert(names.to_set() =~= Set::<Seq<char>>::empty());
        assert(after_load(entries, readings, now).dom() =~= names.to_set());
    } else {
        let fewer = entries.drop_last();
        let last = entries.last();
        assert(last == entries[entries.len() - 1]);
        assert(entry_keys(fewer) =~= names.drop_last());
        lemma_after_load(fewer, readings, now);
        assert(names =~= names.drop_last().push(last.key));
        text::lemma_push_to_set(names.drop_last(), last.key);
        assert(after_load(entries, readings, now).dom() =~= names.to_set());
        assert forall|i: int| 0 <= i < entries.len() implies after_load(entries, readings, now)[(
        #[trigger] entries[i]).key] == restored_entry(entries[i], readings, now) by {
            if i < entries.len() - 1 {
                assert(fewer[i] == entries[i]);
                assert(names[i] == entries[i].key);
                assert(names[entries.len() - 1] == last.key);
            }
        }
    }
}

/// Loading a snapshot brings every live key back, and nothing else: each under
/// the whole seconds that were left of its TTL, counted from the load, and with
/// the value it had. Of a sorted set that takes its scores to be read back as
/// they were.
pub proof fn lemma_snapshot_round_trip(
    entries: Seq<SnapshotEntryView>,
    store: StoreView,
    now: u64,
    readings: Map<Seq<char>, ScoreView>,
    later: u64,
)
    requires
        is_snapshot(entries, store, now),
    ensures
        after_load(entries, readings, later).dom() == keyspace::live_keys(store, now),
        forall|key: Seq<char>| #[trigger]
            keyspace::is_live(store, key, now) ==> {
                let loaded = after_load(entries, readings, later)[key];
                &&& loaded.expires_at == match recorded_ttl(store[key].expires_at, now) {
                    Some(seconds) => Some(keyspace::deadline_after(later, seconds as int)),
                    None => None,
                }
                &&& scores_read_back(store[key].value, readings) ==> loaded.value
                    == store[key].value
            },
{
    lemma_after_load(entries, readings, later);
    assert forall|key: Seq<char>| #[trigger] keyspace::is_live(store, key, now) implies {
        let loaded = after_load(entries, readings, later)[key];
        &&& loaded.expires_at == match recorded_ttl(store[key].expires_at, now) {
            Some(seconds) => Some(keyspace::deadline_after(later, seconds as int)),
            None => None,
        }
        &&& scores_read_back(store[key].value, readings) ==> loaded.value == store[key].value
    } by {
        assert(keyspace::live_keys(store, now).contains(key));
        assert(entry_keys(entries).to_set().contains(key));
        let i = choose|i: int| 0 <= i < entries.len() && entry_keys(entries)[i] == key;
        assert(entries[i].key == key);
        if scores_read_back(store[key].value, readings) {
            lemma_value_round_trip(entries[i].value, store[key].value, readings);
        }
    }
}

/// After a load, a key without a TTL is live at any time, and a key with `n`
/// whole seconds left in the snapshot is live until `n` seconds after the load:
/// at the load itself, if at least one second was left.
pub proof fn lemma_loaded_keys_live_on(
    entries: Seq<SnapshotEntryView>,
    store: StoreView,
    now: u64,
    readings: Map<Seq<char>, ScoreView>,
    later: u64,
    key: Seq<char>,
    instant: u64,
)
    requires
        is_snapshot(entries, store, now),
        keyspace::is_live(store, key, now),
    ensures
        keyspace::is_live(after_load(entries, readings, later), key, instant) == match recorded_ttl(
            store[key].expires_at,
            now,
        ) {
            Some(seconds) => instant < keyspace::deadline_after(later, seconds as int),
            None => true,
        },
        (store[key].expires_at matches Some(deadline) ==> deadline >= now
            + keyspace::NANOS_PER_SECOND) ==> keyspace::is_live(
            after_load(entries, readings, later),
            key,
            later,
        ),
{
    lemma_snapshot_round_trip(entries, store, now, readings, later);
    assert(keyspace::live_keys(store, now).contains(key));
    match store[key].expires_at {
        Some(deadline) => {
            if deadline >= now + keyspace::NANOS_PER_SECOND {
                vstd::arithmetic::div_mod::lemma_div_is_ordered(
                    keyspace::NANOS_PER_SECOND as int,
                    deadline - now,
                    keyspace::NANOS_PER_SECOND as int,
                );
                assert(keyspace::seconds_left(deadline, now) >= 1);
            }
        },
        None => {},
    }
}

/// A snapshot has an entry for every key that is there, one each, and for no other.
pub proof fn lemma_snapshot_keys(
    entries: Seq<SnapshotEntryView>,
    store: StoreView,
    now: u64,
    key: Seq<char>,
)
    requires
        is_snapshot(entries, store, now),
    ensures
        !meaning::lacks(store, key, now) == (exists|i: int|
            0 <= i < entries.len() && (#[trigger] entries[i]).key == key),
        forall|i: int, j: int|
            0 <= i < j < entries.len() ==> (#[trigger] entries[i]).key != (
            #[trigger] entries[j]).key,
{
    let names = entry_keys(entries);
    assert(names.to_set().contains(key) == keyspace::live_keys(store, now).contains(key));
    if names.contains(key) {
        let i = choose|i: int| 0 <= i < names.len() && names[i] == key;
        assert(entries[i].key == key);
    }
    if exists|i: int| 0 <= i < entries.len() && (#[trigger] entries[i]).key == key {
        let i = choose|i: int| 0 <= i < entries.len() && (#[trigger] entries[i]).key == key;
        assert(names[i] == key);
    }
    assert forall|i: int, j: int| 0 <= i < j < entries.len() implies (#[trigger] entries[i]).key != (
    #[trigger] entries[j]).key by {
        assert(names[i] != names[j]);
    }
}

/// An entry of a snapshot records the value of its key, and the whole seconds that are
/// left of its TTL, if it has one.
pub proof fn lemma_snapshot_entry_means(
    entries: Seq<SnapshotEntryView>,
    store: StoreView,
    now: u64,
    i: int,
)
    requires
        is_snapshot(entries, store, now),
        0 <= i < entries.len(),
    ensures
        records(entries[i].value, store[entries[i].key].value),
        match store[entries[i].key].expires_at {
            None => entries[i].ttl_secs is None,
            Some(deadline) => entries[i].ttl_secs matches Some(n) && n * 1_000_000_000 <= deadline
                - now && (n < u64::MAX ==> deadline - now < (n + 1) * 1_000_000_000),
        },
{
    let key = entries[i].key;
    lemma_snapshot_keys(entries, store, now, key);
    assert(entries[i].key == key);
    match store[key].expires_at {
        Some(deadline) => {
            let span = deadline - now;
            vstd::arithmetic::div_mod::lemma_fundamental_div_mod(span, 1_000_000_000);
            vstd::arithmetic::div_mod::lemma_mod_bound(span, 1_000_000_000);
        },
        None => {},
    }
}

/// How a value is recorded: a string as it is, a list in its order, the members of a set
/// once each, the members of a sorted set in the order of their scores with the text of
/// each score, the fields of a hash once each with their values.
pub proof fn lemma_recorded_means(ser: SerView, value: ValueView)
    requires
        records(ser, value),
    ensures
        match value {
            ValueView::Str(content) => ser == SerView::Str(content),
            ValueView::List(items) => ser == SerView::List(items),
            ValueView::StrSet(members) => ser matches SerView::StrSet(items) && meaning::lists_once(
                items,
                members,
            ),
            ValueView::SortedSet(members) => ser matches SerView::ZSet(items)
                && meaning::is_rank_order(keyed_map::firsts(items), members) && forall|i: int|
                0 <= i < items.len() ==> (#[trigger] items[i]).1 == members[items[i].0].text,
            ValueView::Hash(fields) => ser matches SerView::Hash(items) && meaning::lists_once(
                keyed_map::firsts(items),
                fields.dom(),
            ) && forall|i: int|
                0 <= i < items.len() ==> (#[trigger] items[i]).1 == fields[items[i].0],
        },
{
    match (ser, value) {
        (SerView::StrSet(items), ValueView::StrSet(members)) => {
            meaning::lemma_enumerated_is_listed(items, members);
        },
        (SerView::Hash(items), ValueView::Hash(fields)) => {
            meaning::lemma_enumerated_is_listed(keyed_map::firsts(items), fields.dom());
        },
        (SerView::ZSet(items), ValueView::SortedSet(members)) => {
            let names = keyed_map::firsts(items);
            assert forall|i: int, j: int| 0 <= i < j < names.len() implies #[trigger] names[i]
                != #[trigger] names[j] by {
                score::lemma_ranking_means(names, members, i, j);
            }
            assert forall|x: Seq<char>| #[trigger]
                members.dom().contains(x) implies exists|i: int|
                0 <= i < names.len() && names[i] == x by {
                assert(members.contains_key(x));
                assert(names.contains(x));
            }
            assert forall|i: int, j: int|
                #![trigger names[i], names[j]]
                0 <= i < j < names.len() implies meaning::outranks(
                members,
                names[i],
                names[j],
            ) by {
                score::lemma_ranking_means(names, members, i, j);
            }
        },
        _ => {},
    }
}

/// What a recorded value becomes: a string and a list as they are, a set of the members
/// listed.
pub proof fn lemma_restored_means(
    content: Seq<char>,
    items: Seq<Seq<char>>,
    readings: Map<Seq<char>, ScoreView>,
    x: Seq<char>,
)
    ensures
        restored(SerView::Str(content), readings) == ValueView::Str(content),
        restored(SerView::List(items), readings) == ValueView::List(items),
        restored(SerView::StrSet(items), readings) matches ValueView::StrSet(members)
            && members.contains(x) == items.contains(x),
{
    assert(items.to_set().contains(x) == items.contains(x));
}

/// A recorded hash becomes the hash in which each field has the last value listed for
/// it; a field that is not listed is not there.
pub proof fn lemma_restored_hash_means(
    items: Seq<(Seq<char>, Seq<char>)>,
    readings: Map<Seq<char>, ScoreView>,
    i: int,
    other: Seq<char>,
)
    requires
        0 <= i < items.len(),
        forall|j: int| i < j < items.len() ==> (#[trigger] items[j]).0 != items[i].0,
        forall|j: int| 0 <= j < items.len() ==> (#[trigger] items[j]).0 != other,
    ensures
        restored(SerView::Hash(items), readings) matches ValueView::Hash(fields)
            && fields.contains_key(items[i].0) && fields[items[i].0] == items[i].1
            && !fields.contains_key(other),
{
    lemma_last_field_counts(items, i);
    lemma_unlisted_field(items, other);
}

proof fn lemma_last_field_counts(items: Seq<(Seq<char>, Seq<char>)>, i: int)
    requires
        0 <= i < items.len(),
        forall|j: int| i < j < items.len() ==> (#[trigger] items[j]).0 != items[i].0,
    ensures
        read_fields(items).contains_key(items[i].0),
        read_fields(items)[items[i].0] == items[i].1,
    decreases items.len(),
{
    let fewer = items.drop_last();
    assert(items.last() == items[items.len() - 1]);
    if i < fewer.len() {
        assert forall|j: int| i < j < fewer.len() implies (#[trigger] fewer[j]).0 != fewer[i].0 by {
            assert(fewer[j] == items[j]);
        }
        lemma_last_field_counts(fewer, i);
        assert(items[items.len() - 1].0 != items[i].0);
    }
}

proof fn lemma_unlisted_field(items: Seq<(Seq<char>, Seq<char>)>, other: Seq<char>)
    requires
        forall|j: int| 0 <= j < items.len() ==> (#[trigger] items[j]).0 != other,
    ensures
        !read_fields(items).contains_key(other),
    decreases items.len(),
{
    if items.len() > 0 {
        let fewer = items.drop_last();
        assert(items.last() == items[items.len() - 1]);
        assert forall|j: int| 0 <= j < fewer.len() implies (#[trigger] fewer[j]).0 != other by {
            assert(fewer[j] == items[j]);
        }
        lemma_unlisted_field(fewer, other);
    }
}

/// A recorded sorted set becomes the sorted set in which each member has the last score
/// listed for it that is a number; a member without one is not there.
pub proof fn lemma_restored_sorted_set_means(
    items: Seq<(Seq<char>, Seq<char>)>,
    readings: Map<Seq<char>, ScoreView>,
    i: int,
    other: Seq<char>,
)
    requires
        0 <= i < items.len(),
        readings.contains_key(items[i].1),
        forall|j: int| i < j < items.len() ==> (#[trigger] items[j]).0 != items[i].0,
        forall|j: int|
            0 <= j < items.len() && readings.contains_key((#[trigger] items[j]).1) ==> items[j].0
                != other,
    ensures
        restored(SerView::ZSet(items), readings) matches ValueView::SortedSet(members)
            && members.contains_key(items[i].0) && score::level(members[items[i].0].bits)
            == score::level(readings[items[i].1].bits) && !members.contains_key(other),
{
    lemma_last_score_counts(items, readings, i);
    lemma_unlisted_member(items, readings, other);
}

proof fn lemma_last_score_counts(
    items: Seq<(Seq<char>, Seq<char>)>,
    readings: Map<Seq<char>, ScoreView>,
    i: int,
)
    requires
        0 <= i < items.len(),
        readings.contains_key(items[i].1),
        forall|j: int| i < j < items.len() ==> (#[trigger] items[j]).0 != items[i].0,
    ensures
        read_members(items, readings).contains_key(items[i].0),
        score::level(read_members(items, readings)[items[i].0].bits) == score::level(
            readings[items[i].1].bits,
        ),
    decreases items.len(),
{
    let fewer = items.drop_last();
    assert(items.last() == items[items.len() - 1]);
    if i < fewer.len() {
        assert forall|j: int| i < j < fewer.len() implies (#[trigger] fewer[j]).0 != fewer[i].0 by {
            assert(fewer[j] == items[j]);
        }
        lemma_last_score_counts(fewer, readings, i);
        assert(items[items.len() - 1].0 != items[i].0);
    }
}

proof fn lemma_unlisted_member(
    items: Seq<(Seq<char>, Seq<char>)>,
    readings: Map<Seq<char>, ScoreView>,
    other: Seq<char>,
)
    requires
        forall|j: int|
            0 <= j < items.len() && readings.contains_key((#[trigger] items[j]).1) ==> items[j].0
                != other,
    ensures
        !read_members(items, readings).contains_key(other),
    decreases items.len(),
{
    if items.len() > 0 {
        let fewer = items.drop_last();
        assert(items.last() == items[items.len() - 1]);
        assert forall|j: int|
            0 <= j < fewer.len() && readings.contains_key((#[trigger] fewer[j]).1) implies fewer[j].0
            != other by {
            assert(fewer[j] == items[j]);
        }
        lemma_unlisted_member(fewer, readings, other);
    }
}

/// Loading gives each key the last entry listed for it, with a deadline as many seconds
/// away as the entry says; a key that is not listed is not there.
pub proof fn lemma_load_means(
    entries: Seq<SnapshotEntryView>,
    readings: Map<Seq<char>, ScoreView>,
    now: u64,
    i: int,
    other: Seq<char>,
)
    requires
        0 <= i < entries.len(),
        forall|j: int| i < j < entries.len() ==> (#[trigger] entries[j]).key != entries[i].key,
        forall|j: int| 0 <= j < entries.len() ==> (#[trigger] entries[j]).key != other,
    ensures
        ({
            let loaded = after_load(entries, readings, now);
            &&& loaded.contains_key(entries[i].key)
            &&& loaded[entries[i].key].value == restored(entries[i].value, readings)
            &&& loaded[entries[i].key].expires_at == match entries[i].ttl_secs {
                Some(n) => Some(now + n * 1_000_000_000),
                None => None::<int>,
            }
            &&& !loaded.contains_key(other)
        }),
    decreases entries.len(),
{
    let fewer = entries.drop_last();
    assert(entries.last() == entries[entries.len() - 1]);
    assert forall|j: int| 0 <= j < fewer.len() implies (#[trigger] fewer[j]).key != other by {
        assert(fewer[j] == entries[j]);
    }
    lemma_unlisted_key(fewer, readings, now, other);
    if i < fewer.len() {
        assert forall|j: int| i < j < fewer.len() implies (#[trigger] fewer[j]).key
            != fewer[i].key by {
            assert(fewer[j] == entries[j]);
        }
        lemma_load_means(fewer, readings, now, i, other);
        assert(entries[entries.len() - 1].key != entries[i].key);
    }
}

proof fn lemma_unlisted_key(
    entries: Seq<SnapshotEntryView>,
    readings: Map<Seq<char>, ScoreView>,
    now: u64,
    other: Seq<char>,
)
    requires
        forall|j: int| 0 <= j < entries.len() ==> (#[trigger] entries[j]).key != other,
    ensures
        !after_load(entries, readings, now).contains_key(other),
    decreases entries.len(),
{
    if entries.len() > 0 {
        let fewer = entries.drop_last();
        assert(entries.last() == entries[entries.len() - 1]);
        assert forall|j: int| 0 <= j < fewer.len() implies (#[trigger] fewer[j]).key != other by {
            assert(fewer[j] == entries[j]);
        }
        lemma_unlisted_key(fewer, readings, now, other);
    }
}

/// Every score text of every recorded sorted set is listed, and nothing else.
pub proof fn lemma_score_texts_listed(
    entries: Seq<SnapshotEntryView>,
    i: int,
    items: Seq<(Seq<char>, Seq<char>)>,
    j: int,
    score_text: Seq<char>,
)
    ensures
        0 <= i < entries.len() && entries[i].value == SerView::ZSet(items) && 0 <= j < items.len()
            ==> has_score_text(entries, items[j].1),
        (forall|k: int| 0 <= k < entries.len() ==> !((#[trigger] entries[k]).value is ZSet))
            ==> !has_score_text(entries, score_text),
        (forall|k: int, l: int|
            #![trigger entries[k].value->ZSet_0[l]]
            0 <= k < entries.len() && entries[k].value is ZSet && 0 <= l
                < entries[k].value->ZSet_0.len() ==> entries[k].value->ZSet_0[l].1 != score_text)
            ==> !has_score_text(entries, score_text),
{
    if 0 <= i < entries.len() && entries[i].value == SerView::ZSet(items) && 0 <= j < items.len() {
        assert(entries[i].value->ZSet_0[j].1 == items[j].1);
        assert(value_has_score(entries[i].value, items[j].1));
    }
}

} // verus!
