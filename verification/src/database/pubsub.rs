//! The publish/subscribe registry: a map from channel name to the set of
//! subscribers currently listening on it.
//!
//! Each connection owns one mailbox and one subscriber id. Subscribing registers
//! the id under a channel name; publishing looks the channel up and names every
//! registered id, so that the (pre-encoded) message can be put into each mailbox.
use vstd::prelude::*;

use crate::keyed_map;
use crate::keyed_map::KeyedMap;
use crate::resp;
use crate::text;

verus! {

/// A message and the subscribers it goes to.
pub struct Delivery {
    pub message: String,
    pub recipients: Vec<u64>,
}

/// The pub/sub reply `["message", channel, payload]`.
pub open spec fn message_frame(channel: Seq<char>, payload: Seq<char>) -> Seq<char> {
    resp::array_frame(seq!["message"@, channel, payload])
}

/// The subscribers of each channel that has any.
pub type Channels = Map<Seq<char>, Set<u64>>;

pub open spec fn after_subscribe(channels: Channels, channel: Seq<char>, id: u64) -> Channels {
    channels.insert(channel, subscribers_of(channels, channel).insert(id))
}

pub open spec fn after_unsubscribe(channels: Channels, channel: Seq<char>, id: u64) -> Channels {
    if subscribers_of(channels, channel).remove(id) == Set::<u64>::empty() {
        channels.remove(channel)
    } else {
        channels.insert(channel, subscribers_of(channels, channel).remove(id))
    }
}

pub open spec fn subscribers_of(channels: Channels, channel: Seq<char>) -> Set<u64> {
    if channels.contains_key(channel) {
        channels[channel]
    } else {
        Set::empty()
    }
}

/// A registry of channel subscriptions.
pub struct PubSub {
    channels: KeyedMap<Vec<u64>>,
    next_id: u64,
}

impl View for PubSub {
    type V = Channels;

    closed spec fn view(&self) -> Channels {
        self.channels@.map_values(|ids: Vec<u64>| ids@.to_set())
    }
}

impl Default for PubSub {
    fn default() -> (r: Self)
        ensures
            r@ == Channels::empty(),
            r.upcoming_id() == 0,
    {
        PubSub::new()
    }
}

impl PubSub {
    /// Every registered channel has subscribers, each listed once.
    #[verifier::type_invariant]
    spec fn well_formed(self) -> bool {
        forall|channel: Seq<char>| #[trigger]
            self.channels@.contains_key(channel) ==> self.channels@[channel]@.len() > 0
                && self.channels@[channel]@.no_duplicates()
    }

    /// The id that the next connection gets.
    pub closed spec fn upcoming_id(&self) -> u64 {
        self.next_id
    }

    pub fn new() -> (r: Self)
        ensures
            r@ == Channels::empty(),
            r.upcoming_id() == 0,
    {
        let r = PubSub { channels: KeyedMap::new(), next_id: 0 };
        assert(r@ =~= Channels::empty());
        r
    }

    /// Hands out a subscriber id for a new connection. Ids are unique until
    /// they wrap around.
    pub fn next_id(&mut self) -> (r: u64)
        ensures
            r == old(self).upcoming_id(),
            final(self).upcoming_id() == (if r == u64::MAX {
                0
            } else {
                r + 1
            }),
            final(self)@ == old(self)@,
    {
        let mut taken = PubSub::new();
        std::mem::swap(self, &mut taken);
        proof {
            use_type_invariant(&taken);
        }
        let PubSub { channels, next_id } = taken;
        *self = PubSub { channels, next_id: next_id.wrapping_add(1) };
        next_id
    }

    /// Registers subscriber `id` on `channel`.
    pub fn subscribe(&mut self, channel: String, id: u64)
        ensures
            final(self)@ == after_subscribe(old(self)@, channel@, id),
            final(self).upcoming_id() == old(self).upcoming_id(),
    {
        let mut taken = PubSub::new();
        std::mem::swap(self, &mut taken);
        proof {
            use_type_invariant(&taken);
        }
        let ghost before = taken@;
        let PubSub { mut channels, next_id } = taken;
        let mut ids: Vec<u64> = match channels.remove(channel.as_str()) {
            Some(ids) => ids,
            None => Vec::new(),
        };
        let ghost listed = ids@;
        assert(listed.to_set() =~= subscribers_of(before, channel@));
        match find_id(&ids, id) {
            Some(_) => {
                assert(listed.to_set().insert(id) =~= listed.to_set());
            },
            None => {
                ids.push(id);
                assert(ids@.to_set() =~= listed.to_set().insert(id)) by {
                    lemma_push_to_set(listed, id);
                }
            },
        }
        channels.insert(channel, ids);
        *self = PubSub { channels, next_id };
        assert(self@ =~= after_subscribe(before, channel@, id));
    }

    /// Removes subscriber `id` from `channel`, dropping the channel entry once it
    /// has no subscribers left.
    pub fn unsubscribe(&mut self, channel: &str, id: u64)
        ensures
            final(self)@ == after_unsubscribe(old(self)@, channel@, id),
            final(self).upcoming_id() == old(self).upcoming_id(),
    {
        let mut taken = PubSub::new();
        std::mem::swap(self, &mut taken);
        proof {
            use_type_invariant(&taken);
        }
        let ghost before = taken@;
        let PubSub { mut channels, next_id } = taken;
        match channels.remove(channel) {
            Some(ids) => {
                let mut left: Vec<u64> = ids;
                let ghost listed = left@;
                assert(listed.to_set() == subscribers_of(before, channel@));
                match find_id(&left, id) {
                    Some(at) => {
                        let _ = left.remove(at);
                        proof {
                            lemma_remove_to_set(listed, at as int);
                        }
                    },
                    None => {
                        assert(listed.to_set().remove(id) =~= listed.to_set());
                    },
                }
                assert(left@.to_set() == subscribers_of(before, channel@).remove(id));
                if left.len() > 0 {
                    proof {
                        assert(left@.to_set().contains(left@[0]));
                    }
                    channels.insert(channel.to_owned(), left);
                } else {
                    assert(left@.to_set() =~= Set::<u64>::empty());
                }
            },
            None => {
                assert(subscribers_of(before, channel@).remove(id) =~= Set::<u64>::empty());
            },
        }
        *self = PubSub { channels, next_id };
        assert(self@ =~= after_unsubscribe(before, channel@, id));
    }

    /// Addresses `payload` to every subscriber of `channel`. The message is
    /// encoded once as the standard pub/sub reply `["message", channel,
    /// payload]`.
    pub fn publish(&self, channel: &str, payload: &str) -> (r: Delivery)
        ensures
            r.message@ == message_frame(channel@, payload@),
            keyed_map::enumerates(r.recipients@, subscribers_of(self@, channel@)),
    {
        proof {
            use_type_invariant(self);
        }
        let recipients: Vec<u64> = match self.channels.get(channel) {
            Some(ids) => copy_ids(ids),
            None => Vec::new(),
        };
        assert(recipients@.to_set() =~= subscribers_of(self@, channel@));
        let parts: Vec<String> = vec!["message".to_owned(), channel.to_owned(), payload.to_owned()];
        assert(text::texts(parts@) =~= seq!["message"@, channel@, payload@]);
        Delivery { message: resp::array(parts.as_slice()), recipients }
    }
}

/// The position of `id` in a list of ids.
fn find_id(ids: &Vec<u64>, id: u64) -> (r: Option<usize>)
    ensures
        match r {
            Some(i) => i < ids@.len() && ids@[i as int] == id,
            None => !ids@.contains(id),
        },
{
    let mut i: usize = 0;
    while i < ids.len()
        invariant
            i <= ids@.len(),
            forall|j: int| 0 <= j < i ==> ids@[j] != id,
        decreases ids@.len() - i,
    {
        if ids[i] == id {
            return Some(i);
        }
        i = i + 1;
    }
    None
}

fn copy_ids(ids: &Vec<u64>) -> (r: Vec<u64>)
    ensures
        r@ == ids@,
{
    let mut r: Vec<u64> = Vec::new();
    let mut i: usize = 0;
    while i < ids.len()
        invariant
            i <= ids@.len(),
            r@ == ids@.take(i as int),
        decreases ids@.len() - i,
    {
        r.push(ids[i]);
        assert(ids@.take(i + 1) =~= ids@.take(i as int).push(ids@[i as int]));
        i = i + 1;
    }
    assert(ids@.take(i as int) =~= ids@);
    r
}

proof fn lemma_push_to_set(ids: Seq<u64>, id: u64)
    ensures
        ids.push(id).to_set() =~= ids.to_set().insert(id),
{
    assert forall|x: u64| ids.push(id).to_set().contains(x) == ids.to_set().insert(id).contains(
        x,
    ) by {
        if ids.to_set().contains(x) {
            let i = choose|i: int| 0 <= i < ids.len() && ids[i] == x;
            assert(ids.push(id)[i] == x);
        }
        assert(ids.push(id)[ids.len() as int] == id);
    }
}

proof fn lemma_remove_to_set(ids: Seq<u64>, at: int)
    requires
        ids.no_duplicates(),
        0 <= at < ids.len(),
    ensures
        ids.remove(at).to_set() == ids.to_set().remove(ids[at]),
        ids.remove(at).no_duplicates(),
{
    let left = ids.remove(at);
    assert forall|x: u64| left.to_set().contains(x) == ids.to_set().remove(ids[at]).contains(
        x,
    ) by {
        if left.to_set().contains(x) {
            let i = choose|i: int| 0 <= i < left.len() && left[i] == x;
            if i < at {
                assert(ids[i] == x);
            } else {
                assert(ids[i + 1] == x);
            }
        }
        if ids.to_set().remove(ids[at]).contains(x) {
            let i = choose|i: int| 0 <= i < ids.len() && ids[i] == x;
            if i < at {
                assert(left[i] == x);
            } else {
                assert(left[i - 1] == x);
            }
        }
    }
    assert(left.to_set() =~= ids.to_set().remove(ids[at]));
}

/// A subscriber gets what is published on its channel until it leaves it: after
/// subscribing it is among the subscribers, after unsubscribing it is not, and
/// nobody else is affected either time.
pub proof fn lemma_subscription_lasts_until_unsubscribed(
    channels: Channels,
    channel: Seq<char>,
    id: u64,
    other_channel: Seq<char>,
    other: u64,
)
    ensures
        subscribers_of(after_subscribe(channels, channel, id), channel).contains(id),
        !subscribers_of(after_unsubscribe(channels, channel, id), channel).contains(id),
        (other_channel != channel || other != id) ==> {
            &&& subscribers_of(
                after_subscribe(channels, channel, id),
                other_channel,
            ).contains(other) == subscribers_of(channels, other_channel).contains(other)
            &&& subscribers_of(
                after_unsubscribe(channels, channel, id),
                other_channel,
            ).contains(other) == subscribers_of(channels, other_channel).contains(other)
        },
{
    let left = subscribers_of(channels, channel).remove(id);
    if left == Set::<u64>::empty() && other_channel == channel && other != id {
        assert(left.contains(other) == subscribers_of(channels, channel).contains(other));
    }
}

/// A channel is registered as long as it has a subscriber, and no longer.
pub proof fn lemma_channels_come_and_go(
    channels: Channels,
    channel: Seq<char>,
    id: u64,
    other: Seq<char>,
)
    requires
        channels.contains_key(channel) ==> channels[channel] != Set::<u64>::empty(),
    ensures
        after_subscribe(channels, channel, id).contains_key(channel),
        after_unsubscribe(channels, channel, id).contains_key(channel) == (exists|x: u64|
            channels.contains_key(channel) && #[trigger] channels[channel].contains(x) && x != id),
        other != channel ==> after_subscribe(channels, channel, id).contains_key(other)
            == channels.contains_key(other),
        other != channel ==> after_unsubscribe(channels, channel, id).contains_key(other)
            == channels.contains_key(other),
{
    let left = subscribers_of(channels, channel).remove(id);
    if left == Set::<u64>::empty() {
        assert forall|x: u64| channels.contains_key(channel) && x != id implies
            !#[trigger] channels[channel].contains(x) by {
            assert(!left.contains(x));
        }
    } else {
        assert(exists|x: u64| left.contains(x)) by {
            if forall|x: u64| !left.contains(x) {
                assert(left =~= Set::<u64>::empty());
            }
        }
        let x = choose|x: u64| left.contains(x);
        assert(channels[channel].contains(x));
    }
}

} // verus!
