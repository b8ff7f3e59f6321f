//! Lists, sets, hashes and sorted sets, and the order of scores.
use ordered_float::OrderedFloat;

use redis_clone::database::data_structure::{
    normalize_index, resolve_range, RHash, RList, RSet, RSortedSet,
};
use redis_clone::keyed_map::KeyedMap;
use redis_clone::score::{is_text_before, Score};

fn owned(items: &[&str]) -> Vec<String> {
    items.iter().map(|s| s.to_string()).collect()
}

fn score(value: f64) -> Score {
    Score::new(value.to_bits(), value.to_string())
}

fn number(score: Score) -> f64 {
    f64::from_bits(score.bits)
}

#[test]
fn list_range_handles_negative_and_out_of_bounds() {
    let mut list = RList::new();
    for value in ["a", "b", "c", "d"] {
        list.rpush(value.to_string());
    }
    assert_eq!(list.lrange(0, -1), owned(&["a", "b", "c", "d"]));
    assert_eq!(list.lrange(-2, -1), owned(&["c", "d"]));
    assert_eq!(list.lrange(0, 100), owned(&["a", "b", "c", "d"]));
    assert_eq!(list.lrange(2, 1), Vec::<String>::new());
    assert_eq!(RList::new().lrange(0, -1), Vec::<String>::new());
}

#[test]
fn set_add_remove_and_membership() {
    let mut set = RSet::new();
    assert!(set.sadd("x".to_string()));
    assert!(!set.sadd("x".to_string()));
    assert!(set.sismember("x"));
    assert!(set.srem("x"));
    assert!(set.is_empty());
}

#[test]
fn hash_set_get_and_remove() {
    let mut hash = RHash::new();
    assert!(hash.hset("f".to_string(), "1".to_string())); // newly added
    assert!(!hash.hset("f".to_string(), "2".to_string())); // overwritten
    assert_eq!(hash.hget("f"), Some(&"2".to_string()));
    assert!(hash.hexists("f"));
    assert_eq!(hash.hlen(), 1);
    assert!(hash.hdel("f"));
    assert!(!hash.hdel("f"));
    assert!(hash.is_empty());
}

#[test]
fn sorted_set_orders_by_score_and_counts_only_new_members() {
    let mut zset = RSortedSet::new();
    assert!(zset.zadd(score(1.0), "a".to_string()));
    assert!(!zset.zadd(score(2.0), "a".to_string())); // update, not an add
    assert!(zset.zadd(score(0.5), "b".to_string()));
    assert_eq!(zset.zrange(0, -1), owned(&["b", "a"]));
    assert_eq!(zset.zscore("a").map(number), Some(2.0));
    assert_eq!(zset.zscore("missing").map(number), None);
}

#[test]
fn ranges_and_indices_are_resolved() {
    assert_eq!(resolve_range(0, -1, 3), Some((0, 2)));
    assert_eq!(resolve_range(-100, 100, 3), Some((0, 2)));
    assert_eq!(resolve_range(3, 5, 3), None);
    assert_eq!(resolve_range(0, -4, 3), None);
    assert_eq!(resolve_range(0, 0, 0), None);
    assert_eq!(resolve_range(i64::MIN, i64::MAX, 1), Some((0, 0)));
    assert_eq!(normalize_index(-1, 3), Some(2));
    assert_eq!(normalize_index(-4, 3), None);
    assert_eq!(normalize_index(3, 3), None);
    assert_eq!(normalize_index(0, 0), None);
}

#[test]
fn list_ends_and_elements() {
    let mut list = RList::new();
    list.rpush("b".to_string());
    list.lpush("a".to_string());
    list.rpush("c".to_string());
    assert_eq!(list.len(), 3);
    assert_eq!(list.lindex(1), Some("b".to_string()));
    assert!(list.lset(-2, "x".to_string()));
    assert!(!list.lset(3, "x".to_string()));
    assert_eq!(list.lrange(0, -1), owned(&["a", "x", "c"]));
    assert_eq!(list.lpop(), Some("a".to_string()));
    assert_eq!(list.rpop(), Some("c".to_string()));
    assert_eq!(list.rpop(), Some("x".to_string()));
    assert_eq!(list.lpop(), None);
    assert!(list.is_empty());
}

#[test]
fn sets_pop_each_member_once() {
    let mut set = RSet::new();
    for member in ["a", "b", "c"] {
        set.sadd(member.to_string());
    }
    assert_eq!(set.scard(), 3);
    let mut members = set.smembers();
    members.sort();
    assert_eq!(members, owned(&["a", "b", "c"]));
    let mut popped = Vec::new();
    while let Some(member) = set.spop() {
        popped.push(member);
    }
    popped.sort();
    assert_eq!(popped, owned(&["a", "b", "c"]));
}

#[test]
fn hashes_list_keys_and_values_in_one_order() {
    let mut hash = RHash::new();
    for (field, value) in [("a", "1"), ("b", "2"), ("c", "3")] {
        hash.hset(field.to_string(), value.to_string());
    }
    hash.hdel("a");
    let pairs: Vec<(String, String)> =
        hash.hkeys().into_iter().zip(hash.hvals()).collect();
    assert_eq!(pairs, hash.hgetall());
    assert_eq!(pairs.len(), 2);
}

#[test]
fn sorted_set_ranks_ties_by_member() {
    let mut zset = RSortedSet::new();
    for (value, member) in [(1.0, "b"), (1.0, "a"), (-1.0, "z"), (2.0, "c")] {
        zset.zadd(score(value), member.to_string());
    }
    assert_eq!(zset.zrange(0, -1), owned(&["z", "a", "b", "c"]));
    assert_eq!(zset.zrank("b"), Some(2));
    assert_eq!(zset.zrank("missing"), None);
    assert_eq!(zset.zcard(), 4);
    let scored = zset.zrange_with_scores(0, 1);
    assert_eq!(scored[0].0, "z");
    assert_eq!(scored[0].1.text, "-1");
    assert_eq!(scored[1].0, "a");
    assert_eq!(
        zset.zrange_by_score(&score(1.0), true, &score(2.0), false),
        owned(&["a", "b"])
    );
    assert_eq!(
        zset.zrange_by_score(&score(f64::NAN), true, &score(2.0), true),
        Vec::<String>::new()
    );
    assert!(zset.zrem("a"));
    assert!(!zset.zrem("a"));
    assert_eq!(zset.zrange(-1, -1), owned(&["c"]));
    // Zero is one score, whatever its sign.
    zset.zadd(score(0.0), "zero".to_string());
    zset.zadd(score(-0.0), "zero".to_string());
    assert_eq!(zset.zscore("zero").map(|s| s.text), Some("0".to_string()));
}

#[test]
fn scores_stand_in_the_order_of_ordered_floats() {
    let values = [
        f64::NAN,
        -f64::NAN,
        f64::INFINITY,
        f64::NEG_INFINITY,
        f64::MAX,
        f64::MIN,
        f64::MIN_POSITIVE,
        -f64::MIN_POSITIVE,
        5e-324,
        0.0,
        -0.0,
        1.0,
        -1.0,
        1.5,
        -2.25,
        1e300,
        -1e300,
    ];
    for a in values {
        assert_eq!(score(a).is_nan(), a.is_nan());
        for b in values {
            assert_eq!(
                score(a).place().cmp(&score(b).place()),
                OrderedFloat(a).cmp(&OrderedFloat(b)),
                "{a} {b}"
            );
            assert_eq!(score(a).is_within(&score(b), true, &score(b), true), a == b);
            assert_eq!(
                score(a).is_within(&score(b), false, &score(f64::INFINITY), true),
                a > b
            );
        }
    }
}

#[test]
fn texts_stand_in_byte_order() {
    let texts = ["", "a", "aa", "ab", "b", "B", "\u{e9}", "\u{ffff}", "\u{10000}"];
    for a in texts {
        for b in texts {
            assert_eq!(is_text_before(a, b), a < b, "{a:?} {b:?}");
        }
    }
}

#[test]
fn keyed_maps_find_and_list_their_entries() {
    let mut map = KeyedMap::new();
    assert!(map.is_empty());
    assert_eq!(map.insert("a".to_string(), 1), None);
    assert_eq!(map.insert("b".to_string(), 2), None);
    assert_eq!(map.insert("c".to_string(), 3), None);
    assert_eq!(map.insert("a".to_string(), 4), Some(1));
    assert_eq!(map.remove("b"), Some(2));
    assert_eq!(map.remove("b"), None);
    assert_eq!(map.get("a"), Some(&4));
    assert_eq!(map.get("c"), Some(&3));
    assert!(!map.contains_key("b"));
    assert_eq!(map.len(), 2);
    let mut keys = map.keys();
    keys.sort();
    assert_eq!(keys, owned(&["a", "c"]));
    map.clear();
    assert!(map.is_empty());
}
