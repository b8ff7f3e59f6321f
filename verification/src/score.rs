//! Sorted-set scores and the order in which members are ranked.
//!
//! A score is a double-precision number, held here by its IEEE 754 bit pattern
//! together with the decimal text that stands for it in replies. Reading decimal
//! text into a bit pattern and adding two scores are the server's work; ordering
//! them needs only the bits.
use vstd::prelude::*;
use vstd::utf8::*;

use crate::keyed_map::KeyedMap;
use crate::text;

verus! {

/// The weight of the sign bit.
pub const SIGN_BIT: u64 = 0x8000_0000_0000_0000;

/// The bit pattern of positive infinity; a larger magnitude is not a number.
pub const INFINITY_BITS: u64 = 0x7FF0_0000_0000_0000;

/// The bit pattern of negative infinity.
pub const NEG_INFINITY_BITS: u64 = 0xFFF0_0000_0000_0000;

/// A score: the bits of the number, and how it is written.
pub struct Score {
    pub bits: u64,
    pub text: String,
}

/// What a score holds.
pub struct ScoreView {
    pub bits: u64,
    pub text: Seq<char>,
}

impl View for Score {
    type V = ScoreView;

    open spec fn view(&self) -> ScoreView {
        ScoreView { bits: self.bits, text: self.text@ }
    }
}

/// The magnitude of a bit pattern: everything but its sign.
pub open spec fn magnitude(bits: u64) -> int {
    if bits >= SIGN_BIT {
        bits - SIGN_BIT
    } else {
        bits as int
    }
}

pub open spec fn bits_are_nan(bits: u64) -> bool {
    magnitude(bits) > INFINITY_BITS
}

/// Where a score stands among all scores. Numbers stand in numeric order, the
/// two zeros together; whatever is not a number stands above every number.
pub open spec fn level(bits: u64) -> int {
    if bits_are_nan(bits) {
        SIGN_BIT as int
    } else if bits >= SIGN_BIT {
        -magnitude(bits)
    } else {
        magnitude(bits)
    }
}

/// `a >= b` as numbers; false where either is not a number.
pub open spec fn at_least(a: u64, b: u64) -> bool {
    !bits_are_nan(a) && !bits_are_nan(b) && level(a) >= level(b)
}

/// `a > b` as numbers; false where either is not a number.
pub open spec fn above(a: u64, b: u64) -> bool {
    !bits_are_nan(a) && !bits_are_nan(b) && level(a) > level(b)
}

/// Whether a score lies within the bounds, each of which may leave its own
/// value out.
pub open spec fn in_bounds(
    score: u64,
    min: u64,
    min_inclusive: bool,
    max: u64,
    max_inclusive: bool,
) -> bool {
    &&& if min_inclusive {
        at_least(score, min)
    } else {
        above(score, min)
    }
    &&& if max_inclusive {
        at_least(max, score)
    } else {
        above(max, score)
    }
}

impl Score {
    pub fn new(bits: u64, text: String) -> (r: Score)
        ensures
            r@ == (ScoreView { bits, text: text@ }),
    {
        Score { bits, text }
    }

    pub fn duplicate(&self) -> (r: Score)
        ensures
            r@ == self@,
    {
        Score { bits: self.bits, text: self.text.clone() }
    }

    pub fn is_nan(&self) -> (r: bool)
        ensures
            r == bits_are_nan(self.bits),
    {
        if self.bits >= SIGN_BIT {
            self.bits - SIGN_BIT > INFINITY_BITS
        } else {
            self.bits > INFINITY_BITS
        }
    }

    /// The place of this score among all scores.
    pub fn place(&self) -> (r: i128)
        ensures
            r == level(self.bits),
    {
        if self.is_nan() {
            SIGN_BIT as i128
        } else if self.bits >= SIGN_BIT {
            -((self.bits - SIGN_BIT) as i128)
        } else {
            self.bits as i128
        }
    }

    /// Whether the score lies within the bounds.
    pub fn is_within(
        &self,
        min: &Score,
        min_inclusive: bool,
        max: &Score,
        max_inclusive: bool,
    ) -> (r: bool)
        ensures
            r == in_bounds(self.bits, min.bits, min_inclusive, max.bits, max_inclusive),
    {
        if self.is_nan() || min.is_nan() || max.is_nan() {
            return false;
        }
        let here: i128 = self.place();
        let low: i128 = min.place();
        let high: i128 = max.place();
        (if min_inclusive {
            here >= low
        } else {
            here > low
        }) && (if max_inclusive {
            high >= here
        } else {
            high > here
        })
    }
}

/// Byte strings in dictionary order: `a` comes strictly before `b`.
pub open spec fn bytes_before(a: Seq<u8>, b: Seq<u8>) -> bool
    decreases a.len(),
{
    if b.len() == 0 {
        false
    } else if a.len() == 0 {
        true
    } else if a[0] != b[0] {
        a[0] < b[0]
    } else {
        bytes_before(a.skip(1), b.skip(1))
    }
}

/// Texts in dictionary order of their bytes.
pub open spec fn text_before(a: Seq<char>, b: Seq<char>) -> bool {
    bytes_before(encode_utf8(a), encode_utf8(b))
}

proof fn lemma_bytes_before_irreflexive(a: Seq<u8>)
    ensures
        !bytes_before(a, a),
    decreases a.len(),
{
    if a.len() > 0 {
        lemma_bytes_before_irreflexive(a.skip(1));
    }
}

proof fn lemma_bytes_before_transitive(a: Seq<u8>, b: Seq<u8>, c: Seq<u8>)
    requires
        bytes_before(a, b),
        bytes_before(b, c),
    ensures
        bytes_before(a, c),
    decreases a.len(),
{
    if a.len() > 0 && a[0] == b[0] && b[0] == c[0] {
        lemma_bytes_before_transitive(a.skip(1), b.skip(1), c.skip(1));
    }
}

proof fn lemma_bytes_before_total(a: Seq<u8>, b: Seq<u8>)
    ensures
        a == b || bytes_before(a, b) || bytes_before(b, a),
    decreases a.len(),
{
    if a.len() == 0 || b.len() == 0 {
        assert(a.len() == 0 && b.len() == 0 ==> a =~= b);
    } else if a[0] == b[0] {
        lemma_bytes_before_total(a.skip(1), b.skip(1));
        if a.skip(1) == b.skip(1) {
            assert(a =~= seq![a[0]] + a.skip(1));
            assert(b =~= seq![b[0]] + b.skip(1));
        }
    }
}

/// Whether `a` comes strictly before `b` in dictionary order.
pub fn is_text_before(a: &str, b: &str) -> (r: bool)
    ensures
        r == text_before(a@, b@),
{
    let x = a.as_bytes();
    let y = b.as_bytes();
    let mut i: usize = 0;
    assert(x@.skip(0) =~= x@);
    assert(y@.skip(0) =~= y@);
    while i < x.len() && i < y.len()
        invariant
            x@ == encode_utf8(a@),
            y@ == encode_utf8(b@),
            i <= x@.len(),
            i <= y@.len(),
            bytes_before(x@, y@) == bytes_before(x@.skip(i as int), y@.skip(i as int)),
        decreases x@.len() - i,
    {
        assert(x@.skip(i as int)[0] == x@[i as int]);
        assert(y@.skip(i as int)[0] == y@[i as int]);
        if x[i] != y[i] {
            return x[i] < y[i];
        }
        assert(x@.skip(i as int).skip(1) =~= x@.skip(i + 1));
        assert(y@.skip(i as int).skip(1) =~= y@.skip(i + 1));
        i = i + 1;
    }
    i < y.len()
}

/// Whether a member comes strictly before another in a ranking: by score first,
/// then by name.
pub open spec fn ranks_before(
    score: ScoreView,
    member: Seq<char>,
    other_score: ScoreView,
    other: Seq<char>,
) -> bool {
    ||| level(score.bits) < level(other_score.bits)
    ||| level(score.bits) == level(other_score.bits) && text_before(member, other)
}

pub fn does_rank_before(score: &Score, member: &str, other_score: &Score, other: &str) -> (r: bool)
    ensures
        r == ranks_before(score@, member@, other_score@, other@),
{
    let here: i128 = score.place();
    let there: i128 = other_score.place();
    here < there || (here == there && is_text_before(member, other))
}

/// No member ranks before itself.
pub proof fn lemma_ranks_before_irreflexive(score: ScoreView, member: Seq<char>)
    ensures
        !ranks_before(score, member, score, member),
{
    lemma_bytes_before_irreflexive(encode_utf8(member));
}

/// Ranking is transitive.
pub proof fn lemma_ranks_before_transitive(
    s1: ScoreView,
    m1: Seq<char>,
    s2: ScoreView,
    m2: Seq<char>,
    s3: ScoreView,
    m3: Seq<char>,
)
    requires
        ranks_before(s1, m1, s2, m2),
        ranks_before(s2, m2, s3, m3),
    ensures
        ranks_before(s1, m1, s3, m3),
{
    if level(s1.bits) == level(s2.bits) && level(s2.bits) == level(s3.bits) {
        lemma_bytes_before_transitive(encode_utf8(m1), encode_utf8(m2), encode_utf8(m3));
    }
}

/// Of two different members one ranks before the other.
pub proof fn lemma_ranks_before_total(
    s1: ScoreView,
    m1: Seq<char>,
    s2: ScoreView,
    m2: Seq<char>,
)
    ensures
        m1 == m2 || ranks_before(s1, m1, s2, m2) || ranks_before(s2, m2, s1, m1),
{
    lemma_bytes_before_total(encode_utf8(m1), encode_utf8(m2));
    if encode_utf8(m1) == encode_utf8(m2) {
        text::lemma_utf8_injective(m1, m2);
    }
}

/// `s` lists the members of a sorted set in ranking order.
pub open spec fn is_ranking(s: Seq<Seq<char>>, m: Map<Seq<char>, ScoreView>) -> bool {
    &&& forall|i: int| 0 <= i < s.len() ==> m.contains_key(#[trigger] s[i])
    &&& forall|k: Seq<char>| #[trigger] m.contains_key(k) ==> s.contains(k)
    &&& forall|i: int, j: int|
        #![trigger s[i], s[j]]
        0 <= i < j < s.len() ==> ranks_before(m[s[i]], s[i], m[s[j]], s[j])
}

/// The members of a sorted set in ranking order.
pub open spec fn ranking(m: Map<Seq<char>, ScoreView>) -> Seq<Seq<char>> {
    choose|s: Seq<Seq<char>>| is_ranking(s, m)
}

/// The members of a sorted set have only one ranking.
pub proof fn lemma_ranking_unique(
    s: Seq<Seq<char>>,
    t: Seq<Seq<char>>,
    m: Map<Seq<char>, ScoreView>,
)
    requires
        is_ranking(s, m),
        is_ranking(t, m),
    ensures
        s == t,
    decreases s.len(),
{
    if s.len() == 0 {
        if t.len() > 0 {
            assert(m.contains_key(t[0]));
        }
        assert(s =~= t);
    } else {
        assert(m.contains_key(s[0]));
        let j = choose|j: int| 0 <= j < t.len() && t[j] == s[0];
        assert(m.contains_key(t[0]));
        let i = choose|i: int| 0 <= i < s.len() && s[i] == t[0];
        if i != 0 && j != 0 {
            assert(ranks_before(m[s[0]], s[0], m[s[i]], s[i]));
            assert(ranks_before(m[t[0]], t[0], m[t[j]], t[j]));
            lemma_ranks_before_transitive(m[s[0]], s[0], m[t[0]], t[0], m[s[0]], s[0]);
            lemma_ranks_before_irreflexive(m[s[0]], s[0]);
        }
        assert(s[0] == t[0]);
        let rest = m.remove(s[0]);
        lemma_ranking_rest(s, m);
        lemma_ranking_rest(t, m);
        lemma_ranking_unique(s.skip(1), t.skip(1), rest);
        assert(s =~= seq![s[0]] + s.skip(1));
        assert(t =~= seq![t[0]] + t.skip(1));
    }
}

proof fn lemma_ranking_rest(s: Seq<Seq<char>>, m: Map<Seq<char>, ScoreView>)
    requires
        is_ranking(s, m),
        s.len() > 0,
    ensures
        is_ranking(s.skip(1), m.remove(s[0])),
{
    let rest = m.remove(s[0]);
    let r = s.skip(1);
    assert forall|i: int| 0 <= i < r.len() implies rest.contains_key(#[trigger] r[i]) by {
        assert(r[i] == s[i + 1]);
        assert(ranks_before(m[s[0]], s[0], m[s[i + 1]], s[i + 1]));
        lemma_ranks_before_irreflexive(m[s[0]], s[0]);
    }
    assert forall|k: Seq<char>| #[trigger] rest.contains_key(k) implies r.contains(k) by {
        assert(m.contains_key(k));
        let i = choose|i: int| 0 <= i < s.len() && s[i] == k;
        assert(r[i - 1] == k);
    }
    assert forall|i: int, j: int|
        #![trigger r[i], r[j]]
        0 <= i < j < r.len() implies ranks_before(rest[r[i]], r[i], rest[r[j]], r[j]) by {
        assert(r[i] == s[i + 1]);
        assert(r[j] == s[j + 1]);
        assert(rest.contains_key(r[i]));
        assert(rest.contains_key(r[j]));
    }
}

/// A ranking, once one is at hand, is the ranking.
pub proof fn lemma_is_the_ranking(s: Seq<Seq<char>>, m: Map<Seq<char>, ScoreView>)
    requires
        is_ranking(s, m),
    ensures
        ranking(m) == s,
        is_ranking(ranking(m), m),
{
    lemma_ranking_unique(ranking(m), s, m);
}

/// The scores that stand for texts. A text without an entry is not a number.
pub struct FloatReadings {
    table: KeyedMap<Score>,
}

impl View for FloatReadings {
    type V = Map<Seq<char>, ScoreView>;

    closed spec fn view(&self) -> Map<Seq<char>, ScoreView> {
        self.table@.map_values(|s: Score| s@)
    }
}

impl FloatReadings {
    pub fn new() -> (r: Self)
        ensures
            r@ == Map::<Seq<char>, ScoreView>::empty(),
    {
        let r = FloatReadings { table: KeyedMap::new() };
        assert(r@ =~= Map::<Seq<char>, ScoreView>::empty());
        r
    }

    /// Records the score that `text` stands for.
    pub fn record(&mut self, text: String, score: Score)
        ensures
            final(self)@ == old(self)@.insert(text@, score@),
    {
        self.table.insert(text, score);
        assert(self@ =~= old(self)@.insert(text@, score@));
    }

    /// The score that `text` stands for.
    pub fn read(&self, text: &str) -> (r: Option<Score>)
        ensures
            match r {
                Some(score) => self@.contains_key(text@) && score@ == self@[text@],
                None => !self@.contains_key(text@),
            },
    {
        match self.table.get(text) {
            Some(score) => Some(score.duplicate()),
            None => None,
        }
    }
}

/// Scores stand as numbers do: from the largest negative number over the two zeros,
/// which stand together, to the largest positive one; whatever is not a number stands
/// above them all.
pub proof fn lemma_scores_stand_as_numbers(a: u64, b: u64)
    ensures
        // A bit pattern below the sign bit is a positive number, up to infinity.
        a < 0x8000_0000_0000_0000 ==> bits_are_nan(a) == (a > 0x7FF0_0000_0000_0000),
        a >= 0x8000_0000_0000_0000 ==> bits_are_nan(a) == (a > 0xFFF0_0000_0000_0000),
        // Of two positive numbers the larger pattern is the larger number.
        a < b <= 0x7FF0_0000_0000_0000 ==> level(a) < level(b),
        // Of two negative numbers the larger pattern is the smaller number.
        0x8000_0000_0000_0000 <= a < b <= 0xFFF0_0000_0000_0000 ==> level(b) < level(a),
        // A negative number stands below a positive one, but the zeros are equal.
        0x8000_0000_0000_0000 < a <= 0xFFF0_0000_0000_0000 && b <= 0x7FF0_0000_0000_0000
            ==> level(a) < level(b),
        level(0x8000_0000_0000_0000) == level(0),
        // What is not a number stands above every number, all of it together.
        bits_are_nan(a) && !bits_are_nan(b) ==> level(b) < level(a),
        bits_are_nan(a) && bits_are_nan(b) ==> level(a) == level(b),
{
}

/// A score is within bounds when it meets the lower one and, apart from that, the
/// upper one. What is not a number is within no bounds, and bounds nothing.
pub proof fn lemma_bounds_are_independent(
    score: u64,
    min: u64,
    min_inclusive: bool,
    max: u64,
    max_inclusive: bool,
)
    ensures
        bits_are_nan(score) || bits_are_nan(min) || bits_are_nan(max) ==> !in_bounds(
            score,
            min,
            min_inclusive,
            max,
            max_inclusive,
        ),
        !bits_are_nan(score) && !bits_are_nan(min) && !bits_are_nan(max) ==> in_bounds(
            score,
            min,
            min_inclusive,
            max,
            max_inclusive,
        ) == ({
            &&& level(score) > level(min) || min_inclusive && level(score) == level(min)
            &&& level(score) < level(max) || max_inclusive && level(score) == level(max)
        }),
{
}

/// One byte string comes before another when it is smaller at the first byte in which
/// they differ, or when it is a shorter beginning of it.
pub proof fn lemma_bytes_before_means(a: Seq<u8>, b: Seq<u8>, n: int)
    requires
        0 <= n <= a.len(),
        n <= b.len(),
        forall|i: int| 0 <= i < n ==> a[i] == b[i],
    ensures
        n < a.len() && n < b.len() && a[n] < b[n] ==> bytes_before(a, b) && !bytes_before(b, a),
        n == a.len() && n < b.len() ==> bytes_before(a, b) && !bytes_before(b, a),
        n == a.len() && n == b.len() ==> !bytes_before(a, b),
    decreases n,
{
    if n > 0 {
        assert(a[0] == b[0]);
        assert forall|i: int| 0 <= i < n - 1 implies a.skip(1)[i] == b.skip(1)[i] by {
            assert(a[i + 1] == b[i + 1]);
        }
        lemma_bytes_before_means(a.skip(1), b.skip(1), n - 1);
    }
}

/// In a ranking the member with the smaller score comes first, and of members with the
/// same score the one whose name comes first.
pub proof fn lemma_ranking_means(
    s: Seq<Seq<char>>,
    m: Map<Seq<char>, ScoreView>,
    i: int,
    j: int,
)
    requires
        is_ranking(s, m),
        0 <= i < j < s.len(),
    ensures
        level(m[s[i]].bits) < level(m[s[j]].bits) || level(m[s[i]].bits) == level(m[s[j]].bits)
            && bytes_before(encode_utf8(s[i]), encode_utf8(s[j])),
        m.contains_key(s[i]),
        s[i] != s[j],
{
    assert(ranks_before(m[s[i]], s[i], m[s[j]], s[j]));
    lemma_ranks_before_irreflexive(m[s[i]], s[i]);
}

} // verus!
