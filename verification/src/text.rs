//! Text helpers: the few operations on `String` that the rest of the library
//! needs, each with an exact contract over the characters involved.
use vstd::prelude::*;
use vstd::utf8::*;

verus! {

/// `String::push`: appends one character to the end of the string.
pub assume_specification[ String::push ](s: &mut String, c: char)
    ensures
        final(s)@ == old(s)@.push(c),
;

/// `String::from_utf8`: succeeds exactly on valid UTF-8, and then yields the
/// characters that the bytes encode.
#[verifier::external_body]
pub(crate) fn string_from_utf8(bytes: Vec<u8>) -> (r: Option<String>)
    ensures
        r is Some <==> valid_utf8(bytes@),
        r matches Some(s) ==> s@ == decode_utf8(bytes@),
{
    String::from_utf8(bytes).ok()
}

/// The characters of each string of a sequence.
pub open spec fn texts(v: Seq<String>) -> Seq<Seq<char>> {
    Seq::new(v.len(), |i: int| v[i]@)
}

/// Pushing a string pushes its characters.
pub broadcast proof fn lemma_texts_push(v: Seq<String>, s: String)
    ensures
        #[trigger] texts(v.push(s)) == texts(v).push(s@),
{
    assert(texts(v.push(s)) =~= texts(v).push(s@));
}

/// One more text at the end is one more member.
pub proof fn lemma_push_to_set(v: Seq<Seq<char>>, s: Seq<char>)
    ensures
        v.push(s).to_set() == v.to_set().insert(s),
{
    assert forall|x: Seq<char>| v.push(s).to_set().contains(x) == v.to_set().insert(s).contains(
        x,
    ) by {
        if v.to_set().contains(x) {
            let i = choose|i: int| 0 <= i < v.len() && v[i] == x;
            assert(v.push(s)[i] == x);
        }
        assert(v.push(s)[v.len() as int] == s);
    }
    assert(v.push(s).to_set() =~= v.to_set().insert(s));
}

/// One more text at the end is one more text that is listed.
pub proof fn lemma_push_contains(v: Seq<Seq<char>>, s: Seq<char>, t: Seq<char>)
    ensures
        v.push(s).contains(t) == (v.contains(t) || s == t),
{
    if v.contains(t) {
        let i = choose|i: int| 0 <= i < v.len() && v[i] == t;
        assert(v.push(s)[i] == t);
    }
    assert(v.push(s)[v.len() as int] == s);
}

/// Two texts with the same UTF-8 bytes are the same text.
pub proof fn lemma_utf8_injective(a: Seq<char>, b: Seq<char>)
    requires
        encode_utf8(a) == encode_utf8(b),
    ensures
        a == b,
{
    vstd::utf8::encode_utf8_decode_utf8(a);
    vstd::utf8::encode_utf8_decode_utf8(b);
}

/// Whether two strings hold the same characters.
pub fn text_eq(a: &str, b: &str) -> (r: bool)
    ensures
        r == (a@ == b@),
{
    let left = a.as_bytes();
    let right = b.as_bytes();
    if left.len() != right.len() {
        return false;
    }
    let mut i: usize = 0;
    while i < left.len()
        invariant
            i <= left@.len(),
            left@.len() == right@.len(),
            left@ == encode_utf8(a@),
            right@ == encode_utf8(b@),
            left@.take(i as int) == right@.take(i as int),
        decreases left@.len() - i,
    {
        if left[i] != right[i] {
            return false;
        }
        proof {
            assert(left@.take(i + 1) =~= left@.take(i as int).push(left@[i as int]));
            assert(right@.take(i + 1) =~= right@.take(i as int).push(right@[i as int]));
        }
        i = i + 1;
    }
    proof {
        assert(left@.take(i as int) =~= left@);
        assert(right@.take(i as int) =~= right@);
        lemma_utf8_injective(a@, b@);
    }
    true
}

// --- ASCII case ---------------------------------------------------------

/// The upper-case form of an ASCII letter; any other character is kept.
pub open spec fn upper_char(c: char) -> char {
    if 'a' <= c <= 'z' {
        (c as int - 32) as char
    } else {
        c
    }
}

/// The lower-case form of an ASCII letter; any other character is kept.
pub open spec fn lower_char(c: char) -> char {
    if 'A' <= c <= 'Z' {
        (c as int + 32) as char
    } else {
        c
    }
}

/// `s` with its ASCII letters in upper case.
pub open spec fn upper(s: Seq<char>) -> Seq<char> {
    Seq::new(s.len(), |i: int| upper_char(s[i]))
}

/// `s` with its ASCII letters in lower case.
pub open spec fn lower(s: Seq<char>) -> Seq<char> {
    Seq::new(s.len(), |i: int| lower_char(s[i]))
}

pub fn to_ascii_uppercase(s: &str) -> (r: String)
    ensures
        r@ == upper(s@),
{
    let mut r = String::new();
    for c in it: s.chars()
        invariant
            it.seq() == s@,
            r@ == upper(s@.take(it.index())),
    {
        assert(upper(s@.take(it.index() + 1)) =~= upper(s@.take(it.index())).push(upper_char(c)));
        if 'a' <= c && c <= 'z' {
            r.push((c as u8 - 32) as char);
        } else {
            r.push(c);
        }
    }
    assert(s@.take(s@.len() as int) =~= s@);
    r
}

pub fn to_ascii_lowercase(s: &str) -> (r: String)
    ensures
        r@ == lower(s@),
{
    let mut r = String::new();
    for c in it: s.chars()
        invariant
            it.seq() == s@,
            r@ == lower(s@.take(it.index())),
    {
        assert(lower(s@.take(it.index() + 1)) =~= lower(s@.take(it.index())).push(lower_char(c)));
        if 'A' <= c && c <= 'Z' {
            r.push((c as u8 + 32) as char);
        } else {
            r.push(c);
        }
    }
    assert(s@.take(s@.len() as int) =~= s@);
    r
}

/// Whether two strings are the same but for the case of their ASCII letters.
pub fn eq_ignore_ascii_case(a: &str, b: &str) -> (r: bool)
    ensures
        r == (lower(a@) == lower(b@)),
{
    text_eq(to_ascii_lowercase(a).as_str(), to_ascii_lowercase(b).as_str())
}

// --- Decimal numbers ----------------------------------------------------

/// The character for one decimal digit.
pub open spec fn digit_char(d: int) -> char {
    (48 + d) as char
}

pub open spec fn is_digit(c: char) -> bool {
    '0' <= c <= '9'
}

/// The value of one decimal digit.
pub open spec fn digit_value(c: char) -> int {
    c as int - 48
}

/// `n` in decimal, without leading zeros.
pub open spec fn decimal_digits(n: nat) -> Seq<char>
    decreases n,
{
    if n < 10 {
        seq![digit_char(n as int)]
    } else {
        decimal_digits(n / 10).push(digit_char((n % 10) as int))
    }
}

/// `i` in decimal, with a leading `-` when negative.
pub open spec fn decimal(i: int) -> Seq<char> {
    if i < 0 {
        seq!['-'] + decimal_digits((-i) as nat)
    } else {
        decimal_digits(i as nat)
    }
}

fn push_digits(s: &mut String, n: u64)
    ensures
        final(s)@ == old(s)@ + decimal_digits(n as nat),
    decreases n,
{
    if n >= 10 {
        push_digits(s, n / 10);
    }
    s.push((48 + (n % 10) as u8) as char);
    assert(s@ =~= old(s)@ + decimal_digits(n as nat));
}

/// Renders an unsigned integer in decimal.
pub fn u64_to_text(n: u64) -> (r: String)
    ensures
        r@ == decimal(n as int),
{
    let mut s = String::new();
    push_digits(&mut s, n);
    assert(s@ =~= decimal(n as int));
    s
}

/// Renders a signed integer in decimal.
pub fn i64_to_text(n: i64) -> (r: String)
    ensures
        r@ == decimal(n as int),
{
    let mut s = String::new();
    if n < 0 {
        s.push('-');
        let magnitude: u64 = (-(n as i128)) as u64;
        push_digits(&mut s, magnitude);
        assert(s@ =~= decimal(n as int));
    } else {
        push_digits(&mut s, n as u64);
        assert(s@ =~= decimal(n as int));
    }
    s
}

/// The number that a run of decimal digits denotes.
pub open spec fn digits_value(s: Seq<char>) -> int
    decreases s.len(),
{
    if s.len() == 0 {
        0
    } else {
        10 * digits_value(s.drop_last()) + digit_value(s.last())
    }
}

pub open spec fn all_digits(s: Seq<char>) -> bool {
    forall|i: int| 0 <= i < s.len() ==> is_digit(#[trigger] s[i])
}

/// A non-empty run of digits whose value is at most `max`.
pub open spec fn parse_digits(s: Seq<char>, max: int) -> Option<int> {
    if s.len() > 0 && all_digits(s) && digits_value(s) <= max {
        Some(digits_value(s))
    } else {
        None
    }
}

/// An unsigned integer of at most `max`: digits, optionally after a `+`.
pub open spec fn parse_unsigned(s: Seq<char>, max: int) -> Option<int> {
    if s.len() > 0 && s[0] == '+' {
        parse_digits(s.skip(1), max)
    } else {
        parse_digits(s, max)
    }
}

/// A 64-bit signed integer: digits, optionally after a `+` or a `-`.
pub open spec fn parse_signed(s: Seq<char>) -> Option<int> {
    if s.len() > 0 && s[0] == '-' {
        match parse_digits(s.skip(1), -(i64::MIN as int)) {
            Some(v) => Some(-v),
            None => None,
        }
    } else {
        parse_unsigned(s, i64::MAX as int)
    }
}

proof fn lemma_digits_value_prefix(s: Seq<char>, n: int)
    requires
        all_digits(s),
        0 <= n <= s.len(),
    ensures
        0 <= digits_value(s.take(n)) <= digits_value(s),
    decreases s.len() - n, n,
{
    if n < s.len() {
        lemma_digits_value_prefix(s, n + 1);
        assert(s.take(n + 1).drop_last() =~= s.take(n));
        assert(is_digit(s[n]));
        lemma_digits_value_nonneg(s.take(n));
    } else {
        assert(s.take(n) =~= s);
        lemma_digits_value_nonneg(s);
    }
}

proof fn lemma_digits_value_nonneg(s: Seq<char>)
    requires
        all_digits(s),
    ensures
        0 <= digits_value(s),
    decreases s.len(),
{
    if s.len() > 0 {
        assert(is_digit(s[s.len() - 1]));
        assert forall|i: int| 0 <= i < s.drop_last().len() implies is_digit(
            #[trigger] s.drop_last()[i],
        ) by {
            assert(is_digit(s[i]));
        }
        lemma_digits_value_nonneg(s.drop_last());
    }
}

/// Reads the characters of `s` from position `skip` on as a run of digits.
fn read_digits(s: &str, skip: usize, max: u64) -> (r: Option<u64>)
    requires
        skip <= s@.len(),
    ensures
        match r {
            Some(v) => parse_digits(s@.skip(skip as int), max as int) == Some(v as int),
            None => parse_digits(s@.skip(skip as int), max as int) is None,
        },
{
    let ghost body = s@.skip(skip as int);
    let mut value: u64 = 0;
    let mut seen: usize = 0;
    let mut position: usize = 0;
    for c in it: s.chars()
        invariant
            it.seq() == s@,
            body == s@.skip(skip as int),
            skip <= s@.len(),
            position == (if it.index() < skip {
                it.index()
            } else {
                skip as int
            }),
            (seen > 0) == (it.index() > skip),
            it.index() <= skip ==> value == 0,
            it.index() > skip ==> {
                &&& all_digits(body.take(it.index() - skip))
                &&& digits_value(body.take(it.index() - skip)) == value
                &&& value <= max
            },
    {
        if position < skip {
            position = position + 1;
        } else {
            let ghost n = it.index() - skip;
            proof {
                assert(body[n] == c);
                assert(body.take(n + 1).drop_last() =~= body.take(n));
                if n == 0 {
                    assert(body.take(0) =~= Seq::<char>::empty());
                }
            }
            if !('0' <= c && c <= '9') {
                return None;
            }
            proof {
                assert forall|i: int| 0 <= i < body.take(n + 1).len() implies is_digit(
                    #[trigger] body.take(n + 1)[i],
                ) by {
                    if i < n {
                        assert(is_digit(body.take(n)[i]));
                    }
                }
                assert(digits_value(body.take(n)) == value);
                assert(body.take(n + 1).last() == c);
                assert(digits_value(body.take(n + 1)) == 10 * value + digit_value(c));
            }
            let wide: u128 = value as u128 * 10 + (c as u8 - 48) as u128;
            if wide > max as u128 {
                proof {
                    if all_digits(body) {
                        lemma_digits_value_prefix(body, n + 1);
                    }
                }
                return None;
            }
            value = wide as u64;
            seen = 1;
        }
    }
    if seen == 0 {
        return None;
    }
    assert(body.take(body.len() as int) =~= body);
    Some(value)
}

/// Reads an unsigned integer of at most `max`.
pub fn text_to_unsigned(s: &str, max: u64) -> (r: Option<u64>)
    ensures
        match r {
            Some(v) => parse_unsigned(s@, max as int) == Some(v as int),
            None => parse_unsigned(s@, max as int) is None,
        },
{
    if !s.is_empty() && s.get_char(0) == '+' {
        read_digits(s, 1, max)
    } else {
        assert(s@.skip(0) =~= s@);
        read_digits(s, 0, max)
    }
}

/// Reads a 64-bit signed integer.
pub fn text_to_i64(s: &str) -> (r: Option<i64>)
    ensures
        match r {
            Some(v) => parse_signed(s@) == Some(v as int),
            None => parse_signed(s@) is None,
        },
{
    if !s.is_empty() && s.get_char(0) == '-' {
        match read_digits(s, 1, 0x8000_0000_0000_0000) {
            Some(v) => Some((-(v as i128)) as i64),
            None => None,
        }
    } else {
        match text_to_unsigned(s, 0x7fff_ffff_ffff_ffff) {
            Some(v) => Some(v as i64),
            None => None,
        }
    }
}

/// A rendered natural number is a run of digits that denotes it.
pub proof fn lemma_decimal_digits(n: nat)
    ensures
        decimal_digits(n).len() > 0,
        all_digits(decimal_digits(n)),
        digits_value(decimal_digits(n)) == n,
    decreases n,
{
    if n < 10 {
        assert(decimal_digits(n).drop_last() =~= Seq::<char>::empty());
        assert(digits_value(decimal_digits(n).drop_last()) == 0);
        assert(decimal_digits(n).last() == digit_char(n as int));
    } else {
        lemma_decimal_digits(n / 10);
        assert(decimal_digits(n).drop_last() =~= decimal_digits(n / 10));
        assert(decimal_digits(n).last() == digit_char((n % 10) as int));
        assert forall|i: int| 0 <= i < decimal_digits(n).len() implies is_digit(
            #[trigger] decimal_digits(n)[i],
        ) by {
            if i < decimal_digits(n / 10).len() {
                assert(is_digit(decimal_digits(n / 10)[i]));
            }
        }
    }
}

/// Reading back a rendered 64-bit integer gives the integer.
pub proof fn lemma_decimal_round_trip(n: i64)
    ensures
        parse_signed(decimal(n as int)) == Some(n as int),
{
    if n < 0 {
        lemma_decimal_digits((-(n as int)) as nat);
        assert(decimal(n as int).skip(1) =~= decimal_digits((-(n as int)) as nat));
    } else {
        lemma_decimal_digits(n as nat);
        assert(is_digit(decimal(n as int)[0]));
    }
}

/// Reading back a rendered natural number gives the number, if it is in range.
pub proof fn lemma_unsigned_round_trip(n: nat, max: int)
    requires
        n <= max,
    ensures
        parse_unsigned(decimal(n as int), max) == Some(n as int),
{
    lemma_decimal_digits(n);
    assert(is_digit(decimal(n as int)[0]));
}

/// What is read as an unsigned number is in range.
pub proof fn lemma_parse_unsigned_range(s: Seq<char>, max: int)
    ensures
        parse_unsigned(s, max) matches Some(n) ==> 0 <= n <= max,
{
    if s.len() > 0 && s[0] == '+' {
        if all_digits(s.skip(1)) {
            lemma_digits_value_nonneg(s.skip(1));
        }
    } else if all_digits(s) {
        lemma_digits_value_nonneg(s);
    }
}

/// What is read as a signed number is in range.
pub proof fn lemma_parse_signed_range(s: Seq<char>)
    ensures
        parse_signed(s) matches Some(n) ==> i64::MIN <= n <= i64::MAX,
{
    if s.len() > 0 && s[0] == '-' {
        if all_digits(s.skip(1)) {
            lemma_digits_value_nonneg(s.skip(1));
        }
    } else {
        lemma_parse_unsigned_range(s, i64::MAX as int);
    }
}

/// The first digits of a rendered positive number denote a positive number.
pub proof fn lemma_decimal_prefix_positive(n: nat, k: int)
    requires
        n > 0,
        0 < k <= decimal_digits(n).len(),
    ensures
        all_digits(decimal_digits(n).take(k)),
        0 < digits_value(decimal_digits(n).take(k)),
    decreases n,
{
    lemma_decimal_digits(n);
    let digits = decimal_digits(n);
    if k == digits.len() {
        assert(digits.take(k) =~= digits);
    } else {
        assert(n >= 10);
        assert(digits.take(k) =~= decimal_digits(n / 10).take(k));
        lemma_decimal_prefix_positive(n / 10, k);
    }
}

/// The UTF-8 bytes of two texts in a row.
pub proof fn lemma_encode_concat(a: Seq<char>, b: Seq<char>)
    ensures
        encode_utf8(a + b) == encode_utf8(a) + encode_utf8(b),
    decreases a.len(),
{
    if a.len() == 0 {
        assert(a + b =~= b);
        assert(encode_utf8(a) + encode_utf8(b) =~= encode_utf8(b));
    } else {
        lemma_encode_concat(a.drop_first(), b);
        assert((a + b).drop_first() =~= a.drop_first() + b);
        assert((a + b)[0] == a[0]);
        assert(encode_utf8(a + b) =~= encode_utf8(a) + encode_utf8(b));
    }
}

// --- White space --------------------------------------------------------

/// The Unicode `White_Space` property.
pub open spec fn is_space(c: char) -> bool {
    let v = c as u32;
    ||| 0x9 <= v <= 0xd
    ||| v == 0x20
    ||| v == 0x85
    ||| v == 0xa0
    ||| v == 0x1680
    ||| 0x2000 <= v <= 0x200a
    ||| v == 0x2028
    ||| v == 0x2029
    ||| v == 0x202f
    ||| v == 0x205f
    ||| v == 0x3000
}

pub fn is_whitespace(c: char) -> (r: bool)
    ensures
        r == is_space(c),
{
    let v: u32 = c as u32;
    (0x9 <= v && v <= 0xd) || v == 0x20 || v == 0x85 || v == 0xa0 || v == 0x1680 || (0x2000 <= v
        && v <= 0x200a) || v == 0x2028 || v == 0x2029 || v == 0x202f || v == 0x205f || v == 0x3000
}

/// `s` without the white space at its end.
pub open spec fn trimmed_end(s: Seq<char>) -> Seq<char>
    decreases s.len(),
{
    if s.len() > 0 && is_space(s.last()) {
        trimmed_end(s.drop_last())
    } else {
        s
    }
}

/// How many characters precede the first white space of `s`.
pub open spec fn word_len(s: Seq<char>) -> nat
    decreases s.len(),
{
    if s.len() == 0 || is_space(s[0]) {
        0
    } else {
        1 + word_len(s.drop_first())
    }
}

/// The maximal runs of characters other than white space, in order.
pub open spec fn words(s: Seq<char>) -> Seq<Seq<char>>
    decreases s.len(),
{
    if s.len() == 0 {
        Seq::empty()
    } else if is_space(s[0]) {
        words(s.drop_first())
    } else {
        let n = word_len(s) as int;
        if 0 < n <= s.len() {
            seq![s.take(n)] + words(s.skip(n))
        } else {
            Seq::empty()
        }
    }
}

pub open spec fn no_spaces(s: Seq<char>) -> bool {
    forall|i: int| 0 <= i < s.len() ==> !is_space(#[trigger] s[i])
}

proof fn lemma_word_has_no_spaces(s: Seq<char>)
    ensures
        word_len(s) <= s.len(),
        no_spaces(s.take(word_len(s) as int)),
    decreases s.len(),
{
    if s.len() > 0 && !is_space(s[0]) {
        lemma_word_has_no_spaces(s.drop_first());
        let word = s.take(word_len(s) as int);
        assert forall|i: int| 0 <= i < word.len() implies !is_space(#[trigger] word[i]) by {
            if i > 0 {
                assert(word[i] == s.drop_first().take(word_len(s.drop_first()) as int)[i - 1]);
            }
        }
    }
}

/// No word is empty, and none contains white space.
pub proof fn lemma_words_have_no_spaces(s: Seq<char>, i: int)
    requires
        0 <= i < words(s).len(),
    ensures
        words(s)[i].len() > 0,
        no_spaces(words(s)[i]),
    decreases s.len(),
{
    lemma_word_has_no_spaces(s);
    if s.len() > 0 {
        if is_space(s[0]) {
            lemma_words_have_no_spaces(s.drop_first(), i);
        } else if i > 0 {
            let rest = s.skip(word_len(s) as int);
            lemma_words_have_no_spaces(rest, i - 1);
        }
    }
}

proof fn lemma_word_len(word: Seq<char>, rest: Seq<char>)
    requires
        no_spaces(word),
        rest.len() == 0 || is_space(rest[0]),
    ensures
        word_len(word + rest) == word.len(),
    decreases word.len(),
{
    if word.len() == 0 {
        assert(word + rest =~= rest);
    } else {
        assert((word + rest)[0] == word[0]);
        assert((word + rest).drop_first() =~= word.drop_first() + rest);
        assert forall|i: int| 0 <= i < word.drop_first().len() implies !is_space(
            #[trigger] word.drop_first()[i],
        ) by {
            assert(!is_space(word[i + 1]));
        }
        lemma_word_len(word.drop_first(), rest);
    }
}

proof fn lemma_words_split(word: Seq<char>, rest: Seq<char>)
    requires
        no_spaces(word),
        word.len() > 0,
        rest.len() == 0 || is_space(rest[0]),
    ensures
        words(word + rest) == seq![word] + words(rest),
{
    lemma_word_len(word, rest);
    let s = word + rest;
    assert(s[0] == word[0]);
    assert(s.take(word.len() as int) =~= word);
    assert(s.skip(word.len() as int) =~= rest);
}

/// Splits `s` into its words.
pub fn split_whitespace(s: &str) -> (r: Vec<String>)
    ensures
        texts(r@) == words(s@),
{
    broadcast use lemma_texts_push;

    let mut r: Vec<String> = Vec::new();
    let mut word = String::new();
    assert(texts(r@) =~= Seq::<Seq<char>>::empty());
    assert(word@ + s@ =~= s@);
    assert(Seq::<Seq<char>>::empty() + words(s@) =~= words(s@));
    assert(s@.skip(0) =~= s@);
    for c in it: s.chars()
        invariant
            it.seq() == s@,
            no_spaces(word@),
            words(s@) == texts(r@) + words(word@ + s@.skip(it.index())),
    {
        let ghost rest = s@.skip(it.index());
        let ghost next = s@.skip(it.index() + 1);
        assert(rest =~= seq![c] + next);
        assert(rest.drop_first() =~= next);
        if is_whitespace(c) {
            if !word.as_str().is_empty() {
                proof {
                    lemma_words_split(word@, rest);
                    assert(texts(r@) + (seq![word@] + words(next)) =~= texts(r@).push(word@)
                        + words(next));
                }
                r.push(word);
                word = String::new();
            } else {
                assert(word@ + rest =~= rest);
            }
            assert(word@ + next =~= next);
        } else {
            assert(word@ + rest =~= word@.push(c) + next);
            word.push(c);
        }
    }
    let ghost rest = s@.skip(s@.len() as int);
    assert(rest =~= Seq::<char>::empty());
    assert(word@ + rest =~= word@);
    if !word.as_str().is_empty() {
        proof {
            lemma_words_split(word@, rest);
            assert(texts(r@) + (seq![word@] + words(rest)) =~= texts(r@).push(word@));
        }
        r.push(word);
    } else {
        assert(texts(r@) + words(word@) =~= texts(r@));
    }
    r
}

// --- Copies and pieces --------------------------------------------------

/// The characters of `s` from position `from` up to `to`.
pub fn substring(s: &str, from: usize, to: usize) -> (r: String)
    requires
        from <= to <= s@.len(),
    ensures
        r@ == s@.subrange(from as int, to as int),
{
    s.substring_char(from, to).to_owned()
}

/// Drops the white space at the end of `s`.
pub fn trim_end(s: &str) -> (r: String)
    ensures
        r@ == trimmed_end(s@),
{
    let mut seen: usize = 0;
    let mut end: usize = 0;
    let total: usize = s.unicode_len();
    for c in it: s.chars()
        invariant
            it.seq() == s@,
            total == s@.len(),
            seen == it.index(),
            end <= seen,
            trimmed_end(s@.take(seen as int)) == s@.take(end as int),
    {
        assert(seen < s@.len());
        assert(s@.take(seen + 1).drop_last() =~= s@.take(seen as int));
        assert(s@.take(seen + 1).last() == c);
        seen = seen + 1;
        if !is_whitespace(c) {
            end = seen;
        }
    }
    assert(s@.take(seen as int) =~= s@);
    substring(s, 0, end)
}

/// A copy of the strings of `v` from position `from` on.
pub fn copy_texts(v: &[String], from: usize) -> (r: Vec<String>)
    requires
        from <= v@.len(),
    ensures
        texts(r@) == texts(v@).skip(from as int),
        r@.len() == v@.len() - from,
{
    broadcast use lemma_texts_push;

    let mut r: Vec<String> = Vec::new();
    let mut i: usize = from;
    assert(texts(r@) =~= texts(v@).subrange(from as int, from as int));
    while i < v.len()
        invariant
            from <= i <= v@.len(),
            r@.len() == i - from,
            texts(r@) == texts(v@).subrange(from as int, i as int),
        decreases v@.len() - i,
    {
        assert(texts(v@).subrange(from as int, i + 1) =~= texts(v@).subrange(
            from as int,
            i as int,
        ).push(v@[i as int]@));
        r.push(v[i].clone());
        i = i + 1;
    }
    assert(texts(v@).subrange(from as int, i as int) =~= texts(v@).skip(from as int));
    r
}

/// Upper and lower case differ for the ASCII letters, by the distance between `a` and
/// `A`, and for nothing else.
pub proof fn lemma_case(s: Seq<char>, i: int)
    requires
        0 <= i < s.len(),
    ensures
        upper(s).len() == s.len(),
        lower(s).len() == s.len(),
        'a' <= s[i] <= 'z' ==> upper(s)[i] as int == s[i] as int - 32 && lower(s)[i] == s[i],
        'A' <= s[i] <= 'Z' ==> lower(s)[i] as int == s[i] as int + 32 && upper(s)[i] == s[i],
        !('a' <= s[i] <= 'z') && !('A' <= s[i] <= 'Z') ==> upper(s)[i] == s[i] && lower(s)[i]
            == s[i],
{
}

/// A number of one digit is that digit; a longer one is the number without its last
/// digit, followed by that digit; a negative one starts with a `-`.
pub proof fn lemma_decimal_means(n: int, d: int)
    requires
        0 <= d < 10,
    ensures
        decimal(d) == seq![('0' as int + d) as char],
        n > 0 ==> decimal(10 * n + d) == decimal(n).push(('0' as int + d) as char),
        n > 0 ==> decimal(-n) == seq!['-'] + decimal(n),
{
    if n > 0 {
        assert((10 * n + d) / 10 == n && (10 * n + d) % 10 == d);
    }
}

/// How an integer may be written: at least one digit, behind a `+` or, where it may be
/// negative, a `-`; it counts by its value, and has to be in range.
pub proof fn lemma_how_integers_are_written(digits: Seq<char>, c: char, max: int)
    requires
        all_digits(digits),
    ensures
        digits_value(Seq::empty()) == 0,
        '0' <= c <= '9' ==> digits_value(digits.push(c)) == 10 * digits_value(digits) + (c as int
            - '0' as int),
        digits.len() > 0 && digits_value(digits) <= max ==> parse_unsigned(digits, max) == Some(
            digits_value(digits),
        ) && parse_unsigned(seq!['+'] + digits, max) == Some(digits_value(digits)),
        digits.len() == 0 || digits_value(digits) > max ==> parse_unsigned(digits, max) is None
            && parse_unsigned(seq!['+'] + digits, max) is None,
        parse_unsigned(seq!['-'] + digits, max) is None,
        digits.len() > 0 && digits_value(digits) <= i64::MAX ==> parse_signed(digits) == Some(
            digits_value(digits),
        ) && parse_signed(seq!['+'] + digits) == Some(digits_value(digits)),
        digits.len() > 0 && digits_value(digits) <= i64::MAX + 1 ==> parse_signed(
            seq!['-'] + digits,
        ) == Some(-digits_value(digits)),
        digits.len() == 0 || digits_value(digits) > i64::MAX ==> parse_signed(digits) is None
            && parse_signed(seq!['+'] + digits) is None,
        digits.len() == 0 || digits_value(digits) > i64::MAX + 1 ==> parse_signed(
            seq!['-'] + digits,
        ) is None,
{
    assert(digits.push(c).drop_last() =~= digits);
    assert((seq!['+'] + digits).skip(1) =~= digits);
    let minus = seq!['-'] + digits;
    assert(minus.skip(1) =~= digits);
    assert(!is_digit(minus[0]));
    assert(!all_digits(minus)) by {
        assert(!is_digit(minus[0]));
    }
    if digits.len() > 0 {
        assert(is_digit(digits[0]));
    }
}

/// A text with a character that is no digit, other than a sign in front, is no integer.
pub proof fn lemma_only_digits_make_integers(s: Seq<char>, i: int, max: int)
    requires
        0 <= i < s.len(),
        !('0' <= s[i] <= '9'),
        i > 0 || s[0] != '+' && s[0] != '-',
    ensures
        parse_unsigned(s, max) is None,
        parse_signed(s) is None,
{
    assert(!all_digits(s)) by {
        assert(!is_digit(s[i]));
    }
    if i > 0 {
        assert(!all_digits(s.skip(1))) by {
            assert(s.skip(1)[i - 1] == s[i]);
        }
    }
}

/// A text without white space is one word; white space separates words, and belongs to
/// none.
pub proof fn lemma_words_means(word: Seq<char>, space: char, rest: Seq<char>)
    requires
        word.len() > 0,
        no_spaces(word),
        is_space(space),
    ensures
        words(Seq::empty()) == Seq::<Seq<char>>::empty(),
        words(word) == seq![word],
        words(seq![space] + rest) == words(rest),
        words(word + seq![space] + rest) == seq![word] + words(rest),
{
    let empty = Seq::<char>::empty();
    lemma_words_split(word, empty);
    assert(word + empty =~= word);
    assert(words(empty) =~= Seq::<Seq<char>>::empty());
    assert(seq![word] + words(empty) =~= seq![word]);
    assert((seq![space] + rest).drop_first() =~= rest);
    lemma_words_split(word, seq![space] + rest);
    assert(word + (seq![space] + rest) =~= word + seq![space] + rest);
}

/// Trimming takes the white space off the end, and nothing else.
pub proof fn lemma_trimmed_means(s: Seq<char>, space: char, c: char)
    requires
        is_space(space),
        !is_space(c),
    ensures
        trimmed_end(Seq::empty()) == Seq::<char>::empty(),
        trimmed_end(s.push(c)) == s.push(c),
        trimmed_end(s.push(space)) == trimmed_end(s),
{
    assert(s.push(space).drop_last() =~= s);
}

/// White space is what Unicode calls so.
pub proof fn lemma_spaces(c: char)
    ensures
        is_space(c) == ({
            ||| c == ' ' || c == '\t' || c == '\n' || c == '\r' || c == '\u{b}' || c == '\u{c}'
            ||| c == '\u{85}' || c == '\u{a0}' || c == '\u{1680}' || '\u{2000}' <= c <= '\u{200a}'
            ||| c == '\u{2028}' || c == '\u{2029}' || c == '\u{202f}' || c == '\u{205f}'
            ||| c == '\u{3000}'
        }),
{
}

} // verus!
