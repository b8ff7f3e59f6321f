//! Redis-style glob matching, used by `KEYS`.
use vstd::prelude::*;
use vstd::slice::*;
use vstd::utf8::*;

verus! {

/// `*`
pub const STAR: u8 = 0x2A;

/// `?`
pub const QUESTION: u8 = 0x3F;

/// `[`
pub const OPEN_BRACKET: u8 = 0x5B;

/// `]`
pub const CLOSE_BRACKET: u8 = 0x5D;

/// `\`
pub const BACKSLASH: u8 = 0x5C;

/// `-`
pub const DASH: u8 = 0x2D;

/// `^`
pub const CARET: u8 = 0x5E;

/// `!`
pub const BANG: u8 = 0x21;

/// What is left of a character class from position `i` on: whether one of its
/// items covers `ch`, and the position after the closing bracket. An item is an
/// escaped byte, a range between two bytes in either order, or a single byte; a
/// class without a closing bracket ends with the pattern.
pub open spec fn class_scan(class: Seq<u8>, i: int, ch: u8) -> (bool, int)
    decreases class.len() - i,
{
    if i >= class.len() {
        (false, i)
    } else if class[i] == CLOSE_BRACKET {
        (false, i + 1)
    } else if class[i] == BACKSLASH && i + 1 < class.len() {
        let rest = class_scan(class, i + 2, ch);
        (class[i + 1] == ch || rest.0, rest.1)
    } else if i + 2 < class.len() && class[i + 1] == DASH && class[i + 2] != CLOSE_BRACKET {
        let rest = class_scan(class, i + 3, ch);
        (class[i] <= ch <= class[i + 2] || class[i + 2] <= ch <= class[i] || rest.0, rest.1)
    } else {
        let rest = class_scan(class, i + 1, ch);
        (class[i] == ch || rest.0, rest.1)
    }
}

/// Whether a class opens with `^` or `!`, and so matches what it does not list.
pub open spec fn class_negated(class: Seq<u8>) -> bool {
    class.len() > 0 && (class[0] == CARET || class[0] == BANG)
}

/// Whether `ch` matches the class, and how many bytes the class takes up.
pub open spec fn class_match(class: Seq<u8>, ch: u8) -> (bool, int) {
    let scan = class_scan(
        class,
        if class_negated(class) {
            1
        } else {
            0
        },
        ch,
    );
    (scan.0 != class_negated(class), scan.1)
}

proof fn lemma_class_scan_advances(class: Seq<u8>, i: int, ch: u8)
    requires
        0 <= i <= class.len(),
    ensures
        i <= class_scan(class, i, ch).1 <= class.len(),
    decreases class.len() - i,
{
    if i < class.len() && class[i] != CLOSE_BRACKET {
        if class[i] == BACKSLASH && i + 1 < class.len() {
            lemma_class_scan_advances(class, i + 2, ch);
        } else if i + 2 < class.len() && class[i + 1] == DASH && class[i + 2] != CLOSE_BRACKET {
            lemma_class_scan_advances(class, i + 3, ch);
        } else {
            lemma_class_scan_advances(class, i + 1, ch);
        }
    }
}

/// Whether the whole of `text` matches `pattern`: `*` stands for any run, `?`
/// for any byte, `[...]` for any byte of a class, `\` for the byte after it (at
/// the end of the pattern, for itself), and any other byte for itself.
pub open spec fn glob_matches(pattern: Seq<u8>, text: Seq<u8>) -> bool
    decreases pattern.len(), text.len(),
{
    if pattern.len() == 0 {
        text.len() == 0
    } else if pattern[0] == STAR {
        ||| glob_matches(pattern.skip(1), text)
        ||| text.len() > 0 && glob_matches(pattern, text.skip(1))
    } else if text.len() == 0 {
        false
    } else if pattern[0] == QUESTION {
        glob_matches(pattern.skip(1), text.skip(1))
    } else if pattern[0] == OPEN_BRACKET {
        let class = pattern.skip(1);
        let (matched, taken) = class_match(class, text[0]);
        matched && 0 <= taken <= class.len() && glob_matches(class.skip(taken), text.skip(1))
    } else if pattern[0] == BACKSLASH && pattern.len() > 1 {
        pattern[1] == text[0] && glob_matches(pattern.skip(2), text.skip(1))
    } else {
        pattern[0] == text[0] && glob_matches(pattern.skip(1), text.skip(1))
    }
}

/// Whether the key `text` matches the pattern, both taken as bytes.
pub open spec fn text_matches(pattern: Seq<char>, text: Seq<char>) -> bool {
    glob_matches(encode_utf8(pattern), encode_utf8(text))
}

/// Redis-style glob matching. Supports `*` (any run, including empty), `?`
/// (exactly one byte), `[...]` character classes (with `^`/`!` negation and
/// `a-z` ranges), and `\` escaping. Matching is byte-wise, as in Redis' own
/// `stringmatchlen`.
pub fn glob_match(pattern: &str, text: &str) -> (r: bool)
    ensures
        r == text_matches(pattern@, text@),
{
    glob_match_bytes(pattern.as_bytes(), text.as_bytes())
}

pub fn glob_match_bytes(pattern: &[u8], text: &[u8]) -> (r: bool)
    ensures
        r == glob_matches(pattern@, text@),
    decreases pattern@.len(),
{
    let mut at: usize = 0;
    let mut pos: usize = 0;
    assert(pattern@.skip(0) =~= pattern@);
    assert(text@.skip(0) =~= text@);
    while at < pattern.len()
        invariant
            at <= pattern@.len(),
            pos <= text@.len(),
            glob_matches(pattern@, text@) == glob_matches(
                pattern@.skip(at as int),
                text@.skip(pos as int),
            ),
        decreases pattern@.len() - at,
    {
        let token: u8 = pattern[at];
        let ghost p = pattern@.skip(at as int);
        let ghost t = text@.skip(pos as int);
        proof {
            assert(p[0] == token);
            assert(p.skip(1) =~= pattern@.skip(at + 1));
            if pos < text@.len() {
                assert(t[0] == text@[pos as int]);
                assert(t.skip(1) =~= text@.skip(pos + 1));
            }
        }
        if token == STAR {
            let mut tail: usize = at + 1;
            while tail < pattern.len() && pattern[tail] == STAR
                invariant
                    at < tail <= pattern@.len(),
                    pos <= text@.len(),
                    pattern@[tail - 1] == STAR,
                    glob_matches(pattern@, text@) == glob_matches(
                        pattern@.skip(tail - 1),
                        text@.skip(pos as int),
                    ),
                decreases pattern@.len() - tail,
            {
                proof {
                    assert(pattern@.skip(tail - 1).skip(1) =~= pattern@.skip(tail as int));
                    lemma_star_run(pattern@.skip(tail - 1), text@.skip(pos as int));
                }
                tail = tail + 1;
            }
            let ghost star = pattern@.skip(tail - 1);
            proof {
                assert(star[0] == STAR);
                assert(star.skip(1) =~= pattern@.skip(tail as int));
            }
            if tail == pattern.len() {
                proof {
                    assert(star =~= seq![STAR]);
                    lemma_star_matches_everything(text@.skip(pos as int));
                }
                return true;
            }
            let tail_pattern = slice_subrange(pattern, tail, pattern.len());
            let mut from: usize = pos;
            assert(tail_pattern@ =~= star.skip(1));
            loop
                invariant
                    from <= text@.len(),
                    at < tail < pattern@.len(),
                    tail_pattern@ == pattern@.skip(tail as int),
                    star.len() > 0,
                    star[0] == STAR,
                    star.skip(1) == tail_pattern@,
                    glob_matches(pattern@, text@) == glob_matches(star, text@.skip(from as int)),
                decreases text@.len() - from,
            {
                let tail_text = slice_subrange(text, from, text.len());
                assert(tail_text@ =~= text@.skip(from as int));
                if glob_match_bytes(tail_pattern, tail_text) {
                    return true;
                }
                if from == text.len() {
                    return false;
                }
                assert(text@.skip(from as int).skip(1) =~= text@.skip(from + 1));
                from = from + 1;
            }
        } else if pos == text.len() {
            return false;
        } else if token == QUESTION {
            at = at + 1;
            pos = pos + 1;
        } else if token == OPEN_BRACKET {
            let class = slice_subrange(pattern, at + 1, pattern.len());
            let (matched, taken) = match_class(class, text[pos]);
            assert(class@ =~= p.skip(1));
            assert(class@.skip(taken as int) =~= pattern@.skip(at + 1 + taken));
            if !matched {
                return false;
            }
            at = at + 1 + taken;
            pos = pos + 1;
        } else if token == BACKSLASH && at + 1 < pattern.len() {
            assert(p[1] == pattern@[at + 1]);
            assert(p.skip(2) =~= pattern@.skip(at + 2));
            if pattern[at + 1] != text[pos] {
                return false;
            }
            at = at + 2;
            pos = pos + 1;
        } else {
            if token != text[pos] {
                return false;
            }
            at = at + 1;
            pos = pos + 1;
        }
    }
    pos == text.len()
}

/// Matches one byte against a `[...]` class whose opening bracket has already
/// been consumed. Returns whether it matched and how many bytes of `class`
/// (up to and including the closing `]`) were consumed.
pub fn match_class(class: &[u8], ch: u8) -> (r: (bool, usize))
    ensures
        r.0 == class_match(class@, ch).0,
        r.1 == class_match(class@, ch).1,
        r.1 <= class@.len(),
{
    let negate = class.len() > 0 && (class[0] == CARET || class[0] == BANG);
    let mut i: usize = if negate {
        1
    } else {
        0
    };
    let ghost start = i as int;
    let mut matched = false;
    proof {
        lemma_class_scan_advances(class@, start, ch);
    }
    while i < class.len() && class[i] != CLOSE_BRACKET
        invariant
            start <= i <= class@.len(),
            class_scan(class@, start, ch).0 == (matched || class_scan(class@, i as int, ch).0),
            class_scan(class@, start, ch).1 == class_scan(class@, i as int, ch).1,
        decreases class@.len() - i,
    {
        if class[i] == BACKSLASH && i + 1 < class.len() {
            matched = matched || class[i + 1] == ch;
            i = i + 2;
        } else if class.len() - i > 2 && class[i + 1] == DASH && class[i + 2] != CLOSE_BRACKET {
            matched = matched || (class[i] <= ch && ch <= class[i + 2]) || (class[i + 2] <= ch
                && ch <= class[i]);
            i = i + 3;
        } else {
            matched = matched || class[i] == ch;
            i = i + 1;
        }
    }
    let consumed: usize = if i < class.len() {
        i + 1
    } else {
        i
    };
    (matched != negate, consumed)
}

/// Two stars in a row match what one does.
proof fn lemma_star_run(pattern: Seq<u8>, text: Seq<u8>)
    requires
        pattern.len() > 1,
        pattern[0] == STAR,
        pattern[1] == STAR,
    ensures
        glob_matches(pattern, text) == glob_matches(pattern.skip(1), text),
    decreases text.len(),
{
    if text.len() > 0 {
        lemma_star_run(pattern, text.skip(1));
    }
}

/// The pattern `*` matches every text.
pub proof fn lemma_star_matches_everything(text: Seq<u8>)
    ensures
        glob_matches(seq![STAR], text),
    decreases text.len(),
{
    let star = seq![STAR];
    assert(star.skip(1).len() == 0);
    if text.len() > 0 {
        lemma_star_matches_everything(text.skip(1));
    } else {
        assert(glob_matches(star.skip(1), text));
    }
}

/// A star in front of a pattern lets it match at any later position.
pub proof fn lemma_star_skips_any_run(pattern: Seq<u8>, run: Seq<u8>, text: Seq<u8>)
    requires
        glob_matches(pattern, text),
    ensures
        glob_matches(seq![STAR] + pattern, run + text),
    decreases run.len(),
{
    let star = seq![STAR] + pattern;
    assert(star.skip(1) =~= pattern);
    if run.len() == 0 {
        assert(run + text =~= text);
    } else {
        lemma_star_skips_any_run(pattern, run.skip(1), text);
        assert((run + text).skip(1) =~= run.skip(1) + text);
    }
}

/// A byte that stands for itself in a pattern.
pub open spec fn is_literal(byte: u8) -> bool {
    byte != STAR && byte != QUESTION && byte != OPEN_BRACKET && byte != BACKSLASH
}

/// A pattern without special bytes matches one text only: itself.
pub proof fn lemma_literal_matches_itself_only(pattern: Seq<u8>, text: Seq<u8>)
    requires
        forall|i: int| 0 <= i < pattern.len() ==> is_literal(#[trigger] pattern[i]),
    ensures
        glob_matches(pattern, text) == (pattern == text),
    decreases pattern.len(),
{
    if pattern.len() == 0 {
        assert(text.len() == 0 ==> pattern =~= text);
    } else {
        assert(is_literal(pattern[0]));
        if text.len() > 0 {
            assert forall|i: int| 0 <= i < pattern.skip(1).len() implies is_literal(
                #[trigger] pattern.skip(1)[i],
            ) by {
                assert(is_literal(pattern[i + 1]));
            }
            lemma_literal_matches_itself_only(pattern.skip(1), text.skip(1));
            if pattern[0] == text[0] && pattern.skip(1) == text.skip(1) {
                assert(pattern =~= seq![pattern[0]] + pattern.skip(1));
                assert(text =~= seq![text[0]] + text.skip(1));
            }
        }
    }
}

/// A pattern without special bytes, followed by a star, matches the texts that
/// start with it.
pub proof fn lemma_literal_prefix(prefix: Seq<u8>, text: Seq<u8>)
    requires
        forall|i: int| 0 <= i < prefix.len() ==> is_literal(#[trigger] prefix[i]),
    ensures
        glob_matches(prefix + seq![STAR], text) == prefix.is_prefix_of(text),
    decreases prefix.len(),
{
    let pattern = prefix + seq![STAR];
    if prefix.len() == 0 {
        assert(pattern =~= seq![STAR]);
        lemma_star_matches_everything(text);
        assert(prefix.is_prefix_of(text)) by {
            assert(prefix =~= text.subrange(0, 0));
        }
    } else {
        assert(pattern[0] == prefix[0]);
        assert(is_literal(prefix[0]));
        if text.len() > 0 {
            let rest = prefix.skip(1);
            assert(pattern.skip(1) =~= rest + seq![STAR]);
            assert forall|i: int| 0 <= i < rest.len() implies is_literal(#[trigger] rest[i]) by {
                assert(is_literal(prefix[i + 1]));
            }
            lemma_literal_prefix(rest, text.skip(1));
            if prefix[0] == text[0] && rest.is_prefix_of(text.skip(1)) {
                assert(prefix =~= seq![prefix[0]] + rest);
                assert(text =~= seq![text[0]] + text.skip(1));
                assert(prefix =~= text.subrange(0, prefix.len() as int)) by {
                    assert forall|i: int| 0 <= i < prefix.len() implies prefix[i] == text[i] by {
                        if i > 0 {
                            assert(rest[i - 1] == text.skip(1)[i - 1]);
                        }
                    }
                }
            }
            if prefix.is_prefix_of(text) {
                assert(rest =~= text.skip(1).subrange(0, rest.len() as int)) by {
                    assert forall|i: int| 0 <= i < rest.len() implies rest[i] == text.skip(
                        1,
                    )[i] by {
                        assert(prefix[i + 1] == text[i + 1]);
                    }
                }
            }
        }
    }
}

/// A class that starts later in a longer one reads the same.
proof fn lemma_scan_shift(front: Seq<u8>, class: Seq<u8>, i: int, ch: u8)
    requires
        0 <= i,
    ensures
        class_scan(front + class, front.len() + i, ch) == (
            class_scan(class, i, ch).0,
            front.len() + class_scan(class, i, ch).1,
        ),
    decreases class.len() - i,
{
    let whole = front + class;
    if i < class.len() {
        assert(whole[front.len() + i] == class[i]);
        lemma_scan_shift(front, class, i + 1, ch);
        if i + 1 < class.len() {
            assert(whole[front.len() + i + 1] == class[i + 1]);
            lemma_scan_shift(front, class, i + 2, ch);
        }
        if i + 2 < class.len() {
            assert(whole[front.len() + i + 2] == class[i + 2]);
            lemma_scan_shift(front, class, i + 3, ch);
        }
    }
}

/// A range in a class takes in every byte from one end to the other, both ends
/// included, whichever end comes first; what follows it in the class counts too.
pub proof fn lemma_class_range(one: u8, other: u8, rest: Seq<u8>, ch: u8)
    requires
        one != CLOSE_BRACKET,
        one != BACKSLASH,
        other != CLOSE_BRACKET,
    ensures
        class_scan(seq![one, DASH, other] + rest, 0, ch) == (
            one <= ch && ch <= other || other <= ch && ch <= one || class_scan(rest, 0, ch).0,
            3 + class_scan(rest, 0, ch).1,
        ),
{
    let front = seq![one, DASH, other];
    lemma_scan_shift(front, rest, 0, ch);
}

/// A byte that starts no range stands for itself in a class.
pub proof fn lemma_class_byte(byte: u8, rest: Seq<u8>, ch: u8)
    requires
        byte != CLOSE_BRACKET,
        byte != BACKSLASH,
        !(rest.len() >= 2 && rest[0] == DASH && rest[1] != CLOSE_BRACKET),
    ensures
        class_scan(seq![byte] + rest, 0, ch) == (
            byte == ch || class_scan(rest, 0, ch).0,
            1 + class_scan(rest, 0, ch).1,
        ),
{
    let whole = seq![byte] + rest;
    lemma_scan_shift(seq![byte], rest, 0, ch);
    if rest.len() >= 1 {
        assert(whole[1] == rest[0]);
    }
    if rest.len() >= 2 {
        assert(whole[2] == rest[1]);
    }
}

/// A byte behind a backslash stands for itself in a class, whatever it is.
pub proof fn lemma_class_escape(byte: u8, rest: Seq<u8>, ch: u8)
    ensures
        class_scan(seq![BACKSLASH, byte] + rest, 0, ch) == (
            byte == ch || class_scan(rest, 0, ch).0,
            2 + class_scan(rest, 0, ch).1,
        ),
{
    lemma_scan_shift(seq![BACKSLASH, byte], rest, 0, ch);
}

/// A class ends with its closing bracket, or with the pattern.
pub proof fn lemma_class_end(rest: Seq<u8>, ch: u8)
    ensures
        class_scan(seq![CLOSE_BRACKET] + rest, 0, ch) == (false, 1int),
        class_scan(Seq::empty(), 0, ch) == (false, 0int),
{
}

/// A class that opens with `^` or `!` matches exactly what the class behind it does
/// not list; any other class matches what it lists.
pub proof fn lemma_class_negation(mark: u8, class: Seq<u8>, ch: u8)
    ensures
        mark == CARET || mark == BANG ==> class_match(seq![mark] + class, ch) == (
            !class_scan(class, 0, ch).0,
            1 + class_scan(class, 0, ch).1,
        ),
        class.len() > 0 && class[0] != CARET && class[0] != BANG ==> class_match(class, ch)
            == class_scan(class, 0, ch),
{
    lemma_scan_shift(seq![mark], class, 0, ch);
}

/// The pattern `[lo-hi]` matches one byte, and matches it exactly when it lies between
/// the two, both included; `[^lo-hi]` matches the other bytes.
pub proof fn lemma_range_pattern(lo: u8, hi: u8, text: Seq<u8>)
    requires
        lo <= hi,
        lo != CLOSE_BRACKET && lo != BACKSLASH && lo != CARET && lo != BANG,
        hi != CLOSE_BRACKET,
    ensures
        glob_matches(seq![OPEN_BRACKET, lo, DASH, hi, CLOSE_BRACKET], text) == (text.len() == 1 && lo
            <= text[0] <= hi),
        glob_matches(seq![OPEN_BRACKET, CARET, lo, DASH, hi, CLOSE_BRACKET], text) == (text.len() == 1
            && !(lo <= text[0] <= hi)),
{
    let class = seq![lo, DASH, hi, CLOSE_BRACKET];
    let pattern = seq![OPEN_BRACKET, lo, DASH, hi, CLOSE_BRACKET];
    let turned = seq![OPEN_BRACKET, CARET, lo, DASH, hi, CLOSE_BRACKET];
    if text.len() > 0 {
        let ch = text[0];
        lemma_class_range(lo, hi, seq![CLOSE_BRACKET], ch);
        lemma_class_end(Seq::empty(), ch);
        assert(seq![CLOSE_BRACKET] + Seq::<u8>::empty() =~= seq![CLOSE_BRACKET]);
        assert(seq![lo, DASH, hi] + seq![CLOSE_BRACKET] =~= class);
        lemma_class_negation(CARET, class, ch);
        assert(pattern.skip(1) =~= class);
        assert(turned.skip(1) =~= seq![CARET] + class);
        assert(class.skip(4) =~= Seq::<u8>::empty());
        assert((seq![CARET] + class).skip(5) =~= Seq::<u8>::empty());
        assert(glob_matches(Seq::empty(), text.skip(1)) == (text.skip(1).len() == 0));
    }
}

/// What each sign of a pattern stands for: `*` for any run, `?` for any one byte, `\`
/// for the byte behind it, a class for one byte of it, any other byte for itself. The
/// end of the pattern stands for the end of the text.
pub proof fn lemma_signs(pattern: Seq<u8>, text: Seq<u8>, byte: u8)
    ensures
        glob_matches(Seq::empty(), text) == (text.len() == 0),
        glob_matches(seq![STAR] + pattern, text) == (exists|n: int|
            0 <= n <= text.len() && #[trigger] glob_matches(pattern, text.skip(n))),
        glob_matches(seq![QUESTION] + pattern, text) == (text.len() > 0 && glob_matches(
            pattern,
            text.skip(1),
        )),
        glob_matches(seq![BACKSLASH, byte] + pattern, text) == (text.len() > 0 && text[0] == byte
            && glob_matches(pattern, text.skip(1))),
        glob_matches(seq![BACKSLASH], text) == (text == seq![BACKSLASH]),
        is_literal(byte) ==> glob_matches(seq![byte] + pattern, text) == (text.len() > 0 && text[0]
            == byte && glob_matches(pattern, text.skip(1))),
        glob_matches(seq![OPEN_BRACKET] + pattern, text) == (text.len() > 0 && class_match(
            pattern,
            text[0],
        ).0 && glob_matches(pattern.skip(class_match(pattern, text[0]).1), text.skip(1))),
{
    lemma_star_splits(pattern, text);
    assert((seq![QUESTION] + pattern).skip(1) =~= pattern);
    assert((seq![BACKSLASH, byte] + pattern).skip(2) =~= pattern);
    assert((seq![byte] + pattern).skip(1) =~= pattern);
    assert((seq![OPEN_BRACKET] + pattern).skip(1) =~= pattern);
    if text.len() > 0 {
        let start = if class_negated(pattern) {
            1int
        } else {
            0
        };
        lemma_class_scan_advances(pattern, start, text[0]);
        assert(seq![BACKSLASH].skip(1) =~= Seq::<u8>::empty());
        assert(glob_matches(Seq::empty(), text.skip(1)) == (text.skip(1).len() == 0));
        if text.len() == 1 && text[0] == BACKSLASH {
            assert(text =~= seq![BACKSLASH]);
        }
    }
}

proof fn lemma_star_splits(pattern: Seq<u8>, text: Seq<u8>)
    ensures
        glob_matches(seq![STAR] + pattern, text) == (exists|n: int|
            0 <= n <= text.len() && #[trigger] glob_matches(pattern, text.skip(n))),
    decreases text.len(),
{
    let star = seq![STAR] + pattern;
    assert(star.skip(1) =~= pattern);
    assert(text.skip(0) =~= text);
    if glob_matches(pattern, text) {
        assert(glob_matches(pattern, text.skip(0)));
    }
    if text.len() > 0 {
        lemma_star_splits(pattern, text.skip(1));
        if glob_matches(star, text.skip(1)) {
            let n = choose|n: int|
                0 <= n <= text.skip(1).len() && #[trigger] glob_matches(
                    pattern,
                    text.skip(1).skip(n),
                );
            assert(text.skip(1).skip(n) =~= text.skip(n + 1));
            assert(glob_matches(pattern, text.skip(n + 1)));
        }
    }
    if exists|n: int| 0 <= n <= text.len() && #[trigger] glob_matches(pattern, text.skip(n)) {
        let n = choose|n: int|
            0 <= n <= text.len() && #[trigger] glob_matches(pattern, text.skip(n));
        if n > 0 {
            assert(text.skip(1).skip(n - 1) =~= text.skip(n));
            assert(glob_matches(pattern, text.skip(1).skip(n - 1)));
        }
        assert(glob_matches(star, text));
    }
}

/// The signs of a pattern are the ASCII characters that Redis uses.
pub proof fn lemma_sign_bytes()
    ensures
        STAR == '*' as u8,
        QUESTION == '?' as u8,
        OPEN_BRACKET == '[' as u8,
        CLOSE_BRACKET == ']' as u8,
        BACKSLASH == '\\' as u8,
        DASH == '-' as u8,
        CARET == '^' as u8,
        BANG == '!' as u8,
{
}

} // verus!
