//! What framing guarantees: a request reads back as it was written, and is
//! never cut short or run together with its neighbours.
use vstd::prelude::*;
use vstd::utf8::*;

use crate::resp;
use crate::server;
use crate::server::{Part, CARRIAGE_RETURN, MAX_BULK_BYTES, MAX_MULTIBULK, NEWLINE};
use crate::text;

verus! {

proof fn lemma_line_len(input: Seq<u8>)
    ensures
        server::line_len(input) <= input.len(),
        server::line_len(input) < input.len() ==> input[server::line_len(input) as int] == NEWLINE,
    decreases input.len(),
{
    if input.len() > 0 && input[0] != NEWLINE {
        lemma_line_len(input.skip(1));
    }
}

proof fn lemma_line_len_is(input: Seq<u8>, n: int)
    requires
        0 <= n <= input.len(),
        n < input.len() ==> input[n] == NEWLINE,
        forall|i: int| 0 <= i < n ==> input[i] != NEWLINE,
    ensures
        server::line_len(input) == n,
    decreases input.len(),
{
    if n > 0 {
        assert(input[0] != NEWLINE);
        assert forall|i: int| 0 <= i < n - 1 implies input.skip(1)[i] != NEWLINE by {
            assert(input.skip(1)[i] == input[i + 1]);
        }
        lemma_line_len_is(input.skip(1), n - 1);
    }
}

proof fn lemma_line_len_extends(input: Seq<u8>, more: Seq<u8>)
    requires
        server::line_len(input) < input.len(),
    ensures
        server::line_len(input + more) == server::line_len(input),
    decreases input.len(),
{
    assert((input + more)[0] == input[0]);
    if input[0] != NEWLINE {
        assert((input + more).skip(1) =~= input.skip(1) + more);
        lemma_line_len_extends(input.skip(1), more);
    }
}

proof fn lemma_line_stable(input: Seq<u8>, more: Seq<u8>, at_end: bool)
    requires
        !(server::line(input, false) is Incomplete),
    ensures
        server::line(input + more, at_end) == server::line(input, false),
        server::line(input, false) matches Part::Done(_, used) ==> 0 < used <= input.len(),
{
    lemma_line_len(input);
    lemma_line_len_extends(input, more);
    let used = server::line_len(input) + 1;
    assert((input + more).take(used as int) =~= input.take(used as int));
}

proof fn lemma_bulk_stable(input: Seq<u8>, more: Seq<u8>, at_end: bool)
    requires
        !(server::bulk(input, false) is Incomplete),
    ensures
        server::bulk(input + more, at_end) == server::bulk(input, false),
        server::bulk(input, false) matches Part::Done(_, used) ==> used <= input.len(),
{
    lemma_line_stable(input, more, at_end);
    match server::line(input, false) {
        Part::Done(header_line, used) => {
            let header = text::trimmed_end(header_line);
            if header.len() > 0 && header[0] == '$' {
                match text::parse_unsigned(header.skip(1), usize::MAX as int) {
                    Some(length) => {
                        if length <= MAX_BULK_BYTES && input.len() >= used + length + 2 {
                            text::lemma_parse_unsigned_range(header.skip(1), usize::MAX as int);
                            assert((input + more)[used + length] == input[used + length]);
                            assert((input + more)[used + length + 1] == input[used + length + 1]);
                            assert((input + more).subrange(used as int, used + length)
                                =~= input.subrange(used as int, used + length));
                        }
                    },
                    None => {},
                }
            }
        },
        _ => {},
    }
}

proof fn lemma_bulks_stable(input: Seq<u8>, count: nat, more: Seq<u8>, at_end: bool)
    requires
        !(server::bulks(input, count, false) is Incomplete),
    ensures
        server::bulks(input + more, count, at_end) == server::bulks(input, count, false),
        server::bulks(input, count, false) matches Part::Done(_, used) ==> used <= input.len(),
    decreases count,
{
    if count > 0 {
        lemma_bulk_stable(input, more, at_end);
        match server::bulk(input, false) {
            Part::Done(token, used) => {
                let rest = input.skip(used as int);
                assert((input + more).skip(used as int) =~= rest + more);
                lemma_bulks_stable(rest, (count - 1) as nat, more, at_end);
            },
            _ => {},
        }
    }
}

/// Once a request can be told from the bytes that have arrived, the bytes that
/// follow, whatever they are, do not change it: requests that are sent together
/// are read as if each had come alone.
pub proof fn lemma_request_stable(input: Seq<u8>, more: Seq<u8>, at_end: bool)
    requires
        !(server::request(input, false) is Incomplete),
    ensures
        server::request(input + more, at_end) == server::request(input, false),
        server::request(input, false) matches Part::Done(_, used) ==> 0 < used <= input.len(),
{
    lemma_line_stable(input, more, at_end);
    match server::line(input, false) {
        Part::Done(first_line, used) => {
            let content = text::trimmed_end(first_line);
            if content.len() > 0 && content[0] == '*' {
                match text::parse_unsigned(content.skip(1), usize::MAX as int) {
                    Some(count) => {
                        if count <= MAX_MULTIBULK {
                            let rest = input.skip(used as int);
                            assert((input + more).skip(used as int) =~= rest + more);
                            lemma_bulks_stable(rest, count as nat, more, at_end);
                        }
                    },
                    None => {},
                }
            }
        },
        _ => {},
    }
}

proof fn lemma_bulks_decided_at_end(input: Seq<u8>, count: nat)
    ensures
        !(server::bulks(input, count, true) is Incomplete),
    decreases count,
{
    if count > 0 {
        match server::bulk(input, true) {
            Part::Done(_, used) => {
                lemma_bulks_decided_at_end(input.skip(used as int), (count - 1) as nat);
            },
            _ => {},
        }
    }
}

/// At the end of the input nothing is left to wait for: there is a request, or
/// there is none.
pub proof fn lemma_request_decided_at_end(input: Seq<u8>)
    ensures
        !(server::request(input, true) is Incomplete),
{
    match server::line(input, true) {
        Part::Done(first_line, used) => {
            let content = text::trimmed_end(first_line);
            match text::parse_unsigned(content.skip(1), usize::MAX as int) {
                Some(count) => {
                    lemma_bulks_decided_at_end(input.skip(used as int), count as nat);
                },
                None => {},
            }
        },
        _ => {},
    }
}

/// The first line of a frame: a marker and a number.
spec fn header(marker: char, n: nat) -> Seq<char> {
    seq![marker] + text::decimal(n as int) + resp::crlf()
}

proof fn lemma_header_ascii(marker: char, n: nat)
    requires
        marker == '*' || marker == '$',
    ensures
        is_ascii_chars(header(marker, n)),
        encode_utf8(header(marker, n)).len() == header(marker, n).len(),
        header(marker, n).len() == text::decimal_digits(n).len() + 3,
        forall|i: int|
            0 <= i < header(marker, n).len() ==> (#[trigger] encode_utf8(header(marker, n))[i]
                == NEWLINE) == (i == header(marker, n).len() - 1),
        text::trimmed_end(header(marker, n)) == seq![marker] + text::decimal(n as int),
{
    let h = header(marker, n);
    let digits = text::decimal_digits(n);
    text::lemma_decimal_digits(n);
    assert forall|i: int| 0 <= i < h.len() implies '\0' <= #[trigger] h[i] <= '\u{7f}' by {
        if 0 < i <= digits.len() {
            assert(text::is_digit(digits[i - 1]));
        }
    }
    is_ascii_chars_encode_utf8(h);
    assert forall|i: int| 0 <= i < h.len() implies (#[trigger] encode_utf8(h)[i] == NEWLINE) == (i
        == h.len() - 1) by {
        assert(h[i] as u8 == encode_utf8(h)[i]);
        if 0 < i <= digits.len() {
            assert(text::is_digit(digits[i - 1]));
        }
    }
    let content = seq![marker] + digits;
    assert(h.drop_last().drop_last() =~= content);
    assert(h.last() == '\n');
    assert(h.drop_last().last() == '\r');
    assert(content.last() == digits.last());
    assert(text::is_digit(digits[digits.len() - 1]));
    assert(text::trimmed_end(content) == content);
    assert(text::trimmed_end(h.drop_last()) == content);
}

proof fn lemma_header_line(marker: char, n: nat, rest: Seq<u8>, at_end: bool)
    requires
        marker == '*' || marker == '$',
    ensures
        server::line(encode_utf8(header(marker, n)) + rest, at_end) == Part::Done(
            header(marker, n),
            header(marker, n).len(),
        ),
        encode_utf8(header(marker, n)).len() == header(marker, n).len(),
        text::trimmed_end(header(marker, n)) == seq![marker] + text::decimal(n as int),
{
    lemma_header_ascii(marker, n);
    let h = header(marker, n);
    let e = encode_utf8(h);
    let input = e + rest;
    assert forall|i: int| 0 <= i < h.len() - 1 implies input[i] != NEWLINE by {
        assert(input[i] == e[i]);
    }
    assert(input[h.len() - 1] == e[h.len() - 1]);
    lemma_line_len_is(input, h.len() - 1);
    assert(input.take(h.len() as int) =~= e);
    encode_utf8_valid_utf8(h);
    encode_utf8_decode_utf8(h);
}

/// A bulk string reads back as the text it was made of, whatever follows it.
pub proof fn lemma_bulk_read_back(token: Seq<char>, rest: Seq<u8>, at_end: bool)
    requires
        encode_utf8(token).len() <= MAX_BULK_BYTES,
    ensures
        server::bulk(encode_utf8(resp::bulk_frame(token)) + rest, at_end) == Part::Done(
            token,
            encode_utf8(resp::bulk_frame(token)).len(),
        ),
{
    let data = encode_utf8(token);
    let h = header('$', data.len());
    let end = encode_utf8(resp::crlf());
    lemma_frame_bytes(token);
    lemma_header_line('$', data.len(), data + end + rest, at_end);
    let input = encode_utf8(resp::bulk_frame(token)) + rest;
    assert(input =~= encode_utf8(h) + (data + end + rest));
    let content = seq!['$'] + text::decimal(data.len() as int);
    assert(content.skip(1) =~= text::decimal(data.len() as int));
    text::lemma_unsigned_round_trip(data.len(), usize::MAX as int);
    let used = h.len();
    assert(input.subrange(used as int, (used + data.len()) as int) =~= data);
    assert(input[(used + data.len()) as int] == end[0]);
    assert(input[(used + data.len() + 1) as int] == end[1]);
    encode_utf8_valid_utf8(token);
    encode_utf8_decode_utf8(token);
}

/// A bulk string whose data is not followed by a line end breaks the framing,
/// whatever else is sent.
pub proof fn lemma_bulk_without_line_end_fails(
    data: Seq<u8>,
    end: Seq<u8>,
    rest: Seq<u8>,
    at_end: bool,
)
    requires
        data.len() <= MAX_BULK_BYTES,
        end.len() == 2,
        end != seq![CARRIAGE_RETURN, NEWLINE],
    ensures
        server::bulk(
            encode_utf8(seq!['$'] + text::decimal(data.len() as int) + resp::crlf()) + data + end
                + rest,
            at_end,
        ) == Part::<Seq<char>>::Failed(server::violation("expected CRLF after bulk data"@)),
{
    let h = header('$', data.len());
    let input = encode_utf8(h) + data + end + rest;
    assert(input =~= encode_utf8(h) + (data + end + rest));
    lemma_header_line('$', data.len(), data + end + rest, at_end);
    let content = seq!['$'] + text::decimal(data.len() as int);
    assert(content.skip(1) =~= text::decimal(data.len() as int));
    text::lemma_unsigned_round_trip(data.len(), usize::MAX as int);
    assert(input[(h.len() + data.len()) as int] == end[0]);
    assert(input[(h.len() + data.len() + 1) as int] == end[1]);
    if end[0] == CARRIAGE_RETURN && end[1] == NEWLINE {
        assert(end =~= seq![CARRIAGE_RETURN, NEWLINE]);
    }
}

/// The bytes of a bulk string: its header, its data, and a line end.
proof fn lemma_frame_bytes(token: Seq<char>)
    ensures
        encode_utf8(resp::bulk_frame(token)) == encode_utf8(header('$', encode_utf8(token).len()))
            + encode_utf8(token) + encode_utf8(resp::crlf()),
        encode_utf8(resp::crlf()) == seq![CARRIAGE_RETURN, NEWLINE],
{
    let h = header('$', encode_utf8(token).len());
    assert(resp::bulk_frame(token) =~= h + token + resp::crlf());
    text::lemma_encode_concat(h + token, resp::crlf());
    text::lemma_encode_concat(h, token);
    assert(is_ascii_chars(resp::crlf()));
    is_ascii_chars_encode_utf8(resp::crlf());
    assert(encode_utf8(resp::crlf()) =~= seq![CARRIAGE_RETURN, NEWLINE]) by {
        assert(resp::crlf()[0] as u8 == encode_utf8(resp::crlf())[0]);
        assert(resp::crlf()[1] as u8 == encode_utf8(resp::crlf())[1]);
    }
}

/// The first of several bulk strings, and the others.
proof fn lemma_bulk_frames_first(items: Seq<Seq<char>>)
    requires
        items.len() > 0,
    ensures
        resp::bulk_frames(items) == resp::bulk_frame(items[0]) + resp::bulk_frames(items.skip(1)),
    decreases items.len(),
{
    if items.len() == 1 {
        assert(items.drop_last() =~= Seq::<Seq<char>>::empty());
        assert(items.skip(1) =~= Seq::<Seq<char>>::empty());
        assert(resp::bulk_frames(items.drop_last()) =~= Seq::<char>::empty());
        assert(resp::bulk_frames(items.skip(1)) =~= Seq::<char>::empty());
        assert(resp::bulk_frames(items) =~= resp::bulk_frame(items[0]) + resp::bulk_frames(
            items.skip(1),
        ));
    } else {
        lemma_bulk_frames_first(items.drop_last());
        assert(items.drop_last()[0] == items[0]);
        assert(items.drop_last().skip(1) =~= items.skip(1).drop_last());
        assert(items.skip(1).last() == items.last());
        assert(resp::bulk_frames(items) =~= resp::bulk_frame(items[0]) + resp::bulk_frames(
            items.skip(1),
        ));
    }
}

/// Whether a request is within the limits that a reader accepts.
pub open spec fn within_limits(tokens: Seq<Seq<char>>) -> bool {
    &&& tokens.len() <= MAX_MULTIBULK
    &&& forall|i: int|
        0 <= i < tokens.len() ==> encode_utf8(#[trigger] tokens[i]).len() <= MAX_BULK_BYTES
}

proof fn lemma_bulks_within_limits(input: Seq<u8>, count: nat, at_end: bool)
    ensures
        server::bulks(input, count, at_end) matches Part::Done(tokens, _) ==> {
            &&& tokens.len() == count
            &&& forall|i: int|
                0 <= i < tokens.len() ==> encode_utf8(#[trigger] tokens[i]).len()
                    <= MAX_BULK_BYTES
        },
    decreases count,
{
    if count > 0 {
        match server::bulk(input, at_end) {
            Part::Done(token, used) => {
                lemma_bulks_within_limits(input.skip(used as int), (count - 1) as nat, at_end);
                let header_line = server::line(input, at_end)->Done_0;
                let start = server::line(input, at_end)->Done_1;
                let digits = text::trimmed_end(header_line).skip(1);
                let length = text::parse_unsigned(digits, usize::MAX as int)->Some_0;
                text::lemma_parse_unsigned_range(digits, usize::MAX as int);
                let data = input.subrange(start as int, start + length);
                decode_utf8_encode_utf8(data);
                assert(encode_utf8(token).len() == length);
            },
            _ => {},
        }
    }
}

/// A request that was sent as a RESP array is within the limits, so once it is
/// logged it reads back.
pub proof fn lemma_array_requests_are_within_limits(input: Seq<u8>, at_end: bool)
    requires
        server::line(input, at_end) matches Part::Done(first_line, _) && text::trimmed_end(
            first_line,
        ).len() > 0 && text::trimmed_end(first_line)[0] == '*',
    ensures
        server::request(input, at_end) matches Part::Done(tokens, _) ==> within_limits(tokens),
{
    let first_line = server::line(input, at_end)->Done_0;
    let used = server::line(input, at_end)->Done_1;
    let digits = text::trimmed_end(first_line).skip(1);
    match text::parse_unsigned(digits, usize::MAX as int) {
        Some(count) => {
            text::lemma_parse_unsigned_range(digits, usize::MAX as int);
            lemma_bulks_within_limits(input.skip(used as int), count as nat, at_end);
            let rest = server::bulks(input.skip(used as int), count as nat, at_end);
            if rest is Done {
                assert(Seq::<Seq<char>>::empty() + rest->Done_0 =~= rest->Done_0);
            }
        },
        None => {},
    }
}

proof fn lemma_bulks_read_back(tokens: Seq<Seq<char>>, rest: Seq<u8>, at_end: bool)
    requires
        within_limits(tokens),
    ensures
        server::bulks(encode_utf8(resp::bulk_frames(tokens)) + rest, tokens.len(), at_end)
            == Part::Done(tokens, encode_utf8(resp::bulk_frames(tokens)).len()),
    decreases tokens.len(),
{
    let frames = encode_utf8(resp::bulk_frames(tokens));
    if tokens.len() == 0 {
        assert(tokens =~= Seq::<Seq<char>>::empty());
    } else {
        let first = encode_utf8(resp::bulk_frame(tokens[0]));
        let others = tokens.skip(1);
        let more = encode_utf8(resp::bulk_frames(others));
        lemma_bulk_frames_first(tokens);
        text::lemma_encode_concat(resp::bulk_frame(tokens[0]), resp::bulk_frames(others));
        assert(frames + rest =~= first + (more + rest));
        lemma_bulk_read_back(tokens[0], more + rest, at_end);
        assert((frames + rest).skip(first.len() as int) =~= more + rest);
        assert forall|i: int| 0 <= i < others.len() implies encode_utf8(#[trigger] others[i]).len()
            <= MAX_BULK_BYTES by {
            assert(others[i] == tokens[i + 1]);
        }
        lemma_bulks_read_back(others, rest, at_end);
        assert(seq![tokens[0]] + others =~= tokens);
    }
}

/// A request that is written as a RESP array reads back token by token, whatever
/// the tokens hold and whatever follows.
pub proof fn lemma_array_read_back(tokens: Seq<Seq<char>>, rest: Seq<u8>, at_end: bool)
    requires
        within_limits(tokens),
    ensures
        server::request(encode_utf8(resp::array_frame(tokens)) + rest, at_end) == Part::Done(
            tokens,
            encode_utf8(resp::array_frame(tokens)).len(),
        ),
{
    let h = header('*', tokens.len());
    let frames = encode_utf8(resp::bulk_frames(tokens));
    assert(resp::array_frame(tokens) =~= h + resp::bulk_frames(tokens));
    text::lemma_encode_concat(h, resp::bulk_frames(tokens));
    let input = encode_utf8(resp::array_frame(tokens)) + rest;
    assert(input =~= encode_utf8(h) + (frames + rest));
    lemma_header_line('*', tokens.len(), frames + rest, at_end);
    let content = seq!['*'] + text::decimal(tokens.len() as int);
    assert(content.skip(1) =~= text::decimal(tokens.len() as int));
    text::lemma_unsigned_round_trip(tokens.len(), usize::MAX as int);
    assert(input.skip(h.len() as int) =~= frames + rest);
    lemma_bulks_read_back(tokens, rest, at_end);
    assert(Seq::<Seq<char>>::empty() + tokens =~= tokens);
}

/// What is left of a header line that was cut short.
proof fn lemma_header_prefix(marker: char, n: nat, cut: int)
    requires
        marker == '*' || marker == '$',
        0 < cut < header(marker, n).len(),
    ensures
        server::line(encode_utf8(header(marker, n)).take(cut), true) == Part::Done(
            header(marker, n).take(cut),
            cut as nat,
        ),
        text::trimmed_end(header(marker, n).take(cut)) == seq![marker] + text::decimal_digits(
            n,
        ).take(
            if cut - 1 < text::decimal_digits(n).len() {
                cut - 1
            } else {
                text::decimal_digits(n).len() as int
            },
        ),
{
    let h = header(marker, n);
    let p = h.take(cut);
    let digits = text::decimal_digits(n);
    lemma_header_ascii(marker, n);
    text::lemma_decimal_digits(n);
    let input = encode_utf8(h).take(cut);
    assert(is_ascii_chars(p));
    is_ascii_chars_encode_utf8(p);
    is_ascii_chars_encode_utf8(h);
    assert(encode_utf8(p) =~= input) by {
        assert forall|i: int| 0 <= i < cut implies encode_utf8(p)[i] == input[i] by {
            assert(p[i] as u8 == encode_utf8(p)[i]);
            assert(h[i] as u8 == encode_utf8(h)[i]);
        }
    }
    assert forall|i: int| 0 <= i < cut implies input[i] != NEWLINE by {
        assert(input[i] == encode_utf8(h)[i]);
    }
    lemma_line_len_is(input, cut);
    assert(input.take(cut) =~= input);
    encode_utf8_valid_utf8(p);
    encode_utf8_decode_utf8(p);
    if cut - 1 <= digits.len() {
        let k = cut - 1;
        let content = seq![marker] + digits.take(k);
        assert(p =~= content);
        if k > 0 {
            assert(text::is_digit(digits[k - 1]));
            assert(content.last() == digits[k - 1]);
        }
        assert(text::trimmed_end(content) == content);
    } else {
        let content = seq![marker] + digits;
        assert(p.drop_last() =~= content);
        assert(p.last() == '\r');
        assert(text::is_digit(digits[digits.len() - 1]));
        assert(content.last() == digits[digits.len() - 1]);
        assert(text::trimmed_end(content) == content);
        assert(digits.take(digits.len() as int) =~= digits);
    }
}

/// Input that ends too early, or that breaks the framing.
spec fn is_broken<T>(part: Part<T>) -> bool {
    part is Truncated || part is Failed
}

proof fn lemma_bulk_truncated(token: Seq<char>, cut: int)
    requires
        encode_utf8(token).len() <= MAX_BULK_BYTES,
        0 <= cut < encode_utf8(resp::bulk_frame(token)).len(),
    ensures
        is_broken(server::bulk(encode_utf8(resp::bulk_frame(token)).take(cut), true)),
{
    let data = encode_utf8(token);
    let h = header('$', data.len());
    let e = encode_utf8(h);
    let frame = encode_utf8(resp::bulk_frame(token));
    let input = frame.take(cut);
    lemma_frame_bytes(token);
    lemma_header_ascii('$', data.len());
    if cut == 0 {
        assert(input.len() == 0);
        assert(server::line_len(input) == 0);
    } else if cut < h.len() {
        assert(input =~= e.take(cut));
        lemma_header_prefix('$', data.len(), cut);
        let content = text::trimmed_end(h.take(cut));
        text::lemma_parse_unsigned_range(content.skip(1), usize::MAX as int);
    } else {
        let rest = input.skip(h.len() as int);
        assert(input =~= e + rest);
        lemma_header_line('$', data.len(), rest, true);
        let content = seq!['$'] + text::decimal(data.len() as int);
        assert(content.skip(1) =~= text::decimal(data.len() as int));
        text::lemma_unsigned_round_trip(data.len(), usize::MAX as int);
    }
}

proof fn lemma_bulks_truncated(tokens: Seq<Seq<char>>, cut: int)
    requires
        within_limits(tokens),
        0 <= cut < encode_utf8(resp::bulk_frames(tokens)).len(),
    ensures
        is_broken(
            server::bulks(encode_utf8(resp::bulk_frames(tokens)).take(cut), tokens.len(), true),
        ),
    decreases tokens.len(),
{
    let frames = encode_utf8(resp::bulk_frames(tokens));
    if tokens.len() > 0 {
        let first = encode_utf8(resp::bulk_frame(tokens[0]));
        let others = tokens.skip(1);
        let more = encode_utf8(resp::bulk_frames(others));
        lemma_bulk_frames_first(tokens);
        text::lemma_encode_concat(resp::bulk_frame(tokens[0]), resp::bulk_frames(others));
        assert(frames =~= first + more);
        if cut < first.len() {
            assert(frames.take(cut) =~= first.take(cut));
            lemma_bulk_truncated(tokens[0], cut);
        } else {
            let left = more.take(cut - first.len());
            assert(frames.take(cut) =~= first + left);
            lemma_bulk_read_back(tokens[0], left, true);
            assert(frames.take(cut).skip(first.len() as int) =~= left);
            assert forall|i: int| 0 <= i < others.len() implies encode_utf8(
                #[trigger] others[i],
            ).len() <= MAX_BULK_BYTES by {
                assert(others[i] == tokens[i + 1]);
            }
            lemma_bulks_truncated(others, cut - first.len());
        }
    }
}

/// A request that was cut short, as by a crash in the middle of an append, is
/// never taken for a request.
pub proof fn lemma_truncated_is_no_request(tokens: Seq<Seq<char>>, cut: int)
    requires
        tokens.len() > 0,
        within_limits(tokens),
        0 <= cut < encode_utf8(resp::array_frame(tokens)).len(),
    ensures
        match server::request(encode_utf8(resp::array_frame(tokens)).take(cut), true) {
            Part::End => cut == 0,
            Part::Truncated => cut > 0,
            Part::Failed(_) => cut > 0,
            _ => false,
        },
{
    let n = tokens.len();
    let h = header('*', n);
    let e = encode_utf8(h);
    let frames = encode_utf8(resp::bulk_frames(tokens));
    let whole = encode_utf8(resp::array_frame(tokens));
    let input = whole.take(cut);
    assert(resp::array_frame(tokens) =~= h + resp::bulk_frames(tokens));
    text::lemma_encode_concat(h, resp::bulk_frames(tokens));
    lemma_header_ascii('*', n);
    if cut == 0 {
        assert(input.len() == 0);
        assert(server::line_len(input) == 0);
    } else if cut < h.len() {
        assert(input =~= e.take(cut));
        lemma_header_prefix('*', n, cut);
        let digits = text::decimal_digits(n);
        let k = if cut - 1 < digits.len() {
            cut - 1
        } else {
            digits.len() as int
        };
        let content = text::trimmed_end(h.take(cut));
        assert(content.skip(1) =~= digits.take(k));
        assert(input.skip(cut).len() == 0);
        assert(server::line_len(input.skip(cut)) == 0);
        if k > 0 {
            text::lemma_decimal_prefix_positive(n, k);
            assert(text::is_digit(digits.take(k)[0]));
            let count = text::digits_value(digits.take(k));
            assert(server::bulk(input.skip(cut), true) is Failed);
            assert(server::bulks(input.skip(cut), count as nat, true) is Failed);
        }
    } else {
        let left = frames.take(cut - h.len());
        assert(input =~= e + left);
        lemma_header_line('*', n, left, true);
        let content = seq!['*'] + text::decimal(n as int);
        assert(content.skip(1) =~= text::decimal(n as int));
        text::lemma_unsigned_round_trip(n, usize::MAX as int);
        assert(input.skip(h.len() as int) =~= left);
        lemma_bulks_truncated(tokens, cut - h.len());
    }
}

/// The bytes of a log: each request as a RESP array, one after another.
pub open spec fn log_bytes(requests: Seq<Seq<Seq<char>>>) -> Seq<u8>
    decreases requests.len(),
{
    if requests.len() == 0 {
        Seq::empty()
    } else {
        log_bytes(requests.drop_last()) + encode_utf8(resp::array_frame(requests.last()))
    }
}

proof fn lemma_log_bytes_first(requests: Seq<Seq<Seq<char>>>)
    requires
        requests.len() > 0,
    ensures
        log_bytes(requests) == encode_utf8(resp::array_frame(requests[0])) + log_bytes(
            requests.skip(1),
        ),
    decreases requests.len(),
{
    let first = encode_utf8(resp::array_frame(requests[0]));
    if requests.len() == 1 {
        assert(log_bytes(requests.drop_last()) =~= Seq::<u8>::empty());
        assert(log_bytes(requests.skip(1)) =~= Seq::<u8>::empty());
        assert(log_bytes(requests) =~= first + log_bytes(requests.skip(1)));
    } else {
        lemma_log_bytes_first(requests.drop_last());
        assert(requests.drop_last().skip(1) =~= requests.skip(1).drop_last());
        assert(requests.skip(1).last() == requests.last());
        assert(log_bytes(requests) =~= first + log_bytes(requests.skip(1)));
    }
}

proof fn lemma_log_read_back_then(requests: Seq<Seq<Seq<char>>>, tail: Seq<u8>)
    requires
        forall|i: int| 0 <= i < requests.len() ==> within_limits(#[trigger] requests[i]),
    ensures
        server::log_requests(log_bytes(requests) + tail) == requests + server::log_requests(tail),
        server::log_problem(log_bytes(requests) + tail) == server::log_problem(tail),
    decreases requests.len(),
{
    let input = log_bytes(requests) + tail;
    if requests.len() == 0 {
        assert(input =~= tail);
        assert(requests + server::log_requests(tail) =~= server::log_requests(tail));
    } else {
        let first = encode_utf8(resp::array_frame(requests[0]));
        let others = requests.skip(1);
        lemma_log_bytes_first(requests);
        assert(input =~= first + (log_bytes(others) + tail));
        assert(within_limits(requests[0]));
        lemma_array_read_back(requests[0], log_bytes(others) + tail, true);
        assert(first.len() > 0) by {
            let h = header('*', requests[0].len());
            assert(resp::array_frame(requests[0]) =~= h + resp::bulk_frames(requests[0]));
            text::lemma_encode_concat(h, resp::bulk_frames(requests[0]));
            lemma_header_ascii('*', requests[0].len());
        }
        assert(input.skip(first.len() as int) =~= log_bytes(others) + tail);
        assert forall|i: int| 0 <= i < others.len() implies within_limits(
            #[trigger] others[i],
        ) by {
            assert(others[i] == requests[i + 1]);
        }
        lemma_log_read_back_then(others, tail);
        assert(seq![requests[0]] + (others + server::log_requests(tail)) =~= requests
            + server::log_requests(tail));
    }
}

/// Reading a log gives every request that was appended to it, in order, and
/// nothing else; an append that was cut short at the end is left out.
pub proof fn lemma_log_read_back(
    requests: Seq<Seq<Seq<char>>>,
    interrupted: Seq<Seq<char>>,
    cut: int,
)
    requires
        forall|i: int| 0 <= i < requests.len() ==> within_limits(#[trigger] requests[i]),
        interrupted.len() > 0,
        within_limits(interrupted),
        0 <= cut < encode_utf8(resp::array_frame(interrupted)).len(),
    ensures
        server::log_requests(
            log_bytes(requests) + encode_utf8(resp::array_frame(interrupted)).take(cut),
        ) == requests,
        server::log_problem(
            log_bytes(requests) + encode_utf8(resp::array_frame(interrupted)).take(cut),
        ) is Some == (cut > 0),
{
    let tail = encode_utf8(resp::array_frame(interrupted)).take(cut);
    lemma_log_read_back_then(requests, tail);
    lemma_truncated_is_no_request(interrupted, cut);
    assert(requests + server::log_requests(tail) =~= requests);
}

/// Reading a log that ends where an append ended gives every request that was
/// appended to it, in order, and nothing else.
pub proof fn lemma_whole_log_read_back(requests: Seq<Seq<Seq<char>>>)
    requires
        forall|i: int| 0 <= i < requests.len() ==> within_limits(#[trigger] requests[i]),
    ensures
        server::log_requests(log_bytes(requests)) == requests,
        server::log_problem(log_bytes(requests)) is None,
    decreases requests.len(),
{
    let none = Seq::<u8>::empty();
    lemma_log_read_back_then(requests, none);
    assert(log_bytes(requests) + none =~= log_bytes(requests));
    assert(server::line_len(none) == 0);
    assert(server::log_requests(none) =~= Seq::<Seq<Seq<char>>>::empty());
    assert(requests + server::log_requests(none) =~= requests);
    if requests.len() > 0 {
        let first = encode_utf8(resp::array_frame(requests[0]));
        let others = requests.skip(1);
        lemma_log_bytes_first(requests);
        assert(within_limits(requests[0]));
        lemma_array_read_back(requests[0], log_bytes(others), true);
        assert forall|i: int| 0 <= i < others.len() implies within_limits(
            #[trigger] others[i],
        ) by {
            assert(others[i] == requests[i + 1]);
        }
        lemma_whole_log_read_back(others);
        assert(log_bytes(requests).skip(first.len() as int) =~= log_bytes(others));
        assert(first.len() > 0) by {
            let h = header('*', requests[0].len());
            assert(resp::array_frame(requests[0]) =~= h + resp::bulk_frames(requests[0]));
            text::lemma_encode_concat(h, resp::bulk_frames(requests[0]));
            lemma_header_ascii('*', requests[0].len());
        }
    }
}

/// One line of plain ASCII words is an inline request made of those words.
pub proof fn lemma_inline_request(content: Seq<char>, rest: Seq<u8>, at_end: bool)
    requires
        is_ascii_chars(content),
        !content.contains('\n'),
        content.len() > 0,
        content[0] != '*',
        !text::is_space(content.last()),
    ensures
        server::request(encode_utf8(content + resp::crlf()) + rest, at_end) == Part::Done(
            text::words(content),
            content.len() + 2,
        ),
{
    let l = content + resp::crlf();
    let e = encode_utf8(l);
    assert(is_ascii_chars(l));
    is_ascii_chars_encode_utf8(l);
    let input = e + rest;
    assert forall|i: int| 0 <= i < content.len() + 1 implies input[i] != NEWLINE by {
        assert(l[i] as u8 == e[i]);
        if i < content.len() {
            assert(content.contains(content[i]));
            assert(l[i] == content[i]);
        }
    }
    assert(l[content.len() as int + 1] as u8 == e[content.len() as int + 1]);
    lemma_line_len_is(input, content.len() as int + 1);
    assert(input.take(l.len() as int) =~= e);
    encode_utf8_valid_utf8(l);
    encode_utf8_decode_utf8(l);
    assert(l.drop_last().drop_last() =~= content);
    assert(l.last() == '\n');
    assert(l.drop_last().last() == '\r');
    assert(text::trimmed_end(content) == content);
    assert(text::trimmed_end(l.drop_last()) == content);
}

/// The limits, and how a violation is worded.
pub proof fn lemma_limits(message: Seq<char>)
    ensures
        MAX_MULTIBULK == 1024 * 1024,
        MAX_BULK_BYTES == 512 * 1024 * 1024,
        NEWLINE == '\n' as u8,
        CARRIAGE_RETURN == '\r' as u8,
        server::violation(message) == "protocol error: "@ + message,
{
}

/// A line goes up to and with the first newline; it has to be text.
pub proof fn lemma_line_means(input: Seq<u8>, n: int, at_end: bool)
    requires
        0 <= n < input.len(),
        input[n] == '\n' as u8,
        forall|i: int| 0 <= i < n ==> input[i] != '\n' as u8,
    ensures
        server::line(input, at_end) == if valid_utf8(input.take(n + 1)) {
            Part::Done(decode_utf8(input.take(n + 1)), (n + 1) as nat)
        } else {
            Part::Failed("stream did not contain valid UTF-8"@)
        },
{
    lemma_line_len_is(input, n);
}

/// Without a newline there is no line yet; at the end of the input what is left is the
/// last line, and nothing is the end.
pub proof fn lemma_last_line_means(input: Seq<u8>)
    requires
        forall|i: int| 0 <= i < input.len() ==> input[i] != '\n' as u8,
    ensures
        server::line(input, false) is Incomplete,
        input.len() == 0 ==> server::line(input, true) is End,
        input.len() > 0 ==> server::line(input, true) == if valid_utf8(input) {
            Part::Done(decode_utf8(input), input.len())
        } else {
            Part::Failed("stream did not contain valid UTF-8"@)
        },
{
    lemma_line_len_is(input, input.len() as int);
    assert(input.take(input.len() as int) =~= input);
}

/// A line that starts with `*` announces as many bulk strings as its number says, at
/// most a mebi of them; any other line is a request by itself, made of its words.
pub proof fn lemma_request_means(
    input: Seq<u8>,
    at_end: bool,
    first_line: Seq<char>,
    used: nat,
    content: Seq<char>,
)
    requires
        server::line(input, at_end) == Part::Done(first_line, used),
        content == text::trimmed_end(first_line),
    ensures
        content.len() == 0 || content[0] != '*' ==> server::request(input, at_end) == Part::Done(
            text::words(content),
            used,
        ),
        content.len() > 0 && content[0] == '*' ==> match text::parse_unsigned(
            content.skip(1),
            usize::MAX as int,
        ) {
            None => server::request(input, at_end) == Part::<Seq<Seq<char>>>::Failed(
                "protocol error: "@ + "invalid multibulk length"@,
            ),
            Some(count) => if count > 1024 * 1024 {
                server::request(input, at_end) == Part::<Seq<Seq<char>>>::Failed(
                    "protocol error: "@ + "multibulk length out of range"@,
                )
            } else {
                &&& server::request(input, at_end) matches Part::Done(tokens, taken)
                    ==> tokens.len() == count && taken >= used
                &&& count == 0 ==> server::request(input, at_end) == Part::Done(
                    Seq::<Seq<char>>::empty(),
                    used,
                )
            },
        },
{
    if content.len() > 0 && content[0] == '*' {
        text::lemma_parse_unsigned_range(content.skip(1), usize::MAX as int);
        match text::parse_unsigned(content.skip(1), usize::MAX as int) {
            Some(count) => {
                let rest = input.skip(used as int);
                lemma_bulks_within_limits(rest, count as nat, at_end);
                if server::bulks(rest, count as nat, at_end) is Done {
                    let tokens = server::bulks(rest, count as nat, at_end)->Done_0;
                    assert(Seq::<Seq<char>>::empty() + tokens =~= tokens);
                }
                assert(Seq::<Seq<char>>::empty() + Seq::<Seq<char>>::empty() =~= Seq::<
                    Seq<char>,
                >::empty());
            },
            None => {},
        }
    }
}

/// A bulk string is a line with `$` and a length of at most 512 mebibytes, that many
/// bytes of text, and a line end.
pub proof fn lemma_bulk_means(
    input: Seq<u8>,
    at_end: bool,
    header_line: Seq<char>,
    used: nat,
    content: Seq<char>,
)
    requires
        server::line(input, at_end) == Part::Done(header_line, used),
        content == text::trimmed_end(header_line),
    ensures
        content.len() == 0 || content[0] != '$' ==> server::bulk(input, at_end) == Part::<
            Seq<char>,
        >::Failed("protocol error: "@ + "expected a bulk string"@),
        content.len() > 0 && content[0] == '$' ==> match text::parse_unsigned(
            content.skip(1),
            usize::MAX as int,
        ) {
            None => server::bulk(input, at_end) == Part::<Seq<char>>::Failed(
                "protocol error: "@ + "invalid bulk length"@,
            ),
            Some(length) => if length > 512 * 1024 * 1024 {
                server::bulk(input, at_end) == Part::<Seq<char>>::Failed(
                    "protocol error: "@ + "bulk length out of range"@,
                )
            } else if input.len() < used + length + 2 {
                server::bulk(input, at_end) == if at_end {
                    Part::<Seq<char>>::Truncated
                } else {
                    Part::<Seq<char>>::Incomplete
                }
            } else if input[used + length] != '\r' as u8 || input[used + length + 1] != '\n' as u8 {
                server::bulk(input, at_end) == Part::<Seq<char>>::Failed(
                    "protocol error: "@ + "expected CRLF after bulk data"@,
                )
            } else if valid_utf8(input.subrange(used as int, used + length)) {
                server::bulk(input, at_end) == Part::Done(
                    decode_utf8(input.subrange(used as int, used + length)),
                    (used + length + 2) as nat,
                )
            } else {
                server::bulk(input, at_end) == Part::<Seq<char>>::Failed(
                    "protocol error: "@ + "invalid UTF-8 in bulk string"@,
                )
            },
        },
{
}

} // verus!
