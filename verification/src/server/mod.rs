//! Request framing: how the bytes of a connection, or of the append-only file,
//! divide into tokenized requests.
//!
//! Two framings are supported, chosen per line by the first byte:
//!   * **inline** — a whitespace-separated command line (telnet-friendly);
//!   * **RESP arrays** — `*N` multi-bulk requests as sent by `redis-cli`, which
//!     allow arguments that contain spaces.
use vstd::prelude::*;
use vstd::slice::*;
use vstd::utf8::*;

use crate::resp;
use crate::text;
use crate::text::string_from_utf8;

pub mod laws;

verus! {

broadcast use text::lemma_texts_push;

/// Largest number of arguments accepted in a single RESP array request.
pub const MAX_MULTIBULK: usize = 1_048_576;

/// Largest byte length accepted for a single RESP bulk-string argument.
pub const MAX_BULK_BYTES: usize = 536_870_912;

/// The byte that ends a line.
pub const NEWLINE: u8 = 0x0A;

/// The byte that comes before the newline in a line end.
pub const CARRIAGE_RETURN: u8 = 0x0D;

/// What a part of the input comes to.
pub enum Part<T> {
    /// The part, and how many bytes it takes up.
    Done(T, nat),
    /// More bytes are needed to tell.
    Incomplete,
    /// The input has ended.
    End,
    /// The input has ended in the middle of a bulk string.
    Truncated,
    /// The input breaks the framing.
    Failed(Seq<char>),
}

/// The text of a framing violation.
pub open spec fn violation(message: Seq<char>) -> Seq<char> {
    "protocol error: "@ + message
}

/// The position of the first newline, or the length of the input.
pub open spec fn line_len(input: Seq<u8>) -> nat
    decreases input.len(),
{
    if input.len() == 0 {
        0
    } else if input[0] == NEWLINE {
        0
    } else {
        1 + line_len(input.skip(1))
    }
}

/// The first line of the input, with its newline. The last line may lack one.
pub open spec fn line(input: Seq<u8>, at_end: bool) -> Part<Seq<char>> {
    let len = line_len(input);
    let used = if len < input.len() {
        len + 1
    } else {
        len
    };
    if len == input.len() && !at_end {
        Part::Incomplete
    } else if input.len() == 0 {
        Part::End
    } else if valid_utf8(input.take(used as int)) {
        Part::Done(decode_utf8(input.take(used as int)), used)
    } else {
        Part::Failed("stream did not contain valid UTF-8"@)
    }
}

/// The `length` bytes of a bulk string whose header takes up `used` bytes, and
/// the line end that must follow them.
pub open spec fn bulk_body(input: Seq<u8>, used: nat, length: int, at_end: bool) -> Part<
    Seq<char>,
> {
    if input.len() < used + length + 2 {
        if at_end {
            Part::Truncated
        } else {
            Part::Incomplete
        }
    } else if input[used + length] != CARRIAGE_RETURN || input[used + length + 1] != NEWLINE {
        Part::Failed(violation("expected CRLF after bulk data"@))
    } else if valid_utf8(input.subrange(used as int, used + length)) {
        Part::Done(
            decode_utf8(input.subrange(used as int, used + length)),
            (used + length + 2) as nat,
        )
    } else {
        Part::Failed(violation("invalid UTF-8 in bulk string"@))
    }
}

/// A single `$<len>\r\n<bytes>\r\n` bulk string.
pub open spec fn bulk(input: Seq<u8>, at_end: bool) -> Part<Seq<char>> {
    match line(input, at_end) {
        Part::Incomplete => Part::Incomplete,
        Part::End => Part::Failed(violation("unexpected end of input"@)),
        Part::Truncated => Part::Truncated,
        Part::Failed(message) => Part::Failed(message),
        Part::Done(header_line, used) => {
            let header = text::trimmed_end(header_line);
            if header.len() == 0 || header[0] != '$' {
                Part::Failed(violation("expected a bulk string"@))
            } else {
                match text::parse_unsigned(header.skip(1), usize::MAX as int) {
                    None => Part::Failed(violation("invalid bulk length"@)),
                    Some(length) => if length > MAX_BULK_BYTES {
                        Part::Failed(violation("bulk length out of range"@))
                    } else {
                        bulk_body(input, used, length, at_end)
                    },
                }
            }
        },
    }
}

/// `count` bulk strings, one after another.
pub open spec fn bulks(input: Seq<u8>, count: nat, at_end: bool) -> Part<Seq<Seq<char>>>
    decreases count,
{
    if count == 0 {
        Part::Done(Seq::empty(), 0)
    } else {
        match bulk(input, at_end) {
            Part::Incomplete => Part::Incomplete,
            Part::End => Part::End,
            Part::Truncated => Part::Truncated,
            Part::Failed(message) => Part::Failed(message),
            Part::Done(token, used) => following(
                seq![token],
                used,
                bulks(input.skip(used as int), (count - 1) as nat, at_end),
            ),
        }
    }
}

/// `tokens`, which take up `used` bytes, and what follows them.
pub open spec fn following(
    tokens: Seq<Seq<char>>,
    used: nat,
    rest: Part<Seq<Seq<char>>>,
) -> Part<Seq<Seq<char>>> {
    match rest {
        Part::Done(more, also_used) => Part::Done(tokens + more, used + also_used),
        Part::Incomplete => Part::Incomplete,
        Part::End => Part::End,
        Part::Truncated => Part::Truncated,
        Part::Failed(message) => Part::Failed(message),
    }
}

/// The first request of the input. Blank lines are requests without tokens.
pub open spec fn request(input: Seq<u8>, at_end: bool) -> Part<Seq<Seq<char>>> {
    match line(input, at_end) {
        Part::Incomplete => Part::Incomplete,
        Part::End => Part::End,
        Part::Truncated => Part::Truncated,
        Part::Failed(message) => Part::Failed(message),
        Part::Done(first_line, used) => {
            let content = text::trimmed_end(first_line);
            if content.len() > 0 && content[0] == '*' {
                match text::parse_unsigned(content.skip(1), usize::MAX as int) {
                    None => Part::Failed(violation("invalid multibulk length"@)),
                    Some(count) => if count > MAX_MULTIBULK {
                        Part::Failed(violation("multibulk length out of range"@))
                    } else {
                        following(
                            Seq::empty(),
                            used,
                            bulks(input.skip(used as int), count as nat, at_end),
                        )
                    },
                }
            } else {
                Part::Done(text::words(content), used)
            }
        },
    }
}

/// The outcome of reading one request.
pub enum Request {
    /// The tokens of a request, and how many bytes it takes up.
    Tokens(Vec<String>, usize),
    /// More bytes are needed.
    Incomplete,
    /// A clean end of the stream.
    End,
    /// The stream has ended in the middle of a bulk string.
    Truncated,
    /// A framing violation, which closes the connection; malformed *commands*
    /// (as opposed to malformed framing) are handled later and merely produce an
    /// error reply.
    Failed(String),
}

/// What a read request holds.
pub open spec fn request_view(r: Request) -> Part<Seq<Seq<char>>> {
    match r {
        Request::Tokens(tokens, used) => Part::Done(text::texts(tokens@), used as nat),
        Request::Incomplete => Part::Incomplete,
        Request::End => Part::End,
        Request::Truncated => Part::Truncated,
        Request::Failed(message) => Part::Failed(message@),
    }
}

/// The outcome of reading a line or a bulk string.
pub enum Piece {
    Text(String, usize),
    Incomplete,
    End,
    Truncated,
    Failed(String),
}

/// What a piece holds.
pub open spec fn piece_view(r: Piece) -> Part<Seq<char>> {
    match r {
        Piece::Text(content, used) => Part::Done(content@, used as nat),
        Piece::Incomplete => Part::Incomplete,
        Piece::End => Part::End,
        Piece::Truncated => Part::Truncated,
        Piece::Failed(message) => Part::Failed(message@),
    }
}

pub fn protocol_error(message: &str) -> (r: String)
    ensures
        r@ == violation(message@),
{
    let mut r = "protocol error: ".to_owned();
    r.append(message);
    r
}

/// Reads one line, with its newline.
pub fn read_line(input: &[u8], at_end: bool) -> (r: Piece)
    ensures
        piece_view(r) == line(input@, at_end),
        match r {
            Piece::Text(_, used) => 0 < used <= input@.len(),
            _ => true,
        },
{
    let mut len: usize = 0;
    assert(input@.skip(0) =~= input@);
    while len < input.len() && input[len] != NEWLINE
        invariant
            len <= input@.len(),
            line_len(input@) == len + line_len(input@.skip(len as int)),
        decreases input@.len() - len,
    {
        assert(input@.skip(len as int)[0] == input@[len as int]);
        assert(input@.skip(len as int).skip(1) =~= input@.skip(len + 1));
        len = len + 1;
    }
    if len < input.len() {
        assert(input@.skip(len as int)[0] == input@[len as int]);
    }
    if len == input.len() && !at_end {
        return Piece::Incomplete;
    }
    if input.len() == 0 {
        return Piece::End;
    }
    let used: usize = if len < input.len() {
        len + 1
    } else {
        len
    };
    let bytes = slice_to_vec(slice_subrange(input, 0, used));
    assert(bytes@ =~= input@.take(used as int));
    match string_from_utf8(bytes) {
        Some(content) => Piece::Text(content, used),
        None => Piece::Failed("stream did not contain valid UTF-8".to_owned()),
    }
}

/// Whether `s` starts with `c`, which is then left out.
fn strip_prefix(s: &str, c: char) -> (r: Option<String>)
    ensures
        match r {
            Some(rest) => s@.len() > 0 && s@[0] == c && rest@ == s@.skip(1),
            None => s@.len() == 0 || s@[0] != c,
        },
{
    let length: usize = s.unicode_len();
    if length > 0 && s.get_char(0) == c {
        let rest = text::substring(s, 1, length);
        assert(rest@ =~= s@.skip(1));
        Some(rest)
    } else {
        None
    }
}

/// Reads a single `$<len>\r\n<bytes>\r\n` bulk string.
pub fn read_bulk_string(input: &[u8], at_end: bool) -> (r: Piece)
    ensures
        piece_view(r) == bulk(input@, at_end),
        match r {
            Piece::Text(_, used) => used <= input@.len(),
            Piece::End => false,
            _ => true,
        },
{
    let (header_line, used) = match read_line(input, at_end) {
        Piece::Text(content, used) => (content, used),
        Piece::Incomplete => {
            return Piece::Incomplete;
        },
        Piece::End => {
            return Piece::Failed(protocol_error("unexpected end of input"));
        },
        Piece::Truncated => {
            return Piece::Truncated;
        },
        Piece::Failed(message) => {
            return Piece::Failed(message);
        },
    };
    let header = text::trim_end(header_line.as_str());
    let digits = match strip_prefix(header.as_str(), '$') {
        Some(digits) => digits,
        None => {
            return Piece::Failed(protocol_error("expected a bulk string"));
        },
    };
    let length: u64 = match text::text_to_unsigned(digits.as_str(), usize::MAX as u64) {
        Some(length) => length,
        None => {
            return Piece::Failed(protocol_error("invalid bulk length"));
        },
    };
    if length > MAX_BULK_BYTES as u64 {
        return Piece::Failed(protocol_error("bulk length out of range"));
    }
    // `length` data bytes followed by a trailing CRLF.
    let length: usize = length as usize;
    if input.len() - used < length + 2 {
        return if at_end {
            Piece::Truncated
        } else {
            Piece::Incomplete
        };
    }
    let end: usize = used + length;
    if input[end] != CARRIAGE_RETURN || input[end + 1] != NEWLINE {
        return Piece::Failed(protocol_error("expected CRLF after bulk data"));
    }
    let bytes = slice_to_vec(slice_subrange(input, used, end));
    match string_from_utf8(bytes) {
        Some(content) => Piece::Text(content, end + 2),
        None => Piece::Failed(protocol_error("invalid UTF-8 in bulk string")),
    }
}

/// Reads the `count` bulk-string arguments of a RESP array whose `*<count>`
/// header line takes up the first `start` bytes.
pub fn read_multibulk(input: &[u8], start: usize, count: usize, at_end: bool) -> (r: Request)
    requires
        start <= input@.len(),
    ensures
        request_view(r) == following(
            Seq::empty(),
            start as nat,
            bulks(input@.skip(start as int), count as nat, at_end),
        ),
        match r {
            Request::Tokens(_, used) => start <= used <= input@.len(),
            _ => true,
        },
{
    let ghost wanted = following(
        Seq::empty(),
        start as nat,
        bulks(input@.skip(start as int), count as nat, at_end),
    );
    let mut tokens: Vec<String> = Vec::new();
    let mut at: usize = start;
    let mut i: usize = 0;
    proof {
        assert(text::texts(tokens@) =~= Seq::<Seq<char>>::empty());
    }
    while i < count
        invariant
            i <= count,
            start <= at <= input@.len(),
            wanted == following(
                Seq::empty(),
                start as nat,
                bulks(input@.skip(start as int), count as nat, at_end),
            ),
            wanted == following(
                text::texts(tokens@),
                at as nat,
                bulks(input@.skip(at as int), (count - i) as nat, at_end),
            ),
        decreases count - i,
    {
        let ghost read = text::texts(tokens@);
        let ghost rest = input@.skip(at as int);
        let remaining = slice_subrange(input, at, input.len());
        assert(remaining@ =~= rest);
        match read_bulk_string(remaining, at_end) {
            Piece::Text(token, used) => {
                proof {
                    assert(rest.skip(used as int) =~= input@.skip(at + used));
                    let more = bulks(rest.skip(used as int), (count - i - 1) as nat, at_end);
                    lemma_following_chain(read, at as nat, token@, used as nat, more);
                }
                tokens.push(token);
                at = at + used;
            },
            Piece::Incomplete => {
                return Request::Incomplete;
            },
            Piece::End => {
                return Request::End;
            },
            Piece::Truncated => {
                return Request::Truncated;
            },
            Piece::Failed(message) => {
                return Request::Failed(message);
            },
        }
        i = i + 1;
    }
    assert(text::texts(tokens@) + Seq::<Seq<char>>::empty() =~= text::texts(tokens@));
    Request::Tokens(tokens, at)
}

proof fn lemma_following_chain(
    read: Seq<Seq<char>>,
    at: nat,
    token: Seq<char>,
    used: nat,
    more: Part<Seq<Seq<char>>>,
)
    ensures
        following(read, at, following(seq![token], used, more)) == following(
            read.push(token),
            at + used,
            more,
        ),
{
    if more is Done {
        assert(read + (seq![token] + more->Done_0) =~= read.push(token) + more->Done_0);
    }
}

/// Reads one request as a list of tokens, choosing the framing from the first
/// byte. `at_end` says that nothing follows the input.
pub fn read_request(input: &[u8], at_end: bool) -> (r: Request)
    ensures
        request_view(r) == request(input@, at_end),
        match r {
            Request::Tokens(_, used) => 0 < used <= input@.len(),
            _ => true,
        },
{
    let (first_line, used) = match read_line(input, at_end) {
        Piece::Text(content, used) => (content, used),
        Piece::Incomplete => {
            return Request::Incomplete;
        },
        Piece::End => {
            return Request::End;
        },
        Piece::Truncated => {
            return Request::Truncated;
        },
        Piece::Failed(message) => {
            return Request::Failed(message);
        },
    };
    let content = text::trim_end(first_line.as_str());
    match strip_prefix(content.as_str(), '*') {
        Some(digits) => {
            let count: u64 = match text::text_to_unsigned(digits.as_str(), usize::MAX as u64) {
                Some(count) => count,
                None => {
                    return Request::Failed(protocol_error("invalid multibulk length"));
                },
            };
            if count > MAX_MULTIBULK as u64 {
                return Request::Failed(protocol_error("multibulk length out of range"));
            }
            read_multibulk(input, used, count as usize, at_end)
        },
        None => Request::Tokens(text::split_whitespace(content.as_str()), used),
    }
}

/// The requests of a log, one after another, up to its end or to the first
/// entry that breaks the framing.
pub open spec fn log_requests(input: Seq<u8>) -> Seq<Seq<Seq<char>>>
    decreases input.len(),
{
    match request(input, true) {
        Part::Done(tokens, used) => if 0 < used <= input.len() {
            seq![tokens] + log_requests(input.skip(used as int))
        } else {
            Seq::empty()
        },
        _ => Seq::empty(),
    }
}

/// What is wrong with the entry of a log at which reading stops short.
pub open spec fn log_problem(input: Seq<u8>) -> Option<Seq<char>>
    decreases input.len(),
{
    match request(input, true) {
        Part::Done(_, used) => if 0 < used <= input.len() {
            log_problem(input.skip(used as int))
        } else {
            None
        },
        Part::Truncated => Some("early eof"@),
        Part::Failed(message) => Some(message),
        _ => None,
    }
}

/// The characters of each token of each request.
pub open spec fn requests_view(requests: Seq<Vec<String>>) -> Seq<Seq<Seq<char>>> {
    Seq::new(requests.len(), |i: int| text::texts(requests[i]@))
}

/// The requests of a log, and what was wrong with the entry at which reading
/// stopped short. A malformed trailing entry (a write interrupted by a crash) is
/// tolerated, as Redis does, by stopping there.
pub fn read_log(input: &[u8]) -> (r: (Vec<Vec<String>>, Option<String>))
    ensures
        requests_view(r.0@) == log_requests(input@),
        resp::optional_text(r.1) == log_problem(input@),
{
    let mut requests: Vec<Vec<String>> = Vec::new();
    let mut at: usize = 0;
    proof {
        assert(input@.skip(0) =~= input@);
        assert(requests_view(requests@) + log_requests(input@) =~= log_requests(input@));
    }
    loop
        invariant
            at <= input@.len(),
            log_requests(input@) == requests_view(requests@) + log_requests(
                input@.skip(at as int),
            ),
            log_problem(input@) == log_problem(input@.skip(at as int)),
        decreases input@.len() - at,
    {
        let ghost before = requests_view(requests@);
        let ghost rest = input@.skip(at as int);
        let remaining = slice_subrange(input, at, input.len());
        assert(remaining@ =~= rest);
        match read_request(remaining, true) {
            Request::Tokens(tokens, used) => {
                proof {
                    let more = log_requests(rest.skip(used as int));
                    assert(rest.skip(used as int) =~= input@.skip(at + used));
                    assert(before + (seq![text::texts(tokens@)] + more) =~= before.push(
                        text::texts(tokens@),
                    ) + more);
                }
                requests.push(tokens);
                assert(requests_view(requests@) =~= before.push(text::texts(tokens@)));
                at = at + used;
            },
            Request::Truncated => {
                assert(before + log_requests(rest) =~= before);
                return (requests, Some("early eof".to_owned()));
            },
            Request::Failed(message) => {
                assert(before + log_requests(rest) =~= before);
                return (requests, Some(message));
            },
            _ => {
                assert(before + log_requests(rest) =~= before);
                return (requests, None);
            },
        }
    }
}

} // verus!
