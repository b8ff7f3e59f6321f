//! Builders for [RESP](https://redis.io/docs/latest/develop/reference/protocol-spec/)
//! (REdis Serialization Protocol) replies.
//!
//! Every reply is built by one small function, so the wire format lives in
//! exactly one place. The `*_frame` functions say what each reply is, character
//! by character.
use vstd::prelude::*;
use vstd::utf8::*;

use crate::text;

verus! {

/// The line terminator.
pub open spec fn crlf() -> Seq<char> {
    seq!['\r', '\n']
}

/// `+<value>\r\n`.
pub open spec fn simple_frame(value: Seq<char>) -> Seq<char> {
    seq!['+'] + value + crlf()
}

/// `message` with each carriage return and line feed replaced by a space.
pub open spec fn one_line(message: Seq<char>) -> Seq<char> {
    Seq::new(
        message.len(),
        |i: int|
            if message[i] == '\r' || message[i] == '\n' {
                ' '
            } else {
                message[i]
            },
    )
}

/// `-<message>\r\n`, with the message on one line.
pub open spec fn error_frame(message: Seq<char>) -> Seq<char> {
    seq!['-'] + one_line(message) + crlf()
}

/// `:<value>\r\n`.
pub open spec fn integer_frame(value: int) -> Seq<char> {
    seq![':'] + text::decimal(value) + crlf()
}

/// `$<len>\r\n<value>\r\n`, where `len` counts bytes.
pub open spec fn bulk_frame(value: Seq<char>) -> Seq<char> {
    seq!['$'] + text::decimal(encode_utf8(value).len() as int) + crlf() + value + crlf()
}

/// `$-1\r\n`.
pub open spec fn null_frame() -> Seq<char> {
    seq!['$', '-', '1', '\r', '\n']
}

/// `*<len>\r\n`, the line that opens an array.
pub open spec fn array_header(len: nat) -> Seq<char> {
    seq!['*'] + text::decimal(len as int) + crlf()
}

/// The bulk strings of `items`, one after another.
pub open spec fn bulk_frames(items: Seq<Seq<char>>) -> Seq<char>
    decreases items.len(),
{
    if items.len() == 0 {
        Seq::empty()
    } else {
        bulk_frames(items.drop_last()) + bulk_frame(items.last())
    }
}

/// An array of bulk strings.
pub open spec fn array_frame(items: Seq<Seq<char>>) -> Seq<char> {
    array_header(items.len()) + bulk_frames(items)
}

/// A bulk string, or the null bulk string where there is no value.
pub open spec fn optional_frame(item: Option<Seq<char>>) -> Seq<char> {
    match item {
        Some(value) => bulk_frame(value),
        None => null_frame(),
    }
}

pub open spec fn optional_frames(items: Seq<Option<Seq<char>>>) -> Seq<char>
    decreases items.len(),
{
    if items.len() == 0 {
        Seq::empty()
    } else {
        optional_frames(items.drop_last()) + optional_frame(items.last())
    }
}

/// An array of bulk strings in which a missing value is a null bulk string.
pub open spec fn nullable_frame(items: Seq<Option<Seq<char>>>) -> Seq<char> {
    array_header(items.len()) + optional_frames(items)
}

/// The characters of an optional string.
pub open spec fn optional_text(item: Option<String>) -> Option<Seq<char>> {
    match item {
        Some(value) => Some(value@),
        None => None,
    }
}

/// The characters of each optional string of a sequence.
pub open spec fn optional_texts(items: Seq<Option<String>>) -> Seq<Option<Seq<char>>> {
    Seq::new(items.len(), |i: int| optional_text(items[i]))
}

fn push_crlf(out: &mut String)
    ensures
        final(out)@ == old(out)@ + crlf(),
{
    out.push('\r');
    out.push('\n');
    assert(out@ =~= old(out)@ + crlf());
}

/// A `+<value>\r\n` simple string, e.g. `+OK\r\n`.
pub fn simple_string(value: &str) -> (r: String)
    ensures
        r@ == simple_frame(value@),
{
    let mut out = String::new();
    out.push('+');
    out.append(value);
    push_crlf(&mut out);
    assert(out@ =~= simple_frame(value@));
    out
}

/// A `-<message>\r\n` error. The message is expected to already carry its
/// error code, e.g. `"ERR unknown command"` or `"WRONGTYPE ..."`.
///
/// Error text is line-framed (no length prefix), and some messages embed a
/// client-supplied token (an unknown command name, an unparsable number). A
/// raw `\r` or `\n` in that token would forge a reply boundary and desynchronise
/// a pipelining client, so any is replaced with a space before framing.
pub fn error(message: &str) -> (r: String)
    ensures
        r@ == error_frame(message@),
{
    let mut out = String::new();
    out.push('-');
    assert(one_line(message@.take(0)) =~= Seq::<char>::empty());
    for c in it: message.chars()
        invariant
            it.seq() == message@,
            out@ == seq!['-'] + one_line(message@.take(it.index())),
    {
        let ghost next = one_line(message@.take(it.index() + 1));
        if c == '\r' || c == '\n' {
            out.push(' ');
        } else {
            out.push(c);
        }
        assert(out@ =~= seq!['-'] + next);
    }
    assert(message@.take(message@.len() as int) =~= message@);
    push_crlf(&mut out);
    out
}

/// A `:<value>\r\n` integer reply.
pub fn integer(value: i64) -> (r: String)
    ensures
        r@ == integer_frame(value as int),
{
    let mut out = String::new();
    out.push(':');
    out.append(text::i64_to_text(value).as_str());
    push_crlf(&mut out);
    assert(out@ =~= integer_frame(value as int));
    out
}

/// A `$<len>\r\n<value>\r\n` bulk string. `len` is the byte length, as RESP
/// requires.
pub fn bulk_string(value: &str) -> (r: String)
    ensures
        r@ == bulk_frame(value@),
{
    let mut out = String::new();
    out.push('$');
    let length: usize = value.as_bytes().len();
    out.append(text::u64_to_text(length as u64).as_str());
    push_crlf(&mut out);
    out.append(value);
    push_crlf(&mut out);
    assert(out@ =~= bulk_frame(value@));
    out
}

/// The `$-1\r\n` null bulk string, used to signal "no value".
pub fn null() -> (r: String)
    ensures
        r@ == null_frame(),
{
    proof {
        reveal_strlit("$-1\r\n");
    }
    let r = "$-1\r\n".to_owned();
    assert(r@ =~= null_frame());
    r
}

fn push_array_header(out: &mut String, len: usize)
    ensures
        final(out)@ == old(out)@ + array_header(len as nat),
{
    out.push('*');
    out.append(text::u64_to_text(len as u64).as_str());
    push_crlf(out);
    assert(out@ =~= old(out)@ + array_header(len as nat));
}

/// The line that opens an array of `len` elements.
pub fn array_prefix(len: usize) -> (r: String)
    ensures
        r@ == array_header(len as nat),
{
    let mut out = String::new();
    push_array_header(&mut out, len);
    assert(out@ =~= array_header(len as nat));
    out
}

/// A `*<len>\r\n...` array whose elements are each encoded as bulk strings.
pub fn array(items: &[String]) -> (r: String)
    ensures
        r@ == array_frame(text::texts(items@)),
{
    let mut out = String::new();
    push_array_header(&mut out, items.len());
    let ghost all = text::texts(items@);
    let mut i: usize = 0;
    assert(out@ =~= array_header(all.len()) + bulk_frames(all.take(0)));
    while i < items.len()
        invariant
            i <= items@.len(),
            all == text::texts(items@),
            out@ == array_header(all.len()) + bulk_frames(all.take(i as int)),
        decreases items@.len() - i,
    {
        assert(all.take(i + 1).drop_last() =~= all.take(i as int));
        assert(all.take(i + 1).last() == items@[i as int]@);
        out.append(bulk_string(items[i].as_str()).as_str());
        assert(out@ =~= array_header(all.len()) + bulk_frames(all.take(i + 1)));
        i = i + 1;
    }
    assert(all.take(i as int) =~= all);
    out
}

/// An array of optional bulk strings, encoding each `None` as a null bulk
/// string. This is the shape `MGET` returns: one reply element per requested
/// key, with missing keys represented as nil rather than skipped.
pub fn nullable_array(items: &[Option<String>]) -> (r: String)
    ensures
        r@ == nullable_frame(optional_texts(items@)),
{
    let mut out = String::new();
    push_array_header(&mut out, items.len());
    let ghost all = optional_texts(items@);
    let mut i: usize = 0;
    assert(out@ =~= array_header(all.len()) + optional_frames(all.take(0)));
    while i < items.len()
        invariant
            i <= items@.len(),
            all == optional_texts(items@),
            out@ == array_header(all.len()) + optional_frames(all.take(i as int)),
        decreases items@.len() - i,
    {
        assert(all.take(i + 1).drop_last() =~= all.take(i as int));
        assert(all.take(i + 1).last() == optional_text(items@[i as int]));
        match &items[i] {
            Some(value) => out.append(bulk_string(value.as_str()).as_str()),
            None => out.append(null().as_str()),
        }
        assert(out@ =~= array_header(all.len()) + optional_frames(all.take(i + 1)));
        i = i + 1;
    }
    assert(all.take(i as int) =~= all);
    out
}

/// An error reply is a single line: nothing in the message can end it early.
pub proof fn lemma_error_is_one_line(message: Seq<char>)
    ensures
        error_frame(message).len() == message.len() + 3,
        error_frame(message)[0] == '-',
        forall|i: int|
            0 <= i < message.len() + 1 ==> (#[trigger] error_frame(message)[i]) != '\r'
                && error_frame(message)[i] != '\n',
        error_frame(message).skip(message.len() as int + 1) == crlf(),
{
    assert(error_frame(message).skip(message.len() as int + 1) =~= crlf());
}

/// A message that is already on one line is sent as it is.
pub proof fn lemma_error_keeps_clean_messages(message: Seq<char>)
    requires
        !message.contains('\r'),
        !message.contains('\n'),
    ensures
        error_frame(message) == seq!['-'] + message + crlf(),
{
    assert forall|i: int| 0 <= i < message.len() implies one_line(message)[i] == message[i] by {
        assert(message.contains(message[i]));
    }
    assert(one_line(message) =~= message);
}

/// Only an error reply starts with `-`.
pub proof fn lemma_only_errors_start_with_dash(
    value: Seq<char>,
    number: int,
    items: Seq<Seq<char>>,
    slots: Seq<Option<Seq<char>>>,
)
    ensures
        error_frame(value)[0] == '-',
        simple_frame(value)[0] == '+',
        integer_frame(number)[0] == ':',
        bulk_frame(value)[0] == '$',
        null_frame()[0] == '$',
        array_frame(items)[0] == '*',
        nullable_frame(slots)[0] == '*',
{
}

/// A reply of one line is its sign, its content and a line end.
pub proof fn lemma_lines_mean(value: Seq<char>, number: int)
    ensures
        simple_frame(value) == seq!['+'] + value + seq!['\r', '\n'],
        integer_frame(number) == seq![':'] + text::decimal(number) + seq!['\r', '\n'],
        error_frame(value).len() == value.len() + 3,
        error_frame(value)[0] == '-',
        forall|i: int|
            0 <= i < value.len() ==> #[trigger] error_frame(value)[i + 1] == if value[i] == '\r'
                || value[i] == '\n' {
                ' '
            } else {
                value[i]
            },
        error_frame(value)[value.len() as int + 1] == '\r',
        error_frame(value)[value.len() as int + 2] == '\n',
        null_frame() == seq!['$', '-', '1', '\r', '\n'],
{
}

/// A bulk string is a `$`, its length in bytes, a line end, its content and a line end.
pub proof fn lemma_bulk_means(value: Seq<char>)
    ensures
        bulk_frame(value) == seq!['$'] + text::decimal(encode_utf8(value).len() as int) + seq![
            '\r',
            '\n',
        ] + value + seq!['\r', '\n'],
{
}

/// An array is a `*`, the number of its elements, a line end, and its elements one after
/// another; in an array with gaps a missing element is a null.
pub proof fn lemma_arrays_mean(
    items: Seq<Seq<char>>,
    slots: Seq<Option<Seq<char>>>,
    item: Seq<char>,
)
    ensures
        array_header(items.len()) == seq!['*'] + text::decimal(items.len() as int) + seq![
            '\r',
            '\n',
        ],
        array_frame(items) == array_header(items.len()) + bulk_frames(items),
        bulk_frames(Seq::empty()) == Seq::<char>::empty(),
        bulk_frames(items.push(item)) == bulk_frames(items) + bulk_frame(item),
        nullable_frame(slots) == array_header(slots.len()) + optional_frames(slots),
        optional_frames(Seq::empty()) == Seq::<char>::empty(),
        optional_frames(slots.push(Some(item))) == optional_frames(slots) + bulk_frame(item),
        optional_frames(slots.push(None)) == optional_frames(slots) + null_frame(),
{
    assert(items.push(item).drop_last() =~= items);
    assert(slots.push(Some(item)).drop_last() =~= slots);
    assert(slots.push(None).drop_last() =~= slots);
}

} // verus!
