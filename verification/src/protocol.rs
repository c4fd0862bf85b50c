//! The wire protocol: commands as frames of bulk strings, the streaming
//! decoder that takes them off a connection's input buffer, and the encoders
//! of the typed replies.

use crate::buffer::{buffer_advance, buffer_bytes, buffer_slice};
use crate::decimal::{
    digits_end, digits_value, int_digits, nat_digits, push_int_digits, push_nat_digits,
    scan_digits,
};
use bytes::BytesMut;
use vstd::prelude::*;
use vstd::slice::{slice_subrange, slice_to_vec};
use vstd::string::StringSliceAdditionalSpecFns;

verus! {

/// A command of the protocol. Keys and payloads are arbitrary bytes.
#[derive(Debug, Clone, PartialEq, Eq)]
pub enum Cmd {
    /// Connectivity probe.
    Ping,
    /// Read one key.
    Get(Vec<u8>),
    /// Write one key.
    SetKey(Vec<u8>, Vec<u8>),
    /// Remove one key.
    Del(Vec<u8>),
    /// Move the value of the first key to the second.
    Rename(Vec<u8>, Vec<u8>),
    /// Test one key.
    Exists(Vec<u8>),
    /// Add one to the number under a key.
    Incr(Vec<u8>),
    /// Read several keys.
    MGet(Vec<Vec<u8>>),
    /// Write several keys, pair by pair.
    MSet(Vec<(Vec<u8>, Vec<u8>)>),
}

/// A command as a mathematical value.
pub enum CmdView {
    Ping,
    Get(Seq<u8>),
    SetKey(Seq<u8>, Seq<u8>),
    Del(Seq<u8>),
    Rename(Seq<u8>, Seq<u8>),
    Exists(Seq<u8>),
    Incr(Seq<u8>),
    MGet(Seq<Seq<u8>>),
    MSet(Seq<(Seq<u8>, Seq<u8>)>),
}

/// The byte strings that a vector of byte vectors holds.
pub open spec fn byte_strings(v: Seq<Vec<u8>>) -> Seq<Seq<u8>> {
    v.map_values(|b: Vec<u8>| b@)
}

/// The pairs of byte strings that a vector of pairs holds.
pub open spec fn byte_pairs(v: Seq<(Vec<u8>, Vec<u8>)>) -> Seq<(Seq<u8>, Seq<u8>)> {
    v.map_values(|p: (Vec<u8>, Vec<u8>)| (p.0@, p.1@))
}

impl View for Cmd {
    type V = CmdView;

    open spec fn view(&self) -> CmdView {
        match self {
            Cmd::Ping => CmdView::Ping,
            Cmd::Get(k) => CmdView::Get(k@),
            Cmd::SetKey(k, v) => CmdView::SetKey(k@, v@),
            Cmd::Del(k) => CmdView::Del(k@),
            Cmd::Rename(a, b) => CmdView::Rename(a@, b@),
            Cmd::Exists(k) => CmdView::Exists(k@),
            Cmd::Incr(k) => CmdView::Incr(k@),
            Cmd::MGet(keys) => CmdView::MGet(byte_strings(keys@)),
            Cmd::MSet(pairs) => CmdView::MSet(byte_pairs(pairs@)),
        }
    }
}

/// The commands that a vector of commands holds.
pub open spec fn cmd_views(v: Seq<Cmd>) -> Seq<CmdView> {
    v.map_values(|c: Cmd| c@)
}

/// A stored value.
#[derive(Debug, Clone, PartialEq, Eq)]
pub enum Value {
    /// Text or binary data.
    Str(Vec<u8>),
    /// A 64-bit signed integer.
    Int(i64),
    /// A binary blob: read like `Str`, never counted on.
    Blob(Vec<u8>),
}

/// A stored value as a mathematical value.
pub enum ValueView {
    Str(Seq<u8>),
    Int(i64),
    Blob(Seq<u8>),
}

impl View for Value {
    type V = ValueView;

    open spec fn view(&self) -> ValueView {
        match self {
            Value::Str(b) => ValueView::Str(b@),
            Value::Int(i) => ValueView::Int(*i),
            Value::Blob(b) => ValueView::Blob(b@),
        }
    }
}

/// Why the bytes of a connection are no frame of the protocol.
#[derive(Debug, Clone, Copy, PartialEq, Eq, Structural)]
pub enum ProtocolError {
    /// The frame does not start with `'*'`.
    ExpectedArray,
    /// The element count of the frame is zero or negative.
    EmptyArray,
    /// An element does not start with `'$'`.
    ExpectedBulk,
    /// The length of an element is negative.
    NegativeLength,
    /// A decimal field or a payload is not followed by CR LF.
    ExpectedCrlf,
    /// A decimal field does not fit in 64 bits.
    NumberOverflow,
    /// The command name is not known, or the command does not have the
    /// number of arguments it takes.
    UnknownCommand,
}

impl ProtocolError {
    /// The message of the error.
    pub open spec fn spec_message(self) -> Seq<char> {
        match self {
            ProtocolError::ExpectedArray => "protocol error: expected array"@,
            ProtocolError::EmptyArray => "empty array"@,
            ProtocolError::ExpectedBulk => "expected bulk"@,
            ProtocolError::NegativeLength => "negative bulk length"@,
            ProtocolError::ExpectedCrlf => "expected CRLF"@,
            ProtocolError::NumberOverflow => "number out of range"@,
            ProtocolError::UnknownCommand => "unknown/invalid command"@,
        }
    }

    /// The message of the error, as it is sent to the client after `ERR`.
    pub fn message(&self) -> (text: &'static str)
        ensures
            text@ == self.spec_message(),
    {
        match self {
            ProtocolError::ExpectedArray => "protocol error: expected array",
            ProtocolError::EmptyArray => "empty array",
            ProtocolError::ExpectedBulk => "expected bulk",
            ProtocolError::NegativeLength => "negative bulk length",
            ProtocolError::ExpectedCrlf => "expected CRLF",
            ProtocolError::NumberOverflow => "number out of range",
            ProtocolError::UnknownCommand => "unknown/invalid command",
        }
    }
}

/// Carriage return, line feed: the end of every line of the protocol.
pub open spec fn crlf() -> Seq<u8> {
    seq!['\r' as u8, '\n' as u8]
}

/// A simple string reply: `'+'`, the text, CR LF.
pub open spec fn simple_reply(text: Seq<u8>) -> Seq<u8> {
    seq!['+' as u8] + text + crlf()
}

/// An error reply: `'-'`, the text, CR LF.
pub open spec fn error_reply(text: Seq<u8>) -> Seq<u8> {
    seq!['-' as u8] + text + crlf()
}

/// An integer reply: `':'`, the decimal text of the number, CR LF.
pub open spec fn integer_reply(i: int) -> Seq<u8> {
    seq![':' as u8] + int_digits(i) + crlf()
}

/// A bulk string: `'$'`, the length in decimal, CR LF, the payload, CR LF.
pub open spec fn bulk_reply(payload: Seq<u8>) -> Seq<u8> {
    seq!['$' as u8] + nat_digits(payload.len()) + crlf() + payload + crlf()
}

/// The null bulk string: `$-1`, CR LF.
pub open spec fn null_reply() -> Seq<u8> {
    seq!['$' as u8, '-' as u8, '1' as u8, '\r' as u8, '\n' as u8]
}

/// The header of an array of `count` elements: `'*'`, the count in decimal,
/// CR LF.
pub open spec fn array_header(count: nat) -> Seq<u8> {
    seq!['*' as u8] + nat_digits(count) + crlf()
}

/// The byte strings of `parts` one after the other.
pub open spec fn concat_all(parts: Seq<Seq<u8>>) -> Seq<u8>
    decreases parts.len(),
{
    if parts.len() == 0 {
        Seq::empty()
    } else {
        concat_all(parts.drop_last()) + parts.last()
    }
}

/// Appends CR LF to `out`.
fn write_crlf(out: &mut Vec<u8>)
    ensures
        final(out)@ == old(out)@ + crlf(),
{
    out.push('\r' as u8);
    out.push('\n' as u8);
    assert(final(out)@ =~= old(out)@ + crlf());
}

/// Appends the bytes of `data` to `out`.
pub fn write_bytes(data: &[u8], out: &mut Vec<u8>)
    ensures
        final(out)@ == old(out)@ + data@,
{
    out.extend_from_slice(data);
    assert(final(out)@ =~= old(out)@ + data@);
}

/// Appends a simple string reply with the text `text` to `out`.
pub fn write_simple_bytes(text: &[u8], out: &mut Vec<u8>)
    ensures
        final(out)@ == old(out)@ + simple_reply(text@),
{
    out.push('+' as u8);
    write_bytes(text, out);
    write_crlf(out);
    assert(final(out)@ =~= old(out)@ + simple_reply(text@));
}

/// Appends an error reply with the text `text` to `out`.
pub fn write_error_bytes(text: &[u8], out: &mut Vec<u8>)
    ensures
        final(out)@ == old(out)@ + error_reply(text@),
{
    out.push('-' as u8);
    write_bytes(text, out);
    write_crlf(out);
    assert(final(out)@ =~= old(out)@ + error_reply(text@));
}

/// Appends a simple string reply with the text `s` to `out`.
pub fn write_simple(s: &str, out: &mut Vec<u8>)
    ensures
        final(out)@ == old(out)@ + simple_reply(s.spec_bytes()),
{
    write_simple_bytes(s.as_bytes(), out);
}

/// Appends an error reply with the text `s` to `out`.
pub fn write_error(s: &str, out: &mut Vec<u8>)
    ensures
        final(out)@ == old(out)@ + error_reply(s.spec_bytes()),
{
    write_error_bytes(s.as_bytes(), out);
}

/// Appends a bulk string with the payload `b` to `out`.
pub fn write_bulk(b: &[u8], out: &mut Vec<u8>)
    ensures
        final(out)@ == old(out)@ + bulk_reply(b@),
{
    out.push('$' as u8);
    push_nat_digits(b.len() as u128, out);
    write_crlf(out);
    write_bytes(b, out);
    write_crlf(out);
    assert(final(out)@ =~= old(out)@ + bulk_reply(b@));
}

/// Appends the null bulk string to `out`.
pub fn write_null(out: &mut Vec<u8>)
    ensures
        final(out)@ == old(out)@ + null_reply(),
{
    out.push('$' as u8);
    out.push('-' as u8);
    out.push('1' as u8);
    out.push('\r' as u8);
    out.push('\n' as u8);
    assert(final(out)@ =~= old(out)@ + null_reply());
}

/// Appends an integer reply with the number `i` to `out`.
pub fn write_integer(i: i64, out: &mut Vec<u8>)
    ensures
        final(out)@ == old(out)@ + integer_reply(i as int),
{
    out.push(':' as u8);
    push_int_digits(i, out);
    write_crlf(out);
    assert(final(out)@ =~= old(out)@ + integer_reply(i as int));
}

/// Appends the header of an array of `count` elements to `out`.
pub fn write_array_len(count: usize, out: &mut Vec<u8>)
    ensures
        final(out)@ == old(out)@ + array_header(count as nat),
{
    out.push('*' as u8);
    push_nat_digits(count as u128, out);
    write_crlf(out);
    assert(final(out)@ =~= old(out)@ + array_header(count as nat));
}

/// A simple string reply with the text `s`.
pub fn resp_simple(s: &str) -> (reply: Vec<u8>)
    ensures
        reply@ == simple_reply(s.spec_bytes()),
{
    let mut reply: Vec<u8> = Vec::new();
    write_simple(s, &mut reply);
    assert(reply@ =~= simple_reply(s.spec_bytes()));
    reply
}

/// A bulk string with the payload `b`.
pub fn resp_bulk(b: &[u8]) -> (reply: Vec<u8>)
    ensures
        reply@ == bulk_reply(b@),
{
    let mut reply: Vec<u8> = Vec::new();
    write_bulk(b, &mut reply);
    assert(reply@ =~= bulk_reply(b@));
    reply
}

/// The null bulk string.
pub fn resp_null() -> (reply: Vec<u8>)
    ensures
        reply@ == null_reply(),
{
    let mut reply: Vec<u8> = Vec::new();
    write_null(&mut reply);
    assert(reply@ =~= null_reply());
    reply
}

/// An integer reply with the number `i`.
pub fn resp_integer(i: i64) -> (reply: Vec<u8>)
    ensures
        reply@ == integer_reply(i as int),
{
    let mut reply: Vec<u8> = Vec::new();
    write_integer(i, &mut reply);
    assert(reply@ =~= integer_reply(i as int));
    reply
}

/// An array reply: the header for as many elements as `items` holds, then
/// the items, each of them an encoded reply already.
pub fn resp_array(items: Vec<Vec<u8>>) -> (reply: Vec<u8>)
    ensures
        reply@ == array_header(items@.len()) + concat_all(byte_strings(items@)),
{
    let mut reply: Vec<u8> = Vec::new();
    write_array_len(items.len(), &mut reply);
    let ghost parts = byte_strings(items@);
    let mut i: usize = 0;
    assert(parts.take(0) =~= Seq::<Seq<u8>>::empty());
    while i < items.len()
        invariant
            i <= items@.len(),
            parts == byte_strings(items@),
            reply@ == array_header(items@.len()) + concat_all(parts.take(i as int)),
        decreases items@.len() - i,
    {
        write_bytes(items[i].as_slice(), &mut reply);
        proof {
            let next = parts.take(i + 1);
            assert(next.drop_last() =~= parts.take(i as int));
            assert(next.last() == items@[i as int]@);
            assert(reply@ =~= array_header(items@.len()) + concat_all(next));
        }
        i = i + 1;
    }
    assert(parts.take(i as int) =~= parts);
    reply
}

/// What the decoder makes of the bytes at hand.
pub enum Parsed<T> {
    /// A byte that is needed has not arrived yet.
    Incomplete,
    /// The bytes at hand are not of the protocol.
    Invalid(ProtocolError),
    /// The item is there in full: it ends before index `next`.
    Complete { next: int, value: T },
}

/// A decimal field and its CR LF, at the start of `s`: an optional `'-'`,
/// then digits (none of them stand for 0), then CR LF. The field is decided
/// once two bytes have arrived behind the digits.
pub open spec fn decimal_line(s: Seq<u8>) -> Parsed<int> {
    let negative = s.len() > 0 && s[0] == '-' as u8;
    let start: int = if negative {
        1
    } else {
        0
    };
    let end = digits_end(s, start);
    let magnitude = digits_value(s.subrange(start, end)) as int;
    let value = if negative {
        -magnitude
    } else {
        magnitude
    };
    if end + 1 >= s.len() {
        Parsed::Incomplete
    } else if s[end] != '\r' as u8 || s[end + 1] != '\n' as u8 {
        Parsed::Invalid(ProtocolError::ExpectedCrlf)
    } else if !(i64::MIN <= value <= i64::MAX) {
        Parsed::Invalid(ProtocolError::NumberOverflow)
    } else {
        Parsed::Complete { next: end + 2, value }
    }
}

/// The bulk element of `data` that starts at index `at`: `'$'`, a length of
/// zero or more, CR LF, as many payload bytes, CR LF.
pub open spec fn bulk_at(data: Seq<u8>, at: int) -> Parsed<Seq<u8>> {
    if at >= data.len() {
        Parsed::Incomplete
    } else if data[at] != '$' as u8 {
        Parsed::Invalid(ProtocolError::ExpectedBulk)
    } else {
        match decimal_line(data.skip(at + 1)) {
            Parsed::Incomplete => Parsed::Incomplete,
            Parsed::Invalid(e) => Parsed::Invalid(e),
            Parsed::Complete { next, value } => {
                let start = at + 1 + next;
                if value < 0 {
                    Parsed::Invalid(ProtocolError::NegativeLength)
                } else if start + value + 2 > data.len() {
                    Parsed::Incomplete
                } else if data[start + value] != '\r' as u8 || data[start + value + 1]
                    != '\n' as u8 {
                    Parsed::Invalid(ProtocolError::ExpectedCrlf)
                } else {
                    Parsed::Complete {
                        next: start + value + 2,
                        value: data.subrange(start, start + value),
                    }
                }
            },
        }
    }
}

/// The `count` bulk elements of `data` that start at index `at`, behind the
/// payloads `before` that were read already.
pub open spec fn items_at(data: Seq<u8>, at: int, count: nat, before: Seq<Seq<u8>>) -> Parsed<
    Seq<Seq<u8>>,
>
    decreases count,
{
    if count == 0 {
        Parsed::Complete { next: at, value: before }
    } else {
        match bulk_at(data, at) {
            Parsed::Incomplete => Parsed::Incomplete,
            Parsed::Invalid(e) => Parsed::Invalid(e),
            Parsed::Complete { next, value } => items_at(
                data,
                next,
                (count - 1) as nat,
                before.push(value),
            ),
        }
    }
}

/// The lower-case form of an ASCII letter; every other byte is itself.
pub open spec fn ascii_lower(b: u8) -> u8 {
    if 'A' as u8 <= b <= 'Z' as u8 {
        (b + 32) as u8
    } else {
        b
    }
}

/// Whether `name` is the word `word`, whatever the case of its letters.
pub open spec fn is_word(name: Seq<u8>, word: Seq<u8>) -> bool {
    &&& name.len() == word.len()
    &&& forall|i: int| 0 <= i < name.len() ==> ascii_lower(#[trigger] name[i]) == ascii_lower(word[i])
}

pub open spec fn word_ping() -> Seq<u8> {
    seq!['P' as u8, 'I' as u8, 'N' as u8, 'G' as u8]
}

pub open spec fn word_get() -> Seq<u8> {
    seq!['G' as u8, 'E' as u8, 'T' as u8]
}

pub open spec fn word_set() -> Seq<u8> {
    seq!['S' as u8, 'E' as u8, 'T' as u8]
}

pub open spec fn word_del() -> Seq<u8> {
    seq!['D' as u8, 'E' as u8, 'L' as u8]
}

pub open spec fn word_rename() -> Seq<u8> {
    seq!['R' as u8, 'E' as u8, 'N' as u8, 'A' as u8, 'M' as u8, 'E' as u8]
}

pub open spec fn word_exists() -> Seq<u8> {
    seq!['E' as u8, 'X' as u8, 'I' as u8, 'S' as u8, 'T' as u8, 'S' as u8]
}

pub open spec fn word_incr() -> Seq<u8> {
    seq!['I' as u8, 'N' as u8, 'C' as u8, 'R' as u8]
}

pub open spec fn word_mget() -> Seq<u8> {
    seq!['M' as u8, 'G' as u8, 'E' as u8, 'T' as u8]
}

pub open spec fn word_mset() -> Seq<u8> {
    seq!['M' as u8, 'S' as u8, 'E' as u8, 'T' as u8]
}

/// The items of `args` two by two: a key, then its value.
pub open spec fn pairs_of(args: Seq<Seq<u8>>) -> Seq<(Seq<u8>, Seq<u8>)> {
    Seq::new((args.len() / 2) as nat, |i: int| (args[2 * i], args[2 * i + 1]))
}

/// The command that the items of a frame spell, if they spell one: the name
/// first, in any case, then the arguments. `PING` stands alone, `MSET` takes
/// whole pairs, and the other commands ignore what follows the arguments
/// they use.
pub open spec fn command_of(items: Seq<Seq<u8>>) -> Option<CmdView> {
    let n = items.len();
    if n == 0 {
        None
    } else if is_word(items[0], word_ping()) && n == 1 {
        Some(CmdView::Ping)
    } else if is_word(items[0], word_get()) && n >= 2 {
        Some(CmdView::Get(items[1]))
    } else if is_word(items[0], word_set()) && n >= 3 {
        Some(CmdView::SetKey(items[1], items[2]))
    } else if is_word(items[0], word_del()) && n >= 2 {
        Some(CmdView::Del(items[1]))
    } else if is_word(items[0], word_rename()) && n >= 3 {
        Some(CmdView::Rename(items[1], items[2]))
    } else if is_word(items[0], word_exists()) && n >= 2 {
        Some(CmdView::Exists(items[1]))
    } else if is_word(items[0], word_incr()) && n >= 2 {
        Some(CmdView::Incr(items[1]))
    } else if is_word(items[0], word_mget()) && n >= 2 {
        Some(CmdView::MGet(items.skip(1)))
    } else if is_word(items[0], word_mset()) && n >= 3 && n % 2 == 1 {
        Some(CmdView::MSet(pairs_of(items.skip(1))))
    } else {
        None
    }
}

/// The frame at the start of `data`: `'*'`, a count of one or more, CR LF,
/// as many bulk elements, which spell a command. `next` is the number of
/// bytes that the frame takes.
pub open spec fn frame(data: Seq<u8>) -> Parsed<CmdView> {
    if data.len() == 0 {
        Parsed::Incomplete
    } else if data[0] != '*' as u8 {
        Parsed::Invalid(ProtocolError::ExpectedArray)
    } else {
        match decimal_line(data.skip(1)) {
            Parsed::Incomplete => Parsed::Incomplete,
            Parsed::Invalid(e) => Parsed::Invalid(e),
            Parsed::Complete { next, value } => {
                if value <= 0 {
                    Parsed::Invalid(ProtocolError::EmptyArray)
                } else {
                    match items_at(data, 1 + next, value as nat, Seq::empty()) {
                        Parsed::Incomplete => Parsed::Incomplete,
                        Parsed::Invalid(e) => Parsed::Invalid(e),
                        Parsed::Complete { next: end, value: items } => match command_of(items) {
                            Some(cmd) => Parsed::Complete { next: end, value: cmd },
                            None => Parsed::Invalid(ProtocolError::UnknownCommand),
                        },
                    }
                }
            },
        }
    }
}

/// What the decoder takes off a buffer: the commands of the complete frames
/// at its start, the bytes that stay in the buffer, and the error that
/// stopped it, if one did.
pub struct Decoded {
    pub cmds: Seq<CmdView>,
    pub rest: Seq<u8>,
    pub error: Option<ProtocolError>,
}

/// Decoding `data` frame by frame, until the bytes at hand are no complete
/// frame.
pub open spec fn frames(data: Seq<u8>) -> Decoded
    decreases data.len(),
{
    match frame(data) {
        Parsed::Incomplete => Decoded { cmds: Seq::empty(), rest: data, error: None },
        Parsed::Invalid(e) => Decoded { cmds: Seq::empty(), rest: data, error: Some(e) },
        Parsed::Complete { next, value } => {
            if 0 < next <= data.len() {
                let after = frames(data.skip(next));
                Decoded { cmds: seq![value] + after.cmds, rest: after.rest, error: after.error }
            } else {
                Decoded { cmds: Seq::empty(), rest: data, error: None }
            }
        },
    }
}

/// A complete decimal field ends within the bytes at hand, after two bytes
/// at least.
pub proof fn lemma_decimal_line_bounds(s: Seq<u8>)
    ensures
        decimal_line(s) matches Parsed::Complete { next, .. } ==> 2 <= next <= s.len(),
{
    let start: int = if s.len() > 0 && s[0] == '-' as u8 {
        1
    } else {
        0
    };
    crate::decimal::lemma_digits_end(s, start);
}

/// A complete bulk element ends within the bytes at hand, behind where it
/// starts.
pub proof fn lemma_bulk_bounds(data: Seq<u8>, at: int)
    requires
        0 <= at,
    ensures
        bulk_at(data, at) matches Parsed::Complete { next, .. } ==> at < next <= data.len(),
{
    if at < data.len() {
        lemma_decimal_line_bounds(data.skip(at + 1));
    }
}

/// Complete items end within the bytes at hand, at or behind where they
/// start, and there are `count` of them behind those read before.
pub proof fn lemma_items_bounds(data: Seq<u8>, at: int, count: nat, before: Seq<Seq<u8>>)
    requires
        0 <= at <= data.len(),
    ensures
        items_at(data, at, count, before) matches Parsed::Complete { next, value } ==> at <= next
            <= data.len() && value.len() == before.len() + count,
    decreases count,
{
    if count > 0 {
        lemma_bulk_bounds(data, at);
        match bulk_at(data, at) {
            Parsed::Complete { next, value } => {
                lemma_items_bounds(data, next, (count - 1) as nat, before.push(value));
            },
            _ => {},
        }
    }
}

/// A complete frame takes at least one byte and no more than are at hand.
pub proof fn lemma_frame_bounds(data: Seq<u8>)
    ensures
        frame(data) matches Parsed::Complete { next, .. } ==> 0 < next <= data.len(),
{
    if data.len() > 0 && data[0] == '*' as u8 {
        lemma_decimal_line_bounds(data.skip(1));
        match decimal_line(data.skip(1)) {
            Parsed::Complete { next, value } => {
                if value > 0 {
                    lemma_items_bounds(data, 1 + next, value as nat, Seq::empty());
                }
            },
            _ => {},
        }
    }
}

/// Reads a decimal field and its CR LF at the start of `s`. Returns the
/// number of bytes taken and the number read, or `(0, 0)` while the field
/// has not arrived in full.
pub fn read_decimal_line(s: &[u8]) -> (r: Result<(usize, i64), ProtocolError>)
    ensures
        match decimal_line(s@) {
            Parsed::Incomplete => r == Ok::<(usize, i64), ProtocolError>((0usize, 0i64)),
            Parsed::Invalid(e) => r == Err::<(usize, i64), ProtocolError>(e),
            Parsed::Complete { next, value } => r == Ok::<(usize, i64), ProtocolError>(
                (next as usize, value as i64),
            ),
        },
{
    let negative = s.len() > 0 && s[0] == '-' as u8;
    let start: usize = if negative {
        1
    } else {
        0
    };
    let limit: u64 = if negative {
        0x8000_0000_0000_0000u64
    } else {
        0x7fff_ffff_ffff_ffffu64
    };
    let (end, magnitude) = scan_digits(s, start, limit);
    if s.len() - end < 2 {
        return Ok((0, 0));
    }
    if s[end] != '\r' as u8 || s[end + 1] != '\n' as u8 {
        return Err(ProtocolError::ExpectedCrlf);
    }
    match magnitude {
        None => Err(ProtocolError::NumberOverflow),
        Some(m) => {
            let value: i64 = if negative {
                if m == 0x8000_0000_0000_0000u64 {
                    i64::MIN
                } else {
                    -(m as i64)
                }
            } else {
                m as i64
            };
            Ok((end + 2, value))
        },
    }
}

/// Reads the bulk element of `data` that starts at index `at`. Returns the
/// index behind it and a copy of its payload, or `None` while it has not
/// arrived in full.
fn read_bulk(data: &[u8], at: usize) -> (r: Result<Option<(usize, Vec<u8>)>, ProtocolError>)
    requires
        at <= data@.len(),
    ensures
        match bulk_at(data@, at as int) {
            Parsed::Incomplete => r matches Ok(None),
            Parsed::Invalid(e) => r matches Err(x) && x == e,
            Parsed::Complete { next, value } => r matches Ok(Some((n, payload))) && n == next
                && payload@ == value,
        },
{
    if at >= data.len() {
        return Ok(None);
    }
    if data[at] != '$' as u8 {
        return Err(ProtocolError::ExpectedBulk);
    }
    let tail = slice_subrange(data, at + 1, data.len());
    proof {
        assert(tail@ =~= data@.skip(at + 1));
        lemma_decimal_line_bounds(tail@);
    }
    let (taken, length) = match read_decimal_line(tail) {
        Err(e) => {
            return Err(e);
        },
        Ok(line) => line,
    };
    if taken == 0 {
        return Ok(None);
    }
    if length < 0 {
        return Err(ProtocolError::NegativeLength);
    }
    let start: usize = at + 1 + taken;
    let room: usize = data.len() - start;
    if room < 2 || length as u64 > (room - 2) as u64 {
        return Ok(None);
    }
    let len: usize = length as usize;
    if data[start + len] != '\r' as u8 || data[start + len + 1] != '\n' as u8 {
        return Err(ProtocolError::ExpectedCrlf);
    }
    let payload = slice_to_vec(slice_subrange(data, start, start + len));
    Ok(Some((start + len + 2, payload)))
}

/// The lower-case form of an ASCII letter; every other byte is itself.
fn to_ascii_lower(b: u8) -> (r: u8)
    ensures
        r == ascii_lower(b),
{
    if 'A' as u8 <= b && b <= 'Z' as u8 {
        b + 32
    } else {
        b
    }
}

/// Whether `name` is the word `word`, whatever the case of its letters.
pub fn eq_ignore_case(name: &[u8], word: &[u8]) -> (r: bool)
    ensures
        r == is_word(name@, word@),
{
    if name.len() != word.len() {
        return false;
    }
    let mut i: usize = 0;
    while i < name.len()
        invariant
            i <= name@.len(),
            name@.len() == word@.len(),
            forall|j: int| 0 <= j < i ==> ascii_lower(#[trigger] name@[j]) == ascii_lower(word@[j]),
        decreases name@.len() - i,
    {
        if to_ascii_lower(name[i]) != to_ascii_lower(word[i]) {
            return false;
        }
        i = i + 1;
    }
    true
}

/// A copy of the bytes of `b`.
fn copy_bytes(b: &Vec<u8>) -> (r: Vec<u8>)
    ensures
        r@ == b@,
{
    slice_to_vec(b.as_slice())
}

/// The command that the items of a frame spell, if they spell one.
fn build_command(items: Vec<Vec<u8>>) -> (r: Option<Cmd>)
    ensures
        match command_of(byte_strings(items@)) {
            Some(cmd) => r matches Some(c) && c@ == cmd,
            None => r is None,
        },
{
    let n = items.len();
    if n == 0 {
        return None;
    }
    let ghost spelled = byte_strings(items@);
    let mut items = items;
    let ping: [u8; 4] = ['P' as u8, 'I' as u8, 'N' as u8, 'G' as u8];
    let get: [u8; 3] = ['G' as u8, 'E' as u8, 'T' as u8];
    let set: [u8; 3] = ['S' as u8, 'E' as u8, 'T' as u8];
    let del: [u8; 3] = ['D' as u8, 'E' as u8, 'L' as u8];
    let rename: [u8; 6] = ['R' as u8, 'E' as u8, 'N' as u8, 'A' as u8, 'M' as u8, 'E' as u8];
    let exists: [u8; 6] = ['E' as u8, 'X' as u8, 'I' as u8, 'S' as u8, 'T' as u8, 'S' as u8];
    let incr: [u8; 4] = ['I' as u8, 'N' as u8, 'C' as u8, 'R' as u8];
    let mget: [u8; 4] = ['M' as u8, 'G' as u8, 'E' as u8, 'T' as u8];
    let mset: [u8; 4] = ['M' as u8, 'S' as u8, 'E' as u8, 'T' as u8];
    proof {
        assert(ping@ =~= word_ping());
        assert(get@ =~= word_get());
        assert(set@ =~= word_set());
        assert(del@ =~= word_del());
        assert(rename@ =~= word_rename());
        assert(exists@ =~= word_exists());
        assert(incr@ =~= word_incr());
        assert(mget@ =~= word_mget());
        assert(mset@ =~= word_mset());
        assert(spelled[0] == items@[0]@);
    }
    let name = items[0].as_slice();
    if eq_ignore_case(name, ping.as_slice()) && n == 1 {
        Some(Cmd::Ping)
    } else if eq_ignore_case(name, get.as_slice()) && n >= 2 {
        let k = items.swap_remove(1);
        Some(Cmd::Get(k))
    } else if eq_ignore_case(name, set.as_slice()) && n >= 3 {
        let v = items.swap_remove(2);
        let k = items.swap_remove(1);
        Some(Cmd::SetKey(k, v))
    } else if eq_ignore_case(name, del.as_slice()) && n >= 2 {
        let k = items.swap_remove(1);
        Some(Cmd::Del(k))
    } else if eq_ignore_case(name, rename.as_slice()) && n >= 3 {
        let to = items.swap_remove(2);
        let from = items.swap_remove(1);
        Some(Cmd::Rename(from, to))
    } else if eq_ignore_case(name, exists.as_slice()) && n >= 2 {
        let k = items.swap_remove(1);
        Some(Cmd::Exists(k))
    } else if eq_ignore_case(name, incr.as_slice()) && n >= 2 {
        let k = items.swap_remove(1);
        Some(Cmd::Incr(k))
    } else if eq_ignore_case(name, mget.as_slice()) && n >= 2 {
        let _ = items.remove(0);
        assert(byte_strings(items@) =~= spelled.skip(1));
        Some(Cmd::MGet(items))
    } else if eq_ignore_case(name, mset.as_slice()) && n >= 3 && n % 2 == 1 {
        let mut pairs: Vec<(Vec<u8>, Vec<u8>)> = Vec::new();
        let mut i: usize = 1;
        while i < n
            invariant
                n == items@.len(),
                n % 2 == 1,
                i % 2 == 1,
                1 <= i <= n,
                spelled == byte_strings(items@),
                pairs@.len() == (i - 1) / 2,
                forall|j: int|
                    0 <= j < pairs@.len() ==> (#[trigger] pairs@[j]).0@ == spelled[2 * j + 1]
                        && pairs@[j].1@ == spelled[2 * j + 2],
            decreases n - i,
        {
            let k = copy_bytes(&items[i]);
            let v = copy_bytes(&items[i + 1]);
            pairs.push((k, v));
            i = i + 2;
        }
        assert(byte_pairs(pairs@) =~= pairs_of(spelled.skip(1)));
        Some(Cmd::MSet(pairs))
    } else {
        None
    }
}

/// Decodes the frame at the start of `data`. Returns the number of bytes
/// that the frame takes and its command; `None` while the frame has not
/// arrived in full; the error where the bytes at hand are no frame.
pub fn parse_one(data: &[u8]) -> (r: Result<Option<(usize, Cmd)>, ProtocolError>)
    ensures
        match frame(data@) {
            Parsed::Incomplete => r matches Ok(None),
            Parsed::Invalid(e) => r matches Err(x) && x == e,
            Parsed::Complete { next, value } => r matches Ok(Some((n, cmd))) && n == next
                && cmd@ == value && 0 < n <= data@.len(),
        },
{
    if data.len() == 0 {
        return Ok(None);
    }
    if data[0] != '*' as u8 {
        return Err(ProtocolError::ExpectedArray);
    }
    let tail = slice_subrange(data, 1, data.len());
    proof {
        assert(tail@ =~= data@.skip(1));
        lemma_decimal_line_bounds(tail@);
        lemma_frame_bounds(data@);
    }
    let (taken, count) = match read_decimal_line(tail) {
        Err(e) => {
            return Err(e);
        },
        Ok(line) => line,
    };
    if taken == 0 {
        return Ok(None);
    }
    if count <= 0 {
        return Err(ProtocolError::EmptyArray);
    }
    let first: usize = 1 + taken;
    let mut cursor: usize = first;
    let mut items: Vec<Vec<u8>> = Vec::new();
    let mut read: i64 = 0;
    proof {
        assert(byte_strings(items@) =~= Seq::<Seq<u8>>::empty());
    }
    while read < count
        invariant
            0 <= read <= count,
            cursor <= data@.len(),
            data@.len() > 0,
            data@[0] == '*' as u8,
            decimal_line(data@.skip(1)) == (Parsed::Complete {
                next: taken as int,
                value: count as int,
            }),
            first == 1 + taken,
            items_at(data@, first as int, count as nat, Seq::empty()) == items_at(
                data@,
                cursor as int,
                (count - read) as nat,
                byte_strings(items@),
            ),
        decreases count - read,
    {
        proof {
            lemma_bulk_bounds(data@, cursor as int);
        }
        match read_bulk(data, cursor) {
            Err(e) => {
                return Err(e);
            },
            Ok(None) => {
                return Ok(None);
            },
            Ok(Some((next, payload))) => {
                proof {
                    assert(byte_strings(items@.push(payload)) =~= byte_strings(items@).push(
                        payload@,
                    ));
                }
                items.push(payload);
                cursor = next;
                read = read + 1;
            },
        }
    }
    match build_command(items) {
        Some(cmd) => Ok(Some((cursor, cmd))),
        None => Err(ProtocolError::UnknownCommand),
    }
}

/// Decodes the complete frames at the start of `buf`: takes their bytes off
/// the buffer and appends their commands to `out`, in order. It stops at the
/// first bytes that are no complete frame and leaves them in the buffer;
/// where they are no frame at all, it returns the error.
pub fn parse_many(buf: &mut BytesMut, out: &mut Vec<Cmd>) -> (r: Result<(), ProtocolError>)
    ensures
        cmd_views(final(out)@) == cmd_views(old(out)@) + frames(buffer_bytes(*old(buf))).cmds,
        buffer_bytes(*final(buf)) == frames(buffer_bytes(*old(buf))).rest,
        match frames(buffer_bytes(*old(buf))).error {
            Some(e) => r == Err::<(), ProtocolError>(e),
            None => r is Ok,
        },
{
    let ghost all = frames(buffer_bytes(*buf));
    proof {
        assert(cmd_views(out@) + all.cmds =~= cmd_views(old(out)@) + all.cmds);
    }
    loop
        invariant
            cmd_views(out@) + frames(buffer_bytes(*buf)).cmds == cmd_views(old(out)@) + all.cmds,
            frames(buffer_bytes(*buf)).rest == all.rest,
            frames(buffer_bytes(*buf)).error == all.error,
            all == frames(buffer_bytes(*old(buf))),
        decreases buffer_bytes(*buf).len(),
    {
        let ghost here = buffer_bytes(*buf);
        let step = parse_one(buffer_slice(buf));
        match step {
            Err(e) => {
                assert(cmd_views(out@) + Seq::<CmdView>::empty() =~= cmd_views(out@));
                return Err(e);
            },
            Ok(None) => {
                assert(cmd_views(out@) + Seq::<CmdView>::empty() =~= cmd_views(out@));
                return Ok(());
            },
            Ok(Some((taken, cmd))) => {
                proof {
                    assert(cmd_views(out@.push(cmd)) =~= cmd_views(out@).push(cmd@));
                    let after = frames(here.skip(taken as int));
                    assert(cmd_views(out@).push(cmd@) + after.cmds =~= cmd_views(out@) + (seq![
                        cmd@,
                    ] + after.cmds));
                }
                buffer_advance(buf, taken);
                out.push(cmd);
            },
        }
    }
}

/// A decimal field that is decided stays as it is when more bytes arrive.
pub proof fn lemma_decimal_line_extend(s: Seq<u8>, more: Seq<u8>)
    requires
        !(decimal_line(s) is Incomplete),
    ensures
        decimal_line(s + more) == decimal_line(s),
{
    let start: int = if s.len() > 0 && s[0] == '-' as u8 {
        1
    } else {
        0
    };
    crate::decimal::lemma_digits_end(s, start);
    let end = digits_end(s, start);
    crate::decimal::lemma_digits_end_extend(s, more, start);
    assert((s + more).subrange(start, end) =~= s.subrange(start, end));
}

/// A bulk element that is decided stays as it is when more bytes arrive.
pub proof fn lemma_bulk_extend(data: Seq<u8>, more: Seq<u8>, at: int)
    requires
        0 <= at,
        !(bulk_at(data, at) is Incomplete),
    ensures
        bulk_at(data + more, at) == bulk_at(data, at),
{
    if data[at] == '$' as u8 {
        let line = data.skip(at + 1);
        assert((data + more).skip(at + 1) =~= line + more);
        lemma_decimal_line_extend(line, more);
        lemma_decimal_line_bounds(line);
        match decimal_line(line) {
            Parsed::Complete { next, value } => {
                if value >= 0 {
                    let start = at + 1 + next;
                    assert((data + more).subrange(start, start + value) =~= data.subrange(
                        start,
                        start + value,
                    ));
                }
            },
            _ => {},
        }
    }
}

/// Items that are decided stay as they are when more bytes arrive.
pub proof fn lemma_items_extend(
    data: Seq<u8>,
    more: Seq<u8>,
    at: int,
    count: nat,
    before: Seq<Seq<u8>>,
)
    requires
        0 <= at,
        !(items_at(data, at, count, before) is Incomplete),
    ensures
        items_at(data + more, at, count, before) == items_at(data, at, count, before),
    decreases count,
{
    if count > 0 {
        lemma_bulk_extend(data, more, at);
        lemma_bulk_bounds(data, at);
        match bulk_at(data, at) {
            Parsed::Complete { next, value } => {
                lemma_items_extend(data, more, next, (count - 1) as nat, before.push(value));
            },
            _ => {},
        }
    }
}

/// A frame that is decided, complete or in error, stays as it is when more
/// bytes arrive.
pub proof fn lemma_frame_extend(data: Seq<u8>, more: Seq<u8>)
    requires
        !(frame(data) is Incomplete),
    ensures
        frame(data + more) == frame(data),
{
    if data[0] == '*' as u8 {
        let line = data.skip(1);
        assert((data + more).skip(1) =~= line + more);
        lemma_decimal_line_extend(line, more);
        lemma_decimal_line_bounds(line);
        match decimal_line(line) {
            Parsed::Complete { next, value } => {
                if value > 0 {
                    lemma_items_extend(data, more, 1 + next, value as nat, Seq::empty());
                }
            },
            _ => {},
        }
    }
}

/// An error in what has arrived is an error of every longer input: bytes
/// that are decoded without error have no prefix that gives one.
pub proof fn lemma_frames_error_extend(data: Seq<u8>, more: Seq<u8>)
    requires
        frames(data).error is Some,
    ensures
        frames(data + more).error == frames(data).error,
    decreases data.len(),
{
    lemma_frame_bounds(data);
    lemma_frame_bounds(data + more);
    match frame(data) {
        Parsed::Complete { next, value } => {
            lemma_frame_extend(data, more);
            assert((data + more).skip(next) =~= data.skip(next) + more);
            lemma_frames_error_extend(data.skip(next), more);
        },
        Parsed::Invalid(e) => {
            lemma_frame_extend(data, more);
        },
        Parsed::Incomplete => {},
    }
}

/// Decoding in two reads: where `data` decodes without error, decoding
/// `data` and then, with what it left in the buffer in front, `more` gives
/// what decoding `data + more` at once gives.
pub proof fn lemma_frames_split(data: Seq<u8>, more: Seq<u8>)
    requires
        frames(data).error is None,
    ensures
        frames(data + more).cmds == frames(data).cmds + frames(frames(data).rest + more).cmds,
        frames(data + more).rest == frames(frames(data).rest + more).rest,
        frames(data + more).error == frames(frames(data).rest + more).error,
    decreases data.len(),
{
    lemma_frame_bounds(data);
    lemma_frame_bounds(data + more);
    match frame(data) {
        Parsed::Complete { next, value } => {
            lemma_frame_extend(data, more);
            let tail = data.skip(next);
            assert((data + more).skip(next) =~= tail + more);
            lemma_frames_split(tail, more);
            let later = frames(frames(tail).rest + more);
            assert(seq![value] + (frames(tail).cmds + later.cmds) =~= (seq![value] + frames(
                tail,
            ).cmds) + later.cmds);
        },
        Parsed::Invalid(e) => {},
        Parsed::Incomplete => {
            assert(frames(data).cmds + frames(data + more).cmds =~= frames(data + more).cmds);
        },
    }
}

/// What the decoder has made of the input after it arrived in the chunks
/// `chunks`, with a round of decoding after each: the commands of all the
/// rounds, and what the last round left in the buffer.
pub open spec fn fed(chunks: Seq<Seq<u8>>) -> Decoded
    decreases chunks.len(),
{
    if chunks.len() == 0 {
        Decoded { cmds: Seq::empty(), rest: Seq::empty(), error: None }
    } else {
        let before = fed(chunks.drop_last());
        let round = frames(before.rest + chunks.last());
        Decoded { cmds: before.cmds + round.cmds, rest: round.rest, error: round.error }
    }
}

/// Decoding does not depend on how the input is split: where the input as a
/// whole decodes without error, decoding it chunk by chunk gives no error in
/// any round, the same commands in the same order, and the same bytes left
/// in the buffer (none, where the input ends with a frame).
pub proof fn lemma_decoding_ignores_splitting(chunks: Seq<Seq<u8>>)
    requires
        frames(concat_all(chunks)).error is None,
    ensures
        fed(chunks).error is None,
        fed(chunks).cmds == frames(concat_all(chunks)).cmds,
        fed(chunks).rest == frames(concat_all(chunks)).rest,
        forall|i: int| 0 <= i <= chunks.len() ==> (#[trigger] fed(chunks.take(i))).error is None,
    decreases chunks.len(),
{
    if chunks.len() == 0 {
        assert(frames(Seq::<u8>::empty()).cmds =~= Seq::<CmdView>::empty());
        assert forall|i: int| 0 <= i <= chunks.len() implies (#[trigger] fed(
            chunks.take(i),
        )).error is None by {
            assert(chunks.take(i) =~= chunks);
        }
    } else {
        let head = chunks.drop_last();
        let whole = concat_all(head);
        if frames(whole).error is Some {
            lemma_frames_error_extend(whole, chunks.last());
        }
        lemma_decoding_ignores_splitting(head);
        lemma_frames_split(whole, chunks.last());
        assert forall|i: int| 0 <= i <= chunks.len() implies (#[trigger] fed(
            chunks.take(i),
        )).error is None by {
            if i == chunks.len() {
                assert(chunks.take(i) =~= chunks);
            } else {
                assert(chunks.take(i) =~= head.take(i));
            }
        }
    }
}

/// The items of `items` as bulk strings, one after the other.
pub open spec fn bulks(items: Seq<Seq<u8>>) -> Seq<u8>
    decreases items.len(),
{
    if items.len() == 0 {
        Seq::empty()
    } else {
        bulks(items.drop_last()) + bulk_reply(items.last())
    }
}

/// The frame in which a client sends the items `items`: the array header
/// with their number, then each item as a bulk string.
pub open spec fn request(items: Seq<Seq<u8>>) -> Seq<u8> {
    array_header(items.len()) + bulks(items)
}

/// Whether the items can be sent in a frame: there is one at least, and
/// their number and the length of each fit the decimal fields of the
/// protocol.
pub open spec fn sendable(items: Seq<Seq<u8>>) -> bool {
    &&& 1 <= items.len() <= i64::MAX
    &&& forall|i: int| 0 <= i < items.len() ==> (#[trigger] items[i]).len() <= i64::MAX
}

/// The bulk strings of some items are the first of them and then the bulk
/// strings of the others.
pub proof fn lemma_bulks_first(items: Seq<Seq<u8>>)
    requires
        items.len() > 0,
    ensures
        bulks(items) == bulk_reply(items[0]) + bulks(items.skip(1)),
    decreases items.len(),
{
    let tail = items.skip(1);
    if items.len() == 1 {
        assert(items.drop_last() =~= Seq::<Seq<u8>>::empty());
        assert(tail =~= Seq::<Seq<u8>>::empty());
        assert(bulks(items) =~= bulk_reply(items[0]) + bulks(tail));
    } else {
        lemma_bulks_first(items.drop_last());
        assert(items.drop_last().skip(1) =~= tail.drop_last());
        assert(tail.last() == items.last());
        assert(bulks(items) =~= bulk_reply(items[0]) + bulks(tail));
    }
}

/// The decimal field of a number is read as the number: the digits of `n`
/// and CR LF, whatever follows them.
pub proof fn lemma_decimal_line_of(n: nat, rest: Seq<u8>)
    requires
        n <= i64::MAX,
    ensures
        decimal_line(nat_digits(n) + crlf() + rest) == (Parsed::Complete {
            next: (nat_digits(n).len() + 2) as int,
            value: n as int,
        }),
{
    let digits = nat_digits(n);
    let s = digits + crlf() + rest;
    crate::decimal::lemma_nat_digits(n);
    let end = digits.len() as int;
    assert(s[0] == digits[0]);
    assert forall|j: int| 0 <= j < end implies crate::decimal::is_digit(#[trigger] s[j]) by {
        assert(s[j] == digits[j]);
    }
    assert(s[end] == '\r' as u8);
    assert(s[end + 1] == '\n' as u8);
    crate::decimal::lemma_digits_end_at(s, 0, end);
    assert(s.subrange(0, end) =~= digits);
}

/// A bulk string is read as its payload, wherever it stands.
pub proof fn lemma_bulk_at_of(pre: Seq<u8>, payload: Seq<u8>, post: Seq<u8>)
    requires
        payload.len() <= i64::MAX,
    ensures
        bulk_at(pre + bulk_reply(payload) + post, pre.len() as int) == (Parsed::Complete {
            next: (pre.len() + bulk_reply(payload).len()) as int,
            value: payload,
        }),
{
    let data = pre + bulk_reply(payload) + post;
    let at = pre.len() as int;
    let digits = nat_digits(payload.len());
    assert(data[at] == bulk_reply(payload)[0]);
    assert(data.skip(at + 1) =~= digits + crlf() + (payload + crlf() + post));
    lemma_decimal_line_of(payload.len(), payload + crlf() + post);
    let start = at + 1 + digits.len() + 2;
    assert(data.subrange(start, start + payload.len()) =~= payload);
    assert(data[start + payload.len()] == crlf()[0]);
    assert(data[start + payload.len() + 1] == crlf()[1]);
}

/// Bulk strings in a row are read as their payloads, in order.
#[verifier::rlimit(30)]
pub proof fn lemma_items_at_of(
    pre: Seq<u8>,
    items: Seq<Seq<u8>>,
    post: Seq<u8>,
    before: Seq<Seq<u8>>,
)
    requires
        forall|i: int| 0 <= i < items.len() ==> (#[trigger] items[i]).len() <= i64::MAX,
    ensures
        items_at(pre + bulks(items) + post, pre.len() as int, items.len(), before) == (
        Parsed::Complete {
            next: (pre.len() + bulks(items).len()) as int,
            value: before + items,
        }),
    decreases items.len(),
{
    let data = pre + bulks(items) + post;
    if items.len() == 0 {
        assert(before + items =~= before);
    } else {
        let first = bulk_reply(items[0]);
        let tail = items.skip(1);
        let behind = bulks(tail) + post;
        lemma_bulks_first(items);
        assert(data == pre + first + behind) by {
            assert(data =~= pre + first + behind);
        }
        assert(bulk_at(data, pre.len() as int) == (Parsed::Complete {
            next: (pre.len() + first.len()) as int,
            value: items[0],
        })) by {
            lemma_bulk_at_of(pre, items[0], behind);
        }
        let moved = pre + first;
        assert(data == moved + bulks(tail) + post) by {
            assert(data =~= moved + bulks(tail) + post);
        }
        assert forall|i: int| 0 <= i < tail.len() implies (#[trigger] tail[i]).len()
            <= i64::MAX by {
            assert(tail[i] == items[i + 1]);
        }
        lemma_items_at_of(moved, tail, post, before.push(items[0]));
        assert(before.push(items[0]) + tail == before + items) by {
            assert(before.push(items[0]) + tail =~= before + items);
        }
        assert(moved.len() + bulks(tail).len() == pre.len() + bulks(items).len());
    }
}

/// Decoding undoes encoding: the frame of some items is read as the command
/// that the items spell, and takes the bytes of the frame and no more,
/// whatever follows it.
pub proof fn lemma_frame_of_request(items: Seq<Seq<u8>>, post: Seq<u8>)
    requires
        sendable(items),
    ensures
        frame(request(items) + post) == match command_of(items) {
            Some(cmd) => Parsed::Complete { next: request(items).len() as int, value: cmd },
            None => Parsed::Invalid(ProtocolError::UnknownCommand),
        },
{
    let data = request(items) + post;
    let digits = nat_digits(items.len());
    let head = array_header(items.len());
    assert(data[0] == head[0]);
    assert(data.skip(1) =~= digits + crlf() + (bulks(items) + post));
    lemma_decimal_line_of(items.len(), bulks(items) + post);
    assert(data =~= head + bulks(items) + post);
    lemma_items_at_of(head, items, post, Seq::empty());
    assert(Seq::<Seq<u8>>::empty() + items =~= items);
}

/// A frame alone in the buffer is decoded as its one command and leaves
/// nothing behind.
pub proof fn lemma_frames_of_request(items: Seq<Seq<u8>>)
    requires
        sendable(items),
        command_of(items) is Some,
    ensures
        frames(request(items)) == (Decoded {
            cmds: seq![command_of(items)->0],
            rest: Seq::empty(),
            error: None,
        }),
{
    let data = request(items);
    assert(data + Seq::<u8>::empty() =~= data);
    lemma_frame_of_request(items, Seq::empty());
    lemma_frame_bounds(data);
    assert(data.skip(data.len() as int) =~= Seq::<u8>::empty());
    let after = frames(Seq::<u8>::empty());
    assert(seq![command_of(items)->0] + after.cmds =~= seq![command_of(items)->0]);
}

/// Three items or more that start with the word `SET` spell that command
/// on the two items that follow the word.
pub proof fn lemma_spells_set(items: Seq<Seq<u8>>)
    requires
        items.len() >= 3,
        items[0] == word_set(),
    ensures
        command_of(items) == Some(CmdView::SetKey(items[1], items[2])),
{
    assert(ascii_lower(word_set()[0]) != ascii_lower(word_get()[0]));
    assert(is_word(word_set(), word_set()));
}

/// Three items or more that start with the word `RENAME` spell that command
/// on the two items that follow the word.
pub proof fn lemma_spells_rename(items: Seq<Seq<u8>>)
    requires
        items.len() >= 3,
        items[0] == word_rename(),
    ensures
        command_of(items) == Some(CmdView::Rename(items[1], items[2])),
{
    assert(is_word(word_rename(), word_rename()));
}

/// Two items or more that start with the word `INCR` spell that command on
/// the item that follows the word.
pub proof fn lemma_spells_incr(items: Seq<Seq<u8>>)
    requires
        items.len() >= 2,
        items[0] == word_incr(),
    ensures
        command_of(items) == Some(CmdView::Incr(items[1])),
{
    assert(ascii_lower(word_incr()[0]) != ascii_lower(word_ping()[0]));
    assert(is_word(word_incr(), word_incr()));
}

/// An odd number of items, three or more, that start with the word `MSET`
/// spell that command on the pairs that follow the word.
pub proof fn lemma_spells_mset(items: Seq<Seq<u8>>)
    requires
        items.len() >= 3,
        items.len() % 2 == 1,
        items[0] == word_mset(),
    ensures
        command_of(items) == Some(CmdView::MSet(pairs_of(items.skip(1)))),
{
    assert(ascii_lower(word_mset()[0]) != ascii_lower(word_ping()[0]));
    assert(ascii_lower(word_mset()[0]) != ascii_lower(word_incr()[0]));
    assert(ascii_lower(word_mset()[1]) != ascii_lower(word_mget()[1]));
    assert(is_word(word_mset(), word_mset()));
}

} // verus!
