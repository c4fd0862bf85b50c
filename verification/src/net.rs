//! The decisions of the reactor: what a connection does with the bytes it
//! reads, what it has to write, and when it ends. The loop that waits for
//! sockets and makes the reads and writes stands outside; it tells the
//! connection what happened and does what the connection answers.

use crate::buffer::{buffer_bytes, buffer_extend, buffer_len, buffer_new, buffer_slice};
use crate::protocol::{
    concat_all, error_reply, fed, frames, lemma_decoding_ignores_splitting, parse_many,
    write_bytes, write_error_bytes, Cmd, CmdView, ProtocolError, ValueView,
};
use crate::shard::{executed_all, lemma_executed_all_concat, logged, Shard};
use bytes::BytesMut;
use vstd::prelude::*;

verus! {

/// The size of the scratch buffer that a worker reads sockets into.
pub const READ_BUF: usize = 4096;

/// The number of connections that may wait at a listener to be accepted.
pub const LISTEN_BACKLOG: i32 = 1024;

/// The token of a worker's listener; no connection has it.
pub const LISTENER: usize = 0;

/// How a read, a write or an accept failed.
#[derive(Debug, Clone, Copy, PartialEq, Eq, Structural)]
pub enum IoFailure {
    /// The socket is not ready: the operation would block.
    WouldBlock,
    /// A signal interrupted the operation.
    Interrupted,
    /// Any other failure.
    Other,
}

/// Whether the failure only means that the operation is to be tried again
/// when the socket is ready.
pub fn would_block(e: IoFailure) -> (retry: bool)
    ensures
        retry == (e == IoFailure::WouldBlock || e == IoFailure::Interrupted),
{
    match e {
        IoFailure::WouldBlock => true,
        IoFailure::Interrupted => true,
        IoFailure::Other => false,
    }
}

/// The token that follows `token`: the next number, passing over the
/// listener's token where the numbers wrap.
pub open spec fn token_after(token: usize) -> usize {
    if token == usize::MAX {
        1
    } else {
        (token + 1) as usize
    }
}

/// The token of the `n`th connection that a worker accepts: the allocator
/// starts behind the listener's token.
pub open spec fn nth_token(n: nat) -> usize
    decreases n,
{
    if n == 0 {
        LISTENER
    } else {
        token_after(nth_token((n - 1) as nat))
    }
}

/// The token that follows `token` in a worker's allocator.
pub fn next_token(token: usize) -> (next: usize)
    ensures
        next == token_after(token),
        next != LISTENER,
{
    if token == usize::MAX {
        1
    } else {
        token + 1
    }
}

/// Tokens grow: the `n`th connection of a worker has the token `n`, as long
/// as the numbers have not wrapped. So no two of its connections share a
/// token, and none has the listener's.
pub proof fn lemma_tokens_are_fresh(n: nat)
    requires
        1 <= n <= usize::MAX,
    ensures
        nth_token(n) == n,
        nth_token(n) != LISTENER,
        forall|m: nat| 1 <= m < n ==> nth_token(m) != nth_token(n),
{
    lemma_token_is_its_number(n);
    assert forall|m: nat| 1 <= m < n implies nth_token(m) != nth_token(n) by {
        lemma_token_is_its_number(m);
    }
}

/// The `n`th token is the number `n`, as long as the numbers have not
/// wrapped.
proof fn lemma_token_is_its_number(n: nat)
    requires
        n <= usize::MAX,
    ensures
        nth_token(n) == n,
    decreases n,
{
    if n > 0 {
        lemma_token_is_its_number((n - 1) as nat);
    }
}

/// What a connection asks the multiplexer to watch its socket for.
#[derive(Debug, Clone, Copy, PartialEq, Eq, Structural)]
pub enum Interest {
    /// Incoming bytes only.
    Readable,
    /// Incoming bytes, and room to write.
    ReadWrite,
}

/// What the reactor does with a connection after it handed it the outcome
/// of a read.
#[derive(Debug, Clone, Copy, PartialEq, Eq, Structural)]
pub enum ReadStep {
    /// Read the socket again.
    Again,
    /// The socket has no more bytes for now: decode and execute.
    Drained,
    /// Tear the connection down.
    Close,
}

/// What the reactor does with a connection after it handed it the outcome
/// of a write.
#[derive(Debug, Clone, Copy, PartialEq, Eq, Structural)]
pub enum WriteStep {
    /// Go on.
    Keep,
    /// Tear the connection down.
    Close,
}

/// The text that precedes the message of a protocol error in the reply:
/// `ERR` and a space.
pub open spec fn text_err() -> Seq<u8> {
    seq!['E' as u8, 'R' as u8, 'R' as u8, ' ' as u8]
}

/// The reply to bytes that are no frame: an error reply with `ERR` and the
/// message of the error.
pub open spec fn protocol_error_reply(e: ProtocolError) -> Seq<u8> {
    error_reply(text_err() + vstd::utf8::encode_utf8(e.spec_message()))
}

/// The state of one client connection, owned by the worker that accepted
/// it.
pub struct Connection {
    read_buf: BytesMut,
    write_buf: Vec<u8>,
    closing: bool,
}

impl Connection {
    /// The bytes received and not yet decoded.
    pub closed spec fn input(&self) -> Seq<u8> {
        buffer_bytes(self.read_buf)
    }

    /// The reply bytes produced and not yet written to the socket.
    pub closed spec fn output(&self) -> Seq<u8> {
        self.write_buf@
    }

    /// Whether a protocol error has ended the connection: it decodes no
    /// more, and is torn down once its output is written.
    pub closed spec fn closing(&self) -> bool {
        self.closing
    }

    /// The state of a connection that was just accepted.
    pub fn new() -> (conn: Connection)
        ensures
            conn.input() == Seq::<u8>::empty(),
            conn.output() == Seq::<u8>::empty(),
            !conn.closing(),
    {
        Connection { read_buf: buffer_new(), write_buf: Vec::new(), closing: false }
    }

    /// Takes the outcome of a successful read: the bytes `data` that were
    /// received. No bytes mean that the peer closed the connection. Bytes
    /// are put behind the input, and the socket is read again.
    pub fn on_read(&mut self, data: &[u8]) -> (step: ReadStep)
        ensures
            final(self).output() == old(self).output(),
            final(self).closing() == old(self).closing(),
            data@.len() == 0 || old(self).input().len() + data@.len() > usize::MAX ==> step
                == ReadStep::Close && final(self).input() == old(self).input(),
            data@.len() > 0 && old(self).input().len() + data@.len() <= usize::MAX ==> step
                == ReadStep::Again && final(self).input() == old(self).input() + data@,
    {
        if data.len() == 0 {
            return ReadStep::Close;
        }
        if data.len() > usize::MAX - buffer_len(&self.read_buf) {
            return ReadStep::Close;
        }
        buffer_extend(&mut self.read_buf, data);
        ReadStep::Again
    }

    /// Takes the outcome of a failed read: the socket has no more bytes for
    /// now, or the connection is lost.
    pub fn on_read_error(&self, e: IoFailure) -> (step: ReadStep)
        ensures
            step == if e == IoFailure::WouldBlock || e == IoFailure::Interrupted {
                ReadStep::Drained
            } else {
                ReadStep::Close
            },
    {
        if would_block(e) {
            ReadStep::Drained
        } else {
            ReadStep::Close
        }
    }

    /// Decodes the complete frames of the input and executes their commands
    /// on `shard`, in order; the replies go behind the output. Bytes that
    /// are no complete frame yet stay in the input. Where the input holds
    /// bytes that are no frame at all, nothing is executed: the reply is the
    /// protocol error, and the connection is closing. A closing connection
    /// does nothing.
    pub fn process(&mut self, shard: &mut Shard)
        ensures
            final(shard).id == old(shard).id,
            old(self).closing() ==> final(self).closing() && final(self).input() == old(
                self,
            ).input() && final(self).output() == old(self).output() && final(shard).dict@ == old(
                shard,
            ).dict@ && final(shard).log() == old(shard).log(),
            !old(self).closing() ==> final(self).input() == frames(old(self).input()).rest,
            !old(self).closing() ==> match frames(old(self).input()).error {
                Some(e) => {
                    &&& final(self).closing()
                    &&& final(self).output() == old(self).output() + protocol_error_reply(e)
                    &&& final(shard).dict@ == old(shard).dict@
                    &&& final(shard).log() == old(shard).log()
                },
                None => {
                    let done = executed_all(old(shard).dict@, frames(old(self).input()).cmds);
                    &&& !final(self).closing()
                    &&& final(self).output() == old(self).output() + done.reply
                    &&& final(shard).dict@ == done.store
                    &&& final(shard).log() == logged(old(shard).log(), done.records)
                },
            },
    {
        if self.closing {
            return ;
        }
        let mut batch: Vec<Cmd> = Vec::new();
        assert(crate::protocol::cmd_views(batch@) =~= Seq::<CmdView>::empty());
        match parse_many(&mut self.read_buf, &mut batch) {
            Err(e) => {
                let mut text: Vec<u8> = Vec::new();
                text.push('E' as u8);
                text.push('R' as u8);
                text.push('R' as u8);
                text.push(' ' as u8);
                write_bytes(e.message().as_bytes(), &mut text);
                assert(text@ =~= text_err() + vstd::utf8::encode_utf8(e.spec_message()));
                write_error_bytes(text.as_slice(), &mut self.write_buf);
                self.closing = true;
            },
            Ok(()) => {
                assert(crate::protocol::cmd_views(batch@) =~= frames(old(self).input()).cmds);
                shard.exec_all(batch, &mut self.write_buf);
            },
        }
    }

    /// The bytes received and not yet decoded.
    pub fn pending_input(&self) -> (bytes: &[u8])
        ensures
            bytes@ == self.input(),
    {
        buffer_slice(&self.read_buf)
    }

    /// Whether the connection has reply bytes to write.
    pub fn has_output(&self) -> (some: bool)
        ensures
            some == (self.output().len() > 0),
    {
        self.write_buf.len() > 0
    }

    /// The reply bytes to write to the socket.
    pub fn pending_output(&self) -> (bytes: &[u8])
        ensures
            bytes@ == self.output(),
    {
        self.write_buf.as_slice()
    }

    /// Takes the outcome of a successful write: the socket took the first
    /// `n` bytes of the output, which leave it.
    pub fn on_write(&mut self, n: usize)
        ensures
            final(self).input() == old(self).input(),
            final(self).closing() == old(self).closing(),
            final(self).output() == if n <= old(self).output().len() {
                old(self).output().skip(n as int)
            } else {
                Seq::<u8>::empty()
            },
    {
        if n >= self.write_buf.len() {
            self.write_buf.clear();
            assert(old(self).output().skip(old(self).output().len() as int) =~= Seq::<u8>::empty());
        } else {
            let rest = self.write_buf.split_off(n);
            self.write_buf = rest;
            assert(final(self).output() =~= old(self).output().skip(n as int));
        }
    }

    /// Takes the outcome of a failed write: the socket has no room for now,
    /// or the connection is lost.
    pub fn on_write_error(&self, e: IoFailure) -> (step: WriteStep)
        ensures
            step == if e == IoFailure::WouldBlock || e == IoFailure::Interrupted {
                WriteStep::Keep
            } else {
                WriteStep::Close
            },
    {
        if would_block(e) {
            WriteStep::Keep
        } else {
            WriteStep::Close
        }
    }

    /// What the socket is watched for after an event: room to write only
    /// while there are reply bytes to write.
    pub fn interest(&self) -> (watch: Interest)
        ensures
            watch == if self.output().len() == 0 {
                Interest::Readable
            } else {
                Interest::ReadWrite
            },
    {
        if self.write_buf.len() == 0 {
            Interest::Readable
        } else {
            Interest::ReadWrite
        }
    }

    /// Whether the connection is to be torn down now: a protocol error
    /// ended it, and its output has been written.
    pub fn finished(&self) -> (done: bool)
        ensures
            done == (self.closing() && self.output().len() == 0),
    {
        self.closing && self.write_buf.len() == 0
    }
}

/// What a connection and its shard have come to after input arrived in
/// chunks, with a round of decoding and executing after each.
pub struct Served {
    /// The keyspace.
    pub store: Map<Seq<u8>, ValueView>,
    /// The bytes left in the input.
    pub rest: Seq<u8>,
    /// The reply bytes of all the rounds.
    pub output: Seq<u8>,
    /// The durability records of all the rounds.
    pub records: Seq<Seq<u8>>,
}

/// What a new connection has come to on the keyspace `store` after the
/// chunks `chunks`, none of which held bytes that are no frame.
pub open spec fn served(store: Map<Seq<u8>, ValueView>, chunks: Seq<Seq<u8>>) -> Served
    decreases chunks.len(),
{
    if chunks.len() == 0 {
        Served { store, rest: Seq::empty(), output: Seq::empty(), records: Seq::empty() }
    } else {
        let before = served(store, chunks.drop_last());
        let round = frames(before.rest + chunks.last());
        let done = executed_all(before.store, round.cmds);
        Served {
            store: done.store,
            rest: round.rest,
            output: before.output + done.reply,
            records: before.records + done.records,
        }
    }
}

/// Rounds add up: what a connection has come to is what executing the
/// commands of all the rounds in one batch comes to.
proof fn lemma_served_is_fed(store: Map<Seq<u8>, ValueView>, chunks: Seq<Seq<u8>>)
    ensures
        served(store, chunks).rest == fed(chunks).rest,
        served(store, chunks).store == executed_all(store, fed(chunks).cmds).store,
        served(store, chunks).output == executed_all(store, fed(chunks).cmds).reply,
        served(store, chunks).records == executed_all(store, fed(chunks).cmds).records,
    decreases chunks.len(),
{
    if chunks.len() > 0 {
        let head = chunks.drop_last();
        lemma_served_is_fed(store, head);
        let round = frames(fed(head).rest + chunks.last());
        lemma_executed_all_concat(store, fed(head).cmds, round.cmds);
    }
}

/// Replies do not depend on how the requests arrive: where the input of a
/// connection as a whole decodes without error, the replies written after
/// it arrived in any chunks are, byte for byte and in the order of the
/// requests, the replies to its commands executed one after the other; and
/// so are the keyspace and the durability records.
pub proof fn lemma_replies_ignore_splitting(store: Map<Seq<u8>, ValueView>, chunks: Seq<Seq<u8>>)
    requires
        frames(concat_all(chunks)).error is None,
    ensures
        served(store, chunks).rest == frames(concat_all(chunks)).rest,
        served(store, chunks).store == executed_all(
            store,
            frames(concat_all(chunks)).cmds,
        ).store,
        served(store, chunks).output == executed_all(
            store,
            frames(concat_all(chunks)).cmds,
        ).reply,
        served(store, chunks).records == executed_all(
            store,
            frames(concat_all(chunks)).cmds,
        ).records,
{
    lemma_decoding_ignores_splitting(chunks);
    lemma_served_is_fed(store, chunks);
}

} // verus!
