//! The durability log: the records that stand for mutations, in the form in
//! which a client sends the same commands, and the handle that queues them
//! for the writer.

use crate::decimal::push_nat_digits;
use crate::protocol::{
    array_header, bulk_reply, bulks, byte_pairs, byte_strings, frames, lemma_frames_of_request,
    lemma_spells_incr, lemma_spells_mset, lemma_spells_rename, lemma_spells_set, pairs_of,
    request, sendable, word_incr, word_mset, word_rename, word_set, write_bulk, CmdView, Decoded,
};
use vstd::prelude::*;
use vstd::slice::slice_to_vec;

verus! {

/// The file that the log is appended to where the server is given no other.
pub const DEFAULT_AOF_PATH: &'static str = "ignix.aof";

/// The time between two flushes of the log to stable storage, in
/// milliseconds.
pub const FLUSH_INTERVAL_MS: u64 = 1000;

/// Whether the writer flushes and syncs the log now, `elapsed_ms`
/// milliseconds after its last flush.
pub fn flush_due(elapsed_ms: u64) -> (due: bool)
    ensures
        due == (elapsed_ms >= FLUSH_INTERVAL_MS),
{
    elapsed_ms >= FLUSH_INTERVAL_MS
}

/// What the writer's channel gave it.
#[derive(Debug, Clone, Copy, PartialEq, Eq, Structural)]
pub enum LogEvent {
    /// A record, which the writer has appended to the file.
    Appended,
    /// Nothing for a while.
    Idle,
    /// The channel is closed and empty: no record will come.
    Closed,
}

/// What the writer does next.
#[derive(Debug, Clone, Copy, PartialEq, Eq, Structural)]
pub enum LogAction {
    /// Wait for the channel again.
    Wait,
    /// Flush the file and sync it, then wait for the channel again.
    Flush,
    /// Flush the file and sync it, then stop.
    FlushAndStop,
    /// Stop.
    Stop,
}

/// What the writer does after `event`, `elapsed_ms` milliseconds after its
/// last flush, where `unflushed` says whether records were appended since:
/// it flushes what is unflushed once the interval has passed, and before it
/// stops.
pub open spec fn writer_action(unflushed: bool, event: LogEvent, elapsed_ms: u64) -> LogAction {
    let dirty = unflushed || event == LogEvent::Appended;
    if event == LogEvent::Closed {
        if dirty {
            LogAction::FlushAndStop
        } else {
            LogAction::Stop
        }
    } else if dirty && elapsed_ms >= FLUSH_INTERVAL_MS {
        LogAction::Flush
    } else {
        LogAction::Wait
    }
}

/// The state of the log writer between two events: whether it has appended
/// records that it has not flushed.
pub struct LogWriterState {
    unflushed: bool,
}

impl LogWriterState {
    /// Whether records were appended since the last flush.
    pub closed spec fn unflushed(&self) -> bool {
        self.unflushed
    }

    /// The state of a writer that has appended nothing.
    pub fn new() -> (state: LogWriterState)
        ensures
            !state.unflushed(),
    {
        LogWriterState { unflushed: false }
    }

    /// Takes an event and says what the writer does next. After a flush
    /// nothing is unflushed; otherwise an appended record stays unflushed.
    pub fn step(&mut self, event: LogEvent, elapsed_ms: u64) -> (action: LogAction)
        ensures
            action == writer_action(old(self).unflushed(), event, elapsed_ms),
            final(self).unflushed() == (action == LogAction::Wait && (old(self).unflushed()
                || event == LogEvent::Appended)),
    {
        let dirty = self.unflushed || event == LogEvent::Appended;
        if event == LogEvent::Closed {
            self.unflushed = false;
            if dirty {
                LogAction::FlushAndStop
            } else {
                LogAction::Stop
            }
        } else if dirty && flush_due(elapsed_ms) {
            self.unflushed = false;
            LogAction::Flush
        } else {
            self.unflushed = dirty;
            LogAction::Wait
        }
    }
}

/// The record of `SET k v`: the frame in which a client sends the command.
pub open spec fn set_record(k: Seq<u8>, v: Seq<u8>) -> Seq<u8> {
    request(seq![word_set(), k, v])
}

/// The record of `RENAME a b`: the frame in which a client sends the
/// command.
pub open spec fn rename_record(a: Seq<u8>, b: Seq<u8>) -> Seq<u8> {
    request(seq![word_rename(), a, b])
}

/// The record of `INCR k`: the frame in which a client sends the command.
pub open spec fn incr_record(k: Seq<u8>) -> Seq<u8> {
    request(seq![word_incr(), k])
}

/// The keys and values of `pairs` in a row: a key, its value, the next key.
pub open spec fn flat(pairs: Seq<(Seq<u8>, Seq<u8>)>) -> Seq<Seq<u8>> {
    Seq::new(
        2 * pairs.len(),
        |i: int|
            if i % 2 == 0 {
                pairs[i / 2].0
            } else {
                pairs[i / 2].1
            },
    )
}

/// The record of `MSET` with the given pairs: one frame, in which a client
/// sends the command with every key and its value.
pub open spec fn mset_record(pairs: Seq<(Seq<u8>, Seq<u8>)>) -> Seq<u8> {
    request(seq![word_mset()] + flat(pairs))
}

/// Appends the header of a frame of `count` elements and the command name
/// `word` to `out`.
fn write_record_head(count: u128, word: &[u8], out: &mut Vec<u8>)
    ensures
        final(out)@ == old(out)@ + array_header(count as nat) + bulks(seq![word@]),
{
    out.push('*' as u8);
    push_nat_digits(count, out);
    out.push('\r' as u8);
    out.push('\n' as u8);
    write_bulk(word, out);
    proof {
        let one = seq![word@];
        assert(one.drop_last() =~= Seq::<Seq<u8>>::empty());
        assert(bulks(one.drop_last()) =~= Seq::<u8>::empty());
        assert(bulks(one) =~= bulk_reply(word@));
        assert(final(out)@ =~= old(out)@ + array_header(count as nat) + bulks(one));
    }
}

/// Appends the item `item` as a bulk string to `record`, which holds the
/// header of a frame and the items `items` so far.
fn write_item(item: &[u8], record: &mut Vec<u8>, Ghost(head): Ghost<Seq<u8>>, Ghost(items): Ghost<
    Seq<Seq<u8>>,
>)
    requires
        old(record)@ == head + bulks(items),
    ensures
        final(record)@ == head + bulks(items.push(item@)),
{
    write_bulk(item, record);
    proof {
        let more = items.push(item@);
        assert(more.drop_last() =~= items);
        assert(final(record)@ =~= head + bulks(more));
    }
}

/// The record of `SET k v`.
pub fn emit_aof_set(k: &[u8], v: &[u8]) -> (record: Vec<u8>)
    ensures
        record@ == set_record(k@, v@),
{
    let word: [u8; 3] = ['S' as u8, 'E' as u8, 'T' as u8];
    assert(word@ =~= word_set());
    let mut record: Vec<u8> = Vec::new();
    write_record_head(3, word.as_slice(), &mut record);
    let ghost head = array_header(3);
    let ghost one = seq![word_set()];
    assert(record@ =~= head + bulks(one));
    write_item(k, &mut record, Ghost(head), Ghost(one));
    write_item(v, &mut record, Ghost(head), Ghost(one.push(k@)));
    assert(seq![word_set()].push(k@).push(v@) =~= seq![word_set(), k@, v@]);
    record
}

/// The record of `RENAME a b`.
pub fn emit_aof_rename(a: &[u8], b: &[u8]) -> (record: Vec<u8>)
    ensures
        record@ == rename_record(a@, b@),
{
    let word: [u8; 6] = ['R' as u8, 'E' as u8, 'N' as u8, 'A' as u8, 'M' as u8, 'E' as u8];
    assert(word@ =~= word_rename());
    let mut record: Vec<u8> = Vec::new();
    write_record_head(3, word.as_slice(), &mut record);
    let ghost head = array_header(3);
    let ghost one = seq![word_rename()];
    assert(record@ =~= head + bulks(one));
    write_item(a, &mut record, Ghost(head), Ghost(one));
    write_item(b, &mut record, Ghost(head), Ghost(one.push(a@)));
    assert(seq![word_rename()].push(a@).push(b@) =~= seq![word_rename(), a@, b@]);
    record
}

/// The record of `INCR k`.
pub fn emit_aof_incr(k: &[u8]) -> (record: Vec<u8>)
    ensures
        record@ == incr_record(k@),
{
    let word: [u8; 4] = ['I' as u8, 'N' as u8, 'C' as u8, 'R' as u8];
    assert(word@ =~= word_incr());
    let mut record: Vec<u8> = Vec::new();
    write_record_head(2, word.as_slice(), &mut record);
    let ghost head = array_header(2);
    let ghost one = seq![word_incr()];
    assert(record@ =~= head + bulks(one));
    write_item(k, &mut record, Ghost(head), Ghost(one));
    assert(seq![word_incr()].push(k@) =~= seq![word_incr(), k@]);
    record
}

/// The record of `MSET` with the given pairs.
pub fn emit_aof_mset(pairs: &[(Vec<u8>, Vec<u8>)]) -> (record: Vec<u8>)
    ensures
        record@ == mset_record(byte_pairs(pairs@)),
{
    let word: [u8; 4] = ['M' as u8, 'S' as u8, 'E' as u8, 'T' as u8];
    assert(word@ =~= word_mset());
    let mut record: Vec<u8> = Vec::new();
    let count: u128 = 1 + 2 * (pairs.len() as u128);
    write_record_head(count, word.as_slice(), &mut record);
    let ghost all = seq![word_mset()] + flat(byte_pairs(pairs@));
    let ghost head = array_header(count as nat);
    let mut i: usize = 0;
    proof {
        assert(all.take(1) =~= seq![word_mset()]);
        assert(record@ =~= head + bulks(all.take(1)));
    }
    while i < pairs.len()
        invariant
            i <= pairs@.len(),
            all == seq![word_mset()] + flat(byte_pairs(pairs@)),
            all.len() == 1 + 2 * pairs@.len(),
            record@ == head + bulks(all.take(1 + 2 * i)),
        decreases pairs@.len() - i,
    {
        write_item(pairs[i].0.as_slice(), &mut record, Ghost(head), Ghost(all.take(1 + 2 * i)));
        proof {
            assert(all[1 + 2 * i] == flat(byte_pairs(pairs@))[2 * i]);
            assert(all.take(1 + 2 * i).push(pairs@[i as int].0@) =~= all.take(2 + 2 * i));
        }
        write_item(pairs[i].1.as_slice(), &mut record, Ghost(head), Ghost(all.take(2 + 2 * i)));
        proof {
            assert(all[2 + 2 * i] == flat(byte_pairs(pairs@))[2 * i + 1]);
            assert(all.take(2 + 2 * i).push(pairs@[i as int].1@) =~= all.take(3 + 2 * i));
        }
        i = i + 1;
    }
    assert(all.take(all.len() as int) =~= all);
    record
}

/// The queue of records on their way to the log writer, oldest first.
pub struct AofHandle {
    pending: Vec<Vec<u8>>,
}

impl View for AofHandle {
    type V = Seq<Seq<u8>>;

    closed spec fn view(&self) -> Seq<Seq<u8>> {
        byte_strings(self.pending@)
    }
}

impl AofHandle {
    /// A handle with no record queued.
    pub fn new() -> (handle: AofHandle)
        ensures
            handle@ == Seq::<Seq<u8>>::empty(),
    {
        let handle = AofHandle { pending: Vec::new() };
        assert(handle@ =~= Seq::<Seq<u8>>::empty());
        handle
    }

    /// Queues a copy of the record `bytes` behind those queued before.
    pub fn write(&mut self, bytes: &[u8])
        ensures
            final(self)@ == old(self)@.push(bytes@),
    {
        self.pending.push(slice_to_vec(bytes));
        assert(final(self)@ =~= old(self)@.push(bytes@));
    }

    /// Takes the queued records off the handle, oldest first, for the
    /// writer to append them to the log.
    pub fn take_pending(&mut self) -> (records: Vec<Vec<u8>>)
        ensures
            byte_strings(records@) == old(self)@,
            final(self)@ == Seq::<Seq<u8>>::empty(),
    {
        let mut records: Vec<Vec<u8>> = Vec::new();
        std::mem::swap(&mut records, &mut self.pending);
        assert(final(self)@ =~= Seq::<Seq<u8>>::empty());
        records
    }
}

/// The pairs of a row of keys and values are the pairs it was made of.
pub proof fn lemma_pairs_of_flat(pairs: Seq<(Seq<u8>, Seq<u8>)>)
    ensures
        pairs_of(flat(pairs)) == pairs,
{
    assert(pairs_of(flat(pairs)) =~= pairs);
}

/// Whether the keys and values of `pairs` can be sent in one frame behind
/// a command name: there is one pair at least, and their number and the
/// length of each key and value fit the decimal fields of the protocol.
pub open spec fn pairs_sendable(pairs: Seq<(Seq<u8>, Seq<u8>)>) -> bool {
    &&& 1 <= pairs.len()
    &&& 1 + 2 * pairs.len() <= i64::MAX
    &&& forall|i: int|
        0 <= i < pairs.len() ==> (#[trigger] pairs[i]).0.len() <= i64::MAX && pairs[i].1.len()
            <= i64::MAX
}

/// Pairs that can be sent make items that can be sent.
proof fn lemma_flat_sendable(pairs: Seq<(Seq<u8>, Seq<u8>)>)
    requires
        pairs_sendable(pairs),
    ensures
        sendable(seq![word_mset()] + flat(pairs)),
{
    let items = seq![word_mset()] + flat(pairs);
    assert forall|i: int| 0 <= i < items.len() implies (#[trigger] items[i]).len()
        <= i64::MAX by {
        if i > 0 {
            let j = i - 1;
            let pair = pairs[j / 2];
            assert(pair.0.len() <= i64::MAX && pair.1.len() <= i64::MAX);
            assert(items[i] == flat(pairs)[j]);
        }
    }
}

/// The log can be replayed: the record of `SET k v`, read as a client's
/// input, is that one command and nothing else.
pub proof fn lemma_set_record_decodes(k: Seq<u8>, v: Seq<u8>)
    requires
        k.len() <= i64::MAX,
        v.len() <= i64::MAX,
    ensures
        frames(set_record(k, v)) == (Decoded {
            cmds: seq![CmdView::SetKey(k, v)],
            rest: Seq::empty(),
            error: None,
        }),
{
    let items = seq![word_set(), k, v];
    lemma_spells_set(items);
    lemma_frames_of_request(items);
}

/// The record of `RENAME a b`, read as a client's input, is that one
/// command and nothing else.
pub proof fn lemma_rename_record_decodes(a: Seq<u8>, b: Seq<u8>)
    requires
        a.len() <= i64::MAX,
        b.len() <= i64::MAX,
    ensures
        frames(rename_record(a, b)) == (Decoded {
            cmds: seq![CmdView::Rename(a, b)],
            rest: Seq::empty(),
            error: None,
        }),
{
    let items = seq![word_rename(), a, b];
    lemma_spells_rename(items);
    lemma_frames_of_request(items);
}

/// The record of `INCR k`, read as a client's input, is that one command
/// and nothing else.
pub proof fn lemma_incr_record_decodes(k: Seq<u8>)
    requires
        k.len() <= i64::MAX,
    ensures
        frames(incr_record(k)) == (Decoded {
            cmds: seq![CmdView::Incr(k)],
            rest: Seq::empty(),
            error: None,
        }),
{
    let items = seq![word_incr(), k];
    lemma_spells_incr(items);
    lemma_frames_of_request(items);
}

/// The record of `MSET` with one pair or more, read as a client's input, is
/// that one command and nothing else.
pub proof fn lemma_mset_record_decodes(pairs: Seq<(Seq<u8>, Seq<u8>)>)
    requires
        pairs_sendable(pairs),
    ensures
        frames(mset_record(pairs)) == (Decoded {
            cmds: seq![CmdView::MSet(pairs)],
            rest: Seq::empty(),
            error: None,
        }),
{
    let items = seq![word_mset()] + flat(pairs);
    assert(items.skip(1) =~= flat(pairs));
    lemma_pairs_of_flat(pairs);
    lemma_spells_mset(items);
    lemma_flat_sendable(pairs);
    lemma_frames_of_request(items);
}

} // verus!
