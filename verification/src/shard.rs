//! The command executor: one command against the keyspace gives the new
//! keyspace, the reply, and the durability record of the mutation.

use crate::aof::{
    emit_aof_incr, emit_aof_mset, emit_aof_rename, emit_aof_set, incr_record, mset_record,
    rename_record, set_record, AofHandle,
};
use crate::decimal::{format_i64, int_digits, lemma_int_digits_len, parse_i64, signed_value};
use crate::protocol::{
    array_header, bulk_reply, byte_pairs, byte_strings, error_reply, integer_reply, null_reply,
    simple_reply, write_array_len, write_bulk, write_error_bytes, write_integer, write_null,
    write_simple_bytes, cmd_views, Cmd, CmdView, Value, ValueView,
};
use crate::storage::{bytes_equal, counted, no_entries, renamed, Dict};
use vstd::prelude::*;

verus! {

/// The text of the reply to a command that succeeded: `OK`.
pub open spec fn text_ok() -> Seq<u8> {
    seq!['O' as u8, 'K' as u8]
}

/// The text of the reply to `PING`: `PONG`.
pub open spec fn text_pong() -> Seq<u8> {
    seq!['P' as u8, 'O' as u8, 'N' as u8, 'G' as u8]
}

/// The text of the reply to a `RENAME` of a key that has no value:
/// `ERR no such key`.
pub open spec fn text_no_such_key() -> Seq<u8> {
    seq![
        'E' as u8,
        'R' as u8,
        'R' as u8,
        ' ' as u8,
        'n' as u8,
        'o' as u8,
        ' ' as u8,
        's' as u8,
        'u' as u8,
        'c' as u8,
        'h' as u8,
        ' ' as u8,
        'k' as u8,
        'e' as u8,
        'y' as u8,
    ]
}

/// The form in which `SET` stores the payload `v`: the integer, where `v`
/// is the decimal text of an `i64` exactly as the server would write it;
/// the text itself otherwise.
pub open spec fn stored_form(v: Seq<u8>) -> ValueView {
    match signed_value(v) {
        Some(i) => if int_digits(i) == v {
            ValueView::Int(i as i64)
        } else {
            ValueView::Str(v)
        },
        None => ValueView::Str(v),
    }
}

/// The bulk string that `GET` and `MGET` send for a value: the bytes of a
/// text or a blob, the decimal text of an integer.
pub open spec fn bulk_of(v: ValueView) -> Seq<u8> {
    match v {
        ValueView::Str(b) => bulk_reply(b),
        ValueView::Blob(b) => bulk_reply(b),
        ValueView::Int(i) => bulk_reply(int_digits(i as int)),
    }
}

/// What `GET` sends for the key `k`: its value as a bulk string, or the
/// null bulk string where it has none.
pub open spec fn value_reply(store: Map<Seq<u8>, ValueView>, k: Seq<u8>) -> Seq<u8> {
    if store.contains_key(k) {
        bulk_of(store[k])
    } else {
        null_reply()
    }
}

/// What `MGET` sends behind the array header: for each key in turn, what
/// `GET` sends for it.
pub open spec fn values_reply(store: Map<Seq<u8>, ValueView>, keys: Seq<Seq<u8>>) -> Seq<u8>
    decreases keys.len(),
{
    if keys.len() == 0 {
        Seq::empty()
    } else {
        values_reply(store, keys.drop_last()) + value_reply(store, keys.last())
    }
}

/// The keyspace after `SET` of each pair in turn, first to last.
pub open spec fn set_all(store: Map<Seq<u8>, ValueView>, pairs: Seq<(Seq<u8>, Seq<u8>)>) -> Map<
    Seq<u8>,
    ValueView,
>
    decreases pairs.len(),
{
    if pairs.len() == 0 {
        store
    } else {
        set_all(store, pairs.drop_last()).insert(pairs.last().0, stored_form(pairs.last().1))
    }
}

/// What a command does: the keyspace after it, the reply, and the
/// durability records of its mutation, which are queued where the shard
/// keeps a log.
pub struct Outcome {
    pub store: Map<Seq<u8>, ValueView>,
    pub reply: Seq<u8>,
    pub records: Seq<Seq<u8>>,
}

/// What the command `cmd` does on the keyspace `store`.
pub open spec fn executed(store: Map<Seq<u8>, ValueView>, cmd: CmdView) -> Outcome {
    match cmd {
        CmdView::Ping => Outcome { store, reply: simple_reply(text_pong()), records: seq![] },
        CmdView::Get(k) => Outcome { store, reply: value_reply(store, k), records: seq![] },
        CmdView::SetKey(k, v) => Outcome {
            store: store.insert(k, stored_form(v)),
            reply: simple_reply(text_ok()),
            records: seq![set_record(k, v)],
        },
        CmdView::Del(k) => Outcome {
            store: store.remove(k),
            reply: integer_reply(
                if store.contains_key(k) {
                    1
                } else {
                    0
                },
            ),
            records: seq![],
        },
        CmdView::Rename(from, to) => Outcome {
            store: renamed(store, from, to).0,
            reply: if renamed(store, from, to).1 {
                simple_reply(text_ok())
            } else {
                error_reply(text_no_such_key())
            },
            records: if from != to && store.contains_key(from) {
                seq![rename_record(from, to)]
            } else {
                seq![]
            },
        },
        CmdView::Exists(k) => Outcome {
            store,
            reply: integer_reply(
                if store.contains_key(k) {
                    1
                } else {
                    0
                },
            ),
            records: seq![],
        },
        CmdView::Incr(k) => Outcome {
            store: counted(store, k).0,
            reply: integer_reply(counted(store, k).1 as int),
            records: seq![incr_record(k)],
        },
        CmdView::MGet(keys) => Outcome {
            store,
            reply: array_header(keys.len()) + values_reply(store, keys),
            records: seq![],
        },
        CmdView::MSet(pairs) => Outcome {
            store: set_all(store, pairs),
            reply: simple_reply(text_ok()),
            records: seq![mset_record(pairs)],
        },
    }
}

/// What the commands `cmds` do on the keyspace `store`, one after the other:
/// the keyspace after the last, the replies in the order of the commands,
/// and the records in the same order.
pub open spec fn executed_all(store: Map<Seq<u8>, ValueView>, cmds: Seq<CmdView>) -> Outcome
    decreases cmds.len(),
{
    if cmds.len() == 0 {
        Outcome { store, reply: Seq::empty(), records: Seq::empty() }
    } else {
        let before = executed_all(store, cmds.drop_last());
        let last = executed(before.store, cmds.last());
        Outcome {
            store: last.store,
            reply: before.reply + last.reply,
            records: before.records + last.records,
        }
    }
}

/// The log after `records` were queued: they stand behind what was queued
/// before, where there is a log at all.
pub open spec fn logged(log: Option<Seq<Seq<u8>>>, records: Seq<Seq<u8>>) -> Option<
    Seq<Seq<u8>>,
> {
    match log {
        Some(queued) => Some(queued + records),
        None => None,
    }
}

/// Queueing no record leaves the log as it is.
pub proof fn lemma_logged_nothing(log: Option<Seq<Seq<u8>>>)
    ensures
        logged(log, seq![]) == log,
{
    if let Some(queued) = log {
        assert(queued + Seq::<Seq<u8>>::empty() =~= queued);
    }
}

/// Only a payload of 1 to 20 bytes is stored as an integer.
pub proof fn lemma_stored_integers_are_short(v: Seq<u8>)
    ensures
        stored_form(v) is Int ==> 1 <= v.len() <= 20,
        stored_form(v) is Int ==> signed_value(v) == Some(stored_form(v)->Int_0 as int),
        !(stored_form(v) is Int) ==> stored_form(v) == ValueView::Str(v),
{
    if let Some(i) = signed_value(v) {
        lemma_int_digits_len(i);
    }
}

/// The value that `SET` stores for the payload `v`.
pub fn store_value(v: Vec<u8>) -> (stored: Value)
    ensures
        stored@ == stored_form(v@),
{
    if v.len() == 0 || v.len() > 20 {
        proof {
            lemma_stored_integers_are_short(v@);
        }
        return Value::Str(v);
    }
    match parse_i64(v.as_slice()) {
        Some(i) => {
            let text = format_i64(i);
            if bytes_equal(text.as_slice(), v.as_slice()) {
                Value::Int(i)
            } else {
                Value::Str(v)
            }
        },
        None => Value::Str(v),
    }
}

/// An execution unit: a keyspace, and the log handle where mutations are
/// made durable.
pub struct Shard {
    /// The number of the shard.
    pub id: usize,
    /// The keyspace.
    pub dict: Dict,
    /// The handle of the durability log, where the shard keeps one.
    pub aof: Option<AofHandle>,
}

impl Shard {
    /// The records queued for the log, or `None` where the shard keeps no
    /// log.
    pub open spec fn log(&self) -> Option<Seq<Seq<u8>>> {
        match self.aof {
            Some(handle) => Some(handle@),
            None => None,
        }
    }

    /// A shard with the number `id`, an empty keyspace and the log handle
    /// `aof`.
    pub fn new(id: usize, aof: Option<AofHandle>) -> (shard: Shard)
        ensures
            shard.id == id,
            shard.dict@ == no_entries(),
            shard.aof == aof,
    {
        Shard { id, dict: Dict::default(), aof }
    }

    /// Queues `record` for the log, where the shard keeps one.
    fn log_record(&mut self, record: Vec<u8>)
        ensures
            final(self).id == old(self).id,
            final(self).dict == old(self).dict,
            final(self).log() == logged(old(self).log(), seq![record@]),
    {
        match &mut self.aof {
            Some(handle) => {
                handle.write(record.as_slice());
            },
            None => {},
        }
    }

    /// Appends to `out` what `GET` sends for the key `k`.
    fn write_value(&self, k: &[u8], out: &mut Vec<u8>)
        ensures
            final(out)@ == old(out)@ + value_reply(self.dict@, k@),
    {
        match self.dict.get(k) {
            Some(Value::Str(v)) => write_bulk(v.as_slice(), out),
            Some(Value::Blob(v)) => write_bulk(v.as_slice(), out),
            Some(Value::Int(i)) => {
                let text = format_i64(i);
                write_bulk(text.as_slice(), out)
            },
            None => write_null(out),
        }
    }

    /// Executes the commands of `cmds` in order, each on the keyspace that
    /// the one before it left, and appends their replies to `out` in the
    /// same order.
    pub fn exec_all(&mut self, cmds: Vec<Cmd>, out: &mut Vec<u8>)
        ensures
            final(self).id == old(self).id,
            final(self).dict@ == executed_all(old(self).dict@, cmd_views(cmds@)).store,
            final(out)@ == old(out)@ + executed_all(old(self).dict@, cmd_views(cmds@)).reply,
            final(self).log() == logged(
                old(self).log(),
                executed_all(old(self).dict@, cmd_views(cmds@)).records,
            ),
    {
        let ghost all = cmd_views(cmds@);
        let ghost before = old(self).dict@;
        proof {
            assert(all.take(0) =~= Seq::<CmdView>::empty());
            assert(out@ =~= old(out)@ + executed_all(before, all.take(0)).reply);
            lemma_logged_nothing(old(self).log());
        }
        for cmd in it: cmds
            invariant
                all == cmd_views(cmds@),
                self.id == old(self).id,
                self.dict@ == executed_all(before, all.take(it.index() as int)).store,
                out@ == old(out)@ + executed_all(before, all.take(it.index() as int)).reply,
                self.log() == logged(
                    old(self).log(),
                    executed_all(before, all.take(it.index() as int)).records,
                ),
        {
            proof {
                let done = all.take(it.index() as int);
                let next = all.take(it.index() + 1);
                assert(next.drop_last() =~= done);
                assert(next.last() == cmd@);
                let so_far = executed_all(before, done);
                let step = executed(so_far.store, cmd@);
                assert(old(out)@ + so_far.reply + step.reply =~= old(out)@ + (so_far.reply
                    + step.reply));
                if let Some(queued) = old(self).log() {
                    assert(queued + so_far.records + step.records =~= queued + (so_far.records
                        + step.records));
                }
            }
            self.exec(cmd, out);
        }
        proof {
            assert(all.take(all.len() as int) =~= all);
        }
    }

    /// Executes `cmd`: changes the keyspace, queues the durability record of
    /// the mutation where the shard keeps a log, and appends the reply to
    /// `out`.
    pub fn exec(&mut self, cmd: Cmd, out: &mut Vec<u8>)
        ensures
            final(self).id == old(self).id,
            final(self).dict@ == executed(old(self).dict@, cmd@).store,
            final(out)@ == old(out)@ + executed(old(self).dict@, cmd@).reply,
            final(self).log() == logged(old(self).log(), executed(old(self).dict@, cmd@).records),
    {
        let ok: [u8; 2] = ['O' as u8, 'K' as u8];
        assert(ok@ =~= text_ok());
        match cmd {
            Cmd::Ping => {
                let pong: [u8; 4] = ['P' as u8, 'O' as u8, 'N' as u8, 'G' as u8];
                assert(pong@ =~= text_pong());
                write_simple_bytes(pong.as_slice(), out);
                proof {
                    lemma_logged_nothing(old(self).log());
                }
            },
            Cmd::Get(k) => {
                self.write_value(k.as_slice(), out);
                proof {
                    lemma_logged_nothing(old(self).log());
                }
            },
            Cmd::SetKey(k, v) => {
                if self.aof.is_some() {
                    self.log_record(emit_aof_set(k.as_slice(), v.as_slice()));
                }
                self.dict.set(k, store_value(v));
                write_simple_bytes(ok.as_slice(), out);
            },
            Cmd::Del(k) => {
                let removed = self.dict.del(k.as_slice());
                write_integer(
                    if removed {
                        1
                    } else {
                        0
                    },
                    out,
                );
                proof {
                    lemma_logged_nothing(old(self).log());
                }
            },
            Cmd::Rename(from, to) => {
                if bytes_equal(from.as_slice(), to.as_slice()) {
                    write_simple_bytes(ok.as_slice(), out);
                    proof {
                        lemma_logged_nothing(old(self).log());
                    }
                } else {
                    let record = if self.aof.is_some() {
                        Some(emit_aof_rename(from.as_slice(), to.as_slice()))
                    } else {
                        None
                    };
                    if self.dict.rename(from, to) {
                        match record {
                            Some(bytes) => self.log_record(bytes),
                            None => {},
                        }
                        write_simple_bytes(ok.as_slice(), out);
                    } else {
                        let missing: [u8; 15] = [
                            'E' as u8,
                            'R' as u8,
                            'R' as u8,
                            ' ' as u8,
                            'n' as u8,
                            'o' as u8,
                            ' ' as u8,
                            's' as u8,
                            'u' as u8,
                            'c' as u8,
                            'h' as u8,
                            ' ' as u8,
                            'k' as u8,
                            'e' as u8,
                            'y' as u8,
                        ];
                        assert(missing@ =~= text_no_such_key());
                        write_error_bytes(missing.as_slice(), out);
                        proof {
                            lemma_logged_nothing(old(self).log());
                        }
                    }
                }
            },
            Cmd::Exists(k) => {
                let found = self.dict.contains_key(k.as_slice());
                write_integer(
                    if found {
                        1
                    } else {
                        0
                    },
                    out,
                );
                proof {
                    lemma_logged_nothing(old(self).log());
                }
            },
            Cmd::Incr(k) => {
                let n = self.dict.incr(k.as_slice());
                if self.aof.is_some() {
                    self.log_record(emit_aof_incr(k.as_slice()));
                }
                write_integer(n, out);
            },
            Cmd::MGet(keys) => {
                write_array_len(keys.len(), out);
                let ghost all = byte_strings(keys@);
                let ghost head = old(out)@ + array_header(keys@.len());
                let mut i: usize = 0;
                proof {
                    assert(all.take(0) =~= Seq::<Seq<u8>>::empty());
                    assert(out@ =~= head + values_reply(self.dict@, all.take(0)));
                }
                while i < keys.len()
                    invariant
                        i <= keys@.len(),
                        all == byte_strings(keys@),
                        out@ == head + values_reply(self.dict@, all.take(i as int)),
                    decreases keys@.len() - i,
                {
                    self.write_value(keys[i].as_slice(), out);
                    proof {
                        let next = all.take(i + 1);
                        assert(next.drop_last() =~= all.take(i as int));
                        assert(next.last() == keys@[i as int]@);
                        assert(out@ =~= head + values_reply(self.dict@, next));
                    }
                    i = i + 1;
                }
                proof {
                    assert(all.take(i as int) =~= all);
                    assert(out@ =~= old(out)@ + (array_header(keys@.len()) + values_reply(
                        self.dict@,
                        all,
                    )));
                    lemma_logged_nothing(old(self).log());
                }
            },
            Cmd::MSet(pairs) => {
                if self.aof.is_some() {
                    self.log_record(emit_aof_mset(pairs.as_slice()));
                }
                let ghost all = byte_pairs(pairs@);
                let ghost before = old(self).dict@;
                proof {
                    assert(all.take(0) =~= Seq::<(Seq<u8>, Seq<u8>)>::empty());
                }
                for pair in it: pairs
                    invariant
                        all == byte_pairs(pairs@),
                        self.dict@ == set_all(before, all.take(it.index() as int)),
                        self.id == old(self).id,
                        self.log() == logged(old(self).log(), seq![mset_record(all)]),
                {
                    proof {
                        let next = all.take(it.index() + 1);
                        assert(next.drop_last() =~= all.take(it.index() as int));
                        assert(next.last() == (pair.0@, pair.1@));
                    }
                    let (k, v) = pair;
                    self.dict.set(k, store_value(v));
                }
                proof {
                    assert(all.take(all.len() as int) =~= all);
                }
                write_simple_bytes(ok.as_slice(), out);
            },
        }
    }
}

/// Reading back what was written: after `SET k v`, `GET k` sends `v` as a
/// bulk string, whatever `v` is and in whichever form it was stored.
pub proof fn lemma_set_then_get(store: Map<Seq<u8>, ValueView>, k: Seq<u8>, v: Seq<u8>)
    ensures
        executed(store, CmdView::SetKey(k, v)).reply == simple_reply(text_ok()),
        executed(executed(store, CmdView::SetKey(k, v)).store, CmdView::Get(k)).reply
            == bulk_reply(v),
{
}

/// A deleted key is absent: where `k` has a value, `DEL k` sends 1, and
/// after it `GET k` sends the null bulk string and `EXISTS k` sends 0.
pub proof fn lemma_del_then_absent(store: Map<Seq<u8>, ValueView>, k: Seq<u8>)
    requires
        store.contains_key(k),
    ensures
        executed(store, CmdView::Del(k)).reply == integer_reply(1),
        executed(executed(store, CmdView::Del(k)).store, CmdView::Get(k)).reply == null_reply(),
        executed(executed(store, CmdView::Del(k)).store, CmdView::Exists(k)).reply
            == integer_reply(0),
{
}

/// The commands that `n` clients' `INCR k` amount to, in whatever order
/// they reach the shard: `INCR k`, `n` times.
pub open spec fn incr_times(k: Seq<u8>, n: nat) -> Seq<CmdView> {
    Seq::new(n, |i: int| CmdView::Incr(k))
}

/// Counting from nothing: `INCR k` on a key without a value sends 1, and
/// after it `GET k` sends the bulk string `1`.
pub proof fn lemma_incr_seed(store: Map<Seq<u8>, ValueView>, k: Seq<u8>)
    requires
        !store.contains_key(k),
    ensures
        executed(store, CmdView::Incr(k)).reply == integer_reply(1),
        executed(executed(store, CmdView::Incr(k)).store, CmdView::Get(k)).reply == bulk_reply(
            seq!['1' as u8],
        ),
{
    assert(int_digits(1) =~= seq!['1' as u8]);
}

/// No count is lost: after `n` commands `INCR k` on a key without a value,
/// the key holds the integer `n`, the last of them was answered with `n`,
/// and `GET k` sends the decimal text of `n`. The shard executes one command
/// at a time, so this holds of the commands of any number of clients.
pub proof fn lemma_incr_counts(store: Map<Seq<u8>, ValueView>, k: Seq<u8>, n: nat)
    requires
        !store.contains_key(k),
        1 <= n <= i64::MAX,
    ensures
        executed_all(store, incr_times(k, n)).store == store.insert(k, ValueView::Int(n as i64)),
        executed(
            executed_all(store, incr_times(k, (n - 1) as nat)).store,
            CmdView::Incr(k),
        ).reply == integer_reply(n as int),
        executed(executed_all(store, incr_times(k, n)).store, CmdView::Get(k)).reply
            == bulk_reply(int_digits(n as int)),
    decreases n,
{
    let cmds = incr_times(k, n);
    assert(cmds.drop_last() =~= incr_times(k, (n - 1) as nat));
    assert(cmds.last() == CmdView::Incr(k));
    if n == 1 {
        assert(executed_all(store, incr_times(k, 0)).store == store);
    } else {
        lemma_incr_counts(store, k, (n - 1) as nat);
        let before = store.insert(k, ValueView::Int((n - 1) as i64));
        assert(before.insert(k, ValueView::Int(n as i64)) =~= store.insert(
            k,
            ValueView::Int(n as i64),
        ));
    }
}

/// Commands in a row: executing `first` and then `second` is executing the
/// two in one batch. The replies come in the order of the commands, each as
/// it would be had the command been sent alone.
pub proof fn lemma_executed_all_concat(
    store: Map<Seq<u8>, ValueView>,
    first: Seq<CmdView>,
    second: Seq<CmdView>,
)
    ensures
        executed_all(store, first + second).store == executed_all(
            executed_all(store, first).store,
            second,
        ).store,
        executed_all(store, first + second).reply == executed_all(store, first).reply
            + executed_all(executed_all(store, first).store, second).reply,
        executed_all(store, first + second).records == executed_all(store, first).records
            + executed_all(executed_all(store, first).store, second).records,
    decreases second.len(),
{
    let a = executed_all(store, first);
    if second.len() == 0 {
        assert(first + second =~= first);
        assert(a.reply + Seq::<u8>::empty() =~= a.reply);
        assert(a.records + Seq::<Seq<u8>>::empty() =~= a.records);
    } else {
        lemma_executed_all_concat(store, first, second.drop_last());
        assert((first + second).drop_last() =~= first + second.drop_last());
        assert((first + second).last() == second.last());
        let b = executed_all(a.store, second.drop_last());
        let c = executed(b.store, second.last());
        assert(a.reply + b.reply + c.reply =~= a.reply + (b.reply + c.reply));
        assert(a.records + b.records + c.records =~= a.records + (b.records + c.records));
    }
}

/// One command alone is a batch of one.
pub proof fn lemma_executed_all_one(store: Map<Seq<u8>, ValueView>, cmd: CmdView)
    ensures
        executed_all(store, seq![cmd]).store == executed(store, cmd).store,
        executed_all(store, seq![cmd]).reply == executed(store, cmd).reply,
        executed_all(store, seq![cmd]).records == executed(store, cmd).records,
{
    let one = seq![cmd];
    assert(one.drop_last() =~= Seq::<CmdView>::empty());
    let nothing = executed_all(store, one.drop_last());
    assert(nothing.reply + executed(store, cmd).reply =~= executed(store, cmd).reply);
    assert(nothing.records + executed(store, cmd).records =~= executed(store, cmd).records);
}

/// A renamed value moves: after `SET a x` and `RENAME a b` with two
/// different keys, the rename was answered with `OK`, `GET a` sends the null
/// bulk string and `GET b` sends `x`.
pub proof fn lemma_rename_moves(
    store: Map<Seq<u8>, ValueView>,
    a: Seq<u8>,
    b: Seq<u8>,
    x: Seq<u8>,
)
    requires
        a != b,
    ensures
        ({
            let written = executed(store, CmdView::SetKey(a, x)).store;
            let moved = executed(written, CmdView::Rename(a, b));
            &&& moved.reply == simple_reply(text_ok())
            &&& executed(moved.store, CmdView::Get(a)).reply == null_reply()
            &&& executed(moved.store, CmdView::Get(b)).reply == bulk_reply(x)
        }),
{
}

/// Renaming a key to itself is answered with `OK` and changes nothing,
/// whether the key has a value or not.
pub proof fn lemma_rename_to_itself(store: Map<Seq<u8>, ValueView>, a: Seq<u8>)
    ensures
        executed(store, CmdView::Rename(a, a)).reply == simple_reply(text_ok()),
        executed(store, CmdView::Rename(a, a)).store == store,
        executed(store, CmdView::Rename(a, a)).records == Seq::<Seq<u8>>::empty(),
{
}

/// Renaming a key without a value to another key is answered with the error
/// `ERR no such key` and changes nothing.
pub proof fn lemma_rename_missing(store: Map<Seq<u8>, ValueView>, a: Seq<u8>, b: Seq<u8>)
    requires
        a != b,
        !store.contains_key(a),
    ensures
        executed(store, CmdView::Rename(a, b)).reply == error_reply(text_no_such_key()),
        executed(store, CmdView::Rename(a, b)).store == store,
        executed(store, CmdView::Rename(a, b)).records == Seq::<Seq<u8>>::empty(),
{
}

} // verus!
