//! The keyspace: one value at most under each key, held in a
//! `dashmap::DashMap`.

use crate::decimal::{format_i64, int_digits, parse_i64, signed_value};
use crate::protocol::{Value, ValueView};
use dashmap::DashMap;
use vstd::prelude::*;
use vstd::slice::slice_to_vec;

verus! {

/// `dashmap::DashMap`, a concurrent hash map. Nothing of its inside is known
/// here; what it holds is spoken of through `map_entries`.
#[verifier::external_type_specification]
#[verifier::external_body]
#[verifier::reject_recursive_types(K)]
#[verifier::reject_recursive_types(V)]
#[verifier::reject_recursive_types(S)]
pub struct ExDashMap<K, V, S>(DashMap<K, V, S>);

/// What a map holds: the bytes of each key, with the value stored under it.
pub uninterp spec fn map_entries(m: DashMap<Vec<u8>, Value>) -> Map<Seq<u8>, ValueView>;

/// The keyspace that holds nothing.
pub open spec fn no_entries() -> Map<Seq<u8>, ValueView> {
    Map::empty()
}

/// `DashMap::new`: a map that holds nothing.
#[verifier::external_body]
fn map_new() -> (made: DashMap<Vec<u8>, Value>)
    ensures
        map_entries(made) == no_entries(),
{
    DashMap::new()
}

/// `DashMap::get`: a copy of the value under the key `k`, or `None` where
/// the map holds none.
#[verifier::external_body]
fn map_get(m: &DashMap<Vec<u8>, Value>, k: &[u8]) -> (found: Option<Value>)
    ensures
        match found {
            Some(v) => map_entries(*m).contains_key(k@) && map_entries(*m)[k@] == v@,
            None => !map_entries(*m).contains_key(k@),
        },
{
    match m.get(k) {
        Some(entry) => Some(entry.value().clone()),
        None => None,
    }
}

/// `DashMap::contains_key`: whether the map holds a value under `k`.
#[verifier::external_body]
fn map_contains(m: &DashMap<Vec<u8>, Value>, k: &[u8]) -> (found: bool)
    ensures
        found == map_entries(*m).contains_key(k@),
{
    m.contains_key(k)
}

/// `DashMap::insert`: afterwards the map holds `v` under `k`, in place of
/// what it held there, and everything else as before. The map is taken
/// `&mut`, so that no other handle changes it meanwhile.
#[verifier::external_body]
fn map_insert(m: &mut DashMap<Vec<u8>, Value>, k: Vec<u8>, v: Value)
    ensures
        map_entries(*final(m)) == map_entries(*old(m)).insert(k@, v@),
{
    m.insert(k, v);
}

/// `DashMap::remove`: afterwards the map holds nothing under `k`, and
/// everything else as before; the value that it held there is returned. The
/// map is taken `&mut`, so that no other handle changes it meanwhile.
#[verifier::external_body]
fn map_remove(m: &mut DashMap<Vec<u8>, Value>, k: &[u8]) -> (removed: Option<Value>)
    ensures
        map_entries(*final(m)) == map_entries(*old(m)).remove(k@),
        match removed {
            Some(v) => map_entries(*old(m)).contains_key(k@) && map_entries(*old(m))[k@] == v@,
            None => !map_entries(*old(m)).contains_key(k@),
        },
{
    match m.remove(k) {
        Some(pair) => Some(pair.1),
        None => None,
    }
}

/// The number that a stored text counts as: the integer it spells, or 0
/// where it spells none.
pub open spec fn text_number(s: Seq<u8>) -> i64 {
    match signed_value(s) {
        Some(v) => v as i64,
        None => 0,
    }
}

/// The number after `i`; the number after the greatest `i64` is the least.
pub open spec fn next_number(i: i64) -> i64 {
    if i == i64::MAX {
        i64::MIN
    } else {
        (i + 1) as i64
    }
}

/// The keyspace after counting up the number under `k`, and the new number.
/// An absent key starts at 1. An integer and a text are counted up, each in
/// its own form. A blob is left as it is, with the result 0.
pub open spec fn counted(m: Map<Seq<u8>, ValueView>, k: Seq<u8>) -> (Map<Seq<u8>, ValueView>, i64) {
    if !m.contains_key(k) {
        (m.insert(k, ValueView::Int(1)), 1)
    } else {
        match m[k] {
            ValueView::Int(i) => (m.insert(k, ValueView::Int(next_number(i))), next_number(i)),
            ValueView::Str(s) => {
                let n = next_number(text_number(s));
                (m.insert(k, ValueView::Str(int_digits(n as int))), n)
            },
            ValueView::Blob(_) => (m, 0),
        }
    }
}

/// The keyspace after moving the value of `from` to `to`, and whether the
/// move succeeded. Moving a key to itself succeeds and changes nothing;
/// otherwise the move needs a value under `from`, and replaces what `to`
/// held.
pub open spec fn renamed(m: Map<Seq<u8>, ValueView>, from: Seq<u8>, to: Seq<u8>) -> (
    Map<Seq<u8>, ValueView>,
    bool,
) {
    if from == to {
        (m, true)
    } else if m.contains_key(from) {
        (m.remove(from).insert(to, m[from]), true)
    } else {
        (m, false)
    }
}

/// Whether `a` and `b` hold the same bytes.
pub fn bytes_equal(a: &[u8], b: &[u8]) -> (same: bool)
    ensures
        same == (a@ == b@),
{
    if a.len() != b.len() {
        return false;
    }
    let mut i: usize = 0;
    while i < a.len()
        invariant
            i <= a@.len(),
            a@.len() == b@.len(),
            forall|j: int| 0 <= j < i ==> a@[j] == b@[j],
        decreases a@.len() - i,
    {
        if a[i] != b[i] {
            return false;
        }
        i = i + 1;
    }
    assert(a@ =~= b@);
    true
}

/// The in-memory dictionary: every key's value.
pub struct Dict {
    inner: DashMap<Vec<u8>, Value>,
}

impl View for Dict {
    type V = Map<Seq<u8>, ValueView>;

    closed spec fn view(&self) -> Map<Seq<u8>, ValueView> {
        map_entries(self.inner)
    }
}

impl Default for Dict {
    /// A dictionary that holds nothing.
    fn default() -> (d: Dict)
        ensures
            d@ == no_entries(),
    {
        Dict { inner: map_new() }
    }
}

impl Dict {
    /// A copy of the value under `k`, or `None` where there is none.
    pub fn get(&self, k: &[u8]) -> (found: Option<Value>)
        ensures
            match found {
                Some(v) => self@.contains_key(k@) && self@[k@] == v@,
                None => !self@.contains_key(k@),
            },
    {
        map_get(&self.inner, k)
    }

    /// Puts `v` under `k`, in place of what was there.
    pub fn set(&mut self, k: Vec<u8>, v: Value)
        ensures
            final(self)@ == old(self)@.insert(k@, v@),
    {
        map_insert(&mut self.inner, k, v);
    }

    /// Removes the value under `k`. Returns whether there was one.
    pub fn del(&mut self, k: &[u8]) -> (removed: bool)
        ensures
            removed == old(self)@.contains_key(k@),
            final(self)@ == old(self)@.remove(k@),
    {
        map_remove(&mut self.inner, k).is_some()
    }

    /// Moves the value under `from` to `to`. Returns whether the move
    /// succeeded: it fails, and changes nothing, where `from` has no value
    /// and differs from `to`.
    pub fn rename(&mut self, from: Vec<u8>, to: Vec<u8>) -> (ok: bool)
        ensures
            final(self)@ == renamed(old(self)@, from@, to@).0,
            ok == renamed(old(self)@, from@, to@).1,
    {
        if bytes_equal(from.as_slice(), to.as_slice()) {
            return true;
        }
        match map_remove(&mut self.inner, from.as_slice()) {
            Some(v) => {
                map_insert(&mut self.inner, to, v);
                true
            },
            None => {
                assert(final(self)@ =~= old(self)@);
                false
            },
        }
    }

    /// Whether there is a value under `k`.
    pub fn contains_key(&self, k: &[u8]) -> (found: bool)
        ensures
            found == self@.contains_key(k@),
    {
        map_contains(&self.inner, k)
    }

    /// Counts up the number under `k` by one, in one step, and returns the
    /// new number.
    pub fn incr(&mut self, k: &[u8]) -> (n: i64)
        ensures
            final(self)@ == counted(old(self)@, k@).0,
            n == counted(old(self)@, k@).1,
    {
        match map_get(&self.inner, k) {
            None => {
                map_insert(&mut self.inner, slice_to_vec(k), Value::Int(1));
                1
            },
            Some(Value::Int(i)) => {
                let n = i.wrapping_add(1);
                map_insert(&mut self.inner, slice_to_vec(k), Value::Int(n));
                n
            },
            Some(Value::Str(s)) => {
                let read = match parse_i64(s.as_slice()) {
                    Some(v) => v,
                    None => 0,
                };
                let n = read.wrapping_add(1);
                map_insert(&mut self.inner, slice_to_vec(k), Value::Str(format_i64(n)));
                n
            },
            Some(Value::Blob(_)) => 0,
        }
    }
}

} // verus!
