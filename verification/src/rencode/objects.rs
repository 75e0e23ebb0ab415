use vstd::prelude::*;

use crate::rencode::model::{rval_entries_of, rval_of, rvals_of, RVal};

verus! {

/// A tagged integer value. The width tag is part of the value's identity:
/// an `I16` holding 3 is still encoded as a two-byte integer, never
/// collapsed into the embedded single-byte form.
#[derive(Clone, Copy, Debug, PartialEq, Eq)]
pub enum Int {
    I8(i8),
    I16(i16),
    I32(i32),
    I64(i64),
}

/// A tagged floating-point value, held as its IEEE-754 bit pattern so that
/// the exact wire bytes are part of the value's identity and a decoded
/// value re-encodes to the very same bytes.
#[derive(Clone, Copy, Debug, PartialEq, Eq)]
pub enum Float {
    F32(u32),
    F64(u64),
}

/// The in-memory value tree that every encode and decode call operates on.
///
/// A dict maps string keys to values; the keys are unique and nothing in
/// the wire format can express a non-string key. Text that is not valid
/// UTF-8 is represented as `Bytes`.
#[derive(Debug, PartialEq)]
pub enum Object {
    Dict(Vec<(String, Object)>),
    List(Vec<Object>),
    Bool(bool),
    Float(Float),
    Int(Int),
    Str(String),
    Bytes(Vec<u8>),
}

impl View for Object {
    type V = RVal;

    open spec fn view(&self) -> RVal {
        rval_of(*self)
    }
}

pub(crate) fn clone_bytes(b: &Vec<u8>) -> (r: Vec<u8>)
    ensures
        r@ == b@,
{
    let mut out: Vec<u8> = Vec::new();
    let mut i: usize = 0;
    while i < b.len()
        invariant
            i <= b@.len(),
            out@ == b@.take(i as int),
        decreases b@.len() - i,
    {
        out.push(b[i]);
        proof {
            assert(out@ =~= b@.take(i + 1));
        }
        i = i + 1;
    }
    proof {
        assert(b@.take(b@.len() as int) =~= b@);
    }
    out
}

pub proof fn lemma_rvals_len(s: Seq<Object>)
    ensures
        rvals_of(s).len() == s.len(),
    decreases s.len(),
{
    if s.len() > 0 {
        lemma_rvals_len(s.drop_first());
    }
}

pub proof fn lemma_rvals_index(s: Seq<Object>, i: int)
    requires
        0 <= i < s.len(),
    ensures
        rvals_of(s).len() == s.len(),
        rvals_of(s)[i] == rval_of(s[i]),
    decreases s.len(),
{
    lemma_rvals_len(s);
    if i > 0 {
        lemma_rvals_index(s.drop_first(), i - 1);
    }
}


pub proof fn lemma_rval_entries_len(s: Seq<(String, Object)>)
    ensures
        rval_entries_of(s).len() == s.len(),
    decreases s.len(),
{
    if s.len() > 0 {
        lemma_rval_entries_len(s.drop_first());
    }
}

pub proof fn lemma_rval_entries_index(s: Seq<(String, Object)>, i: int)
    requires
        0 <= i < s.len(),
    ensures
        rval_entries_of(s).len() == s.len(),
        rval_entries_of(s)[i] == (s[i].0@, rval_of(s[i].1)),
    decreases s.len(),
{
    lemma_rval_entries_len(s);
    if i > 0 {
        lemma_rval_entries_index(s.drop_first(), i - 1);
    }
}

pub proof fn lemma_rval_entries_push(s: Seq<(String, Object)>, e: (String, Object))
    ensures
        rval_entries_of(s.push(e)) == rval_entries_of(s).push((e.0@, rval_of(e.1))),
    decreases s.len(),
{
    lemma_rval_entries_len(s);
    if s.len() == 0 {
        assert(s.push(e)[0] == e);
        assert(s.push(e).drop_first() =~= s);
        assert(rval_entries_of(s.push(e)) =~= rval_entries_of(s).push((e.0@, rval_of(e.1))));
    } else {
        assert(s.push(e)[0] == s[0]);
        assert(s.push(e).drop_first() =~= s.drop_first().push(e));
        lemma_rval_entries_push(s.drop_first(), e);
        assert(rval_entries_of(s.push(e)) =~= rval_entries_of(s).push((e.0@, rval_of(e.1))));
    }
}

pub proof fn lemma_rval_entries_update(s: Seq<(String, Object)>, i: int, e: (String, Object))
    requires
        0 <= i < s.len(),
    ensures
        rval_entries_of(s.update(i, e)) == rval_entries_of(s).update(i, (e.0@, rval_of(e.1))),
    decreases s.len(),
{
    lemma_rval_entries_len(s);
    lemma_rval_entries_len(s.update(i, e));
    if i == 0 {
        assert(s.update(0, e)[0] == e);
        assert(s.update(0, e).drop_first() =~= s.drop_first());
        assert(rval_entries_of(s.update(0, e)) =~= rval_entries_of(s).update(0, (e.0@, rval_of(e.1))));
    } else {
        assert(s.update(i, e)[0] == s[0]);
        assert(s.update(i, e).drop_first() =~= s.drop_first().update(i - 1, e));
        lemma_rval_entries_update(s.drop_first(), i - 1, e);
        assert(rval_entries_of(s.update(i, e)) =~= rval_entries_of(s).update(i, (e.0@, rval_of(e.1))));
    }
}

} // verus!
