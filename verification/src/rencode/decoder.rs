use vstd::prelude::*;

use vstd::utf8::{decode_utf8, valid_utf8};

use crate::rencode::constants::{
    CHR_DICT, CHR_FALSE, CHR_FLOAT32, CHR_FLOAT64, CHR_INT, CHR_INT1, CHR_INT2, CHR_INT4,
    CHR_INT8, CHR_LIST, CHR_TERM, CHR_TRUE, DICT_FIXED_COUNT, DICT_FIXED_START,
    INT_NEG_FIXED_COUNT, INT_NEG_FIXED_START, INT_POS_FIXED_COUNT, INT_POS_FIXED_START,
    LIST_FIXED_START, STR_FIXED_COUNT, STR_FIXED_START,
};
use crate::rencode::model::{
    dec, dec_key, dec_num, dec_pairs_fixed, dec_pairs_sent, dec_str_raw, dec_strbytes,
    dec_elems_fixed, dec_elems_sent, f64_bits_of_decimal, find_byte, fold_put, has_key,
    lemma_dec_consumes, lemma_dec_elems_fixed_consumes, lemma_dec_elems_sent_consumes,
    lemma_dec_pairs_fixed_consumes, lemma_dec_pairs_sent_consumes, lemma_dec_str_raw_consumes, lemma_find_byte_bound, lemma_fold_put_push,
    lemma_key_index_first, map_put, rval_entries_of, rval_of, rvals_of, RVal,
};
use crate::rencode::numeric::{
    lemma_find_byte_none, lemma_find_byte_some, parse_i64_bytes, parse_mag_u64,
};
use crate::rencode::objects::{
    clone_bytes, lemma_rval_entries_index, lemma_rval_entries_len, lemma_rval_entries_push,
    lemma_rval_entries_update, Float, Int, Object,
};

verus! {

/// Relies on String::from_utf8: it succeeds exactly on valid UTF-8 input
/// and yields the characters that the bytes encode.
#[verifier::external_body]
fn vec_from_utf8(b: Vec<u8>) -> (r: Option<String>)
    ensures
        r is Some <==> valid_utf8(b@),
        r is Some ==> r.unwrap()@ == decode_utf8(b@),
{
    String::from_utf8(b).ok()
}

/// Relies on serde_json::from_str: it parses the text as a decimal number,
/// whose 64-bit bit pattern depends on the characters alone; any text that
/// is not a number yields None.
#[verifier::external_body]
fn parse_f64_bits(s: &str) -> (r: Option<u64>)
    ensures
        r == f64_bits_of_decimal(s@),
{
    match serde_json::from_str::<serde_json::Value>(s) {
        Ok(serde_json::Value::Number(n)) => n.as_f64().map(|f| f.to_bits()),
        _ => None,
    }
}

/// One step of decoding, as the contracts state it: on buffers that the
/// decoding specification [`dec`] accepts, the call yields the specified
/// value and consumes exactly the specified bytes; on all other buffers it
/// yields None.
pub open spec fn dec_step(pre: Seq<u8>, post: Seq<u8>, r: Option<Object>) -> bool {
    match dec(pre) {
        Some(p) => r is Some && rval_of(r.unwrap()) == p.0 && post == pre.skip(p.1),
        None => r is None,
    }
}

/// Reconstructs value trees from a byte buffer, consuming it from the
/// front. Each decoding call is a recursive-descent parse of exactly one
/// value, proved to agree with the decoding specification [`dec`].
pub struct Decoder {
    data: Vec<u8>,
    pos: usize,
}

impl Decoder {
    #[verifier::type_invariant]
    spec fn inv(self) -> bool {
        self.pos <= self.data@.len()
    }

    /// The bytes not yet consumed.
    pub closed spec fn rem(self) -> Seq<u8> {
        self.data@.skip(self.pos as int)
    }

    pub fn new(data: Vec<u8>) -> (r: Decoder)
        ensures
            r.rem() == data@,
    {
        let d = Decoder { data, pos: 0 };
        proof {
            assert(d.rem() =~= d.data@);
        }
        d
    }

    fn peek_front(&self) -> (r: Option<u8>)
        ensures
            self.rem().len() > 0 ==> r == Some(self.rem()[0]),
            self.rem().len() == 0 ==> r is None,
    {
        proof {
            use_type_invariant(self);
        }
        if self.pos < self.data.len() {
            Some(self.data[self.pos])
        } else {
            None
        }
    }

    fn pop_front(&mut self) -> (r: Option<u8>)
        ensures
            old(self).rem().len() > 0 ==> (r == Some(old(self).rem()[0]) && final(self).rem()
                == old(self).rem().skip(1)),
            old(self).rem().len() == 0 ==> (r is None && final(self).rem() == old(self).rem()),
    {
        proof {
            use_type_invariant(&*self);
        }
        if self.pos < self.data.len() {
            let b = self.data[self.pos];
            self.pos = self.pos + 1;
            proof {
                assert(self.rem() =~= old(self).rem().skip(1));
            }
            Some(b)
        } else {
            None
        }
    }

    fn take_bytes(&mut self, n: usize) -> (r: Option<Vec<u8>>)
        ensures
            old(self).rem().len() >= n ==> (r is Some && r.unwrap()@ == old(self).rem().take(
                n as int,
            ) && final(self).rem() == old(self).rem().skip(n as int)),
            old(self).rem().len() < n ==> (r is None && final(self).rem() == old(self).rem()),
    {
        proof {
            use_type_invariant(&*self);
        }
        if self.data.len() - self.pos < n {
            return None;
        }
        let cap: usize = self.data.len();
        let mut out: Vec<u8> = Vec::new();
        let mut j: usize = 0;
        while j < n
            invariant
                j <= n,
                self.data@.len() <= usize::MAX,
                self.pos + n <= self.data@.len(),
                out@ == self.data@.subrange(self.pos as int, self.pos + j),
            decreases n - j,
        {
            out.push(self.data[self.pos + j]);
            proof {
                assert(out@ =~= self.data@.subrange(self.pos as int, self.pos + j + 1));
            }
            j = j + 1;
        }
        self.pos = self.pos + n;
        proof {
            assert(out@ =~= old(self).rem().take(n as int));
            assert(self.rem() =~= old(self).rem().skip(n as int));
        }
        Some(out)
    }

    fn find_front(&self, x: u8) -> (r: Option<usize>)
        ensures
            match find_byte(self.rem(), x) {
                Some(k) => r is Some && r.unwrap() == k,
                None => r is None,
            },
    {
        proof {
            use_type_invariant(self);
        }
        let mut j: usize = self.pos;
        while j < self.data.len()
            invariant
                self.pos <= j <= self.data@.len(),
                forall|t: int| self.pos <= t < j ==> self.data@[t] != x,
            decreases self.data@.len() - j,
        {
            if self.data[j] == x {
                proof {
                    assert(self.rem()[j - self.pos] == x);
                    assert forall|t: int| 0 <= t < j - self.pos implies self.rem()[t] != x by {
                        assert(self.rem()[t] == self.data@[self.pos + t]);
                    }
                    lemma_find_byte_some(self.rem(), x, j - self.pos);
                }
                return Some(j - self.pos);
            }
            j = j + 1;
        }
        proof {
            assert forall|t: int| 0 <= t < self.rem().len() implies self.rem()[t] != x by {
                assert(self.rem()[t] == self.data@[self.pos + t]);
            }
            lemma_find_byte_none(self.rem(), x);
        }
        None
    }

    fn decode_bool(&mut self) -> (r: Option<Object>)
        requires
            old(self).rem().len() > 0,
            old(self).rem()[0] == CHR_TRUE || old(self).rem()[0] == CHR_FALSE,
        ensures
            dec_step(old(self).rem(), final(self).rem(), r),
            final(self).rem().len() <= old(self).rem().len(),
    {
        let token = self.pop_front().unwrap();
        if token == CHR_TRUE {
            Some(Object::Bool(true))
        } else {
            Some(Object::Bool(false))
        }
    }

    fn decode_float(&mut self) -> (r: Option<Object>)
        requires
            old(self).rem().len() > 0,
            old(self).rem()[0] == CHR_FLOAT32 || old(self).rem()[0] == CHR_FLOAT64,
        ensures
            dec_step(old(self).rem(), final(self).rem(), r),
            final(self).rem().len() <= old(self).rem().len(),
    {
        let ghost pre = old(self).rem();
        let token = self.pop_front().unwrap();
        if token == CHR_FLOAT32 {
            match self.take_bytes(4) {
                Some(b) => {
                    let bits: u32 = ((b[0] as u32) << 24) | ((b[1] as u32) << 16) | ((b[2]
                        as u32) << 8) | (b[3] as u32);
                    proof {
                        assert(b@ =~= pre.subrange(1, 5));
                        assert(self.rem() =~= pre.skip(5));
                    }
                    Some(Object::Float(Float::F32(bits)))
                }
                None => None,
            }
        } else {
            match self.take_bytes(8) {
                Some(b) => {
                    let bits: u64 = ((b[0] as u64) << 56) | ((b[1] as u64) << 48) | ((b[2]
                        as u64) << 40) | ((b[3] as u64) << 32) | ((b[4] as u64) << 24) | ((b[5]
                        as u64) << 16) | ((b[6] as u64) << 8) | (b[7] as u64);
                    proof {
                        assert(b@ =~= pre.subrange(1, 9));
                        assert(self.rem() =~= pre.skip(9));
                    }
                    Some(Object::Float(Float::F64(bits)))
                }
                None => None,
            }
        }
    }

    fn decode_int(&mut self) -> (r: Option<Object>)
        requires
            old(self).rem().len() > 0,
            ({
                let t = old(self).rem()[0];
                t < INT_POS_FIXED_COUNT || (INT_NEG_FIXED_START <= t && t < INT_NEG_FIXED_START
                    + INT_NEG_FIXED_COUNT) || t == CHR_INT1 || t == CHR_INT2 || t == CHR_INT4
                    || t == CHR_INT8
            }),
        ensures
            dec_step(old(self).rem(), final(self).rem(), r),
            final(self).rem().len() <= old(self).rem().len(),
    {
        let ghost pre = old(self).rem();
        let token = self.pop_front().unwrap();
        if is_embedded_pos_int(token) {
            return Some(Object::Int(Int::I8(token as i8)));
        } else if is_embedded_neg_int(token) {
            let v: i8 = -((token - 69) as i8);
            return Some(Object::Int(Int::I8(v)));
        }
        let len: usize = if token == CHR_INT1 {
            1
        } else if token == CHR_INT2 {
            2
        } else if token == CHR_INT4 {
            4
        } else {
            8
        };
        match self.take_bytes(len) {
            Some(b) => {
                if token == CHR_INT1 {
                    let u = b[0];
                    let v: i8 = if u < 128 {
                        u as i8
                    } else {
                        ((u as i16) - 256) as i8
                    };
                    proof {
                        assert(b@ =~= pre.subrange(1, 2));
                        assert(u == pre[1]);
                        assert(self.rem() =~= pre.skip(2));
                    }
                    Some(Object::Int(Int::I8(v)))
                } else if token == CHR_INT2 {
                    let u: u16 = ((b[0] as u16) << 8) | (b[1] as u16);
                    let v: i16 = if u < 0x8000 {
                        u as i16
                    } else {
                        ((u as i32) - 0x1_0000) as i16
                    };
                    proof {
                        assert(b@ =~= pre.subrange(1, 3));
                        assert(self.rem() =~= pre.skip(3));
                    }
                    Some(Object::Int(Int::I16(v)))
                } else if token == CHR_INT4 {
                    let u: u32 = ((b[0] as u32) << 24) | ((b[1] as u32) << 16) | ((b[2] as u32)
                        << 8) | (b[3] as u32);
                    let v: i32 = if u < 0x8000_0000 {
                        u as i32
                    } else {
                        ((u as i64) - 0x1_0000_0000) as i32
                    };
                    proof {
                        assert(b@ =~= pre.subrange(1, 5));
                        assert(self.rem() =~= pre.skip(5));
                    }
                    Some(Object::Int(Int::I32(v)))
                } else {
                    let u: u64 = ((b[0] as u64) << 56) | ((b[1] as u64) << 48) | ((b[2] as u64)
                        << 40) | ((b[3] as u64) << 32) | ((b[4] as u64) << 24) | ((b[5] as u64)
                        << 16) | ((b[6] as u64) << 8) | (b[7] as u64);
                    let v: i64 = if u < 0x8000_0000_0000_0000 {
                        u as i64
                    } else {
                        -((u64::MAX - u) as i64) - 1
                    };
                    proof {
                        assert(b@ =~= pre.subrange(1, 9));
                        assert(self.rem() =~= pre.skip(9));
                    }
                    Some(Object::Int(Int::I64(v)))
                }
            }
            None => None,
        }
    }

    fn decode_string(&mut self) -> (r: Option<Vec<u8>>)
        ensures
            match dec_str_raw(old(self).rem()) {
                Some(p) => r is Some && r.unwrap()@ == p.0 && final(self).rem() == old(
                    self,
                ).rem().skip(p.1),
                None => r is None,
            },
            final(self).rem().len() <= old(self).rem().len(),
    {
        let ghost pre = old(self).rem();
        let token = match self.peek_front() {
            Some(t) => t,
            None => {
                return None;
            }
        };
        if is_fixed_string(token) {
            let _ = self.pop_front();
            let len: usize = (token - STR_FIXED_START) as usize;
            match self.take_bytes(len) {
                Some(b) => {
                    proof {
                        assert(b@ =~= pre.subrange(1, 1 + len));
                        assert(self.rem() =~= pre.skip(1 + len));
                    }
                    Some(b)
                }
                None => None,
            }
        } else if token >= 49 && token <= 57 {
            match self.find_front(58) {
                Some(k) => {
                    proof {
                        lemma_find_byte_bound(pre, 58);
                    }
                    let digits = self.take_bytes(k).unwrap();
                    let _ = self.pop_front();
                    proof {
                        assert(digits@ =~= pre.subrange(0, k as int));
                    }
                    match parse_mag_u64(&digits, 0, usize::MAX as u64) {
                        Some(n64) => {
                            let n: usize = n64 as usize;
                            proof {
                                assert(digits@.skip(0) =~= digits@);
                            }
                            match self.take_bytes(n) {
                                Some(content) => {
                                    proof {
                                        assert(content@ =~= pre.subrange(
                                            k + 1,
                                            k + 1 + n as int,
                                        ));
                                        assert(self.rem() =~= pre.skip(k + 1 + n as int));
                                    }
                                    Some(content)
                                }
                                None => None,
                            }
                        }
                        None => {
                            proof {
                                assert(digits@.skip(0) =~= digits@);
                            }
                            None
                        }
                    }
                }
                None => None,
            }
        } else {
            None
        }
    }

    fn decode_bytes(&mut self) -> (r: Option<Object>)
        ensures
            match dec_strbytes(old(self).rem()) {
                Some(p) => r is Some && rval_of(r.unwrap()) == p.0 && final(self).rem() == old(
                    self,
                ).rem().skip(p.1),
                None => r is None,
            },
            final(self).rem().len() <= old(self).rem().len(),
    {
        match self.decode_string() {
            Some(bytes) => {
                let cloned = clone_bytes(&bytes);
                match vec_from_utf8(cloned) {
                    Some(s) => Some(Object::Str(s)),
                    None => Some(Object::Bytes(bytes)),
                }
            }
            None => None,
        }
    }

    /// Decodes exactly one value from the front of the buffer, advancing
    /// past everything it consumed and nothing more; yields None on any
    /// malformed or truncated input.
    pub fn decode_next(&mut self) -> (r: Option<Object>)
        ensures
            dec_step(old(self).rem(), final(self).rem(), r),
            final(self).rem().len() <= old(self).rem().len(),
        decreases self.rem().len(), 1int, 0int,
    {
        let token = match self.peek_front() {
            Some(t) => t,
            None => {
                return None;
            }
        };
        if is_map(token) || is_fixed_map(token) {
            self.decode_map()
        } else if is_list(token) || is_fixed_list(token) {
            self.decode_list()
        } else if is_num(token) {
            self.decode_num()
        } else if is_bool(token) {
            self.decode_bool()
        } else if is_float(token) {
            self.decode_float()
        } else if is_any_int(token) {
            self.decode_int()
        } else {
            self.decode_bytes()
        }
    }

    fn decode_map(&mut self) -> (r: Option<Object>)
        requires
            old(self).rem().len() > 0,
            old(self).rem()[0] == CHR_DICT || (DICT_FIXED_START <= old(self).rem()[0] && old(
                self,
            ).rem()[0] < DICT_FIXED_START + DICT_FIXED_COUNT),
        ensures
            dec_step(old(self).rem(), final(self).rem(), r),
            final(self).rem().len() <= old(self).rem().len(),
        decreases self.rem().len(), 0int, 0int,
    {
        let ghost pre = old(self).rem();
        let token = self.pop_front().unwrap();
        let ghost s1 = self.rem();
        proof {
            assert(s1 =~= pre.skip(1));
        }
        if is_fixed_map(token) {
            let count: usize = (token - DICT_FIXED_START) as usize;
            match self.decode_pairs_fixed_rec(count) {
                Some(pairs) => {
                    let ghost q = dec_pairs_fixed(s1, count as int).unwrap();
                    proof {
                        lemma_dec_pairs_fixed_consumes(s1, count as int);
                    }
                    let map_vec = build_dict(pairs);
                    proof {
                        assert(self.rem() =~= pre.skip(1 + q.1));
                    }
                    Some(Object::Dict(map_vec))
                }
                None => None,
            }
        } else {
            match self.decode_pairs_sent_rec() {
                Some(pairs) => {
                    let ghost q = dec_pairs_sent(s1).unwrap();
                    proof {
                        lemma_dec_pairs_sent_consumes(s1);
                    }
                    let map_vec = build_dict(pairs);
                    proof {
                        assert(self.rem() =~= pre.skip(1 + q.1));
                    }
                    Some(Object::Dict(map_vec))
                }
                None => None,
            }
        }
    }

    fn decode_list(&mut self) -> (r: Option<Object>)
        requires
            old(self).rem().len() > 0,
            old(self).rem()[0] == CHR_LIST || old(self).rem()[0] >= LIST_FIXED_START,
        ensures
            dec_step(old(self).rem(), final(self).rem(), r),
            final(self).rem().len() <= old(self).rem().len(),
        decreases self.rem().len(), 0int, 0int,
    {
        let ghost pre = old(self).rem();
        let token = self.pop_front().unwrap();
        let ghost s1 = self.rem();
        proof {
            assert(s1 =~= pre.skip(1));
        }
        if is_fixed_list(token) {
            let count: usize = (token - LIST_FIXED_START) as usize;
            match self.decode_elems_fixed_rec(count) {
                Some(list) => {
                    let ghost q = dec_elems_fixed(s1, count as int).unwrap();
                    proof {
                        lemma_dec_elems_fixed_consumes(s1, count as int);
                        assert(self.rem() =~= pre.skip(1 + q.1));
                    }
                    Some(Object::List(list))
                }
                None => None,
            }
        } else {
            match self.decode_elems_sent_rec() {
                Some(list) => {
                    let ghost q = dec_elems_sent(s1).unwrap();
                    proof {
                        lemma_dec_elems_sent_consumes(s1);
                        assert(self.rem() =~= pre.skip(1 + q.1));
                    }
                    Some(Object::List(list))
                }
                None => None,
            }
        }
    }

    fn decode_elems_fixed_rec(&mut self, count: usize) -> (r: Option<Vec<Object>>)
        ensures
            match dec_elems_fixed(old(self).rem(), count as int) {
                Some(q) => r is Some && rvals_of(r.unwrap()@) == q.0 && final(self).rem() == old(
                    self,
                ).rem().skip(q.1),
                None => r is None,
            },
            final(self).rem().len() <= old(self).rem().len(),
        decreases self.rem().len(), 2int, count as int,
    {
        let ghost pre = old(self).rem();
        if count == 0 {
            let empty_list: Vec<Object> = Vec::new();
            proof {
                assert(pre.skip(0) =~= pre);
            }
            return Some(empty_list);
        }
        match self.decode_next() {
            Some(obj) => {
                proof {
                    lemma_dec_consumes(pre);
                }
                let ghost p = dec(pre).unwrap();
                let ghost rem1 = self.rem();
                match self.decode_elems_fixed_rec(count - 1) {
                    Some(mut rest) => {
                        let ghost q = dec_elems_fixed(rem1, count - 1).unwrap();
                        proof {
                            lemma_dec_elems_fixed_consumes(rem1, count - 1);
                        }
                        let ghost tail = rest@;
                        rest.insert(0, obj);
                        proof {
                            assert(rest@ =~= seq![obj] + tail);
                            assert(rest@.drop_first() =~= tail);
                            assert(rvals_of(rest@) == seq![rval_of(obj)] + rvals_of(tail));
                            assert(self.rem() =~= pre.skip(p.1 + q.1));
                        }
                        Some(rest)
                    }
                    None => None,
                }
            }
            None => None,
        }
    }

    fn decode_elems_sent_rec(&mut self) -> (r: Option<Vec<Object>>)
        ensures
            match dec_elems_sent(old(self).rem()) {
                Some(q) => r is Some && rvals_of(r.unwrap()@) == q.0 && final(self).rem() == old(
                    self,
                ).rem().skip(q.1),
                None => r is None,
            },
            final(self).rem().len() <= old(self).rem().len(),
        decreases self.rem().len(), 2int, 0int,
    {
        let ghost pre = old(self).rem();
        let token = match self.peek_front() {
            Some(t) => t,
            None => {
                return None;
            }
        };
        if token == CHR_TERM {
            let _ = self.pop_front();
            let empty_list: Vec<Object> = Vec::new();
            return Some(empty_list);
        }
        match self.decode_next() {
            Some(obj) => {
                proof {
                    lemma_dec_consumes(pre);
                }
                let ghost p = dec(pre).unwrap();
                let ghost rem1 = self.rem();
                match self.decode_elems_sent_rec() {
                    Some(mut rest) => {
                        let ghost q = dec_elems_sent(rem1).unwrap();
                        proof {
                            lemma_dec_elems_sent_consumes(rem1);
                        }
                        let ghost tail = rest@;
                        rest.insert(0, obj);
                        proof {
                            assert(rest@ =~= seq![obj] + tail);
                            assert(rest@.drop_first() =~= tail);
                            assert(rvals_of(rest@) == seq![rval_of(obj)] + rvals_of(tail));
                            assert(self.rem() =~= pre.skip(p.1 + q.1));
                        }
                        Some(rest)
                    }
                    None => None,
                }
            }
            None => None,
        }
    }

    fn decode_pairs_fixed_rec(&mut self, count: usize) -> (r: Option<Vec<(String, Object)>>)
        ensures
            match dec_pairs_fixed(old(self).rem(), count as int) {
                Some(q) => r is Some && rval_entries_of(r.unwrap()@) == q.0 && final(self).rem()
                    == old(self).rem().skip(q.1),
                None => r is None,
            },
            final(self).rem().len() <= old(self).rem().len(),
        decreases self.rem().len(), 2int, count as int,
    {
        let ghost pre = old(self).rem();
        if count == 0 {
            let empty_pairs: Vec<(String, Object)> = Vec::new();
            proof {
                assert(pre.skip(0) =~= pre);
            }
            return Some(empty_pairs);
        }
        let key_obj = match self.decode_bytes() {
            Some(o) => o,
            None => {
                proof {
                    assert(dec_key(pre) is None);
                }
                return None;
            }
        };
        match key_obj {
            Object::Str(key_s) => {
                proof {
                    lemma_dec_str_raw_consumes(pre);
                    assert(dec_key(pre) is Some);
                }
                let ghost kp = dec_key(pre).unwrap();
                let ghost rem1 = self.rem();
                proof {
                    assert(rem1 == pre.skip(kp.1));
                    assert(1 <= kp.1 <= pre.len());
                }
                match self.decode_next() {
                    Some(val) => {
                        proof {
                            lemma_dec_consumes(rem1);
                        }
                        let ghost vp = dec(rem1).unwrap();
                        let ghost rem2 = self.rem();
                        proof {
                            assert(1 <= vp.1 <= rem1.len());
                            assert(rem2 =~= pre.skip(kp.1 + vp.1));
                        }
                        match self.decode_pairs_fixed_rec(count - 1) {
                            Some(mut rest) => {
                                let ghost q = dec_pairs_fixed(rem2, count - 1).unwrap();
                                proof {
                                    lemma_dec_pairs_fixed_consumes(rem2, count - 1);
                                }
                                let ghost tail = rest@;
                                let ghost e = (key_s@, rval_of(val));
                                rest.insert(0, (key_s, val));
                                proof {
                                    assert(rest@.drop_first() =~= tail);
                                    assert(rval_entries_of(rest@) == seq![e] + rval_entries_of(
                                        tail,
                                    ));
                                    assert(rem2 =~= pre.skip(kp.1 + vp.1));
                                    assert(self.rem() =~= pre.skip(kp.1 + vp.1 + q.1));
                                }
                                Some(rest)
                            }
                            None => None,
                        }
                    }
                    None => None,
                }
            }
            _ => {
                proof {
                    assert(dec_key(pre) is None);
                }
                None
            }
        }
    }

    fn decode_pairs_sent_rec(&mut self) -> (r: Option<Vec<(String, Object)>>)
        ensures
            match dec_pairs_sent(old(self).rem()) {
                Some(q) => r is Some && rval_entries_of(r.unwrap()@) == q.0 && final(self).rem()
                    == old(self).rem().skip(q.1),
                None => r is None,
            },
            final(self).rem().len() <= old(self).rem().len(),
        decreases self.rem().len(), 2int, 0int,
    {
        let ghost pre = old(self).rem();
        let token = match self.peek_front() {
            Some(t) => t,
            None => {
                return None;
            }
        };
        if token == CHR_TERM {
            let _ = self.pop_front();
            let empty_pairs: Vec<(String, Object)> = Vec::new();
            return Some(empty_pairs);
        }
        let key_obj = match self.decode_bytes() {
            Some(o) => o,
            None => {
                return None;
            }
        };
        match key_obj {
            Object::Str(key_s) => {
                proof {
                    lemma_dec_str_raw_consumes(pre);
                }
                let ghost kp = dec_key(pre).unwrap();
                let ghost rem1 = self.rem();
                match self.decode_next() {
                    Some(val) => {
                        proof {
                            lemma_dec_consumes(rem1);
                        }
                        let ghost vp = dec(rem1).unwrap();
                        let ghost rem2 = self.rem();
                        proof {
                            assert(1 <= vp.1 <= rem1.len());
                            assert(rem2 =~= pre.skip(kp.1 + vp.1));
                        }
                        match self.decode_pairs_sent_rec() {
                            Some(mut rest) => {
                                let ghost q = dec_pairs_sent(rem2).unwrap();
                                proof {
                                    lemma_dec_pairs_sent_consumes(rem2);
                                }
                                let ghost tail = rest@;
                                let ghost e = (key_s@, rval_of(val));
                                rest.insert(0, (key_s, val));
                                proof {
                                    assert(rest@.drop_first() =~= tail);
                                    assert(rval_entries_of(rest@) == seq![e] + rval_entries_of(
                                        tail,
                                    ));
                                    assert(rem2 =~= pre.skip(kp.1 + vp.1));
                                    assert(self.rem() =~= pre.skip(kp.1 + vp.1 + q.1));
                                }
                                Some(rest)
                            }
                            None => None,
                        }
                    }
                    None => None,
                }
            }
            _ => None,
        }
    }

    fn decode_num(&mut self) -> (r: Option<Object>)
        requires
            old(self).rem().len() > 0,
            old(self).rem()[0] == CHR_INT,
        ensures
            dec_step(old(self).rem(), final(self).rem(), r),
            final(self).rem().len() <= old(self).rem().len(),
    {
        let ghost pre = old(self).rem();
        let _ = self.pop_front();
        let ghost s1 = self.rem();
        proof {
            assert(s1 =~= pre.skip(1));
        }
        match self.find_front(CHR_TERM) {
            Some(k) => {
                proof {
                    lemma_find_byte_bound(s1, CHR_TERM);
                }
                let content = self.take_bytes(k).unwrap();
                let _ = self.pop_front();
                proof {
                    assert(content@ =~= s1.subrange(0, k as int));
                    assert(self.rem() =~= pre.skip(1 + k + 1));
                }
                if contains_dot(&content) {
                    match vec_from_utf8(content) {
                        Some(text) => {
                            match parse_f64_bits(text.as_str()) {
                                Some(bits) => Some(Object::Float(Float::F64(bits))),
                                None => None,
                            }
                        }
                        None => None,
                    }
                } else {
                    match parse_i64_bytes(&content) {
                        Some(v) => Some(Object::Int(Int::I64(v))),
                        None => None,
                    }
                }
            }
            None => None,
        }
    }
}

/// Inserts one key/value pair, replacing the value at the key's first
/// occurrence when the key is already present.
fn dict_put(m: &mut Vec<(String, Object)>, key: String, val: Object)
    ensures
        rval_entries_of(final(m)@) == map_put(rval_entries_of(old(m)@), key@, rval_of(val)),
{
    let ghost m0 = old(m)@;
    let ghost entries = rval_entries_of(m0);
    let ghost kv = (key@, rval_of(val));
    proof {
        lemma_rval_entries_len(m0);
    }
    let mut i: usize = 0;
    while i < m.len()
        invariant
            m@ == m0,
            m0 == old(m)@,
            i <= m0.len(),
            entries == rval_entries_of(m0),
            entries.len() == m0.len(),
            kv == (key@, rval_of(val)),
            forall|j: int| 0 <= j < i ==> #[trigger] entries[j].0 != key@,
        decreases m0.len() - i,
    {
        proof {
            lemma_rval_entries_index(m0, i as int);
        }
        if m[i].0 == key {
            proof {
                lemma_key_index_first(entries, key@, i as int);
            }
            let ghost p0 = (key, val);
            let _ = m.remove(i);
            m.insert(i, (key, val));
            proof {
                assert(m@ =~= m0.update(i as int, p0));
                lemma_rval_entries_update(m0, i as int, p0);
                assert((p0.0@, rval_of(p0.1)) == kv);
                assert(rval_entries_of(m@) == entries.update(i as int, kv));
                assert(map_put(entries, kv.0, kv.1) == entries.update(i as int, kv));
            }
            return;
        }
        i = i + 1;
    }
    proof {
        assert(!has_key(entries, key@));
    }
    m.push((key, val));
    proof {
        lemma_rval_entries_push(m0, m@[m0.len() as int]);
        assert(rval_entries_of(m@) =~= map_put(entries, kv.0, kv.1));
    }
}

/// Builds a dict from parsed pairs, inserting them left to right so that a
/// repeated key keeps its first position and takes its last value.
fn build_dict(pairs: Vec<(String, Object)>) -> (r: Vec<(String, Object)>)
    ensures
        rval_entries_of(r@) == fold_put(Seq::empty(), rval_entries_of(pairs@)),
{
    let ghost pv = rval_entries_of(pairs@);
    proof {
        lemma_rval_entries_len(pairs@);
    }
    let mut rem_pairs = pairs;
    let mut out: Vec<(String, Object)> = Vec::new();
    let ghost mut i: int = 0;
    while rem_pairs.len() > 0
        invariant
            0 <= i <= pv.len(),
            rval_entries_of(rem_pairs@) == pv.skip(i),
            rem_pairs@.len() == pv.len() - i,
            rval_entries_of(out@) == fold_put(Seq::empty(), pv.take(i)),
        decreases rem_pairs@.len(),
    {
        let ghost prev = rem_pairs@;
        let pr = rem_pairs.remove(0);
        proof {
            lemma_rval_entries_len(prev);
            assert(rem_pairs@ =~= prev.drop_first());
            assert(rval_entries_of(prev) == seq![(prev[0].0@, rval_of(prev[0].1))]
                + rval_entries_of(prev.drop_first()));
            assert(pv.skip(i)[0] == pv[i]);
            assert(pv.skip(i).drop_first() =~= pv.skip(i + 1));
            assert(rval_entries_of(rem_pairs@) =~= pv.skip(i + 1));
            assert(pv[i] == (pr.0@, rval_of(pr.1)));
        }
        let ghost out0 = out@;
        dict_put(&mut out, pr.0, pr.1);
        proof {
            assert(pv.take(i + 1) =~= pv.take(i).push(pv[i]));
            lemma_fold_put_push(Seq::empty(), pv.take(i), pv[i]);
            i = i + 1;
        }
    }
    proof {
        assert(pv.take(pv.len() as int) =~= pv);
    }
    out
}

fn contains_dot(b: &Vec<u8>) -> (r: bool)
    ensures
        r == crate::rencode::model::contains_byte(b@, 46),
{
    let mut i: usize = 0;
    while i < b.len()
        invariant
            i <= b@.len(),
            forall|j: int| 0 <= j < i ==> b@[j] != 46,
        decreases b@.len() - i,
    {
        if b[i] == 46 {
            return true;
        }
        i = i + 1;
    }
    false
}

fn is_map(token: u8) -> (r: bool)
    ensures
        r == (token == CHR_DICT),
{
    token == CHR_DICT
}

fn is_fixed_map(token: u8) -> (r: bool)
    ensures
        r == (DICT_FIXED_START <= token && token < DICT_FIXED_START + DICT_FIXED_COUNT),
{
    DICT_FIXED_START <= token && token < DICT_FIXED_START + DICT_FIXED_COUNT
}

fn is_list(token: u8) -> (r: bool)
    ensures
        r == (token == CHR_LIST),
{
    token == CHR_LIST
}

fn is_fixed_list(token: u8) -> (r: bool)
    ensures
        r == (token >= LIST_FIXED_START),
{
    token >= LIST_FIXED_START
}

fn is_num(token: u8) -> (r: bool)
    ensures
        r == (token == CHR_INT),
{
    token == CHR_INT
}

fn is_bool(token: u8) -> (r: bool)
    ensures
        r == (token == CHR_TRUE || token == CHR_FALSE),
{
    token == CHR_TRUE || token == CHR_FALSE
}

fn is_float(token: u8) -> (r: bool)
    ensures
        r == (token == CHR_FLOAT32 || token == CHR_FLOAT64),
{
    token == CHR_FLOAT32 || token == CHR_FLOAT64
}

fn is_int(token: u8) -> (r: bool)
    ensures
        r == (token == CHR_INT1 || token == CHR_INT2 || token == CHR_INT4 || token == CHR_INT8),
{
    token == CHR_INT1 || token == CHR_INT2 || token == CHR_INT4 || token == CHR_INT8
}

fn is_embedded_pos_int(token: u8) -> (r: bool)
    ensures
        r == (token < INT_POS_FIXED_COUNT),
{
    INT_POS_FIXED_START <= token && token < INT_POS_FIXED_START + INT_POS_FIXED_COUNT
}

fn is_embedded_neg_int(token: u8) -> (r: bool)
    ensures
        r == (INT_NEG_FIXED_START <= token && token < INT_NEG_FIXED_START + INT_NEG_FIXED_COUNT),
{
    INT_NEG_FIXED_START <= token && token < INT_NEG_FIXED_START + INT_NEG_FIXED_COUNT
}

fn is_any_int(token: u8) -> (r: bool)
    ensures
        r == (token == CHR_INT || token == CHR_INT1 || token == CHR_INT2 || token == CHR_INT4
            || token == CHR_INT8 || token < INT_POS_FIXED_COUNT || (INT_NEG_FIXED_START <= token
            && token < INT_NEG_FIXED_START + INT_NEG_FIXED_COUNT)),
{
    is_num(token) || is_int(token) || is_embedded_pos_int(token) || is_embedded_neg_int(token)
}

fn is_fixed_string(token: u8) -> (r: bool)
    ensures
        r == (STR_FIXED_START <= token && token < STR_FIXED_START + STR_FIXED_COUNT),
{
    STR_FIXED_START <= token && token < STR_FIXED_START + STR_FIXED_COUNT
}

} // verus!
