use vstd::prelude::*;

use vstd::string::StrSliceExecFns;

use crate::rencode::constants::{
    CHR_DICT, CHR_FALSE, CHR_FLOAT32, CHR_FLOAT64, CHR_INT1, CHR_INT2, CHR_INT4, CHR_INT8,
    CHR_LIST, CHR_TERM, CHR_TRUE, DICT_FIXED_COUNT, DICT_FIXED_START, LIST_FIXED_COUNT,
    LIST_FIXED_START, STR_FIXED_COUNT, STR_FIXED_START,
};
use crate::rencode::error::Error;
use crate::rencode::model::{
    be_bytes2, be_bytes4, be_bytes8, enc, enc_entries, enc_seq, enc_strbytes, rval_entries_of,
    rval_of, rvals_of, u16_of_i16, u32_of_i32, u64_of_i64, u8_of_i8, RVal,
};
use crate::rencode::numeric::render_decimal;
use crate::rencode::objects::{lemma_rval_entries_index, lemma_rval_entries_len, lemma_rvals_index,
    lemma_rvals_len, Float, Int, Object};

verus! {

/// Serializes value trees by appending their wire bytes to an output
/// buffer. The buffer's contents are the encoder's view; every method is
/// proved to append exactly the bytes that the encoding specification
/// [`enc`] gives for its argument.
pub struct Encoder {
    data: Vec<u8>,
}

impl View for Encoder {
    type V = Seq<u8>;

    closed spec fn view(&self) -> Seq<u8> {
        self.data@
    }
}

impl Encoder {
    pub fn new() -> (r: Encoder)
        ensures
            r@ == Seq::<u8>::empty(),
    {
        Encoder { data: Vec::new() }
    }

    /// Encodes one value tree and hands back the accumulated buffer.
    pub fn into_bytes(self, obj: Object) -> (r: Result<Vec<u8>, Error>)
        ensures
            r is Ok,
            r.unwrap()@ == self@ + enc(rval_of(obj)),
    {
        let mut e = self;
        let _ = e.encode_object(obj);
        Ok(e.data)
    }

    pub fn encode_object(&mut self, obj: Object) -> (r: Result<(), Error>)
        ensures
            r is Ok,
            final(self)@ == old(self)@ + enc(rval_of(obj)),
    {
        self.encode_object_ref(&obj);
        Ok(())
    }

    fn encode_object_ref(&mut self, obj: &Object)
        ensures
            final(self)@ == old(self)@ + enc(rval_of(*obj)),
        decreases obj, 0int,
    {
        match obj {
            Object::Dict(m) => {
                proof {
                    assert(decreases_to!(*obj => *m));
                }
                self.encode_entries_ref(m);
            }
            Object::List(l) => {
                proof {
                    assert(decreases_to!(*obj => *l));
                }
                self.encode_elems_ref(l);
            }
            Object::Bool(b) => {
                let _ = self.encode_bool(*b);
            }
            Object::Float(f) => {
                let _ = self.encode_float(*f);
            }
            Object::Int(i) => {
                let _ = self.encode_int(*i);
            }
            Object::Str(s) => {
                let bytes = s.as_str().as_bytes_vec();
                let _ = self.encode_string_bytes(bytes);
            }
            Object::Bytes(b) => {
                let bytes = crate::rencode::objects::clone_bytes(b);
                let _ = self.encode_string_bytes(bytes);
            }
        }
    }

    /// Encodes a dict: a count-embedding token below 25 entries, else the
    /// sentinel-terminated form; then each key as a string followed by its
    /// value.
    pub fn encode_map(&mut self, map: Vec<(String, Object)>) -> (r: Result<(), Error>)
        ensures
            r is Ok,
            final(self)@ == old(self)@ + enc(RVal::Dict(rval_entries_of(map@))),
    {
        self.encode_entries_ref(&map);
        Ok(())
    }

    fn encode_entries_ref(&mut self, map: &Vec<(String, Object)>)
        ensures
            final(self)@ == old(self)@ + enc(RVal::Dict(rval_entries_of(map@))),
        decreases map, 1int,
    {
        let ghost entries = rval_entries_of(map@);
        proof {
            lemma_rval_entries_len(map@);
        }
        if map.len() < DICT_FIXED_COUNT as usize {
            self.data.push(DICT_FIXED_START + map.len() as u8);
        } else {
            self.data.push(CHR_DICT);
        }
        let ghost mid = self@;
        let mut i: usize = 0;
        while i < map.len()
            invariant
                i <= map@.len(),
                entries == rval_entries_of(map@),
                entries.len() == map@.len(),
                self@ == mid + enc_entries(entries.take(i as int)),
            decreases map@.len() - i,
        {
            proof {
                assert(decreases_to!(*map => map@));
                assert(decreases_to!(map@ => map@[i as int]));
                assert(decreases_to!(map@[i as int] => map@[i as int].1));
            }
            let pair = &map[i];
            let bytes = pair.0.as_str().as_bytes_vec();
            let _ = self.encode_string_bytes(bytes);
            self.encode_object_ref(&pair.1);
            proof {
                lemma_rval_entries_index(map@, i as int);
                lemma_enc_entries_take_step(entries, i as int);
            }
            i = i + 1;
        }
        proof {
            assert(entries.take(map@.len() as int) =~= entries);
        }
        if map.len() >= DICT_FIXED_COUNT as usize {
            self.data.push(CHR_TERM);
            proof {
                assert(self@ =~= old(self)@ + enc(RVal::Dict(entries)));
            }
        } else {
            proof {
                assert(self@ =~= old(self)@ + enc(RVal::Dict(entries)));
            }
        }
    }

    /// Encodes a list: a count-embedding token below 64 elements, else the
    /// sentinel-terminated form; then each element in order.
    pub fn encode_list(&mut self, list: Vec<Object>) -> (r: Result<(), Error>)
        ensures
            r is Ok,
            final(self)@ == old(self)@ + enc(RVal::List(rvals_of(list@))),
    {
        self.encode_elems_ref(&list);
        Ok(())
    }

    fn encode_elems_ref(&mut self, list: &Vec<Object>)
        ensures
            final(self)@ == old(self)@ + enc(RVal::List(rvals_of(list@))),
        decreases list, 1int,
    {
        let ghost elems = rvals_of(list@);
        proof {
            lemma_rvals_len(list@);
        }
        if list.len() < LIST_FIXED_COUNT as usize {
            self.data.push(LIST_FIXED_START + list.len() as u8);
        } else {
            self.data.push(CHR_LIST);
        }
        let ghost mid = self@;
        let mut i: usize = 0;
        while i < list.len()
            invariant
                i <= list@.len(),
                elems == rvals_of(list@),
                elems.len() == list@.len(),
                self@ == mid + enc_seq(elems.take(i as int)),
            decreases list@.len() - i,
        {
            proof {
                assert(decreases_to!(*list => list@));
                assert(decreases_to!(list@ => list@[i as int]));
            }
            self.encode_object_ref(&list[i]);
            proof {
                lemma_rvals_index(list@, i as int);
                lemma_enc_seq_take_step(elems, i as int);
            }
            i = i + 1;
        }
        proof {
            assert(elems.take(list@.len() as int) =~= elems);
        }
        if list.len() >= LIST_FIXED_COUNT as usize {
            self.data.push(CHR_TERM);
            proof {
                assert(self@ =~= old(self)@ + enc(RVal::List(elems)));
            }
        } else {
            proof {
                assert(self@ =~= old(self)@ + enc(RVal::List(elems)));
            }
        }
    }

    pub fn encode_bool(&mut self, b: bool) -> (r: Result<(), Error>)
        ensures
            r is Ok,
            final(self)@ == old(self)@ + enc(RVal::Bool(b)),
    {
        let c: u8 = if b {
            CHR_TRUE
        } else {
            CHR_FALSE
        };
        self.data.push(c);
        proof {
            assert(self@ =~= old(self)@ + enc(RVal::Bool(b)));
        }
        Ok(())
    }

    /// Encodes a float from its IEEE-754 bit pattern: the width tag, then
    /// the big-endian bytes of that exact width.
    pub fn encode_float(&mut self, f: Float) -> (r: Result<(), Error>)
        ensures
            r is Ok,
            final(self)@ == old(self)@ + enc(
                match f {
                    Float::F32(bits) => RVal::F32(bits),
                    Float::F64(bits) => RVal::F64(bits),
                },
            ),
    {
        match f {
            Float::F32(bits) => {
                self.data.push(CHR_FLOAT32);
                self.push_be4(bits);
            }
            Float::F64(bits) => {
                self.data.push(CHR_FLOAT64);
                self.push_be8(bits);
            }
        }
        proof {
            match f {
                Float::F32(bits) => {
                    assert(self@ =~= old(self)@ + enc(RVal::F32(bits)));
                }
                Float::F64(bits) => {
                    assert(self@ =~= old(self)@ + enc(RVal::F64(bits)));
                }
            }
        }
        Ok(())
    }

    /// Encodes an integer. An 8-bit value in the embedded ranges becomes a
    /// single token byte; every other value keeps its width tag followed
    /// by that many big-endian two's-complement bytes.
    pub fn encode_int(&mut self, i: Int) -> (r: Result<(), Error>)
        ensures
            r is Ok,
            final(self)@ == old(self)@ + enc(
                match i {
                    Int::I8(v) => RVal::I8(v),
                    Int::I16(v) => RVal::I16(v),
                    Int::I32(v) => RVal::I32(v),
                    Int::I64(v) => RVal::I64(v),
                },
            ),
    {
        match i {
            Int::I8(v) => {
                if 0 <= v && v < 44 {
                    self.data.push(v as u8);
                } else if -32 <= v && v < 0 {
                    self.data.push((69 - (v as i16)) as u8);
                } else {
                    self.data.push(CHR_INT1);
                    if v >= 0 {
                        self.data.push(v as u8);
                    } else {
                        self.data.push(((v as i16) + 256) as u8);
                    }
                }
                proof {
                    assert(self@ =~= old(self)@ + enc(RVal::I8(v)));
                }
            }
            Int::I16(v) => {
                self.data.push(CHR_INT2);
                let u: u16 = if v >= 0 {
                    v as u16
                } else {
                    (((v as i32) + 0x1_0000) as u16)
                };
                self.push_be2(u);
                proof {
                    assert(self@ =~= old(self)@ + enc(RVal::I16(v)));
                }
            }
            Int::I32(v) => {
                self.data.push(CHR_INT4);
                let u: u32 = if v >= 0 {
                    v as u32
                } else {
                    (((v as i64) + 0x1_0000_0000) as u32)
                };
                self.push_be4(u);
                proof {
                    assert(self@ =~= old(self)@ + enc(RVal::I32(v)));
                }
            }
            Int::I64(v) => {
                self.data.push(CHR_INT8);
                let u: u64 = if v >= 0 {
                    v as u64
                } else {
                    u64::MAX - ((-(v + 1)) as u64)
                };
                proof {
                    assert(u == u64_of_i64(v));
                }
                self.push_be8(u);
                proof {
                    assert(self@ =~= old(self)@ + enc(RVal::I64(v)));
                }
            }
        }
        Ok(())
    }

    /// Encodes a text value: its UTF-8 bytes in the string form.
    pub fn encode_string(&mut self, s: String) -> (r: Result<(), Error>)
        ensures
            r is Ok,
            final(self)@ == old(self)@ + enc(RVal::Text(s@)),
    {
        let bytes = s.as_str().as_bytes_vec();
        self.encode_string_bytes(bytes)
    }

    /// Encodes a raw byte string: a length-embedding token below 64 bytes,
    /// else the decimal length and a colon; then the bytes themselves.
    pub fn encode_string_bytes(&mut self, b: Vec<u8>) -> (r: Result<(), Error>)
        ensures
            r is Ok,
            final(self)@ == old(self)@ + enc_strbytes(b@),
    {
        if b.len() < STR_FIXED_COUNT as usize {
            self.data.push(STR_FIXED_START + b.len() as u8);
        } else {
            let mut len_digits = render_decimal(b.len());
            self.data.append(&mut len_digits);
            self.data.push(58);
        }
        let mut content = b;
        self.data.append(&mut content);
        proof {
            assert(self@ =~= old(self)@ + enc_strbytes(b@));
        }
        Ok(())
    }

    fn push_be2(&mut self, v: u16)
        ensures
            final(self)@ == old(self)@ + be_bytes2(v),
    {
        self.data.push(((v >> 8) & 0xff) as u8);
        self.data.push((v & 0xff) as u8);
        proof {
            assert(self@ =~= old(self)@ + be_bytes2(v));
        }
    }

    fn push_be4(&mut self, v: u32)
        ensures
            final(self)@ == old(self)@ + be_bytes4(v),
    {
        self.data.push(((v >> 24) & 0xff) as u8);
        self.data.push(((v >> 16) & 0xff) as u8);
        self.data.push(((v >> 8) & 0xff) as u8);
        self.data.push((v & 0xff) as u8);
        proof {
            assert(self@ =~= old(self)@ + be_bytes4(v));
        }
    }

    fn push_be8(&mut self, v: u64)
        ensures
            final(self)@ == old(self)@ + be_bytes8(v),
    {
        self.data.push(((v >> 56) & 0xff) as u8);
        self.data.push(((v >> 48) & 0xff) as u8);
        self.data.push(((v >> 40) & 0xff) as u8);
        self.data.push(((v >> 32) & 0xff) as u8);
        self.data.push(((v >> 24) & 0xff) as u8);
        self.data.push(((v >> 16) & 0xff) as u8);
        self.data.push(((v >> 8) & 0xff) as u8);
        self.data.push((v & 0xff) as u8);
        proof {
            assert(self@ =~= old(self)@ + be_bytes8(v));
        }
    }
}






proof fn lemma_enc_seq_take_step(l: Seq<RVal>, i: int)
    requires
        0 <= i < l.len(),
    ensures
        enc_seq(l.take(i + 1)) == enc_seq(l.take(i)) + enc(l[i]),
    decreases i,
{
    if i == 0 {
        assert(l.take(1) =~= seq![l[0]]);
        assert(l.take(1).drop_first() =~= Seq::<RVal>::empty());
        assert(l.take(0) =~= Seq::<RVal>::empty());
        assert(enc_seq(l.take(1)) == enc(l[0]) + enc_seq(Seq::empty()));
        assert(enc_seq(l.take(1)) =~= enc_seq(l.take(0)) + enc(l[0]));
    } else {
        let t = l.drop_first();
        assert(l.take(i + 1).drop_first() =~= t.take(i));
        assert(l.take(i).drop_first() =~= t.take(i - 1));
        assert(l.take(i + 1)[0] == l[0]);
        assert(l.take(i)[0] == l[0]);
        lemma_enc_seq_take_step(t, i - 1);
        assert(t[i - 1] == l[i]);
        assert(enc_seq(l.take(i + 1)) == enc(l[0]) + enc_seq(t.take(i)));
        assert(enc_seq(l.take(i)) == enc(l[0]) + enc_seq(t.take(i - 1)));
        assert(enc_seq(l.take(i + 1)) =~= enc_seq(l.take(i)) + enc(l[i]));
    }
}

proof fn lemma_enc_entries_take_step(m: Seq<(Seq<char>, RVal)>, i: int)
    requires
        0 <= i < m.len(),
    ensures
        enc_entries(m.take(i + 1)) == enc_entries(m.take(i)) + enc_strbytes(
            vstd::utf8::encode_utf8(m[i].0),
        ) + enc(m[i].1),
    decreases i,
{
    if i == 0 {
        assert(m.take(1) =~= seq![m[0]]);
        assert(m.take(1).drop_first() =~= Seq::<(Seq<char>, RVal)>::empty());
        assert(m.take(0) =~= Seq::<(Seq<char>, RVal)>::empty());
        assert(enc_entries(m.take(1)) =~= enc_entries(m.take(0)) + enc_strbytes(
            vstd::utf8::encode_utf8(m[0].0),
        ) + enc(m[0].1));
    } else {
        let t = m.drop_first();
        assert(m.take(i + 1).drop_first() =~= t.take(i));
        assert(m.take(i).drop_first() =~= t.take(i - 1));
        assert(m.take(i + 1)[0] == m[0]);
        assert(m.take(i)[0] == m[0]);
        lemma_enc_entries_take_step(t, i - 1);
        assert(t[i - 1] == m[i]);
        assert(enc_entries(m.take(i + 1)) =~= enc_entries(m.take(i)) + enc_strbytes(
            vstd::utf8::encode_utf8(m[i].0),
        ) + enc(m[i].1));
    }
}

} // verus!
