use vstd::prelude::*;

use vstd::utf8::{decode_utf8, encode_utf8, valid_utf8};

use crate::rencode::constants::{
    CHR_DICT, CHR_FALSE, CHR_FLOAT32, CHR_FLOAT64, CHR_INT, CHR_INT1, CHR_INT2, CHR_INT4,
    CHR_INT8, CHR_LIST, CHR_TERM, CHR_TRUE,
};
use crate::rencode::objects::{Float, Int, Object};

verus! {

/// The mathematical value tree: the abstraction of [`Object`] that the
/// encoding and decoding specifications are stated over. Text is a
/// character sequence, opaque byte strings are byte sequences, floats are
/// their IEEE-754 bit patterns, and a dict is a sequence of key/value
/// entries with string keys.
pub enum RVal {
    Dict(Seq<(Seq<char>, RVal)>),
    List(Seq<RVal>),
    Bool(bool),
    F32(u32),
    F64(u64),
    I8(i8),
    I16(i16),
    I32(i32),
    I64(i64),
    Text(Seq<char>),
    Blob(Seq<u8>),
}

pub open spec fn rvals_of(s: Seq<Object>) -> Seq<RVal>
    decreases s, 0int,
{
    if s.len() == 0 {
        Seq::empty()
    } else {
        seq![rval_of(s[0])] + rvals_of(s.drop_first())
    }
}

pub open spec fn rval_entries_of(s: Seq<(String, Object)>) -> Seq<(Seq<char>, RVal)>
    decreases s, 0int,
{
    if s.len() == 0 {
        Seq::empty()
    } else {
        seq![(s[0].0@, rval_of(s[0].1))] + rval_entries_of(s.drop_first())
    }
}

/// The abstraction of one in-memory value as a mathematical value tree.
pub open spec fn rval_of(o: Object) -> RVal
    decreases o, 1int,
    via rval_of_dec
{
    match o {
        Object::Dict(m) => RVal::Dict(rval_entries_of(m@)),
        Object::List(l) => RVal::List(rvals_of(l@)),
        Object::Bool(b) => RVal::Bool(b),
        Object::Float(Float::F32(bits)) => RVal::F32(bits),
        Object::Float(Float::F64(bits)) => RVal::F64(bits),
        Object::Int(Int::I8(v)) => RVal::I8(v),
        Object::Int(Int::I16(v)) => RVal::I16(v),
        Object::Int(Int::I32(v)) => RVal::I32(v),
        Object::Int(Int::I64(v)) => RVal::I64(v),
        Object::Str(s) => RVal::Text(s@),
        Object::Bytes(b) => RVal::Blob(b@),
    }
}

#[via_fn]
proof fn rval_of_dec(o: Object) {
    match o {
        Object::Dict(m) => {
            assert(decreases_to!(o => m));
            assert(decreases_to!(m => m@));
        }
        Object::List(l) => {
            assert(decreases_to!(o => l));
            assert(decreases_to!(l => l@));
        }
        _ => {}
    }
}

// Conversions between the signed integers of the value tree and the
// unsigned forms whose big-endian bytes go on the wire.
pub open spec fn u8_of_i8(i: i8) -> u8 {
    if i >= 0 {
        i as u8
    } else {
        (i + 256) as u8
    }
}

pub open spec fn i8_of_u8(b: u8) -> i8 {
    if b < 128 {
        b as i8
    } else {
        (b - 256) as i8
    }
}

pub open spec fn u16_of_i16(i: i16) -> u16 {
    if i >= 0 {
        i as u16
    } else {
        (i + 0x1_0000) as u16
    }
}

pub open spec fn i16_of_u16(b: u16) -> i16 {
    if b < 0x8000 {
        b as i16
    } else {
        (b - 0x1_0000) as i16
    }
}

pub open spec fn u32_of_i32(i: i32) -> u32 {
    if i >= 0 {
        i as u32
    } else {
        (i + 0x1_0000_0000) as u32
    }
}

pub open spec fn i32_of_u32(b: u32) -> i32 {
    if b < 0x8000_0000 {
        b as i32
    } else {
        (b - 0x1_0000_0000) as i32
    }
}

pub open spec fn u64_of_i64(i: i64) -> u64 {
    if i >= 0 {
        i as u64
    } else {
        (i + 0x1_0000_0000_0000_0000) as u64
    }
}

pub open spec fn i64_of_u64(b: u64) -> i64 {
    if b < 0x8000_0000_0000_0000 {
        b as i64
    } else {
        (b - 0x1_0000_0000_0000_0000) as i64
    }
}

// Big-endian packing of fixed-width unsigned values.
pub open spec fn be_bytes2(v: u16) -> Seq<u8> {
    seq![((v >> 8) & 0xff) as u8, (v & 0xff) as u8]
}

pub open spec fn be_bytes4(v: u32) -> Seq<u8> {
    seq![
        ((v >> 24) & 0xff) as u8,
        ((v >> 16) & 0xff) as u8,
        ((v >> 8) & 0xff) as u8,
        (v & 0xff) as u8,
    ]
}

pub open spec fn be_bytes8(v: u64) -> Seq<u8> {
    seq![
        ((v >> 56) & 0xff) as u8,
        ((v >> 48) & 0xff) as u8,
        ((v >> 40) & 0xff) as u8,
        ((v >> 32) & 0xff) as u8,
        ((v >> 24) & 0xff) as u8,
        ((v >> 16) & 0xff) as u8,
        ((v >> 8) & 0xff) as u8,
        (v & 0xff) as u8,
    ]
}

pub open spec fn be_val2(b: Seq<u8>) -> u16 {
    ((b[0] as u16) << 8) | (b[1] as u16)
}

pub open spec fn be_val4(b: Seq<u8>) -> u32 {
    ((b[0] as u32) << 24) | ((b[1] as u32) << 16) | ((b[2] as u32) << 8) | (b[3] as u32)
}

pub open spec fn be_val8(b: Seq<u8>) -> u64 {
    ((b[0] as u64) << 56) | ((b[1] as u64) << 48) | ((b[2] as u64) << 40) | ((b[3] as u64) << 32)
        | ((b[4] as u64) << 24) | ((b[5] as u64) << 16) | ((b[6] as u64) << 8) | (b[7] as u64)
}

// Decimal text for lengths and for the terminated-number token.
pub open spec fn dec_digits(n: nat) -> Seq<u8>
    decreases n,
{
    if n < 10 {
        seq![(48 + n) as u8]
    } else {
        dec_digits(n / 10) + seq![(48 + n % 10) as u8]
    }
}

pub open spec fn all_digits(s: Seq<u8>) -> bool {
    forall|i: int| 0 <= i < s.len() ==> 48 <= #[trigger] s[i] <= 57
}

pub open spec fn dec_value(s: Seq<u8>) -> int
    decreases s.len(),
{
    if s.len() == 0 {
        0
    } else {
        dec_value(s.drop_last()) * 10 + (s.last() - 48)
    }
}

pub open spec fn contains_byte(s: Seq<u8>, x: u8) -> bool {
    exists|i: int| 0 <= i < s.len() && s[i] == x
}

pub open spec fn find_byte(s: Seq<u8>, x: u8) -> Option<int>
    decreases s.len(),
{
    if s.len() == 0 {
        None
    } else if s[0] == x {
        Some(0int)
    } else {
        match find_byte(s.drop_first(), x) {
            Some(i) => Some(i + 1),
            None => None,
        }
    }
}

/// The decimal value that the terminated-number token yields when its text
/// holds no decimal point: an optional sign followed by at least one ASCII
/// digit, and a value within the 64-bit signed range.
pub open spec fn i64_dec_of(b: Seq<u8>) -> Option<i64> {
    if b.len() > 0 && (b[0] == 45 || b[0] == 43) {
        let digits = b.drop_first();
        if digits.len() > 0 && all_digits(digits) {
            if b[0] == 45 {
                if -dec_value(digits) >= i64::MIN {
                    Some((-dec_value(digits)) as i64)
                } else {
                    None
                }
            } else {
                if dec_value(digits) <= i64::MAX {
                    Some(dec_value(digits) as i64)
                } else {
                    None
                }
            }
        } else {
            None
        }
    } else {
        if b.len() > 0 && all_digits(b) {
            if dec_value(b) <= i64::MAX {
                Some(dec_value(b) as i64)
            } else {
                None
            }
        } else {
            None
        }
    }
}

/// The bit pattern that parsing the given decimal text as a 64-bit
/// floating-point number yields, or None when the text is not a number.
/// This names the result of the outside parse that the decoder relies on;
/// the result depends on the characters alone.
pub uninterp spec fn f64_bits_of_decimal(s: Seq<char>) -> Option<u64>;

/// The byte encoding of one string or byte-string payload: a single token
/// embedding the length when it is below 64, else the decimal length,
/// a colon, and the raw bytes.
pub open spec fn enc_strbytes(b: Seq<u8>) -> Seq<u8> {
    if b.len() < 64 {
        seq![(128 + b.len()) as u8] + b
    } else {
        dec_digits(b.len() as nat) + seq![58u8] + b
    }
}

/// The byte encoding of one value tree. This is the authoritative statement
/// of the wire format; the executable encoder is proved to produce exactly
/// these bytes.
pub open spec fn enc(v: RVal) -> Seq<u8>
    decreases v, 1int,
{
    match v {
        RVal::Dict(m) => if m.len() < 25 {
            seq![(102 + m.len()) as u8] + enc_entries(m)
        } else {
            seq![CHR_DICT] + enc_entries(m) + seq![CHR_TERM]
        },
        RVal::List(l) => if l.len() < 64 {
            seq![(192 + l.len()) as u8] + enc_seq(l)
        } else {
            seq![CHR_LIST] + enc_seq(l) + seq![CHR_TERM]
        },
        RVal::Bool(b) => seq![if b { CHR_TRUE } else { CHR_FALSE }],
        RVal::F32(bits) => seq![CHR_FLOAT32] + be_bytes4(bits),
        RVal::F64(bits) => seq![CHR_FLOAT64] + be_bytes8(bits),
        RVal::I8(i) => if 0 <= i && i < 44 {
            seq![i as u8]
        } else if -32 <= i && i < 0 {
            seq![(69 - i) as u8]
        } else {
            seq![CHR_INT1, u8_of_i8(i)]
        },
        RVal::I16(i) => seq![CHR_INT2] + be_bytes2(u16_of_i16(i)),
        RVal::I32(i) => seq![CHR_INT4] + be_bytes4(u32_of_i32(i)),
        RVal::I64(i) => seq![CHR_INT8] + be_bytes8(u64_of_i64(i)),
        RVal::Text(t) => enc_strbytes(encode_utf8(t)),
        RVal::Blob(b) => enc_strbytes(b),
    }
}

pub open spec fn enc_seq(l: Seq<RVal>) -> Seq<u8>
    decreases l, 0int,
{
    if l.len() == 0 {
        Seq::empty()
    } else {
        enc(l[0]) + enc_seq(l.drop_first())
    }
}

pub open spec fn enc_entries(m: Seq<(Seq<char>, RVal)>) -> Seq<u8>
    decreases m, 0int,
{
    if m.len() == 0 {
        Seq::empty()
    } else {
        enc_strbytes(encode_utf8(m[0].0)) + enc(m[0].1) + enc_entries(m.drop_first())
    }
}

// Dict assembly: entries are inserted left to right, a repeated key
// replacing the value at the key's first occurrence.
pub open spec fn has_key(m: Seq<(Seq<char>, RVal)>, k: Seq<char>) -> bool {
    exists|i: int| 0 <= i < m.len() && m[i].0 == k
}

pub open spec fn key_index(m: Seq<(Seq<char>, RVal)>, k: Seq<char>) -> int
    decreases m.len(),
{
    if m.len() == 0 {
        0
    } else if m[0].0 == k {
        0
    } else {
        1 + key_index(m.drop_first(), k)
    }
}

pub open spec fn map_put(m: Seq<(Seq<char>, RVal)>, k: Seq<char>, v: RVal) -> Seq<
    (Seq<char>, RVal),
> {
    if has_key(m, k) {
        m.update(key_index(m, k), (k, v))
    } else {
        m.push((k, v))
    }
}

pub open spec fn fold_put(
    acc: Seq<(Seq<char>, RVal)>,
    pairs: Seq<(Seq<char>, RVal)>,
) -> Seq<(Seq<char>, RVal)>
    decreases pairs.len(),
{
    if pairs.len() == 0 {
        acc
    } else {
        fold_put(map_put(acc, pairs[0].0, pairs[0].1), pairs.drop_first())
    }
}

/// The raw string payload at the front of the buffer: the content bytes
/// and the number of bytes consumed.
pub open spec fn dec_str_raw(s: Seq<u8>) -> Option<(Seq<u8>, int)> {
    if s.len() == 0 {
        None
    } else {
        let t = s[0];
        if 128 <= t && t < 192 {
            let n = (t - 128) as int;
            if s.len() >= 1 + n {
                Some((s.subrange(1, 1 + n), 1 + n))
            } else {
                None
            }
        } else if 49 <= t && t <= 57 {
            match find_byte(s, 58) {
                Some(k) => {
                    let digits = s.subrange(0, k);
                    if all_digits(digits) && dec_value(digits) <= usize::MAX {
                        let n = dec_value(digits);
                        if s.len() >= k + 1 + n {
                            Some((s.subrange(k + 1, k + 1 + n), k + 1 + n))
                        } else {
                            None
                        }
                    } else {
                        None
                    }
                }
                None => None,
            }
        } else {
            None
        }
    }
}

/// A decoded string payload classified by UTF-8 validity: text when the
/// bytes decode, an opaque byte string otherwise.
pub open spec fn dec_strbytes(s: Seq<u8>) -> Option<(RVal, int)> {
    match dec_str_raw(s) {
        Some(p) => if valid_utf8(p.0) {
            Some((RVal::Text(decode_utf8(p.0)), p.1))
        } else {
            Some((RVal::Blob(p.0), p.1))
        },
        None => None,
    }
}

/// A dict key: a string payload that must decode as UTF-8 text; a key
/// position that is not a string fails the whole decode.
pub open spec fn dec_key(s: Seq<u8>) -> Option<(Seq<char>, int)> {
    match dec_str_raw(s) {
        Some(p) => if valid_utf8(p.0) {
            Some((decode_utf8(p.0), p.1))
        } else {
            None
        },
        None => None,
    }
}

/// The terminated-number token's payload: text up to the terminator, read
/// as a 64-bit float when it holds a decimal point and as a 64-bit signed
/// integer otherwise. The tag itself is already consumed.
pub open spec fn dec_num(s: Seq<u8>) -> Option<(RVal, int)> {
    match find_byte(s, CHR_TERM) {
        Some(k) => {
            let content = s.subrange(0, k);
            if contains_byte(content, 46) {
                if valid_utf8(content) {
                    match f64_bits_of_decimal(decode_utf8(content)) {
                        Some(bits) => Some((RVal::F64(bits), k + 1)),
                        None => None,
                    }
                } else {
                    None
                }
            } else {
                match i64_dec_of(content) {
                    Some(v) => Some((RVal::I64(v), k + 1)),
                    None => None,
                }
            }
        }
        None => None,
    }
}

/// The decoding of one value from the front of the buffer: the value and
/// the number of bytes consumed, or None on any malformed or truncated
/// input. This is the authoritative statement of the decoder; the
/// executable decoder is proved to agree with it exactly.
pub open spec fn dec(s: Seq<u8>) -> Option<(RVal, int)>
    decreases s.len(), 0int, 0int,
{
    if s.len() == 0 {
        None
    } else {
        let t = s[0];
        if t == CHR_DICT {
            match dec_pairs_sent(s.drop_first()) {
                Some(p) => Some((RVal::Dict(fold_put(Seq::empty(), p.0)), 1 + p.1)),
                None => None,
            }
        } else if 102 <= t && t < 127 {
            match dec_pairs_fixed(s.drop_first(), t - 102) {
                Some(p) => Some((RVal::Dict(fold_put(Seq::empty(), p.0)), 1 + p.1)),
                None => None,
            }
        } else if t == CHR_LIST {
            match dec_elems_sent(s.drop_first()) {
                Some(p) => Some((RVal::List(p.0), 1 + p.1)),
                None => None,
            }
        } else if t >= 192 {
            match dec_elems_fixed(s.drop_first(), t - 192) {
                Some(p) => Some((RVal::List(p.0), 1 + p.1)),
                None => None,
            }
        } else if t == CHR_INT {
            match dec_num(s.drop_first()) {
                Some(p) => Some((p.0, 1 + p.1)),
                None => None,
            }
        } else if t == CHR_TRUE || t == CHR_FALSE {
            Some((RVal::Bool(t == CHR_TRUE), 1))
        } else if t == CHR_FLOAT32 {
            if s.len() >= 5 {
                Some((RVal::F32(be_val4(s.subrange(1, 5))), 5))
            } else {
                None
            }
        } else if t == CHR_FLOAT64 {
            if s.len() >= 9 {
                Some((RVal::F64(be_val8(s.subrange(1, 9))), 9))
            } else {
                None
            }
        } else if t < 44 {
            Some((RVal::I8(t as i8), 1))
        } else if 70 <= t && t < 102 {
            Some((RVal::I8((69 - t) as i8), 1))
        } else if t == CHR_INT1 {
            if s.len() >= 2 {
                Some((RVal::I8(i8_of_u8(s[1])), 2))
            } else {
                None
            }
        } else if t == CHR_INT2 {
            if s.len() >= 3 {
                Some((RVal::I16(i16_of_u16(be_val2(s.subrange(1, 3)))), 3))
            } else {
                None
            }
        } else if t == CHR_INT4 {
            if s.len() >= 5 {
                Some((RVal::I32(i32_of_u32(be_val4(s.subrange(1, 5)))), 5))
            } else {
                None
            }
        } else if t == CHR_INT8 {
            if s.len() >= 9 {
                Some((RVal::I64(i64_of_u64(be_val8(s.subrange(1, 9)))), 9))
            } else {
                None
            }
        } else {
            dec_strbytes(s)
        }
    }
}

pub open spec fn dec_elems_fixed(s: Seq<u8>, count: int) -> Option<(Seq<RVal>, int)>
    decreases s.len(), 1int, count,
{
    if count <= 0 {
        Some((Seq::empty(), 0int))
    } else {
        match dec(s) {
            Some(p) => if 1 <= p.1 <= s.len() {
                match dec_elems_fixed(s.skip(p.1), count - 1) {
                    Some(q) => Some((seq![p.0] + q.0, p.1 + q.1)),
                    None => None,
                }
            } else {
                None
            },
            None => None,
        }
    }
}

pub open spec fn dec_elems_sent(s: Seq<u8>) -> Option<(Seq<RVal>, int)>
    decreases s.len(), 1int, 0int,
{
    if s.len() == 0 {
        None
    } else if s[0] == CHR_TERM {
        Some((Seq::empty(), 1int))
    } else {
        match dec(s) {
            Some(p) => if 1 <= p.1 <= s.len() {
                match dec_elems_sent(s.skip(p.1)) {
                    Some(q) => Some((seq![p.0] + q.0, p.1 + q.1)),
                    None => None,
                }
            } else {
                None
            },
            None => None,
        }
    }
}

pub open spec fn dec_pairs_fixed(s: Seq<u8>, count: int) -> Option<
    (Seq<(Seq<char>, RVal)>, int),
>
    decreases s.len(), 1int, count,
{
    if count <= 0 {
        Some((Seq::empty(), 0int))
    } else {
        match dec_key(s) {
            Some(kp) => if 1 <= kp.1 <= s.len() {
                match dec(s.skip(kp.1)) {
                    Some(vp) => if 1 <= vp.1 <= s.len() - kp.1 {
                        match dec_pairs_fixed(s.skip(kp.1 + vp.1), count - 1) {
                            Some(q) => Some((seq![(kp.0, vp.0)] + q.0, kp.1 + vp.1 + q.1)),
                            None => None,
                        }
                    } else {
                        None
                    },
                    None => None,
                }
            } else {
                None
            },
            None => None,
        }
    }
}

pub open spec fn dec_pairs_sent(s: Seq<u8>) -> Option<(Seq<(Seq<char>, RVal)>, int)>
    decreases s.len(), 1int, 0int,
{
    if s.len() == 0 {
        None
    } else if s[0] == CHR_TERM {
        Some((Seq::empty(), 1int))
    } else {
        match dec_key(s) {
            Some(kp) => if 1 <= kp.1 <= s.len() {
                match dec(s.skip(kp.1)) {
                    Some(vp) => if 1 <= vp.1 <= s.len() - kp.1 {
                        match dec_pairs_sent(s.skip(kp.1 + vp.1)) {
                            Some(q) => Some((seq![(kp.0, vp.0)] + q.0, kp.1 + vp.1 + q.1)),
                            None => None,
                        }
                    } else {
                        None
                    },
                    None => None,
                }
            } else {
                None
            },
            None => None,
        }
    }
}

/// Round-trippable value trees: every dict has distinct keys, every opaque
/// byte string is not valid UTF-8 (a UTF-8 byte string decodes as text),
/// and every string payload fits the machine's length type.
pub open spec fn wf(v: RVal) -> bool
    decreases v, 1int,
{
    match v {
        RVal::Dict(m) => wf_entries(m) && entry_keys_unique(m),
        RVal::List(l) => wf_seq(l),
        RVal::Text(t) => encode_utf8(t).len() <= usize::MAX,
        RVal::Blob(b) => !valid_utf8(b) && b.len() <= usize::MAX,
        _ => true,
    }
}

pub open spec fn wf_seq(l: Seq<RVal>) -> bool
    decreases l, 0int,
{
    l.len() == 0 || (wf(l[0]) && wf_seq(l.drop_first()))
}

pub open spec fn wf_entries(m: Seq<(Seq<char>, RVal)>) -> bool
    decreases m, 0int,
{
    m.len() == 0 || (encode_utf8(m[0].0).len() <= usize::MAX && wf(m[0].1) && wf_entries(
        m.drop_first(),
    ))
}

pub open spec fn entry_keys_unique(m: Seq<(Seq<char>, RVal)>) -> bool {
    forall|i: int, j: int| 0 <= i < j < m.len() ==> m[i].0 != m[j].0
}

pub proof fn lemma_key_index_first(m: Seq<(Seq<char>, RVal)>, k: Seq<char>, i: int)
    requires
        0 <= i < m.len(),
        m[i].0 == k,
        forall|j: int| 0 <= j < i ==> m[j].0 != k,
    ensures
        has_key(m, k),
        key_index(m, k) == i,
    decreases m.len(),
{
    if i == 0 {
    } else {
        let t = m.drop_first();
        assert(t[i - 1] == m[i]);
        assert forall|j: int| 0 <= j < i - 1 implies t[j].0 != k by {
            assert(t[j] == m[j + 1]);
        }
        lemma_key_index_first(t, k, i - 1);
    }
}

pub proof fn lemma_fold_put_push(
    acc: Seq<(Seq<char>, RVal)>,
    pairs: Seq<(Seq<char>, RVal)>,
    p: (Seq<char>, RVal),
)
    ensures
        fold_put(acc, pairs.push(p)) == map_put(fold_put(acc, pairs), p.0, p.1),
    decreases pairs.len(),
{
    if pairs.len() == 0 {
        assert(pairs.push(p)[0] == p);
        assert(pairs.push(p).drop_first() =~= Seq::<(Seq<char>, RVal)>::empty());
        assert(fold_put(map_put(acc, p.0, p.1), Seq::empty()) == map_put(acc, p.0, p.1));
    } else {
        assert(pairs.push(p)[0] == pairs[0]);
        assert(pairs.push(p).drop_first() =~= pairs.drop_first().push(p));
        lemma_fold_put_push(map_put(acc, pairs[0].0, pairs[0].1), pairs.drop_first(), p);
    }
}

pub proof fn lemma_find_byte_bound(s: Seq<u8>, x: u8)
    ensures
        match find_byte(s, x) {
            Some(k) => 0 <= k < s.len(),
            None => true,
        },
    decreases s.len(),
{
    if s.len() > 0 && s[0] != x {
        lemma_find_byte_bound(s.drop_first(), x);
    }
}

pub proof fn lemma_dec_str_raw_consumes(s: Seq<u8>)
    ensures
        match dec_str_raw(s) {
            Some(p) => 1 <= p.1 <= s.len(),
            None => true,
        },
{
    lemma_find_byte_bound(s, 58);
    if s.len() > 0 && 49 <= s[0] <= 57 {
        match find_byte(s, 58) {
            Some(k) => {
                let digits = s.subrange(0, k);
                if all_digits(digits) {
                    crate::rencode::numeric::lemma_dec_value_nonneg(digits);
                }
            }
            None => {}
        }
    }
}

/// Every successful decoding consumes at least one byte and at most the
/// whole buffer.
pub proof fn lemma_dec_consumes(s: Seq<u8>)
    ensures
        match dec(s) {
            Some(p) => 1 <= p.1 <= s.len(),
            None => true,
        },
    decreases s.len(), 0int, 0int,
{
    if s.len() > 0 {
        let t = s[0];
        if t == CHR_DICT {
            lemma_dec_pairs_sent_consumes(s.drop_first());
        } else if 102 <= t && t < 127 {
            lemma_dec_pairs_fixed_consumes(s.drop_first(), t - 102);
        } else if t == CHR_LIST {
            lemma_dec_elems_sent_consumes(s.drop_first());
        } else if t >= 192 {
            lemma_dec_elems_fixed_consumes(s.drop_first(), t - 192);
        } else if t == CHR_INT {
            lemma_find_byte_bound(s.drop_first(), CHR_TERM);
        } else {
            lemma_dec_str_raw_consumes(s);
        }
    }
}

pub proof fn lemma_dec_elems_fixed_consumes(s: Seq<u8>, count: int)
    ensures
        match dec_elems_fixed(s, count) {
            Some(q) => 0 <= q.1 <= s.len(),
            None => true,
        },
    decreases s.len(), 1int, count,
{
    if count > 0 {
        lemma_dec_consumes(s);
        match dec(s) {
            Some(p) => {
                if 1 <= p.1 <= s.len() {
                    lemma_dec_elems_fixed_consumes(s.skip(p.1), count - 1);
                }
            }
            None => {}
        }
    }
}

pub proof fn lemma_dec_elems_sent_consumes(s: Seq<u8>)
    ensures
        match dec_elems_sent(s) {
            Some(q) => 1 <= q.1 <= s.len(),
            None => true,
        },
    decreases s.len(), 1int, 0int,
{
    if s.len() > 0 && s[0] != CHR_TERM {
        lemma_dec_consumes(s);
        match dec(s) {
            Some(p) => {
                if 1 <= p.1 <= s.len() {
                    lemma_dec_elems_sent_consumes(s.skip(p.1));
                }
            }
            None => {}
        }
    }
}

pub proof fn lemma_dec_pairs_fixed_consumes(s: Seq<u8>, count: int)
    ensures
        match dec_pairs_fixed(s, count) {
            Some(q) => 0 <= q.1 <= s.len(),
            None => true,
        },
    decreases s.len(), 1int, count,
{
    if count > 0 {
        lemma_dec_str_raw_consumes(s);
        match dec_key(s) {
            Some(kp) => {
                if 1 <= kp.1 <= s.len() {
                    lemma_dec_consumes(s.skip(kp.1));
                    match dec(s.skip(kp.1)) {
                        Some(vp) => {
                            if 1 <= vp.1 <= s.len() - kp.1 {
                                lemma_dec_pairs_fixed_consumes(s.skip(kp.1 + vp.1), count - 1);
                            }
                        }
                        None => {}
                    }
                }
            }
            None => {}
        }
    }
}

pub proof fn lemma_dec_pairs_sent_consumes(s: Seq<u8>)
    ensures
        match dec_pairs_sent(s) {
            Some(q) => 1 <= q.1 <= s.len(),
            None => true,
        },
    decreases s.len(), 1int, 0int,
{
    if s.len() > 0 && s[0] != CHR_TERM {
        lemma_dec_str_raw_consumes(s);
        match dec_key(s) {
            Some(kp) => {
                if 1 <= kp.1 <= s.len() {
                    lemma_dec_consumes(s.skip(kp.1));
                    match dec(s.skip(kp.1)) {
                        Some(vp) => {
                            if 1 <= vp.1 <= s.len() - kp.1 {
                                lemma_dec_pairs_sent_consumes(s.skip(kp.1 + vp.1));
                            }
                        }
                        None => {}
                    }
                }
            }
            None => {}
        }
    }
}

} // verus!
