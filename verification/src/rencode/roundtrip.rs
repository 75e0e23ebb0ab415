use vstd::prelude::*;

use vstd::utf8::{decode_utf8, encode_utf8, encode_utf8_decode_utf8, encode_utf8_valid_utf8,
    valid_utf8};

use crate::rencode::constants::{CHR_TERM};
use crate::rencode::model::{
    all_digits, be_bytes2, be_bytes4, be_bytes8, be_val2, be_val4, be_val8, dec, dec_digits,
    dec_elems_fixed, dec_elems_sent, dec_key, dec_pairs_fixed, dec_pairs_sent, dec_str_raw,
    dec_strbytes, dec_value, enc, enc_entries, enc_seq, enc_strbytes, entry_keys_unique,
    find_byte, fold_put, has_key, i16_of_u16, i32_of_u32, i64_of_u64, i8_of_u8, map_put,
    u16_of_i16, u32_of_i32, u64_of_i64, u8_of_i8, wf, wf_entries, wf_seq, RVal,
};
use crate::rencode::numeric::{lemma_dec_digits_props, lemma_find_byte_some};

verus! {

proof fn lemma_be2_inverse(v: u16)
    ensures
        be_val2(be_bytes2(v)) == v,
{
    let b0 = ((v >> 8) & 0xff) as u8;
    let b1 = (v & 0xff) as u8;
    assert(((b0 as u16) << 8) | (b1 as u16) == v) by (bit_vector)
        requires
            b0 == ((v >> 8) & 0xff) as u8,
            b1 == (v & 0xff) as u8,
    ;
}

proof fn lemma_be4_inverse(v: u32)
    ensures
        be_val4(be_bytes4(v)) == v,
{
    let b0 = ((v >> 24) & 0xff) as u8;
    let b1 = ((v >> 16) & 0xff) as u8;
    let b2 = ((v >> 8) & 0xff) as u8;
    let b3 = (v & 0xff) as u8;
    assert(((b0 as u32) << 24) | ((b1 as u32) << 16) | ((b2 as u32) << 8) | (b3 as u32) == v)
        by (bit_vector)
        requires
            b0 == ((v >> 24) & 0xff) as u8,
            b1 == ((v >> 16) & 0xff) as u8,
            b2 == ((v >> 8) & 0xff) as u8,
            b3 == (v & 0xff) as u8,
    ;
}

proof fn lemma_be8_inverse(v: u64)
    ensures
        be_val8(be_bytes8(v)) == v,
{
    let b0 = ((v >> 56) & 0xff) as u8;
    let b1 = ((v >> 48) & 0xff) as u8;
    let b2 = ((v >> 40) & 0xff) as u8;
    let b3 = ((v >> 32) & 0xff) as u8;
    let b4 = ((v >> 24) & 0xff) as u8;
    let b5 = ((v >> 16) & 0xff) as u8;
    let b6 = ((v >> 8) & 0xff) as u8;
    let b7 = (v & 0xff) as u8;
    assert(((b0 as u64) << 56) | ((b1 as u64) << 48) | ((b2 as u64) << 40) | ((b3 as u64) << 32)
        | ((b4 as u64) << 24) | ((b5 as u64) << 16) | ((b6 as u64) << 8) | (b7 as u64) == v)
        by (bit_vector)
        requires
            b0 == ((v >> 56) & 0xff) as u8,
            b1 == ((v >> 48) & 0xff) as u8,
            b2 == ((v >> 40) & 0xff) as u8,
            b3 == ((v >> 32) & 0xff) as u8,
            b4 == ((v >> 24) & 0xff) as u8,
            b5 == ((v >> 16) & 0xff) as u8,
            b6 == ((v >> 8) & 0xff) as u8,
            b7 == (v & 0xff) as u8,
    ;
}

/// Every encoding is non-empty, and never begins with the terminator, so a
/// sentinel-terminated container can always tell its end from its next
/// element.
pub proof fn lemma_enc_head(v: RVal)
    ensures
        enc(v).len() >= 1,
        enc(v)[0] != CHR_TERM,
{
    match v {
        RVal::Text(t) => {
            lemma_enc_strbytes_head(encode_utf8(t));
        }
        RVal::Blob(b) => {
            lemma_enc_strbytes_head(b);
        }
        _ => {}
    }
}

proof fn lemma_enc_strbytes_head(b: Seq<u8>)
    ensures
        enc_strbytes(b).len() >= 1,
        enc_strbytes(b)[0] != CHR_TERM,
        enc_strbytes(b).len() >= 1 + b.len(),
{
    if b.len() >= 64 {
        lemma_dec_digits_props(b.len() as nat);
        assert(enc_strbytes(b)[0] == dec_digits(b.len() as nat)[0]);
    }
}

/// Decoding a string payload from the front of a buffer recovers exactly
/// the bytes that were encoded.
proof fn lemma_strbytes_dec(b: Seq<u8>, rest: Seq<u8>)
    requires
        b.len() <= usize::MAX,
    ensures
        dec_str_raw(enc_strbytes(b) + rest) == Some((b, enc_strbytes(b).len() as int)),
{
    let e = enc_strbytes(b);
    let s = e + rest;
    if b.len() < 64 {
        let t = s[0];
        assert(t == (128 + b.len()) as u8);
        assert(128 <= t && t < 192);
        assert(s.subrange(1, 1 + b.len() as int) =~= b);
    } else {
        let l = b.len() as nat;
        let dd = dec_digits(l);
        lemma_dec_digits_props(l);
        let t = s[0];
        assert(t == dd[0]);
        assert(49 <= t && t <= 57);
        assert(s[dd.len() as int] == 58);
        assert forall|j: int| 0 <= j < dd.len() implies s[j] != 58 by {
            assert(s[j] == dd[j]);
            assert(48 <= dd[j] <= 57);
        }
        lemma_find_byte_some(s, 58, dd.len() as int);
        let k = dd.len() as int;
        assert(s.subrange(0, k) =~= dd);
        assert(dec_value(dd) == l);
        assert(s.len() >= k + 1 + l);
        assert(s.subrange(k + 1, k + 1 + l as int) =~= b);
        assert(e.len() == k + 1 + l);
    }
}

/// Inserting pairs whose keys are pairwise distinct and absent from the
/// accumulator appends them in order.
proof fn lemma_fold_put_id(acc: Seq<(Seq<char>, RVal)>, pairs: Seq<(Seq<char>, RVal)>)
    requires
        entry_keys_unique(pairs),
        forall|i: int| 0 <= i < pairs.len() ==> !has_key(acc, #[trigger] pairs[i].0),
    ensures
        fold_put(acc, pairs) == acc + pairs,
    decreases pairs.len(),
{
    if pairs.len() == 0 {
        assert(fold_put(acc, pairs) =~= acc + pairs);
    } else {
        let p0 = pairs[0];
        assert(!has_key(acc, p0.0));
        let acc1 = map_put(acc, p0.0, p0.1);
        assert(acc1 == acc.push(p0));
        let tail = pairs.drop_first();
        assert(entry_keys_unique(tail)) by {
            assert forall|i: int, j: int| 0 <= i < j < tail.len() implies tail[i].0 != tail[j].0
                by {
                assert(tail[i] == pairs[i + 1]);
                assert(tail[j] == pairs[j + 1]);
            }
        }
        assert forall|i: int| 0 <= i < tail.len() implies !has_key(acc1, #[trigger] tail[i].0)
            by {
            assert(tail[i] == pairs[i + 1]);
            assert(!has_key(acc, pairs[i + 1].0));
            assert(pairs[i + 1].0 != p0.0);
            if has_key(acc1, tail[i].0) {
                let w = choose|w: int| 0 <= w < acc1.len() && acc1[w].0 == tail[i].0;
                if w < acc.len() {
                    assert(acc[w].0 == tail[i].0);
                } else {
                    assert(acc1[w] == p0);
                }
            }
        }
        lemma_fold_put_id(acc1, tail);
        assert(acc.push(p0) + tail =~= acc + pairs);
    }
}

/// Round trip for every well-formed value tree: decoding an encoding, with
/// any trailing bytes after it, yields back exactly the value and consumes
/// exactly its encoding.
#[verifier::rlimit(100)]
pub proof fn lemma_round_trip(v: RVal, rest: Seq<u8>)
    requires
        wf(v),
    ensures
        dec(enc(v) + rest) == Some((v, enc(v).len() as int)),
    decreases v, 1int,
{
    let e = enc(v);
    let s = e + rest;
    lemma_enc_head(v);
    match v {
        RVal::Bool(b) => {
            assert(s.len() >= 1);
        }
        RVal::F32(bits) => {
            assert(s.subrange(1, 5) =~= be_bytes4(bits));
            lemma_be4_inverse(bits);
        }
        RVal::F64(bits) => {
            assert(s.subrange(1, 9) =~= be_bytes8(bits));
            lemma_be8_inverse(bits);
        }
        RVal::I8(i) => {
            if 0 <= i && i < 44 {
                assert(s[0] == i as u8);
                assert(s[0] < 44);
            } else if -32 <= i && i < 0 {
                assert(s[0] == (69 - i) as u8);
                assert(70 <= s[0] && s[0] < 102);
                assert((69 - s[0]) as i8 == i);
            } else {
                assert(s[1] == u8_of_i8(i));
                assert(i8_of_u8(u8_of_i8(i)) == i);
            }
        }
        RVal::I16(i) => {
            assert(s.subrange(1, 3) =~= be_bytes2(u16_of_i16(i)));
            lemma_be2_inverse(u16_of_i16(i));
            assert(i16_of_u16(u16_of_i16(i)) == i);
        }
        RVal::I32(i) => {
            assert(s.subrange(1, 5) =~= be_bytes4(u32_of_i32(i)));
            lemma_be4_inverse(u32_of_i32(i));
            assert(i32_of_u32(u32_of_i32(i)) == i);
        }
        RVal::I64(i) => {
            assert(s.subrange(1, 9) =~= be_bytes8(u64_of_i64(i)));
            lemma_be8_inverse(u64_of_i64(i));
            assert(i64_of_u64(u64_of_i64(i)) == i);
        }
        RVal::Text(t) => {
            let b = encode_utf8(t);
            encode_utf8_valid_utf8(t);
            encode_utf8_decode_utf8(t);
            lemma_strbytes_dec(b, rest);
            lemma_enc_strbytes_head(b);
            assert(dec_strbytes(s) == Some((RVal::Text(t), e.len() as int)));
        }
        RVal::Blob(b) => {
            lemma_strbytes_dec(b, rest);
            lemma_enc_strbytes_head(b);
            assert(dec_strbytes(s) == Some((RVal::Blob(b), e.len() as int)));
        }
        RVal::List(l) => {
            if l.len() < 64 {
                let t = s[0];
                assert(t == (192 + l.len()) as u8);
                assert(t >= 192);
                assert(s.drop_first() =~= enc_seq(l) + rest);
                lemma_round_trip_elems_fixed(l, rest);
                assert(t - 192 == l.len());
            } else {
                assert(s.drop_first() =~= enc_seq(l) + seq![CHR_TERM] + rest);
                lemma_round_trip_elems_sent(l, rest);
            }
        }
        RVal::Dict(m) => {
            lemma_fold_put_id(Seq::empty(), m);
            assert(Seq::empty() + m =~= m);
            if m.len() < 25 {
                let t = s[0];
                assert(t == (102 + m.len()) as u8);
                assert(102 <= t && t < 127);
                assert(s.drop_first() =~= enc_entries(m) + rest);
                lemma_round_trip_pairs_fixed(m, rest);
                assert(t - 102 == m.len());
            } else {
                assert(s.drop_first() =~= enc_entries(m) + seq![CHR_TERM] + rest);
                lemma_round_trip_pairs_sent(m, rest);
            }
        }
    }
}

proof fn lemma_round_trip_elems_fixed(l: Seq<RVal>, rest: Seq<u8>)
    requires
        wf_seq(l),
    ensures
        dec_elems_fixed(enc_seq(l) + rest, l.len() as int) == Some(
            (l, enc_seq(l).len() as int),
        ),
    decreases l, 0int,
{
    let s = enc_seq(l) + rest;
    if l.len() == 0 {
        assert(s =~= rest);
        assert(l =~= Seq::<RVal>::empty());
    } else {
        let v0 = l[0];
        let tail = l.drop_first();
        let n0 = enc(v0).len() as int;
        assert(s =~= enc(v0) + (enc_seq(tail) + rest));
        lemma_round_trip(v0, enc_seq(tail) + rest);
        lemma_enc_head(v0);
        assert(dec(s) == Some((v0, n0)));
        assert(s.skip(n0) =~= enc_seq(tail) + rest);
        lemma_round_trip_elems_fixed(tail, rest);
        assert(seq![v0] + tail =~= l);
    }
}

proof fn lemma_round_trip_elems_sent(l: Seq<RVal>, rest: Seq<u8>)
    requires
        wf_seq(l),
    ensures
        dec_elems_sent(enc_seq(l) + seq![CHR_TERM] + rest) == Some(
            (l, enc_seq(l).len() as int + 1),
        ),
    decreases l, 0int,
{
    let s = enc_seq(l) + seq![CHR_TERM] + rest;
    if l.len() == 0 {
        assert(s[0] == CHR_TERM);
        assert(l =~= Seq::<RVal>::empty());
    } else {
        let v0 = l[0];
        let tail = l.drop_first();
        let n0 = enc(v0).len() as int;
        assert(s =~= enc(v0) + (enc_seq(tail) + seq![CHR_TERM] + rest));
        lemma_round_trip(v0, enc_seq(tail) + seq![CHR_TERM] + rest);
        lemma_enc_head(v0);
        assert(s[0] == enc(v0)[0]);
        assert(s[0] != CHR_TERM);
        assert(dec(s) == Some((v0, n0)));
        assert(s.skip(n0) =~= enc_seq(tail) + seq![CHR_TERM] + rest);
        lemma_round_trip_elems_sent(tail, rest);
        assert(seq![v0] + tail =~= l);
    }
}

proof fn lemma_round_trip_pairs_fixed(m: Seq<(Seq<char>, RVal)>, rest: Seq<u8>)
    requires
        wf_entries(m),
    ensures
        dec_pairs_fixed(enc_entries(m) + rest, m.len() as int) == Some(
            (m, enc_entries(m).len() as int),
        ),
    decreases m, 0int,
{
    let s = enc_entries(m) + rest;
    if m.len() == 0 {
        assert(s =~= rest);
        assert(m =~= Seq::<(Seq<char>, RVal)>::empty());
    } else {
        let k0 = m[0].0;
        let v0 = m[0].1;
        let kb = encode_utf8(k0);
        let ke = enc_strbytes(kb);
        let tail = m.drop_first();
        let after_key = enc(v0) + (enc_entries(tail) + rest);
        assert(s =~= ke + after_key);
        encode_utf8_valid_utf8(k0);
        encode_utf8_decode_utf8(k0);
        lemma_strbytes_dec(kb, after_key);
        lemma_enc_strbytes_head(kb);
        assert(dec_key(s) == Some((k0, ke.len() as int)));
        assert(s.skip(ke.len() as int) =~= enc(v0) + (enc_entries(tail) + rest));
        lemma_round_trip(v0, enc_entries(tail) + rest);
        lemma_enc_head(v0);
        assert(s.skip(ke.len() + enc(v0).len() as int) =~= enc_entries(tail) + rest);
        lemma_round_trip_pairs_fixed(tail, rest);
        assert(seq![(k0, v0)] + tail =~= m);
    }
}

proof fn lemma_round_trip_pairs_sent(m: Seq<(Seq<char>, RVal)>, rest: Seq<u8>)
    requires
        wf_entries(m),
    ensures
        dec_pairs_sent(enc_entries(m) + seq![CHR_TERM] + rest) == Some(
            (m, enc_entries(m).len() as int + 1),
        ),
    decreases m, 0int,
{
    let s = enc_entries(m) + seq![CHR_TERM] + rest;
    if m.len() == 0 {
        assert(s[0] == CHR_TERM);
        assert(m =~= Seq::<(Seq<char>, RVal)>::empty());
    } else {
        let k0 = m[0].0;
        let v0 = m[0].1;
        let kb = encode_utf8(k0);
        let ke = enc_strbytes(kb);
        let tail = m.drop_first();
        let after_key = enc(v0) + (enc_entries(tail) + seq![CHR_TERM] + rest);
        assert(s =~= ke + after_key);
        encode_utf8_valid_utf8(k0);
        encode_utf8_decode_utf8(k0);
        lemma_strbytes_dec(kb, after_key);
        lemma_enc_strbytes_head(kb);
        assert(s[0] == ke[0]);
        assert(s[0] != CHR_TERM);
        assert(dec_key(s) == Some((k0, ke.len() as int)));
        assert(s.skip(ke.len() as int) =~= enc(v0) + (enc_entries(tail) + seq![CHR_TERM]
            + rest));
        lemma_round_trip(v0, enc_entries(tail) + seq![CHR_TERM] + rest);
        lemma_enc_head(v0);
        assert(s.skip(ke.len() + enc(v0).len() as int) =~= enc_entries(tail) + seq![CHR_TERM] + rest);
        lemma_round_trip_pairs_sent(tail, rest);
        assert(seq![(k0, v0)] + tail =~= m);
    }
}

/// String classification: decoding a string payload yields text exactly
/// when its raw bytes are valid UTF-8, and an opaque byte string with
/// identical content otherwise.
pub proof fn lemma_string_classification(b: Seq<u8>, rest: Seq<u8>)
    requires
        b.len() <= usize::MAX,
    ensures
        dec(enc_strbytes(b) + rest) == Some(
            (
                if valid_utf8(b) {
                    RVal::Text(decode_utf8(b))
                } else {
                    RVal::Blob(b)
                },
                enc_strbytes(b).len() as int,
            ),
        ),
{
    let s = enc_strbytes(b) + rest;
    lemma_strbytes_dec(b, rest);
    lemma_enc_strbytes_head(b);
    if b.len() >= 64 {
        lemma_dec_digits_props(b.len() as nat);
        assert(s[0] == dec_digits(b.len() as nat)[0]);
    } else {
        assert(s[0] == (128 + b.len()) as u8);
    }
    assert(dec(s) == dec_strbytes(s));
}

/// Round trip through the wire convention of [`crate::rencode::encode`]:
/// the encoded double-wrapped sequence decodes back to the same wrapped
/// value, so unwrapping it recovers every item unchanged.
pub proof fn lemma_round_trip_wrapped(items: Seq<RVal>)
    requires
        wf_seq(items),
    ensures
        ({
            let w = RVal::List(seq![RVal::List(items)]);
            dec(enc(w)) == Some((w, enc(w).len() as int))
        }),
{
    let inner = RVal::List(items);
    let w = RVal::List(seq![inner]);
    assert(wf(inner) == wf_seq(items));
    assert(wf(inner));
    assert(wf_seq(seq![inner])) by {
        assert(seq![inner][0] == inner);
        assert(seq![inner].drop_first() =~= Seq::<RVal>::empty());
        assert(wf_seq(Seq::<RVal>::empty()));
    }
    lemma_round_trip(w, Seq::empty());
    assert(enc(w) + Seq::<u8>::empty() =~= enc(w));
}

} // verus!
