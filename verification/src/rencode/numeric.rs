use vstd::prelude::*;

use crate::rencode::model::{all_digits, dec_digits, dec_value, find_byte, i64_dec_of};

verus! {

pub proof fn lemma_dec_value_nonneg(s: Seq<u8>)
    requires
        all_digits(s),
    ensures
        dec_value(s) >= 0,
    decreases s.len(),
{
    if s.len() > 0 {
        assert(all_digits(s.drop_last())) by {
            assert forall|i: int| 0 <= i < s.drop_last().len() implies 48 <= #[trigger] s.drop_last()[i] <= 57 by {
                assert(s.drop_last()[i] == s[i]);
            }
        }
        lemma_dec_value_nonneg(s.drop_last());
        assert(dec_value(s.drop_last()) * 10 >= 0) by (nonlinear_arith)
            requires
                dec_value(s.drop_last()) >= 0,
        ;
    }
}

pub proof fn lemma_dec_value_step(s: Seq<u8>, i: int)
    requires
        0 <= i < s.len(),
    ensures
        dec_value(s.take(i + 1)) == dec_value(s.take(i)) * 10 + (s[i] - 48),
{
    assert(s.take(i + 1).drop_last() =~= s.take(i));
    assert(s.take(i + 1).last() == s[i]);
}

pub proof fn lemma_all_digits_take(s: Seq<u8>, i: int)
    requires
        all_digits(s),
        0 <= i <= s.len(),
    ensures
        all_digits(s.take(i)),
{
    assert forall|j: int| 0 <= j < s.take(i).len() implies 48 <= #[trigger] s.take(i)[j] <= 57 by {
        assert(s.take(i)[j] == s[j]);
    }
}

pub proof fn lemma_dec_value_prefix(s: Seq<u8>, i: int)
    requires
        all_digits(s),
        0 <= i <= s.len(),
    ensures
        dec_value(s.take(i)) <= dec_value(s),
    decreases s.len() - i,
{
    if i == s.len() {
        assert(s.take(i) =~= s);
    } else {
        lemma_all_digits_take(s, i);
        lemma_dec_value_nonneg(s.take(i));
        lemma_dec_value_step(s, i);
        assert(dec_value(s.take(i)) * 10 >= dec_value(s.take(i))) by (nonlinear_arith)
            requires
                dec_value(s.take(i)) >= 0,
        ;
        lemma_dec_value_prefix(s, i + 1);
    }
}

pub proof fn lemma_dec_digits_props(n: nat)
    ensures
        all_digits(dec_digits(n)),
        dec_value(dec_digits(n)) == n,
        dec_digits(n).len() >= 1,
        n >= 1 ==> 49 <= dec_digits(n)[0] <= 57,
    decreases n,
{
    if n < 10 {
        assert(dec_digits(n) =~= seq![(48 + n) as u8]);
        assert(dec_value(dec_digits(n)) == dec_value(dec_digits(n).drop_last()) * 10 + (
        dec_digits(n).last() - 48));
        assert(dec_digits(n).drop_last() =~= Seq::<u8>::empty());
    } else {
        lemma_dec_digits_props(n / 10);
        let d = dec_digits(n);
        assert(d == dec_digits(n / 10) + seq![(48 + n % 10) as u8]);
        assert(d.drop_last() =~= dec_digits(n / 10));
        assert(d.last() == (48 + n % 10) as u8);
        assert(dec_value(d) == (n / 10) * 10 + n % 10);
        assert((n / 10) * 10 + n % 10 == n) by (nonlinear_arith);
        assert forall|i: int| 0 <= i < d.len() implies 48 <= #[trigger] d[i] <= 57 by {
            if i < dec_digits(n / 10).len() {
                assert(d[i] == dec_digits(n / 10)[i]);
            }
        }
        assert(d[0] == dec_digits(n / 10)[0]);
    }
}

pub proof fn lemma_find_byte_some(s: Seq<u8>, x: u8, k: int)
    requires
        0 <= k < s.len(),
        s[k] == x,
        forall|j: int| 0 <= j < k ==> s[j] != x,
    ensures
        find_byte(s, x) == Some(k),
    decreases s.len(),
{
    if k == 0 {
    } else {
        assert(s[0] != x);
        let t = s.drop_first();
        assert(t[k - 1] == s[k]);
        assert forall|j: int| 0 <= j < k - 1 implies t[j] != x by {
            assert(t[j] == s[j + 1]);
        }
        lemma_find_byte_some(t, x, k - 1);
    }
}

pub proof fn lemma_find_byte_none(s: Seq<u8>, x: u8)
    requires
        forall|j: int| 0 <= j < s.len() ==> s[j] != x,
    ensures
        find_byte(s, x) is None,
    decreases s.len(),
{
    if s.len() > 0 {
        let t = s.drop_first();
        assert forall|j: int| 0 <= j < t.len() implies t[j] != x by {
            assert(t[j] == s[j + 1]);
        }
        lemma_find_byte_none(t, x);
    }
}

/// The decimal digits of `n`, most significant first.
pub fn render_decimal(n: usize) -> (r: Vec<u8>)
    ensures
        r@ == dec_digits(n as nat),
    decreases n,
{
    if n < 10 {
        let mut v: Vec<u8> = Vec::new();
        v.push(48 + n as u8);
        proof {
            assert(v@ =~= dec_digits(n as nat));
        }
        v
    } else {
        let mut v = render_decimal(n / 10);
        v.push(48 + (n % 10) as u8);
        proof {
            assert(v@ =~= dec_digits(n as nat));
        }
        v
    }
}

/// Reads the digits of `b` from `start` on as a decimal magnitude, failing
/// on a non-digit byte or a value above `limit`.
pub fn parse_mag_u64(b: &Vec<u8>, start: usize, limit: u64) -> (r: Option<u64>)
    requires
        start <= b@.len(),
        limit >= 9,
    ensures
        ({
            let d = b@.skip(start as int);
            match r {
                Some(v) => all_digits(d) && dec_value(d) <= limit && v == dec_value(d),
                None => !(all_digits(d) && dec_value(d) <= limit),
            }
        }),
{
    let ghost d = b@.skip(start as int);
    let mut acc: u64 = 0;
    let mut i: usize = start;
    while i < b.len()
        invariant
            limit >= 9,
            start <= i <= b@.len(),
            d == b@.skip(start as int),
            all_digits(d.take(i - start)),
            acc == dec_value(d.take(i - start)),
            acc <= limit,
        decreases b@.len() - i,
    {
        let c = b[i];
        proof {
            assert(d[i - start] == b@[i as int]);
        }
        if c < 48 || c > 57 {
            proof {
                assert(!all_digits(d));
            }
            return None;
        }
        let dv: u64 = (c - 48) as u64;
        proof {
            lemma_dec_value_step(d, i - start);
        }
        if acc > (limit - dv) / 10 {
            proof {
                // acc * 10 + dv > limit, so the full value exceeds the limit
                // whenever every byte is a digit.
                assert(acc * 10 + dv > limit) by (nonlinear_arith)
                    requires
                        acc > (limit - dv) / 10,
                        0 <= dv <= limit,
                ;
                if all_digits(d) {
                    lemma_dec_value_prefix(d, i - start + 1);
                }
            }
            return None;
        }
        proof {
            assert(acc * 10 + dv <= limit) by (nonlinear_arith)
                requires
                    acc <= (limit - dv) / 10,
                    0 <= dv <= limit,
            ;
        }
        acc = acc * 10 + dv;
        i = i + 1;
        proof {
            assert(all_digits(d.take(i - start))) by {
                assert forall|j: int| 0 <= j < i - start implies 48 <= #[trigger] d.take(
                    i - start,
                )[j] <= 57 by {
                    assert(d.take(i - start)[j] == d[j]);
                    if j < i - start - 1 {
                        assert(d.take(i - start - 1)[j] == d[j]);
                    }
                }
            }
        }
    }
    proof {
        assert(d.take(i - start) =~= d);
    }
    Some(acc)
}

/// Reads a whole byte string as a decimal 64-bit signed integer: an
/// optional sign, then at least one digit, with the value in range.
pub fn parse_i64_bytes(b: &Vec<u8>) -> (r: Option<i64>)
    ensures
        r == i64_dec_of(b@),
{
    if b.len() == 0 {
        return None;
    }
    let first = b[0];
    if first == 45 || first == 43 {
        if b.len() == 1 {
            proof {
                assert(b@.drop_first().len() == 0);
            }
            return None;
        }
        proof {
            assert(b@.skip(1) =~= b@.drop_first());
        }
        if first == 45 {
            let limit: u64 = 9223372036854775808u64;
            match parse_mag_u64(b, 1, limit) {
                Some(v) => {
                    proof {
                        lemma_dec_value_nonneg(b@.drop_first());
                    }
                    if v == limit {
                        Some(i64::MIN)
                    } else {
                        Some(-(v as i64))
                    }
                }
                None => None,
            }
        } else {
            match parse_mag_u64(b, 1, i64::MAX as u64) {
                Some(v) => Some(v as i64),
                None => None,
            }
        }
    } else {
        proof {
            assert(b@.skip(0) =~= b@);
        }
        match parse_mag_u64(b, 0, i64::MAX as u64) {
            Some(v) => Some(v as i64),
            None => None,
        }
    }
}

} // verus!
