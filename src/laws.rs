//! Properties of the codec, stated over the spec functions that the
//! contracts of `encode` and `decode` use.
use vstd::arithmetic::power2::{
    lemma2_to64, lemma_pow2_pos, lemma_pow2_strictly_increases, lemma_pow2_unfold, pow2,
};
use vstd::prelude::*;

use crate::varint::{
    decode_spec, encode_spec, groups_value, lemma_groups_value_bound, lemma_groups_value_push,
    lemma_leading_continued, lemma_leading_continued_len, leading_continued, VarintError,
    MAX_VARINT_LEN,
};

verus! {

/// Number of significant bits of `v` (zero for zero).
pub open spec fn bit_length(v: nat) -> nat
    decreases v,
{
    if v == 0 {
        0
    } else {
        1 + bit_length(v / 2)
    }
}

/// `v` fits in `k` bits exactly when its bit length is at most `k`.
pub proof fn lemma_bit_length_bound(v: nat, k: nat)
    ensures
        v < pow2(k) <==> bit_length(v) <= k,
    decreases k,
{
    lemma2_to64();
    lemma_pow2_pos(k);
    if v == 0 {
        assert(bit_length(v) == 0);
    } else {
        assert(bit_length(v) == 1 + bit_length(v / 2));
        if k > 0 {
            lemma_bit_length_bound(v / 2, (k - 1) as nat);
            lemma_pow2_unfold(k);
        }
    }
}

/// A group sequence whose last group is not zero carries a value of at least
/// 2^(7 * (len - 1)).
proof fn lemma_groups_value_lower(s: Seq<u8>)
    requires
        s.len() >= 1,
        s.last() % 128 != 0,
    ensures
        groups_value(s) >= pow2((7 * (s.len() - 1)) as nat),
{
    let init = s.drop_last();
    assert(init.push(s.last()) =~= s);
    lemma_groups_value_push(init, s.last());
    let p = pow2((7 * init.len()) as nat);
    let c = (s.last() % 128) as nat;
    assert(c * p >= p) by (nonlinear_arith)
        requires
            c >= 1,
    ;
}

/// The shape of an encoding: one or more bytes, all but the last with the
/// continuation bit set, the last without it and not zero unless it is the
/// only byte; and its groups carry `v`.
pub proof fn lemma_encode_shape(v: nat)
    ensures
        encode_spec(v).len() >= 1,
        forall|j: int| 0 <= j < encode_spec(v).len() - 1 ==> encode_spec(v)[j] >= 128,
        encode_spec(v).last() < 128,
        encode_spec(v).len() > 1 ==> encode_spec(v).last() != 0,
        groups_value(encode_spec(v)) == v,
    decreases v,
{
    let e = encode_spec(v);
    if v < 128 {
        assert(e.drop_first() =~= Seq::<u8>::empty());
        assert(groups_value(Seq::<u8>::empty()) == 0);
    } else {
        let rest = encode_spec(v / 128);
        lemma_encode_shape(v / 128);
        assert(e.drop_first() =~= rest);
        assert forall|j: int| 0 <= j < e.len() - 1 implies e[j] >= 128 by {
            if j > 0 {
                assert(e[j] == rest[j - 1]);
            }
        }
        assert(e.last() == rest.last());
        if rest.len() == 1 {
            assert(rest == seq![(v / 128) as u8]);
        }
    }
}

/// An encoding of a 64-bit value takes at most ten bytes.
proof fn lemma_encode_len_bound(v: u64)
    ensures
        encode_spec(v as nat).len() <= MAX_VARINT_LEN,
{
    let e = encode_spec(v as nat);
    lemma_encode_shape(v as nat);
    if e.len() > MAX_VARINT_LEN {
        lemma2_to64();
        lemma_groups_value_lower(e);
        lemma_pow2_strictly_increases(64, (7 * (e.len() - 1)) as nat);
    }
}

/// Canonical length: the encoding of `v` has `max(1, ceil(bit_length(v) / 7))`
/// bytes, and its last byte, the most significant group, is zero only when it
/// is the only byte.
pub proof fn lemma_encode_len(v: u64)
    ensures
        encode_spec(v as nat).len() == if bit_length(v as nat) == 0 {
            1
        } else {
            (bit_length(v as nat) + 6) / 7
        },
        encode_spec(v as nat).len() > 1 ==> encode_spec(v as nat).last() != 0,
{
    let e = encode_spec(v as nat);
    let n = e.len();
    lemma_encode_shape(v as nat);
    lemma_groups_value_bound(e);
    lemma_bit_length_bound(v as nat, 7 * n);
    if n > 1 {
        lemma_groups_value_lower(e);
        lemma_bit_length_bound(v as nat, (7 * (n - 1)) as nat);
    } else {
        lemma2_to64();
        if v > 0 {
            assert(bit_length(v as nat) == 1 + bit_length(v as nat / 2));
        }
    }
}

/// Residual preservation: decoding `encode(v)` followed by any bytes gives `v`
/// and exactly those bytes.
pub proof fn lemma_decode_encode_suffix(v: u64, suffix: Seq<u8>)
    ensures
        decode_spec(encode_spec(v as nat) + suffix) == Ok::<(u64, Seq<u8>), VarintError>(
            (v, suffix),
        ),
{
    let e = encode_spec(v as nat);
    let s = e + suffix;
    lemma_encode_shape(v as nat);
    lemma_encode_len_bound(v);
    assert forall|j: int| 0 <= j < e.len() - 1 implies s[j] >= 128 by {
        assert(s[j] == e[j]);
    }
    assert(s[e.len() - 1] == e.last());
    lemma_leading_continued(s, (e.len() - 1) as nat);
    assert(s.take(e.len() as int) =~= e);
    assert(s.skip(e.len() as int) =~= suffix);
    lemma2_to64();
    vstd::arithmetic::div_mod::lemma_small_mod(v as nat, pow2(64));
}

/// Round trip: decoding `encode(v)` gives `v` and leaves nothing over.
pub proof fn lemma_decode_encode(v: u64)
    ensures
        decode_spec(encode_spec(v as nat)) == Ok::<(u64, Seq<u8>), VarintError>(
            (v, Seq::<u8>::empty()),
        ),
{
    lemma_decode_encode_suffix(v, Seq::<u8>::empty());
    assert(encode_spec(v as nat) + Seq::<u8>::empty() =~= encode_spec(v as nat));
}

/// Truncation: a proper non-empty prefix of the encoding of a value of two or
/// more bytes fails to decode as truncated.
pub proof fn lemma_decode_prefix_truncated(v: u64, k: nat)
    requires
        v >= 128,
        0 < k < encode_spec(v as nat).len(),
    ensures
        decode_spec(encode_spec(v as nat).take(k as int)) == Err::<(u64, Seq<u8>), VarintError>(
            VarintError::Truncated,
        ),
{
    let e = encode_spec(v as nat);
    let p = e.take(k as int);
    lemma_encode_shape(v as nat);
    lemma_encode_len_bound(v);
    lemma_leading_continued(p, k);
    lemma_leading_continued_len(p);
}

/// Overlong: eleven or more bytes that all have the continuation bit set fail
/// to decode as overlong.
pub proof fn lemma_decode_overlong(s: Seq<u8>)
    requires
        s.len() >= 11,
        forall|j: int| 0 <= j < s.len() ==> s[j] >= 128,
    ensures
        decode_spec(s) == Err::<(u64, Seq<u8>), VarintError>(VarintError::Overlong),
{
    lemma_leading_continued(s, MAX_VARINT_LEN as nat);
}

} // verus!
