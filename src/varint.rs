use vstd::arithmetic::div_mod::{lemma_mod_multiples_vanish, lemma_small_mod};
use vstd::arithmetic::power2::{
    lemma2_to64, lemma2_to64_rest, lemma_pow2_adds, lemma_pow2_strictly_increases, pow2,
};
use vstd::bits::lemma_u64_shl_is_mul;
use vstd::prelude::*;

verus! {

/// The largest number of bytes an encoded `u64` occupies: ceil(64 / 7).
pub const MAX_VARINT_LEN: usize = 10;

/// The canonical encoding of `v`: seven-bit groups, least significant first,
/// each but the last with its continuation bit (0x80) set.
pub open spec fn encode_spec(v: nat) -> Seq<u8>
    decreases v,
{
    if v < 128 {
        seq![v as u8]
    } else {
        seq![(v % 128 + 128) as u8] + encode_spec(v / 128)
    }
}

/// Encodes `value`; returns the bytes and their count.
pub fn encode(value: u64) -> (r: (Vec<u8>, usize))
    ensures
        r.0@ == encode_spec(value as nat),
        r.1 == r.0@.len(),
{
    let mut v: u64 = value;
    let mut bytes: Vec<u8> = Vec::new();
    while v >= 0x80
        invariant
            bytes@ + encode_spec(v as nat) == encode_spec(value as nat),
        decreases v,
    {
        let b: u8 = ((v as u8) & 0x7f) | 0x80;
        assert(b == (v % 128 + 128) as u8) by (bit_vector)
            requires
                b == ((v as u8) & 0x7f) | 0x80,
        ;
        assert(v >> 7 == v / 128) by (bit_vector);
        proof {
            assert(encode_spec(v as nat) == seq![b] + encode_spec((v / 128) as nat));
            assert(bytes@.push(b) + encode_spec((v / 128) as nat) =~= bytes@ + encode_spec(
                v as nat,
            ));
        }
        bytes.push(b);
        v = v >> 7;
    }
    let last: u8 = v as u8;
    proof {
        assert(encode_spec(v as nat) == seq![last]);
        assert(bytes@.push(last) =~= bytes@ + encode_spec(v as nat));
    }
    bytes.push(last);
    let len: usize = bytes.len();
    (bytes, len)
}

/// Why a byte sequence does not start with a varint.
#[derive(Clone, Copy, Debug, PartialEq, Eq, Structural)]
pub enum VarintError {
    /// The input ends while the last byte read still has its continuation bit set.
    Truncated,
    /// The first ten bytes all have their continuation bit set: more groups than
    /// a 64-bit value holds.
    Overlong,
}

/// The value carried by the seven-bit groups of `s`, least significant group
/// first; continuation bits play no part.
pub open spec fn groups_value(s: Seq<u8>) -> nat
    decreases s.len(),
{
    if s.len() == 0 {
        0
    } else {
        (s[0] % 128) as nat + 128 * groups_value(s.drop_first())
    }
}

/// How many bytes at the start of `s` have their continuation bit set.
pub open spec fn leading_continued(s: Seq<u8>) -> nat
    decreases s.len(),
{
    if s.len() == 0 || s[0] < 128 {
        0
    } else {
        1 + leading_continued(s.drop_first())
    }
}

/// Decoding of the varint at the start of `s`: its value, reduced to 64 bits,
/// and the bytes after it; or why there is none.
pub open spec fn decode_spec(s: Seq<u8>) -> Result<(u64, Seq<u8>), VarintError> {
    let k = leading_continued(s) as int;
    if k >= MAX_VARINT_LEN {
        Err(VarintError::Overlong)
    } else if k == s.len() {
        Err(VarintError::Truncated)
    } else {
        Ok(
            (
                (groups_value(s.take(k + 1)) % 0x1_0000_0000_0000_0000) as u64,
                s.skip(k + 1),
            ),
        )
    }
}

/// Bytes below `i` that all carry the continuation bit count towards the
/// leading run; a byte at `i` without it ends the run there.
pub proof fn lemma_leading_continued(s: Seq<u8>, i: nat)
    requires
        i <= s.len(),
        forall|j: int| 0 <= j < i ==> s[j] >= 128,
    ensures
        leading_continued(s) >= i,
        i < s.len() && s[i as int] < 128 ==> leading_continued(s) == i,
    decreases i,
{
    if i > 0 {
        let t = s.drop_first();
        assert forall|j: int| 0 <= j < i - 1 implies t[j] >= 128 by {
            assert(t[j] == s[j + 1]);
        }
        lemma_leading_continued(t, (i - 1) as nat);
        if i < s.len() {
            assert(t[i - 1] == s[i as int]);
        }
    }
}

/// The leading run of continued bytes lies within the sequence.
pub proof fn lemma_leading_continued_len(s: Seq<u8>)
    ensures
        leading_continued(s) <= s.len(),
    decreases s.len(),
{
    if s.len() > 0 {
        lemma_leading_continued_len(s.drop_first());
    }
}

/// Appending a byte adds its group at the next seven-bit position.
pub proof fn lemma_groups_value_push(s: Seq<u8>, b: u8)
    ensures
        groups_value(s.push(b)) == groups_value(s) + (b % 128) as nat * pow2(7 * s.len()),
    decreases s.len(),
{
    lemma2_to64();
    if s.len() == 0 {
        assert(s.push(b).drop_first() =~= Seq::<u8>::empty());
        assert(groups_value(Seq::<u8>::empty()) == 0);
        assert(groups_value(s) == 0);
        assert(groups_value(s.push(b)) == (b % 128) as nat);
        assert(pow2(7 * s.len()) == 1);
    } else {
        let t = s.drop_first();
        assert(s.push(b).drop_first() =~= t.push(b));
        assert(s.push(b)[0] == s[0]);
        lemma_groups_value_push(t, b);
        assert(7 * s.len() == 7 + 7 * t.len());
        lemma_pow2_adds(7, 7 * t.len());
        let p = pow2(7 * t.len());
        let g = groups_value(t);
        let c = (b % 128) as nat;
        assert(128 * (g + c * p) == 128 * g + c * (128 * p)) by (nonlinear_arith);
        assert(groups_value(s.push(b)) == (s[0] % 128) as nat + 128 * groups_value(t.push(b)));
        assert(groups_value(s) == (s[0] % 128) as nat + 128 * g);
        assert(pow2(7 * s.len()) == 128 * p);
        assert(groups_value(t.push(b)) == g + c * p);
    }
}

/// `n` groups carry a value below 2^(7n).
pub proof fn lemma_groups_value_bound(s: Seq<u8>)
    ensures
        groups_value(s) < pow2(7 * s.len()),
    decreases s.len(),
{
    lemma2_to64();
    if s.len() > 0 {
        let t = s.drop_first();
        lemma_groups_value_bound(t);
        lemma_pow2_adds(7, 7 * t.len());
        let g = groups_value(t);
        let p = pow2(7 * t.len());
        let c = (s[0] % 128) as nat;
        assert(c + 128 * g < 128 * p) by (nonlinear_arith)
            requires
                c < 128,
                g < p,
        ;
    }
}

/// Or-ing a group into the bits above an accumulator adds it, modulo 2^64.
proof fn lemma_or_group(r: u64, x: u64, s: u64)
    requires
        s <= 56 || s == 63,
        r < pow2(s as nat),
        x < 128,
    ensures
        (r | (x << s)) as nat == (r + x * pow2(s as nat)) % (pow2(64) as int),
{
    lemma2_to64();
    lemma2_to64_rest();
    if s < 63 {
        lemma_pow2_strictly_increases(s as nat, 63);
    }
    lemma_u64_shl_is_mul(1, s);
    let p = pow2(s as nat);
    if s <= 56 {
        assert(r | (x << s) == r + (x << s)) by (bit_vector)
            requires
                s <= 56,
                r < (1u64 << s),
                x < 128,
        ;
        if s < 56 {
            lemma_pow2_strictly_increases(s as nat, 56);
        }
        assert(x * p <= 127 * pow2(56)) by (nonlinear_arith)
            requires
                x < 128,
                p <= pow2(56),
        ;
        assert(x * p <= u64::MAX);
        lemma_u64_shl_is_mul(x, s);
        lemma_small_mod((r + x * p) as nat, pow2(64));
    } else {
        assert(r | (x << 63) == r + (x % 2) * 0x8000_0000_0000_0000) by (bit_vector)
            requires
                r < 0x8000_0000_0000_0000u64,
                x < 128,
        ;
        assert(x * p == (x % 2) * p + (x / 2) * pow2(64)) by (nonlinear_arith)
            requires
                p == 0x8000_0000_0000_0000,
                pow2(64) == 0x1_0000_0000_0000_0000,
        ;
        lemma_mod_multiples_vanish((x / 2) as int, r + (x % 2) * p, pow2(64) as int);
        lemma_small_mod((r + (x % 2) * p) as nat, pow2(64));
    }
}

/// Decodes the varint at the start of `data`; returns its value and an owned
/// copy of the bytes after it.
pub fn decode(data: &[u8]) -> (r: Result<(u64, Vec<u8>), VarintError>)
    ensures
        match r {
            Ok((v, rest)) => decode_spec(data@) == Ok::<(u64, Seq<u8>), VarintError>((v, rest@)),
            Err(e) => decode_spec(data@) == Err::<(u64, Seq<u8>), VarintError>(e),
        },
{
    let mut result: u64 = 0;
    let mut shift: u64 = 0;
    let mut i: usize = 0;
    proof {
        assert(data@.take(0) =~= Seq::<u8>::empty());
    }
    while i < data.len()
        invariant
            i <= data@.len(),
            i < MAX_VARINT_LEN,
            shift == 7 * i,
            forall|j: int| 0 <= j < i ==> data@[j] >= 128,
            result == groups_value(data@.take(i as int)),
        decreases data@.len() - i,
    {
        let b: u8 = data[i];
        let x: u64 = (b & 0x7f) as u64;
        proof {
            lemma2_to64();
            assert(b & 0x7f == b % 128) by (bit_vector);
            assert(data@.take(i + 1) =~= data@.take(i as int).push(b));
            lemma_groups_value_push(data@.take(i as int), b);
            lemma_groups_value_bound(data@.take(i as int));
            lemma_groups_value_bound(data@.take(i + 1));
            lemma_or_group(result, x, shift);
            if i < 9 {
                lemma_pow2_strictly_increases(7 * (i + 1) as nat, 64);
                lemma_small_mod(groups_value(data@.take(i + 1)), pow2(64));
            }
        }
        let next: u64 = result | (x << shift);
        i += 1;
        if b & 0x80 == 0 {
            proof {
                assert(b < 128) by (bit_vector)
                    requires
                        b & 0x80 == 0,
                ;
                lemma_leading_continued(data@, (i - 1) as nat);
            }
            let rest = copy_tail(data, i);
            return Ok((next, rest));
        }
        proof {
            assert(b >= 128) by (bit_vector)
                requires
                    b & 0x80 != 0,
            ;
        }
        shift += 7;
        if shift > 64 {
            proof {
                lemma_leading_continued(data@, i as nat);
            }
            return Err(VarintError::Overlong);
        }
        result = next;
    }
    proof {
        lemma_leading_continued(data@, i as nat);
        lemma_leading_continued_len(data@);
    }
    Err(VarintError::Truncated)
}

/// An owned copy of `data[start..]`.
fn copy_tail(data: &[u8], start: usize) -> (r: Vec<u8>)
    requires
        start <= data@.len(),
    ensures
        r@ == data@.skip(start as int),
{
    let mut r: Vec<u8> = Vec::with_capacity(data.len() - start);
    let mut k: usize = start;
    while k < data.len()
        invariant
            start <= k <= data@.len(),
            r@ == data@.subrange(start as int, k as int),
        decreases data@.len() - k,
    {
        proof {
            assert(data@.subrange(start as int, k + 1) =~= r@.push(data@[k as int]));
        }
        r.push(data[k]);
        k += 1;
    }
    assert(r@ =~= data@.skip(start as int));
    r
}

} // verus!
