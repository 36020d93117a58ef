use vstd::prelude::*;
use byteorder::ByteOrder;
use crate::log::StatusCode;

verus! {

/// The largest sequence number plus one: sequences must fit in 56 bits.
pub const MAX_SEQUENCE_EXCLUSIVE: u64 = 0x0100_0000_0000_0000;

/// The kind of mutation an internal key records.
#[derive(Debug, Clone, Copy, PartialEq, Eq, Structural)]
pub enum ValueType {
    TypeDeletion,
    TypeValue,
}

/// The tag byte of a value type.
pub open spec fn tag_of(t: ValueType) -> u64 {
    match t {
        ValueType::TypeDeletion => 0,
        ValueType::TypeValue => 1,
    }
}

impl ValueType {
    /// The tag this type carries in the low byte of the packed word.
    pub fn tag(&self) -> (r: u64)
        ensures
            r == tag_of(*self),
    {
        match self {
            ValueType::TypeDeletion => 0,
            ValueType::TypeValue => 1,
        }
    }
}

/// Little-endian base-128 encoding: seven data bits per byte, the high bit
/// set on every byte but the last.
pub open spec fn varint_spec(n: nat) -> Seq<u8>
    decreases n,
{
    if n < 128 {
        seq![n as u8]
    } else {
        seq![((n % 128) + 128) as u8] + varint_spec(n / 128)
    }
}

/// Decodes a varint at the front of `b`: the value and the number of bytes
/// it took, or `None` when `b` ends before a byte without the high bit.
pub open spec fn varint_decode(b: Seq<u8>) -> Option<(nat, nat)>
    decreases b.len(),
{
    if b.len() == 0 {
        None
    } else if b[0] < 128 {
        Some((b[0] as nat, 1))
    } else {
        match varint_decode(b.drop_first()) {
            Some((v, l)) => Some(((b[0] - 128) as nat + 128 * v, l + 1)),
            None => None,
        }
    }
}

/// The eight little-endian bytes of `v`.
pub open spec fn le_bytes64(v: u64) -> Seq<u8> {
    seq![
        (v & 0xff) as u8,
        ((v >> 8u64) & 0xff) as u8,
        ((v >> 16u64) & 0xff) as u8,
        ((v >> 24u64) & 0xff) as u8,
        ((v >> 32u64) & 0xff) as u8,
        ((v >> 40u64) & 0xff) as u8,
        ((v >> 48u64) & 0xff) as u8,
        ((v >> 56u64) & 0xff) as u8,
    ]
}

/// The value of eight little-endian bytes.
pub open spec fn le_u64(b: Seq<u8>) -> u64 {
    (b[0] as u64) | ((b[1] as u64) << 8u64) | ((b[2] as u64) << 16u64) | ((b[3] as u64) << 24u64)
        | ((b[4] as u64) << 32u64) | ((b[5] as u64) << 40u64) | ((b[6] as u64) << 48u64)
        | ((b[7] as u64) << 56u64)
}

/// The word that follows the user key: the type tag in the low byte, the
/// sequence above it.
pub open spec fn packed_word(sequence: u64, t: ValueType) -> u64 {
    tag_of(t) | (sequence << 8u64)
}

/// The encoded internal key.
pub open spec fn key_spec(sequence: u64, t: ValueType, key: Seq<u8>) -> Seq<u8> {
    varint_spec(key.len() + 8) + key + le_bytes64(packed_word(sequence, t))
}

/// The encoded internal value.
pub open spec fn value_spec(value: Seq<u8>) -> Seq<u8> {
    varint_spec(value.len()) + value
}

proof fn lemma_low_bits(n: usize)
    ensures
        (n & 0x7f) as int == n as int % 128,
        (n >> 7) as int == n as int / 128,
        (n & 0x7f) < 128,
{
    assert((n & 0x7f) == n % 128) by (bit_vector);
    assert((n >> 7) == n / 128) by (bit_vector);
    assert((n & 0x7f) < 128) by (bit_vector);
}

/// Appends the varint encoding of `num` to `v`.
pub fn extend_varint(v: &mut Vec<u8>, num: usize)
    ensures
        final(v)@ == old(v)@ + varint_spec(num as nat),
{
    let mut n: usize = num;
    loop
        invariant_except_break
            old(v)@ + varint_spec(num as nat) == v@ + varint_spec(n as nat),
        ensures
            v@ == old(v)@ + varint_spec(num as nat),
        decreases n,
    {
        proof {
            lemma_low_bits(n);
        }
        let byte: u8 = (n & 0x7f) as u8;
        let rest: usize = n >> 7;
        if rest == 0 {
            v.push(byte);
            assert(v@ =~= old(v)@ + varint_spec(num as nat));
            break;
        } else {
            v.push(byte | 0x80);
            proof {
                assert((byte | 0x80) == byte + 128) by (bit_vector)
                    requires
                        byte < 128,
                ;
                assert(varint_spec(n as nat) == seq![((n % 128) + 128) as u8] + varint_spec(rest as nat));
                assert(v@ + varint_spec(rest as nat) =~= old(v)@ + varint_spec(num as nat));
            }
            n = rest;
        }
    }
}

spec fn pow128(k: nat) -> nat
    decreases k,
{
    if k == 0 {
        1
    } else {
        128 * pow128((k - 1) as nat)
    }
}

proof fn lemma_varint_len_bound(n: nat, k: nat)
    requires
        1 <= k,
        n < pow128(k),
    ensures
        varint_spec(n).len() <= k,
    decreases k,
{
    if n >= 128 {
        let p = pow128((k - 1) as nat);
        if k == 1 {
            assert(pow128(1) == 128 * pow128(0));
        }
        assert(k >= 2);
        assert(n / 128 < p) by (nonlinear_arith)
            requires
                n < 128 * p,
        ;
        lemma_varint_len_bound(n / 128, (k - 1) as nat);
    }
}

proof fn lemma_varint_len_usize(n: usize)
    ensures
        1 <= varint_spec(n as nat).len() <= 10,
{
    reveal_with_fuel(pow128, 11);
    assert(pow128(10) == 1180591620717411303424nat);
    lemma_varint_len_bound(n as nat, 10);
}

/// The number of bytes in the varint encoding of `num`.
pub fn varint_len(num: usize) -> (r: usize)
    ensures
        r as nat == varint_spec(num as nat).len(),
        1 <= r <= 10,
{
    proof {
        lemma_varint_len_usize(num);
    }
    let mut n: usize = num;
    let mut len: usize = 0;
    loop
        invariant_except_break
            len + varint_spec(n as nat).len() == varint_spec(num as nat).len(),
        invariant
            varint_spec(num as nat).len() <= 10,
        ensures
            len == varint_spec(num as nat).len(),
        decreases n,
    {
        proof {
            lemma_low_bits(n);
        }
        len = len + 1;
        let rest: usize = n >> 7;
        if rest == 0 {
            break;
        }
        n = rest;
    }
    len
}


/// Appends the bytes of `src` to `dst`.
pub fn append_bytes(dst: &mut Vec<u8>, src: &[u8])
    ensures
        final(dst)@ == old(dst)@ + src@,
{
    let mut i: usize = 0;
    while i < src.len()
        invariant
            i <= src@.len(),
            dst@ == old(dst)@ + src@.subrange(0, i as int),
        decreases src@.len() - i,
    {
        dst.push(src[i]);
        i = i + 1;
        assert(dst@ =~= old(dst)@ + src@.subrange(0, i as int));
    }
    assert(src@.subrange(0, src@.len() as int) =~= src@);
}

/// Relies on byteorder's `LittleEndian::write_u64`: it stores `v` in eight
/// bytes, least significant first.
#[verifier::external_body]
fn u64_le_bytes(v: u64) -> (r: Vec<u8>)
    ensures
        r@ == le_bytes64(v),
{
    let mut b = [0u8; 8];
    byteorder::LittleEndian::write_u64(&mut b, v);
    b.to_vec()
}

/// Encodes an internal key: `varint(len(key) + 8) ++ key ++ le64(tag | sequence << 8)`.
/// A sequence of 2^56 or more would overflow into the tag byte and is
/// rejected, as is a key whose length plus eight does not fit in `usize`.
pub fn build_mem_key(seq: u64, t: ValueType, key: &[u8]) -> (r: Result<Vec<u8>, StatusCode>)
    ensures
        match r {
            Ok(v) => {
                let n = varint_spec(key@.len() + 8).len();
                &&& seq < MAX_SEQUENCE_EXCLUSIVE
                &&& key@.len() + 8 <= usize::MAX
                &&& v@ == key_spec(seq, t, key@)
                &&& varint_decode(v@) == Some((key@.len() + 8, n))
                &&& v@.len() == n + key@.len() + 8
                &&& v@.subrange(n as int, (n + key@.len()) as int) == key@
                &&& le_u64(v@.subrange(v@.len() - 8, v@.len() as int)) & 0xff == tag_of(t)
                &&& le_u64(v@.subrange(v@.len() - 8, v@.len() as int)) >> 8u64 == seq
            },
            Err(e) => e == StatusCode::InvalidInput && (seq >= MAX_SEQUENCE_EXCLUSIVE || key@.len()
                + 8 > usize::MAX),
        },
{
    if seq >= MAX_SEQUENCE_EXCLUSIVE || key.len() > usize::MAX - 8 {
        return Err(StatusCode::InvalidInput);
    }
    let keysize: usize = key.len() + 8;
    let mut buf: Vec<u8> = Vec::new();
    extend_varint(&mut buf, keysize);
    append_bytes(&mut buf, key);
    let word: u64 = t.tag() | (seq << 8);
    let tail = u64_le_bytes(word);
    append_bytes(&mut buf, tail.as_slice());
    proof {
        lemma_key_round_trip(seq, t, key@);
    }
    Ok(buf)
}

/// Encodes an internal value: `varint(len(value)) ++ value`.
pub fn build_mem_value(value: &[u8]) -> (r: Vec<u8>)
    ensures
        r@ == value_spec(value@),
{
    let mut buf: Vec<u8> = Vec::new();
    extend_varint(&mut buf, value.len());
    append_bytes(&mut buf, value);
    buf
}

/// Decodes the varint that starts at `b[i]`: its value and the number of
/// bytes it took. `None` when the bytes end before the varint does, or when
/// its value does not fit in `usize`.
pub fn decode_varint(b: &[u8], i: usize) -> (r: Option<(usize, usize)>)
    requires
        i <= b@.len(),
    ensures
        match varint_decode(b@.subrange(i as int, b@.len() as int)) {
            Some((v, l)) => if v <= usize::MAX {
                r == Some((v as usize, l as usize))
            } else {
                r is None
            },
            None => r is None,
        },
    decreases b@.len() - i,
{
    let ghost rest = b@.subrange(i as int, b@.len() as int);
    if i == b.len() {
        return None;
    }
    let first: u8 = b[i];
    if first < 128 {
        return Some((first as usize, 1));
    }
    assert(rest.drop_first() =~= b@.subrange(i + 1, b@.len() as int));
    proof {
        lemma_varint_decode_len(rest.drop_first());
    }
    match decode_varint(b, i + 1) {
        None => None,
        Some((v, l)) => {
            let low: usize = (first - 128) as usize;
            if v > (usize::MAX - low) / 128 {
                None
            } else {
                Some((low + 128 * v, l + 1))
            }
        },
    }
}

proof fn lemma_varint_decode_len(b: Seq<u8>)
    ensures
        match varint_decode(b) {
            Some((v, l)) => 1 <= l <= b.len(),
            None => true,
        },
    decreases b.len(),
{
    if b.len() > 0 && b[0] >= 128 {
        lemma_varint_decode_len(b.drop_first());
    }
}

/// Decoding the varint encoding of `n`, followed by any bytes, gives `n` back
/// together with the encoding's length.
pub proof fn lemma_varint_round_trip(n: nat, rest: Seq<u8>)
    ensures
        varint_decode(varint_spec(n) + rest) == Some((n, varint_spec(n).len())),
    decreases n,
{
    let s = varint_spec(n) + rest;
    if n >= 128 {
        lemma_varint_round_trip(n / 128, rest);
        assert(s.drop_first() =~= varint_spec(n / 128) + rest);
    }
}

/// The type tag and the sequence number packed into one word come back out
/// of its eight little-endian bytes.
pub proof fn lemma_packed_word_round_trip(sequence: u64, t: ValueType)
    requires
        sequence < MAX_SEQUENCE_EXCLUSIVE,
    ensures
        le_u64(le_bytes64(packed_word(sequence, t))) == packed_word(sequence, t),
        packed_word(sequence, t) & 0xff == tag_of(t),
        packed_word(sequence, t) >> 8u64 == sequence,
{
    let w = packed_word(sequence, t);
    let g = tag_of(t);
    assert(g <= 1);
    assert((w & 0xff) as u8 as u64 | ((((w >> 8u64) & 0xff) as u8 as u64) << 8u64) | ((((w
        >> 16u64) & 0xff) as u8 as u64) << 16u64) | ((((w >> 24u64) & 0xff) as u8 as u64) << 24u64)
        | ((((w >> 32u64) & 0xff) as u8 as u64) << 32u64) | ((((w >> 40u64) & 0xff) as u8 as u64)
        << 40u64) | ((((w >> 48u64) & 0xff) as u8 as u64) << 48u64) | ((((w >> 56u64) & 0xff) as u8
        as u64) << 56u64) == w) by (bit_vector);
    assert(w == g | (sequence << 8u64));
    assert((g | (sequence << 8u64)) & 0xff == g) by (bit_vector)
        requires
            g <= 1,
    ;
    assert((g | (sequence << 8u64)) >> 8u64 == sequence) by (bit_vector)
        requires
            g <= 1,
            sequence < 0x0100_0000_0000_0000u64,
    ;
}

/// An encoded internal key starts with a varint holding the user key's
/// length plus eight, and its last eight bytes decode to the word that
/// carries the sequence number and the type tag.
pub proof fn lemma_key_round_trip(sequence: u64, t: ValueType, key: Seq<u8>)
    requires
        sequence < MAX_SEQUENCE_EXCLUSIVE,
    ensures
        ({
            let k = key_spec(sequence, t, key);
            let n = varint_spec(key.len() + 8).len();
            &&& varint_decode(k) == Some((key.len() + 8, n))
            &&& k.len() == n + key.len() + 8
            &&& k.subrange(n as int, (n + key.len()) as int) == key
            &&& le_u64(k.subrange(k.len() - 8, k.len() as int)) & 0xff == tag_of(t)
            &&& le_u64(k.subrange(k.len() - 8, k.len() as int)) >> 8u64 == sequence
        }),
{
    let k = key_spec(sequence, t, key);
    let n = varint_spec(key.len() + 8).len();
    lemma_varint_round_trip(key.len() + 8, key + le_bytes64(packed_word(sequence, t)));
    assert(k =~= varint_spec(key.len() + 8) + (key + le_bytes64(packed_word(sequence, t))));
    assert(k.subrange(n as int, (n + key.len()) as int) =~= key);
    assert(k.subrange(k.len() - 8, k.len() as int) =~= le_bytes64(packed_word(sequence, t)));
    lemma_packed_word_round_trip(sequence, t);
}

} // verus!
