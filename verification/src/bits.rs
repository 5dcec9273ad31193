//! Bit sequences: the mathematical model of the packed code stream.
//!
//! A stream is a `Seq<bool>` in wire order. Bit `i` of the stream is bit
//! `i % 8` of byte `i / 8`, counting from the least significant bit.

use vstd::arithmetic::div_mod::lemma_basic_div;
use vstd::arithmetic::power2::{
    lemma2_to64, lemma2_to64_rest, lemma_pow2_pos, lemma_pow2_strictly_increases,
    lemma_pow2_unfold, pow2,
};
use vstd::bits::lemma_u64_shr_is_div;
use vstd::prelude::*;

verus! {

/// Bit `i` of `v`, counting from the least significant bit.
pub open spec fn bit_at(v: u64, i: u64) -> bool {
    (v >> i) & 1 == 1
}

/// The low `width` bits of `v`, least significant first.
pub open spec fn bits_of(v: u64, width: nat) -> Seq<bool> {
    Seq::new(width, |i: int| bit_at(v, i as u64))
}

/// The bits of a byte sequence in wire order.
pub open spec fn bytes_bits(bytes: Seq<u8>) -> Seq<bool> {
    Seq::new(8 * bytes.len(), |i: int| bit_at(bytes[i / 8] as u64, (i % 8) as u64))
}

/// `n` zero bits.
pub open spec fn zero_bits(n: nat) -> Seq<bool> {
    Seq::new(n, |i: int| false)
}

/// The number of bits from position `len` to the next byte boundary: none
/// where `len` is on a boundary.
pub open spec fn padding(len: nat) -> nat {
    ((8 - len % 8) % 8) as nat
}

/// The number that a bit sequence spells, least significant bit first.
pub open spec fn bits_value(bits: Seq<bool>) -> nat
    decreases bits.len(),
{
    if bits.len() == 0 {
        0
    } else {
        (if bits[0] { 1nat } else { 0nat }) + 2 * bits_value(bits.skip(1))
    }
}

/// The complete bytes that a bit sequence fills; a trailing group of fewer
/// than eight bits is left out.
pub open spec fn bits_bytes(bits: Seq<bool>) -> Seq<u8> {
    Seq::new(bits.len() / 8, |i: int| bits_value(bits.subrange(8 * i, 8 * i + 8)) as u8)
}

/// A value with no bit set at or above `width` is spelled back by its low
/// `width` bits.
pub proof fn lemma_bits_value_of(v: u64, width: nat)
    requires
        width <= 64,
        width < 64 ==> v >> (width as u64) == 0,
    ensures
        bits_value(bits_of(v, width)) == v,
    decreases width,
{
    if width == 0 {
        assert(v >> 0u64 == v) by (bit_vector);
    } else {
        let w = width as u64;
        let h = v >> 1u64;
        let rest = (width - 1) as nat;
        assert(w - 1 < 64 ==> h >> ((w - 1) as u64) == 0) by (bit_vector)
            requires
                1 <= w <= 64,
                h == v >> 1u64,
                w < 64 ==> v >> w == 0,
        ;
        lemma_bits_value_of(h, rest);
        assert forall|i: int| 0 <= i < rest implies bit_at(v, (i + 1) as u64) == #[trigger] bit_at(
            h,
            i as u64,
        ) by {
            let j = i as u64;
            assert(((v >> ((j + 1) as u64)) & 1 == 1) == (((v >> 1u64) >> j) & 1 == 1))
                by (bit_vector)
                requires
                    j < 63,
            ;
        }
        assert(bits_of(v, width).skip(1) =~= bits_of(h, rest));
        assert(v == (if (v >> 0u64) & 1 == 1 { 1u64 } else { 0u64 }) + 2 * (v >> 1u64))
            by (bit_vector);
    }
}

/// Appending a byte to a byte sequence appends its eight bits.
pub proof fn lemma_bytes_bits_push(bytes: Seq<u8>, b: u8)
    ensures
        bytes_bits(bytes.push(b)) == bytes_bits(bytes) + bits_of(b as u64, 8),
{
    assert(bytes_bits(bytes.push(b)) =~= bytes_bits(bytes) + bits_of(b as u64, 8));
}

/// A byte is spelled back by its eight bits.
pub proof fn lemma_byte_value(b: u8)
    ensures
        bits_value(bits_of(b as u64, 8)) == b,
{
    let v = b as u64;
    assert(v >> 8u64 == 0) by (bit_vector)
        requires
            v < 256,
    ;
    lemma_bits_value_of(v, 8);
}

/// The complete bytes of a packed byte sequence followed by fewer than eight
/// bits are the bytes themselves.
pub proof fn lemma_bits_bytes_of_bytes(bytes: Seq<u8>, tail: Seq<bool>)
    requires
        tail.len() < 8,
    ensures
        bits_bytes(bytes_bits(bytes) + tail) == bytes,
{
    let all = bytes_bits(bytes) + tail;
    assert forall|i: int| 0 <= i < bytes.len() implies bits_bytes(all)[i] == bytes[i] by {
        assert(all.subrange(8 * i, 8 * i + 8) =~= bits_of(bytes[i] as u64, 8));
        lemma_byte_value(bytes[i]);
    }
    assert(bits_bytes(all) =~= bytes);
}

/// A bit sequence of at most 63 bits is the low bits of the number it
/// spells.
pub proof fn lemma_bits_of_value(bits: Seq<bool>)
    requires
        bits.len() <= 63,
    ensures
        bits_value(bits) < pow2(bits.len()),
        bits_value(bits) <= u64::MAX,
        bits_of(bits_value(bits) as u64, bits.len()) == bits,
    decreases bits.len(),
{
    lemma2_to64();
    lemma2_to64_rest();
    if bits.len() == 0 {
        assert(bits_of(0, 0) =~= bits);
    } else {
        let rest = bits.skip(1);
        lemma_bits_of_value(rest);
        lemma_pow2_unfold(bits.len());
        if bits.len() < 63 {
            lemma_pow2_strictly_increases(bits.len(), 63);
        }
        let h = bits_value(rest) as u64;
        let b: u64 = if bits[0] { 1 } else { 0 };
        let v = bits_value(bits) as u64;
        assert(v == b + 2 * h);
        assert(((v >> 0u64) & 1 == 1) == (b == 1)) by (bit_vector)
            requires
                b <= 1,
                h < 0x4000_0000_0000_0000,
                v == b + 2 * h,
        ;
        assert forall|i: int| 1 <= i < bits.len() implies #[trigger] bit_at(v, i as u64)
            == bits[i] by {
            let j = (i - 1) as u64;
            assert(((v >> ((j + 1) as u64)) & 1 == 1) == ((h >> j) & 1 == 1)) by (bit_vector)
                requires
                    j < 62,
                    b <= 1,
                    h < 0x4000_0000_0000_0000,
                    v == b + 2 * h,
            ;
            assert(bits_of(h, rest.len())[i - 1] == rest[i - 1]);
        }
        assert(bits_of(v, bits.len()) =~= bits);
    }
}

/// Packing whole bytes loses nothing.
pub proof fn lemma_bytes_of_bits(bits: Seq<bool>)
    requires
        bits.len() % 8 == 0,
    ensures
        bytes_bits(bits_bytes(bits)) == bits,
{
    let bytes = bits_bytes(bits);
    assert forall|i: int| 0 <= i < bits.len() implies #[trigger] bytes_bits(bytes)[i]
        == bits[i] by {
        let k = i / 8;
        let group = bits.subrange(8 * k, 8 * k + 8);
        lemma_bits_of_value(group);
        lemma2_to64();
        assert(bits_of(bits_value(group) as u64, 8)[i % 8] == group[i % 8]);
    }
    assert(bytes_bits(bytes) =~= bits);
}

/// A number below `2^width` has no bit set at or above `width`.
pub proof fn lemma_fits(v: u64, width: nat)
    requires
        width < 64,
        v < pow2(width),
    ensures
        v >> (width as u64) == 0,
{
    lemma_u64_shr_is_div(v, width as u64);
    lemma_pow2_pos(width);
    lemma_basic_div(v as int, pow2(width) as int);
}

} // verus!
