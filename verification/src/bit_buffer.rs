//! Variable-width integers packed into bytes, least significant bit first.

use crate::bits::{
    bit_at, bits_bytes, bits_of, bits_value, bytes_bits, lemma_bits_bytes_of_bytes,
    lemma_bits_value_of, lemma_bytes_bits_push, padding, zero_bits,
};
use crate::error::LzwError;
use vstd::prelude::*;

verus! {

const BYTE_WIDTH: u8 = 8;

/// The widest value that one call can write or read: the accumulator has to
/// hold it beside up to seven bits that wait for their byte.
pub const MAX_WIDTH: u8 = 57;

/// The accumulator shared by writer and reader: `offset` buffered bits, held in
/// the low bits of `data`.
pub struct BitBuf {
    data: u64,
    offset: u8,
}

impl BitBuf {
    /// The buffered bits, in wire order.
    pub closed spec fn bits(self) -> Seq<bool> {
        bits_of(self.data, self.offset as nat)
    }

    /// No bit of `data` is set at or above `offset`.
    pub closed spec fn wf(self) -> bool {
        &&& self.offset <= 64
        &&& self.offset < 64 ==> self.data >> (self.offset as u64) == 0
    }

    /// An accumulator without bits.
    pub fn new() -> (buf: Self)
        ensures
            buf.wf(),
            buf.bits() == Seq::<bool>::empty(),
    {
        let buf = BitBuf { data: 0, offset: 0 };
        assert(0u64 >> 0u64 == 0) by (bit_vector);
        assert(buf.bits() =~= Seq::<bool>::empty());
        buf
    }
}

/// Packs values into a growing byte vector.
pub struct BitBufWriter {
    buf: BitBuf,
    writer: Vec<u8>,
}

impl BitBufWriter {
    /// Every bit written so far, those already in the sink first.
    pub closed spec fn bits(self) -> Seq<bool> {
        bytes_bits(self.writer@) + self.buf.bits()
    }

    /// Fewer than eight bits wait for their byte.
    pub closed spec fn wf(self) -> bool {
        &&& self.buf.wf()
        &&& self.buf.offset < 8
    }

    /// The bytes that have reached the sink: the complete bytes of `bits()`.
    pub closed spec fn bytes(self) -> Seq<u8> {
        self.writer@
    }

    /// The sink always holds exactly the complete bytes of what was written.
    pub proof fn lemma_bytes(self)
        requires
            self.wf(),
        ensures
            self.bytes() == bits_bytes(self.bits()),
    {
        lemma_bits_bytes_of_bytes(self.writer@, self.buf.bits());
    }

    /// A writer that appends to `stream`.
    pub fn new(stream: Vec<u8>) -> (w: Self)
        ensures
            w.wf(),
            w.bits() == bytes_bits(stream@),
            w.bytes() == stream@,
    {
        let w = BitBufWriter { buf: BitBuf::new(), writer: stream };
        assert(w.bits() =~= bytes_bits(stream@));
        w
    }

    /// Appends the low `width` bits of `data`, least significant first.
    pub fn write(&mut self, data: u64, width: u8)
        requires
            old(self).wf(),
            width <= MAX_WIDTH,
        ensures
            final(self).wf(),
            final(self).bits() == old(self).bits() + bits_of(data, width as nat),
            final(self).bytes() == bits_bytes(final(self).bits()),
    {
        let ghost goal = self.bits() + bits_of(data, width as nat);
        let ghost d0 = self.buf.data;
        let ghost o0 = self.buf.offset as u64;
        let ghost w0 = width as u64;
        assert((1u64 << w0) >= 1) by (bit_vector)
            requires
                w0 <= 57,
        ;
        let mask: u64 = (1u64 << width) - 1;
        let field: u64 = (data & mask) << self.buf.offset;
        assert(d0 + field <= 0xffff_ffff_ffff_ffff) by (bit_vector)
            requires
                w0 <= 57,
                o0 < 8,
                d0 >> o0 == 0,
                mask == ((1u64 << w0) - 1) as u64,
                field == (data & mask) << o0,
        ;
        self.buf.data = self.buf.data + field;
        self.buf.offset = self.buf.offset + width;
        proof {
            let d1 = self.buf.data;
            let o1 = self.buf.offset as u64;
            assert(o1 < 64 ==> d1 >> o1 == 0) by (bit_vector)
                requires
                    w0 <= 57,
                    o0 < 8,
                    o1 == o0 + w0,
                    d0 >> o0 == 0,
                    mask == ((1u64 << w0) - 1) as u64,
                    field == (data & mask) << o0,
                    d1 == d0 + field,
            ;
            assert forall|i: int| 0 <= i < o1 implies #[trigger] bit_at(d1, i as u64) == (if i
                < o0 {
                bit_at(d0, i as u64)
            } else {
                bit_at(data, (i - o0) as u64)
            }) by {
                let j = i as u64;
                assert(((d1 >> j) & 1 == 1) == (if j < o0 {
                    (d0 >> j) & 1 == 1
                } else {
                    (data >> ((j - o0) as u64)) & 1 == 1
                })) by (bit_vector)
                    requires
                        w0 <= 57,
                        o0 < 8,
                        j < o0 + w0,
                        d0 >> o0 == 0,
                        mask == ((1u64 << w0) - 1) as u64,
                        field == (data & mask) << o0,
                        d1 == d0 + field,
                ;
            }
            assert(bits_of(d1, o1 as nat) =~= bits_of(d0, o0 as nat) + bits_of(data, w0 as nat));
            assert(self.bits() =~= goal);
        }
        while self.buf.offset >= BYTE_WIDTH
            invariant
                self.buf.wf(),
                self.bits() == goal,
            decreases self.buf.offset,
        {
            let ghost d = self.buf.data;
            let ghost o = self.buf.offset as u64;
            let ghost before = self.writer@;
            assert(1u64 << 8u64 == 256) by (bit_vector);
            let value: u64 = self.buf.data & ((1u64 << BYTE_WIDTH) - 1);
            assert(value < 256 && value == d & 0xff) by (bit_vector)
                requires
                    value == d & (((1u64 << 8u64) - 1) as u64),
            ;
            self.writer.push(value as u8);
            self.buf.offset = self.buf.offset - BYTE_WIDTH;
            self.buf.data = self.buf.data >> BYTE_WIDTH;
            proof {
                let d2 = self.buf.data;
                let o2 = self.buf.offset as u64;
                assert(d2 >> o2 == 0) by (bit_vector)
                    requires
                        8 <= o <= 64,
                        o2 == o - 8,
                        d2 == d >> 8u64,
                        o < 64 ==> d >> o == 0,
                ;
                assert forall|i: int| 0 <= i < 8 implies #[trigger] bit_at(value, i as u64)
                    == bit_at(d, i as u64) by {
                    let j = i as u64;
                    assert((((d & 0xff) >> j) & 1 == 1) == ((d >> j) & 1 == 1)) by (bit_vector)
                        requires
                            j < 8,
                    ;
                }
                assert forall|i: int| 0 <= i < o2 implies #[trigger] bit_at(d2, i as u64)
                    == bit_at(d, (i + 8) as u64) by {
                    let j = i as u64;
                    assert((((d >> 8u64) >> j) & 1 == 1) == ((d >> ((j + 8) as u64)) & 1 == 1))
                        by (bit_vector)
                        requires
                            j < 56,
                    ;
                }
                lemma_bytes_bits_push(before, value as u8);
                assert(bits_of(d, o as nat) =~= bits_of(value, 8) + bits_of(d2, o2 as nat));
                assert(self.bits() =~= goal);
            }
        }
        proof {
            self.lemma_bytes();
        }
    }

    /// Emits the partial byte, if bits wait: one byte that holds them,
    /// zero-padded at the top. The accumulator is then empty. Where no bit
    /// waits, nothing is emitted.
    pub fn flush(&mut self)
        requires
            old(self).wf(),
        ensures
            final(self).wf(),
            final(self).bits() == old(self).bits() + zero_bits(padding(old(self).bits().len())),
            final(self).bits().len() % 8 == 0,
            final(self).bytes() == bits_bytes(final(self).bits()),
    {
        let ghost d = self.buf.data;
        let ghost o = self.buf.offset as u64;
        let ghost before = self.writer@;
        if self.buf.offset > 0 {
            assert(d < 256) by (bit_vector)
                requires
                    o < 8,
                    d >> o == 0,
            ;
            self.writer.push(self.buf.data as u8);
            self.buf = BitBuf::new();
            proof {
                assert forall|i: int| o <= i < 8 implies !#[trigger] bit_at(d, i as u64) by {
                    let j = i as u64;
                    assert(!((d >> j) & 1 == 1)) by (bit_vector)
                        requires
                            o <= j < 8,
                            d >> o == 0,
                    ;
                }
                lemma_bytes_bits_push(before, d as u8);
                assert(bits_of(d, 8) =~= bits_of(d, o as nat) + zero_bits((8 - o) as nat));
                assert(self.bits() =~= old(self).bits() + zero_bits((8 - o) as nat));
            }
        } else {
            assert(self.bits() =~= old(self).bits() + zero_bits(0));
        }
        proof {
            self.lemma_bytes();
        }
    }

    /// Gives the sink back.
    pub fn into_inner(self) -> (stream: Vec<u8>)
        requires
            self.wf(),
        ensures
            stream@ == self.bytes(),
            stream@ == bits_bytes(self.bits()),
    {
        proof {
            self.lemma_bytes();
        }
        self.writer
    }
}

/// An in-memory byte source that is read front to back.
pub struct ByteSource<'a> {
    data: &'a [u8],
    pos: usize,
}

impl<'a> ByteSource<'a> {
    /// The bytes not yet read.
    pub closed spec fn remaining(self) -> Seq<u8> {
        self.data@.skip(self.pos as int)
    }

    /// The read position lies within the data.
    pub closed spec fn wf(self) -> bool {
        self.pos <= self.data@.len()
    }

    /// A source that yields the bytes of `data` in order.
    pub fn new(data: &'a [u8]) -> (src: Self)
        ensures
            src.wf(),
            src.remaining() == data@,
    {
        let src = ByteSource { data, pos: 0 };
        assert(src.remaining() =~= data@);
        src
    }
}

/// Takes the next byte of the stream, or reports that none is left.
pub fn read_one_byte(stream: &mut ByteSource) -> (res: Result<u8, LzwError>)
    requires
        old(stream).wf(),
    ensures
        final(stream).wf(),
        match res {
            Ok(b) => {
                &&& old(stream).remaining().len() > 0
                &&& b == old(stream).remaining()[0]
                &&& final(stream).remaining() == old(stream).remaining().skip(1)
            },
            Err(e) => {
                &&& e == LzwError::UnexpectedEof
                &&& old(stream).remaining().len() == 0
                &&& final(stream).remaining() == old(stream).remaining()
            },
        },
{
    if stream.pos < stream.data.len() {
        let value = stream.data[stream.pos];
        stream.pos = stream.pos + 1;
        assert(stream.remaining() =~= old(stream).remaining().skip(1));
        Ok(value)
    } else {
        Err(LzwError::UnexpectedEof)
    }
}

/// The number of bytes that a read of `width` bits takes from the source
/// when `buffered` bits are at hand.
pub open spec fn bytes_needed(buffered: nat, width: nat) -> nat {
    if width <= buffered {
        0
    } else {
        ((width - buffered + 7) / 8) as nat
    }
}

/// Unpacks values from a byte source.
pub struct BitBufReader<'a> {
    buf: BitBuf,
    reader: ByteSource<'a>,
}

impl<'a> BitBufReader<'a> {
    /// The bits taken from the source and not yet handed out.
    pub closed spec fn buffered(self) -> Seq<bool> {
        self.buf.bits()
    }

    /// The bytes that the source has left.
    pub closed spec fn source(self) -> Seq<u8> {
        self.reader.remaining()
    }

    /// Every bit not yet handed out, those already buffered first.
    pub open spec fn bits(self) -> Seq<bool> {
        self.buffered() + bytes_bits(self.source())
    }

    /// The accumulator has room for the next read.
    pub closed spec fn wf(self) -> bool {
        &&& self.buf.wf()
        &&& self.buf.offset <= 56
        &&& self.reader.wf()
    }

    /// A reader over the bytes that `stream` has left.
    pub fn new(stream: ByteSource<'a>) -> (r: Self)
        requires
            stream.wf(),
        ensures
            r.wf(),
            r.buffered() == Seq::<bool>::empty(),
            r.source() == stream.remaining(),
            r.bits() == bytes_bits(stream.remaining()),
    {
        let r = BitBufReader { buf: BitBuf::new(), reader: stream };
        assert(r.bits() =~= bytes_bits(stream.remaining()));
        r
    }

    /// Hands out the next `width` bits as a number, least significant bit
    /// first. It takes from the source as many bytes as the buffered bits
    /// fall short of `width`, and none when they suffice. When fewer than
    /// `width` bits are left it fails with the source exhausted, and the bits
    /// that are left stay available.
    pub fn read(&mut self, width: u8) -> (res: Result<u64, LzwError>)
        requires
            old(self).wf(),
            width <= MAX_WIDTH,
        ensures
            final(self).wf(),
            match res {
                Ok(v) => {
                    &&& width <= old(self).bits().len()
                    &&& v == bits_value(old(self).bits().take(width as int))
                    &&& final(self).bits() == old(self).bits().skip(width as int)
                    &&& final(self).source() == old(self).source().skip(
                        bytes_needed(old(self).buffered().len(), width as nat) as int,
                    )
                },
                Err(e) => {
                    &&& e == LzwError::UnexpectedEof
                    &&& old(self).bits().len() < width
                    &&& final(self).bits() == old(self).bits()
                    &&& final(self).source().len() == 0
                },
            },
    {
        let ghost all = self.bits();
        let ghost w0 = width as u64;
        let ghost o0 = self.buf.offset as int;
        let ghost taken: int = 0;
        proof {
            assert(self.source().skip(0) =~= self.source());
        }
        while self.buf.offset < width
            invariant
                self.buf.wf(),
                self.reader.wf(),
                self.buf.offset <= 56 || self.buf.offset < width + 8,
                width <= MAX_WIDTH,
                self.bits() == all,
                all == old(self).bits(),
                o0 == old(self).buffered().len(),
                0 <= taken <= old(self).source().len(),
                self.buf.offset == o0 + 8 * taken,
                taken > 0 ==> o0 + 8 * (taken - 1) < width,
                self.source() == old(self).source().skip(taken),
            decreases self.reader.remaining().len(),
        {
            let ghost d = self.buf.data;
            let ghost o = self.buf.offset as u64;
            let ghost rest = self.reader.remaining();
            let byte: u64 = match read_one_byte(&mut self.reader) {
                Ok(value) => value as u64,
                Err(e) => {
                    assert(all.len() == self.buf.offset);
                    return Err(e);
                },
            };
            let field: u64 = byte << self.buf.offset;
            assert(d + field <= 0xffff_ffff_ffff_ffff) by (bit_vector)
                requires
                    o <= 56,
                    d >> o == 0,
                    byte < 256,
                    field == byte << o,
            ;
            self.buf.data = self.buf.data + field;
            self.buf.offset = self.buf.offset + BYTE_WIDTH;
            proof {
                let d1 = self.buf.data;
                let o1 = self.buf.offset as u64;
                assert(o1 < 64 ==> d1 >> o1 == 0) by (bit_vector)
                    requires
                        o <= 56,
                        o1 == o + 8,
                        d >> o == 0,
                        byte < 256,
                        field == byte << o,
                        d1 == d + field,
                ;
                assert forall|i: int| 0 <= i < o1 implies #[trigger] bit_at(d1, i as u64) == (if i
                    < o {
                    bit_at(d, i as u64)
                } else {
                    bit_at(byte, (i - o) as u64)
                }) by {
                    let j = i as u64;
                    assert(((d1 >> j) & 1 == 1) == (if j < o {
                        (d >> j) & 1 == 1
                    } else {
                        (byte >> ((j - o) as u64)) & 1 == 1
                    })) by (bit_vector)
                        requires
                            o <= 56,
                            j < o + 8,
                            d >> o == 0,
                            byte < 256,
                            field == byte << o,
                            d1 == d + field,
                    ;
                }
                assert(bits_of(d1, o1 as nat) =~= bits_of(d, o as nat) + bits_of(byte, 8));
                assert(bytes_bits(rest) =~= bits_of(byte, 8) + bytes_bits(rest.skip(1)));
                assert(self.bits() =~= all);
                assert(old(self).source().skip(taken).skip(1) =~= old(self).source().skip(
                    taken + 1,
                ));
                taken = taken + 1;
            }
        }
        let ghost d = self.buf.data;
        let ghost o = self.buf.offset as u64;
        assert((1u64 << w0) >= 1) by (bit_vector)
            requires
                w0 <= 57,
        ;
        let result: u64 = self.buf.data & ((1u64 << width) - 1);
        self.buf.data = self.buf.data >> width;
        self.buf.offset = self.buf.offset - width;
        proof {
            let d2 = self.buf.data;
            let o2 = self.buf.offset as u64;
            assert(result >> w0 == 0 && d2 >> o2 == 0) by (bit_vector)
                requires
                    w0 <= 57,
                    w0 <= o <= 64,
                    o2 == o - w0,
                    o < 64 ==> d >> o == 0,
                    result == d & (((1u64 << w0) - 1) as u64),
                    d2 == d >> w0,
            ;
            assert forall|i: int| 0 <= i < w0 implies #[trigger] bit_at(result, i as u64)
                == bit_at(d, i as u64) by {
                let j = i as u64;
                assert(((result >> j) & 1 == 1) == ((d >> j) & 1 == 1)) by (bit_vector)
                    requires
                        j < w0 <= 57,
                        result == d & (((1u64 << w0) - 1) as u64),
                ;
            }
            assert forall|i: int| 0 <= i < o2 implies #[trigger] bit_at(d2, i as u64) == bit_at(
                d,
                (i + w0) as u64,
            ) by {
                let j = i as u64;
                assert(((d2 >> j) & 1 == 1) == ((d >> ((j + w0) as u64)) & 1 == 1))
                    by (bit_vector)
                    requires
                        w0 <= 57,
                        j + w0 < 64,
                        d2 == d >> w0,
                ;
            }
            assert(bits_of(result, w0 as nat) =~= all.take(width as int));
            assert(self.bits() =~= all.skip(width as int));
            lemma_bits_value_of(result, w0 as nat);
        }
        Ok(result)
    }
}

} // verus!
