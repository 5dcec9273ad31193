//! The codec as mathematics: what the encoder emits for a byte sequence, how
//! the codes lie in the packed stream, and what the decoder makes of them.

use crate::bits::{bits_bytes, bits_of, bits_value, bytes_bits, padding, zero_bits};
use crate::dict::{
    code_width, initial_table, lemma_last_index, lookup, phrase, table_wf, Code, DictEntry,
    MAX_TABLE,
};
use crate::error::LzwError;
use vstd::prelude::*;

verus! {

/// Inputs of up to this length never fill the table.
pub const MAX_INPUT: usize = 0xffff_ff00;

/// The encoder between two input bytes.
pub struct EncoderState {
    /// The table built so far.
    pub table: Seq<DictEntry>,
    /// The code of the longest match that ends at the last byte consumed.
    pub current: Code,
    /// The codes emitted so far.
    pub emitted: Seq<Code>,
}

/// The encoder after the first byte.
pub open spec fn encoder_start(first: u8) -> EncoderState {
    EncoderState { table: initial_table(), current: first as Code, emitted: Seq::empty() }
}

/// One more byte: the match grows if the table knows the extension;
/// otherwise the extension is inserted, the match is emitted, and the byte
/// starts the next match. Where the table is full and cannot take the
/// extension, the encoder fails.
pub open spec fn encoder_step(s: EncoderState, b: u8) -> Option<EncoderState> {
    match lookup(s.table, s.current, b) {
        Some(c) => Some(EncoderState { table: s.table, current: c, emitted: s.emitted }),
        None => if s.table.len() > MAX_TABLE {
            None
        } else {
            Some(
                EncoderState {
                    table: s.table.push(DictEntry(Some(s.current), b)),
                    current: b as Code,
                    emitted: s.emitted.push(s.current),
                },
            )
        },
    }
}

/// The encoder after all of a non-empty input, unless the table was full
/// on the way.
pub open spec fn encoder_run(input: Seq<u8>) -> Option<EncoderState>
    decreases input.len(),
{
    if input.len() <= 1 {
        Some(encoder_start(input[0]))
    } else {
        match encoder_run(input.drop_last()) {
            Some(s) => encoder_step(s, input.last()),
            None => None,
        }
    }
}

/// The codes that stand for an input: what was emitted on the way, then the
/// last match. The empty input has no code.
pub open spec fn lzw_codes(input: Seq<u8>) -> Option<Seq<Code>> {
    if input.len() == 0 {
        Some(Seq::empty())
    } else {
        match encoder_run(input) {
            Some(s) => Some(s.emitted.push(s.current)),
            None => None,
        }
    }
}

/// The width of the code at `index` of the stream, for writing and for
/// reading: the least width from 9 bits up that holds `257 + index`.
pub open spec fn read_width(index: nat) -> nat {
    code_width(257 + index)
}

/// The bits of a code sequence, each code at its width.
pub open spec fn stream_bits(codes: Seq<Code>) -> Seq<bool>
    decreases codes.len(),
{
    if codes.len() == 0 {
        Seq::empty()
    } else {
        stream_bits(codes.drop_last()) + bits_of(
            codes.last() as u64,
            read_width((codes.len() - 1) as nat),
        )
    }
}

/// A bit sequence filled up with zero bits to the next byte boundary. On a
/// boundary nothing is added.
pub open spec fn padded(bits: Seq<bool>) -> Seq<bool> {
    bits + zero_bits(padding(bits.len()))
}

/// The compressed form of an input: its codes, packed. The empty input has
/// the empty form. An input that fills the table has none.
pub open spec fn compressed(input: Seq<u8>) -> Result<Seq<u8>, LzwError> {
    match lzw_codes(input) {
        Some(codes) => Ok(bits_bytes(padded(stream_bits(codes)))),
        None => Err(LzwError::TableFull),
    }
}

/// The codes that a bit sequence holds from position `index` of the code
/// sequence on. Bits that do not fill a code are left over.
pub open spec fn read_codes(bits: Seq<bool>, index: nat) -> Seq<nat>
    decreases bits.len(),
{
    let w = read_width(index);
    if w == 0 || bits.len() < w {
        Seq::empty()
    } else {
        seq![bits_value(bits.take(w as int))] + read_codes(bits.skip(w as int), index + 1)
    }
}

/// The decoder between two codes.
pub struct DecoderState {
    /// The table built so far.
    pub table: Seq<DictEntry>,
    /// The code decoded last.
    pub previous: Code,
    /// The bytes produced so far.
    pub output: Seq<u8>,
}

/// The decoder after the first code, which has to be a literal.
pub open spec fn decoder_start(code: nat) -> Result<DecoderState, LzwError> {
    if code < 256 {
        Ok(
            DecoderState {
                table: initial_table(),
                previous: code as Code,
                output: seq![code as u8],
            },
        )
    } else {
        Err(LzwError::InvalidCode)
    }
}

/// One more code. A code beyond the one that the table is about to assign
/// is invalid. Otherwise the table has to have room for one more entry. A
/// code in the table yields its phrase; the code that the table is about to
/// assign yields the previous phrase followed by its own first byte. Either
/// way the previous code, extended by the first byte of what was just
/// produced, enters the table.
pub open spec fn decoder_step(s: DecoderState, code: nat) -> Result<DecoderState, LzwError> {
    if code > s.table.len() {
        Err(LzwError::InvalidCode)
    } else if s.table.len() > MAX_TABLE {
        Err(LzwError::TableFull)
    } else if code < s.table.len() {
        let p = phrase(s.table, code as int);
        Ok(
            DecoderState {
                table: s.table.push(DictEntry(Some(s.previous), p[0])),
                previous: code as Code,
                output: s.output + p,
            },
        )
    } else {
        let p = phrase(s.table, s.previous as int);
        Ok(
            DecoderState {
                table: s.table.push(DictEntry(Some(s.previous), p[0])),
                previous: code as Code,
                output: s.output + p.push(p[0]),
            },
        )
    }
}

/// The decoder after a non-empty code sequence, or the first failure.
pub open spec fn decoder_run(codes: Seq<nat>) -> Result<DecoderState, LzwError>
    decreases codes.len(),
{
    if codes.len() <= 1 {
        decoder_start(codes[0])
    } else {
        match decoder_run(codes.drop_last()) {
            Ok(s) => decoder_step(s, codes.last()),
            Err(e) => Err(e),
        }
    }
}

/// The bytes that a code sequence stands for.
pub open spec fn decoded(codes: Seq<nat>) -> Result<Seq<u8>, LzwError> {
    if codes.len() == 0 {
        Ok(Seq::empty())
    } else {
        match decoder_run(codes) {
            Ok(s) => Ok(s.output),
            Err(e) => Err(e),
        }
    }
}

/// The bytes that a compressed stream stands for.
pub open spec fn decompressed(input: Seq<u8>) -> Result<Seq<u8>, LzwError> {
    decoded(read_codes(bytes_bits(input), 0))
}

/// What holds of the encoder between any two bytes: the table is well
/// formed and has grown by one entry per emitted code, every code fits in a
/// `Code`, the current match is in the table, and each emitted code was in
/// the table when it was emitted.
pub open spec fn encoder_inv(s: EncoderState) -> bool {
    &&& table_wf(s.table)
    &&& s.table.len() == 256 + s.emitted.len()
    &&& s.table.len() <= MAX_TABLE + 1
    &&& s.current < s.table.len()
    &&& forall|i: int| 0 <= i < s.emitted.len() ==> #[trigger] s.emitted[i] < 256 + i
}

/// A step of the encoder keeps `encoder_inv` and emits at most one code.
pub proof fn lemma_encoder_step_inv(s: EncoderState, b: u8)
    requires
        encoder_inv(s),
    ensures
        encoder_step(s, b) matches Some(s2) ==> encoder_inv(s2) && s2.emitted.len()
            <= s.emitted.len() + 1,
        s.table.len() <= MAX_TABLE ==> encoder_step(s, b) is Some,
{
    lemma_last_index(s.table, DictEntry(Some(s.current), b));
}

/// `encoder_inv` holds after any input that the encoder gets through, and
/// fewer codes were emitted than bytes came in.
pub proof fn lemma_encoder_run_inv(input: Seq<u8>)
    requires
        1 <= input.len(),
    ensures
        encoder_run(input) matches Some(s) ==> encoder_inv(s) && s.emitted.len() <= input.len()
            - 1,
        input.len() <= MAX_INPUT ==> encoder_run(input) is Some,
    decreases input.len(),
{
    if input.len() > 1 {
        lemma_encoder_run_inv(input.drop_last());
        if let Some(s) = encoder_run(input.drop_last()) {
            lemma_encoder_step_inv(s, input.last());
        }
    }
}

/// Once the table was full for a prefix of the input, it is for the input.
pub proof fn lemma_encoder_fails(input: Seq<u8>, n: int)
    requires
        1 <= n <= input.len(),
        encoder_run(input.take(n)) is None,
    ensures
        encoder_run(input) is None,
    decreases input.len(),
{
    if n == input.len() {
        assert(input.take(n) =~= input);
    } else {
        assert(input.drop_last().take(n) =~= input.take(n));
        lemma_encoder_fails(input.drop_last(), n);
    }
}

} // verus!
