//! Compression and decompression of whole byte streams.

use crate::bit_buffer::{read_one_byte, BitBufReader, BitBufWriter, ByteSource};
use crate::bits::{bits_value, bytes_bits};
use crate::dict::{
    chain_len, code_width, lemma_code_width_bounds, lemma_code_width_max, phrase, table_wf, Byte,
    Code, Dict, State, MAX_TABLE,
};
use crate::error::LzwError;
use crate::model::{
    compressed, decoder_run, decoder_step, decompressed, encoder_inv, encoder_run, encoder_start,
    encoder_step, lemma_encoder_fails, lemma_encoder_step_inv, padded, read_codes, read_width,
    stream_bits, DecoderState,
};
use vstd::prelude::*;

verus! {

/// Walks the chain of `code` back to its literal and appends the phrase of
/// `code` to `stream`. Returns the first byte of the phrase. The walk visits
/// one entry per byte of the phrase.
pub fn decode(dict: &Dict, stream: &mut Vec<u8>, code: Code) -> (first: Byte)
    requires
        table_wf(dict.table@),
        code < dict.table@.len(),
    ensures
        final(stream)@ == old(stream)@ + phrase(dict.table@, code as int),
        first == phrase(dict.table@, code as int)[0],
        phrase(dict.table@, code as int).len() == chain_len(dict.table@, code as int),
{
    let ghost t = dict.table@;
    let ghost at: int = code as int;
    let mut pattern: Vec<Byte> = Vec::new();
    let mut entry = dict.table[code as usize];
    while entry.0.is_some()
        invariant
            t == dict.table@,
            table_wf(t),
            0 <= at < t.len(),
            entry == t[at],
            phrase(t, code as int) == phrase(t, at) + pattern@.reverse(),
            chain_len(t, code as int) == chain_len(t, at) + pattern@.len(),
            phrase(t, code as int)[0] == phrase(t, at)[0],
            phrase(t, at).len() >= 1,
        decreases at,
    {
        let pointer = entry.0.unwrap();
        let ghost before = pattern@;
        pattern.push(entry.1);
        proof {
            assert(at >= 256);
            assert(phrase(t, at) == phrase(t, pointer as int).push(entry.1));
            assert(pattern@.reverse() =~= seq![entry.1] + before.reverse());
            assert(phrase(t, at) + before.reverse() =~= phrase(t, pointer as int)
                + pattern@.reverse());
            assert(phrase(t, pointer as int).len() >= 1);
            at = pointer as int;
        }
        entry = dict.table[pointer as usize];
    }
    let ghost before = pattern@;
    pattern.push(entry.1);
    proof {
        assert(phrase(t, at) == seq![entry.1]);
        assert(pattern@.reverse() =~= seq![entry.1] + before.reverse());
        assert(phrase(t, code as int) =~= pattern@.reverse());
    }
    let first = entry.1;
    let mut i: usize = pattern.len();
    while i > 0
        invariant
            i <= pattern@.len(),
            stream@ == old(stream)@ + pattern@.reverse().take(pattern@.len() - i),
        decreases i,
    {
        i = i - 1;
        stream.push(pattern[i]);
        assert(stream@ =~= old(stream)@ + pattern@.reverse().take(pattern@.len() - i));
    }
    assert(pattern@.reverse().take(pattern@.len() as int) =~= pattern@.reverse());
    first
}

/// Compresses a byte sequence. The empty input gives the empty output. An
/// input that would need more codes than fit in a `Code` is refused.
pub fn compress(in_stream: &[u8]) -> (res: Result<Vec<u8>, LzwError>)
    ensures
        match res {
            Ok(out) => compressed(in_stream@) == Ok::<Seq<u8>, LzwError>(out@),
            Err(e) => compressed(in_stream@) == Err::<Seq<u8>, LzwError>(e),
        },
{
    let ghost input = in_stream@;
    let mut in_buf = ByteSource::new(in_stream);
    let mut writer = BitBufWriter::new(Vec::new());
    let mut dict = Dict::new(State::WRITE);
    let first = match read_one_byte(&mut in_buf) {
        Ok(b) => b,
        Err(_) => {
            proof {
                assert(writer.bits() =~= padded(stream_bits(Seq::<Code>::empty())));
            }
            return Ok(writer.into_inner());
        },
    };
    let mut last_code: Option<Code> = Some(first as Code);
    let mut result = read_one_byte(&mut in_buf);
    // `done` bytes are folded into the table and the emitted codes.
    let ghost done: int = 1;
    let ghost s = encoder_start(first);
    proof {
        assert(input.take(1).len() == 1);
        assert(writer.bits() =~= stream_bits(s.emitted));
        if input.len() >= 2 {
            assert(input.skip(1).skip(1) =~= input.skip(2));
        }
    }
    while result.is_ok()
        invariant
            input == in_stream@,
            1 <= done <= input.len(),
            dict.wf(),
            dict.state == State::WRITE,
            writer.wf(),
            in_buf.wf(),
            encoder_run(input.take(done)) == Some(s),
            encoder_inv(s),
            dict.table@ == s.table,
            writer.bits() == stream_bits(s.emitted),
            match last_code {
                Some(cur) => {
                    &&& cur == s.current
                    &&& match result {
                        Ok(c) => {
                            &&& done < input.len()
                            &&& c == input[done]
                            &&& in_buf.remaining() == input.skip(done + 1)
                        },
                        Err(_) => done == input.len(),
                    }
                },
                None => {
                    &&& result == Ok::<u8, LzwError>(input[done - 1])
                    &&& s.current == input[done - 1]
                    &&& in_buf.remaining() == input.skip(done)
                },
            },
        decreases 2 * (input.len() - done) + (if last_code is None { 1int } else { 0int }),
    {
        let c = result.unwrap();
        match last_code {
            None => {
                last_code = Some(c as Code);
                result = read_one_byte(&mut in_buf);
                proof {
                    assert(input.skip(done).len() == input.len() - done);
                    if input.len() > done {
                        assert(input.skip(done)[0] == input[done]);
                        assert(input.skip(done).skip(1) =~= input.skip(done + 1));
                    }
                }
            },
            Some(code) => {
                proof {
                    assert(input.take(done + 1).drop_last() =~= input.take(done));
                    assert(input.take(done + 1).last() == c);
                    lemma_encoder_step_inv(s, c);
                }
                match dict.find(code, c) {
                    None => {
                        if dict.table.len() > MAX_TABLE {
                            proof {
                                lemma_encoder_fails(input, done + 1);
                            }
                            return Err(LzwError::TableFull);
                        }
                        dict.insert(code, c);
                        writer.write(code as u64, dict.width);
                        last_code = None;
                        proof {
                            let s2 = encoder_step(s, c).unwrap();
                            assert(s2.emitted.drop_last() =~= s.emitted);
                            s = s2;
                            done = done + 1;
                        }
                    },
                    Some(inner_code) => {
                        last_code = Some(inner_code);
                        result = read_one_byte(&mut in_buf);
                        proof {
                            s = encoder_step(s, c).unwrap();
                            done = done + 1;
                            assert(input.skip(done).len() == input.len() - done);
                            if input.len() > done {
                                assert(input.skip(done)[0] == input[done]);
                                assert(input.skip(done).skip(1) =~= input.skip(done + 1));
                            }
                        }
                    },
                }
            },
        }
    }
    proof {
        assert(input.take(done) =~= input);
        assert(s.emitted.push(s.current).drop_last() =~= s.emitted);
    }
    // No insertion goes with the last code; it is written at the width that
    // the insertion would have given, which is the width it is read with.
    writer.write(last_code.unwrap() as u64, dict.width_after_insert());
    writer.flush();
    Ok(writer.into_inner())
}

/// Once the decoder has failed, no later code mends the sequence.
pub proof fn lemma_failed_prefix(prefix: Seq<nat>, rest: Seq<nat>)
    requires
        prefix.len() >= 1,
        decoder_run(prefix) is Err,
    ensures
        decoder_run(prefix + rest) == decoder_run(prefix),
    decreases rest.len(),
{
    if rest.len() == 0 {
        assert(prefix + rest =~= prefix);
    } else {
        assert((prefix + rest).drop_last() =~= prefix + rest.drop_last());
        lemma_failed_prefix(prefix, rest.drop_last());
    }
}

/// One transition of the decoder: takes in `code`, which follows
/// `previous`. A code in the table is resolved at once. The code that the
/// table is about to assign is resolved from the previous phrase. Either
/// way the phrase goes to `stream` and the entry that was pending since
/// `previous` enters the table. A larger code is invalid; a valid code for
/// which the table has no room finds the table full. Both change nothing.
pub fn decode_next(dict: &mut Dict, stream: &mut Vec<u8>, previous: Code, code: u64) -> (res:
    Result<Code, LzwError>)
    requires
        old(dict).wf(),
        previous < old(dict).table@.len(),
    ensures
        match decoder_step(
            DecoderState { table: old(dict).table@, previous, output: old(stream)@ },
            code as nat,
        ) {
            Ok(s) => {
                &&& res == Ok::<Code, LzwError>(s.previous)
                &&& final(dict).wf()
                &&& final(dict).state == old(dict).state
                &&& final(dict).table@ == s.table
                &&& final(stream)@ == s.output
            },
            Err(e) => {
                &&& res == Err::<Code, LzwError>(e)
                &&& *final(dict) == *old(dict)
                &&& final(stream)@ == old(stream)@
            },
        },
{
    let size: u64 = dict.table.len() as u64;
    if code > size {
        return Err(LzwError::InvalidCode);
    }
    if dict.table.len() > MAX_TABLE {
        return Err(LzwError::TableFull);
    }
    let c: Byte;
    if code < size {
        c = decode(dict, stream, code as Code);
    } else {
        c = decode(dict, stream, previous);
        stream.push(c);
        proof {
            let p = phrase(dict.table@, previous as int);
            assert(stream@ =~= old(stream)@ + p.push(p[0]));
        }
    }
    dict.insert(previous, c);
    Ok(code as Code)
}

/// Decompresses a code stream. The stream ends where the bits that are left
/// no longer fill a code. A code beyond the one that the table is about to
/// assign is invalid, and a stream of more codes than fit in a `Code` finds
/// the table full.
pub fn decompress(in_stream: &[u8]) -> (res: Result<Vec<u8>, LzwError>)
    ensures
        match res {
            Ok(out) => decompressed(in_stream@) == Ok::<Seq<u8>, LzwError>(out@),
            Err(e) => decompressed(in_stream@) == Err::<Seq<u8>, LzwError>(e),
        },
{
    let ghost input = in_stream@;
    let ghost all = read_codes(bytes_bits(input), 0);
    let mut reader = BitBufReader::new(ByteSource::new(in_stream));
    let mut dict = Dict::new(State::READ);
    let ghost pending = reader.bits();
    proof {
        reveal_with_fuel(code_width, 2);
    }
    let mut result = reader.read(dict.width);
    let mut out_buf: Vec<u8> = Vec::new();
    if result.is_err() {
        return Ok(out_buf);
    }
    let first = result.unwrap();
    let ghost seen: Seq<nat> = seq![first as nat];
    proof {
        assert(all =~= seen + read_codes(pending.skip(9), 1));
    }
    if first >= 256 {
        proof {
            lemma_failed_prefix(seen, read_codes(pending.skip(9), 1));
        }
        return Err(LzwError::InvalidCode);
    }
    let current_code = first as Code;
    decode(&dict, &mut out_buf, current_code);
    let mut last_code = current_code;
    proof {
        pending = reader.bits();
        assert(out_buf@ =~= seq![first as u8]);
    }
    result = reader.read(dict.width);
    while result.is_ok()
        invariant
            input == in_stream@,
            all == read_codes(bytes_bits(input), 0),
            dict.wf(),
            dict.state == State::READ,
            reader.wf(),
            seen.len() >= 1,
            dict.table@.len() == 255 + seen.len(),
            all == seen + read_codes(pending, seen.len()),
            decoder_run(seen) == Ok::<DecoderState, LzwError>(
                DecoderState { table: dict.table@, previous: last_code, output: out_buf@ },
            ),
            last_code < dict.table@.len(),
            match result {
                Ok(v) => {
                    &&& read_width(seen.len()) <= pending.len()
                    &&& v == bits_value(pending.take(read_width(seen.len()) as int))
                    &&& reader.bits() == pending.skip(read_width(seen.len()) as int)
                },
                Err(_) => pending.len() < read_width(seen.len()),
            },
        decreases pending.len(),
    {
        let code = result.unwrap();
        let ghost w = read_width(seen.len());
        let ghost rest = read_codes(pending.skip(w as int), seen.len() + 1);
        proof {
            lemma_code_width_bounds(257 + seen.len());
            assert(seen.push(code as nat).drop_last() =~= seen);
            assert(all =~= seen.push(code as nat) + rest);
        }
        match decode_next(&mut dict, &mut out_buf, last_code, code) {
            Ok(next) => {
                last_code = next;
            },
            Err(e) => {
                proof {
                    lemma_failed_prefix(seen.push(code as nat), rest);
                }
                return Err(e);
            },
        }
        proof {
            seen = seen.push(code as nat);
            pending = reader.bits();
            lemma_code_width_max(dict.table@.len() as nat + 2);
        }
        result = reader.read(dict.width);
    }
    proof {
        assert(all =~= seen);
    }
    Ok(out_buf)
}

} // verus!
