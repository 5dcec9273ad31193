//! What holds of the codec as a whole: the decoder undoes the encoder.

use crate::bits::{
    bits_of, lemma_bits_value_of, lemma_bytes_of_bits, lemma_fits, padding, zero_bits,
};
use crate::dict::{
    chain_len, code_width, grown_width, initial_table, lemma_code_width_bounds,
    lemma_code_width_max, lemma_grown_width, lemma_last_index, lookup, phrase, table_wf, Code,
    DictEntry, State, MAX_TABLE,
};
use crate::error::LzwError;
use crate::model::{
    compressed, decoded, decoder_run, decoder_step, decompressed, encoder_inv, encoder_run,
    encoder_step, lemma_encoder_run_inv, lemma_encoder_step_inv, lzw_codes, padded, read_codes,
    read_width, stream_bits, DecoderState, EncoderState, MAX_INPUT,
};
use vstd::arithmetic::power2::pow2;
use vstd::prelude::*;

verus! {

/// A code sequence as the numbers that the decoder reads.
pub open spec fn as_nats(codes: Seq<Code>) -> Seq<nat> {
    Seq::new(codes.len(), |i: int| codes[i] as nat)
}

/// The phrases of a code sequence, one after the other.
pub open spec fn phrases(t: Seq<DictEntry>, codes: Seq<Code>) -> Seq<u8>
    decreases codes.len(),
{
    if codes.len() == 0 {
        Seq::empty()
    } else {
        phrases(t, codes.drop_last()) + phrase(t, codes.last() as int)
    }
}

/// The table is the one that a decoder builds from the codes: each code was
/// in the table, or about to enter it, when it came, and the entry made
/// after a code extends it by the first byte of the next code's phrase.
pub open spec fn consistent(t: Seq<DictEntry>, codes: Seq<Code>) -> bool {
    &&& table_wf(t)
    &&& codes.len() >= 1
    &&& t.len() == 255 + codes.len()
    &&& forall|j: int| 0 <= j < codes.len() ==> #[trigger] codes[j] < 256 + j
    &&& forall|j: int|
        0 <= j < codes.len() - 1 ==> #[trigger] t[256 + j] == DictEntry(
            Some(codes[j]),
            phrase(t, codes[j + 1] as int)[0],
        )
}

/// Chain-walk termination: the walk from a code to its literal visits one
/// entry per byte of the phrase, and never more entries than the table has
/// beyond the literals, plus one.
pub proof fn lemma_chain_walk(t: Seq<DictEntry>, code: int)
    requires
        table_wf(t),
        0 <= code < t.len(),
    ensures
        phrase(t, code).len() == chain_len(t, code),
        1 <= chain_len(t, code),
        code < 256 ==> chain_len(t, code) == 1,
        code >= 256 ==> chain_len(t, code) <= code - 254,
    decreases code,
{
    if code >= 256 {
        lemma_chain_walk(t, t[code].0.unwrap() as int);
    }
}

/// A code keeps its phrase when the table grows.
pub proof fn lemma_phrase_stable(t: Seq<DictEntry>, n: int, code: int)
    requires
        table_wf(t),
        256 <= n <= t.len(),
        0 <= code < n,
    ensures
        phrase(t.take(n), code) == phrase(t, code),
    decreases code,
{
    if code >= 256 {
        lemma_phrase_stable(t, n, t[code].0.unwrap() as int);
    }
}

/// Appending an entry keeps the table well formed and every phrase.
pub proof fn lemma_phrase_push(t: Seq<DictEntry>, e: DictEntry, code: int)
    requires
        table_wf(t),
        e.0 is Some,
        e.0.unwrap() < t.len(),
        0 <= code < t.len(),
    ensures
        table_wf(t.push(e)),
        phrase(t.push(e), code) == phrase(t, code),
{
    let t2 = t.push(e);
    assert(t2.take(t.len() as int) =~= t);
    lemma_phrase_stable(t2, t.len() as int, code);
}

/// Appending an entry keeps what a code sequence spells.
pub proof fn lemma_phrases_push(t: Seq<DictEntry>, e: DictEntry, codes: Seq<Code>)
    requires
        table_wf(t),
        e.0 is Some,
        e.0.unwrap() < t.len(),
        forall|j: int| 0 <= j < codes.len() ==> #[trigger] codes[j] < t.len(),
    ensures
        phrases(t.push(e), codes) == phrases(t, codes),
    decreases codes.len(),
{
    if codes.len() > 0 {
        lemma_phrases_push(t, e, codes.drop_last());
        lemma_phrase_push(t, e, codes.last() as int);
    }
}

/// The encoder's table and codes are consistent, and the codes spell the
/// input.
pub open spec fn spells(s: EncoderState, input: Seq<u8>) -> bool {
    &&& consistent(s.table, s.emitted.push(s.current))
    &&& phrases(s.table, s.emitted.push(s.current)) == input
}

/// A step of the encoder keeps table and codes consistent, and the codes
/// then spell one byte more.
pub proof fn lemma_encoder_step_spells(s: EncoderState, input: Seq<u8>, b: u8)
    requires
        encoder_inv(s),
        spells(s, input),
    ensures
        encoder_step(s, b) matches Some(s2) ==> spells(s2, input.push(b)),
{
    if encoder_step(s, b) is None {
        return ;
    }
    let t = s.table;
    let all = s.emitted.push(s.current);
    let s2 = encoder_step(s, b).unwrap();
    let all2 = s2.emitted.push(s2.current);
    let n = s.emitted.len() as int;
    lemma_last_index(t, DictEntry(Some(s.current), b));
    lemma_encoder_step_inv(s, b);
    assert(all.drop_last() =~= s.emitted);
    assert(all2.drop_last() =~= s2.emitted);
    match lookup(t, s.current, b) {
        Some(c) => {
            assert(t[c as int] == DictEntry(Some(s.current), b));
            assert(c >= 256);
            assert(phrase(t, c as int) == phrase(t, s.current as int).push(b));
            assert(phrases(t, all2) =~= input.push(b));
            assert forall|j: int| 0 <= j < all2.len() - 1 implies #[trigger] t[256 + j]
                == DictEntry(Some(all2[j]), phrase(t, all2[j + 1] as int)[0]) by {
                assert(t[256 + j] == DictEntry(Some(all[j]), phrase(t, all[j + 1] as int)[0]));
            }
        },
        None => {
            let e = DictEntry(Some(s.current), b);
            let t2 = s2.table;
            lemma_phrase_push(t, e, b as int);
            lemma_phrases_push(t, e, all);
            assert(all2.drop_last() =~= all);
            assert(phrase(t2, b as int) == seq![b]);
            assert(phrases(t2, all2) =~= input.push(b));
            assert forall|j: int| 0 <= j < all2.len() - 1 implies #[trigger] t2[256 + j]
                == DictEntry(Some(all2[j]), phrase(t2, all2[j + 1] as int)[0]) by {
                if j < n {
                    assert(t[256 + j] == DictEntry(
                        Some(all[j]),
                        phrase(t, all[j + 1] as int)[0],
                    ));
                    lemma_phrase_push(t, e, all[j + 1] as int);
                }
            }
        },
    }
}

/// After any input the encoder's table and codes are consistent, and the
/// codes spell the input.
pub proof fn lemma_encoder_run_spells(input: Seq<u8>)
    requires
        1 <= input.len(),
    ensures
        encoder_run(input) matches Some(s) ==> spells(s, input),
    decreases input.len(),
{
    if input.len() > 1 {
        let front = input.drop_last();
        lemma_encoder_run_spells(front);
        lemma_encoder_run_inv(front);
        if let Some(s) = encoder_run(front) {
            lemma_encoder_step_spells(s, front, input.last());
            assert(front.push(input.last()) =~= input);
        }
    } else {
        let s = encoder_run(input).unwrap();
        let all = s.emitted.push(s.current);
        assert(all.drop_last() =~= Seq::<Code>::empty());
        assert(phrases(s.table, all.drop_last()) =~= Seq::<u8>::empty());
        assert(phrase(s.table, input[0] as int) == seq![input[0]]);
        assert(phrases(s.table, all) =~= input);
    }
}

/// The decoder, fed the first `k` codes of a consistent sequence, has built
/// the table up to the entry made after code `k - 2` and has written the
/// phrases of those codes.
pub proof fn lemma_decoder_follows(t: Seq<DictEntry>, codes: Seq<Code>, k: int)
    requires
        consistent(t, codes),
        1 <= k <= codes.len(),
        t.len() <= MAX_TABLE + 1,
    ensures
        decoder_run(as_nats(codes.take(k))) == Ok::<DecoderState, LzwError>(
            DecoderState {
                table: t.take(255 + k),
                previous: codes[k - 1],
                output: phrases(t, codes.take(k)),
            },
        ),
    decreases k,
{
    let head = codes.take(k);
    if k == 1 {
        assert(t.take(256) =~= initial_table());
        assert(head.drop_last() =~= Seq::<Code>::empty());
        assert(phrases(t, head.drop_last()) =~= Seq::<u8>::empty());
        assert(codes[0] < 256);
        assert(phrase(t, codes[0] as int) == seq![codes[0] as u8]);
        assert(phrases(t, head) =~= seq![codes[0] as u8]);
    } else {
        lemma_decoder_follows(t, codes, k - 1);
        let before = decoder_run(as_nats(codes.take(k - 1))).unwrap();
        let tk = t.take(254 + k);
        let code = codes[k - 1];
        let prev = codes[k - 2];
        assert(head.drop_last() =~= codes.take(k - 1));
        assert(as_nats(head).drop_last() =~= as_nats(codes.take(k - 1)));
        assert(decoder_run(as_nats(head)) == decoder_step(before, code as nat));
        assert(t[256 + (k - 2)] == DictEntry(Some(prev), phrase(t, code as int)[0]));
        assert(prev < 256 + (k - 2));
        assert(code < 256 + (k - 1));
        lemma_phrase_stable(t, 254 + k, prev as int);
        if code < tk.len() {
            lemma_phrase_stable(t, 254 + k, code as int);
        } else {
            assert(phrase(t, code as int) == phrase(t, prev as int).push(t[code as int].1));
        }
        assert(tk.push(t[254 + k]) =~= t.take(255 + k));
    }
}

/// The encoder's width after `n` insertions, by the growth rule alone.
pub open spec fn encoder_width_after(n: nat) -> nat
    decreases n,
{
    if n == 0 {
        9
    } else {
        grown_width(State::WRITE, encoder_width_after((n - 1) as nat), 256 + n)
    }
}

/// The decoder's width after `n` insertions, by the growth rule alone.
pub open spec fn decoder_width_after(n: nat) -> nat
    decreases n,
{
    if n == 0 {
        9
    } else {
        grown_width(State::READ, decoder_width_after((n - 1) as nat), 256 + n)
    }
}

/// The growth rules in closed form.
pub proof fn lemma_widths_closed_form(n: nat)
    ensures
        encoder_width_after(n) == code_width(256 + n),
        decoder_width_after(n) == code_width(258 + n),
    decreases n,
{
    reveal_with_fuel(code_width, 2);
    if n > 0 {
        lemma_widths_closed_form((n - 1) as nat);
        lemma_grown_width(State::WRITE, (255 + n) as nat);
        lemma_grown_width(State::READ, (255 + n) as nat);
    }
}

/// The number of entries that the decoder has inserted when it reads the
/// code at `index`: none before the second code, then one per code.
pub open spec fn insertions_before_read(index: nat) -> nat {
    if index == 0 {
        0
    } else {
        (index - 1) as nat
    }
}

/// Width synchronisation. The encoder writes the code at `index` with the
/// width that its table has after insertion number `index + 1`: the
/// insertion that goes with the code or, for the last code, the one that
/// would follow it. The decoder reads the code after
/// `insertions_before_read(index)` insertions. Both widths are
/// `read_width(index)`, the one that the packed stream is laid out with:
/// the least width from 9 bits up that holds `257 + index`. It depends on
/// the index alone.
pub proof fn lemma_width_synchronised(index: nat)
    ensures
        encoder_width_after(index + 1) == read_width(index),
        decoder_width_after(insertions_before_read(index)) == read_width(index),
        9 <= read_width(index),
        257 + index < pow2(read_width(index)),
        read_width(index) > 9 ==> pow2((read_width(index) - 1) as nat) <= 257 + index,
{
    reveal_with_fuel(code_width, 2);
    lemma_widths_closed_form(index + 1);
    lemma_widths_closed_form(insertions_before_read(index));
    lemma_code_width_bounds(257 + index);
}

/// The phrases of a code sequence begin with the phrase of its first code.
pub proof fn lemma_phrases_head(t: Seq<DictEntry>, codes: Seq<Code>)
    requires
        codes.len() >= 1,
        forall|j: int| 0 <= j < codes.len() ==> #[trigger] codes[j] < t.len(),
    ensures
        phrases(t, codes).len() >= 1,
        phrases(t, codes)[0] == phrase(t, codes[0] as int)[0],
    decreases codes.len(),
{
    if codes.len() == 1 {
        assert(phrases(t, codes.drop_last()) =~= Seq::<u8>::empty());
        assert(phrase(t, codes[0] as int).len() >= 1);
    } else {
        lemma_phrases_head(t, codes.drop_last());
    }
}

/// The first code of an encoded input is its first byte.
pub proof fn lemma_first_code(input: Seq<u8>)
    ensures
        lzw_codes(input) matches Some(codes) ==> codes.len() >= 1 ==> codes[0] == input[0],
{
    if input.len() >= 1 {
        if let Some(s) = encoder_run(input) {
            let codes = s.emitted.push(s.current);
            lemma_encoder_run_inv(input);
            lemma_encoder_run_spells(input);
            assert(codes[0] < 256);
            lemma_phrases_head(s.table, codes);
            assert(phrase(s.table, codes[0] as int) == seq![codes[0] as u8]);
        }
    }
}

/// The code is representable in `width` bits, and `width` is a width that
/// the stream uses.
pub open spec fn code_fits(code: Code, width: nat) -> bool {
    &&& 9 <= width
    &&& code < pow2(width)
}

/// No over-width codes: each code of an encoded input is below two to the
/// power of the width it is written with, and that width is at least 9.
pub proof fn lemma_codes_fit(input: Seq<u8>)
    ensures
        lzw_codes(input) matches Some(codes) ==> forall|i: int|
            0 <= i < codes.len() ==> code_fits(#[trigger] codes[i], read_width(i as nat)),
{
    if let Some(codes) = lzw_codes(input) {
        assert forall|i: int| 0 <= i < codes.len() implies code_fits(
            #[trigger] codes[i],
            read_width(i as nat),
        ) by {
            let s = encoder_run(input).unwrap();
            lemma_encoder_run_inv(input);
            lemma_code_width_bounds(257 + i as nat);
            if i < s.emitted.len() {
                assert(s.emitted[i] < 256 + i);
            } else {
                assert(codes[i] == s.current);
            }
        }
    }
}

/// The decoder never meets an invalid forward reference: the first code of
/// an encoded input is a literal, and when a later code arrives the decoder
/// has taken in all codes before it, and the code is at most the size of
/// the table that it has built.
pub proof fn lemma_no_forward_reference(input: Seq<u8>)
    ensures
        lzw_codes(input) matches Some(codes) ==> {
            &&& codes.len() >= 1 ==> codes[0] < 256
            &&& forall|i: int|
                1 <= i < codes.len() ==> (#[trigger] decoder_run(as_nats(codes.take(i)))
                    matches Ok(before) && codes[i] <= before.table.len())
        },
{
    if input.len() >= 1 {
        if let Some(s) = encoder_run(input) {
            let codes = s.emitted.push(s.current);
            lemma_encoder_run_inv(input);
            lemma_encoder_run_spells(input);
            assert(codes[0] < 256);
            assert forall|i: int| 1 <= i < codes.len() implies (#[trigger] decoder_run(
                as_nats(codes.take(i)),
            ) matches Ok(before) && codes[i] <= before.table.len()) by {
                lemma_decoder_follows(s.table, codes, i);
                assert(codes[i] < 256 + i);
            }
        }
    }
}

/// The codes of an encoded input decode to the input.
pub proof fn lemma_codes_round_trip(input: Seq<u8>)
    ensures
        lzw_codes(input) matches Some(codes) ==> decoded(as_nats(codes)) == Ok::<
            Seq<u8>,
            LzwError,
        >(input),
{
    if input.len() == 0 {
        assert(input =~= Seq::<u8>::empty());
    } else if let Some(s) = encoder_run(input) {
        let codes = s.emitted.push(s.current);
        lemma_encoder_run_inv(input);
        lemma_encoder_run_spells(input);
        lemma_decoder_follows(s.table, codes, codes.len() as int);
        assert(codes.take(codes.len() as int) =~= codes);
    }
}

/// Table synchronisation: once the decoder has taken in every code of an
/// encoded input, its table is the encoder's.
pub proof fn lemma_tables_synchronised(input: Seq<u8>)
    requires
        input.len() >= 1,
    ensures
        encoder_run(input) matches Some(s) ==> (decoder_run(
            as_nats(s.emitted.push(s.current)),
        ) matches Ok(d) && d.table == s.table),
{
    if let Some(s) = encoder_run(input) {
        let codes = s.emitted.push(s.current);
        lemma_encoder_run_inv(input);
        lemma_encoder_run_spells(input);
        lemma_decoder_follows(s.table, codes, codes.len() as int);
        assert(codes.take(codes.len() as int) =~= codes);
        assert(s.table.take(s.table.len() as int) =~= s.table);
    }
}

/// Reading back what was written: the codes come out one by one, and
/// reading goes on with what follows them.
pub proof fn lemma_read_stream(codes: Seq<Code>, rest: Seq<bool>)
    requires
        codes.len() <= MAX_TABLE,
        forall|j: int| 0 <= j < codes.len() ==> #[trigger] codes[j] < 256 + j,
    ensures
        read_codes(stream_bits(codes) + rest, 0) == as_nats(codes) + read_codes(
            rest,
            codes.len(),
        ),
    decreases codes.len(),
{
    if codes.len() == 0 {
        assert(stream_bits(codes) + rest =~= rest);
        assert(as_nats(codes) + read_codes(rest, 0) =~= read_codes(rest, 0));
    } else {
        let front = codes.drop_last();
        let k = front.len();
        let c = codes.last();
        let w = read_width(k);
        let field = bits_of(c as u64, w);
        lemma_read_stream(front, field + rest);
        assert(stream_bits(codes) + rest =~= stream_bits(front) + (field + rest));
        lemma_code_width_bounds(257 + k);
        lemma_code_width_max(257 + k);
        assert(c < 256 + k);
        lemma_fits(c as u64, w);
        lemma_bits_value_of(c as u64, w);
        assert((field + rest).take(w as int) =~= field);
        assert((field + rest).skip(w as int) =~= rest);
        assert(as_nats(front) + (seq![c as nat] + read_codes(rest, k + 1)) =~= as_nats(codes)
            + read_codes(rest, codes.len()));
    }
}

/// Reading back a complete encoding: every code comes out, and the zero
/// bits of the last byte fill no further code.
pub proof fn lemma_read_encoded(codes: Seq<Code>)
    requires
        codes.len() <= MAX_TABLE,
        forall|j: int| 0 <= j < codes.len() ==> #[trigger] codes[j] < 256 + j,
    ensures
        read_codes(padded(stream_bits(codes)), 0) == as_nats(codes),
{
    let body = stream_bits(codes);
    let pad = zero_bits(padding(body.len()));
    lemma_read_stream(codes, pad);
    lemma_code_width_bounds(257 + codes.len());
    assert(read_codes(pad, codes.len()) =~= Seq::<nat>::empty());
    assert(as_nats(codes) + Seq::<nat>::empty() =~= as_nats(codes));
}

/// Round-trip identity: decompressing the compressed form of any input
/// gives the input back. Only an input that fills the table has no
/// compressed form, and no input of up to `MAX_INPUT` bytes does.
pub proof fn lemma_round_trip(input: Seq<u8>)
    ensures
        match compressed(input) {
            Ok(packed) => decompressed(packed) == Ok::<Seq<u8>, LzwError>(input),
            Err(e) => e == LzwError::TableFull && input.len() > MAX_INPUT,
        },
{
    if input.len() >= 1 {
        lemma_encoder_run_inv(input);
    }
    if let Some(codes) = lzw_codes(input) {
        let bits = padded(stream_bits(codes));
        lemma_bytes_of_bits(bits);
        lemma_read_encoded(codes);
        lemma_codes_round_trip(input);
    }
}

} // verus!
