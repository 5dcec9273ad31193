use lzw::bit_buffer::{BitBufReader, ByteSource};
use lzw::dict::{Dict, DictEntry, State};
use lzw::error::LzwError;
use lzw::lzw::{compress, decode, decode_next, decompress};

fn pseudo_random(seed: u64, len: usize) -> Vec<u8> {
    let mut x: u64 = seed;
    let mut out: Vec<u8> = Vec::with_capacity(len);
    for _ in 0..len {
        x = x
            .wrapping_mul(6364136223846793005)
            .wrapping_add(1442695040888963407);
        out.push(((x >> 33) & 0xff) as u8);
    }
    out
}

fn distinct_pairs() -> Vec<u8> {
    let mut out: Vec<u8> = Vec::new();
    for i in 0..450u32 {
        out.push((i % 256) as u8);
        out.push(((i / 256 + i * 7 + 1) % 256) as u8);
    }
    out
}

fn round_trip(input: &[u8]) {
    let packed = compress(input).unwrap();
    assert_eq!(decompress(&packed), Ok(input.to_vec()));
}

#[test]
fn empty_input_gives_empty_output() {
    assert_eq!(compress(b""), Ok(Vec::<u8>::new()));
    assert_eq!(decompress(b""), Ok(Vec::<u8>::new()));
}

#[test]
fn single_byte() {
    assert_eq!(compress(b"A"), Ok(vec![0x41u8, 0x00]));
    round_trip(b"A");
}

#[test]
fn two_bytes() {
    assert_eq!(compress(b"AB"), Ok(vec![0x41u8, 0x84, 0x00]));
    round_trip(b"AB");
}

#[test]
fn repeated_byte() {
    assert_eq!(compress(b"AAAAA"), Ok(vec![0x41u8, 0x00, 0x02, 0x04]));
    assert_eq!(decompress(&[0x41u8, 0x00, 0x02, 0x04]), Ok(b"AAAAA".to_vec()));
}

#[test]
fn self_referential_code() {
    // The codes are 65, 66, 256, 258; the decoder meets 258 with 258 entries.
    assert_eq!(
        compress(b"ABABABA"),
        Ok(vec![0x41u8, 0x84, 0x00, 0x14, 0x08])
    );
    assert_eq!(
        decompress(&[0x41u8, 0x84, 0x00, 0x14, 0x08]),
        Ok(b"ABABABA".to_vec())
    );
}

#[test]
fn self_referential_code_comes_second() {
    // The codes are 97 and 256; the decoder meets 256 with 256 entries.
    assert_eq!(compress(b"aaa"), Ok(vec![0x61u8, 0x00, 0x02]));
    assert_eq!(decompress(&[0x61u8, 0x00, 0x02]), Ok(b"aaa".to_vec()));
}

#[test]
fn codes_that_end_on_a_byte_boundary_get_no_closing_byte() {
    // Eight codes of 9 bits fill nine bytes.
    let input: Vec<u8> = (0..8u8).collect();
    assert_eq!(
        compress(&input),
        Ok(vec![0x00u8, 0x02, 0x08, 0x18, 0x40, 0xa0, 0x80, 0x81, 0x03])
    );
    assert_eq!(
        decompress(&[0x00u8, 0x02, 0x08, 0x18, 0x40, 0xa0, 0x80, 0x81, 0x03]),
        Ok(input)
    );
}

#[test]
fn long_run_of_one_byte() {
    let input: Vec<u8> = vec![0u8; 1000];
    let packed = compress(&input).unwrap();
    assert_eq!(packed.len(), 51);
    assert_eq!(decompress(&packed), Ok(input));
}

#[test]
fn width_grows_from_nine_bits_on() {
    let input = distinct_pairs();
    assert_eq!(input.len(), 900);
    let packed = compress(&input).unwrap();
    // 255 codes of 9 bits, 512 of 10 and 133 of 11: 8878 bits.
    assert_eq!(packed.len(), 1110);
    assert_eq!(decompress(&packed), Ok(input));
}

#[test]
fn last_code_at_a_width_boundary() {
    // 255 codes of 9 bits, and the last one, at index 255, of 10 bits.
    let input: Vec<u8> = (0..=255u8).collect();
    let packed = compress(&input).unwrap();
    assert_eq!(packed.len(), 289);
    assert_eq!(packed[286], 0xbf);
    assert_eq!(packed[287], 0x7f);
    assert_eq!(packed[288], 0x00);
    assert_eq!(decompress(&packed), Ok(input));
}

#[test]
fn inputs_around_the_first_width_boundary() {
    for len in 250..265usize {
        let input: Vec<u8> = (0..len).map(|i| (i % 256) as u8).collect();
        round_trip(&input);
    }
}

#[test]
fn random_data_round_trips() {
    let input = pseudo_random(12345, 100_000);
    let packed = compress(&input).unwrap();
    // 71816 codes of 9 to 17 bits, 1092368 bits in all: more than went in.
    assert_eq!(packed.len(), 136_546);
    assert_eq!(decompress(&packed), Ok(input));
}

#[test]
fn random_data_of_varied_lengths_round_trips() {
    for len in [1usize, 2, 3, 7, 64, 255, 256, 257, 511, 512, 513, 1000, 5000] {
        round_trip(&pseudo_random(len as u64, len));
    }
}

#[test]
fn text_round_trips() {
    let text = b"the quick brown fox jumps over the lazy dog, and the dog jumps back over the fox";
    let packed = compress(text).unwrap();
    assert!(packed.len() < text.len());
    assert_eq!(decompress(&packed), Ok(text.to_vec()));
}

#[test]
fn fewer_than_nine_bits_hold_no_code() {
    assert_eq!(decompress(&[0xffu8]), Ok(Vec::<u8>::new()));
}

#[test]
fn trailing_bits_are_ignored() {
    // One code of 9 bits, then 7 bits that fill no code.
    assert_eq!(decompress(&[0x41u8, 0xfe]), Ok(b"A".to_vec()));
}

#[test]
fn first_code_has_to_be_a_literal() {
    assert_eq!(decompress(&[0x00u8, 0x01]), Err(LzwError::InvalidCode));
    assert_eq!(decompress(&[0xffu8, 0x01]), Err(LzwError::InvalidCode));
}

#[test]
fn code_beyond_the_table_is_invalid() {
    // The codes are 65 and 300.
    assert_eq!(decompress(&[0x41u8, 0x58, 0x02]), Err(LzwError::InvalidCode));
    // The codes are 65 and 257; only 256 would be in order.
    assert_eq!(decompress(&[0x41u8, 0x02, 0x02]), Err(LzwError::InvalidCode));
}

#[test]
fn decode_walks_the_chain() {
    let mut dict = Dict::new(State::READ);
    dict.insert(72, 105);
    dict.insert(256, 33);
    dict.insert(257, 63);
    let mut out: Vec<u8> = b">".to_vec();
    assert_eq!(decode(&dict, &mut out, 258), 72);
    assert_eq!(out, b">Hi!?".to_vec());
    assert_eq!(decode(&dict, &mut out, 65), 65);
    assert_eq!(out, b">Hi!?A".to_vec());
    assert_eq!(decode(&dict, &mut out, 256), 72);
    assert_eq!(out, b">Hi!?AHi".to_vec());
}

#[test]
fn decode_next_resolves_known_and_pending_codes() {
    let mut dict = Dict::new(State::READ);
    let mut out: Vec<u8> = b"A".to_vec();
    assert_eq!(decode_next(&mut dict, &mut out, 65, 66), Ok(66));
    assert_eq!(out, b"AB".to_vec());
    assert_eq!(dict.table[256], DictEntry(Some(65), 66));
    // 257 is the code that the table is about to assign.
    assert_eq!(decode_next(&mut dict, &mut out, 66, 257), Ok(257));
    assert_eq!(out, b"ABBB".to_vec());
    assert_eq!(dict.table[257], DictEntry(Some(66), 66));
    assert_eq!(decode_next(&mut dict, &mut out, 257, 256), Ok(256));
    assert_eq!(out, b"ABBBAB".to_vec());
    assert_eq!(dict.table[258], DictEntry(Some(257), 65));
}

#[test]
fn decode_next_rejects_a_code_beyond_the_table() {
    let mut dict = Dict::new(State::READ);
    let mut out: Vec<u8> = b"A".to_vec();
    assert_eq!(
        decode_next(&mut dict, &mut out, 65, 257),
        Err(LzwError::InvalidCode)
    );
    assert_eq!(
        decode_next(&mut dict, &mut out, 65, 0x1_0000_0041),
        Err(LzwError::InvalidCode)
    );
    assert_eq!(out, b"A".to_vec());
    assert_eq!(dict.table.len(), 256);
    assert_eq!(dict.width, 9);
}

#[test]
fn emitted_codes_stay_within_table_and_width() {
    let input = distinct_pairs();
    let packed = compress(&input).unwrap();
    let mut reader = BitBufReader::new(ByteSource::new(&packed));
    let mut dict = Dict::new(State::READ);
    let mut out: Vec<u8> = Vec::new();
    let first: u64 = reader.read(dict.width).unwrap();
    assert!(first < 256);
    decode(&dict, &mut out, first as u32);
    let mut previous: u32 = first as u32;
    let mut count: usize = 1;
    while let Ok(code) = reader.read(dict.width) {
        assert!(code <= dict.table.len() as u64);
        assert!(code < (1u64 << dict.width));
        previous = decode_next(&mut dict, &mut out, previous, code).unwrap();
        count += 1;
    }
    assert_eq!(count, 900);
    assert_eq!(dict.table.len(), 256 + 899);
    assert_eq!(dict.width, 11);
    assert_eq!(out, input);
}
