use lzw::bit_buffer::{read_one_byte, BitBufReader, BitBufWriter, ByteSource};
use lzw::error::LzwError;

#[test]
fn read_one_byte_walks_the_source() {
    let data: [u8; 3] = [7, 8, 9];
    let mut src = ByteSource::new(&data);
    assert_eq!(read_one_byte(&mut src), Ok(7));
    assert_eq!(read_one_byte(&mut src), Ok(8));
    assert_eq!(read_one_byte(&mut src), Ok(9));
    assert_eq!(read_one_byte(&mut src), Err(LzwError::UnexpectedEof));
    assert_eq!(read_one_byte(&mut src), Err(LzwError::UnexpectedEof));
}

#[test]
fn read_one_byte_on_empty_source_fails() {
    let data: [u8; 0] = [];
    let mut src = ByteSource::new(&data);
    assert_eq!(read_one_byte(&mut src), Err(LzwError::UnexpectedEof));
}

#[test]
fn write_packs_low_bit_first() {
    let mut w = BitBufWriter::new(Vec::new());
    w.write(1, 9);
    w.write(2, 9);
    w.flush();
    assert_eq!(w.into_inner(), vec![0x01u8, 0x04, 0x00]);
}

#[test]
fn write_keeps_only_the_low_bits() {
    let mut w = BitBufWriter::new(Vec::new());
    w.write(0xffff, 4);
    w.write(0, 4);
    assert_eq!(w.into_inner(), vec![0x0fu8]);
}

#[test]
fn write_of_width_zero_adds_nothing() {
    let mut w = BitBufWriter::new(Vec::new());
    w.write(0xff, 0);
    w.write(0xab, 8);
    assert_eq!(w.into_inner(), vec![0xabu8]);
}

#[test]
fn write_emits_complete_bytes_only() {
    let mut w = BitBufWriter::new(Vec::new());
    w.write(0x1ff, 9);
    assert_eq!(w.into_inner(), vec![0xffu8]);
}

#[test]
fn write_appends_to_the_given_sink() {
    let mut w = BitBufWriter::new(vec![0xaau8]);
    w.write(0x55, 8);
    assert_eq!(w.into_inner(), vec![0xaau8, 0x55]);
}

#[test]
fn write_takes_the_widest_value() {
    let mut w = BitBufWriter::new(Vec::new());
    w.write(1, 7);
    w.write(0x01ff_ffff_ffff_ffff, 57);
    assert_eq!(
        w.into_inner(),
        vec![0x81u8, 0xff, 0xff, 0xff, 0xff, 0xff, 0xff, 0xff]
    );
}

#[test]
fn flush_pads_the_last_byte_with_zeros() {
    let mut w = BitBufWriter::new(Vec::new());
    w.write(0b101, 3);
    w.flush();
    assert_eq!(w.into_inner(), vec![0b0000_0101u8]);
}

#[test]
fn flush_emits_nothing_when_nothing_waits() {
    let mut w = BitBufWriter::new(Vec::new());
    w.write(0xab, 8);
    w.flush();
    assert_eq!(w.into_inner(), vec![0xabu8]);
}

#[test]
fn flush_of_a_new_writer_emits_nothing() {
    let mut w = BitBufWriter::new(Vec::new());
    w.flush();
    assert_eq!(w.into_inner(), Vec::<u8>::new());
}

#[test]
fn flush_twice_emits_once() {
    let mut w = BitBufWriter::new(Vec::new());
    w.write(1, 1);
    w.flush();
    w.flush();
    assert_eq!(w.into_inner(), vec![0x01u8]);
}

#[test]
fn flush_empties_the_accumulator() {
    let mut w = BitBufWriter::new(Vec::new());
    w.write(0b11, 2);
    w.flush();
    w.write(0xcd, 8);
    assert_eq!(w.into_inner(), vec![0x03u8, 0xcd]);
}

#[test]
fn read_unpacks_low_bit_first() {
    let data: [u8; 3] = [0x01, 0x04, 0x00];
    let mut r = BitBufReader::new(ByteSource::new(&data));
    assert_eq!(r.read(9), Ok(1));
    assert_eq!(r.read(9), Ok(2));
    assert_eq!(r.read(9), Err(LzwError::UnexpectedEof));
}

#[test]
fn read_serves_buffered_bits_after_a_failure() {
    let data: [u8; 1] = [0b1010_0110];
    let mut r = BitBufReader::new(ByteSource::new(&data));
    assert_eq!(r.read(9), Err(LzwError::UnexpectedEof));
    assert_eq!(r.read(3), Ok(0b110));
    assert_eq!(r.read(5), Ok(0b10100));
    assert_eq!(r.read(1), Err(LzwError::UnexpectedEof));
    assert_eq!(r.read(0), Ok(0));
}

#[test]
fn read_on_empty_source_fails() {
    let data: [u8; 0] = [];
    let mut r = BitBufReader::new(ByteSource::new(&data));
    assert_eq!(r.read(9), Err(LzwError::UnexpectedEof));
}

#[test]
fn read_takes_the_widest_value() {
    let data: [u8; 8] = [0x81, 0xff, 0xff, 0xff, 0xff, 0xff, 0xff, 0xff];
    let mut r = BitBufReader::new(ByteSource::new(&data));
    assert_eq!(r.read(7), Ok(1));
    assert_eq!(r.read(57), Ok(0x01ff_ffff_ffff_ffff));
}

#[test]
fn read_starts_where_the_source_stands() {
    let data: [u8; 2] = [0x11, 0x22];
    let mut src = ByteSource::new(&data);
    assert_eq!(read_one_byte(&mut src), Ok(0x11));
    let mut r = BitBufReader::new(src);
    assert_eq!(r.read(8), Ok(0x22));
}

#[test]
fn written_values_read_back() {
    let values: [(u64, u8); 6] = [(5, 3), (0, 1), (511, 9), (1023, 10), (77, 17), (1, 1)];
    let mut w = BitBufWriter::new(Vec::new());
    for (v, width) in values.iter() {
        w.write(*v, *width);
    }
    w.flush();
    let bytes = w.into_inner();
    let mut r = BitBufReader::new(ByteSource::new(&bytes));
    for (v, width) in values.iter() {
        assert_eq!(r.read(*width), Ok(*v));
    }
}
