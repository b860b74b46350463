use huffman::bits::BitWriter;

#[test]
fn bits_bit_writer_test() {
    let mut writer = BitWriter::new();

    // Write some values using varying bit lengths
    writer.write_bits(0b101, 3);
    writer.write_bits(0b11111111, 8);
    writer.write_bits(0b1, 1);
    writer.write_bits(0b10, 2);
    writer.flush();

    let written_data = writer.into_bytes();
    assert_eq!(written_data, vec![0b10111111, 0b11111000]);
}

#[test]
fn huffman_bit_writer_test() {
    let mut writer = BitWriter::new();

    writer.write_bits(0b101, 3);
    writer.write_bits(0b11111111, 8);
    writer.write_bits(0b1, 1);
    writer.write_bits(0b10, 2);
    writer.flush();

    let written_data = writer.into_bytes();
    assert_eq!(written_data, vec![0b10111111, 0b11111000]);
}

#[test]
fn bit_write_long_test() {
    let mut writer = BitWriter::new();

    // Write ONE long 32 bit seq.
    writer.write_bits(0b10100010101001001110001010101000, 32);
    writer.flush();

    let written_data = writer.into_bytes();
    assert_eq!(
        written_data,
        vec![0b10100010, 0b10100100, 0b11100010, 0b10101000]
    );
}

#[test]
fn bit_write_multi_buffer_test() {
    let mut writer = BitWriter::new();

    writer.write_bits(0b10100010101001001110001010101000, 32);
    writer.write_bits(0b10100010101001001110001010101001, 32);
    writer.write_bits(0b00000111, 3);
    writer.write_bits(0b00000101, 3);
    writer.write_bits(0b00000010, 2);
    writer.flush();

    let written_data = writer.into_bytes();
    assert_eq!(
        written_data[0..4],
        vec![0b10100010, 0b10100100, 0b11100010, 0b10101000]
    );
    assert_eq!(
        written_data[4..8],
        vec![0b10100010, 0b10100100, 0b11100010, 0b10101001]
    );
    assert_eq!(written_data[8], 0b11110110);
}

#[test]
fn upper_bits_are_ignored() {
    let mut writer = BitWriter::new();
    // Only the low 3 bits of the value may reach the stream.
    writer.write_bits(0xFFFF_FFFF_FFFF_F101, 3);
    writer.flush();
    assert_eq!(writer.into_bytes(), vec![0b00100000]);
}

#[test]
fn flush_on_empty_writer_emits_nothing() {
    let mut writer = BitWriter::new();
    writer.flush();
    assert_eq!(writer.into_bytes(), Vec::<u8>::new());
}
