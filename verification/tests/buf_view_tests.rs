use state_tree::buf_view::BufView;

#[test]
fn wrap_makes_whole_buffer_readable() {
    let buf = [0u8, 1, 2, 3, 4, 5, 6];
    let view = BufView::wrap(&buf);
    assert_eq!(view.reader_index(), 0);
    assert_eq!(view.writer_index(), 7);
    assert_eq!(view.remaining(), 7);
    assert_eq!(view.capacity(), 7);
}

#[test]
fn wrap_with_reads_from_reader_index() {
    let buf = [0u8, 1, 2, 3, 4, 5, 6];
    let mut view = BufView::wrap_with(&buf, 1, 5);
    assert_eq!(view.read_u32(), 0x01020304);
}

#[test]
fn cursor_arithmetic_after_each_width() {
    let buf = [0u8; 40];
    let mut view = BufView::wrap_with(&buf, 3, 38);
    assert_eq!(view.remaining(), 35);
    view.read_u8();
    assert_eq!((view.reader_index(), view.remaining()), (4, 34));
    view.read_u16();
    assert_eq!((view.reader_index(), view.remaining()), (6, 32));
    view.read_u32_le();
    assert_eq!((view.reader_index(), view.remaining()), (10, 28));
    view.read_i64();
    assert_eq!((view.reader_index(), view.remaining()), (18, 20));
    view.read_u128_le();
    assert_eq!((view.reader_index(), view.remaining()), (34, 4));
    assert_eq!(view.writer_index(), 38);
    assert_eq!(view.capacity(), 40);
}

#[test]
fn read_u32_big_and_little_endian() {
    let buf = [0x01u8, 0x02, 0x03, 0x04];
    let mut be = BufView::wrap(&buf);
    assert_eq!(be.read_u32(), 0x01020304);
    let mut le = BufView::wrap(&buf);
    assert_eq!(le.read_u32_le(), 0x04030201);
}

#[test]
fn read_bytes_truncates_to_remaining() {
    let buf = [7u8, 8, 9];
    let mut view = BufView::wrap(&buf);
    let mut dest = [0xffu8; 10];
    let n = view.read_bytes(&mut dest);
    assert_eq!(n, 3);
    assert_eq!(view.remaining(), 0);
    assert_eq!(dest, [7, 8, 9, 0xff, 0xff, 0xff, 0xff, 0xff, 0xff, 0xff]);
}

#[test]
fn read_bytes_fills_a_short_destination() {
    let buf = [1u8, 2, 3, 4, 5];
    let mut view = BufView::wrap_with(&buf, 1, 5);
    let mut dest = [0u8; 2];
    assert_eq!(view.read_bytes(&mut dest), 2);
    assert_eq!(dest, [2, 3]);
    assert_eq!(view.reader_index(), 3);
    assert_eq!(view.remaining(), 2);
}

#[test]
fn read_bytes_stops_at_writer_index() {
    let buf = [1u8, 2, 3, 4, 5];
    let mut view = BufView::wrap_with(&buf, 0, 2);
    let mut dest = [0u8; 4];
    assert_eq!(view.read_bytes(&mut dest), 2);
    assert_eq!(dest, [1, 2, 0, 0]);
}

#[test]
fn read_unsigned_widths() {
    let buf: Vec<u8> = (1u8..=16).collect();
    assert_eq!(BufView::wrap(&buf).read_u8(), 0x01);
    assert_eq!(BufView::wrap(&buf).read_u16(), 0x0102);
    assert_eq!(BufView::wrap(&buf).read_u16_le(), 0x0201);
    assert_eq!(BufView::wrap(&buf).read_u64(), 0x0102030405060708);
    assert_eq!(BufView::wrap(&buf).read_u64_le(), 0x0807060504030201);
    assert_eq!(BufView::wrap(&buf).read_u128(), 0x0102030405060708090a0b0c0d0e0f10);
    assert_eq!(BufView::wrap(&buf).read_u128_le(), 0x100f0e0d0c0b0a090807060504030201);
}

#[test]
fn read_signed_widths() {
    let buf = [0xffu8, 0xfe, 0x00, 0x01, 0x80, 0, 0, 0, 0, 0, 0, 0, 0, 0, 0, 0x7f];
    assert_eq!(BufView::wrap(&buf).read_i8(), -1);
    assert_eq!(BufView::wrap(&buf).read_i16(), -2);
    assert_eq!(BufView::wrap(&buf).read_i16_le(), -257);
    assert_eq!(BufView::wrap(&buf).read_i32(), i32::from_be_bytes([0xff, 0xfe, 0x00, 0x01]));
    assert_eq!(BufView::wrap(&buf).read_i32_le(), 0x0100feff);
    assert_eq!(
        BufView::wrap(&buf).read_i64(),
        i64::from_be_bytes([0xff, 0xfe, 0x00, 0x01, 0x80, 0, 0, 0])
    );
    assert_eq!(
        BufView::wrap(&buf).read_i64_le(),
        i64::from_le_bytes([0xff, 0xfe, 0x00, 0x01, 0x80, 0, 0, 0])
    );
    assert_eq!(BufView::wrap(&buf).read_i128(), i128::from_be_bytes(buf));
    assert_eq!(BufView::wrap(&buf).read_i128_le(), i128::from_le_bytes(buf));
}

#[test]
fn read_signed_extremes() {
    assert_eq!(BufView::wrap(&[0x80]).read_i8(), i8::MIN);
    assert_eq!(BufView::wrap(&[0x7f]).read_i8(), i8::MAX);
    assert_eq!(BufView::wrap(&[0x80, 0]).read_i16(), i16::MIN);
    assert_eq!(BufView::wrap(&[0xff, 0x7f]).read_i16_le(), i16::MAX);
    assert_eq!(BufView::wrap(&[0x80, 0, 0, 0]).read_i32(), i32::MIN);
    assert_eq!(BufView::wrap(&[0xff; 8]).read_i64(), -1);
    let mut min = [0u8; 16];
    min[15] = 0x80;
    assert_eq!(BufView::wrap(&min).read_i128_le(), i128::MIN);
    assert_eq!(BufView::wrap(&[0xff; 16]).read_u128(), u128::MAX);
}

#[test]
fn get_reads_at_an_offset_and_keeps_the_cursors() {
    let buf: Vec<u8> = (0u8..32).collect();
    let mut view = BufView::wrap_with(&buf, 2, 9);
    assert_eq!(view.get_u8(5), 5);
    assert_eq!(view.get_i8(5), 5);
    assert_eq!(view.get_u16(1), 0x0102);
    assert_eq!(view.get_u16_le(1), 0x0201);
    assert_eq!(view.get_i16(1), 0x0102);
    assert_eq!(view.get_i16_le(1), 0x0201);
    assert_eq!(view.get_u32(4), 0x04050607);
    assert_eq!(view.get_u32_le(4), 0x07060504);
    assert_eq!(view.get_i32(4), 0x04050607);
    assert_eq!(view.get_i32_le(4), 0x07060504);
    assert_eq!(view.get_u64(8), 0x08090a0b0c0d0e0f);
    assert_eq!(view.get_u64_le(8), 0x0f0e0d0c0b0a0908);
    assert_eq!(view.get_i64(8), 0x08090a0b0c0d0e0f);
    assert_eq!(view.get_i64_le(8), 0x0f0e0d0c0b0a0908);
    assert_eq!(view.get_u128(16), 0x101112131415161718191a1b1c1d1e1f);
    assert_eq!(view.get_u128_le(16), 0x1f1e1d1c1b1a19181716151413121110);
    assert_eq!(view.get_i128(16), 0x101112131415161718191a1b1c1d1e1f);
    assert_eq!(view.get_i128_le(16), 0x1f1e1d1c1b1a19181716151413121110);
    assert_eq!(view.reader_index(), 2);
    assert_eq!(view.writer_index(), 9);
}

#[test]
fn get_signed_negative() {
    let buf = [0xffu8, 0xff, 0xff, 0xfe];
    let mut view = BufView::wrap(&buf);
    assert_eq!(view.get_i8(3), -2);
    assert_eq!(view.get_i16(2), -2);
    assert_eq!(view.get_i16_le(2), -257);
    assert_eq!(view.get_i32(0), -2);
}

#[test]
fn get_bytes_truncates_to_capacity() {
    let buf = [1u8, 2, 3, 4, 5];
    let mut view = BufView::wrap_with(&buf, 0, 2);
    let mut dest = [0u8; 4];
    assert_eq!(view.get_bytes(3, &mut dest), 2);
    assert_eq!(dest, [4, 5, 0, 0]);
    let mut all = [0u8; 3];
    assert_eq!(view.get_bytes(1, &mut all), 3);
    assert_eq!(all, [2, 3, 4]);
    let mut none = [9u8; 2];
    assert_eq!(view.get_bytes(5, &mut none), 0);
    assert_eq!(none, [9, 9]);
    assert_eq!(view.reader_index(), 0);
}

#[test]
fn setters_move_the_cursors() {
    let buf = [1u8, 2, 3, 4, 5, 6];
    let mut view = BufView::wrap(&buf);
    view.set_reader_index(2);
    assert_eq!(view.reader_index(), 2);
    assert_eq!(view.remaining(), 4);
    view.set_writer_index(5);
    assert_eq!(view.writer_index(), 5);
    assert_eq!(view.remaining(), 3);
    assert_eq!(view.as_slice(), &[3, 4, 5]);
    view.set_index(1, 3);
    assert_eq!(view.as_slice(), &[2, 3]);
    assert_eq!(view.as_raw_slice(), &buf);
    view.clear();
    assert_eq!((view.reader_index(), view.writer_index(), view.remaining()), (0, 0, 0));
    assert_eq!(view.capacity(), 6);
    assert_eq!(view.as_raw_slice(), &buf);
}
