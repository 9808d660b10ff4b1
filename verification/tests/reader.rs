use sqlite_reader::error::{Error, FormatError};
use sqlite_reader::reader::Reader;
use sqlite_reader::varint::encode_varint;

fn underrun<T>() -> Result<T, Error> {
    Err(Error::Format(FormatError::BufferUnderrun))
}

#[test]
fn peek_does_not_move_and_pop_does() {
    let bytes = [1u8, 2, 3, 4, 5];
    let mut reader = Reader::new(&bytes[..]);
    assert_eq!(reader.peek(2).unwrap(), &[1, 2]);
    assert_eq!(reader.len(), 5);
    assert_eq!(reader.pop(2).unwrap(), &[1, 2]);
    assert_eq!(reader.len(), 3);
    assert_eq!(reader.offset(), 2);
    assert_eq!(reader.pop(3).unwrap(), &[3, 4, 5]);
    assert_eq!(reader.len(), 0);
    assert_eq!(reader.pop(0).unwrap(), &[] as &[u8]);
}

#[test]
fn reads_fail_when_too_few_bytes_remain() {
    let bytes = [1u8, 2, 3];
    let mut reader = Reader::new(&bytes[..]);
    assert_eq!(reader.peek(4), underrun());
    assert_eq!(reader.pop(4), underrun());
    assert_eq!(reader.len(), 3);
    assert_eq!(reader.pop_fixed(4), underrun());
    assert_eq!(reader.pop_i32(), underrun());
    assert_eq!(reader.pop_bytes(4), underrun());
    assert_eq!(reader.pop_str(4), underrun());
    assert_eq!(reader.len(), 3);
    assert!(reader.at(4).is_err());
    assert_eq!(reader.at(3).unwrap().len(), 0);
    assert_eq!(reader.at(3).unwrap().peek_i8(), underrun());
}

#[test]
fn at_is_absolute() {
    let bytes = [10u8, 20, 30, 40];
    let mut reader = Reader::new(&bytes[..]);
    reader.pop(3).unwrap();
    let again = reader.at(1).unwrap();
    assert_eq!(again.peek(1).unwrap(), &[20]);
    assert_eq!(again.size(), 4);
    assert_eq!(again.len(), 3);
}

#[test]
fn fixed_width_reads_are_big_endian() {
    let bytes = [0x12u8, 0x34, 0x56, 0x78, 0x9a, 0xbc, 0xde, 0xf0];
    let mut reader = Reader::new(&bytes[..]);
    assert_eq!(reader.peek_u16(), Ok(0x1234));
    assert_eq!(reader.peek_i16(), Ok(0x1234));
    assert_eq!(reader.peek_i32(), Ok(0x12345678));
    assert_eq!(reader.peek_i8(), Ok(0x12));
    assert_eq!(reader.peek_fixed(3), Ok(0x123456));
    assert_eq!(reader.peek_fixed(8), Ok(0x123456789abcdef0));
    assert_eq!(reader.peek_fixed(0), Ok(0));
    assert_eq!(reader.pop_i16(), Ok(0x1234));
    assert_eq!(reader.pop_i32(), Ok(0x56789abc));
    assert_eq!(reader.len(), 2);
}

#[test]
fn signed_reads_extend_the_sign() {
    let bytes = [0xffu8, 0xfe, 0x80, 0x00, 0x00, 0x00, 0x00, 0x00];
    let reader = Reader::new(&bytes[..]);
    assert_eq!(reader.peek_i8(), Ok(-1));
    assert_eq!(reader.peek_i16(), Ok(-2));
    assert_eq!(reader.peek_u16(), Ok(0xfffe));
    assert_eq!(reader.peek_signed(3), Ok(-384));
    assert_eq!(reader.peek_i32(), Ok(-98304));
    assert_eq!(reader.peek_signed(8), Ok(-422212465065984));
    let low = [0x80u8, 0, 0, 0, 0, 0, 0, 0];
    assert_eq!(Reader::new(&low[..]).peek_signed(8), Ok(i64::MIN));
    assert_eq!(Reader::new(&low[..]).peek_signed(6), Ok(-(1i64 << 47)));
    let high = [0x7fu8, 0xff, 0xff, 0xff, 0xff, 0xff, 0xff, 0xff];
    assert_eq!(Reader::new(&high[..]).pop_signed(8), Ok(i64::MAX));
    assert_eq!(Reader::new(&high[..]).pop_signed(0), Ok(0));
}

#[test]
fn varint_of_one_byte() {
    let bytes = [0x7fu8, 0x01];
    let mut reader = Reader::new(&bytes[..]);
    assert_eq!(reader.pop_varint(), Ok(127));
    assert_eq!(reader.len(), 1);
    assert_eq!(reader.pop_varint(), Ok(1));
    assert_eq!(reader.pop_varint(), underrun());
}

#[test]
fn varint_of_two_bytes() {
    let bytes = [0x81u8, 0x00, 0x82, 0x2c];
    let mut reader = Reader::new(&bytes[..]);
    assert_eq!(reader.pop_varint(), Ok(128));
    assert_eq!(reader.pop_varint(), Ok(300));
    assert_eq!(reader.len(), 0);
}

#[test]
fn varint_ninth_byte_gives_eight_bits() {
    let ones = [0xffu8; 9];
    let mut reader = Reader::new(&ones[..]);
    assert_eq!(reader.pop_varint(), Ok(-1));
    assert_eq!(reader.len(), 0);
    let bytes = [0x80u8, 0x80, 0x80, 0x80, 0x80, 0x80, 0x80, 0x80, 0xff, 0x07];
    let mut reader = Reader::new(&bytes[..]);
    assert_eq!(reader.pop_varint(), Ok(255));
    assert_eq!(reader.len(), 1);
    let bytes = [0x81u8, 0x80, 0x80, 0x80, 0x80, 0x80, 0x80, 0x80, 0x00];
    assert_eq!(Reader::new(&bytes[..]).pop_varint(), Ok(1i64 << 57));
}

#[test]
fn varint_cut_short_fails_and_leaves_the_cursor() {
    let bytes = [0x81u8, 0x80, 0x80];
    let mut reader = Reader::new(&bytes[..]);
    assert_eq!(reader.pop_varint(), underrun());
    assert_eq!(reader.len(), 3);
    let empty: [u8; 0] = [];
    assert_eq!(Reader::new(&empty[..]).pop_varint(), underrun());
}

#[test]
fn varint_round_trip() {
    let values = [
        0i64,
        1,
        127,
        128,
        300,
        16383,
        16384,
        (1 << 21) - 1,
        1 << 21,
        (1 << 56) - 1,
        1 << 56,
        (1 << 62) + 12345,
        i64::MAX,
        -1,
        i64::MIN,
    ];
    for value in values {
        let mut bytes = encode_varint(value);
        let len = bytes.len();
        bytes.push(0x55);
        let mut reader = Reader::new(&bytes[..]);
        assert_eq!(reader.pop_varint(), Ok(value));
        assert_eq!(reader.offset(), len);
    }
}

#[test]
fn varint_encoding_takes_one_byte_for_each_group_of_seven_bits() {
    assert_eq!(encode_varint(0), vec![0x00]);
    assert_eq!(encode_varint(127), vec![0x7f]);
    assert_eq!(encode_varint(128), vec![0x81, 0x00]);
    assert_eq!(encode_varint(300), vec![0x82, 0x2c]);
    assert_eq!(encode_varint(16384), vec![0x81, 0x80, 0x00]);
    for groups in 1..=8usize {
        let value = (1i64 << (7 * groups - 1)) | 1;
        let bytes = encode_varint(value);
        assert_eq!(bytes.len(), groups);
        for (i, byte) in bytes.iter().enumerate() {
            assert_eq!(*byte >= 0x80, i + 1 < groups);
        }
    }
    for value in [1i64 << 56, (1 << 62) | 1, i64::MAX] {
        let bytes = encode_varint(value);
        assert_eq!(bytes.len(), 9);
        assert!(bytes[..8].iter().all(|byte| *byte >= 0x80));
    }
    assert_eq!(encode_varint(1 << 56), vec![0x80, 0xc0, 0x80, 0x80, 0x80, 0x80, 0x80, 0x80, 0x00]);
    assert_eq!(encode_varint(-1), vec![0xff; 9]);
}

#[test]
fn text_is_decoded_permissively() {
    let bytes = [b'o', b'k', 0xff, b'!', 0xc3, 0xa9];
    let mut reader = Reader::new(&bytes[..]);
    assert_eq!(reader.pop_str(4), Ok("ok\u{fffd}!".to_string()));
    assert_eq!(reader.pop_str(2), Ok("\u{e9}".to_string()));
    assert_eq!(reader.pop_str(0), Ok(String::new()));
}

#[test]
fn bytes_are_copied_out() {
    let bytes = [1u8, 2, 3];
    let mut reader = Reader::new(&bytes[..]);
    assert_eq!(reader.pop_bytes(2), Ok(vec![1, 2]));
    assert_eq!(reader.clone().len(), 1);
}
