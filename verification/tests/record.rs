use sqlite_reader::cell::{
    Cell, CellPayload, IndexBTreeInteriorCell, IndexBTreeLeafCell, TableBTreeInteriorCell,
    TableBTreeLeafCell,
};
use sqlite_reader::common::BTreePageType;
use sqlite_reader::error::{Error, FormatError};
use sqlite_reader::reader::Reader;
use sqlite_reader::record::{decimal_text, decode_record, line_of, Record, RecordFormat};

fn unsupported<T>() -> Result<T, Error> {
    Err(Error::Format(FormatError::UnsupportedTypeTag))
}

fn underrun() -> Error {
    Error::Format(FormatError::BufferUnderrun)
}

fn value_of(format: RecordFormat, bytes: &[u8]) -> (Result<Record, Error>, usize) {
    let mut reader = Reader::new(bytes);
    let value = format.pop_value(&mut reader);
    (value, reader.offset())
}

#[test]
fn tags_of_fixed_kinds() {
    assert_eq!(RecordFormat::from(0), Ok(RecordFormat::Null));
    assert_eq!(RecordFormat::from(1), Ok(RecordFormat::TwoCompInt(1)));
    assert_eq!(RecordFormat::from(2), Ok(RecordFormat::TwoCompInt(2)));
    assert_eq!(RecordFormat::from(3), Ok(RecordFormat::TwoCompInt(3)));
    assert_eq!(RecordFormat::from(4), Ok(RecordFormat::TwoCompInt(4)));
    assert_eq!(RecordFormat::from(5), Ok(RecordFormat::TwoCompInt(6)));
    assert_eq!(RecordFormat::from(6), Ok(RecordFormat::TwoCompInt(8)));
    assert_eq!(RecordFormat::from(7), Ok(RecordFormat::Float64));
    assert_eq!(RecordFormat::from(8), Ok(RecordFormat::Zero));
    assert_eq!(RecordFormat::from(9), Ok(RecordFormat::One));
}

#[test]
fn reserved_tags_fail() {
    assert_eq!(RecordFormat::from(10), unsupported());
    assert_eq!(RecordFormat::from(11), unsupported());
    assert_eq!(RecordFormat::from(-1), unsupported());
    assert_eq!(RecordFormat::from(i64::MIN), unsupported());
}

#[test]
fn tags_of_blobs_and_texts() {
    assert_eq!(RecordFormat::from(12), Ok(RecordFormat::Blob(0)));
    assert_eq!(RecordFormat::from(13), Ok(RecordFormat::String(0)));
    assert_eq!(RecordFormat::from(14), Ok(RecordFormat::Blob(1)));
    assert_eq!(RecordFormat::from(15), Ok(RecordFormat::String(1)));
    assert_eq!(RecordFormat::from(212), Ok(RecordFormat::Blob(100)));
    assert_eq!(RecordFormat::from(213), Ok(RecordFormat::String(100)));
    assert_eq!(RecordFormat::from(i64::MAX), Ok(RecordFormat::String((i64::MAX as u64 - 13) / 2)));
    assert_eq!(RecordFormat::from(i64::MAX - 1), Ok(RecordFormat::Blob((i64::MAX as u64 - 13) / 2)));
}

#[test]
fn stored_lengths() {
    let lengths: [(i64, u64); 14] = [
        (0, 0),
        (1, 1),
        (2, 2),
        (3, 3),
        (4, 4),
        (5, 6),
        (6, 8),
        (7, 8),
        (8, 0),
        (9, 0),
        (12, 0),
        (13, 0),
        (20, 4),
        (21, 4),
    ];
    for (tag, len) in lengths {
        assert_eq!(RecordFormat::from(tag).unwrap().byte_len(), len, "tag {}", tag);
    }
}

#[test]
fn values_of_each_kind() {
    let bytes = [0xffu8, 0xfe, 0xfd, 0xfc, 0xfb, 0xfa, 0xf9, 0xf8, 0x01];
    assert_eq!(value_of(RecordFormat::Null, &bytes), (Ok(Record::Null), 0));
    assert_eq!(value_of(RecordFormat::Zero, &bytes), (Ok(Record::Zero), 0));
    assert_eq!(value_of(RecordFormat::One, &bytes), (Ok(Record::One), 0));
    assert_eq!(value_of(RecordFormat::TwoCompInt(1), &bytes), (Ok(Record::Integer(-1)), 1));
    assert_eq!(value_of(RecordFormat::TwoCompInt(2), &bytes), (Ok(Record::Integer(-2)), 2));
    assert_eq!(value_of(RecordFormat::TwoCompInt(3), &bytes), (Ok(Record::Integer(-259)), 3));
    assert_eq!(value_of(RecordFormat::TwoCompInt(4), &bytes), (Ok(Record::Integer(-66052)), 4));
    assert_eq!(
        value_of(RecordFormat::TwoCompInt(6), &bytes),
        (Ok(Record::Integer(-4328719366)), 6)
    );
    assert_eq!(
        value_of(RecordFormat::TwoCompInt(8), &bytes),
        (Ok(Record::Integer(-283686952306184)), 8)
    );
    assert_eq!(
        value_of(RecordFormat::Float64, &bytes),
        (Ok(Record::Float64(0xfffefdfcfbfaf9f8)), 8)
    );
    assert_eq!(value_of(RecordFormat::Blob(3), &bytes), (Ok(Record::Blob(vec![0xff, 0xfe, 0xfd])), 3));
    assert_eq!(value_of(RecordFormat::Blob(0), &bytes), (Ok(Record::Blob(vec![])), 0));
    assert_eq!(value_of(RecordFormat::String(4), b"fuji!"), (Ok(Record::Text("fuji".to_string())), 4));
    assert_eq!(
        value_of(RecordFormat::String(2), &[b'a', 0x80]),
        (Ok(Record::Text("a\u{fffd}".to_string())), 2)
    );
}

#[test]
fn float_bits_are_those_of_the_number() {
    let bytes = 1.5f64.to_be_bytes();
    match value_of(RecordFormat::Float64, &bytes).0 {
        Ok(Record::Float64(bits)) => assert_eq!(f64::from_bits(bits), 1.5),
        other => panic!("expected a float, got {:?}", other),
    }
}

#[test]
fn values_cut_short() {
    let bytes = [1u8, 2, 3];
    assert_eq!(value_of(RecordFormat::TwoCompInt(4), &bytes), (Err(underrun()), 0));
    assert_eq!(value_of(RecordFormat::Float64, &bytes), (Err(underrun()), 0));
    assert_eq!(value_of(RecordFormat::Blob(4), &bytes), (Err(underrun()), 0));
    assert_eq!(value_of(RecordFormat::String(u64::MAX), &bytes), (Err(underrun()), 0));
    assert_eq!(value_of(RecordFormat::TwoCompInt(9), &bytes), (unsupported(), 0));
}

#[test]
fn record_of_several_columns() {
    let payload = [5u8, 0, 1, 15, 9, 0x2a, b'x', 0xee];
    let row = decode_record(&payload, 4).unwrap();
    assert_eq!(
        row,
        vec![Record::Null, Record::Integer(42), Record::Text("x".to_string()), Record::One]
    );
    assert_eq!(decode_record(&payload, 0).unwrap(), vec![]);
    assert_eq!(decode_record(&payload, 2).unwrap(), vec![Record::Null, Record::Integer(15)]);
}

#[test]
fn record_that_cannot_be_decoded() {
    assert_eq!(decode_record(&[], 1).unwrap_err(), underrun());
    assert_eq!(decode_record(&[2], 1).unwrap_err(), underrun());
    assert_eq!(decode_record(&[2, 10], 1), unsupported());
    assert_eq!(decode_record(&[2, 11], 1), unsupported());
    assert_eq!(decode_record(&[2, 4, 0, 0], 1).unwrap_err(), underrun());
    assert_eq!(decode_record(&[3, 0x81], 1).unwrap_err(), underrun());
}

#[test]
fn unwrap_string_gives_the_text() {
    assert_eq!(Record::Text("abc".to_string()).unwrap_string(), "abc");
}

#[test]
fn table_leaf_cell() {
    let bytes = [3u8, 0x81, 0x00, 0xaa, 0xbb, 0xcc, 0xdd];
    let cell = TableBTreeLeafCell::from(&Reader::new(&bytes[..])).unwrap();
    assert_eq!(cell.payload_size, 3);
    assert_eq!(cell.rowid, 128);
    assert_eq!(cell.payload.as_bytes(), &[0xaa, 0xbb, 0xcc]);
    assert_eq!(TableBTreeLeafCell::from(&Reader::new(&bytes[..5])).unwrap_err(), underrun());
    assert_eq!(TableBTreeLeafCell::from(&Reader::new(&bytes[..2])).unwrap_err(), underrun());
    let negative = [0xffu8; 18];
    assert_eq!(
        TableBTreeLeafCell::from(&Reader::new(&negative[..])).unwrap_err(),
        Error::Format(FormatError::NegativeLength)
    );
}

#[test]
fn table_interior_cell() {
    let bytes = [0u8, 0, 1, 2, 0x7f];
    let cell = TableBTreeInteriorCell::from(&Reader::new(&bytes[..])).unwrap();
    assert_eq!(cell.left_child_pointer, 258);
    assert_eq!(cell.rowid, 127);
    assert_eq!(TableBTreeInteriorCell::from(&Reader::new(&bytes[..4])).unwrap_err(), underrun());
    assert_eq!(TableBTreeInteriorCell::from(&Reader::new(&bytes[..3])).unwrap_err(), underrun());
}

#[test]
fn index_cells() {
    let leaf = [2u8, 0x11, 0x22, 0x33];
    let cell = IndexBTreeLeafCell::from(&Reader::new(&leaf[..])).unwrap();
    assert_eq!(cell.payload_size, 2);
    assert_eq!(cell.payload.as_bytes(), &[0x11, 0x22]);
    let interior = [0u8, 0, 0, 9, 1, 0x44];
    let cell = IndexBTreeInteriorCell::from(&Reader::new(&interior[..])).unwrap();
    assert_eq!(cell.left_child_pointer, 9);
    assert_eq!(cell.payload_size, 1);
    assert_eq!(cell.payload.as_bytes(), &[0x44]);
    assert_eq!(IndexBTreeInteriorCell::from(&Reader::new(&interior[..5])).unwrap_err(), underrun());
    assert_eq!(IndexBTreeLeafCell::from(&Reader::new(&leaf[..2])).unwrap_err(), underrun());
}

#[test]
fn cell_of_each_page_kind() {
    let bytes = [0u8, 0, 0, 3, 0, 0x05];
    let reader = Reader::new(&bytes[..]);
    assert!(matches!(Cell::from(&reader, BTreePageType::LeafTable), Ok(Cell::TableLeaf(_))));
    assert!(matches!(Cell::from(&reader, BTreePageType::LeafIndex), Ok(Cell::IndexLeaf(_))));
    match Cell::from(&reader, BTreePageType::InteriorTable) {
        Ok(Cell::TableInterior(cell)) => assert_eq!((cell.left_child_pointer, cell.rowid), (3, 0)),
        other => panic!("expected an interior table cell, got {:?}", other),
    }
    match Cell::from(&reader, BTreePageType::InteriorIndex) {
        Ok(Cell::IndexInterior(cell)) => assert_eq!(cell.payload_size, 0),
        other => panic!("expected an interior index cell, got {:?}", other),
    }
}

#[test]
fn cells_are_read_at_the_cursor() {
    let bytes = [0xeeu8, 0xee, 1, 7, 0x99];
    let reader = Reader::new(&bytes[..]).at(2).unwrap();
    let cell = TableBTreeLeafCell::from(&reader).unwrap();
    assert_eq!(cell.rowid, 7);
    assert_eq!(cell.payload.as_bytes(), &[0x99]);
    assert_eq!(reader.offset(), 2);
}

#[test]
fn payload_keeps_its_bytes() {
    let payload = CellPayload::new(vec![1, 2, 3]);
    assert_eq!(payload.as_bytes(), &[1, 2, 3]);
}

#[test]
fn decimal_text_of_integers() {
    assert_eq!(decimal_text(0), "0");
    assert_eq!(decimal_text(7), "7");
    assert_eq!(decimal_text(10), "10");
    assert_eq!(decimal_text(1234567890), "1234567890");
    assert_eq!(decimal_text(-1), "-1");
    assert_eq!(decimal_text(-120), "-120");
    assert_eq!(decimal_text(i64::MAX), "9223372036854775807");
    assert_eq!(decimal_text(i64::MIN), "-9223372036854775808");
}

#[test]
fn text_of_each_kind_of_value() {
    assert_eq!(Record::Null.to_text(), Some(String::new()));
    assert_eq!(Record::Integer(-42).to_text(), Some("-42".to_string()));
    assert_eq!(Record::Zero.to_text(), Some("0".to_string()));
    assert_eq!(Record::One.to_text(), Some("1".to_string()));
    assert_eq!(Record::Text("gala".to_string()).to_text(), Some("gala".to_string()));
    assert_eq!(Record::Blob(vec![b'h', b'i', 0xff]).to_text(), Some("hi\u{fffd}".to_string()));
    assert_eq!(Record::Float64(0).to_text(), None);
}

#[test]
fn lines_join_the_values_with_bars() {
    assert_eq!(line_of(&vec![]), Some(String::new()));
    assert_eq!(line_of(&vec![Record::Text("gala".to_string())]), Some("gala".to_string()));
    assert_eq!(
        line_of(&vec![Record::Integer(2), Record::Text("gala".to_string()), Record::Null, Record::One]),
        Some("2|gala||1".to_string())
    );
    assert_eq!(line_of(&vec![Record::Null, Record::Null]), Some("|".to_string()));
    assert_eq!(line_of(&vec![Record::Integer(2), Record::Float64(1)]), None);
    assert_eq!(line_of(&vec![Record::Float64(1), Record::Integer(2)]), None);
}
