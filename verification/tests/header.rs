use sqlite_reader::btree_page_header::BTreePageHeader;
use sqlite_reader::common::{BTreePageType, Incrementer};
use sqlite_reader::database_header::DatabaseHeader;
use sqlite_reader::error::{Error, FormatError};
use sqlite_reader::reader::Reader;

fn file_with_page_size(stored: u16) -> Vec<u8> {
    let mut file = vec![0u8; 100];
    file[..16].copy_from_slice(b"SQLite format 3\0");
    file[16..18].copy_from_slice(&stored.to_be_bytes());
    file[44..48].copy_from_slice(&4i32.to_be_bytes());
    file
}

fn page_size_of(stored: u16) -> Result<usize, Error> {
    let file = file_with_page_size(stored);
    DatabaseHeader::from(&Reader::new(&file[..])).map(|header| header.page_size)
}

#[test]
fn page_size_one_stands_for_65536() {
    assert_eq!(page_size_of(1), Ok(65536));
}

#[test]
fn page_sizes_in_range_are_kept() {
    assert_eq!(page_size_of(512), Ok(512));
    assert_eq!(page_size_of(1024), Ok(1024));
    assert_eq!(page_size_of(4096), Ok(4096));
    assert_eq!(page_size_of(32768), Ok(32768));
    assert_eq!(page_size_of(600), Ok(600));
}

#[test]
fn other_page_sizes_are_rejected() {
    for stored in [0u16, 2, 511, 32769, 65535] {
        assert_eq!(page_size_of(stored), Err(Error::Format(FormatError::InvalidPageSize)));
    }
}

#[test]
fn header_records_the_schema_format() {
    let file = file_with_page_size(4096);
    let header = DatabaseHeader::from(&Reader::new(&file[..])).unwrap();
    assert_eq!(header, DatabaseHeader { page_size: 4096, schema_format: 4 });
}

#[test]
fn header_needs_a_hundred_bytes() {
    let file = file_with_page_size(4096);
    assert_eq!(
        DatabaseHeader::from(&Reader::new(&file[..99])),
        Err(Error::Format(FormatError::BufferUnderrun))
    );
}

#[test]
fn header_is_read_wherever_the_cursor_is() {
    let file = file_with_page_size(1);
    let mut reader = Reader::new(&file[..]);
    reader.pop(60).unwrap();
    assert_eq!(DatabaseHeader::from(&reader).unwrap().page_size, 65536);
}

#[test]
fn leaf_page_header() {
    let page = [13u8, 0, 0, 0, 2, 0x0f, 0xf0, 0, 0x0f, 0xf8, 0x0f, 0xf0];
    let header = BTreePageHeader::from(&Reader::new(&page[..])).unwrap();
    assert_eq!(header.kind, BTreePageType::LeafTable);
    assert_eq!(header.cell_count, 2);
    assert_eq!(header.cell_start_offset, 0x0ff0);
    assert_eq!(header.rightmost_pointer, None);
    assert_eq!(header.cell_offsets, vec![0x0ff8, 0x0ff0]);
    assert_eq!(header.byte_len(), 8);
    assert!(!header.kind.is_interior());
}

#[test]
fn interior_page_header() {
    let page = [5u8, 0, 0, 0, 1, 0, 0, 0, 0, 0, 0, 7, 0x01, 0x00];
    let header = BTreePageHeader::from(&Reader::new(&page[..])).unwrap();
    assert_eq!(header.kind, BTreePageType::InteriorTable);
    assert_eq!(header.cell_count, 1);
    assert_eq!(header.cell_start_offset, 65536);
    assert_eq!(header.rightmost_pointer, Some(7));
    assert_eq!(header.cell_offsets, vec![0x0100]);
    assert_eq!(header.byte_len(), 12);
    assert!(header.kind.is_interior());
}

#[test]
fn index_page_kinds() {
    let leaf = [10u8, 0, 0, 0, 0, 0, 0, 0];
    assert_eq!(BTreePageHeader::from(&Reader::new(&leaf[..])).unwrap().kind, BTreePageType::LeafIndex);
    let interior = [2u8, 0, 0, 0, 0, 0, 0, 0, 0xff, 0xff, 0xff, 0xff];
    let header = BTreePageHeader::from(&Reader::new(&interior[..])).unwrap();
    assert_eq!(header.kind, BTreePageType::InteriorIndex);
    assert_eq!(header.rightmost_pointer, Some(u32::MAX));
}

#[test]
fn unknown_page_kind_is_rejected() {
    for tag in [0u8, 1, 3, 12, 14, 0x53, 0xff] {
        let page = [tag, 0, 0, 0, 0, 0, 0, 0, 0, 0, 0, 0];
        assert_eq!(
            BTreePageHeader::from(&Reader::new(&page[..])).unwrap_err(),
            Error::Format(FormatError::UnexpectedPageKind)
        );
    }
}

#[test]
fn page_header_cut_short() {
    let empty: [u8; 0] = [];
    let underrun = Error::Format(FormatError::BufferUnderrun);
    assert_eq!(BTreePageHeader::from(&Reader::new(&empty[..])).unwrap_err(), underrun);
    let leaf = [13u8, 0, 0, 0, 1, 0, 0, 0, 0];
    assert_eq!(BTreePageHeader::from(&Reader::new(&leaf[..7])).unwrap_err(), underrun);
    assert_eq!(BTreePageHeader::from(&Reader::new(&leaf[..])).unwrap_err(), underrun);
    let interior = [5u8, 0, 0, 0, 0, 0, 0, 0, 0, 0, 0];
    assert_eq!(BTreePageHeader::from(&Reader::new(&interior[..])).unwrap_err(), underrun);
}

#[test]
fn page_header_is_read_at_the_cursor() {
    let bytes = [0xaau8, 0xbb, 13, 0, 0, 0, 1, 0, 0, 0, 0, 9];
    let reader = Reader::new(&bytes[..]).at(2).unwrap();
    let header = BTreePageHeader::from(&reader).unwrap();
    assert_eq!(header.cell_offsets, vec![9]);
}

#[test]
fn incrementer_counts_up() {
    let mut counter = Incrementer::new(1);
    assert_eq!(counter.next_value(), 1);
    assert_eq!(counter.next_value(), 2);
    assert_eq!(counter.next_value(), 3);
    let mut other = Incrementer::new(40);
    assert_eq!(other.next_value(), 40);
}
