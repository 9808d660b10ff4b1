//! The four shapes of cell that B-tree pages hold.

use vstd::prelude::*;
use crate::common::{BTreePageType, CatalogEntry, Schema, entry_of};
use crate::error::{Error, FormatError, refines, underrun};
use crate::reader::{Reader, be_uint, lemma_radix_values};
use crate::record::{Record, decode_record, read_record, values_of};
use crate::schema::{IndexSchema, TableSchema};
use crate::varint::{as_signed64, varint};

verus! {

/// The bytes of a record, copied out of the page that holds the cell.
#[derive(Debug)]
pub struct CellPayload {
    bytes: Vec<u8>,
}

impl View for CellPayload {
    type V = Seq<u8>;

    closed spec fn view(&self) -> Seq<u8> {
        self.bytes@
    }
}

impl CellPayload {
    /// A payload of the given bytes.
    pub fn new(bytes: Vec<u8>) -> (r: Self)
        ensures
            r@ == bytes@,
    {
        Self { bytes }
    }

    /// The bytes of the payload.
    pub fn as_bytes(&self) -> (bytes: &[u8])
        ensures
            bytes@ == self@,
    {
        self.bytes.as_slice()
    }

    /// Decodes the payload as a row of the schema table: the kind of the entry, its name,
    /// the name of its table, the number of its root page, and its definition text.
    pub fn read_as_schema_definition(&self) -> (r: Result<Schema, Error>)
        ensures
            refines(r, schema_entry(self@)),
    {
        let values = decode_record(self.bytes.as_slice(), 5)?;
        Schema::from_row(&values)
    }

    /// Decodes the payload as a row of the table of the given definition: one value for
    /// each of the table's columns.
    pub fn read_as_table_row(&self, schema: &TableSchema) -> (r: Result<Vec<Record>, Error>)
        ensures
            match read_record(self@, schema@.fields.len()) {
                Ok(values) => r is Ok && values_of(r->Ok_0@) == values && r->Ok_0@.len()
                    == schema@.fields.len(),
                Err(e) => r == Err::<Vec<Record>, Error>(e),
            },
    {
        decode_record(self.bytes.as_slice(), schema.fields().len())
    }

    /// Decodes the payload as an entry of the given index: one value for each column of
    /// the index, and the row id of the row that the entry stands for.
    pub fn read_as_leaf_index_row(&self, index_schema: &IndexSchema) -> (r: Result<
        Vec<Record>,
        Error,
    >)
        requires
            index_schema.fields@.len() < usize::MAX,
        ensures
            match read_record(self@, index_schema@.fields.len() + 1) {
                Ok(values) => r is Ok && values_of(r->Ok_0@) == values,
                Err(e) => r == Err::<Vec<Record>, Error>(e),
            },
    {
        decode_record(self.bytes.as_slice(), index_schema.fields.len() + 1)
    }
}

/// The catalog entry that a payload of a cell of the schema table stands for.
pub open spec fn schema_entry(payload: Seq<u8>) -> Result<CatalogEntry, Error> {
    match read_record(payload, 5) {
        Err(e) => Err(e),
        Ok(row) => entry_of(row),
    }
}

/// A payload at the start of `s`: a variable-length integer that gives its length, and
/// then so many bytes. The result is the payload and the number of bytes that the length
/// and the payload take together.
pub open spec fn sized_payload(s: Seq<u8>) -> Result<(Seq<u8>, nat), Error> {
    match varint(s) {
        None => Err(underrun()),
        Some((size, n)) => if as_signed64(size) < 0 {
            Err(Error::Format(FormatError::NegativeLength))
        } else if s.len() - n < size {
            Err(underrun())
        } else {
            Ok((s.subrange(n as int, (n + size) as int), n + size))
        },
    }
}

/// A cell of a leaf page of a table, as a mathematical object.
pub struct TableLeaf {
    pub rowid: int,
    pub payload: Seq<u8>,
}

/// A cell of an interior page of a table, as a mathematical object.
pub struct TableInterior {
    pub left_child_pointer: nat,
    pub rowid: int,
}

/// A cell of a leaf page of an index, as a mathematical object.
pub struct IndexLeaf {
    pub payload: Seq<u8>,
}

/// A cell of an interior page of an index, as a mathematical object.
pub struct IndexInterior {
    pub left_child_pointer: nat,
    pub payload: Seq<u8>,
}

/// The cell of a table leaf that starts with the bytes `s`: the length of the payload,
/// the row id, and the payload.
pub open spec fn table_leaf_cell(s: Seq<u8>) -> Result<TableLeaf, Error> {
    match varint(s) {
        None => Err(underrun()),
        Some((size, n)) => if as_signed64(size) < 0 {
            Err(Error::Format(FormatError::NegativeLength))
        } else {
            match varint(s.skip(n as int)) {
                None => Err(underrun()),
                Some((rowid, m)) => if s.len() - n - m < size {
                    Err(underrun())
                } else {
                    Ok(
                        TableLeaf {
                            rowid: as_signed64(rowid),
                            payload: s.subrange((n + m) as int, (n + m + size) as int),
                        },
                    )
                },
            }
        },
    }
}

/// The cell of a table interior page that starts with the bytes `s`: the number of the
/// left child page in four bytes, and the row id that bounds the keys of that child.
pub open spec fn table_interior_cell(s: Seq<u8>) -> Result<TableInterior, Error> {
    if s.len() < 4 {
        Err(underrun())
    } else {
        match varint(s.skip(4)) {
            None => Err(underrun()),
            Some((rowid, _)) => Ok(
                TableInterior {
                    left_child_pointer: be_uint(s.take(4)),
                    rowid: as_signed64(rowid),
                },
            ),
        }
    }
}

/// The cell of an index leaf that starts with the bytes `s`: a payload with its length.
pub open spec fn index_leaf_cell(s: Seq<u8>) -> Result<IndexLeaf, Error> {
    match sized_payload(s) {
        Err(e) => Err(e),
        Ok((payload, _)) => Ok(IndexLeaf { payload }),
    }
}

/// The cell of an index interior page that starts with the bytes `s`: the number of the
/// left child page in four bytes, and a payload with its length.
pub open spec fn index_interior_cell(s: Seq<u8>) -> Result<IndexInterior, Error> {
    if s.len() < 4 {
        Err(underrun())
    } else {
        match sized_payload(s.skip(4)) {
            Err(e) => Err(e),
            Ok((payload, _)) => Ok(IndexInterior { left_child_pointer: be_uint(s.take(4)), payload }),
        }
    }
}

/// Reads a payload with its length at the cursor; the cursor moves past it.
fn pop_sized_payload(reader: &mut Reader<'_, u8>) -> (r: Result<Vec<u8>, Error>)
    ensures
        match sized_payload(old(reader).remaining()) {
            Ok((payload, n)) => r is Ok && r->Ok_0@ == payload && final(reader).advanced_from(
                old(reader),
                n,
            ),
            Err(e) => r == Err::<Vec<u8>, Error>(e),
        },
        final(reader).buffer() == old(reader).buffer(),
{
    let ghost s = reader.remaining();
    let size = reader.pop_varint()?;
    if size < 0 {
        return Err(Error::Format(FormatError::NegativeLength));
    }
    let avail = reader.len();
    if size as u64 > avail as u64 {
        return Err(Error::Format(FormatError::BufferUnderrun));
    }
    let ghost n = varint(s)->Some_0.1;
    assert(reader.remaining() =~= s.skip(n as int));
    let bytes = reader.pop_bytes(size as usize)?;
    assert(bytes@ =~= s.subrange(n as int, n + size));
    Ok(bytes)
}

/// A cell of a leaf page of a table: a row id and the record of the row.
#[derive(Debug)]
pub struct TableBTreeLeafCell {
    pub payload_size: usize,
    pub rowid: i64,
    pub payload: CellPayload,
}

impl View for TableBTreeLeafCell {
    type V = TableLeaf;

    open spec fn view(&self) -> TableLeaf {
        TableLeaf { rowid: self.rowid as int, payload: self.payload@ }
    }
}

impl TableBTreeLeafCell {
    /// Decodes the cell at whose first byte the cursor is. The payload is read from the
    /// bytes that follow the row id; a payload that is continued on another page is not
    /// followed there.
    pub fn from(reader: &Reader<'_, u8>) -> (r: Result<Self, Error>)
        ensures
            refines(r, table_leaf_cell(reader.remaining())),
            r is Ok ==> r->Ok_0.payload_size == r->Ok_0.payload@.len(),
    {
        let mut reader = reader.clone();
        let ghost s = reader.remaining();
        let size = reader.pop_varint()?;
        if size < 0 {
            return Err(Error::Format(FormatError::NegativeLength));
        }
        let ghost n = varint(s)->Some_0.1;
        assert(reader.remaining() =~= s.skip(n as int));
        let rowid = reader.pop_varint()?;
        let ghost m = varint(s.skip(n as int))->Some_0.1;
        let avail = reader.len();
        if size as u64 > avail as u64 {
            return Err(Error::Format(FormatError::BufferUnderrun));
        }
        let payload_size = size as usize;
        assert(reader.remaining() =~= s.skip((n + m) as int));
        let bytes = reader.pop_bytes(payload_size)?;
        assert(bytes@ =~= s.subrange((n + m) as int, (n + m + size) as int));
        Ok(Self { payload_size, rowid, payload: CellPayload::new(bytes) })
    }
}

/// A cell of an interior page of a table: a child page and the row id that bounds its keys.
#[derive(Debug)]
pub struct TableBTreeInteriorCell {
    pub left_child_pointer: u32,
    pub rowid: i64,
}

impl View for TableBTreeInteriorCell {
    type V = TableInterior;

    open spec fn view(&self) -> TableInterior {
        TableInterior { left_child_pointer: self.left_child_pointer as nat, rowid: self.rowid as int }
    }
}

impl TableBTreeInteriorCell {
    /// Decodes the cell at whose first byte the cursor is.
    pub fn from(reader: &Reader<'_, u8>) -> (r: Result<Self, Error>)
        ensures
            refines(r, table_interior_cell(reader.remaining())),
    {
        let mut reader = reader.clone();
        let ghost s = reader.remaining();
        let pointer = reader.pop_fixed(4)?;
        proof {
            lemma_radix_values();
            crate::reader::lemma_be_uint_bound(s.take(4));
        }
        assert(reader.remaining() =~= s.skip(4));
        let rowid = reader.pop_varint()?;
        Ok(Self { left_child_pointer: pointer as u32, rowid })
    }
}

/// A cell of a leaf page of an index: the record of a key.
#[derive(Debug)]
pub struct IndexBTreeLeafCell {
    pub payload_size: usize,
    pub payload: CellPayload,
}

impl View for IndexBTreeLeafCell {
    type V = IndexLeaf;

    open spec fn view(&self) -> IndexLeaf {
        IndexLeaf { payload: self.payload@ }
    }
}

impl IndexBTreeLeafCell {
    /// Decodes the cell at whose first byte the cursor is.
    pub fn from(reader: &Reader<'_, u8>) -> (r: Result<Self, Error>)
        ensures
            refines(r, index_leaf_cell(reader.remaining())),
            r is Ok ==> r->Ok_0.payload_size == r->Ok_0.payload@.len(),
    {
        let mut reader = reader.clone();
        let bytes = pop_sized_payload(&mut reader)?;
        Ok(Self { payload_size: bytes.len(), payload: CellPayload::new(bytes) })
    }
}

/// A cell of an interior page of an index: a child page and the record of a key.
#[derive(Debug)]
pub struct IndexBTreeInteriorCell {
    pub left_child_pointer: u32,
    pub payload_size: usize,
    pub payload: CellPayload,
}

impl View for IndexBTreeInteriorCell {
    type V = IndexInterior;

    open spec fn view(&self) -> IndexInterior {
        IndexInterior { left_child_pointer: self.left_child_pointer as nat, payload: self.payload@ }
    }
}

impl IndexBTreeInteriorCell {
    /// Decodes the cell at whose first byte the cursor is.
    pub fn from(reader: &Reader<'_, u8>) -> (r: Result<Self, Error>)
        ensures
            refines(r, index_interior_cell(reader.remaining())),
            r is Ok ==> r->Ok_0.payload_size == r->Ok_0.payload@.len(),
    {
        let mut reader = reader.clone();
        let ghost s = reader.remaining();
        let pointer = reader.pop_fixed(4)?;
        proof {
            lemma_radix_values();
            crate::reader::lemma_be_uint_bound(s.take(4));
        }
        assert(reader.remaining() =~= s.skip(4));
        let bytes = pop_sized_payload(&mut reader)?;
        Ok(
            Self {
                left_child_pointer: pointer as u32,
                payload_size: bytes.len(),
                payload: CellPayload::new(bytes),
            },
        )
    }
}

/// A cell of any of the four shapes, as a mathematical object.
pub enum CellShape {
    TableLeaf(TableLeaf),
    TableInterior(TableInterior),
    IndexLeaf(IndexLeaf),
    IndexInterior(IndexInterior),
}

/// The cell that starts with the bytes `s` on a page of the given kind.
pub open spec fn cell_of(kind: BTreePageType, s: Seq<u8>) -> Result<CellShape, Error> {
    match kind {
        BTreePageType::LeafTable => match table_leaf_cell(s) {
            Ok(c) => Ok(CellShape::TableLeaf(c)),
            Err(e) => Err(e),
        },
        BTreePageType::InteriorTable => match table_interior_cell(s) {
            Ok(c) => Ok(CellShape::TableInterior(c)),
            Err(e) => Err(e),
        },
        BTreePageType::LeafIndex => match index_leaf_cell(s) {
            Ok(c) => Ok(CellShape::IndexLeaf(c)),
            Err(e) => Err(e),
        },
        BTreePageType::InteriorIndex => match index_interior_cell(s) {
            Ok(c) => Ok(CellShape::IndexInterior(c)),
            Err(e) => Err(e),
        },
    }
}

/// A cell of any of the four shapes.
#[derive(Debug)]
pub enum Cell {
    TableLeaf(TableBTreeLeafCell),
    TableInterior(TableBTreeInteriorCell),
    IndexLeaf(IndexBTreeLeafCell),
    IndexInterior(IndexBTreeInteriorCell),
}

impl View for Cell {
    type V = CellShape;

    open spec fn view(&self) -> CellShape {
        match self {
            Cell::TableLeaf(c) => CellShape::TableLeaf(c@),
            Cell::TableInterior(c) => CellShape::TableInterior(c@),
            Cell::IndexLeaf(c) => CellShape::IndexLeaf(c@),
            Cell::IndexInterior(c) => CellShape::IndexInterior(c@),
        }
    }
}

impl Cell {
    /// Decodes the cell at whose first byte the cursor is, in the shape that pages of
    /// the given kind hold.
    pub fn from(reader: &Reader<'_, u8>, kind: BTreePageType) -> (r: Result<Self, Error>)
        ensures
            refines(r, cell_of(kind, reader.remaining())),
    {
        match kind {
            BTreePageType::LeafTable => Ok(Cell::TableLeaf(TableBTreeLeafCell::from(reader)?)),
            BTreePageType::InteriorTable => Ok(
                Cell::TableInterior(TableBTreeInteriorCell::from(reader)?),
            ),
            BTreePageType::LeafIndex => Ok(Cell::IndexLeaf(IndexBTreeLeafCell::from(reader)?)),
            BTreePageType::InteriorIndex => Ok(
                Cell::IndexInterior(IndexBTreeInteriorCell::from(reader)?),
            ),
        }
    }
}

} // verus!
