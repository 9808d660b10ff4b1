//! The opened database: the file's preamble and the catalog that its first page holds.

use vstd::prelude::*;
use crate::btree_page_header::{BTreePageHeader, page_header};
use crate::cell::{TableBTreeLeafCell, schema_entry, table_leaf_cell};
use crate::common::{BTreePageType, CatalogEntry, Index, Schema, Table};
use crate::database_header::{DatabaseHeader, HEADER_LEN, decode_header};
use crate::error::{Error, FormatError, underrun};
use crate::reader::Reader;
use crate::sequence::{lemma_try_map_failed, lemma_try_map_next, try_map};
use crate::text::{sort_texts, sorted, texts_of};

verus! {

/// The catalog entry of the cell at `offset` of the file's first page.
pub open spec fn catalog_entry_at(file: Seq<u8>, offset: nat) -> Result<CatalogEntry, Error> {
    if offset > file.len() {
        Err(underrun())
    } else {
        match table_leaf_cell(file.skip(offset as int)) {
            Err(e) => Err(e),
            Ok(cell) => schema_entry(cell.payload),
        }
    }
}

/// The catalog of a file: one entry for each cell of its first page, which is a leaf of
/// the schema table and begins after the preamble. The offsets of the cells count from
/// the start of the file.
pub open spec fn catalog_of(file: Seq<u8>) -> Result<Seq<CatalogEntry>, Error> {
    match page_header(file.skip(100)) {
        Err(e) => Err(e),
        Ok(layout) => if layout.kind != BTreePageType::LeafTable {
            Err(Error::Format(FormatError::UnexpectedPageInTree))
        } else {
            try_map(layout.cell_offsets, |offset: nat| catalog_entry_at(file, offset))
        },
    }
}

/// An opened database, as a mathematical object.
pub struct DatabaseModel {
    pub header: DatabaseHeader,
    pub entries: Seq<CatalogEntry>,
}

/// What opening a file of these bytes gives.
pub open spec fn open_file(file: Seq<u8>) -> Result<DatabaseModel, Error> {
    match decode_header(file) {
        Err(e) => Err(e),
        Ok(header) => match catalog_of(file) {
            Err(e) => Err(e),
            Ok(entries) => Ok(DatabaseModel { header, entries }),
        },
    }
}

/// The entries of a catalog, as mathematical objects.
pub open spec fn entry_models(entries: Seq<Schema>) -> Seq<CatalogEntry> {
    entries.map_values(|e: Schema| e@)
}

/// The index in `entries` of the table called `name`: of the last one, where several
/// are called so.
pub open spec fn table_position(entries: Seq<CatalogEntry>, name: Seq<char>) -> Option<int>
    decreases entries.len(),
{
    if entries.len() == 0 {
        None
    } else if entries.last() matches CatalogEntry::Table(t) && t.table_name == name {
        Some(entries.len() - 1)
    } else {
        table_position(entries.drop_last(), name)
    }
}

/// The names of the tables among `entries`, in the order of the entries.
pub open spec fn table_names_of(entries: Seq<CatalogEntry>) -> Seq<Seq<char>>
    decreases entries.len(),
{
    if entries.len() == 0 {
        Seq::empty()
    } else if entries.last() is Table {
        table_names_of(entries.drop_last()).push(entries.last()->Table_0.table_name)
    } else {
        table_names_of(entries.drop_last())
    }
}

/// Whether `entry` is an index on the table `table` whose first column is `column`.
pub open spec fn is_index_on(entry: CatalogEntry, table: Seq<char>, column: Seq<char>) -> bool {
    entry matches CatalogEntry::Index(i) && i.table_name == table && i.sql_schema.fields.len() > 0
        && i.sql_schema.fields[0].field == column
}

/// The index in `entries` of the index on `table` whose first column is `column`: of the
/// last one, where there are several.
pub open spec fn index_position(
    entries: Seq<CatalogEntry>,
    table: Seq<char>,
    column: Seq<char>,
) -> Option<int>
    decreases entries.len(),
{
    if entries.len() == 0 {
        None
    } else if is_index_on(entries.last(), table, column) {
        Some(entries.len() - 1)
    } else {
        index_position(entries.drop_last(), table, column)
    }
}

/// The position of an index is the index of an index on that table and column.
pub proof fn lemma_index_position(entries: Seq<CatalogEntry>, table: Seq<char>, column: Seq<char>)
    ensures
        index_position(entries, table, column) matches Some(i) ==> 0 <= i < entries.len()
            && is_index_on(entries[i], table, column),
    decreases entries.len(),
{
    if entries.len() > 0 {
        lemma_index_position(entries.drop_last(), table, column);
    }
}

/// An opened database: the preamble of the file and the entries of its catalog.
#[derive(Debug)]
pub struct Database {
    pub header: DatabaseHeader,
    pub entries: Vec<Schema>,
}

impl View for Database {
    type V = DatabaseModel;

    open spec fn view(&self) -> DatabaseModel {
        DatabaseModel { header: self.header, entries: entry_models(self.entries@) }
    }
}

impl Database {
    /// Opens the database in the file that `reader` reads: decodes the preamble and
    /// builds the catalog from the first page.
    pub fn from(reader: &Reader<'_, u8>) -> (r: Result<Self, Error>)
        ensures
            match open_file(reader.buffer()) {
                Ok(model) => r is Ok && r->Ok_0@ == model && r->Ok_0.header.well_formed(),
                Err(e) => r matches Err(f) && f == e,
            },
    {
        let ghost file = reader.buffer();
        let header = DatabaseHeader::from(reader)?;
        let first_page = reader.at(HEADER_LEN)?;
        assert(first_page.remaining() =~= file.skip(100));
        let page = BTreePageHeader::from(&first_page)?;
        if page.kind != BTreePageType::LeafTable {
            return Err(Error::Format(FormatError::UnexpectedPageInTree));
        }
        let ghost offsets = page@.cell_offsets;
        let ghost decode = |offset: nat| catalog_entry_at(file, offset);
        let mut entries: Vec<Schema> = Vec::new();
        let mut i: usize = 0;
        proof {
            assert(offsets.take(0) =~= Seq::<nat>::empty());
            assert(entry_models(entries@) =~= Seq::<CatalogEntry>::empty());
        }
        while i < page.cell_offsets.len()
            invariant
                i <= page.cell_offsets@.len(),
                file == reader.buffer(),
                decode_header(file) == Ok::<DatabaseHeader, Error>(header),
                header.well_formed(),
                page_header(file.skip(100)) == Ok::<crate::btree_page_header::PageLayout, Error>(
                    page@,
                ),
                page.kind == BTreePageType::LeafTable,
                offsets == page@.cell_offsets,
                decode == |offset: nat| catalog_entry_at(file, offset),
                try_map(offsets.take(i as int), decode) == Ok::<Seq<CatalogEntry>, Error>(
                    entry_models(entries@),
                ),
            decreases page.cell_offsets@.len() - i,
        {
            let offset = page.cell_offsets[i];
            assert(offsets[i as int] == offset);
            proof {
                lemma_try_map_next(offsets, decode, i as int);
                if try_map(offsets.take(i + 1), decode) is Err {
                    lemma_try_map_failed(offsets, decode, i + 1);
                }
            }
            let at_cell = reader.at(offset)?;
            assert(at_cell.remaining() =~= file.skip(offset as int));
            let cell = TableBTreeLeafCell::from(&at_cell)?;
            let entry = cell.payload.read_as_schema_definition()?;
            let ghost before = entry_models(entries@);
            let ghost added = entry@;
            entries.push(entry);
            assert(entry_models(entries@) =~= before.push(added));
            i = i + 1;
        }
        assert(offsets.take(i as int) =~= offsets);
        Ok(Self { header, entries })
    }

    /// The table of the given name.
    pub fn table(&self, name: &str) -> (r: Option<&Table>)
        ensures
            match table_position(self@.entries, name@) {
                Some(i) => r is Some && self@.entries[i] == CatalogEntry::Table(r->0@),
                None => r is None,
            },
    {
        let key = name.to_owned();
        let mut i: usize = self.entries.len();
        assert(self@.entries.take(i as int) =~= self@.entries);
        while i > 0
            invariant
                i <= self.entries@.len(),
                key@ == name@,
                table_position(self@.entries, name@) == table_position(
                    self@.entries.take(i as int),
                    name@,
                ),
            decreases i,
        {
            let ghost prefix = self@.entries.take(i as int);
            assert(prefix.drop_last() =~= self@.entries.take(i - 1));
            assert(prefix.last() == self.entries@[i - 1]@);
            if let Schema::Table(t) = &self.entries[i - 1] {
                if t.table_name == key {
                    return Some(t);
                }
            }
            i = i - 1;
        }
        None
    }

    /// The index on the given table whose first column is the given one.
    pub fn index_on(&self, table: &str, column: &str) -> (r: Option<&Index>)
        ensures
            match index_position(self@.entries, table@, column@) {
                Some(i) => r is Some && self@.entries[i] == CatalogEntry::Index(r->0@),
                None => r is None,
            },
    {
        let table_key = table.to_owned();
        let column_key = column.to_owned();
        let mut i: usize = self.entries.len();
        assert(self@.entries.take(i as int) =~= self@.entries);
        while i > 0
            invariant
                i <= self.entries@.len(),
                table_key@ == table@,
                column_key@ == column@,
                index_position(self@.entries, table@, column@) == index_position(
                    self@.entries.take(i as int),
                    table@,
                    column@,
                ),
            decreases i,
        {
            let ghost prefix = self@.entries.take(i as int);
            assert(prefix.drop_last() =~= self@.entries.take(i - 1));
            assert(prefix.last() == self.entries@[i - 1]@);
            if let Schema::Index(index) = &self.entries[i - 1] {
                if index.table_name == table_key && index.sql_schema.fields.len() > 0
                    && index.sql_schema.fields[0].field == column_key {
                    return Some(index);
                }
            }
            i = i - 1;
        }
        None
    }

    /// The names of the tables of the catalog, in the order of the catalog.
    pub fn table_names(&self) -> (names: Vec<String>)
        ensures
            texts_of(names@) == table_names_of(self@.entries),
    {
        let mut names: Vec<String> = Vec::new();
        let mut i: usize = 0;
        proof {
            assert(self@.entries.take(0) =~= Seq::<CatalogEntry>::empty());
            assert(texts_of(names@) =~= Seq::<Seq<char>>::empty());
        }
        while i < self.entries.len()
            invariant
                i <= self.entries@.len(),
                texts_of(names@) == table_names_of(self@.entries.take(i as int)),
            decreases self.entries@.len() - i,
        {
            let ghost prefix = self@.entries.take(i + 1);
            assert(prefix.drop_last() =~= self@.entries.take(i as int));
            assert(prefix.last() == self.entries@[i as int]@);
            if let Schema::Table(t) = &self.entries[i] {
                let ghost before = texts_of(names@);
                let name = t.table_name.clone();
                names.push(name);
                assert(texts_of(names@) =~= before.push(t.table_name@));
            }
            i = i + 1;
        }
        assert(self@.entries.take(i as int) =~= self@.entries);
        names
    }

    /// The names of the tables of the catalog, in the order of texts.
    pub fn table_names_sorted(&self) -> (names: Vec<String>)
        ensures
            sorted(texts_of(names@)),
            texts_of(names@).to_multiset() == table_names_of(self@.entries).to_multiset(),
    {
        sort_texts(self.table_names())
    }
}

} // verus!
