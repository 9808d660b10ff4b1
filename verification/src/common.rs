//! The kinds of B-tree page, the entries of the catalog and the counter behind implicit row ids.

use vstd::prelude::*;
use crate::error::{Error, FormatError, SchemaError, refines};
use crate::record::{Record, Value, values_of};
use crate::schema::{IndexModel, IndexSchema, TableModel, TableSchema, table_definition};
use crate::text::{chars_of, equal};

verus! {

/// The four kinds of B-tree page: a page belongs to a table or to an index, and is an
/// interior page or a leaf.
#[derive(Debug, Clone, Copy, PartialEq, Eq, Structural)]
pub enum BTreePageType {
    InteriorIndex,
    InteriorTable,
    LeafIndex,
    LeafTable,
}

impl BTreePageType {
    /// The page kind that the first byte of a page stands for.
    pub open spec fn of_tag(tag: int) -> Option<BTreePageType> {
        if tag == 2 {
            Some(BTreePageType::InteriorIndex)
        } else if tag == 5 {
            Some(BTreePageType::InteriorTable)
        } else if tag == 10 {
            Some(BTreePageType::LeafIndex)
        } else if tag == 13 {
            Some(BTreePageType::LeafTable)
        } else {
            None
        }
    }

    /// Whether pages of this kind hold children rather than payloads.
    pub open spec fn interior(&self) -> bool {
        *self == BTreePageType::InteriorIndex || *self == BTreePageType::InteriorTable
    }

    /// The length in bytes of the header of a page of this kind: 12 with the right-most
    /// pointer of an interior page, 8 without.
    pub open spec fn header_len(&self) -> nat {
        if self.interior() {
            12
        } else {
            8
        }
    }

    /// Whether pages of this kind are interior pages.
    pub fn is_interior(&self) -> (b: bool)
        ensures
            b == self.interior(),
    {
        match self {
            BTreePageType::InteriorIndex | BTreePageType::InteriorTable => true,
            BTreePageType::LeafIndex | BTreePageType::LeafTable => false,
        }
    }
}

/// A table of the catalog, as a mathematical object.
pub struct TableEntry {
    pub table_name: Seq<char>,
    pub root_page: nat,
    pub sql_schema: TableModel,
}

/// A table of the catalog: its name, the number of the page at the root of its B-tree,
/// and its definition.
#[derive(Debug)]
pub struct Table {
    pub table_name: String,
    pub root_page: u32,
    pub sql_schema: TableSchema,
}

impl View for Table {
    type V = TableEntry;

    open spec fn view(&self) -> TableEntry {
        TableEntry {
            table_name: self.table_name@,
            root_page: self.root_page as nat,
            sql_schema: self.sql_schema@,
        }
    }
}

impl Table {
    /// A table of the given name, root page and definition.
    pub fn new(table_name: String, root_page: u32, sql_schema: TableSchema) -> (r: Self)
        ensures
            r@ == (TableEntry {
                table_name: table_name@,
                root_page: root_page as nat,
                sql_schema: sql_schema@,
            }),
    {
        Self { table_name, root_page, sql_schema }
    }
}

/// An index of the catalog, as a mathematical object.
pub struct IndexEntry {
    pub table_name: Seq<char>,
    pub index_name: Seq<char>,
    pub root_page: nat,
    pub sql_schema: IndexModel,
}

/// An index of the catalog: the table that it belongs to, its own name, the number of
/// the page at the root of its B-tree, and its definition.
#[derive(Debug)]
pub struct Index {
    pub table_name: String,
    pub index_name: String,
    pub root_page: u32,
    pub sql_schema: IndexSchema,
}

impl View for Index {
    type V = IndexEntry;

    open spec fn view(&self) -> IndexEntry {
        IndexEntry {
            table_name: self.table_name@,
            index_name: self.index_name@,
            root_page: self.root_page as nat,
            sql_schema: self.sql_schema@,
        }
    }
}

impl Index {
    /// An index of the given table, name, root page and definition.
    pub fn new(
        table_name: String,
        index_name: String,
        root_page: u32,
        sql_schema: IndexSchema,
    ) -> (r: Self)
        ensures
            r@ == (IndexEntry {
                table_name: table_name@,
                index_name: index_name@,
                root_page: root_page as nat,
                sql_schema: sql_schema@,
            }),
    {
        Self { table_name, index_name, root_page, sql_schema }
    }
}

/// An entry of the catalog, as a mathematical object.
pub enum CatalogEntry {
    Table(TableEntry),
    Index(IndexEntry),
}

/// An entry of the catalog: a table or an index.
#[derive(Debug)]
pub enum Schema {
    Table(Table),
    Index(Index),
}

impl View for Schema {
    type V = CatalogEntry;

    open spec fn view(&self) -> CatalogEntry {
        match self {
            Schema::Table(t) => CatalogEntry::Table(t@),
            Schema::Index(i) => CatalogEntry::Index(i@),
        }
    }
}

/// The page number that a value of the schema table's fourth column stands for.
pub open spec fn page_number_of(value: Value) -> Option<nat> {
    match value {
        Value::Integer(n) => if 0 <= n <= u32::MAX {
            Some(n as nat)
        } else {
            None
        },
        Value::Zero => Some(0),
        Value::One => Some(1),
        _ => None,
    }
}

/// The catalog entry that the five values of a row of the schema table stand for: the
/// kind of the entry, its name, the name of its table, the number of its root page and
/// its definition text. Only tables make entries: the definition of an index is refused,
/// as is every other kind of entry.
pub open spec fn entry_of(row: Seq<Value>) -> Result<CatalogEntry, Error> {
    if row.len() != 5 || !(row[0] is Text && row[1] is Text && row[2] is Text) || page_number_of(
        row[3],
    ) is None {
        Err(Error::Format(FormatError::MalformedSchemaRow))
    } else if row[0]->Text_0 == "table"@ {
        if row[4] is Text {
            match table_definition(row[4]->Text_0) {
                Err(e) => Err(e),
                Ok(definition) => Ok(
                    CatalogEntry::Table(
                        TableEntry {
                            table_name: row[2]->Text_0,
                            root_page: page_number_of(row[3])->0,
                            sql_schema: definition,
                        },
                    ),
                ),
            }
        } else {
            Err(Error::Format(FormatError::MalformedSchemaRow))
        }
    } else if row[0]->Text_0 == "index"@ {
        if row[4] is Text {
            Err(Error::Schema(SchemaError::IndexDefinition))
        } else {
            Err(Error::Format(FormatError::MalformedSchemaRow))
        }
    } else {
        Err(Error::Schema(SchemaError::UnsupportedEntryKind))
    }
}

impl Schema {
    /// The catalog entry that the values of a row of the schema table stand for.
    pub fn from_row(values: &Vec<Record>) -> (r: Result<Self, Error>)
        ensures
            refines(r, entry_of(values_of(values@))),
    {
        if values.len() != 5 {
            return Err(Error::Format(FormatError::MalformedSchemaRow));
        }
        let ghost row = values_of(values@);
        assert(row[0] == values@[0]@ && row[1] == values@[1]@ && row[2] == values@[2]@ && row[3]
            == values@[3]@ && row[4] == values@[4]@);
        let (Record::Text(kind), Record::Text(name), Record::Text(table_name)) = (
            &values[0],
            &values[1],
            &values[2],
        ) else {
            return Err(Error::Format(FormatError::MalformedSchemaRow));
        };
        let root_page: u32 = match &values[3] {
            Record::Integer(n) => {
                if *n < 0 || *n > u32::MAX as i64 {
                    return Err(Error::Format(FormatError::MalformedSchemaRow));
                }
                *n as u32
            },
            Record::Zero => 0,
            Record::One => 1,
            _ => {
                return Err(Error::Format(FormatError::MalformedSchemaRow));
            },
        };
        let kind_chars = chars_of(kind.as_str());
        if equal(kind_chars.as_slice(), chars_of("table").as_slice()) {
            let Record::Text(sql) = &values[4] else {
                return Err(Error::Format(FormatError::MalformedSchemaRow));
            };
            let sql_schema = TableSchema::from(sql.as_str())?;
            Ok(Schema::Table(Table::new(table_name.clone(), root_page, sql_schema)))
        } else if equal(kind_chars.as_slice(), chars_of("index").as_slice()) {
            let Record::Text(sql) = &values[4] else {
                return Err(Error::Format(FormatError::MalformedSchemaRow));
            };
            let sql_schema = IndexSchema::from(sql.as_str())?;
            Ok(Schema::Index(Index::new(table_name.clone(), name.clone(), root_page, sql_schema)))
        } else {
            Err(Error::Schema(SchemaError::UnsupportedEntryKind))
        }
    }
}

/// A counter that hands out the row ids of a column that the file does not store.
#[derive(Debug)]
pub struct Incrementer {
    value: u64,
}

impl Incrementer {
    /// The value that the next call of `next_value` returns.
    pub closed spec fn upcoming(&self) -> nat {
        self.value as nat
    }

    /// A counter whose first number is `value`.
    pub fn new(value: u64) -> (r: Self)
        ensures
            r.upcoming() == value,
    {
        Self { value }
    }

    /// Returns the counter's value and moves the counter on by one.
    pub fn next_value(&mut self) -> (v: u64)
        requires
            old(self).upcoming() < u64::MAX,
        ensures
            v == old(self).upcoming(),
            final(self).upcoming() == old(self).upcoming() + 1,
    {
        self.value += 1;
        self.value - 1
    }
}

} // verus!
