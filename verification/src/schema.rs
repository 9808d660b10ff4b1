//! Table definitions: the `CREATE TABLE` text of the schema table, parsed into columns.

use std::collections::HashMap;
use vstd::prelude::*;
use vstd::slice::slice_subrange;
use crate::common::Incrementer;
use crate::error::{Error, SchemaError, refines};
use crate::pattern::{captures, regex_captures};
use crate::sequence::{lemma_try_map_failed, lemma_try_map_next, try_map};
use crate::text::{
    chars_of, contains_ignore_case, eq_ignore_case, equal, equal_ignore_case, has_ignore_case,
    pieces, split, split_at, trim, trimmed,
};

verus! {

/// The regular expression of a table definition: it captures the table's name and what
/// stands between the outermost brackets.
pub const TABLE_PATTERN: &'static str = r#"(?s)CREATE\s+TABLE\s+"?(\w+)"?\s*\((.*)\)"#;

/// The regular expression of one column of a table definition: it captures the column's
/// name, which may stand in double quotes, its type, and what follows the type.
pub const FIELD_PATTERN: &'static str = r#"^\s*((?:\")[^"]+(?:\")|[^ ]+)\s+([^ ]+)($|\s+.*)"#;

/// The name of the table in which the file keeps its own counters; its columns are not parsed.
pub const SEQUENCE_TABLE: &'static str = "sqlite_sequence";

/// The declared kind of a column.
#[derive(Debug, Clone, Copy, PartialEq, Eq, Structural)]
pub enum TableFieldKind {
    /// An integer; with `auto_increment`, the column stands for the row id.
    Int { auto_increment: bool },
    Text,
}

impl TableFieldKind {
    /// The kind that a type name stands for, whatever the case of its letters.
    pub open spec fn of_name(raw: Seq<char>) -> Option<TableFieldKind> {
        if eq_ignore_case(raw, "integer"@) {
            Some(TableFieldKind::Int { auto_increment: false })
        } else if eq_ignore_case(raw, "text"@) || eq_ignore_case(raw, "varchar"@) {
            Some(TableFieldKind::Text)
        } else {
            None
        }
    }

    /// The kind of a column of the given type name: `integer`, `text` or `varchar`.
    pub fn from(raw: &str) -> (r: Result<Self, Error>)
        ensures
            r == match Self::of_name(raw@) {
                Some(kind) => Ok::<Self, Error>(kind),
                None => Err(Error::Schema(SchemaError::UnsupportedColumnType)),
            },
    {
        let chars = chars_of(raw);
        if equal_ignore_case(chars.as_slice(), chars_of("integer").as_slice()) {
            Ok(Self::Int { auto_increment: false })
        } else if equal_ignore_case(chars.as_slice(), chars_of("text").as_slice())
            || equal_ignore_case(chars.as_slice(), chars_of("varchar").as_slice()) {
            Ok(Self::Text)
        } else {
            Err(Error::Schema(SchemaError::UnsupportedColumnType))
        }
    }

    /// Makes an integer column the alias of the row id. Other kinds cannot be one.
    pub fn to_auto_increment(&mut self) -> (r: Result<(), Error>)
        ensures
            *old(self) is Int ==> r is Ok && *final(self) == (TableFieldKind::Int {
                auto_increment: true,
            }),
            !(*old(self) is Int) ==> r == Err::<(), Error>(
                Error::Schema(SchemaError::AutoincrementOnNonInteger),
            ) && *final(self) == *old(self),
    {
        match self {
            Self::Int { .. } => {
                *self = Self::Int { auto_increment: true };
                Ok(())
            },
            _ => Err(Error::Schema(SchemaError::AutoincrementOnNonInteger)),
        }
    }
}

/// A column of a table, as a mathematical object.
pub struct FieldModel {
    pub name: Seq<char>,
    pub kind: TableFieldKind,
    pub primary_key: bool,
    pub allow_null: bool,
}

impl FieldModel {
    /// Whether the column stands for the row id and may be left out of what is stored.
    pub open spec fn autoincrement(&self) -> bool {
        self.kind == (TableFieldKind::Int { auto_increment: true })
    }
}

/// A column of a table.
#[derive(Debug)]
pub struct TableField {
    pub name: String,
    pub kind: TableFieldKind,
    pub primary_key: bool,
    pub allow_null: bool,
}

impl View for TableField {
    type V = FieldModel;

    open spec fn view(&self) -> FieldModel {
        FieldModel {
            name: self.name@,
            kind: self.kind,
            primary_key: self.primary_key,
            allow_null: self.allow_null,
        }
    }
}

/// A column name without the double quotes that may stand around it.
pub open spec fn unquoted(name: Seq<char>) -> Seq<char> {
    if name.len() >= 2 && name[0] == '"' {
        name.subrange(1, name.len() - 1)
    } else {
        name
    }
}

/// The column that the groups of a match of `FIELD_PATTERN` describe: its name, its type
/// and what follows the type. `PRIMARY KEY`, `AUTOINCREMENT` and `NOT NULL` are looked for
/// in what follows the type, whatever the case of their letters.
pub open spec fn field_of(groups: Option<Seq<Option<Seq<char>>>>) -> Result<FieldModel, Error> {
    let g = groups->0;
    if groups is Some && g.len() == 4 && g[1] is Some && g[2] is Some && g[3] is Some {
        let rest = g[3]->0;
        match TableFieldKind::of_name(g[2]->0) {
            None => Err(Error::Schema(SchemaError::UnsupportedColumnType)),
            Some(kind) => if contains_ignore_case(rest, "autoincrement"@) && !(kind is Int) {
                Err(Error::Schema(SchemaError::AutoincrementOnNonInteger))
            } else {
                Ok(
                    FieldModel {
                        name: unquoted(g[1]->0),
                        kind: if contains_ignore_case(rest, "autoincrement"@) {
                            TableFieldKind::Int { auto_increment: true }
                        } else {
                            kind
                        },
                        primary_key: contains_ignore_case(rest, "primary key"@),
                        allow_null: !contains_ignore_case(rest, "not null"@),
                    },
                )
            },
        }
    } else {
        Err(Error::Schema(SchemaError::ColumnNotRecognized))
    }
}

/// The column that the text of one column definition describes.
pub open spec fn field_definition(text: Seq<char>) -> Result<FieldModel, Error> {
    field_of(regex_captures(FIELD_PATTERN@, text))
}

impl TableField {
    /// Whether the column stands for the row id.
    pub fn is_autoincrement(&self) -> (b: bool)
        ensures
            b == self@.autoincrement(),
    {
        match self.kind {
            TableFieldKind::Int { auto_increment } => auto_increment,
            _ => false,
        }
    }

    /// The column that the groups of a match of `FIELD_PATTERN` describe.
    pub fn from_captures(groups: &Option<Vec<Option<String>>>) -> (r: Result<Self, Error>)
        ensures
            refines(r, field_of(groups.deep_view())),
    {
        let Some(found) = groups else {
            return Err(Error::Schema(SchemaError::ColumnNotRecognized));
        };
        assert(groups.deep_view()->0.len() == found@.len());
        if found.len() != 4 {
            return Err(Error::Schema(SchemaError::ColumnNotRecognized));
        }
        assert(groups.deep_view()->0[1] == found@[1].deep_view());
        assert(groups.deep_view()->0[2] == found@[2].deep_view());
        assert(groups.deep_view()->0[3] == found@[3].deep_view());
        let (Some(raw_name), Some(raw_kind), Some(rest)) = (&found[1], &found[2], &found[3]) else {
            return Err(Error::Schema(SchemaError::ColumnNotRecognized));
        };
        let mut kind = TableFieldKind::from(raw_kind.as_str())?;
        let rest = chars_of(rest.as_str());
        if has_ignore_case(rest.as_slice(), chars_of("autoincrement").as_slice()) {
            kind.to_auto_increment()?;
        }
        let primary_key = has_ignore_case(rest.as_slice(), chars_of("primary key").as_slice());
        let allow_null = !has_ignore_case(rest.as_slice(), chars_of("not null").as_slice());
        let name_chars = chars_of(raw_name.as_str());
        let name = if name_chars.len() >= 2 && name_chars[0] == '"' {
            raw_name.as_str().substring_char(1, name_chars.len() - 1).to_owned()
        } else {
            raw_name.clone()
        };
        Ok(Self { name, kind, primary_key, allow_null })
    }
}

/// A table definition, as a mathematical object.
pub struct TableModel {
    pub name: Seq<char>,
    pub fields: Seq<FieldModel>,
}

/// No two of the columns have the same name.
pub open spec fn distinct_names(fields: Seq<FieldModel>) -> bool {
    forall|i: int, j: int|
        0 <= i < j < fields.len() ==> (#[trigger] fields[i]).name != (#[trigger] fields[j]).name
}

/// The index in `fields` of the column called `name`: of the last one, where several are
/// called so.
pub open spec fn column_position(fields: Seq<FieldModel>, name: Seq<char>) -> Option<int>
    decreases fields.len(),
{
    if fields.len() == 0 {
        None
    } else if fields.last().name == name {
        Some(fields.len() - 1)
    } else {
        column_position(fields.drop_last(), name)
    }
}

/// The position of a name is the index of a column of that name, and there is none
/// where no column has the name.
pub proof fn lemma_column(fields: Seq<FieldModel>, name: Seq<char>)
    ensures
        match column_position(fields, name) {
            Some(i) => 0 <= i < fields.len() && fields[i].name == name,
            None => forall|i: int| 0 <= i < fields.len() ==> fields[i].name != name,
        },
    decreases fields.len(),
{
    if fields.len() > 0 && fields.last().name != name {
        lemma_column(fields.drop_last(), name);
        assert forall|i: int| 0 <= i < fields.len() - 1 implies fields[i] == fields.drop_last()[i] by {}
    }
}

/// Where no two columns have the same name, the position of a column's name is the
/// index of the column.
pub proof fn lemma_column_of_name(fields: Seq<FieldModel>, c: int)
    requires
        distinct_names(fields),
        0 <= c < fields.len(),
    ensures
        column_position(fields, fields[c].name) == Some(c),
    decreases fields.len(),
{
    if c < fields.len() - 1 {
        let shorter = fields.drop_last();
        assert(fields.last() == fields[fields.len() - 1]);
        assert forall|i: int, j: int| 0 <= i < j < shorter.len() implies (#[trigger] shorter[i]).name
            != (#[trigger] shorter[j]).name by {
            assert(shorter[i] == fields[i] && shorter[j] == fields[j]);
        }
        assert(shorter[c] == fields[c]);
        lemma_column_of_name(shorter, c);
    }
}

impl TableModel {
    /// No two columns of the table have the same name.
    pub open spec fn well_formed(&self) -> bool {
        distinct_names(self.fields)
    }

    /// The index of the column called `name`.
    pub open spec fn column(&self, name: Seq<char>) -> Option<int> {
        column_position(self.fields, name)
    }
}

/// The columns that the pieces of a column list describe, each piece without the blank
/// characters at its ends.
pub open spec fn fields_of(columns: Seq<Seq<char>>) -> Result<Seq<FieldModel>, Error> {
    try_map(columns, |column: Seq<char>| field_definition(trimmed(column)))
}

/// The table that the groups of a match of `TABLE_PATTERN` describe: the name, and the
/// columns that the commas of the column list separate. The table of the file's own
/// counters has no columns here.
pub open spec fn table_of(groups: Option<Seq<Option<Seq<char>>>>) -> Result<TableModel, Error> {
    let g = groups->0;
    if groups is Some && g.len() == 3 && g[1] is Some && g[2] is Some {
        let name = g[1]->0;
        if name == SEQUENCE_TABLE@ {
            Ok(TableModel { name, fields: Seq::empty() })
        } else {
            match fields_of(split(g[2]->0, ',')) {
                Err(e) => Err(e),
                Ok(fields) => if distinct_names(fields) {
                    Ok(TableModel { name, fields })
                } else {
                    Err(Error::Schema(SchemaError::DuplicateColumn))
                },
            }
        }
    } else {
        Err(Error::Schema(SchemaError::DefinitionNotRecognized))
    }
}

/// The table that a definition text describes.
pub open spec fn table_definition(raw: Seq<char>) -> Result<TableModel, Error> {
    table_of(regex_captures(TABLE_PATTERN@, raw))
}

/// The columns of a table, as mathematical objects.
pub open spec fn field_models(fields: Seq<TableField>) -> Seq<FieldModel> {
    fields.map_values(|f: TableField| f@)
}

/// The definition of a table: its name and its columns, no two of the same name.
#[derive(Debug)]
pub struct TableSchema {
    name: String,
    fields: Vec<TableField>,
}

impl View for TableSchema {
    type V = TableModel;

    closed spec fn view(&self) -> TableModel {
        TableModel { name: self.name@, fields: field_models(self.fields@) }
    }
}

impl TableSchema {
    #[verifier::type_invariant]
    spec fn names_distinct(&self) -> bool {
        distinct_names(field_models(self.fields@))
    }

    /// A table of the given name and columns. Columns of the same name are refused.
    pub fn new(name: String, fields: Vec<TableField>) -> (r: Result<Self, Error>)
        ensures
            distinct_names(field_models(fields@)) ==> r is Ok && r->Ok_0@ == (TableModel {
                name: name@,
                fields: field_models(fields@),
            }),
            !distinct_names(field_models(fields@)) ==> r == Err::<Self, Error>(
                Error::Schema(SchemaError::DuplicateColumn),
            ),
    {
        let ghost models = field_models(fields@);
        let mut j: usize = 0;
        while j < fields.len()
            invariant
                j <= fields@.len(),
                models == field_models(fields@),
                forall|a: int, b: int|
                    0 <= a < b < j ==> (#[trigger] models[a]).name != (#[trigger] models[b]).name,
            decreases fields@.len() - j,
        {
            let mut i: usize = 0;
            while i < j
                invariant
                    i <= j < fields@.len(),
                    models == field_models(fields@),
                    forall|a: int| 0 <= a < i ==> (#[trigger] models[a]).name != models[j as int].name,
                decreases j - i,
            {
                if fields[i].name == fields[j].name {
                    assert(models[i as int].name == models[j as int].name);
                    return Err(Error::Schema(SchemaError::DuplicateColumn));
                }
                i = i + 1;
            }
            j = j + 1;
        }
        Ok(Self { name, fields })
    }

    /// The table that the groups of a match of `TABLE_PATTERN` describe.
    pub fn from_captures(groups: &Option<Vec<Option<String>>>) -> (r: Result<Self, Error>)
        ensures
            refines(r, table_of(groups.deep_view())),
            r is Ok ==> r->Ok_0@.well_formed(),
    {
        let Some(found) = groups else {
            return Err(Error::Schema(SchemaError::DefinitionNotRecognized));
        };
        assert(groups.deep_view()->0.len() == found@.len());
        if found.len() != 3 {
            return Err(Error::Schema(SchemaError::DefinitionNotRecognized));
        }
        assert(groups.deep_view()->0[1] == found@[1].deep_view());
        assert(groups.deep_view()->0[2] == found@[2].deep_view());
        let (Some(name), Some(list)) = (&found[1], &found[2]) else {
            return Err(Error::Schema(SchemaError::DefinitionNotRecognized));
        };
        if equal(chars_of(name.as_str()).as_slice(), chars_of(SEQUENCE_TABLE).as_slice()) {
            let table = Self::new(name.clone(), Vec::new())?;
            assert(table@.fields =~= Seq::<FieldModel>::empty());
            return Ok(table);
        }
        let chars = chars_of(list.as_str());
        let ranges = split_at(chars.as_slice(), ',');
        let ghost columns = split(list@, ',');
        let ghost parse = |column: Seq<char>| field_definition(trimmed(column));
        let mut fields: Vec<TableField> = Vec::new();
        let mut k: usize = 0;
        proof {
            assert(columns.take(0) =~= Seq::<Seq<char>>::empty());
            assert(field_models(fields@) =~= Seq::<FieldModel>::empty());
            assert(fields_of(columns) == try_map(columns, parse));
        }
        while k < ranges.len()
            invariant
                k <= ranges@.len(),
                chars@ == list@,
                fields_of(columns) == try_map(columns, parse),
                groups.deep_view() is Some,
                groups.deep_view()->0.len() == 3,
                groups.deep_view()->0[1] == Some(name@),
                groups.deep_view()->0[2] == Some(list@),
                name@ != SEQUENCE_TABLE@,
                columns == split(list@, ','),
                pieces(chars@, ranges@) == columns,
                parse == |column: Seq<char>| field_definition(trimmed(column)),
                forall|n: int|
                    0 <= n < ranges@.len() ==> (#[trigger] ranges@[n]).0 <= ranges@[n].1
                        <= chars@.len(),
                try_map(columns.take(k as int), parse) == Ok::<Seq<FieldModel>, Error>(
                    field_models(fields@),
                ),
            decreases ranges@.len() - k,
        {
            let (from, to) = ranges[k];
            let column = slice_subrange(chars.as_slice(), from, to);
            assert(column@ == columns[k as int]);
            let (first, last) = trim(column);
            let text = list.as_str().substring_char(from + first, from + last);
            assert(text@ =~= trimmed(columns[k as int]));
            let field_groups = captures(FIELD_PATTERN, text);
            proof {
                lemma_try_map_next(columns, parse, k as int);
            }
            match TableField::from_captures(&field_groups) {
                Ok(field) => {
                    let ghost before = field_models(fields@);
                    let ghost added = field@;
                    fields.push(field);
                    assert(field_models(fields@) =~= before.push(added));
                },
                Err(e) => {
                    proof {
                        lemma_try_map_failed(columns, parse, k + 1);
                    }
                    return Err(e);
                },
            }
            k = k + 1;
        }
        assert(columns.take(k as int) =~= columns);
        Self::new(name.clone(), fields)
    }

    /// Parses a definition text of the form `CREATE TABLE name (column, ..)`, each column
    /// of the form `name type [constraints]`.
    pub fn from(raw: &str) -> (r: Result<Self, Error>)
        ensures
            refines(r, table_definition(raw@)),
            r is Ok ==> r->Ok_0@.well_formed(),
    {
        let groups = captures(TABLE_PATTERN, raw);
        Self::from_captures(&groups)
    }

    /// The name of the table.
    pub fn name(&self) -> (name: &String)
        ensures
            name@ == self@.name,
    {
        &self.name
    }

    /// The columns of the table, in declared order.
    pub fn fields(&self) -> (fields: &Vec<TableField>)
        ensures
            field_models(fields@) == self@.fields,
            self@.well_formed(),
    {
        proof {
            use_type_invariant(self);
        }
        &self.fields
    }

    /// The index of the column of the given name.
    pub fn field_index(&self, name: &str) -> (r: Option<usize>)
        ensures
            self@.well_formed(),
            match self@.column(name@) {
                Some(i) => r == Some(i as usize) && 0 <= i < self@.fields.len()
                    && self@.fields[i].name == name@,
                None => r is None && forall|i: int|
                    0 <= i < self@.fields.len() ==> self@.fields[i].name != name@,
            },
    {
        proof {
            use_type_invariant(self);
            lemma_column(self@.fields, name@);
        }
        let key = name.to_owned();
        let mut i: usize = self.fields.len();
        assert(self@.fields.take(i as int) =~= self@.fields);
        while i > 0
            invariant
                i <= self.fields@.len(),
                key@ == name@,
                self@.well_formed(),
                match column_position(self@.fields, name@) {
                    Some(i) => 0 <= i < self@.fields.len() && self@.fields[i].name == name@,
                    None => forall|i: int|
                        0 <= i < self@.fields.len() ==> self@.fields[i].name != name@,
                },
                column_position(self@.fields, name@) == column_position(
                    self@.fields.take(i as int),
                    name@,
                ),
            decreases i,
        {
            let ghost prefix = self@.fields.take(i as int);
            assert(prefix.drop_last() =~= self@.fields.take(i - 1));
            assert(prefix.last() == self.fields@[i - 1]@);
            if self.fields[i - 1].name == key {
                return Some(i - 1);
            }
            i = i - 1;
        }
        None
    }

    /// A counter seeded at 1 for each column that stands for the row id, keyed by the
    /// column's index.
    pub fn make_incrementer_map(&self) -> (map: HashMap<usize, Incrementer>)
        ensures
            forall|c: usize| #[trigger]
                map@.contains_key(c) <==> c < self@.fields.len() && self@.fields[c as int].autoincrement(),
            forall|c: usize| map@.contains_key(c) ==> (#[trigger] map@[c]).upcoming() == 1,
    {
        broadcast use vstd::std_specs::hash::group_hash_axioms;

        let mut map: HashMap<usize, Incrementer> = HashMap::new();
        let mut i: usize = 0;
        while i < self.fields.len()
            invariant
                i <= self.fields@.len(),
                forall|c: usize| #[trigger]
                    map@.contains_key(c) <==> c < i && field_models(
                        self.fields@,
                    )[c as int].autoincrement(),
                forall|c: usize| map@.contains_key(c) ==> (#[trigger] map@[c]).upcoming() == 1,
            decreases self.fields@.len() - i,
        {
            if self.fields[i].is_autoincrement() {
                map.insert(i, Incrementer::new(1));
            }
            i = i + 1;
        }
        map
    }
}

/// A column of an index, as a mathematical object.
pub struct IndexFieldModel {
    pub field: Seq<char>,
    pub ascending: bool,
}

/// A column of an index.
#[derive(Debug)]
pub struct IndexField {
    pub field: String,
    pub ascending: bool,
}

impl View for IndexField {
    type V = IndexFieldModel;

    open spec fn view(&self) -> IndexFieldModel {
        IndexFieldModel { field: self.field@, ascending: self.ascending }
    }
}

/// The definition of an index, as a mathematical object.
pub struct IndexModel {
    pub table: Seq<char>,
    pub fields: Seq<IndexFieldModel>,
}

/// The definition of an index: the table that it belongs to and the columns that it orders.
#[derive(Debug)]
pub struct IndexSchema {
    pub table: String,
    pub fields: Vec<IndexField>,
}

impl View for IndexSchema {
    type V = IndexModel;

    open spec fn view(&self) -> IndexModel {
        IndexModel { table: self.table@, fields: self.fields@.map_values(|f: IndexField| f@) }
    }
}

impl IndexSchema {
    /// Index definitions are not parsed: every text is refused.
    pub fn from(raw: &str) -> (r: Result<Self, Error>)
        ensures
            r == Err::<Self, Error>(Error::Schema(SchemaError::IndexDefinition)),
    {
        Err(Error::Schema(SchemaError::IndexDefinition))
    }
}

/// What a definition text defines.
#[derive(Debug)]
pub enum Schema {
    Index(IndexSchema),
    Table(TableSchema),
}

/// What a definition text defines: an index where it holds `create index`, else a table
/// where it holds `create table`, whatever the case of the letters.
pub open spec fn definition(raw: Seq<char>) -> Result<TableModel, Error> {
    if contains_ignore_case(raw, "create index"@) {
        Err(Error::Schema(SchemaError::IndexDefinition))
    } else if contains_ignore_case(raw, "create table"@) {
        table_definition(raw)
    } else {
        Err(Error::Schema(SchemaError::DefinitionNotRecognized))
    }
}

impl Schema {
    /// Parses the definition text of a table or of an index. As indexes are not parsed,
    /// what comes back is a table.
    pub fn from(raw: &str) -> (r: Result<Self, Error>)
        ensures
            match definition(raw@) {
                Ok(table) => r matches Ok(Schema::Table(t)) && t@ == table,
                Err(e) => r matches Err(f) && f == e,
            },
    {
        let chars = chars_of(raw);
        if has_ignore_case(chars.as_slice(), chars_of("create index").as_slice()) {
            Ok(Self::Index(IndexSchema::from(raw)?))
        } else if has_ignore_case(chars.as_slice(), chars_of("create table").as_slice()) {
            Ok(Self::Table(TableSchema::from(raw)?))
        } else {
            Err(Error::Schema(SchemaError::DefinitionNotRecognized))
        }
    }
}

} // verus!
