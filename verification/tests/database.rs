use sqlite_reader::common::{Index, Schema, Table};
use sqlite_reader::database::Database;
use sqlite_reader::database_header::DatabaseHeader;
use sqlite_reader::error::{Error, FormatError, QueryExecutionError, SchemaError};
use sqlite_reader::query::{Query, QueryCondition, QueryConditionOp, QueryField};
use sqlite_reader::query_executor::{QueryExecutor, QueryOutput, QueryVisitor};
use sqlite_reader::reader::Reader;
use sqlite_reader::record::{line_of, Record};
use sqlite_reader::schema::{IndexField, IndexSchema, TableSchema};
use sqlite_reader::varint::encode_varint;

const PAGE: usize = 512;

enum Stored {
    Null,
    Int(i64),
    Text(&'static str),
    Blob(&'static [u8]),
    Float(f64),
}

fn record(values: &[Stored]) -> Vec<u8> {
    let mut tags = Vec::new();
    let mut body = Vec::new();
    for value in values {
        match value {
            Stored::Null => tags.extend(encode_varint(0)),
            Stored::Int(n) => {
                tags.extend(encode_varint(6));
                body.extend(n.to_be_bytes());
            }
            Stored::Text(text) => {
                tags.extend(encode_varint(13 + 2 * text.len() as i64));
                body.extend(text.as_bytes());
            }
            Stored::Blob(bytes) => {
                tags.extend(encode_varint(12 + 2 * bytes.len() as i64));
                body.extend(*bytes);
            }
            Stored::Float(x) => {
                tags.extend(encode_varint(7));
                body.extend(x.to_be_bytes());
            }
        }
    }
    let mut out = encode_varint(tags.len() as i64 + 1);
    out.extend(tags);
    out.extend(body);
    out
}

fn table_leaf_cell(rowid: i64, payload: &[u8]) -> Vec<u8> {
    let mut cell = encode_varint(payload.len() as i64);
    cell.extend(encode_varint(rowid));
    cell.extend(payload);
    cell
}

fn index_leaf_cell(payload: &[u8]) -> Vec<u8> {
    let mut cell = encode_varint(payload.len() as i64);
    cell.extend(payload);
    cell
}

fn table_interior_cell(child: u32, key: i64) -> Vec<u8> {
    let mut cell = child.to_be_bytes().to_vec();
    cell.extend(encode_varint(key));
    cell
}

fn index_interior_cell(child: u32, payload: &[u8]) -> Vec<u8> {
    let mut cell = child.to_be_bytes().to_vec();
    cell.extend(encode_varint(payload.len() as i64));
    cell.extend(payload);
    cell
}

fn page(kind: u8, rightmost: Option<u32>, cells: &[Vec<u8>], header_at: usize) -> Vec<u8> {
    let mut bytes = vec![0u8; PAGE];
    let mut end = PAGE;
    let mut offsets = Vec::new();
    for cell in cells {
        end -= cell.len();
        bytes[end..end + cell.len()].copy_from_slice(cell);
        offsets.push(end as u16);
    }
    bytes[header_at] = kind;
    bytes[header_at + 3..header_at + 5].copy_from_slice(&(cells.len() as u16).to_be_bytes());
    bytes[header_at + 5..header_at + 7].copy_from_slice(&(end as u16).to_be_bytes());
    let mut at = header_at + 8;
    if let Some(pointer) = rightmost {
        bytes[at..at + 4].copy_from_slice(&pointer.to_be_bytes());
        at += 4;
    }
    for offset in offsets {
        bytes[at..at + 2].copy_from_slice(&offset.to_be_bytes());
        at += 2;
    }
    assert!(at <= end);
    bytes
}

fn first_page(entries: &[(&'static str, &'static str, &'static str, i64, &'static str)]) -> Vec<u8> {
    let cells: Vec<Vec<u8>> = entries
        .iter()
        .enumerate()
        .map(|(i, (kind, name, table, root, sql))| {
            table_leaf_cell(
                i as i64 + 1,
                &record(&[
                    Stored::Text(kind),
                    Stored::Text(name),
                    Stored::Text(table),
                    Stored::Int(*root),
                    Stored::Text(sql),
                ]),
            )
        })
        .collect();
    let mut bytes = page(13, None, &cells, 100);
    bytes[..16].copy_from_slice(b"SQLite format 3\0");
    bytes[16..18].copy_from_slice(&(PAGE as u16).to_be_bytes());
    bytes[44..48].copy_from_slice(&4i32.to_be_bytes());
    bytes
}

const APPLES: &str = "CREATE TABLE apples(id integer primary key autoincrement, name text)";

fn apple(name: &'static str) -> Vec<u8> {
    table_leaf_cell(0, &record(&[Stored::Null, Stored::Text(name)]))
}

fn apples_file() -> Vec<u8> {
    let mut file = first_page(&[("table", "apples", "apples", 2, APPLES)]);
    file.extend(page(13, None, &[apple("fuji"), apple("gala")], 0));
    file
}

fn orchard_file() -> Vec<u8> {
    let mut file = first_page(&[(
        "table",
        "apples",
        "apples",
        2,
        "CREATE TABLE apples(id integer primary key autoincrement, name text, color text)",
    )]);
    let row = |name, color| {
        table_leaf_cell(0, &record(&[Stored::Null, Stored::Text(name), Stored::Text(color)]))
    };
    file.extend(page(5, Some(5), &[table_interior_cell(3, 2), table_interior_cell(4, 4)], 0));
    file.extend(page(13, None, &[row("fuji", "red"), row("gala", "red")], 0));
    file.extend(page(13, None, &[row("granny", "green"), row("fuji", "green")], 0));
    file.extend(page(13, None, &[row("fuji", "red")], 0));
    file
}

fn run(file: &[u8], statement: &str) -> Result<QueryOutput, Error> {
    let reader = Reader::new(file);
    let db = Database::from(&reader)?;
    let query = Query::parse(statement)?;
    QueryExecutor::execute_query(&query, &db, &reader)
}

fn rows(file: &[u8], statement: &str) -> Vec<Vec<Record>> {
    match run(file, statement) {
        Ok(QueryOutput::Rows(rows)) => rows,
        other => panic!("expected rows, got {:?}", other),
    }
}

fn count(file: &[u8], statement: &str) -> usize {
    match run(file, statement) {
        Ok(QueryOutput::Count(n)) => n,
        other => panic!("expected a count, got {:?}", other),
    }
}

fn text(value: &str) -> Record {
    Record::Text(value.to_string())
}

fn line(row: &Vec<Record>) -> String {
    line_of(row).unwrap()
}

#[test]
fn catalog_lists_the_tables() {
    let file = apples_file();
    let db = Database::from(&Reader::new(&file[..])).unwrap();
    assert_eq!(db.header, DatabaseHeader { page_size: PAGE, schema_format: 4 });
    assert_eq!(db.table_names(), vec!["apples".to_string()]);
    let table = db.table("apples").unwrap();
    assert_eq!(table.root_page, 2);
    assert_eq!(table.sql_schema.fields().len(), 2);
    assert!(db.table("pears").is_none());
    assert!(db.index_on("apples", "id").is_none());
}

#[test]
fn select_column_with_condition_on_row_id() {
    let file = apples_file();
    let found = rows(&file, "SELECT name FROM apples WHERE id = 2");
    assert_eq!(found, vec![vec![text("gala")]]);
    assert_eq!(line(&found[0]), "gala");
}

#[test]
fn count_all_rows() {
    assert_eq!(count(&apples_file(), "SELECT COUNT(*) FROM apples"), 2);
}

#[test]
fn row_ids_are_filled_in_in_stored_order() {
    let file = apples_file();
    assert_eq!(
        rows(&file, "SELECT id, name FROM apples"),
        vec![vec![Record::Integer(1), text("fuji")], vec![Record::Integer(2), text("gala")]]
    );
    let orchard = orchard_file();
    let ids = rows(&orchard, "SELECT id FROM apples");
    assert_eq!(ids, (1..=5).map(|n| vec![Record::Integer(n)]).collect::<Vec<_>>());
}

#[test]
fn stored_row_ids_are_kept() {
    let mut file = first_page(&[("table", "apples", "apples", 2, APPLES)]);
    let row = |id, name| table_leaf_cell(0, &record(&[id, Stored::Text(name)]));
    file.extend(page(
        13,
        None,
        &[row(Stored::Int(10), "a"), row(Stored::Null, "b"), row(Stored::Int(7), "c"), row(Stored::Null, "d")],
        0,
    ));
    assert_eq!(
        rows(&file, "SELECT id FROM apples"),
        vec![
            vec![Record::Integer(10)],
            vec![Record::Integer(1)],
            vec![Record::Integer(7)],
            vec![Record::Integer(2)]
        ]
    );
    assert_eq!(rows(&file, "SELECT name FROM apples WHERE id = 2"), vec![vec![text("d")]]);
}

#[test]
fn count_is_the_same_over_one_leaf_and_over_several_levels() {
    let orchard = orchard_file();
    assert_eq!(count(&orchard, "SELECT COUNT(*) FROM apples"), 5);
    let mut deep = first_page(&[("table", "apples", "apples", 2, APPLES)]);
    deep.extend(page(5, Some(4), &[table_interior_cell(3, 3)], 0));
    deep.extend(page(5, Some(6), &[table_interior_cell(5, 2)], 0));
    deep.extend(page(5, Some(8), &[table_interior_cell(7, 5)], 0));
    deep.extend(page(13, None, &[apple("a"), apple("b")], 0));
    deep.extend(page(13, None, &[apple("c")], 0));
    deep.extend(page(13, None, &[apple("d"), apple("e")], 0));
    deep.extend(page(13, None, &[], 0));
    assert_eq!(count(&deep, "SELECT COUNT(*) FROM apples"), 5);
    assert_eq!(
        rows(&deep, "SELECT name, id FROM apples"),
        vec![
            vec![text("a"), Record::Integer(1)],
            vec![text("b"), Record::Integer(2)],
            vec![text("c"), Record::Integer(3)],
            vec![text("d"), Record::Integer(4)],
            vec![text("e"), Record::Integer(5)]
        ]
    );
    let mut flat = first_page(&[("table", "apples", "apples", 2, APPLES)]);
    flat.extend(page(13, None, &[apple("a"), apple("b"), apple("c"), apple("d"), apple("e")], 0));
    assert_eq!(count(&flat, "SELECT COUNT(*) FROM apples"), 5);
    assert_eq!(rows(&flat, "SELECT name, id FROM apples"), rows(&deep, "SELECT name, id FROM apples"));
}

#[test]
fn two_conditions_select_the_rows_that_meet_both() {
    let orchard = orchard_file();
    let all = rows(&orchard, "SELECT id, name, color FROM apples");
    assert_eq!(all.len(), 5);
    let both = rows(&orchard, "SELECT id, name, color FROM apples WHERE name = 'fuji' AND color = 'red'");
    let by_hand: Vec<Vec<Record>> = all
        .iter()
        .filter(|row| row[1] == text("fuji") && row[2] == text("red"))
        .cloned()
        .collect();
    assert_eq!(both, by_hand);
    assert_eq!(
        both,
        vec![
            vec![Record::Integer(1), text("fuji"), text("red")],
            vec![Record::Integer(5), text("fuji"), text("red")]
        ]
    );
    assert_eq!(count(&orchard, "SELECT COUNT(*) FROM apples WHERE name = 'fuji' AND color = 'red'"), 2);
    assert_eq!(count(&orchard, "SELECT COUNT(*) FROM apples WHERE color = 'green' AND name = 'gala'"), 0);
    assert_eq!(count(&orchard, "SELECT COUNT(*) FROM apples WHERE color = 'green'"), 2);
    assert_eq!(
        rows(&orchard, "SELECT name FROM apples WHERE color = 'green' AND id = 4"),
        vec![vec![text("fuji")]]
    );
}

#[test]
fn projection_keeps_the_asked_order() {
    let file = apples_file();
    let found = rows(&file, "SELECT name, id, name FROM apples WHERE name = 'fuji'");
    assert_eq!(found, vec![vec![text("fuji"), Record::Integer(1), text("fuji")]]);
    assert_eq!(line(&found[0]), "fuji|1|fuji");
}

#[test]
fn unknown_names_are_errors() {
    let file = apples_file();
    assert_eq!(
        run(&file, "SELECT name FROM pears").unwrap_err(),
        Error::QueryExecution(QueryExecutionError::UnknownTable)
    );
    assert_eq!(
        run(&file, "SELECT colour FROM apples").unwrap_err(),
        Error::QueryExecution(QueryExecutionError::UnknownColumn)
    );
    assert_eq!(
        run(&file, "SELECT name FROM apples WHERE colour = 'red'").unwrap_err(),
        Error::QueryExecution(QueryExecutionError::UnknownColumn)
    );
    assert_eq!(
        run(&file, "SELECT COUNT(*) FROM pears WHERE colour = 'red'").unwrap_err(),
        Error::QueryExecution(QueryExecutionError::UnknownTable)
    );
}

#[test]
fn comparing_a_blob_or_a_float_is_not_implemented() {
    let mut file = first_page(&[("table", "t", "t", 2, "CREATE TABLE t(a text, b text)")]);
    let row = |a, b| table_leaf_cell(1, &record(&[a, b]));
    file.extend(page(
        13,
        None,
        &[row(Stored::Text("x"), Stored::Blob(b"zz")), row(Stored::Float(2.5), Stored::Text("y"))],
        0,
    ));
    let not_implemented = Error::QueryExecution(QueryExecutionError::ComparisonNotImplemented);
    assert_eq!(run(&file, "SELECT a FROM t WHERE b = 'zz'").unwrap_err(), not_implemented);
    assert_eq!(run(&file, "SELECT a FROM t WHERE a = 'x'").unwrap_err(), not_implemented);
    assert_eq!(run(&file, "SELECT a FROM t WHERE a = 'q' AND b = 'zz'").unwrap_err(), not_implemented);
    assert_eq!(count(&file, "SELECT COUNT(*) FROM t"), 2);
    let found = rows(&file, "SELECT b, a FROM t");
    assert_eq!(found[0], vec![Record::Blob(b"zz".to_vec()), text("x")]);
    assert_eq!(found[1], vec![text("y"), Record::Float64(2.5f64.to_bits())]);
}

#[test]
fn a_condition_that_fails_first_hides_what_follows() {
    let mut file = first_page(&[("table", "t", "t", 2, "CREATE TABLE t(a text, b text)")]);
    file.extend(page(
        13,
        None,
        &[table_leaf_cell(1, &record(&[Stored::Text("x"), Stored::Blob(b"zz")]))],
        0,
    ));
    assert_eq!(count(&file, "SELECT COUNT(*) FROM t WHERE a = 'other' AND b = 'zz'"), 0);
}

#[test]
fn malformed_trees_are_rejected() {
    let schema = [("table", "apples", "apples", 2, APPLES)];
    let mut beyond = first_page(&schema);
    beyond.extend(page(5, Some(9), &[], 0));
    assert_eq!(
        run(&beyond, "SELECT COUNT(*) FROM apples").unwrap_err(),
        Error::Format(FormatError::BufferUnderrun)
    );
    let mut zero = first_page(&schema);
    zero.extend(page(5, Some(0), &[], 0));
    assert_eq!(
        run(&zero, "SELECT COUNT(*) FROM apples").unwrap_err(),
        Error::Format(FormatError::InvalidPageNumber)
    );
    let mut cycle = first_page(&schema);
    cycle.extend(page(5, Some(2), &[table_interior_cell(2, 1)], 0));
    assert_eq!(
        run(&cycle, "SELECT COUNT(*) FROM apples").unwrap_err(),
        Error::Format(FormatError::TreeExceedsFile)
    );
    let mut wrong_kind = first_page(&schema);
    wrong_kind.extend(page(10, None, &[], 0));
    assert_eq!(
        run(&wrong_kind, "SELECT COUNT(*) FROM apples").unwrap_err(),
        Error::Format(FormatError::UnexpectedPageInTree)
    );
    let mut no_page = first_page(&schema);
    no_page.extend(vec![0x53u8; PAGE]);
    assert_eq!(
        run(&no_page, "SELECT COUNT(*) FROM apples").unwrap_err(),
        Error::Format(FormatError::UnexpectedPageKind)
    );
    let missing = first_page(&[("table", "apples", "apples", 3, APPLES)]);
    assert_eq!(
        run(&missing, "SELECT COUNT(*) FROM apples").unwrap_err(),
        Error::Format(FormatError::BufferUnderrun)
    );
}

#[test]
fn catalog_that_cannot_be_built() {
    let short = vec![0u8; 50];
    assert_eq!(
        Database::from(&Reader::new(&short[..])).unwrap_err(),
        Error::Format(FormatError::BufferUnderrun)
    );
    let mut interior = first_page(&[]);
    interior[100] = 5;
    assert_eq!(
        Database::from(&Reader::new(&interior[..])).unwrap_err(),
        Error::Format(FormatError::UnexpectedPageInTree)
    );
    let index = first_page(&[
        ("table", "apples", "apples", 2, APPLES),
        ("index", "by_name", "apples", 3, "CREATE INDEX by_name ON apples (name)"),
    ]);
    assert_eq!(
        Database::from(&Reader::new(&index[..])).unwrap_err(),
        Error::Schema(SchemaError::IndexDefinition)
    );
    let view = first_page(&[("view", "v", "v", 0, "CREATE VIEW v AS SELECT 1")]);
    assert_eq!(
        Database::from(&Reader::new(&view[..])).unwrap_err(),
        Error::Schema(SchemaError::UnsupportedEntryKind)
    );
    let bad_type = first_page(&[("table", "t", "t", 2, "CREATE TABLE t(a blob)")]);
    assert_eq!(
        Database::from(&Reader::new(&bad_type[..])).unwrap_err(),
        Error::Schema(SchemaError::UnsupportedColumnType)
    );
    let mut bad_size = first_page(&[]);
    bad_size[16] = 0;
    bad_size[17] = 3;
    assert_eq!(
        Database::from(&Reader::new(&bad_size[..])).unwrap_err(),
        Error::Format(FormatError::InvalidPageSize)
    );
    let empty = first_page(&[]);
    let db = Database::from(&Reader::new(&empty[..])).unwrap();
    assert!(db.entries.is_empty());
    assert!(db.table_names().is_empty());
}

#[test]
fn schema_row_of_the_wrong_kinds() {
    let cell = table_leaf_cell(
        1,
        &record(&[
            Stored::Text("table"),
            Stored::Text("t"),
            Stored::Text("t"),
            Stored::Text("two"),
            Stored::Text("CREATE TABLE t(a text)"),
        ]),
    );
    let mut file = page(13, None, &[cell], 100);
    file[16..18].copy_from_slice(&(PAGE as u16).to_be_bytes());
    assert_eq!(
        Database::from(&Reader::new(&file[..])).unwrap_err(),
        Error::Format(FormatError::MalformedSchemaRow)
    );
}

#[test]
fn the_last_table_of_a_name_is_found() {
    let file = first_page(&[
        ("table", "t", "t", 2, "CREATE TABLE t(a text)"),
        ("table", "u", "u", 3, "CREATE TABLE u(a text)"),
        ("table", "t", "t", 4, "CREATE TABLE t(a text, b text)"),
    ]);
    let db = Database::from(&Reader::new(&file[..])).unwrap();
    assert_eq!(db.table("t").unwrap().root_page, 4);
    assert_eq!(db.table("u").unwrap().root_page, 3);
    assert_eq!(db.table_names(), vec!["t".to_string(), "u".to_string(), "t".to_string()]);
}

fn indexed() -> (Vec<u8>, Database) {
    let mut file = apples_file();
    let entry = |name, rowid| index_leaf_cell(&record(&[Stored::Text(name), Stored::Int(rowid)]));
    file.extend(page(2, Some(5), &[index_interior_cell(4, &record(&[Stored::Text("fuji"), Stored::Int(1)]))], 0));
    file.extend(page(10, None, &[entry("fuji", 1)], 0));
    file.extend(page(10, None, &[entry("gala", 2), entry("pink", 3)], 0));
    let mut db = Database::from(&Reader::new(&file[..])).unwrap();
    db.entries.push(Schema::Index(Index::new(
        "apples".to_string(),
        "by_name".to_string(),
        3,
        IndexSchema {
            table: "apples".to_string(),
            fields: vec![IndexField { field: "name".to_string(), ascending: true }],
        },
    )));
    (file, db)
}

#[test]
fn one_condition_on_an_indexed_column_walks_the_index() {
    let (file, db) = indexed();
    let reader = Reader::new(&file[..]);
    assert_eq!(db.index_on("apples", "name").unwrap().index_name, "by_name");
    assert!(db.index_on("apples", "id").is_none());
    assert!(db.index_on("pears", "name").is_none());
    let query = Query::parse("SELECT name FROM apples WHERE name = 'gala'").unwrap();
    match QueryExecutor::execute_query(&query, &db, &reader) {
        Ok(QueryOutput::IndexEntries(entries)) => assert_eq!(
            entries,
            vec![
                vec![text("fuji"), Record::Integer(1)],
                vec![text("gala"), Record::Integer(2)],
                vec![text("pink"), Record::Integer(3)]
            ]
        ),
        other => panic!("expected index entries, got {:?}", other),
    }
    let by_id = Query::parse("SELECT name FROM apples WHERE id = 2").unwrap();
    assert!(matches!(QueryExecutor::execute_query(&by_id, &db, &reader), Ok(QueryOutput::Rows(_))));
    let two = Query::parse("SELECT name FROM apples WHERE name = 'gala' AND id = 2").unwrap();
    match QueryExecutor::execute_query(&two, &db, &reader) {
        Ok(QueryOutput::Rows(found)) => assert_eq!(found, vec![vec![text("gala")]]),
        other => panic!("expected rows, got {:?}", other),
    }
    match QueryExecutor::full_table_scan(&query, &db, &reader) {
        Ok(QueryOutput::Rows(found)) => assert_eq!(found, vec![vec![text("gala")]]),
        other => panic!("expected rows, got {:?}", other),
    }
}

#[test]
fn index_search_needs_the_table() {
    let (file, db) = indexed();
    let reader = Reader::new(&file[..]);
    let index = Index::new(
        "pears".to_string(),
        "by_name".to_string(),
        3,
        IndexSchema { table: "pears".to_string(), fields: vec![] },
    );
    let query = Query {
        fields: QueryField::Count,
        source: "pears".to_string(),
        conditions: vec![QueryCondition {
            lhs: "name".to_string(),
            op: QueryConditionOp::Eq,
            rhs: text("x"),
        }],
    };
    assert_eq!(
        QueryExecutor::index_search(&query, &db, &reader, &index).unwrap_err(),
        Error::QueryExecution(QueryExecutionError::UnknownTable)
    );
}

#[test]
fn a_table_page_in_an_index_is_rejected() {
    let (file, db) = indexed();
    let reader = Reader::new(&file[..]);
    let index = Index::new(
        "apples".to_string(),
        "wrong".to_string(),
        2,
        IndexSchema {
            table: "apples".to_string(),
            fields: vec![IndexField { field: "name".to_string(), ascending: true }],
        },
    );
    let query = Query::parse("SELECT name FROM apples WHERE name = 'gala'").unwrap();
    assert_eq!(
        QueryExecutor::index_search(&query, &db, &reader, &index).unwrap_err(),
        Error::Format(FormatError::UnexpectedPageInTree)
    );
}

#[test]
fn hand_made_catalog() {
    let mut file = vec![0u8; PAGE];
    file.extend(page(13, None, &[apple("fuji")], 0));
    let db = Database {
        header: DatabaseHeader { page_size: PAGE, schema_format: 4 },
        entries: vec![Schema::Table(Table::new(
            "apples".to_string(),
            2,
            TableSchema::from(APPLES).unwrap(),
        ))],
    };
    let reader = Reader::new(&file[..]);
    let query = Query::parse("SELECT name, id FROM apples").unwrap();
    match QueryExecutor::execute_query(&query, &db, &reader) {
        Ok(QueryOutput::Rows(found)) => {
            assert_eq!(found, vec![vec![text("fuji"), Record::Integer(1)]])
        }
        other => panic!("expected rows, got {:?}", other),
    }
}

#[test]
fn apply_incrementer_fills_missing_row_ids() {
    let schema = TableSchema::from(APPLES).unwrap();
    let mut counters = schema.make_incrementer_map();
    let mut first = vec![Record::Null, text("a")];
    QueryExecutor::apply_incrementer(&mut first, &mut counters);
    assert_eq!(first, vec![Record::Integer(1), text("a")]);
    let mut stored = vec![Record::Integer(9), Record::Null];
    QueryExecutor::apply_incrementer(&mut stored, &mut counters);
    assert_eq!(stored, vec![Record::Integer(9), Record::Null]);
    let mut second = vec![Record::Null, text("b")];
    QueryExecutor::apply_incrementer(&mut second, &mut counters);
    assert_eq!(second, vec![Record::Integer(2), text("b")]);
    let mut short: Vec<Record> = vec![];
    QueryExecutor::apply_incrementer(&mut short, &mut counters);
    assert!(short.is_empty());
}

fn sized(bytes: Vec<u8>, size: usize) -> Vec<u8> {
    let mut out = vec![0u8; size];
    let moved = size - PAGE;
    let header_at = if bytes[..16] == *b"SQLite format 3\0" { 100 } else { 0 };
    let cells = u16::from_be_bytes([bytes[header_at + 3], bytes[header_at + 4]]) as usize;
    let first = header_at + if bytes[header_at] == 13 || bytes[header_at] == 10 { 8 } else { 12 };
    out[..first].copy_from_slice(&bytes[..first]);
    let content = u16::from_be_bytes([bytes[header_at + 5], bytes[header_at + 6]]) as usize;
    out[content + moved..].copy_from_slice(&bytes[content..]);
    out[header_at + 5..header_at + 7].copy_from_slice(&((content + moved) as u16).to_be_bytes());
    for i in 0..cells {
        let at = first + 2 * i;
        let offset = u16::from_be_bytes([bytes[at], bytes[at + 1]]) as usize;
        out[at..at + 2].copy_from_slice(&((offset + moved) as u16).to_be_bytes());
    }
    out
}

#[test]
fn two_pages_of_4096_bytes() {
    let small = apples_file();
    let mut file = sized(small[..PAGE].to_vec(), 4096);
    file[16..18].copy_from_slice(&4096u16.to_be_bytes());
    file.extend(sized(small[PAGE..].to_vec(), 4096));
    assert_eq!(file.len(), 8192);
    let reader = Reader::new(&file[..]);
    let db = Database::from(&reader).unwrap();
    assert_eq!(db.header.page_size, 4096);
    assert_eq!(db.table_names_sorted().join(" "), "apples");
    let found = rows(&file, "SELECT name FROM apples WHERE id = 2");
    assert_eq!(found.iter().map(line).collect::<Vec<_>>(), vec!["gala".to_string()]);
    assert_eq!(count(&file, "SELECT COUNT(*) FROM apples"), 2);
}

#[test]
fn conditions_are_tried_in_order() {
    let conditions = vec![
        QueryCondition { lhs: "a".to_string(), op: QueryConditionOp::Eq, rhs: text("x") },
        QueryCondition { lhs: "b".to_string(), op: QueryConditionOp::Eq, rhs: Record::Integer(2) },
    ];
    let columns = vec![1usize, 0];
    let meets = |row: Vec<Record>| QueryExecutor::meets_conditions(&conditions, &columns, &row);
    assert_eq!(meets(vec![Record::Integer(2), text("x")]), Ok(true));
    assert_eq!(meets(vec![Record::Integer(3), text("x")]), Ok(false));
    assert_eq!(meets(vec![Record::Integer(2), text("y")]), Ok(false));
    assert_eq!(meets(vec![Record::Blob(vec![]), text("y")]), Ok(false));
    assert_eq!(
        meets(vec![Record::Blob(vec![]), text("x")]),
        Err(Error::QueryExecution(QueryExecutionError::ComparisonNotImplemented))
    );
    assert_eq!(QueryExecutor::meets_conditions(&vec![], &vec![], &vec![]), Ok(true));
}

#[test]
fn visitor_gathers_the_answer() {
    let row = vec![Record::Integer(1), text("fuji"), text("red")];
    let mut counter = QueryVisitor::Count(0);
    counter.signal_on_match(&row);
    counter.signal_on_match(&row);
    assert!(matches!(counter.signal_post_query(), QueryOutput::Count(2)));
    let mut fields = QueryVisitor::Fields(vec![2, 0], vec![]);
    fields.signal_on_match(&row);
    match fields.signal_post_query() {
        QueryOutput::Rows(rows) => assert_eq!(rows, vec![vec![text("red"), Record::Integer(1)]]),
        other => panic!("expected rows, got {:?}", other),
    }
    let mut entries = QueryVisitor::Entries(vec![]);
    entries.signal_on_match(&row);
    match entries.signal_post_query() {
        QueryOutput::IndexEntries(rows) => assert_eq!(rows, vec![row.clone()]),
        other => panic!("expected entries, got {:?}", other),
    }
}

#[test]
fn schema_rows_make_catalog_entries() {
    let row = |kind: &str, root: Record, sql: Record| {
        vec![text(kind), text("apples"), text("apples"), root, sql]
    };
    match Schema::from_row(&row("table", Record::Integer(2), text(APPLES))) {
        Ok(Schema::Table(table)) => {
            assert_eq!(table.table_name, "apples");
            assert_eq!(table.root_page, 2);
            assert_eq!(table.sql_schema.fields().len(), 2);
        }
        other => panic!("expected a table, got {:?}", other),
    }
    match Schema::from_row(&row("table", Record::One, text(APPLES))) {
        Ok(Schema::Table(table)) => assert_eq!(table.root_page, 1),
        other => panic!("expected a table, got {:?}", other),
    }
    let malformed = Error::Format(FormatError::MalformedSchemaRow);
    assert_eq!(Schema::from_row(&row("table", Record::Integer(-1), text(APPLES))).unwrap_err(), malformed);
    assert_eq!(
        Schema::from_row(&row("table", Record::Integer(1 << 32), text(APPLES))).unwrap_err(),
        malformed
    );
    assert_eq!(Schema::from_row(&row("table", Record::Null, text(APPLES))).unwrap_err(), malformed);
    assert_eq!(Schema::from_row(&row("table", Record::Integer(2), Record::Null)).unwrap_err(), malformed);
    assert_eq!(Schema::from_row(&row("index", Record::Integer(2), Record::Null)).unwrap_err(), malformed);
    assert_eq!(Schema::from_row(&vec![text("table")]).unwrap_err(), malformed);
    assert_eq!(
        Schema::from_row(&vec![Record::Null, text("a"), text("a"), Record::Zero, text(APPLES)])
            .unwrap_err(),
        malformed
    );
    assert_eq!(
        Schema::from_row(&row("index", Record::Integer(3), text("CREATE INDEX i ON apples (name)")))
            .unwrap_err(),
        Error::Schema(SchemaError::IndexDefinition)
    );
    assert_eq!(
        Schema::from_row(&row("trigger", Record::Zero, text("CREATE TRIGGER t"))).unwrap_err(),
        Error::Schema(SchemaError::UnsupportedEntryKind)
    );
    assert_eq!(
        Schema::from_row(&row("Table", Record::Integer(2), text(APPLES))).unwrap_err(),
        Error::Schema(SchemaError::UnsupportedEntryKind)
    );
}

#[test]
fn tables_are_listed_in_alphabetical_order() {
    let file = first_page(&[
        ("table", "pears", "pears", 2, "CREATE TABLE pears(a text)"),
        ("table", "apples", "apples", 3, "CREATE TABLE apples(a text)"),
        ("table", "plums", "plums", 4, "CREATE TABLE plums(a text)"),
        ("table", "Quinces", "Quinces", 5, "CREATE TABLE Quinces(a text)"),
        ("table", "apple", "apple", 6, "CREATE TABLE apple(a text)"),
    ]);
    let db = Database::from(&Reader::new(&file[..])).unwrap();
    assert_eq!(db.table_names_sorted().join(" "), "Quinces apple apples pears plums");
    let mut expected = db.table_names();
    expected.sort();
    assert_eq!(db.table_names_sorted(), expected);
}
