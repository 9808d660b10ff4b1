//! Answering a statement from the bytes of the file.

use std::collections::HashMap;
use std::collections::VecDeque;
use vstd::prelude::*;
use crate::btree_page_header::BTreePageHeader;
use crate::cell::{
    IndexBTreeInteriorCell, IndexBTreeLeafCell, TableBTreeInteriorCell, TableBTreeLeafCell,
};
use crate::common::{BTreePageType, CatalogEntry, Incrementer, Index, IndexEntry, Table};
use crate::database::{
    Database, DatabaseModel, index_position, lemma_index_position, table_position,
};
use crate::error::{Error, FormatError, QueryExecutionError};
use crate::query::{
    ConditionModel, Projection, Query, QueryCondition, QueryField, QueryModel, condition_models,
};
use crate::reader::Reader;
use crate::record::{Record, Value, decode_record, values_of};
use crate::scan::{
    Filter, Plan, Progress, Source, TreeKind, absorb_cells, absorb_row, child_at, children_of,
    lemma_absorb_cells_failed, lemma_absorb_cells_next, lemma_nulls_in_bound, nulls_in,
    page_start_in, row_at, row_matches, scan, scan_from, substitute,
};
use crate::schema::{IndexModel, TableModel, TableSchema};
use crate::sequence::{lemma_try_map_failed, lemma_try_map_next, try_map};

verus! {

/// The answer to a statement, as a mathematical object.
pub enum Answer {
    /// The number of the rows that meet the conditions.
    Count(nat),
    /// The asked-for columns of the rows that meet the conditions, in stored order.
    Rows(Seq<Seq<Value>>),
    /// The entries of an index, as they are stored: the columns of the index and the
    /// row id of the row that the entry stands for.
    IndexEntries(Seq<Seq<Value>>),
}

/// The rows of an answer, as mathematical objects.
pub open spec fn rows_of(rows: Seq<Vec<Record>>) -> Seq<Seq<Value>> {
    rows.map_values(|r: Vec<Record>| values_of(r@))
}

/// The answer to a statement.
#[derive(Debug)]
pub enum QueryOutput {
    Count(usize),
    Rows(Vec<Vec<Record>>),
    IndexEntries(Vec<Vec<Record>>),
}

impl View for QueryOutput {
    type V = Answer;

    open spec fn view(&self) -> Answer {
        match self {
            QueryOutput::Count(n) => Answer::Count(*n as nat),
            QueryOutput::Rows(rows) => Answer::Rows(rows_of(rows@)),
            QueryOutput::IndexEntries(rows) => Answer::IndexEntries(rows_of(rows@)),
        }
    }
}

/// What is kept of each selected row.
pub enum Shape {
    /// Nothing: the rows are counted.
    Count,
    /// The columns of the given indices, in the given order.
    Fields(Seq<usize>),
    /// The whole row.
    Entries,
}

/// The values of `row` in the columns of the given indices.
pub open spec fn project(row: Seq<Value>, columns: Seq<usize>) -> Seq<Value> {
    Seq::new(columns.len(), |k: int| row[columns[k] as int])
}

impl Shape {
    /// The answer that the selected rows make.
    pub open spec fn answer(&self, selected: Seq<Seq<Value>>) -> Answer {
        match self {
            Shape::Count => Answer::Count(selected.len()),
            Shape::Fields(columns) => Answer::Rows(
                selected.map_values(|row: Seq<Value>| project(row, *columns)),
            ),
            Shape::Entries => Answer::IndexEntries(selected),
        }
    }

    /// Every column that is kept is one of the first `width`.
    pub open spec fn fits(&self, width: nat) -> bool {
        self matches Shape::Fields(columns) ==> forall|k: int|
            0 <= k < columns.len() ==> #[trigger] columns[k] < width
    }
}

/// What gathers the answer while the rows are met.
#[derive(Debug)]
pub enum QueryVisitor {
    Count(usize),
    Fields(Vec<usize>, Vec<Vec<Record>>),
    Entries(Vec<Vec<Record>>),
}

impl QueryVisitor {
    /// What is kept of each selected row.
    pub open spec fn shape(&self) -> Shape {
        match self {
            QueryVisitor::Count(_) => Shape::Count,
            QueryVisitor::Fields(columns, _) => Shape::Fields(columns@),
            QueryVisitor::Entries(_) => Shape::Entries,
        }
    }

    /// The answer that has been gathered so far.
    pub open spec fn gathered(&self) -> Answer {
        match self {
            QueryVisitor::Count(n) => Answer::Count(*n as nat),
            QueryVisitor::Fields(_, rows) => Answer::Rows(rows_of(rows@)),
            QueryVisitor::Entries(rows) => Answer::IndexEntries(rows_of(rows@)),
        }
    }

    /// Whether one more row can be counted.
    pub open spec fn has_room(&self) -> bool {
        self matches QueryVisitor::Count(n) ==> n < usize::MAX
    }

    /// Takes note of a row that meets the conditions.
    pub fn signal_on_match(&mut self, row: &Vec<Record>)
        requires
            old(self).shape().fits(row@.len()),
            old(self).has_room(),
        ensures
            final(self).shape() == old(self).shape(),
            forall|selected: Seq<Seq<Value>>|
                old(self).gathered() == #[trigger] old(self).shape().answer(selected)
                    ==> final(self).gathered() == old(self).shape().answer(
                    selected.push(values_of(row@)),
                ),
    {
        let ghost shape = self.shape();
        let ghost values = values_of(row@);
        match self {
            QueryVisitor::Count(n) => {
                *n = *n + 1;
            },
            QueryVisitor::Fields(columns, rows) => {
                let ghost before = rows_of(rows@);
                let mut picked: Vec<Record> = Vec::new();
                let mut k: usize = 0;
                while k < columns.len()
                    invariant
                        k <= columns@.len(),
                        picked@.len() == k,
                        values == values_of(row@),
                        forall|j: int| 0 <= j < columns@.len() ==> #[trigger] columns@[j] < row@.len(),
                        forall|j: int|
                            0 <= j < k ==> (#[trigger] picked@[j])@ == values[columns@[j] as int],
                    decreases columns@.len() - k,
                {
                    picked.push(row[columns[k]].clone());
                    k = k + 1;
                }
                assert(values_of(picked@) =~= project(values, columns@));
                rows.push(picked);
                assert(rows_of(rows@) =~= before.push(project(values, columns@)));
                assert forall|selected: Seq<Seq<Value>>|
                    Answer::Rows(before) == #[trigger] shape.answer(selected) implies Answer::Rows(
                    rows_of(rows@),
                ) == shape.answer(selected.push(values)) by {
                    assert(selected.push(values).map_values(
                        |row: Seq<Value>| project(row, columns@),
                    ) =~= selected.map_values(|row: Seq<Value>| project(row, columns@)).push(
                        project(values, columns@),
                    ));
                }
            },
            QueryVisitor::Entries(rows) => {
                let ghost before = rows_of(rows@);
                let mut copy: Vec<Record> = Vec::new();
                let mut k: usize = 0;
                while k < row.len()
                    invariant
                        k <= row@.len(),
                        copy@.len() == k,
                        forall|j: int| 0 <= j < k ==> (#[trigger] copy@[j])@ == row@[j]@,
                    decreases row@.len() - k,
                {
                    copy.push(row[k].clone());
                    k = k + 1;
                }
                assert(values_of(copy@) =~= values);
                rows.push(copy);
                assert(rows_of(rows@) =~= before.push(values));
            },
        }
    }

    /// The answer, when every row has been met.
    pub fn signal_post_query(self) -> (output: QueryOutput)
        ensures
            output@ == self.gathered(),
    {
        match self {
            QueryVisitor::Count(n) => QueryOutput::Count(n),
            QueryVisitor::Fields(_, rows) => QueryOutput::Rows(rows),
            QueryVisitor::Entries(rows) => QueryOutput::IndexEntries(rows),
        }
    }
}

/// The value that a stored value becomes in a column whose counters are `counters`: a
/// missing value in a column that has a counter becomes the counter's next number.
pub open spec fn filled(counters: Map<usize, Incrementer>, value: Value, column: int) -> Value {
    if 0 <= column <= usize::MAX && counters.contains_key(column as usize) && value is Null {
        Value::Integer(counters[column as usize].upcoming() as int)
    } else {
        value
    }
}

/// The number that the counter of a column stands at after a row has gone by that held
/// `value` in the column.
pub open spec fn advanced(upcoming: nat, value: Value) -> nat {
    if value is Null {
        upcoming + 1
    } else {
        upcoming
    }
}

/// The ways of answering a statement.
pub struct QueryExecutor;

impl QueryExecutor {
    /// Whether the row meets the conditions, of which `columns` gives the indices of the
    /// columns. The conditions are tried in order, and none is tried after one that the
    /// row does not meet.
    pub fn meets_conditions(
        conditions: &Vec<QueryCondition>,
        columns: &Vec<usize>,
        row: &Vec<Record>,
    ) -> (r: Result<bool, Error>)
        requires
            columns@.len() == conditions@.len(),
            forall|k: int| 0 <= k < columns@.len() ==> #[trigger] columns@[k] < row@.len(),
        ensures
            r == row_matches(
                filters_of(columns@, condition_models(conditions@)),
                values_of(row@),
            ),
    {
        let ghost filters = filters_of(columns@, condition_models(conditions@));
        let ghost values = values_of(row@);
        let mut i: usize = 0;
        assert(filters.skip(0) =~= filters);
        while i < conditions.len()
            invariant
                i <= conditions@.len(),
                columns@.len() == conditions@.len(),
                forall|k: int| 0 <= k < columns@.len() ==> #[trigger] columns@[k] < row@.len(),
                filters == filters_of(columns@, condition_models(conditions@)),
                values == values_of(row@),
                row_matches(filters, values) == row_matches(filters.skip(i as int), values),
            decreases conditions@.len() - i,
        {
            let condition = &conditions[i];
            let ghost rest = filters.skip(i as int);
            assert(rest[0] == filters[i as int]);
            assert(condition_models(conditions@)[i as int] == condition@);
            assert(rest.drop_first() =~= filters.skip(i + 1));
            assert(values[columns@[i as int] as int] == row@[columns@[i as int] as int]@);
            if !condition.op.eval(&row[columns[i]], &condition.rhs)? {
                return Ok(false);
            }
            i = i + 1;
        }
        Ok(true)
    }

    /// Fills in the row ids of a row: each column that has a counter and holds no value
    /// gets the next number of its counter, and that counter moves on.
    pub fn apply_incrementer(
        row: &mut Vec<Record>,
        incrementer_map: &mut HashMap<usize, Incrementer>,
    )
        requires
            forall|c: usize|
                old(incrementer_map)@.contains_key(c) ==> (#[trigger] old(
                    incrementer_map
                )@[c]).upcoming() <= i64::MAX,
        ensures
            final(row)@.len() == old(row)@.len(),
            forall|c: int|
                0 <= c < old(row)@.len() ==> (#[trigger] final(row)@[c])@ == filled(
                    old(incrementer_map)@,
                    old(row)@[c]@,
                    c,
                ),
            forall|c: usize|
                old(incrementer_map)@.contains_key(c) <==> final(incrementer_map)@.contains_key(c),
            forall|c: usize|
                old(incrementer_map)@.contains_key(c) ==> (#[trigger] final(
                    incrementer_map
                )@[c]).upcoming() == if c < old(row)@.len() {
                    advanced(old(incrementer_map)@[c].upcoming(), old(row)@[c as int]@)
                } else {
                    old(incrementer_map)@[c].upcoming()
                },
    {
        broadcast use vstd::std_specs::hash::group_hash_axioms;

        let ghost before = row@;
        let ghost counters = incrementer_map@;
        let mut c: usize = 0;
        while c < row.len()
            invariant
                c <= row@.len(),
                row@.len() == before.len(),
                forall|k: int| c <= k < before.len() ==> #[trigger] row@[k] == before[k],
                forall|k: int|
                    0 <= k < c ==> (#[trigger] row@[k])@ == filled(counters, before[k]@, k),
                forall|k: usize| counters.contains_key(k) <==> incrementer_map@.contains_key(k),
                forall|k: usize|
                    counters.contains_key(k) ==> (#[trigger] counters[k]).upcoming() <= i64::MAX,
                forall|k: usize|
                    counters.contains_key(k) ==> (#[trigger] incrementer_map@[k]).upcoming() == if k
                        < c {
                        advanced(counters[k].upcoming(), before[k as int]@)
                    } else {
                        counters[k].upcoming()
                    },
            decreases row@.len() - c,
        {
            let missing = match &row[c] {
                Record::Null => true,
                _ => false,
            };
            if missing {
                match incrementer_map.remove(&c) {
                    Some(mut counter) => {
                        let v = counter.next_value();
                        incrementer_map.insert(c, counter);
                        row.set(c, Record::Integer(v as i64));
                    },
                    None => {},
                }
            }
            c = c + 1;
        }
    }
}

/// The conditions of a statement with the indices of their columns.
pub open spec fn filters_of(columns: Seq<usize>, conditions: Seq<ConditionModel>) -> Seq<Filter> {
    Seq::new(
        conditions.len(),
        |k: int| Filter { column: columns[k] as int, op: conditions[k].op, rhs: conditions[k].rhs },
    )
}

/// The columns that have a counter.
pub open spec fn counted(counters: Map<usize, Incrementer>) -> Set<int> {
    Set::new(|c: int| 0 <= c <= usize::MAX && counters.contains_key(c as usize))
}

/// The offsets of the pages of a queue, as numbers.
pub open spec fn offsets_of(queue: Seq<usize>) -> Seq<nat> {
    queue.map_values(|o: usize| o as nat)
}

/// The offset at which the page of the given number starts in a file of the given length.
fn page_offset(page_size: usize, file_len: usize, number: u32) -> (r: Result<usize, Error>)
    ensures
        match page_start_in(page_size as nat, file_len as nat, number as nat) {
            Ok(start) => r is Ok && r->Ok_0 == start && start <= file_len,
            Err(e) => r == Err::<usize, Error>(e),
        },
{
    if number == 0 {
        return Err(Error::Format(FormatError::InvalidPageNumber));
    }
    let before: usize = (number - 1) as usize;
    match before.checked_mul(page_size) {
        Some(start) => if start > file_len {
            Err(Error::Format(FormatError::BufferUnderrun))
        } else {
            Ok(start)
        },
        None => Err(Error::Format(FormatError::BufferUnderrun)),
    }
}

/// A scan on its way: the file, what to do with the rows, the counters of the row ids
/// and what has been gathered of the answer.
struct Scanner<'a> {
    reader: &'a Reader<'a, u8>,
    page_size: usize,
    tree: TreeKind,
    columns: usize,
    filters: Vec<usize>,
    conditions: &'a Vec<QueryCondition>,
    counters: HashMap<usize, Incrementer>,
    visitor: QueryVisitor,
}

impl<'a> Scanner<'a> {
    spec fn source(&self) -> Source {
        Source { file: self.reader.buffer(), page_size: self.page_size as nat }
    }

    spec fn plan(&self) -> Plan {
        Plan {
            tree: self.tree,
            columns: self.columns as nat,
            aliases: counted(self.counters@),
            conditions: filters_of(self.filters@, condition_models(self.conditions@)),
        }
    }

    /// What does not change while the scan is on its way.
    spec fn same_task(&self, other: &Self) -> bool {
        &&& self.reader == other.reader
        &&& self.page_size == other.page_size
        &&& self.tree == other.tree
        &&& self.columns == other.columns
        &&& self.filters == other.filters
        &&& self.conditions == other.conditions
        &&& self.visitor.shape() == other.visitor.shape()
        &&& forall|c: usize| self.counters@.contains_key(c) <==> other.counters@.contains_key(c)
    }

    /// The counters and the gathered answer are those of a scan that has done `progress`.
    spec fn tracks(&self, progress: Progress) -> bool {
        &&& self.filters@.len() == self.conditions@.len()
        &&& forall|k: int| 0 <= k < self.filters@.len() ==> #[trigger] self.filters@[k] < self.columns
        &&& self.visitor.shape().fits(self.columns as nat)
        &&& self.visitor.gathered() == self.visitor.shape().answer(progress.selected)
        &&& progress.selected.len() <= progress.seen.len()
        &&& forall|c: usize| #[trigger] self.counters@.contains_key(c) ==> c < self.columns
        &&& forall|c: usize|
            self.counters@.contains_key(c) ==> (#[trigger] self.counters@[c]).upcoming() == 1
                + nulls_in(progress.seen, c as int)
    }

    /// Takes in one row of a leaf: fills in its row ids, tries the conditions, and
    /// gathers the row if it meets them.
    fn absorb(&mut self, row: Vec<Record>, Ghost(progress): Ghost<Progress>) -> (r: Result<
        (),
        Error,
    >)
        requires
            old(self).tracks(progress),
            row@.len() == old(self).columns,
            progress.seen.len() + 1 <= usize::MAX / 2,
        ensures
            final(self).same_task(old(self)),
            final(self).plan() == old(self).plan(),
            match absorb_row(old(self).plan(), progress, values_of(row@)) {
                Ok(after) => r is Ok && final(self).tracks(after) && after.seen.len()
                    == progress.seen.len() + 1,
                Err(e) => r == Err::<(), Error>(e),
            },
    {
        broadcast use vstd::std_specs::hash::group_hash_axioms;

        let ghost plan = self.plan();
        let ghost stored = values_of(row@);
        let ghost before = self.counters@;
        let mut row = row;
        proof {
            assert forall|c: usize| self.counters@.contains_key(c) implies (
            #[trigger] self.counters@[c]).upcoming() <= i64::MAX by {
                lemma_nulls_in_bound(progress.seen, c as int);
            }
        }
        QueryExecutor::apply_incrementer(&mut row, &mut self.counters);
        let ghost filled_row = values_of(row@);
        proof {
            assert(counted(self.counters@) =~= counted(before));
            assert(filled_row =~= substitute(plan.aliases, progress.seen, stored));
            assert(progress.seen.push(stored).drop_last() =~= progress.seen);
        }
        let ghost shape = self.visitor.shape();
        let ghost seen = progress.seen.push(stored);
        assert forall|c: usize| self.counters@.contains_key(c) implies (
        #[trigger] self.counters@[c]).upcoming() == 1 + nulls_in(seen, c as int) by {
            assert(before.contains_key(c));
            assert(seen.last()[c as int] == stored[c as int]);
        }
        if QueryExecutor::meets_conditions(self.conditions, &self.filters, &row)? {
            assert(self.visitor.gathered() == shape.answer(progress.selected));
            self.visitor.signal_on_match(&row);
            assert(self.visitor.gathered() == shape.answer(progress.selected.push(filled_row)));
        }
        Ok(())
    }

    /// The row of the leaf cell at `offset` of the page that starts at `page`.
    fn row(&self, page: usize, offset: usize) -> (r: Result<Vec<Record>, Error>)
        ensures
            match row_at(
                self.source(),
                self.tree,
                self.columns as nat,
                page as nat,
                offset as nat,
            ) {
                Ok(values) => r is Ok && values_of(r->Ok_0@) == values && r->Ok_0@.len()
                    == self.columns,
                Err(e) => r == Err::<Vec<Record>, Error>(e),
            },
    {
        let size = self.reader.size();
        let Some(at) = page.checked_add(offset) else {
            return Err(Error::Format(FormatError::BufferUnderrun));
        };
        let cursor = self.reader.at(at)?;
        assert(cursor.remaining() =~= self.reader.buffer().skip(at as int));
        match self.tree {
            TreeKind::Table => {
                let cell = TableBTreeLeafCell::from(&cursor)?;
                decode_record(cell.payload.as_bytes(), self.columns)
            },
            TreeKind::Index => {
                let cell = IndexBTreeLeafCell::from(&cursor)?;
                decode_record(cell.payload.as_bytes(), self.columns)
            },
        }
    }

    /// The start of the child page of the interior cell at `offset` of the page that
    /// starts at `page`.
    fn child(&self, page: usize, offset: usize) -> (r: Result<usize, Error>)
        ensures
            match child_at(self.source(), self.tree, page as nat, offset as nat) {
                Ok(start) => r is Ok && r->Ok_0 == start && start <= self.reader.buffer().len(),
                Err(e) => r == Err::<usize, Error>(e),
            },
    {
        let size = self.reader.size();
        let Some(at) = page.checked_add(offset) else {
            return Err(Error::Format(FormatError::BufferUnderrun));
        };
        let cursor = self.reader.at(at)?;
        assert(cursor.remaining() =~= self.reader.buffer().skip(at as int));
        let number = match self.tree {
            TreeKind::Table => TableBTreeInteriorCell::from(&cursor)?.left_child_pointer,
            TreeKind::Index => IndexBTreeInteriorCell::from(&cursor)?.left_child_pointer,
        };
        page_offset(self.page_size, size, number)
    }

    /// Takes in the rows of the leaf that starts at `page`, in the order of its cells.
    fn leaf(&mut self, page: usize, header: &BTreePageHeader, Ghost(progress): Ghost<Progress>) -> (r:
        Result<Ghost<Progress>, Error>)
        requires
            old(self).tracks(progress),
            header.cell_offsets@.len() == header.cell_count,
            progress.seen.len() + header.cell_count + 1 <= usize::MAX / 2,
        ensures
            final(self).same_task(old(self)),
            final(self).plan() == old(self).plan(),
            match absorb_cells(
                old(self).source(),
                old(self).plan(),
                page as nat,
                header@.cell_offsets,
                progress,
            ) {
                Ok(after) => r is Ok && r->Ok_0@ == after && final(self).tracks(after)
                    && after.seen.len() == progress.seen.len() + header.cell_count,
                Err(e) => r matches Err(f) && f == e,
            },
    {
        let ghost source = self.source();
        let ghost plan = self.plan();
        let ghost offsets = header@.cell_offsets;
        let ghost mut current = progress;
        let mut k: usize = 0;
        proof {
            assert(offsets.take(0) =~= Seq::<nat>::empty());
        }
        while k < header.cell_offsets.len()
            invariant
                k <= header.cell_offsets@.len(),
                header.cell_offsets@.len() == header.cell_count,
                offsets == header@.cell_offsets,
                self.same_task(old(self)),
                source == old(self).source(),
                plan == old(self).plan(),
                self.source() == source,
                self.plan() == plan,
                self.tracks(current),
                current.seen.len() == progress.seen.len() + k,
                progress.seen.len() + header.cell_count + 1 <= usize::MAX / 2,
                absorb_cells(source, plan, page as nat, offsets.take(k as int), progress) == Ok::<
                    Progress,
                    Error,
                >(current),
            decreases header.cell_offsets@.len() - k,
        {
            let offset = header.cell_offsets[k];
            assert(offsets[k as int] == offset);
            proof {
                lemma_absorb_cells_next(source, plan, page as nat, offsets, progress, k as int);
                if absorb_cells(source, plan, page as nat, offsets.take(k + 1), progress) is Err {
                    lemma_absorb_cells_failed(source, plan, page as nat, offsets, progress, k + 1);
                }
            }
            let row = self.row(page, offset)?;
            let ghost stored = values_of(row@);
            self.absorb(row, Ghost(current))?;
            proof {
                current = absorb_row(plan, current, stored)->Ok_0;
            }
            k = k + 1;
        }
        assert(offsets.take(k as int) =~= offsets);
        Ok(Ghost(current))
    }

    /// Puts the children of the interior page that starts at `page` at the back of the queue.
    fn interior(&self, page: usize, header: &BTreePageHeader, queue: &mut VecDeque<usize>) -> (r:
        Result<(), Error>)
        requires
            header.rightmost_pointer is Some,
            forall|i: int|
                0 <= i < old(queue)@.len() ==> #[trigger] old(queue)@[i]
                    <= self.reader.buffer().len(),
        ensures
            match children_of(self.source(), self.tree, page as nat, header@) {
                Ok(children) => r is Ok && offsets_of(final(queue)@) == offsets_of(old(queue)@)
                    + children && forall|i: int|
                    0 <= i < final(queue)@.len() ==> #[trigger] final(queue)@[i]
                        <= self.reader.buffer().len(),
                Err(e) => r == Err::<(), Error>(e),
            },
    {
        let ghost source = self.source();
        let ghost offsets = header@.cell_offsets;
        let ghost find = |offset: nat| child_at(source, self.tree, page as nat, offset);
        let ghost waiting = offsets_of(queue@);
        let ghost mut children: Seq<nat> = Seq::empty();
        let mut k: usize = 0;
        proof {
            assert(offsets.take(0) =~= Seq::<nat>::empty());
            assert(waiting + children =~= waiting);
        }
        while k < header.cell_offsets.len()
            invariant
                k <= header.cell_offsets@.len(),
                offsets == header@.cell_offsets,
                source == self.source(),
                find == |offset: nat| child_at(source, self.tree, page as nat, offset),
                try_map(offsets.take(k as int), find) == Ok::<Seq<nat>, Error>(children),
                offsets_of(queue@) == waiting + children,
                forall|i: int|
                    0 <= i < queue@.len() ==> #[trigger] queue@[i] <= self.reader.buffer().len(),
            decreases header.cell_offsets@.len() - k,
        {
            let offset = header.cell_offsets[k];
            assert(offsets[k as int] == offset);
            proof {
                lemma_try_map_next(offsets, find, k as int);
                if try_map(offsets.take(k + 1), find) is Err {
                    lemma_try_map_failed(offsets, find, k + 1);
                }
            }
            let start = self.child(page, offset)?;
            let ghost before = queue@;
            queue.push_back(start);
            proof {
                children = children.push(start as nat);
                assert(offsets_of(queue@) =~= offsets_of(before).push(start as nat));
                assert(offsets_of(queue@) =~= waiting + children);
            }
            k = k + 1;
        }
        assert(offsets.take(k as int) =~= offsets);
        let Some(number) = header.rightmost_pointer else {
            return Ok(());
        };
        let last = page_offset(self.page_size, self.reader.size(), number)?;
        let ghost before = queue@;
        queue.push_back(last);
        proof {
            assert(offsets_of(queue@) =~= offsets_of(before).push(last as nat));
            assert(offsets_of(queue@) =~= waiting + children.push(last as nat));
        }
        Ok(())
    }

    /// Walks the tree whose root is the page of the given number.
    fn run(&mut self, root_page: u32) -> (r: Result<(), Error>)
        requires
            old(self).tracks(Progress::start()),
        ensures
            final(self).same_task(old(self)),
            match scan(old(self).source(), old(self).plan(), root_page as nat) {
                Ok(done) => r is Ok && final(self).tracks(done),
                Err(e) => r == Err::<(), Error>(e),
            },
    {
        let ghost source = self.source();
        let ghost plan = self.plan();
        let size = self.reader.size();
        let root = page_offset(self.page_size, size, root_page)?;
        let mut queue: VecDeque<usize> = VecDeque::new();
        queue.push_back(root);
        let mut budget: usize = size / 2;
        let ghost mut progress = Progress::start();
        proof {
            assert(offsets_of(queue@) =~= seq![root as nat]);
        }
        loop
            invariant
                self.same_task(old(self)),
                source == old(self).source(),
                plan == old(self).plan(),
                self.source() == source,
                self.plan() == plan,
                self.tracks(progress),
                size == source.file.len(),
                progress.seen.len() + budget <= size / 2,
                forall|i: int| 0 <= i < queue@.len() ==> #[trigger] queue@[i] <= size,
                scan(source, plan, root_page as nat) == scan_from(
                    source,
                    plan,
                    offsets_of(queue@),
                    budget as nat,
                    progress,
                ),
            decreases budget,
        {
            let ghost waiting = offsets_of(queue@);
            let Some(page) = queue.pop_front() else {
                return Ok(());
            };
            assert(waiting[0] == page);
            assert(offsets_of(queue@) =~= waiting.drop_first());
            let cursor = self.reader.at(page)?;
            assert(cursor.remaining() =~= source.file.skip(page as int));
            let header = BTreePageHeader::from(&cursor)?;
            if header.cell_count as usize + 1 > budget {
                return Err(Error::Format(FormatError::TreeExceedsFile));
            }
            budget = budget - header.cell_count as usize - 1;
            let is_leaf = match (self.tree, header.kind) {
                (TreeKind::Table, BTreePageType::LeafTable) => true,
                (TreeKind::Index, BTreePageType::LeafIndex) => true,
                _ => false,
            };
            let is_interior = match (self.tree, header.kind) {
                (TreeKind::Table, BTreePageType::InteriorTable) => true,
                (TreeKind::Index, BTreePageType::InteriorIndex) => true,
                _ => false,
            };
            if is_leaf {
                let after = self.leaf(page, &header, Ghost(progress))?;
                proof {
                    progress = after@;
                }
            } else if is_interior {
                self.interior(page, &header, &mut queue)?;
            } else {
                return Err(Error::Format(FormatError::UnexpectedPageInTree));
            }
        }
    }
}

/// The index of the column of the given name in the table.
pub open spec fn column_of(table: TableModel, name: Seq<char>) -> Result<usize, Error> {
    match table.column(name) {
        Some(i) => Ok(i as usize),
        None => Err(Error::QueryExecution(QueryExecutionError::UnknownColumn)),
    }
}

/// The indices of the columns of the given names in the table.
pub open spec fn columns_of(table: TableModel, names: Seq<Seq<char>>) -> Result<Seq<usize>, Error> {
    try_map(names, |name: Seq<char>| column_of(table, name))
}

/// What a statement with the given projection keeps of the rows of the table.
pub open spec fn shape_of(table: TableModel, fields: Projection) -> Result<Shape, Error> {
    match fields {
        Projection::Count => Ok(Shape::Count),
        Projection::List(names) => match columns_of(table, names) {
            Err(e) => Err(e),
            Ok(columns) => Ok(Shape::Fields(columns)),
        },
    }
}

/// The columns of the table that stand for the row id.
pub open spec fn aliases_of(table: TableModel) -> Set<int> {
    Set::new(|c: int| 0 <= c < table.fields.len() && table.fields[c].autoincrement())
}

/// The names of the columns that the conditions speak of.
pub open spec fn subjects(conditions: Seq<ConditionModel>) -> Seq<Seq<char>> {
    conditions.map_values(|c: ConditionModel| c.lhs)
}

/// What a scan of the table is to do for a statement with the given conditions.
pub open spec fn table_plan(table: TableModel, conditions: Seq<ConditionModel>) -> Result<
    Plan,
    Error,
> {
    match columns_of(table, subjects(conditions)) {
        Err(e) => Err(e),
        Ok(columns) => Ok(
            Plan {
                tree: TreeKind::Table,
                columns: table.fields.len(),
                aliases: aliases_of(table),
                conditions: filters_of(columns, conditions),
            },
        ),
    }
}

/// The answer that a scan of the statement's table gives: the rows of the table's leaves
/// in stored order, their row ids filled in, those kept that meet every condition, and of
/// these the number or the asked-for columns. A table, a column of the projection or a
/// column of a condition that the catalog does not know is an error, in this order.
pub open spec fn table_query(file: Seq<u8>, db: DatabaseModel, query: QueryModel) -> Result<
    Answer,
    Error,
> {
    match table_position(db.entries, query.source) {
        None => Err(Error::QueryExecution(QueryExecutionError::UnknownTable)),
        Some(position) => {
            let table = db.entries[position]->Table_0;
            match shape_of(table.sql_schema, query.fields) {
                Err(e) => Err(e),
                Ok(shape) => match table_plan(table.sql_schema, query.conditions) {
                    Err(e) => Err(e),
                    Ok(plan) => match scan(
                        Source { file, page_size: db.header.page_size as nat },
                        plan,
                        table.root_page,
                    ) {
                        Err(e) => Err(e),
                        Ok(done) => Ok(shape.answer(done.selected)),
                    },
                },
            }
        },
    }
}

/// What a scan of an index is to do: every entry is kept as it is stored, with one value
/// for each column of the index and the row id after them.
pub open spec fn index_plan(index: IndexModel) -> Plan {
    Plan {
        tree: TreeKind::Index,
        columns: index.fields.len() + 1,
        aliases: Set::empty(),
        conditions: Seq::empty(),
    }
}

/// The answer that a walk of the index gives: the entries of its leaves in stored order.
/// The rows that the entries stand for are not looked up in the table.
pub open spec fn index_query(
    file: Seq<u8>,
    db: DatabaseModel,
    query: QueryModel,
    index: IndexEntry,
) -> Result<Answer, Error> {
    if table_position(db.entries, query.source) is None {
        Err(Error::QueryExecution(QueryExecutionError::UnknownTable))
    } else {
        match scan(
            Source { file, page_size: db.header.page_size as nat },
            index_plan(index.sql_schema),
            index.root_page,
        ) {
            Err(e) => Err(e),
            Ok(done) => Ok(Answer::IndexEntries(done.selected)),
        }
    }
}

/// The answer to a statement. The index is walked where the statement has one condition
/// and the catalog has an index on the statement's table whose first column is that of
/// the condition; else the table is scanned.
pub open spec fn query_answer(file: Seq<u8>, db: DatabaseModel, query: QueryModel) -> Result<
    Answer,
    Error,
> {
    if query.conditions.len() == 1 && index_position(
        db.entries,
        query.source,
        query.conditions[0].lhs,
    ) is Some {
        index_query(
            file,
            db,
            query,
            db.entries[index_position(db.entries, query.source, query.conditions[0].lhs)->0]->Index_0,
        )
    } else {
        table_query(file, db, query)
    }
}

/// Every index of the catalog has fewer columns than `usize` can count.
pub open spec fn indexes_fit(db: DatabaseModel) -> bool {
    forall|i: int|
        0 <= i < db.entries.len() ==> (#[trigger] db.entries[i] matches CatalogEntry::Index(index)
            ==> index.sql_schema.fields.len() < usize::MAX)
}

/// The indices in the table of the columns of the given names.
fn find_columns(schema: &TableSchema, names: &Vec<String>) -> (r: Result<Vec<usize>, Error>)
    ensures
        match columns_of(schema@, names@.map_values(|n: String| n@)) {
            Ok(columns) => r is Ok && r->Ok_0@ == columns && forall|k: int|
                0 <= k < columns.len() ==> #[trigger] columns[k] < schema@.fields.len(),
            Err(e) => r == Err::<Vec<usize>, Error>(e),
        },
{
    let ghost wanted = names@.map_values(|n: String| n@);
    let ghost find = |name: Seq<char>| column_of(schema@, name);
    let mut columns: Vec<usize> = Vec::new();
    let mut k: usize = 0;
    proof {
        assert(wanted.take(0) =~= Seq::<Seq<char>>::empty());
    }
    while k < names.len()
        invariant
            k <= names@.len(),
            wanted == names@.map_values(|n: String| n@),
            find == |name: Seq<char>| column_of(schema@, name),
            try_map(wanted.take(k as int), find) == Ok::<Seq<usize>, Error>(columns@),
            forall|j: int| 0 <= j < columns@.len() ==> #[trigger] columns@[j] < schema@.fields.len(),
        decreases names@.len() - k,
    {
        proof {
            lemma_try_map_next(wanted, find, k as int);
            if try_map(wanted.take(k + 1), find) is Err {
                lemma_try_map_failed(wanted, find, k + 1);
            }
        }
        match schema.field_index(names[k].as_str()) {
            Some(i) => {
                columns.push(i);
            },
            None => {
                return Err(Error::QueryExecution(QueryExecutionError::UnknownColumn));
            },
        }
        k = k + 1;
    }
    assert(wanted.take(k as int) =~= wanted);
    Ok(columns)
}

/// The indices in the table of the columns that the conditions speak of.
fn find_subjects(schema: &TableSchema, conditions: &Vec<QueryCondition>) -> (r: Result<
    Vec<usize>,
    Error,
>)
    ensures
        match columns_of(schema@, subjects(condition_models(conditions@))) {
            Ok(columns) => r is Ok && r->Ok_0@ == columns && columns.len() == conditions@.len()
                && forall|k: int|
                0 <= k < columns.len() ==> #[trigger] columns[k] < schema@.fields.len(),
            Err(e) => r == Err::<Vec<usize>, Error>(e),
        },
{
    let ghost wanted = subjects(condition_models(conditions@));
    let ghost find = |name: Seq<char>| column_of(schema@, name);
    let mut columns: Vec<usize> = Vec::new();
    let mut k: usize = 0;
    proof {
        assert(wanted.take(0) =~= Seq::<Seq<char>>::empty());
    }
    while k < conditions.len()
        invariant
            k <= conditions@.len(),
            columns@.len() == k,
            wanted == subjects(condition_models(conditions@)),
            find == |name: Seq<char>| column_of(schema@, name),
            try_map(wanted.take(k as int), find) == Ok::<Seq<usize>, Error>(columns@),
            forall|j: int| 0 <= j < columns@.len() ==> #[trigger] columns@[j] < schema@.fields.len(),
        decreases conditions@.len() - k,
    {
        proof {
            lemma_try_map_next(wanted, find, k as int);
            if try_map(wanted.take(k + 1), find) is Err {
                lemma_try_map_failed(wanted, find, k + 1);
            }
            assert(wanted[k as int] == conditions@[k as int].lhs@);
        }
        match schema.field_index(conditions[k].lhs.as_str()) {
            Some(i) => {
                columns.push(i);
            },
            None => {
                return Err(Error::QueryExecution(QueryExecutionError::UnknownColumn));
            },
        }
        k = k + 1;
    }
    assert(wanted.take(k as int) =~= wanted);
    Ok(columns)
}

impl QueryExecutor {
    /// Answers the statement by scanning the B-tree of its table.
    pub fn full_table_scan(query: &Query, db: &Database, reader: &Reader<'_, u8>) -> (r: Result<
        QueryOutput,
        Error,
    >)
        ensures
            match table_query(reader.buffer(), db@, query@) {
                Ok(answer) => r is Ok && r->Ok_0@ == answer,
                Err(e) => r matches Err(f) && f == e,
            },
    {
        let Some(table) = db.table(query.source.as_str()) else {
            return Err(Error::QueryExecution(QueryExecutionError::UnknownTable));
        };
        let schema = &table.sql_schema;
        let visitor = match &query.fields {
            QueryField::Count => QueryVisitor::Count(0),
            QueryField::List(names) => QueryVisitor::Fields(find_columns(schema, names)?, Vec::new()),
        };
        let filters = find_subjects(schema, &query.conditions)?;
        let counters = schema.make_incrementer_map();
        let columns = schema.fields().len();
        let ghost shape = visitor.shape();
        let mut scanner = Scanner {
            reader,
            page_size: db.header.page_size,
            tree: TreeKind::Table,
            columns,
            filters,
            conditions: &query.conditions,
            counters,
            visitor,
        };
        proof {
            assert(counted(scanner.counters@) =~= aliases_of(schema@));
            assert(rows_of(Seq::<Vec<Record>>::empty()) =~= Seq::<Seq<Value>>::empty());
            assert(Seq::<Seq<Value>>::empty().map_values(
                |row: Seq<Value>| project(row, shape->Fields_0),
            ) =~= Seq::<Seq<Value>>::empty());
        }
        scanner.run(table.root_page)?;
        Ok(scanner.visitor.signal_post_query())
    }

    /// Walks the B-tree of the index and gives back its entries as they are stored. The
    /// rows of the table that the entries stand for are not looked up.
    pub fn index_search(query: &Query, db: &Database, reader: &Reader<'_, u8>, index: &Index) -> (r:
        Result<QueryOutput, Error>)
        requires
            index@.sql_schema.fields.len() < usize::MAX,
        ensures
            match index_query(reader.buffer(), db@, query@, index@) {
                Ok(answer) => r is Ok && r->Ok_0@ == answer,
                Err(e) => r matches Err(f) && f == e,
            },
    {
        if db.table(query.source.as_str()).is_none() {
            return Err(Error::QueryExecution(QueryExecutionError::UnknownTable));
        }
        let none: Vec<QueryCondition> = Vec::new();
        let mut scanner = Scanner {
            reader,
            page_size: db.header.page_size,
            tree: TreeKind::Index,
            columns: index.sql_schema.fields.len() + 1,
            filters: Vec::new(),
            conditions: &none,
            counters: HashMap::new(),
            visitor: QueryVisitor::Entries(Vec::new()),
        };
        proof {
            assert(counted(scanner.counters@) =~= Set::<int>::empty());
            assert(scanner.plan().conditions =~= Seq::<Filter>::empty());
            assert(rows_of(Seq::<Vec<Record>>::empty()) =~= Seq::<Seq<Value>>::empty());
        }
        scanner.run(index.root_page)?;
        Ok(scanner.visitor.signal_post_query())
    }

    /// Answers the statement: by a walk of an index where the statement has one
    /// condition and the catalog has an index on the table whose first column is that of
    /// the condition, else by a scan of the table.
    pub fn execute_query(query: &Query, db: &Database, reader: &Reader<'_, u8>) -> (r: Result<
        QueryOutput,
        Error,
    >)
        requires
            indexes_fit(db@),
        ensures
            match query_answer(reader.buffer(), db@, query@) {
                Ok(answer) => r is Ok && r->Ok_0@ == answer,
                Err(e) => r matches Err(f) && f == e,
            },
    {
        if query.conditions.len() == 1 {
            assert(condition_models(query.conditions@)[0] == query.conditions@[0]@);
            if let Some(index) = db.index_on(query.source.as_str(), query.conditions[0].lhs.as_str()) {
                proof {
                    lemma_index_position(db@.entries, query@.source, query@.conditions[0].lhs);
                }
                return Self::index_search(query, db, reader, index);
            }
        }
        Self::full_table_scan(query, db, reader)
    }
}

} // verus!
