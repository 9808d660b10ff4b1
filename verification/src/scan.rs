//! What walking a B-tree yields: the rows of its leaves, and what a query makes of them.

use vstd::prelude::*;
use crate::btree_page_header::{PageLayout, page_header};
use crate::cell::{index_interior_cell, index_leaf_cell, table_interior_cell, table_leaf_cell};
use crate::common::BTreePageType;
use crate::error::{Error, FormatError, underrun};
use crate::query::QueryConditionOp;
use crate::record::{Value, read_record};
use crate::sequence::try_map;

verus! {

/// The two kinds of B-tree: that of a table and that of an index.
#[derive(Debug, Clone, Copy, PartialEq, Eq, Structural)]
pub enum TreeKind {
    Table,
    Index,
}

impl TreeKind {
    /// The kind of the leaves of a tree of this kind.
    pub open spec fn leaf(&self) -> BTreePageType {
        match self {
            TreeKind::Table => BTreePageType::LeafTable,
            TreeKind::Index => BTreePageType::LeafIndex,
        }
    }

    /// The kind of the interior pages of a tree of this kind.
    pub open spec fn interior(&self) -> BTreePageType {
        match self {
            TreeKind::Table => BTreePageType::InteriorTable,
            TreeKind::Index => BTreePageType::InteriorIndex,
        }
    }
}

/// The file that a walk reads.
pub struct Source {
    pub file: Seq<u8>,
    pub page_size: nat,
}

/// A condition whose column has been found in the table.
pub struct Filter {
    pub column: int,
    pub op: QueryConditionOp,
    pub rhs: Value,
}

/// What a scan is to do with the rows that it meets.
pub struct Plan {
    pub tree: TreeKind,
    /// The number of values of each row.
    pub columns: nat,
    /// The columns that stand for the row id.
    pub aliases: Set<int>,
    /// The conditions that a row must meet to be selected.
    pub conditions: Seq<Filter>,
}

/// What a scan has done so far.
pub struct Progress {
    /// The rows that the scan has met, as they are stored.
    pub seen: Seq<Seq<Value>>,
    /// Those of them that meet the conditions, with their row ids filled in.
    pub selected: Seq<Seq<Value>>,
}

impl Progress {
    /// What a scan has done before it has met any row.
    pub open spec fn start() -> Progress {
        Progress { seen: Seq::empty(), selected: Seq::empty() }
    }
}

/// The most pages and cells that a walk may visit in a file of the given length. A page
/// header takes eight bytes and each cell two bytes of the offset array, so that no tree
/// of a file has more pages and cells than half of the file's bytes.
pub open spec fn walk_budget(file_len: nat) -> nat {
    file_len / 2
}

/// The offset at which the page of the given number starts in a file of the given length
/// and page size. Pages are numbered from 1, and a page that would start beyond the end of
/// the file is an error.
pub open spec fn page_start_in(page_size: nat, file_len: nat, number: nat) -> Result<nat, Error> {
    if number == 0 {
        Err(Error::Format(FormatError::InvalidPageNumber))
    } else if (number - 1) * page_size > file_len {
        Err(underrun())
    } else {
        Ok(((number - 1) * page_size) as nat)
    }
}

/// The offset in the file at which the page of the given number starts.
pub open spec fn page_start(source: Source, number: nat) -> Result<nat, Error> {
    page_start_in(source.page_size, source.file.len(), number)
}

/// The bytes from the cell on that stands at `offset` of the page that starts at `page`.
pub open spec fn cell_at(file: Seq<u8>, page: nat, offset: nat) -> Result<Seq<u8>, Error> {
    if page + offset > file.len() {
        Err(underrun())
    } else {
        Ok(file.skip((page + offset) as int))
    }
}

/// The payload of the leaf cell that starts with `bytes`.
pub open spec fn leaf_payload(tree: TreeKind, bytes: Seq<u8>) -> Result<Seq<u8>, Error> {
    match tree {
        TreeKind::Table => match table_leaf_cell(bytes) {
            Ok(cell) => Ok(cell.payload),
            Err(e) => Err(e),
        },
        TreeKind::Index => match index_leaf_cell(bytes) {
            Ok(cell) => Ok(cell.payload),
            Err(e) => Err(e),
        },
    }
}

/// The number of the left child page in the interior cell that starts with `bytes`.
pub open spec fn child_pointer(tree: TreeKind, bytes: Seq<u8>) -> Result<nat, Error> {
    match tree {
        TreeKind::Table => match table_interior_cell(bytes) {
            Ok(cell) => Ok(cell.left_child_pointer),
            Err(e) => Err(e),
        },
        TreeKind::Index => match index_interior_cell(bytes) {
            Ok(cell) => Ok(cell.left_child_pointer),
            Err(e) => Err(e),
        },
    }
}

/// The row of `columns` values of the leaf cell at `offset` of the page that starts at `page`.
pub open spec fn row_at(
    source: Source,
    tree: TreeKind,
    columns: nat,
    page: nat,
    offset: nat,
) -> Result<Seq<Value>, Error> {
    match cell_at(source.file, page, offset) {
        Err(e) => Err(e),
        Ok(bytes) => match leaf_payload(tree, bytes) {
            Err(e) => Err(e),
            Ok(payload) => read_record(payload, columns),
        },
    }
}

/// The start of the child page of the interior cell at `offset` of the page that starts
/// at `page`.
pub open spec fn child_at(source: Source, tree: TreeKind, page: nat, offset: nat) -> Result<
    nat,
    Error,
> {
    match cell_at(source.file, page, offset) {
        Err(e) => Err(e),
        Ok(bytes) => match child_pointer(tree, bytes) {
            Err(e) => Err(e),
            Ok(number) => page_start(source, number),
        },
    }
}

/// The starts of the child pages of the interior page that starts at `page` and has the
/// header `layout`: the left child of each cell in the order of the cells, and then the
/// right-most child.
pub open spec fn children_of(source: Source, tree: TreeKind, page: nat, layout: PageLayout) -> Result<
    Seq<nat>,
    Error,
> {
    match try_map(layout.cell_offsets, |offset: nat| child_at(source, tree, page, offset)) {
        Err(e) => Err(e),
        Ok(children) => match page_start(source, layout.rightmost_pointer->0) {
            Err(e) => Err(e),
            Ok(last) => Ok(children.push(last)),
        },
    }
}

/// The number of the rows of `seen` that hold no value in column `column`.
pub open spec fn nulls_in(seen: Seq<Seq<Value>>, column: int) -> nat
    decreases seen.len(),
{
    if seen.len() == 0 {
        0
    } else {
        nulls_in(seen.drop_last(), column) + if seen.last()[column] is Null {
            1nat
        } else {
            0nat
        }
    }
}

/// The row `row` with its row ids filled in. A column that stands for the row id and
/// holds no value gets the next number of that column's counter: one more than the number
/// of the rows met before that held no value there.
pub open spec fn substitute(aliases: Set<int>, seen: Seq<Seq<Value>>, row: Seq<Value>) -> Seq<
    Value,
> {
    Seq::new(
        row.len(),
        |c: int|
            if aliases.contains(c) && row[c] is Null {
                Value::Integer(1 + nulls_in(seen, c) as int)
            } else {
                row[c]
            },
    )
}

/// Whether `row` meets the conditions. They are tried in order, and none is tried after
/// one that the row does not meet.
pub open spec fn row_matches(conditions: Seq<Filter>, row: Seq<Value>) -> Result<bool, Error>
    decreases conditions.len(),
{
    if conditions.len() == 0 {
        Ok(true)
    } else {
        match conditions[0].op.holds(row[conditions[0].column], conditions[0].rhs) {
            Err(e) => Err(e),
            Ok(false) => Ok(false),
            Ok(true) => row_matches(conditions.drop_first(), row),
        }
    }
}

/// What the scan has done after it has met one more row.
pub open spec fn absorb_row(plan: Plan, progress: Progress, row: Seq<Value>) -> Result<
    Progress,
    Error,
> {
    let filled = substitute(plan.aliases, progress.seen, row);
    match row_matches(plan.conditions, filled) {
        Err(e) => Err(e),
        Ok(selected) => Ok(
            Progress {
                seen: progress.seen.push(row),
                selected: if selected {
                    progress.selected.push(filled)
                } else {
                    progress.selected
                },
            },
        ),
    }
}

/// What the scan has done after it has met the rows `rows`, one after the other.
pub open spec fn absorb(plan: Plan, progress: Progress, rows: Seq<Seq<Value>>) -> Result<
    Progress,
    Error,
>
    decreases rows.len(),
{
    if rows.len() == 0 {
        Ok(progress)
    } else {
        match absorb(plan, progress, rows.drop_last()) {
            Err(e) => Err(e),
            Ok(before) => absorb_row(plan, before, rows.last()),
        }
    }
}

/// What the scan has done after it has met the rows of the cells at `offsets` of the
/// leaf that starts at `page`, one after the other.
pub open spec fn absorb_cells(
    source: Source,
    plan: Plan,
    page: nat,
    offsets: Seq<nat>,
    progress: Progress,
) -> Result<Progress, Error>
    decreases offsets.len(),
{
    if offsets.len() == 0 {
        Ok(progress)
    } else {
        match absorb_cells(source, plan, page, offsets.drop_last(), progress) {
            Err(e) => Err(e),
            Ok(before) => match row_at(source, plan.tree, plan.columns, page, offsets.last()) {
                Err(e) => Err(e),
                Ok(row) => absorb_row(plan, before, row),
            },
        }
    }
}

/// What a scan ends with that has the pages of `queue` still to visit, may visit `budget`
/// more pages and cells, and has done `progress` so far.
///
/// The page at the front of the queue is visited first. The rows of a leaf are met in the
/// order of its cells; the children of an interior page join the queue at its back, so
/// that the tree is walked level by level and each level from left to right. Visiting a
/// page takes one more from the budget than the page has cells.
pub open spec fn scan_from(
    source: Source,
    plan: Plan,
    queue: Seq<nat>,
    budget: nat,
    progress: Progress,
) -> Result<Progress, Error>
    decreases budget,
{
    if queue.len() == 0 {
        Ok(progress)
    } else {
        match page_header(source.file.skip(queue[0] as int)) {
            Err(e) => Err(e),
            Ok(layout) => if layout.cell_count + 1 > budget {
                Err(Error::Format(FormatError::TreeExceedsFile))
            } else {
                let left = (budget - layout.cell_count - 1) as nat;
                if layout.kind == plan.tree.leaf() {
                    match absorb_cells(source, plan, queue[0], layout.cell_offsets, progress) {
                        Err(e) => Err(e),
                        Ok(after) => scan_from(source, plan, queue.drop_first(), left, after),
                    }
                } else if layout.kind == plan.tree.interior() {
                    match children_of(source, plan.tree, queue[0], layout) {
                        Err(e) => Err(e),
                        Ok(children) => scan_from(
                            source,
                            plan,
                            queue.drop_first() + children,
                            left,
                            progress,
                        ),
                    }
                } else {
                    Err(Error::Format(FormatError::UnexpectedPageInTree))
                }
            },
        }
    }
}

/// What a scan of the tree whose root is the page of the given number ends with.
pub open spec fn scan(source: Source, plan: Plan, root_page: nat) -> Result<Progress, Error> {
    match page_start(source, root_page) {
        Err(e) => Err(e),
        Ok(root) => scan_from(
            source,
            plan,
            seq![root],
            walk_budget(source.file.len()),
            Progress::start(),
        ),
    }
}

/// No more rows hold no value in a column than there are rows.
pub proof fn lemma_nulls_in_bound(seen: Seq<Seq<Value>>, column: int)
    ensures
        nulls_in(seen, column) <= seen.len(),
    decreases seen.len(),
{
    if seen.len() > 0 {
        lemma_nulls_in_bound(seen.drop_last(), column);
    }
}

/// A failure among the first `k` cells of a leaf is the failure of the whole leaf.
pub proof fn lemma_absorb_cells_failed(
    source: Source,
    plan: Plan,
    page: nat,
    offsets: Seq<nat>,
    progress: Progress,
    k: int,
)
    requires
        0 <= k <= offsets.len(),
        absorb_cells(source, plan, page, offsets.take(k), progress) is Err,
    ensures
        absorb_cells(source, plan, page, offsets, progress) == absorb_cells(
            source,
            plan,
            page,
            offsets.take(k),
            progress,
        ),
    decreases offsets.len(),
{
    if k < offsets.len() {
        assert(offsets.drop_last().take(k) =~= offsets.take(k));
        lemma_absorb_cells_failed(source, plan, page, offsets.drop_last(), progress, k);
    } else {
        assert(offsets.take(k) =~= offsets);
    }
}

/// The first `k + 1` cells of a leaf: the first `k`, and then the row of cell `k`.
pub proof fn lemma_absorb_cells_next(
    source: Source,
    plan: Plan,
    page: nat,
    offsets: Seq<nat>,
    progress: Progress,
    k: int,
)
    requires
        0 <= k < offsets.len(),
    ensures
        absorb_cells(source, plan, page, offsets.take(k + 1), progress) == match absorb_cells(
            source,
            plan,
            page,
            offsets.take(k),
            progress,
        ) {
            Err(e) => Err(e),
            Ok(before) => match row_at(source, plan.tree, plan.columns, page, offsets[k]) {
                Err(e) => Err(e),
                Ok(row) => absorb_row(plan, before, row),
            },
        },
{
    assert(offsets.take(k + 1).drop_last() =~= offsets.take(k));
}

} // verus!
