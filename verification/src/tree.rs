//! The rows of a B-tree, told apart from what a query does with them.

use vstd::prelude::*;
use crate::btree_page_header::page_header;
use crate::error::{Error, FormatError};
use crate::database::{DatabaseModel, table_position};
use crate::query::{Projection, QueryModel};
use crate::query_executor::{Answer, aliases_of, column_of, table_plan, table_query};
use crate::schema::lemma_column_of_name;
use crate::record::{Value, lemma_read_record_len};
use crate::scan::{
    Filter, Plan, Progress, Source, TreeKind, absorb, absorb_cells, children_of, nulls_in,
    page_start, row_at, row_matches, scan, scan_from, substitute, walk_budget,
};
use crate::sequence::{lemma_try_map_ok, try_map};

verus! {

/// The rows of the cells at `offsets` of the leaf that starts at `page`.
pub open spec fn leaf_rows(
    source: Source,
    tree: TreeKind,
    columns: nat,
    page: nat,
    offsets: Seq<nat>,
) -> Result<Seq<Seq<Value>>, Error> {
    try_map(offsets, |offset: nat| row_at(source, tree, columns, page, offset))
}

/// The rows that a walk meets which has the pages of `queue` still to visit and may
/// visit `budget` more pages and cells: the rows of the leaves, as they are stored, in
/// the order in which the walk comes to them.
pub open spec fn walk(
    source: Source,
    tree: TreeKind,
    columns: nat,
    queue: Seq<nat>,
    budget: nat,
) -> Result<Seq<Seq<Value>>, Error>
    decreases budget,
{
    if queue.len() == 0 {
        Ok(Seq::empty())
    } else {
        match page_header(source.file.skip(queue[0] as int)) {
            Err(e) => Err(e),
            Ok(layout) => if layout.cell_count + 1 > budget {
                Err(Error::Format(FormatError::TreeExceedsFile))
            } else {
                let left = (budget - layout.cell_count - 1) as nat;
                if layout.kind == tree.leaf() {
                    match leaf_rows(source, tree, columns, queue[0], layout.cell_offsets) {
                        Err(e) => Err(e),
                        Ok(rows) => match walk(source, tree, columns, queue.drop_first(), left) {
                            Err(e) => Err(e),
                            Ok(more) => Ok(rows + more),
                        },
                    }
                } else if layout.kind == tree.interior() {
                    match children_of(source, tree, queue[0], layout) {
                        Err(e) => Err(e),
                        Ok(children) => walk(
                            source,
                            tree,
                            columns,
                            queue.drop_first() + children,
                            left,
                        ),
                    }
                } else {
                    Err(Error::Format(FormatError::UnexpectedPageInTree))
                }
            },
        }
    }
}

/// The number of cells of the leaves below the pages `pages`, these pages included,
/// where the trees below them are at most `height` pages high and their pages can be
/// decoded: a leaf has the cells of its header, and an interior page those of the
/// leaves below its children.
pub open spec fn leaf_cells(source: Source, tree: TreeKind, pages: Seq<nat>, height: nat) -> Option<
    nat,
>
    decreases height, pages.len(),
{
    if pages.len() == 0 {
        Some(0)
    } else if height == 0 {
        None
    } else {
        let below = match page_header(source.file.skip(pages[0] as int)) {
            Err(_) => None,
            Ok(layout) => if layout.kind == tree.leaf() {
                Some(layout.cell_count)
            } else if layout.kind == tree.interior() {
                match children_of(source, tree, pages[0], layout) {
                    Err(_) => None,
                    Ok(children) => leaf_cells(source, tree, children, (height - 1) as nat),
                }
            } else {
                None
            },
        };
        match (below, leaf_cells(source, tree, pages.drop_first(), height)) {
            (Some(first), Some(rest)) => Some(first + rest),
            _ => None,
        }
    }
}

/// The plan `plan` without its conditions: every row is selected.
pub open spec fn unconditional(plan: Plan) -> Plan {
    Plan { conditions: Seq::empty(), ..plan }
}

/// Whether `row` meets every one of the conditions.
pub open spec fn meets(conditions: Seq<Filter>, row: Seq<Value>) -> bool {
    row_matches(conditions, row) == Ok::<bool, Error>(true)
}

/// Whether `row` meets the one condition `filter`.
pub open spec fn meets_one(filter: Filter, row: Seq<Value>) -> bool {
    filter.op.holds(row[filter.column], filter.rhs) == Ok::<bool, Error>(true)
}

/// Meeting rows one after the other is meeting them in two runs.
pub proof fn lemma_absorb_concat(
    plan: Plan,
    progress: Progress,
    first: Seq<Seq<Value>>,
    second: Seq<Seq<Value>>,
)
    ensures
        absorb(plan, progress, first + second) == match absorb(plan, progress, first) {
            Err(e) => Err(e),
            Ok(between) => absorb(plan, between, second),
        },
    decreases second.len(),
{
    if second.len() == 0 {
        assert(first + second =~= first);
    } else {
        assert((first + second).drop_last() =~= first + second.drop_last());
        assert((first + second).last() == second.last());
        lemma_absorb_concat(plan, progress, first, second.drop_last());
    }
}

/// The rows that were met are kept in the order in which they were met, and no more
/// rows are selected than were met.
pub proof fn lemma_absorb_seen(plan: Plan, progress: Progress, rows: Seq<Seq<Value>>)
    requires
        absorb(plan, progress, rows) is Ok,
    ensures
        absorb(plan, progress, rows)->Ok_0.seen == progress.seen + rows,
        absorb(plan, progress, rows)->Ok_0.selected.len() <= progress.selected.len() + rows.len(),
    decreases rows.len(),
{
    if rows.len() == 0 {
        assert(progress.seen + rows =~= progress.seen);
    } else {
        lemma_absorb_seen(plan, progress, rows.drop_last());
        assert(progress.seen + rows =~= (progress.seen + rows.drop_last()).push(rows.last()));
    }
}

/// Meeting the cells of a leaf is meeting the rows of the leaf.
pub proof fn lemma_absorb_cells(
    source: Source,
    plan: Plan,
    page: nat,
    offsets: Seq<nat>,
    progress: Progress,
)
    ensures
        absorb_cells(source, plan, page, offsets, progress) is Ok ==> leaf_rows(
            source,
            plan.tree,
            plan.columns,
            page,
            offsets,
        ) is Ok,
        leaf_rows(source, plan.tree, plan.columns, page, offsets) matches Ok(rows) ==> absorb_cells(
            source,
            plan,
            page,
            offsets,
            progress,
        ) == absorb(plan, progress, rows),
    decreases offsets.len(),
{
    if offsets.len() > 0 {
        lemma_absorb_cells(source, plan, page, offsets.drop_last(), progress);
        let decode = |offset: nat| row_at(source, plan.tree, plan.columns, page, offset);
        let before = try_map(offsets.drop_last(), decode);
        if before is Ok && decode(offsets.last()) is Ok {
            let rows = before->Ok_0.push(decode(offsets.last())->Ok_0);
            assert(rows.drop_last() =~= before->Ok_0);
        }
    }
}

/// A scan meets the rows of the walk of its tree, whatever its conditions are: where the
/// scan succeeds, so does the walk, and where the walk succeeds, the scan ends with what
/// meeting the rows of the walk gives.
pub proof fn lemma_scan_meets_walk(
    source: Source,
    plan: Plan,
    queue: Seq<nat>,
    budget: nat,
    progress: Progress,
)
    ensures
        scan_from(source, plan, queue, budget, progress) is Ok ==> walk(
            source,
            plan.tree,
            plan.columns,
            queue,
            budget,
        ) is Ok,
        walk(source, plan.tree, plan.columns, queue, budget) matches Ok(rows) ==> scan_from(
            source,
            plan,
            queue,
            budget,
            progress,
        ) == absorb(plan, progress, rows),
    decreases budget,
{
    if queue.len() > 0 {
        if let Ok(layout) = page_header(source.file.skip(queue[0] as int)) {
            if layout.cell_count + 1 <= budget {
                let left = (budget - layout.cell_count - 1) as nat;
                if layout.kind == plan.tree.leaf() {
                    lemma_absorb_cells(source, plan, queue[0], layout.cell_offsets, progress);
                    let here = leaf_rows(
                        source,
                        plan.tree,
                        plan.columns,
                        queue[0],
                        layout.cell_offsets,
                    );
                    if let Ok(rows) = here {
                        let rest = walk(source, plan.tree, plan.columns, queue.drop_first(), left);
                        match absorb(plan, progress, rows) {
                            Ok(between) => {
                                lemma_scan_meets_walk(
                                    source,
                                    plan,
                                    queue.drop_first(),
                                    left,
                                    between,
                                );
                                if let Ok(more) = rest {
                                    lemma_absorb_concat(plan, progress, rows, more);
                                }
                            },
                            Err(_) => {
                                if let Ok(more) = rest {
                                    lemma_absorb_concat(plan, progress, rows, more);
                                }
                            },
                        }
                    }
                } else if layout.kind == plan.tree.interior() {
                    if let Ok(children) = children_of(source, plan.tree, queue[0], layout) {
                        lemma_scan_meets_walk(
                            source,
                            plan,
                            queue.drop_first() + children,
                            left,
                            progress,
                        );
                    }
                }
            }
        }
    }
}

/// The number of the leaf cells below some pages does not depend on the height that is
/// allowed for, once that is enough.
pub proof fn lemma_leaf_cells_height(
    source: Source,
    tree: TreeKind,
    pages: Seq<nat>,
    height: nat,
    more: nat,
)
    requires
        leaf_cells(source, tree, pages, height) is Some,
        height <= more,
    ensures
        leaf_cells(source, tree, pages, more) == leaf_cells(source, tree, pages, height),
    decreases height, pages.len(),
{
    if pages.len() > 0 {
        let layout = page_header(source.file.skip(pages[0] as int))->Ok_0;
        if layout.kind != tree.leaf() {
            let children = children_of(source, tree, pages[0], layout)->Ok_0;
            lemma_leaf_cells_height(
                source,
                tree,
                children,
                (height - 1) as nat,
                (more - 1) as nat,
            );
        }
        lemma_leaf_cells_height(source, tree, pages.drop_first(), height, more);
    }
}

/// The leaf cells below two runs of pages are those below the one and those below the other.
pub proof fn lemma_leaf_cells_concat(
    source: Source,
    tree: TreeKind,
    first: Seq<nat>,
    second: Seq<nat>,
    height: nat,
)
    ensures
        leaf_cells(source, tree, first + second, height) == match (
            leaf_cells(source, tree, first, height),
            leaf_cells(source, tree, second, height),
        ) {
            (Some(a), Some(b)) => Some(a + b),
            _ => None,
        },
    decreases first.len(),
{
    if first.len() == 0 {
        assert(first + second =~= second);
    } else if height > 0 {
        assert((first + second).drop_first() =~= first.drop_first() + second);
        assert((first + second)[0] == first[0]);
        lemma_leaf_cells_concat(source, tree, first.drop_first(), second, height);
    } else {
        assert((first + second).len() > 0);
    }
}

/// A walk meets as many rows as the leaves below its pages have cells.
pub proof fn lemma_walk_counts_leaf_cells(
    source: Source,
    tree: TreeKind,
    columns: nat,
    queue: Seq<nat>,
    budget: nat,
)
    requires
        walk(source, tree, columns, queue, budget) is Ok,
    ensures
        leaf_cells(source, tree, queue, budget) == Some(
            walk(source, tree, columns, queue, budget)->Ok_0.len(),
        ),
    decreases budget,
{
    if queue.len() > 0 {
        let layout = page_header(source.file.skip(queue[0] as int))->Ok_0;
        let left = (budget - layout.cell_count - 1) as nat;
        let rest = queue.drop_first();
        if layout.kind == tree.leaf() {
            let decode = |offset: nat| row_at(source, tree, columns, queue[0], offset);
            lemma_try_map_ok(layout.cell_offsets, decode);
            lemma_walk_counts_leaf_cells(source, tree, columns, rest, left);
            lemma_leaf_cells_height(source, tree, rest, left, budget);
        } else {
            let children = children_of(source, tree, queue[0], layout)->Ok_0;
            lemma_walk_counts_leaf_cells(source, tree, columns, rest + children, left);
            lemma_leaf_cells_concat(source, tree, rest, children, left);
            lemma_leaf_cells_height(source, tree, rest, left, budget);
            lemma_leaf_cells_height(source, tree, children, left, (budget - 1) as nat);
        }
    }
}

/// With no conditions every row is selected: the selected rows are the rows that were
/// met, each with its row ids filled in from the rows before it.
pub proof fn lemma_absorb_unconditional(plan: Plan, rows: Seq<Seq<Value>>)
    requires
        plan.conditions.len() == 0,
    ensures
        absorb(plan, Progress::start(), rows) == Ok::<Progress, Error>(
            Progress {
                seen: rows,
                selected: Seq::new(
                    rows.len(),
                    |k: int| substitute(plan.aliases, rows.take(k), rows[k]),
                ),
            },
        ),
    decreases rows.len(),
{
    let all = Seq::new(rows.len(), |k: int| substitute(plan.aliases, rows.take(k), rows[k]));
    if rows.len() == 0 {
        assert(rows =~= Seq::<Seq<Value>>::empty());
        assert(all =~= Seq::<Seq<Value>>::empty());
    } else {
        let before = rows.drop_last();
        lemma_absorb_unconditional(plan, before);
        let earlier = Seq::new(
            before.len(),
            |k: int| substitute(plan.aliases, before.take(k), before[k]),
        );
        assert(before.push(rows.last()) =~= rows);
        assert(rows.take(rows.len() - 1) =~= before);
        assert forall|k: int| 0 <= k < before.len() implies #[trigger] earlier[k] == all[k] by {
            assert(before.take(k) =~= rows.take(k));
        }
        assert(earlier.push(substitute(plan.aliases, before, rows.last())) =~= all);
    }
}

/// Where every row holds no value in a column, as many rows hold none as there are rows.
pub proof fn lemma_nulls_in_all(rows: Seq<Seq<Value>>, column: int)
    requires
        forall|k: int| 0 <= k < rows.len() ==> (#[trigger] rows[k])[column] is Null,
    ensures
        nulls_in(rows, column) == rows.len(),
    decreases rows.len(),
{
    if rows.len() > 0 {
        assert forall|k: int| 0 <= k < rows.len() - 1 implies (#[trigger] rows.drop_last()[k])[column]
            is Null by {
            assert(rows.drop_last()[k] == rows[k]);
        }
        lemma_nulls_in_all(rows.drop_last(), column);
    }
}

/// The rows that a scan selects are those of the rows that the scan without conditions
/// selects which meet the conditions, in the same order.
pub proof fn lemma_absorb_filters(plan: Plan, rows: Seq<Seq<Value>>)
    requires
        absorb(plan, Progress::start(), rows) is Ok,
    ensures
        absorb(unconditional(plan), Progress::start(), rows) is Ok,
        absorb(plan, Progress::start(), rows)->Ok_0.seen == rows,
        absorb(plan, Progress::start(), rows)->Ok_0.selected == absorb(
            unconditional(plan),
            Progress::start(),
            rows,
        )->Ok_0.selected.filter(|row: Seq<Value>| meets(plan.conditions, row)),
    decreases rows.len(),
{
    reveal(Seq::filter);
    let keep = |row: Seq<Value>| meets(plan.conditions, row);
    let open = unconditional(plan);
    lemma_absorb_unconditional(open, rows);
    if rows.len() == 0 {
        assert(rows =~= Seq::<Seq<Value>>::empty());
    } else {
        let before = rows.drop_last();
        lemma_absorb_filters(plan, before);
        lemma_absorb_unconditional(open, before);
        let all_before = absorb(open, Progress::start(), before)->Ok_0.selected;
        let all = absorb(open, Progress::start(), rows)->Ok_0.selected;
        let filled = substitute(plan.aliases, before, rows.last());
        assert(before.push(rows.last()) =~= rows);
        assert(all.last() == filled) by {
            assert(rows.take(rows.len() - 1) =~= before);
        }
        assert(all.drop_last() =~= all_before) by {
            assert forall|k: int| 0 <= k < before.len() implies #[trigger] all[k]
                == all_before[k] by {
                assert(before.take(k) =~= rows.take(k));
            }
        }
    }
}

/// A row meets two conditions where it meets the one and the other.
pub proof fn lemma_meets_two(first: Filter, second: Filter, row: Seq<Value>)
    ensures
        meets(seq![first, second], row) <==> meets_one(first, row) && meets_one(second, row),
{
    let both = seq![first, second];
    assert(both.drop_first() =~= seq![second]);
    assert(seq![second].drop_first() =~= Seq::<Filter>::empty());
    reveal_with_fuel(row_matches, 3);
}

/// Every row of a walk has one value for each column.
pub proof fn lemma_walk_rows_width(
    source: Source,
    tree: TreeKind,
    columns: nat,
    queue: Seq<nat>,
    budget: nat,
)
    requires
        walk(source, tree, columns, queue, budget) is Ok,
    ensures
        forall|k: int|
            0 <= k < walk(source, tree, columns, queue, budget)->Ok_0.len() ==> (#[trigger] walk(
                source,
                tree,
                columns,
                queue,
                budget,
            )->Ok_0[k]).len() == columns,
    decreases budget,
{
    if queue.len() > 0 {
        let layout = page_header(source.file.skip(queue[0] as int))->Ok_0;
        let left = (budget - layout.cell_count - 1) as nat;
        let rest = queue.drop_first();
        if layout.kind == tree.leaf() {
            let decode = |offset: nat| row_at(source, tree, columns, queue[0], offset);
            let rows = leaf_rows(source, tree, columns, queue[0], layout.cell_offsets)->Ok_0;
            lemma_try_map_ok(layout.cell_offsets, decode);
            lemma_walk_rows_width(source, tree, columns, rest, left);
            let more = walk(source, tree, columns, rest, left)->Ok_0;
            assert forall|k: int| 0 <= k < (rows + more).len() implies (#[trigger] (rows
                + more)[k]).len() == columns by {
                if k < rows.len() {
                    let offset = layout.cell_offsets[k];
                    assert(decode(offset) == Ok::<Seq<Value>, Error>(rows[k]));
                    let bytes = crate::scan::cell_at(source.file, queue[0], offset)->Ok_0;
                    let payload = crate::scan::leaf_payload(tree, bytes)->Ok_0;
                    lemma_read_record_len(payload, columns);
                } else {
                    assert((rows + more)[k] == more[k - rows.len()]);
                }
            }
        } else {
            let children = children_of(source, tree, queue[0], layout)->Ok_0;
            lemma_walk_rows_width(source, tree, columns, rest + children, left);
        }
    }
}

/// The rows that a scan selects are those of the rows of a scan without conditions that
/// meet the conditions, in the same order: the conditions take no part in which rows
/// are met nor in the row ids that the rows get.
pub proof fn lemma_conditions_filter(source: Source, plan: Plan, root_page: nat)
    requires
        scan(source, plan, root_page) is Ok,
    ensures
        scan(source, unconditional(plan), root_page) is Ok,
        scan(source, plan, root_page)->Ok_0.seen == scan(
            source,
            unconditional(plan),
            root_page,
        )->Ok_0.seen,
        scan(source, plan, root_page)->Ok_0.selected == scan(
            source,
            unconditional(plan),
            root_page,
        )->Ok_0.selected.filter(|row: Seq<Value>| meets(plan.conditions, row)),
{
    let root = page_start(source, root_page)->Ok_0;
    let budget = walk_budget(source.file.len());
    let open = unconditional(plan);
    lemma_scan_meets_walk(source, plan, seq![root], budget, Progress::start());
    lemma_scan_meets_walk(source, open, seq![root], budget, Progress::start());
    let rows = walk(source, plan.tree, plan.columns, seq![root], budget)->Ok_0;
    lemma_absorb_filters(plan, rows);
    lemma_absorb_seen(open, Progress::start(), rows);
    assert(Progress::start().seen + rows =~= rows);
}

/// A scan with two conditions selects exactly the rows that meet both: those of the
/// rows of a scan without conditions that meet the one and the other.
pub proof fn lemma_two_conditions(source: Source, plan: Plan, root_page: nat)
    requires
        plan.conditions.len() == 2,
        scan(source, plan, root_page) is Ok,
    ensures
        scan(source, unconditional(plan), root_page) is Ok,
        scan(source, plan, root_page)->Ok_0.selected == scan(
            source,
            unconditional(plan),
            root_page,
        )->Ok_0.selected.filter(
            |row: Seq<Value>|
                meets_one(plan.conditions[0], row) && meets_one(plan.conditions[1], row),
        ),
{
    lemma_conditions_filter(source, plan, root_page);
    let both = |row: Seq<Value>|
        meets_one(plan.conditions[0], row) && meets_one(plan.conditions[1], row);
    let all = |row: Seq<Value>| meets(plan.conditions, row);
    assert(plan.conditions =~= seq![plan.conditions[0], plan.conditions[1]]);
    assert forall|row: Seq<Value>| #[trigger] all(row) == both(row) by {
        lemma_meets_two(plan.conditions[0], plan.conditions[1], row);
    }
    assert(all =~= both);
}

/// Where a column stands for the row id and no row of the table holds a value in it,
/// the rows of a scan without conditions hold the numbers from 1 on in that column, in
/// stored order.
pub proof fn lemma_row_ids_count_up(source: Source, plan: Plan, root_page: nat, column: int)
    requires
        plan.conditions.len() == 0,
        plan.aliases.contains(column),
        0 <= column < plan.columns,
        scan(source, plan, root_page) is Ok,
        forall|k: int|
            0 <= k < scan(source, plan, root_page)->Ok_0.seen.len() ==> (#[trigger] scan(
                source,
                plan,
                root_page,
            )->Ok_0.seen[k])[column] is Null,
    ensures
        scan(source, plan, root_page)->Ok_0.selected.len() == scan(
            source,
            plan,
            root_page,
        )->Ok_0.seen.len(),
        forall|k: int|
            0 <= k < scan(source, plan, root_page)->Ok_0.selected.len() ==> (#[trigger] scan(
                source,
                plan,
                root_page,
            )->Ok_0.selected[k])[column] == Value::Integer(k + 1),
{
    let root = page_start(source, root_page)->Ok_0;
    let budget = walk_budget(source.file.len());
    lemma_scan_meets_walk(source, plan, seq![root], budget, Progress::start());
    let rows = walk(source, plan.tree, plan.columns, seq![root], budget)->Ok_0;
    lemma_walk_rows_width(source, plan.tree, plan.columns, seq![root], budget);
    lemma_absorb_unconditional(plan, rows);
    let done = scan(source, plan, root_page)->Ok_0;
    assert(done.seen == rows);
    assert forall|k: int| 0 <= k < done.selected.len() implies (#[trigger] done.selected[k])[column]
        == Value::Integer(k + 1) by {
        let before = rows.take(k);
        assert forall|j: int| 0 <= j < before.len() implies (#[trigger] before[j])[column]
            is Null by {
            assert(before[j] == done.seen[j]);
        }
        lemma_nulls_in_all(before, column);
        assert(rows[k].len() == plan.columns);
    }
}

/// The count of all rows of a table is the number of the cells of the leaves that can be
/// reached from the root of its tree, however many levels of interior pages lie between.
pub proof fn lemma_count_of_all_rows(file: Seq<u8>, db: DatabaseModel, query: QueryModel)
    requires
        query.fields is Count,
        query.conditions.len() == 0,
        table_query(file, db, query) is Ok,
    ensures
        ({
            let table = db.entries[table_position(db.entries, query.source)->0]->Table_0;
            let source = Source { file, page_size: db.header.page_size as nat };
            let root = page_start(source, table.root_page)->Ok_0;
            let cells = leaf_cells(source, TreeKind::Table, seq![root], walk_budget(file.len()));
            cells is Some && table_query(file, db, query) == Ok::<Answer, Error>(
                Answer::Count(cells->0),
            )
        }),
{
    let table = db.entries[table_position(db.entries, query.source)->0]->Table_0;
    let source = Source { file, page_size: db.header.page_size as nat };
    let root = page_start(source, table.root_page)->Ok_0;
    let budget = walk_budget(file.len());
    let plan = table_plan(table.sql_schema, query.conditions)->Ok_0;
    assert(crate::query_executor::subjects(query.conditions) =~= Seq::<Seq<char>>::empty());
    assert(plan.conditions =~= Seq::<Filter>::empty());
    lemma_scan_meets_walk(source, plan, seq![root], budget, Progress::start());
    let rows = walk(source, plan.tree, plan.columns, seq![root], budget)->Ok_0;
    lemma_walk_counts_leaf_cells(source, plan.tree, plan.columns, seq![root], budget);
    lemma_absorb_unconditional(plan, rows);
}

/// A statement without conditions that asks for the column that stands for the row id,
/// of a table none of whose rows holds a value in that column, is answered with the
/// numbers from 1 on, one for each row of the table in stored order.
pub proof fn lemma_row_id_query(file: Seq<u8>, db: DatabaseModel, query: QueryModel, column: int)
    requires
        query.conditions.len() == 0,
        table_query(file, db, query) is Ok,
        ({
            let table = db.entries[table_position(db.entries, query.source)->0]->Table_0;
            let source = Source { file, page_size: db.header.page_size as nat };
            let rows = walk(
                source,
                TreeKind::Table,
                table.sql_schema.fields.len(),
                seq![page_start(source, table.root_page)->Ok_0],
                walk_budget(file.len()),
            );
            &&& table.sql_schema.well_formed()
            &&& 0 <= column < table.sql_schema.fields.len() <= usize::MAX
            &&& table.sql_schema.fields[column].autoincrement()
            &&& query.fields == Projection::List(seq![table.sql_schema.fields[column].name])
            &&& forall|k: int| 0 <= k < rows->Ok_0.len() ==> (#[trigger] rows->Ok_0[k])[column] is Null
        }),
    ensures
        ({
            let table = db.entries[table_position(db.entries, query.source)->0]->Table_0;
            let source = Source { file, page_size: db.header.page_size as nat };
            let rows = walk(
                source,
                TreeKind::Table,
                table.sql_schema.fields.len(),
                seq![page_start(source, table.root_page)->Ok_0],
                walk_budget(file.len()),
            );
            rows is Ok && table_query(file, db, query) == Ok::<Answer, Error>(
                Answer::Rows(Seq::new(rows->Ok_0.len(), |k: int| seq![Value::Integer(k + 1)])),
            )
        }),
{
    let table = db.entries[table_position(db.entries, query.source)->0]->Table_0;
    let schema = table.sql_schema;
    let source = Source { file, page_size: db.header.page_size as nat };
    let root = page_start(source, table.root_page)->Ok_0;
    let budget = walk_budget(file.len());
    let name = schema.fields[column].name;
    let find = |name: Seq<char>| column_of(schema, name);
    lemma_column_of_name(schema.fields, column);
    assert(seq![name].drop_last() =~= Seq::<Seq<char>>::empty());
    assert(try_map(seq![name], find) == Ok::<Seq<usize>, Error>(seq![column as usize])) by {
        assert(try_map(Seq::<Seq<char>>::empty(), find) == Ok::<Seq<usize>, Error>(Seq::empty()));
        assert(Seq::<usize>::empty().push(column as usize) =~= seq![column as usize]);
    }
    let plan = table_plan(schema, query.conditions)->Ok_0;
    assert(crate::query_executor::subjects(query.conditions) =~= Seq::<Seq<char>>::empty());
    assert(plan.conditions =~= Seq::<Filter>::empty());
    lemma_scan_meets_walk(source, plan, seq![root], budget, Progress::start());
    let rows = walk(source, plan.tree, plan.columns, seq![root], budget)->Ok_0;
    lemma_absorb_unconditional(plan, rows);
    assert(aliases_of(schema).contains(column));
    lemma_row_ids_count_up(source, plan, table.root_page, column);
    let done = scan(source, plan, table.root_page)->Ok_0;
    let columns = seq![column as usize];
    let numbers = Seq::new(rows.len(), |k: int| seq![Value::Integer(k + 1)]);
    let projected = done.selected.map_values(
        |row: Seq<Value>| crate::query_executor::project(row, columns),
    );
    assert(projected =~= numbers) by {
        assert forall|k: int| 0 <= k < rows.len() implies #[trigger] projected[k]
            == numbers[k] by {
            assert(done.selected[k][column] == Value::Integer(k + 1));
            assert(crate::query_executor::project(done.selected[k], columns) =~= seq![
                Value::Integer(k + 1),
            ]);
        }
    }
}

} // verus!
