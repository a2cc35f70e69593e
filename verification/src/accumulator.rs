//! The table of columns that a stream of records builds up.
//!
//! The first row of a source fixes the columns: a numeric cell opens a column
//! labelled by its position and is that column's first observation, any other
//! cell opens a column labelled by its own text. Every later row only feeds
//! the columns that exist. The table keeps, for each column, its label and
//! how many observations it has taken; the running sums of the observed
//! values are kept by the caller, who is told for every cell what became of
//! it (see [`Cell`]).
//!
//! Rows need not be as long as the first one. A numeric cell beyond the last
//! column is reported as [`Cell::Surplus`] and otherwise ignored; a column
//! for which a row has no cell simply takes no observation from that row.

use vstd::prelude::*;
use vstd::string::StringExecFns;
use crate::number::{is_float_literal, is_number};
use crate::text::{decimal, decimal_string, split, split_fields, views};

verus! {

/// What became of one cell.
#[derive(Clone, Copy, Debug, PartialEq, Eq, Structural)]
pub enum Cell {
    /// First row, numeric: column `column` was opened under its position as
    /// label, and the cell's value is its first observation.
    FirstValue { column: usize },
    /// First row, not numeric: column `column` was opened under the cell's
    /// text as label; it has no observation yet.
    Header { column: usize },
    /// Another row, numeric, within the columns: the cell's value is an
    /// observation of column `column`.
    Value { column: usize },
    /// Another row, not numeric: nothing is observed, and the cell deserves
    /// a warning that names its row and column.
    Malformed { row: usize, column: usize },
    /// Another row, numeric, beyond the last column: nothing is observed.
    Surplus { row: usize, column: usize },
}

/// One column of the table, as a mathematical value.
pub struct Column {
    /// The header label.
    pub label: Seq<char>,
    /// How many values the column has observed.
    pub count: nat,
}

/// The table as a mathematical value.
pub struct Table {
    /// The columns, in the order in which the first row opened them.
    pub columns: Seq<Column>,
    /// How many rows have been started.
    pub rows: nat,
    /// The position, within the current row, of the next cell.
    pub cursor: nat,
}

impl Table {
    /// The table before any row.
    pub open spec fn empty() -> Table {
        Table { columns: Seq::empty(), rows: 0, cursor: 0 }
    }

    /// The labels of the columns, in order.
    pub open spec fn labels(self) -> Seq<Seq<char>> {
        Seq::new(self.columns.len(), |c: int| self.columns[c].label)
    }

    /// The observation counts of the columns, in order.
    pub open spec fn counts(self) -> Seq<nat> {
        Seq::new(self.columns.len(), |c: int| self.columns[c].count)
    }

    /// What every reachable table satisfies: columns exist only once a row
    /// has started, during the first row the cursor stands just behind the
    /// last column, and no column has observed more than one value per row:
    /// a column that the current row has not reached yet has observed fewer
    /// values than there are rows.
    pub open spec fn wf(self) -> bool {
        &&& self.rows == 0 ==> self.columns.len() == 0
        &&& self.rows == 1 ==> self.cursor == self.columns.len()
        &&& forall|c: int|
            0 <= c < self.columns.len() ==> (#[trigger] self.columns[c]).count + (if c
                < self.cursor {
                0nat
            } else {
                1nat
            }) <= self.rows
    }

    /// The table once a new row has started.
    pub open spec fn new_row(self) -> Table {
        Table { rows: self.rows + 1, cursor: 0, ..self }
    }

    /// What becomes of a cell with text `token` that arrives next.
    pub open spec fn outcome(self, token: Seq<char>) -> Cell {
        if self.rows == 1 {
            if is_float_literal(token) {
                Cell::FirstValue { column: self.cursor as usize }
            } else {
                Cell::Header { column: self.cursor as usize }
            }
        } else if !is_float_literal(token) {
            Cell::Malformed { row: self.rows as usize, column: self.cursor as usize }
        } else if self.cursor < self.columns.len() {
            Cell::Value { column: self.cursor as usize }
        } else {
            Cell::Surplus { row: self.rows as usize, column: self.cursor as usize }
        }
    }

    /// The table after a cell with text `token` has arrived.
    pub open spec fn add(self, token: Seq<char>) -> Table {
        let columns = if self.rows == 1 {
            if is_float_literal(token) {
                self.columns.push(Column { label: decimal(self.cursor), count: 1 })
            } else {
                self.columns.push(Column { label: token, count: 0 })
            }
        } else if is_float_literal(token) && self.cursor < self.columns.len() {
            let was = self.columns[self.cursor as int];
            self.columns.update(self.cursor as int, Column { count: was.count + 1, ..was })
        } else {
            self.columns
        };
        Table { columns, cursor: self.cursor + 1, ..self }
    }

    /// The table after the cells `fields` have arrived, one after the other.
    pub open spec fn add_all(self, fields: Seq<Seq<char>>) -> Table
        decreases fields.len(),
    {
        if fields.len() == 0 {
            self
        } else {
            self.add_all(fields.drop_last()).add(fields.last())
        }
    }

    /// What becomes of each of the cells `fields`, arriving one after the
    /// other.
    pub open spec fn outcomes(self, fields: Seq<Seq<char>>) -> Seq<Cell>
        decreases fields.len(),
    {
        if fields.len() == 0 {
            Seq::empty()
        } else {
            self.outcomes(fields.drop_last()).push(
                self.add_all(fields.drop_last()).outcome(fields.last()),
            )
        }
    }

    /// The table after one more record: a new row, then its tab-separated
    /// fields in order.
    pub open spec fn ingest(self, line: Seq<char>) -> Table {
        self.new_row().add_all(split(line, '\t'))
    }

    /// The table after the records `lines`, one after the other.
    pub open spec fn ingest_all(self, lines: Seq<Seq<char>>) -> Table
        decreases lines.len(),
    {
        if lines.len() == 0 {
            self
        } else {
            self.ingest_all(lines.drop_last()).ingest(lines.last())
        }
    }
}

/// Starting a row keeps the table well formed.
pub proof fn lemma_new_row_wf(t: Table)
    requires
        t.wf(),
    ensures
        t.new_row().wf(),
{
}

/// Taking a cell keeps the table well formed.
pub proof fn lemma_add_wf(t: Table, token: Seq<char>)
    requires
        t.wf(),
    ensures
        t.add(token).wf(),
{
    let after = t.add(token);
    assert forall|c: int| 0 <= c < after.columns.len() implies (#[trigger] after.columns[c]).count
        + (if c < after.cursor {
        0nat
    } else {
        1nat
    }) <= after.rows by {
        if c < t.columns.len() {
            assert(t.columns[c].count + (if c < t.cursor {
                0nat
            } else {
                1nat
            }) <= t.rows);
        }
    }
}

/// Taking cells moves the cursor by their number and starts no row.
pub proof fn lemma_add_all_cursor(t: Table, fields: Seq<Seq<char>>)
    ensures
        t.add_all(fields).cursor == t.cursor + fields.len(),
        t.add_all(fields).rows == t.rows,
        t.outcomes(fields).len() == fields.len(),
    decreases fields.len(),
{
    if fields.len() > 0 {
        lemma_add_all_cursor(t, fields.drop_last());
    }
}

/// Taking any number of cells keeps the table well formed.
pub proof fn lemma_add_all_wf(t: Table, fields: Seq<Seq<char>>)
    requires
        t.wf(),
    ensures
        t.add_all(fields).wf(),
    decreases fields.len(),
{
    if fields.len() > 0 {
        lemma_add_all_wf(t, fields.drop_last());
        lemma_add_wf(t.add_all(fields.drop_last()), fields.last());
    }
}

/// A whole record keeps the table well formed.
pub proof fn lemma_ingest_wf(t: Table, line: Seq<char>)
    requires
        t.wf(),
    ensures
        t.ingest(line).wf(),
{
    lemma_add_all_wf(t.new_row(), split(line, '\t'));
}

/// The column that a cell of the first row opens at position `at`.
pub open spec fn opened(at: nat, token: Seq<char>) -> Column {
    if is_float_literal(token) {
        Column { label: decimal(at), count: 1 }
    } else {
        Column { label: token, count: 0 }
    }
}

/// One if the cell is numeric, else zero: what it adds to a column's count.
pub open spec fn observed(token: Seq<char>) -> nat {
    if is_float_literal(token) {
        1
    } else {
        0
    }
}

/// The cells of the first row open one column each, in order, behind the
/// columns that the row has opened before.
pub proof fn lemma_first_row(t: Table, fields: Seq<Seq<char>>)
    requires
        t.rows == 1,
    ensures
        t.add_all(fields).columns == t.columns + Seq::new(
            fields.len(),
            |k: int| opened((t.cursor + k) as nat, fields[k]),
        ),
    decreases fields.len(),
{
    let opens = Seq::new(fields.len(), |k: int| opened((t.cursor + k) as nat, fields[k]));
    if fields.len() == 0 {
        assert(t.columns + opens =~= t.columns);
    } else {
        let head = fields.drop_last();
        lemma_first_row(t, head);
        lemma_add_all_cursor(t, head);
        let before = Seq::new(head.len(), |k: int| opened((t.cursor + k) as nat, head[k]));
        assert(t.columns + opens =~= (t.columns + before).push(
            opened((t.cursor + head.len()) as nat, fields.last()),
        ));
    }
}

/// A first record on an empty table opens exactly one column per field:
/// a numeric field a column labelled by its position, with one observation,
/// any other field a column labelled by the field, with none.
pub proof fn lemma_first_record(line: Seq<char>)
    ensures
        Table::empty().ingest(line).rows == 1,
        Table::empty().ingest(line).columns == Seq::new(
            split(line, '\t').len(),
            |k: int| opened(k as nat, split(line, '\t')[k]),
        ),
{
    let fields = split(line, '\t');
    let start = Table::empty().new_row();
    lemma_first_row(start, fields);
    lemma_add_all_cursor(start, fields);
    assert(start.columns + Seq::new(fields.len(), |k: int| opened((0 + k) as nat, fields[k]))
        =~= Seq::new(fields.len(), |k: int| opened(k as nat, fields[k])));
}

/// Cells of any row but the first leave the columns and their labels as
/// they are, and add one observation to each column that a numeric cell
/// stands in. Cells beyond the last column change nothing.
pub proof fn lemma_later_row(t: Table, fields: Seq<Seq<char>>)
    requires
        t.rows != 1,
    ensures
        t.add_all(fields).columns.len() == t.columns.len(),
        t.add_all(fields).labels() == t.labels(),
        forall|c: int|
            0 <= c < t.columns.len() ==> (#[trigger] t.add_all(fields).columns[c]).count
                == t.columns[c].count + if t.cursor <= c < t.cursor + fields.len() {
                observed(fields[c - t.cursor])
            } else {
                0
            },
    decreases fields.len(),
{
    if fields.len() > 0 {
        let head = fields.drop_last();
        lemma_later_row(t, head);
        lemma_add_all_cursor(t, head);
        let mid = t.add_all(head);
        let end = mid.add(fields.last());
        assert(end.labels() =~= mid.labels());
        assert forall|c: int| 0 <= c < t.columns.len() implies (#[trigger] end.columns[c]).count
            == t.columns[c].count + if t.cursor <= c < t.cursor + fields.len() {
            observed(fields[c - t.cursor])
        } else {
            0
        } by {
            assert(mid.columns[c].count == t.columns[c].count + if t.cursor <= c < t.cursor
                + head.len() {
                observed(head[c - t.cursor])
            } else {
                0
            });
        }
    } else {
        assert(t.add_all(fields).labels() =~= t.labels());
    }
}

/// Once the first row is complete the columns are fixed: a further record
/// keeps their number and their labels, and adds one observation to each
/// column whose field in the record is numeric, and none to the others,
/// whether their field is malformed or missing.
pub proof fn lemma_later_record(t: Table, line: Seq<char>)
    requires
        t.rows >= 1,
    ensures
        t.ingest(line).rows == t.rows + 1,
        t.ingest(line).columns.len() == t.columns.len(),
        t.ingest(line).labels() == t.labels(),
        forall|c: int|
            0 <= c < t.columns.len() ==> (#[trigger] t.ingest(line).columns[c]).count
                == t.columns[c].count + if c < split(line, '\t').len() {
                observed(split(line, '\t')[c])
            } else {
                0
            },
{
    let fields = split(line, '\t');
    let start = t.new_row();
    lemma_later_row(start, fields);
    lemma_add_all_cursor(start, fields);
    assert(start.labels() =~= t.labels());
}

/// However many records follow the first row, the columns stay as the
/// first row made them, and every record is one row.
pub proof fn lemma_columns_fixed(t: Table, lines: Seq<Seq<char>>)
    requires
        t.rows >= 1,
    ensures
        t.ingest_all(lines).rows == t.rows + lines.len(),
        t.ingest_all(lines).labels() == t.labels(),
    decreases lines.len(),
{
    if lines.len() > 0 {
        lemma_columns_fixed(t, lines.drop_last());
        lemma_later_record(t.ingest_all(lines.drop_last()), lines.last());
    }
}

/// Any number of records keeps the table well formed.
pub proof fn lemma_ingest_all_wf(t: Table, lines: Seq<Seq<char>>)
    requires
        t.wf(),
    ensures
        t.ingest_all(lines).wf(),
    decreases lines.len(),
{
    if lines.len() > 0 {
        lemma_ingest_all_wf(t, lines.drop_last());
        lemma_ingest_wf(t.ingest_all(lines.drop_last()), lines.last());
    }
}

/// No column has observed more values than rows have started.
pub proof fn lemma_counts_bounded(t: Table)
    requires
        t.wf(),
    ensures
        forall|c: int| 0 <= c < t.columns.len() ==> (#[trigger] t.columns[c]).count <= t.rows,
{
}

/// A summary table: the labels of the columns, the number of observations
/// each has taken, the number of rows started and the position of the next
/// cell in the current row.
pub struct Accumulators {
    headers: Vec<String>,
    counts: Vec<u64>,
    rows: usize,
    column: usize,
}

impl View for Accumulators {
    type V = Table;

    closed spec fn view(&self) -> Table {
        Table {
            columns: Seq::new(
                self.headers@.len(),
                |c: int| Column { label: self.headers@[c]@, count: self.counts@[c] as nat },
            ),
            rows: self.rows as nat,
            cursor: self.column as nat,
        }
    }
}

impl Accumulators {
    /// The table is one that the operations below can have built.
    pub closed spec fn wf(&self) -> bool {
        &&& self.headers@.len() == self.counts@.len()
        &&& self@.wf()
    }

    /// A table without rows or columns.
    pub fn new() -> (table: Accumulators)
        ensures
            table.wf(),
            table@ == Table::empty(),
    {
        let table = Accumulators {
            headers: Vec::new(),
            counts: Vec::new(),
            rows: 0,
            column: 0,
        };
        assert(table@.columns =~= Seq::empty());
        table
    }

    /// How many rows have been started.
    pub fn rows(&self) -> (rows: usize)
        ensures
            rows == self@.rows,
    {
        self.rows
    }

    /// The position of the next cell within the current row: how many cells
    /// the row has had so far.
    pub fn column(&self) -> (column: usize)
        ensures
            column == self@.cursor,
    {
        self.column
    }

    /// The labels of the columns, in order.
    pub fn headers(&self) -> (headers: &Vec<String>)
        ensures
            views(headers@) == self@.labels(),
    {
        assert(views(self.headers@) =~= self@.labels());
        &self.headers
    }

    /// How many values each column has observed, in the order of the columns.
    pub fn counts(&self) -> (counts: &Vec<u64>)
        requires
            self.wf(),
        ensures
            counts@.len() == self@.columns.len(),
            forall|c: int| 0 <= c < counts@.len() ==> counts@[c] == self@.columns[c].count,
    {
        &self.counts
    }

    /// Starts a row: one more row, and the next cell is the row's first.
    pub fn new_row(&mut self)
        requires
            old(self).wf(),
            old(self)@.rows < usize::MAX,
        ensures
            final(self).wf(),
            final(self)@ == old(self)@.new_row(),
    {
        proof {
            lemma_new_row_wf(self@);
        }
        self.rows = self.rows + 1;
        self.column = 0;
        assert(self@.columns =~= old(self)@.columns);
    }

    /// Takes the next cell of the current row and says what became of it.
    ///
    /// In the first row every cell opens a column. In any other row a
    /// numeric cell is an observation of the column it stands in, if there
    /// is such a column, and any other cell changes nothing but the cursor.
    /// The cursor moves on by one in every case.
    pub fn add_column_value(&mut self, input: &str) -> (cell: Cell)
        requires
            old(self).wf(),
            old(self)@.cursor < usize::MAX,
        ensures
            final(self).wf(),
            final(self)@ == old(self)@.add(input@),
            cell == old(self)@.outcome(input@),
            old(self)@.rows != 1 ==> final(self)@.labels() == old(self)@.labels(),
            old(self)@.rows != 1 && !is_float_literal(input@) ==> final(self)@.columns == old(
                self,
            )@.columns,
    {
        proof {
            lemma_add_wf(self@, input@);
        }
        let numeric = is_number(input);
        let at = self.column;
        let cell = if self.rows == 1 {
            if numeric {
                self.headers.push(decimal_string(at as u64));
                self.counts.push(1);
                Cell::FirstValue { column: at }
            } else {
                self.headers.push(String::from_str(input));
                self.counts.push(0);
                Cell::Header { column: at }
            }
        } else if !numeric {
            Cell::Malformed { row: self.rows, column: at }
        } else if at < self.counts.len() {
            assert(self@.columns[at as int].count + 1 <= self@.rows);
            let seen = self.counts[at];
            self.counts.set(at, seen + 1);
            Cell::Value { column: at }
        } else {
            Cell::Surplus { row: self.rows, column: at }
        };
        self.column = at + 1;
        assert(self@.columns =~= old(self)@.add(input@).columns);
        assert(old(self)@.rows != 1 ==> self@.labels() =~= old(self)@.labels());
        cell
    }

    /// Takes one record: starts a row, cuts `line` at every tab and takes
    /// the fields as the row's cells, in order. Returns what became of each
    /// cell, in the same order.
    pub fn ingest_line(&mut self, line: &str) -> (cells: Vec<Cell>)
        requires
            old(self).wf(),
            old(self)@.rows < usize::MAX,
        ensures
            final(self).wf(),
            final(self)@ == old(self)@.ingest(line@),
            cells@ == old(self)@.new_row().outcomes(split(line@, '\t')),
    {
        let fields = split_fields(line, '\t');
        self.new_row();
        let ghost start = self@;
        let mut cells: Vec<Cell> = Vec::new();
        let mut i: usize = 0;
        while i < fields.len()
            invariant
                i <= fields.len(),
                self.wf(),
                self@ == start.add_all(views(fields@).take(i as int)),
                cells@ == start.outcomes(views(fields@).take(i as int)),
                start.cursor == 0,
            decreases fields.len() - i,
        {
            proof {
                let more = views(fields@).take(i + 1);
                assert(more.drop_last() =~= views(fields@).take(i as int));
                assert(more.last() == fields@[i as int]@);
                lemma_add_all_cursor(start, views(fields@).take(i as int));
            }
            let cell = self.add_column_value(fields[i].as_str());
            cells.push(cell);
            i += 1;
        }
        assert(views(fields@).take(i as int) =~= views(fields@));
        cells
    }
}

} // verus!
