//! The layout of the report: a header line with the column labels, then one
//! line per statistic, each line a name followed by one tab and one value
//! per column.
//!
//! The observation counts are known to the table and are laid out here. The
//! other statistics are computed from the running sums, which the caller
//! keeps; the caller hands in their printed values and gets the line back.

use vstd::prelude::*;
use crate::accumulator::{Accumulators, Table};
use crate::text::{decimal, join, push_decimal, push_text, views};

verus! {

/// The statistics of a report.
#[derive(Clone, Copy, Debug, PartialEq, Eq, Structural)]
pub enum Statistic {
    /// The number of observations.
    Rows,
    /// The sum of the observations.
    Sum,
    /// The least observation.
    Min,
    /// The greatest observation.
    Max,
    /// The greatest observation less the least.
    Range,
    /// The sum over the number of observations.
    Mean,
    /// The square root of the sample variance.
    StandardDeviation,
    /// The variance with `n - 1` as divisor.
    SampleVariance,
    /// The variance with `n` as divisor.
    PopulationVariance,
    /// The standard deviation over the mean.
    CoefficientOfVariation,
    /// The bias-corrected skewness.
    Skewness,
    /// The bias-corrected kurtosis.
    Kurtosis,
    /// The kurtosis less three.
    ExcessKurtosis,
}

impl Statistic {
    /// The name that starts the statistic's line.
    pub open spec fn name(self) -> Seq<char> {
        match self {
            Statistic::Rows => "Rows"@,
            Statistic::Sum => "Sum"@,
            Statistic::Min => "Min"@,
            Statistic::Max => "Max"@,
            Statistic::Range => "Range"@,
            Statistic::Mean => "Mean"@,
            Statistic::StandardDeviation => "SD"@,
            Statistic::SampleVariance => "VAR"@,
            Statistic::PopulationVariance => "PVAR"@,
            Statistic::CoefficientOfVariation => "CV"@,
            Statistic::Skewness => "Skew"@,
            Statistic::Kurtosis => "Kurt"@,
            Statistic::ExcessKurtosis => "xKurt"@,
        }
    }

    /// The statistics in the order of their lines.
    pub open spec fn order() -> Seq<Statistic> {
        seq![
            Statistic::Rows,
            Statistic::Sum,
            Statistic::Min,
            Statistic::Max,
            Statistic::Range,
            Statistic::Mean,
            Statistic::StandardDeviation,
            Statistic::SampleVariance,
            Statistic::PopulationVariance,
            Statistic::CoefficientOfVariation,
            Statistic::Skewness,
            Statistic::Kurtosis,
            Statistic::ExcessKurtosis,
        ]
    }

    /// The name that starts the statistic's line.
    pub fn label(&self) -> (label: &'static str)
        ensures
            label@ == self.name(),
    {
        match self {
            Statistic::Rows => "Rows",
            Statistic::Sum => "Sum",
            Statistic::Min => "Min",
            Statistic::Max => "Max",
            Statistic::Range => "Range",
            Statistic::Mean => "Mean",
            Statistic::StandardDeviation => "SD",
            Statistic::SampleVariance => "VAR",
            Statistic::PopulationVariance => "PVAR",
            Statistic::CoefficientOfVariation => "CV",
            Statistic::Skewness => "Skew",
            Statistic::Kurtosis => "Kurt",
            Statistic::ExcessKurtosis => "xKurt",
        }
    }

    /// The statistics in the order of their lines.
    pub fn all() -> (all: Vec<Statistic>)
        ensures
            all@ == Statistic::order(),
    {
        let mut all: Vec<Statistic> = Vec::new();
        all.push(Statistic::Rows);
        all.push(Statistic::Sum);
        all.push(Statistic::Min);
        all.push(Statistic::Max);
        all.push(Statistic::Range);
        all.push(Statistic::Mean);
        all.push(Statistic::StandardDeviation);
        all.push(Statistic::SampleVariance);
        all.push(Statistic::PopulationVariance);
        all.push(Statistic::CoefficientOfVariation);
        all.push(Statistic::Skewness);
        all.push(Statistic::Kurtosis);
        all.push(Statistic::ExcessKurtosis);
        assert(all@ =~= Statistic::order());
        all
    }
}

/// A line of the report: `name`, then a tab and a cell for every cell.
pub open spec fn line(name: Seq<char>, cells: Seq<Seq<char>>) -> Seq<char> {
    join(seq![name] + cells, '\t')
}

/// A whole number with two decimals: its digits, a point and two zeros.
pub open spec fn whole(n: nat) -> Seq<char> {
    decimal(n) + seq!['.', '0', '0']
}

/// The header line of a table with the given labels.
pub open spec fn header_text(labels: Seq<Seq<char>>) -> Seq<char> {
    line("Name: "@, labels)
}

/// The line of observation counts.
pub open spec fn rows_text(counts: Seq<nat>) -> Seq<char> {
    line(Statistic::Rows.name(), Seq::new(counts.len(), |c: int| whole(counts[c])))
}

proof fn lemma_line_grows(name: Seq<char>, cells: Seq<Seq<char>>, cell: Seq<char>)
    ensures
        line(name, cells.push(cell)) == line(name, cells).push('\t') + cell,
{
    let grown = seq![name] + cells.push(cell);
    assert(grown.drop_last() =~= seq![name] + cells);
    assert(grown.last() == cell);
}

/// The line of a statistic called `name` whose printed values, one per
/// column, are `cells`.
pub fn report_line(name: &str, cells: &Vec<String>) -> (out: String)
    ensures
        out@ == line(name@, views(cells@)),
{
    let mut out = String::new();
    push_text(&mut out, name);
    assert(out@ =~= name@);
    assert(views(cells@).take(0) =~= Seq::<Seq<char>>::empty());
    assert(seq![name@] + Seq::<Seq<char>>::empty() =~= seq![name@]);
    let mut i: usize = 0;
    while i < cells.len()
        invariant
            i <= cells.len(),
            out@ == line(name@, views(cells@).take(i as int)),
        decreases cells.len() - i,
    {
        proof {
            lemma_line_grows(name@, views(cells@).take(i as int), cells@[i as int]@);
            assert(views(cells@).take(i + 1) =~= views(cells@).take(i as int).push(
                cells@[i as int]@,
            ));
        }
        out.push('\t');
        push_text(&mut out, cells[i].as_str());
        i += 1;
    }
    assert(views(cells@).take(i as int) =~= views(cells@));
    out
}

/// The header line: `Name: `, then a tab and a label for every column.
pub fn header_line(table: &Accumulators) -> (out: String)
    ensures
        out@ == header_text(table@.labels()),
{
    report_line("Name: ", table.headers())
}

/// The line of observation counts: `Rows`, then for every column a tab and
/// its count with two decimals.
pub fn rows_line(table: &Accumulators) -> (out: String)
    requires
        table.wf(),
    ensures
        out@ == rows_text(table@.counts()),
{
    let counts = table.counts();
    let ghost cells = Seq::new(table@.counts().len(), |c: int| whole(table@.counts()[c]));
    let mut out = String::new();
    push_text(&mut out, Statistic::Rows.label());
    assert(out@ =~= Statistic::Rows.name());
    assert(cells.take(0) =~= Seq::<Seq<char>>::empty());
    assert(seq![Statistic::Rows.name()] + Seq::<Seq<char>>::empty() =~= seq![
        Statistic::Rows.name(),
    ]);
    let mut i: usize = 0;
    while i < counts.len()
        invariant
            i <= counts.len(),
            counts@.len() == cells.len(),
            forall|c: int| 0 <= c < counts@.len() ==> cells[c] == whole(counts@[c] as nat),
            out@ == line(Statistic::Rows.name(), cells.take(i as int)),
        decreases counts.len() - i,
    {
        proof {
            lemma_line_grows(Statistic::Rows.name(), cells.take(i as int), cells[i as int]);
            assert(cells.take(i + 1) =~= cells.take(i as int).push(cells[i as int]));
        }
        let ghost before = out@;
        out.push('\t');
        push_decimal(&mut out, counts[i]);
        out.push('.');
        out.push('0');
        out.push('0');
        assert(out@ =~= before.push('\t') + whole(counts@[i as int] as nat));
        i += 1;
    }
    assert(cells.take(i as int) =~= cells);
    out
}

/// The printed values of every statistic, each with one value per column.
pub open spec fn tables(values: Seq<Vec<String>>) -> Seq<Seq<Seq<char>>> {
    Seq::new(values.len(), |k: int| views(values[k]@))
}

/// The whole report of a table: the header line, then the line of every
/// statistic in order. The counts come from the table. `values[k]` holds the
/// printed values of the statistic `k` places after `Rows`; where it is
/// missing the line has a name and no values.
pub open spec fn report_text(table: Table, values: Seq<Seq<Seq<char>>>) -> Seq<Seq<char>> {
    Seq::new(
        Statistic::order().len() + 1,
        |i: int|
            if i == 0 {
                header_text(table.labels())
            } else if i == 1 {
                rows_text(table.counts())
            } else {
                line(
                    Statistic::order()[i - 1].name(),
                    if i - 2 < values.len() {
                        values[i - 2]
                    } else {
                        Seq::empty()
                    },
                )
            },
    )
}

impl Accumulators {
    /// The report, line by line; see [`report_text`].
    pub fn print_tsv(&self, values: &Vec<Vec<String>>) -> (lines: Vec<String>)
        requires
            self.wf(),
        ensures
            views(lines@) == report_text(self@, tables(values@)),
    {
        let ghost goal = report_text(self@, tables(values@));
        let all = Statistic::all();
        let none: Vec<String> = Vec::new();
        assert(views(none@) =~= Seq::<Seq<char>>::empty());
        let mut lines: Vec<String> = Vec::new();
        lines.push(header_line(self));
        lines.push(rows_line(self));
        assert(views(lines@) =~= goal.take(2));
        let n = all.len() + 1;
        let mut i: usize = 2;
        while i < n
            invariant
                2 <= i <= n,
                n == goal.len(),
                all@ == Statistic::order(),
                goal == report_text(self@, tables(values@)),
                views(none@) == Seq::<Seq<char>>::empty(),
                views(lines@) == goal.take(i as int),
            decreases n - i,
        {
            let line = if i - 2 < values.len() {
                report_line(all[i - 1].label(), &values[i - 2])
            } else {
                report_line(all[i - 1].label(), &none)
            };
            proof {
                assert(views(lines@.push(line)) =~= views(lines@).push(line@));
                assert(goal.take(i + 1) =~= goal.take(i as int).push(goal[i as int]));
            }
            lines.push(line);
            i += 1;
        }
        assert(goal.take(n as int) =~= goal);
        lines
    }
}

} // verus!
