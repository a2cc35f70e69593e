use tsvstat::accumulator::Accumulators;
use tsvstat::report::{header_line, report_line, rows_line, Statistic};

#[test]
fn statistics_come_in_the_fixed_order() {
    assert_eq!(
        Statistic::all(),
        vec![
            Statistic::Rows,
            Statistic::Sum,
            Statistic::Min,
            Statistic::Max,
            Statistic::Range,
            Statistic::Mean,
            Statistic::StandardDeviation,
            Statistic::SampleVariance,
            Statistic::PopulationVariance,
            Statistic::CoefficientOfVariation,
            Statistic::Skewness,
            Statistic::Kurtosis,
            Statistic::ExcessKurtosis,
        ]
    );
}

#[test]
fn statistics_have_their_line_names() {
    let names: Vec<&str> = Statistic::all().iter().map(|s| s.label()).collect();
    assert_eq!(
        names,
        vec![
            "Rows", "Sum", "Min", "Max", "Range", "Mean", "SD", "VAR", "PVAR", "CV", "Skew",
            "Kurt", "xKurt"
        ]
    );
}

#[test]
fn report_line_puts_a_tab_before_every_value() {
    let cells = vec!["10.00".to_string(), "NaN".to_string(), "-0.50".to_string()];
    assert_eq!(report_line("Sum", &cells), "Sum\t10.00\tNaN\t-0.50");
    assert_eq!(report_line("Mean", &[].to_vec()), "Mean");
    assert_eq!(report_line("", &vec!["".to_string(), "".to_string()]), "\t\t");
}

#[test]
fn header_line_lists_the_labels() {
    let mut a = Accumulators::new();
    assert_eq!(header_line(&a), "Name: ");
    a.ingest_line("first\t2\tthird column");
    assert_eq!(header_line(&a), "Name: \tfirst\t1\tthird column");
}

#[test]
fn rows_line_prints_counts_with_two_decimals() {
    let mut a = Accumulators::new();
    assert_eq!(rows_line(&a), "Rows");
    a.ingest_line("a\t1\tc");
    for _ in 0..11 {
        a.ingest_line("1\t2\tx");
    }
    a.ingest_line("\t3");
    assert_eq!(rows_line(&a), "Rows\t11.00\t13.00\t0.00");
}

#[test]
fn rows_line_agrees_with_float_formatting() {
    let mut a = Accumulators::new();
    a.ingest_line("0\tx");
    let mut expected = vec![1u64, 0u64];
    for i in 0..120 {
        if i % 3 == 0 {
            a.ingest_line("1\t1");
            expected[0] += 1;
            expected[1] += 1;
        } else {
            a.ingest_line("1\t-");
            expected[0] += 1;
        }
        let line = format!("Rows\t{:.2}\t{:.2}", expected[0] as f64, expected[1] as f64);
        assert_eq!(rows_line(&a), line);
    }
}

#[test]
fn the_report_has_a_header_and_one_line_per_statistic() {
    let mut a = Accumulators::new();
    a.ingest_line("x\ty");
    a.ingest_line("1\t2");
    a.ingest_line("3\tnone");
    let values: Vec<Vec<String>> = [
        ["4.00", "2.00"],
        ["1.00", "2.00"],
        ["3.00", "2.00"],
        ["2.00", "0.00"],
        ["2.00", "2.00"],
        ["1.41", "NaN"],
        ["2.00", "NaN"],
        ["1.00", "0.00"],
        ["0.71", "NaN"],
        ["NaN", "NaN"],
        ["NaN", "NaN"],
        ["NaN", "NaN"],
    ]
    .iter()
    .map(|row| row.iter().map(|cell| cell.to_string()).collect())
    .collect();
    assert_eq!(
        a.print_tsv(&values),
        vec![
            "Name: \tx\ty",
            "Rows\t2.00\t1.00",
            "Sum\t4.00\t2.00",
            "Min\t1.00\t2.00",
            "Max\t3.00\t2.00",
            "Range\t2.00\t0.00",
            "Mean\t2.00\t2.00",
            "SD\t1.41\tNaN",
            "VAR\t2.00\tNaN",
            "PVAR\t1.00\t0.00",
            "CV\t0.71\tNaN",
            "Skew\tNaN\tNaN",
            "Kurt\tNaN\tNaN",
            "xKurt\tNaN\tNaN",
        ]
    );
}

#[test]
fn a_report_without_values_still_names_every_statistic() {
    let a = Accumulators::new();
    assert_eq!(
        a.print_tsv(&Vec::new()),
        vec![
            "Name: ", "Rows", "Sum", "Min", "Max", "Range", "Mean", "SD", "VAR", "PVAR", "CV",
            "Skew", "Kurt", "xKurt",
        ]
    );
}
