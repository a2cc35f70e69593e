use tsvstat::number::is_number;

#[test]
fn plain_numbers_are_numeric() {
    for token in ["0", "1", "42", "007", "1.5", "1.", ".5", "0.0", "123456789012345678901234567890"] {
        assert!(is_number(token), "{:?}", token);
    }
}

#[test]
fn signs_and_exponents_are_numeric() {
    for token in ["+1", "-1", "-0", "+.5", "-1.", "1e5", "1E5", "1e+5", "1e-5", "1.e5", ".5e0", "-1.25E-10", "1e99999999999"] {
        assert!(is_number(token), "{:?}", token);
    }
}

#[test]
fn infinities_and_nan_are_numeric_in_any_case() {
    for token in ["inf", "INF", "Inf", "iNf", "infinity", "INFINITY", "Infinity", "nan", "NaN", "NAN", "+inf", "-inf", "-infinity", "+nan", "-NaN"] {
        assert!(is_number(token), "{:?}", token);
    }
}

#[test]
fn everything_else_is_not_numeric() {
    for token in [
        "", "+", "-", ".", "+.", "e5", "1e", "1e+", "1e-", ".e5", "1..2", "1.2.3", "--1", "+-1",
        "1-", " 1", "1 ", "1 2", "\t1", "1\n", "a", "abc", "1a", "a1", "0x10", "1_000", "1,5",
        "1f64", "in", "infi", "infinit", "infinityy", "na", "nann", "n/a", "NA", "1e5.5",
        "1e5e5", "١٢٣", "１２", "½", "inf ", "ınf", "İnf", "1٫5",
    ] {
        assert!(!is_number(token), "{:?}", token);
    }
}

#[test]
fn agrees_with_the_parser_of_floats() {
    let pieces = ["", "+", "-", ".", "e", "E", "0", "7", "12", "inf", "nan", "infinity", "N", "a", " ", "_"];
    let mut checked = 0;
    for a in pieces {
        for b in pieces {
            for c in pieces {
                for d in pieces {
                    let token = format!("{}{}{}{}", a, b, c, d);
                    assert_eq!(is_number(&token), token.parse::<f64>().is_ok(), "{:?}", token);
                    checked += 1;
                }
            }
        }
    }
    assert_eq!(checked, 65536);
}

#[test]
fn agrees_with_the_parser_of_floats_on_longer_shapes() {
    let signs = ["", "+", "-"];
    let ints = ["", "0", "15"];
    let points = ["", "."];
    let fracs = ["", "0", "25"];
    let marks = ["", "e", "E", "x"];
    let exps = ["", "3", "12", "1.5"];
    for s in signs {
        for i in ints {
            for p in points {
                for f in fracs {
                    for m in marks {
                        for es in signs {
                            for e in exps {
                                let token = format!("{}{}{}{}{}{}{}", s, i, p, f, m, es, e);
                                assert_eq!(
                                    is_number(&token),
                                    token.parse::<f64>().is_ok(),
                                    "{:?}",
                                    token
                                );
                            }
                        }
                    }
                }
            }
        }
    }
}
