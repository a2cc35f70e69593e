use tsvstat::text::{
    chars_of, decimal_string, push_decimal, push_text, split_fields, string_of,
};

#[test]
fn chars_of_lists_the_characters() {
    assert_eq!(chars_of(""), Vec::<char>::new());
    assert_eq!(chars_of("a\tß€"), vec!['a', '\t', 'ß', '€']);
}

#[test]
fn string_of_takes_a_range() {
    let v = vec!['a', 'b', 'c', 'd'];
    assert_eq!(string_of(&v, 0, 4), "abcd");
    assert_eq!(string_of(&v, 1, 3), "bc");
    assert_eq!(string_of(&v, 2, 2), "");
}

#[test]
fn decimal_string_writes_base_ten() {
    assert_eq!(decimal_string(0), "0");
    assert_eq!(decimal_string(7), "7");
    assert_eq!(decimal_string(10), "10");
    assert_eq!(decimal_string(9999), "9999");
    assert_eq!(decimal_string(1234567890), "1234567890");
    assert_eq!(decimal_string(u64::MAX), "18446744073709551615");
}

#[test]
fn decimal_string_agrees_with_the_standard_rendering() {
    let mut n: u64 = 0;
    for step in 0..2000u64 {
        assert_eq!(decimal_string(n), n.to_string());
        n = n.wrapping_mul(31).wrapping_add(step * step + 1);
    }
}

#[test]
fn push_decimal_and_push_text_append() {
    let mut s = String::from("n=");
    push_decimal(&mut s, 405);
    push_text(&mut s, " and ");
    push_decimal(&mut s, 0);
    push_text(&mut s, "");
    assert_eq!(s, "n=405 and 0");
}

#[test]
fn split_fields_cuts_at_every_delimiter() {
    assert_eq!(split_fields("1\t4", '\t'), vec!["1", "4"]);
    assert_eq!(split_fields("a", '\t'), vec!["a"]);
    assert_eq!(split_fields("", '\t'), vec![""]);
    assert_eq!(split_fields("\t", '\t'), vec!["", ""]);
    assert_eq!(split_fields("a\t\tb\t", '\t'), vec!["a", "", "b", ""]);
    assert_eq!(split_fields("\ta b\t", '\t'), vec!["", "a b", ""]);
    assert_eq!(split_fields("a,b\tc", ','), vec!["a", "b\tc"]);
}

#[test]
fn split_fields_agrees_with_the_standard_split_and_joins_back() {
    for line in ["", "\t", "\t\t", "1\t2\t3", "é\t€\t", " \t \t", "no tabs here", "\tx"] {
        let fields = split_fields(line, '\t');
        let expected: Vec<String> = line.split("\t").map(|f| f.to_string()).collect();
        assert_eq!(fields, expected);
        assert_eq!(fields.join("\t"), line);
        assert_eq!(fields.len(), line.matches('\t').count() + 1);
        for field in fields {
            assert!(!field.contains('\t'));
        }
    }
}
