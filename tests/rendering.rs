use ascii_table_rs::measure::{strip_escapes, text_width};
use ascii_table_rs::table::{format_row, format_separator};
use ascii_table_rs::{AsciiTable, CellValue, Decimal};

fn num(text: &str) -> CellValue {
    CellValue::Float(Decimal::parse(text).unwrap())
}

#[test]
fn decimal_parse_rejects_malformed_text() {
    for bad in ["", "-", "1.", ".5", "01.5", "00", "1.2.3", "abc", "1e5", "+1", "1.-2", "- 1"] {
        assert!(Decimal::parse(bad).is_none(), "{bad:?} was accepted");
    }
}

#[test]
fn decimal_parse_splits_the_parts() {
    let d = Decimal::parse("-12.050").unwrap();
    assert!(d.negative);
    assert_eq!(d.whole, "12");
    assert_eq!(d.fraction, "050");
    let z = Decimal::parse("0").unwrap();
    assert!(!z.negative);
    assert_eq!(z.whole, "0");
    assert_eq!(z.fraction, "");
}

#[test]
fn negative_numbers_truncate_toward_zero() {
    assert_eq!(num("-2.999").to_string_with_precision(2), "-2.99");
    assert_eq!(num("-2.999").to_string_with_precision(0), "-2");
    assert_eq!(num("-0.001").to_string_with_precision(2), "-0.00");
}

#[test]
fn short_fractions_are_padded_with_zeros() {
    assert_eq!(num("7").to_string_with_precision(3), "7.000");
    assert_eq!(num("0.5").to_string_with_precision(4), "0.5000");
    assert_eq!(num("183.8023").to_string_with_precision(2), "183.80");
}

#[test]
fn integers_are_written_in_base_ten() {
    assert_eq!(CellValue::Int(-42).to_string_with_precision(5), "-42");
    assert_eq!(CellValue::Int(0).to_string(), "0");
    assert_eq!(CellValue::Int(i64::MIN).to_string(), "-9223372036854775808");
    assert_eq!(CellValue::Int(i64::MAX).to_string(), "9223372036854775807");
}

#[test]
fn text_cells_are_kept_verbatim() {
    assert_eq!(CellValue::Str("2.999".into()).to_string_with_precision(1), "2.999");
}

#[test]
fn escape_sequences_have_no_width() {
    assert_eq!(text_width("\x1b[93mAlice\x1b[0m"), 5);
    assert_eq!(text_width("Alice"), 5);
    assert_eq!(text_width(""), 0);
    assert_eq!(strip_escapes("\x1b[1;31mred\x1b[0m!"), "red!");
    assert_eq!(strip_escapes("\x1b[93"), "\x1b[93");
}

#[test]
fn wide_characters_count_twice() {
    assert_eq!(text_width("名前"), 4);
}

#[test]
fn separator_lines() {
    assert_eq!(format_separator(&[1, 2], '├', '┼', '┤'), "├───┼────┤\n");
    assert_eq!(format_separator(&[], '╰', '┴', '╯'), "╰╯\n");
}

#[test]
fn row_lines_pad_by_display_width() {
    let values = vec!["ab".to_string(), "\x1b[2mc\x1b[0m".to_string()];
    assert_eq!(format_row(&values, &[3, 2]), "│ ab  │ \x1b[2mc\x1b[0m  │\n");
}

#[test]
fn ragged_row_closes_early() {
    let values = vec!["ab".to_string(), "c".to_string()];
    assert_eq!(format_row(&values, &[3, 1, 4]), "│ ab  │ c │\n");

    let mut table = AsciiTable::new("T");
    table.set_headers(vec!["A", "B", "C"]);
    table.add_row(vec![CellValue::Int(1)]);
    table.add_row(vec![CellValue::Int(10), CellValue::Int(2), CellValue::Int(3)]);
    let expected = "\
╭────────────╮
│     T      │
├────┬───┬───┤
│ A  │ B │ C │
├────┼───┼───┤
│ 1  │
│ 10 │ 2 │ 3 │
╰────┴───┴───╯
";
    assert_eq!(table.render_to_string(), expected);
}

#[test]
fn cells_beyond_the_headers_are_dropped() {
    let mut table = AsciiTable::new("x");
    table.set_headers(vec!["A"]);
    table.add_row(vec![CellValue::Int(1), CellValue::Str("extra".into())]);
    assert_eq!(table.column_widths(), vec![1]);
    assert!(table.render_to_string().contains("│ 1 │\n"));
    assert!(!table.render_to_string().contains("extra"));
}

#[test]
fn a_table_without_headers_is_a_bare_frame() {
    let mut table = AsciiTable::new("Hi");
    table.add_row(vec![CellValue::Int(7)]);
    assert_eq!(table.render_to_string(), "╭╮\n│Hi│\n├┤\n│\n├┤\n│\n╰╯\n");
}

#[test]
fn a_long_title_is_not_cut() {
    let mut table = AsciiTable::new("A long title");
    table.set_headers(vec!["x"]);
    assert_eq!(table.render_to_string(), "╭───╮\n│A long title│\n├───┤\n│ x │\n├───┤\n╰───╯\n");
}

#[test]
fn wide_headers_widen_their_column() {
    let mut table = AsciiTable::new("W");
    table.set_headers(vec!["名前"]);
    table.add_row(vec![CellValue::Str("ab".into())]);
    let expected = "\
╭──────╮
│  W   │
├──────┤
│ 名前 │
├──────┤
│ ab   │
╰──────╯
";
    assert_eq!(table.render_to_string(), expected);
}

#[test]
fn column_width_is_the_widest_cell() {
    let mut table = AsciiTable::new("Widths");
    table.set_headers(vec!["Short", "LongerHeader", "Z"]);
    table.add_row(vec![
        CellValue::Str("tiny".into()),
        CellValue::Str("this is a longer cell".into()),
    ]);
    table.set_summary(vec![CellValue::Str("\x1b[1mSummary!\x1b[0m".into()), CellValue::Int(1), num("-1.5")]);
    assert_eq!(table.column_widths(), vec![8, 21, 5]);
}

#[test]
fn colour_leaves_the_layout_unchanged() {
    let mut plain = AsciiTable::new("C");
    plain.set_headers(vec!["Name"]);
    plain.add_row(vec![CellValue::Str("Alice".into())]);
    let mut coloured = AsciiTable::new("C");
    coloured.set_headers(vec!["Name"]);
    coloured.add_row(vec![CellValue::Str("\x1b[93mAlice\x1b[0m".into())]);
    assert_eq!(plain.column_widths(), coloured.column_widths());
    assert_eq!(
        plain.render_to_string().replace("Alice", "\x1b[93mAlice\x1b[0m"),
        coloured.render_to_string()
    );
}

#[test]
fn rendering_twice_gives_the_same_text() {
    let mut table = AsciiTable::new("Again");
    table.set_headers(vec!["n"]);
    table.add_row(vec![num("1.25")]);
    let first = table.render_to_string();
    assert_eq!(first, table.render_to_string());
    table.set_decimal_places(1);
    assert_ne!(first, table.render_to_string());
    assert!(table.render_to_string().contains("│ 1.2 │"));
}

#[test]
fn precision_zero_drops_the_point() {
    let mut table = AsciiTable::new("P");
    table.set_headers(vec!["v"]);
    table.add_row(vec![num("9.99")]);
    table.set_decimal_places(0);
    assert!(table.render_to_string().contains("│ 9 │\n"));
}

#[test]
fn cluster_overview() {
    let mut table = AsciiTable::new("Cluster Overview");
    table.set_decimal_places(3);
    table.set_headers(vec![
        "Cluster",
        "Node Count",
        "Outgoing Gateways",
        "Incoming Gateways",
        "Connections",
        "RTT [ms]",
    ]);
    table.add_row(vec![
        CellValue::Str("west".into()),
        CellValue::Int(1),
        CellValue::Int(2),
        CellValue::Int(2),
        CellValue::Int(0),
        num("1.23456"),
    ]);
    table.add_row(vec![
        CellValue::Str("east".into()),
        CellValue::Int(1),
        CellValue::Int(2),
        CellValue::Int(2),
        CellValue::Int(0),
        num("4.3210"),
    ]);
    table.add_row(vec![
        CellValue::Str("central".into()),
        CellValue::Int(1),
        CellValue::Int(2),
        CellValue::Int(2),
        CellValue::Int(1),
        num("3.345678"),
    ]);
    table.set_summary(vec![
        CellValue::Str("".into()),
        CellValue::Int(3),
        CellValue::Int(6),
        CellValue::Int(6),
        CellValue::Int(1),
        num("8.90000000"),
    ]);
    let expected = "\
╭───────────────────────────────────────────────────────────────────────────────────────╮
│                                   Cluster Overview                                    │
├─────────┬────────────┬───────────────────┬───────────────────┬─────────────┬──────────┤
│ Cluster │ Node Count │ Outgoing Gateways │ Incoming Gateways │ Connections │ RTT [ms] │
├─────────┼────────────┼───────────────────┼───────────────────┼─────────────┼──────────┤
│ west    │ 1          │ 2                 │ 2                 │ 0           │ 1.234    │
│ east    │ 1          │ 2                 │ 2                 │ 0           │ 4.321    │
│ central │ 1          │ 2                 │ 2                 │ 1           │ 3.345    │
├─────────┼────────────┼───────────────────┼───────────────────┼─────────────┼──────────┤
│         │ 3          │ 6                 │ 6                 │ 1           │ 8.900    │
╰─────────┴────────────┴───────────────────┴───────────────────┴─────────────┴──────────╯
";
    assert_eq!(table.render_to_string(), expected);
}
