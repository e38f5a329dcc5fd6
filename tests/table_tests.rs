use cropi::decimal::parse_measure;
use cropi::stamp::{month_length, Stamp};
use cropi::table::{parse_station_table, readings_from_rows, TableError};

fn row(date: &str, time: &str, temp: &str) -> Vec<String> {
    let mut cells = vec![date.to_string(), time.to_string(), temp.to_string()];
    let rest = [
        "17,9", "18,6", "91", "88", "93", "2,1", "1,0", "4,5", "1013,2", "1012,8", "1013,9", "10",
        "9", "11", "3,5", "0,2",
    ];
    for c in rest.iter() {
        cells.push(c.to_string());
    }
    cells
}

#[test]
fn measure_reads_decimal_comma() {
    assert_eq!(parse_measure("18,2"), 18200);
    assert_eq!(parse_measure("18.2"), 18200);
    assert_eq!(parse_measure("1013,25"), 1013250);
}

#[test]
fn measure_reads_signs_and_fraction_digits() {
    assert_eq!(parse_measure("-0,5"), -500);
    assert_eq!(parse_measure("+3"), 3000);
    assert_eq!(parse_measure("92"), 92000);
    assert_eq!(parse_measure("999999999999.999"), 999_999_999_999_999);
}

#[test]
fn measure_rounds_down_to_thousandths() {
    assert_eq!(parse_measure("1.2345"), 1234);
    assert_eq!(parse_measure("-0,0005"), -1);
    assert_eq!(parse_measure("-1,2345"), -1235);
    assert_eq!(parse_measure("0,0009"), 0);
    assert_eq!(parse_measure("-2,000"), -2000);
}

#[test]
fn measure_reads_empty_whole_part_or_fraction() {
    assert_eq!(parse_measure("1."), 1000);
    assert_eq!(parse_measure(",5"), 500);
    assert_eq!(parse_measure(".5"), 500);
    assert_eq!(parse_measure("-.25"), -250);
    assert_eq!(parse_measure("007"), 7000);
}

#[test]
fn measure_reads_exponents() {
    assert_eq!(parse_measure("1e3"), 1_000_000);
    assert_eq!(parse_measure("2.5E-2"), 25);
    assert_eq!(parse_measure("1e-4"), 0);
    assert_eq!(parse_measure("-1e-4"), -1);
    assert_eq!(parse_measure("9,13e+2"), 913_000);
    assert_eq!(parse_measure("0e99999999999999999999999999"), 0);
    assert_eq!(parse_measure("5e-99999999999999999999999999"), 0);
}

#[test]
fn measure_holds_large_magnitudes_at_the_cap() {
    assert_eq!(parse_measure("1234567890123"), 999_999_999_999_999);
    assert_eq!(parse_measure("-1e400"), -999_999_999_999_999);
    assert_eq!(parse_measure("123456789012"), 123_456_789_012_000);
    assert_eq!(parse_measure("inf"), 999_999_999_999_999);
    assert_eq!(parse_measure("-Infinity"), -999_999_999_999_999);
    assert_eq!(parse_measure("NaN"), 0);
}

#[test]
fn measure_that_is_no_number_reads_zero() {
    assert_eq!(parse_measure(""), 0);
    assert_eq!(parse_measure("abc"), 0);
    assert_eq!(parse_measure("."), 0);
    assert_eq!(parse_measure("e5"), 0);
    assert_eq!(parse_measure("1e"), 0);
    assert_eq!(parse_measure("1e+"), 0);
    assert_eq!(parse_measure("1,2,3"), 0);
    assert_eq!(parse_measure(" 1"), 0);
    assert_eq!(parse_measure("infinit"), 0);
}

#[test]
fn accepted_row_gives_one_reading_with_its_timestamp() {
    let rows = vec![row("01/02/2024", "0810", "18,2")];
    let rs = readings_from_rows(&rows).unwrap();
    assert_eq!(rs.len(), 1);
    assert_eq!(rs[0].stamp, Stamp::new(2024, 2, 1, 8, 10).unwrap());
    assert_eq!(rs[0].temperature.inst, 18200);
    assert_eq!(rs[0].temperature.min, 17900);
    assert_eq!(rs[0].temperature.max, 18600);
    assert_eq!(rs[0].humidity.inst, 91000);
    assert_eq!(rs[0].pressure.inst, 1013200);
    assert_eq!(rs[0].uv_index, 3500);
    assert_eq!(rs[0].precipitation, 200);
}

#[test]
fn blank_temperature_row_is_dropped() {
    let rows = vec![row("01/02/2024", "0800", ""), row("01/02/2024", "0810", "18,4")];
    let rs = readings_from_rows(&rows).unwrap();
    assert_eq!(rs.len(), 1);
    assert_eq!(rs[0].stamp, Stamp::new(2024, 2, 1, 8, 10).unwrap());
}

#[test]
fn rows_of_other_widths_are_skipped() {
    let mut short = row("01/02/2024", "0800", "18,0");
    short.pop();
    let header = vec!["Data".to_string(), "Hora".to_string()];
    let rows = vec![header, short, row("02/02/2024", "2350", "20,0")];
    let rs = readings_from_rows(&rows).unwrap();
    assert_eq!(rs.len(), 1);
    assert_eq!(rs[0].stamp, Stamp::new(2024, 2, 2, 23, 50).unwrap());
}

#[test]
fn unparsable_numeric_cell_reads_zero_and_is_not_fatal() {
    let mut r = row("01/02/2024", "0810", "18,2");
    r[5] = "n/a".to_string();
    r[18] = "--".to_string();
    let rs = readings_from_rows(&vec![r]).unwrap();
    assert_eq!(rs.len(), 1);
    assert_eq!(rs[0].humidity.inst, 0);
    assert_eq!(rs[0].precipitation, 0);
}

#[test]
fn malformed_timestamp_is_fatal() {
    let rows = vec![row("01/02/2024", "0810", "18,2"), row("32/13/2024", "0810", "18,2")];
    assert_eq!(readings_from_rows(&rows), Err(TableError::MalformedTimestamp));
    let rows = vec![row("01/02/2024", "08:10", "18,2")];
    assert_eq!(readings_from_rows(&rows), Err(TableError::MalformedTimestamp));
}

fn html_row(date: &str, time: &str, temp: &str) -> String {
    let mut s = String::from("<tr class=\"tabela-row\">");
    for c in row(date, time, temp) {
        s.push_str("<td class=\"aligned\">");
        s.push_str(&c);
        s.push_str("</td>");
    }
    s.push_str("</tr>");
    s
}

#[test]
fn station_page_is_read_from_html() {
    let mut html = String::from(
        "<html><body><table><thead><tr class=\"tabela-row\"><td>Data</td></tr></thead><tbody class=\"tabela-body\">",
    );
    html.push_str(&html_row("01/02/2024", "0800", "18,2"));
    html.push_str(&html_row("01/02/2024", "0810", ""));
    html.push_str(&html_row("01/02/2024", "0820", "19,5"));
    html.push_str("</tbody></table></body></html>");
    let rs = parse_station_table(&html).unwrap();
    assert_eq!(rs.len(), 2);
    assert_eq!(rs[0].stamp, Stamp::new(2024, 2, 1, 8, 0).unwrap());
    assert_eq!(rs[0].temperature.inst, 18200);
    assert_eq!(rs[1].stamp, Stamp::new(2024, 2, 1, 8, 20).unwrap());
    assert_eq!(rs[1].temperature.inst, 19500);
}

#[test]
fn empty_page_gives_no_readings() {
    assert_eq!(parse_station_table("<html></html>").unwrap().len(), 0);
}

#[test]
fn stamp_checks_field_ranges() {
    assert!(Stamp::new(2024, 2, 1, 23, 59).is_some());
    assert!(Stamp::new(2024, 13, 1, 0, 0).is_none());
    assert!(Stamp::new(2024, 1, 0, 0, 0).is_none());
    assert!(Stamp::new(2024, 1, 1, 24, 0).is_none());
    assert!(Stamp::new(2024, 1, 1, 0, 60).is_none());
    let a = Stamp::new(2024, 1, 31, 23, 50).unwrap();
    let b = Stamp::new(2024, 2, 1, 0, 0).unwrap();
    assert!(a.not_after(&b));
    assert!(!b.not_after(&a));
    assert!(a.not_after(&a));
}

#[test]
fn stamp_follows_the_calendar() {
    assert!(Stamp::new(2024, 2, 29, 0, 0).is_some());
    assert!(Stamp::new(2023, 2, 29, 0, 0).is_none());
    assert!(Stamp::new(1900, 2, 29, 0, 0).is_none());
    assert!(Stamp::new(2000, 2, 29, 0, 0).is_some());
    assert!(Stamp::new(2024, 4, 31, 0, 0).is_none());
    assert!(Stamp::new(-4, 2, 29, 0, 0).is_some());
    assert_eq!(month_length(2024, 2), 29);
    assert_eq!(month_length(2023, 2), 28);
    assert_eq!(month_length(2023, 11), 30);
    assert_eq!(month_length(2023, 12), 31);
}

#[test]
fn blank_temperature_row_anywhere_is_dropped() {
    let rows = vec![row("01/02/2024", "0800", "18,0"), row("01/02/2024", "0810", ""), row("01/02/2024", "0820", "18,4")];
    let rs = readings_from_rows(&rows).unwrap();
    assert_eq!(rs.len(), 2);
    assert_eq!(rs[0].stamp, Stamp::new(2024, 2, 1, 8, 0).unwrap());
    assert_eq!(rs[1].stamp, Stamp::new(2024, 2, 1, 8, 20).unwrap());
}
