use gtin_csv::table::{count_text, RowCounter};

#[test]
fn header_detection() {
    assert_eq!(count_text("sku,ean,qty\n123,4006381333931,5"), (1, 0));
    assert_eq!(count_text("sku,ean,qty\n123,4006541884246,5"), (0, 1));
}

#[test]
fn missing_header_falls_back_to_first_column() {
    assert_eq!(count_text("foo,bar\n4006381333931,x"), (1, 0));
    assert_eq!(count_text("foo,bar\n4006541884246,x"), (0, 1));
    assert_eq!(count_text("foo,bar\nx,4006381333931"), (0, 1));
}

#[test]
fn quoted_ean_is_unquoted() {
    assert_eq!(count_text("ean\n\"4006381333931\""), (1, 0));
    assert_eq!(count_text("ean\n\"4006541884246\""), (0, 1));
}

#[test]
fn only_one_pair_of_quotes_is_removed() {
    assert_eq!(count_text("ean\n\"\"4006381333931\"\""), (0, 1));
    assert_eq!(count_text("ean\n\"4006381333931"), (0, 1));
    assert_eq!(count_text("ean\n4006381333931\""), (0, 1));
    assert_eq!(count_text("ean\n\""), (0, 1));
}

#[test]
fn empty_input() {
    assert_eq!(count_text(""), (0, 0));
    assert_eq!(count_text("\n\n\n"), (0, 0));
    assert_eq!(count_text("\r\n\n"), (0, 0));
}

#[test]
fn header_only() {
    assert_eq!(count_text("a,ean,b\n"), (0, 0));
}

#[test]
fn short_row_is_invalid() {
    assert_eq!(count_text("a,ean,b\n1"), (0, 1));
}

#[test]
fn blank_lines_are_skipped() {
    assert_eq!(count_text("\n\nean\n\n4006381333931\n\n12\n"), (1, 1));
}

#[test]
fn crlf_line_ends() {
    assert_eq!(count_text("sku,ean\r\n1,4006381333931\r\n2,4006381333930\r\n"), (1, 1));
}

#[test]
fn first_of_two_ean_columns() {
    assert_eq!(count_text("ean,ean\n4006381333931,x"), (1, 0));
}

#[test]
fn header_name_must_match_exactly() {
    assert_eq!(count_text("x,EAN,\" ean\"\n4006381333931,1,2"), (1, 0));
    assert_eq!(count_text("x,\"ean\"\n4006381333931,1"), (1, 0));
}

#[test]
fn many_rows() {
    let mut text = String::from("id,ean\n");
    for i in 0..50 {
        if i % 5 == 0 {
            text.push_str(&format!("{i},bad\n"));
        } else {
            text.push_str(&format!("{i},0004006381333931\n"));
        }
    }
    assert_eq!(count_text(&text), (40, 10));
}

#[test]
fn read_error_in_body_counts_invalid() {
    let mut c = RowCounter::new();
    c.feed_line(b"ean");
    c.feed_line(b"4006381333931");
    c.feed_read_error();
    c.feed_line(b"");
    c.feed_line(b"4006381333931");
    assert_eq!(c.counts(), (2, 1));
}

#[test]
fn read_error_before_header_ends_run() {
    let mut c = RowCounter::new();
    c.feed_line(b"");
    c.feed_read_error();
    c.feed_line(b"ean");
    c.feed_line(b"4006381333931");
    c.feed_read_error();
    assert_eq!(c.counts(), (0, 0));
}

#[test]
fn new_counter_counts_nothing() {
    assert_eq!(RowCounter::new().counts(), (0, 0));
}
