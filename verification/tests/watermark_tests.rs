use incsync::watermark::{format_watermark, load_watermark};

#[test]
fn plain_decimal_first_line_loads() {
    assert_eq!(load_watermark("5\n"), 5);
    assert_eq!(load_watermark("5"), 5);
    assert_eq!(load_watermark("123\n"), 123);
    assert_eq!(load_watermark("0\n"), 0);
}

#[test]
fn surrounding_whitespace_is_trimmed() {
    assert_eq!(load_watermark(" 12 \n"), 12);
    assert_eq!(load_watermark("\t7\r\n"), 7);
}

#[test]
fn only_the_first_line_counts() {
    assert_eq!(load_watermark("7\nrest\n"), 7);
    assert_eq!(load_watermark("\n42\n"), 0);
}

#[test]
fn unreadable_content_counts_as_zero() {
    assert_eq!(load_watermark(""), 0);
    assert_eq!(load_watermark("abc\n"), 0);
    assert_eq!(load_watermark("-3\n"), 0);
    assert_eq!(load_watermark("1 2\n"), 0);
    assert_eq!(load_watermark("12a\n"), 0);
}

#[test]
fn values_past_u32_count_as_zero() {
    assert_eq!(load_watermark("4294967296\n"), 0);
    assert_eq!(load_watermark("4294967295\n"), u32::MAX);
}

#[test]
fn format_writes_one_decimal_line() {
    assert_eq!(format_watermark(0), "0\n");
    assert_eq!(format_watermark(10), "10\n");
    assert_eq!(format_watermark(u32::MAX), "4294967295\n");
}

#[test]
fn committed_text_loads_back() {
    for v in [0u32, 1, 9, 10, 99, 100, 12345, u32::MAX] {
        assert_eq!(load_watermark(&format_watermark(v)), v);
    }
}
