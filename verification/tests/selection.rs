use pdf_pages::error::PdfError;
use pdf_pages::selection::{output_name, parse_selection, PageRange};

fn invalid(token: &str) -> Result<PageRange, PdfError> {
    Err(PdfError::InvalidSelectionSyntax { token: token.to_string() })
}

#[test]
fn range_selects_its_pages() {
    assert_eq!(parse_selection("3-5"), Ok(PageRange { start: 3, end: 5 }));
}

#[test]
fn single_number_selects_one_page() {
    assert_eq!(parse_selection("7"), Ok(PageRange { start: 7, end: 7 }));
}

#[test]
fn range_from_zero_is_invalid() {
    assert_eq!(parse_selection("0-5"), invalid("0-5"));
}

#[test]
fn descending_range_is_invalid() {
    assert_eq!(parse_selection("5-3"), invalid("5-3"));
}

#[test]
fn letters_are_invalid() {
    assert_eq!(parse_selection("abc"), invalid("abc"));
}

#[test]
fn page_zero_is_invalid() {
    assert_eq!(parse_selection("0"), invalid("0"));
}

#[test]
fn range_to_zero_is_invalid() {
    assert_eq!(parse_selection("3-0"), invalid("3-0"));
}

#[test]
fn empty_token_is_invalid() {
    assert_eq!(parse_selection(""), invalid(""));
}

#[test]
fn lone_dash_is_invalid() {
    assert_eq!(parse_selection("-"), invalid("-"));
    assert_eq!(parse_selection("3-"), invalid("3-"));
    assert_eq!(parse_selection("-3"), invalid("-3"));
}

#[test]
fn two_dashes_are_invalid() {
    assert_eq!(parse_selection("1-2-3"), invalid("1-2-3"));
    assert_eq!(parse_selection("3--5"), invalid("3--5"));
}

#[test]
fn blanks_are_invalid() {
    assert_eq!(parse_selection(" 3"), invalid(" 3"));
    assert_eq!(parse_selection("3 - 5"), invalid("3 - 5"));
}

#[test]
fn plus_sign_and_leading_zeros_are_read() {
    assert_eq!(parse_selection("+3"), Ok(PageRange { start: 3, end: 3 }));
    assert_eq!(parse_selection("007"), Ok(PageRange { start: 7, end: 7 }));
    assert_eq!(parse_selection("+2-+4"), Ok(PageRange { start: 2, end: 4 }));
    assert_eq!(parse_selection("+"), invalid("+"));
    assert_eq!(parse_selection("++3"), invalid("++3"));
}

#[test]
fn numbers_end_at_the_largest_u32() {
    assert_eq!(
        parse_selection("4294967295"),
        Ok(PageRange { start: 4294967295, end: 4294967295 })
    );
    assert_eq!(parse_selection("4294967296"), invalid("4294967296"));
    assert_eq!(parse_selection("99999999999999999999999"), invalid("99999999999999999999999"));
    assert_eq!(
        parse_selection("1-4294967295"),
        Ok(PageRange { start: 1, end: 4294967295 })
    );
}

#[test]
fn equal_ends_make_a_range_of_one() {
    assert_eq!(parse_selection("4-4"), Ok(PageRange { start: 4, end: 4 }));
}

#[test]
fn non_ascii_digits_are_invalid() {
    assert_eq!(parse_selection("٣"), invalid("٣"));
}

#[test]
fn one_page_is_named_by_its_number() {
    assert_eq!(output_name(&vec![1]), Some("page_1.pdf".to_string()));
    assert_eq!(output_name(&vec![4294967295]), Some("page_4294967295.pdf".to_string()));
    assert_eq!(output_name(&vec![10]), Some("page_10.pdf".to_string()));
}

#[test]
fn several_pages_are_named_by_first_and_last() {
    assert_eq!(output_name(&vec![3, 4]), Some("pages_3-4.pdf".to_string()));
    assert_eq!(output_name(&vec![1, 3, 4, 5]), Some("pages_1-5.pdf".to_string()));
    assert_eq!(output_name(&vec![120, 7]), Some("pages_120-7.pdf".to_string()));
}

#[test]
fn no_pages_have_no_name() {
    assert_eq!(output_name(&vec![]), None);
}
