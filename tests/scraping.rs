use rust_indexer::scraping::{context_bounds, drop_bom, scrape_folded, scrape_text};

const LF_TEXT: &str = "ABCDEFGH\nIJKLMNOP\nQRSTUVWX\nYZ012345\nABCDEFGH ABCDEFGH\nIJKLMNOP IJKLMNOP\nQRSTUVWX QRSTUVWX\nYZ012345 YZ012345\n";

#[test]
fn scrape_text_empty_query() {
    let matches = scrape_text("test-file-lf.txt", LF_TEXT, "");
    assert!(matches.len() == 0);
}

fn check_abc_matches(path: &str, text: &str) {
    let matches = scrape_text(path, text, "abc");

    assert_eq!(3, matches.len());

    assert_eq!(path, matches[0].file_path);
    assert_eq!(0, matches[0].offset);
    assert_eq!(3, matches[0].length);
    assert_eq!("ABCDEFGH\nIJKLMNOP\nQRSTUVWX", matches[0].text);

    assert_eq!(path, matches[1].file_path);
    assert_eq!(36, matches[1].offset);
    assert_eq!(3, matches[1].length);
    assert_eq!(
        "QRSTUVWX\nYZ012345\nABCDEFGH ABCDEFGH\nIJKLMNOP IJKLMNOP\nQRSTUVWX QRSTUVWX",
        matches[1].text
    );

    assert_eq!(path, matches[2].file_path);
    assert_eq!(45, matches[2].offset);
    assert_eq!(3, matches[2].length);
    assert_eq!(
        "QRSTUVWX\nYZ012345\nABCDEFGH ABCDEFGH\nIJKLMNOP IJKLMNOP\nQRSTUVWX QRSTUVWX",
        matches[2].text
    );
}

#[test]
fn scrape_text_matches_lf() {
    check_abc_matches("test-file-lf.txt", LF_TEXT);
}

#[test]
fn scrape_text_matches_lf_bom() {
    let with_bom = format!("\u{feff}{}", LF_TEXT);
    check_abc_matches("test-file-lf-BOM.txt", &with_bom);
}

#[test]
fn scrape_text_nonmatches_lf() {
    let matches = scrape_text("test-file-lf.txt", LF_TEXT, "cba");
    assert_eq!(0, matches.len());
}

#[test]
fn scrape_text_folds_case_of_query() {
    let matches = scrape_text("f", "one\nTwo two\nthree", "TWO");
    assert_eq!(2, matches.len());
    assert_eq!(4, matches[0].offset);
    assert_eq!(8, matches[1].offset);
    assert_eq!("one\nTwo two\nthree", matches[0].text);
}

#[test]
fn context_stops_at_third_line_break() {
    let b = b"a\nb\nc\nXYZ\nd\ne\nf\n";
    // The hit "XYZ" spans bytes 6..9.
    assert_eq!((2, 13), context_bounds(b, 6, 3, 5));
    assert_eq!((6, 9), context_bounds(b, 6, 3, 1));
    assert_eq!((0, 16), context_bounds(b, 6, 3, 100));
}

#[test]
fn bom_is_dropped_once() {
    assert_eq!("abc", drop_bom("\u{feff}abc"));
    assert_eq!("abc\u{feff}", drop_bom("abc\u{feff}"));
    assert_eq!("\u{feff}x", drop_bom("\u{feff}\u{feff}x"));
    assert_eq!("", drop_bom(""));
}

#[test]
fn scrape_folded_uses_given_folding() {
    // The folded text is taken as given: the hit is found in it, and the
    // snippet is cut from the unfolded text.
    let matches = scrape_folded("f", "Line\nHELLO there\nend", "line\nhello there\nend", "hello");
    assert_eq!(1, matches.len());
    assert_eq!(5, matches[0].offset);
    assert_eq!(5, matches[0].length);
    assert_eq!("Line\nHELLO there\nend", matches[0].text);
    assert!(scrape_folded("f", "HELLO", "HELLO", "hello").is_empty());
}
