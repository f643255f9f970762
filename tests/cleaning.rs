use ocr_pipeline::text::{
    clean_ocr_text, clean_with_config, combine_split_words, normalize_newlines_preserve_paragraphs,
    remove_headers_and_footers, remove_non_alphabetic, remove_page_numbers,
    remove_repetitive_patterns_preserving_paragraphs, remove_scan_artifacts, trim_lines,
    CleanerConfig,
};
use regex::Regex;

#[test]
fn hyphen_at_line_end_joins_word() {
    assert_eq!(combine_split_words("exam-\nple"), "example");
}

#[test]
fn hyphen_not_at_line_end_is_kept() {
    assert_eq!(combine_split_words("well-known\nfact"), "well-known\nfact");
    assert_eq!(combine_split_words("a--\n\nb"), "a-\nb");
    assert_eq!(combine_split_words(""), "");
}

#[test]
fn double_newline_is_preserved() {
    assert_eq!(normalize_newlines_preserve_paragraphs("line one\n\nline two"), "line one\n\nline two");
}

#[test]
fn single_newline_becomes_space() {
    assert_eq!(normalize_newlines_preserve_paragraphs("line one\nline two"), "line one line two");
    assert_eq!(normalize_newlines_preserve_paragraphs("\na\n"), " a ");
    assert_eq!(normalize_newlines_preserve_paragraphs("a\n\n\nb\nc"), "a\n\n\nb c");
}

#[test]
fn four_hyphens_are_removed() {
    assert_eq!(remove_repetitive_patterns_preserving_paragraphs("----"), "");
}

#[test]
fn three_hyphens_are_kept() {
    assert_eq!(remove_repetitive_patterns_preserving_paragraphs("---"), "---");
}

#[test]
fn newline_runs_are_kept() {
    assert_eq!(remove_repetitive_patterns_preserving_paragraphs("a\n\n\nb"), "a\n\n\nb");
    assert_eq!(remove_repetitive_patterns_preserving_paragraphs("\n\n\n\n\n"), "\n\n\n\n\n");
}

#[test]
fn dot_leaders_are_removed_inside_text() {
    assert_eq!(
        remove_repetitive_patterns_preserving_paragraphs("Intro.......5\nbook"),
        "Intro5\nbook"
    );
    assert_eq!(remove_repetitive_patterns_preserving_paragraphs("aaab"), "aaab");
    assert_eq!(remove_repetitive_patterns_preserving_paragraphs(""), "");
}

#[test]
fn scan_artifacts_are_removed() {
    assert_eq!(remove_scan_artifacts("a[b]c{d}e!f?g"), "abcdefg");
    assert_eq!(remove_scan_artifacts("wait... then::now"), "wait thennow");
    assert_eq!(remove_scan_artifacts("...."), ".");
    assert_eq!(remove_scan_artifacts(":::"), ":");
    assert_eq!(remove_scan_artifacts("plain"), "plain");
}

#[test]
fn page_numbers_at_text_edges_are_removed() {
    assert_eq!(remove_page_numbers("12 Chapter text 34"), "Chapter text");
    assert_eq!(remove_page_numbers("12\nbody\n  7"), "body");
    assert_eq!(remove_page_numbers("12 34"), "");
    assert_eq!(remove_page_numbers(" 12"), "");
    assert_eq!(remove_page_numbers("page 3 of text"), "page 3 of text");
    assert_eq!(remove_page_numbers("x1 2"), "x1");
    assert_eq!(remove_page_numbers(""), "");
}

#[test]
fn page_headers_are_removed() {
    assert_eq!(remove_headers_and_footers("Page 12 text Page 3"), " text ");
    assert_eq!(remove_headers_and_footers("Page x"), "Page x");
    assert_eq!(remove_headers_and_footers("PPage 9!"), "P!");
}

#[test]
fn stages_match_the_literal_patterns() {
    let samples = [
        "exam-\nple and Page 12 here",
        "12 body 34",
        "Page 1Page 22--\n",
        "  5\ntext\n 6 ",
        "nothing to do",
        "7",
        "",
        "\u{663}",
        "\u{663} intro Page \u{661}\u{662} end \u{FF19}",
        "Page \u{966}\u{967}x",
    ];
    let split = Regex::new(r"-\n").unwrap();
    let headers = Regex::new(r"(Page \d+)").unwrap();
    let numbers = Regex::new(r"^\d+\s*|\s*\d+$").unwrap();
    for s in samples {
        assert_eq!(combine_split_words(s), split.replace_all(s, "").to_string());
        assert_eq!(remove_headers_and_footers(s), headers.replace_all(s, "").to_string());
        assert_eq!(remove_page_numbers(s), numbers.replace_all(s, "").to_string());
    }
}

#[test]
fn lines_are_trimmed() {
    assert_eq!(trim_lines("  a  \n\tb\t\n\n c "), "a\nb\n\nc");
    assert_eq!(trim_lines("a\n"), "a");
    assert_eq!(trim_lines("a\r\nb"), "a\nb");
    assert_eq!(trim_lines("\n"), "");
    assert_eq!(trim_lines(""), "");
    assert_eq!(trim_lines("a\n\n"), "a\n");
}

#[test]
fn non_alphabetic_characters_are_removed() {
    assert_eq!(remove_non_alphabetic("Hi, you (there)! #1."), "Hi, you there! 1.");
    assert_eq!(remove_non_alphabetic("é-ü"), "");
}

#[test]
fn clean_runs_stages_in_order() {
    let raw = "12 The exam-\nple Page 4 shows\n\nsecond [para]\n------\n 99";
    assert_eq!(clean_ocr_text(raw), "The example  shows\n\nsecond para ");
}

#[test]
fn clean_with_non_alphabetic_pass() {
    let config = CleanerConfig { strip_non_alphabetic: true };
    assert_eq!(clean_with_config("a (b) c", &config), "a b c");
    assert_eq!(clean_with_config("a (b) c", &CleanerConfig::new()), "a (b) c");
}

#[test]
fn clean_text_is_unchanged_by_cleaning() {
    let text = "The first paragraph.\n\nThe second one, short.";
    let once = clean_ocr_text(text);
    assert_eq!(once, text);
    assert_eq!(clean_ocr_text(&once), once);
}

#[test]
fn unicode_decimal_digits_count_as_digits() {
    assert_eq!(remove_page_numbers("\u{663}"), "");
    assert_eq!(remove_page_numbers("\u{661}\u{662} body \u{FF13}"), "body");
    assert_eq!(remove_headers_and_footers("Page \u{663}"), "");
    assert_eq!(remove_headers_and_footers("see Page \u{966}\u{967}."), "see .");
    assert_eq!(remove_headers_and_footers("Page \u{B2}"), "Page \u{B2}");
    assert_eq!(remove_non_alphabetic("a\u{663}1"), "a1");
}
