use data_cleaning::utils::text::has_isolated_boundaries;

#[test]
fn boundary_check_rejects_substring_of_longer_run() {
    let haystack = "参考号16867252734N88";
    let start = haystack.find("16867252734N").unwrap();
    let end = start + "16867252734N".len();
    assert!(!has_isolated_boundaries(haystack, start, end));
}

#[test]
fn boundary_check_accepts_isolated_match() {
    let haystack = "参考号：16867252734N。";
    let start = haystack.find("16867252734N").unwrap();
    let end = start + "16867252734N".len();
    assert!(has_isolated_boundaries(haystack, start, end));
}

#[test]
fn boundary_check_rejects_letter_before() {
    let haystack = "x16867252734N";
    assert!(!has_isolated_boundaries(haystack, 1, haystack.len()));
}

#[test]
fn boundary_check_accepts_whole_text() {
    let haystack = "16867252734N";
    assert!(has_isolated_boundaries(haystack, 0, haystack.len()));
}
