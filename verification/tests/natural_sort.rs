use std::cmp::Ordering;

use data_cleaning::utils::natural_sort::natural_cmp;

#[test]
fn numeric_runs_compare_by_value_not_by_text() {
    assert_eq!(
        natural_cmp("银联国补明细2.xlsx", "银联国补明细10.xlsx"),
        Ordering::Less
    );
}

#[test]
fn non_numeric_text_compares_lexically() {
    assert_eq!(natural_cmp("a.xlsx", "b.xlsx"), Ordering::Less);
}

#[test]
fn identical_names_are_equal() {
    assert_eq!(
        natural_cmp("银联国补明细2.xlsx", "银联国补明细2.xlsx"),
        Ordering::Equal
    );
}

#[test]
fn sorts_a_full_file_list_in_natural_order() {
    let mut names = vec![
        "银联国补明细10.xlsx",
        "银联国补明细2.xlsx",
        "银联国补明细1.xlsx",
    ];
    names.sort_by(|a, b| natural_cmp(a, b));
    assert_eq!(
        names,
        vec![
            "银联国补明细1.xlsx",
            "银联国补明细2.xlsx",
            "银联国补明细10.xlsx",
        ]
    );
}

#[test]
fn swapping_the_arguments_reverses_the_order() {
    let pairs = [
        ("a10", "a9"),
        ("x", "x1"),
        ("b2c", "b2d"),
        ("007", "7"),
        ("明细3", "明细3"),
    ];
    for (a, b) in pairs {
        assert_eq!(natural_cmp(a, b), natural_cmp(b, a).reverse());
    }
}

#[test]
fn the_order_is_transitive_on_a_chain() {
    let a = "f1.xlsx";
    let b = "f9.xlsx";
    let c = "f10.xlsx";
    assert_eq!(natural_cmp(a, b), Ordering::Less);
    assert_eq!(natural_cmp(b, c), Ordering::Less);
    assert_eq!(natural_cmp(a, c), Ordering::Less);
}

#[test]
fn leading_zeros_do_not_change_the_value() {
    assert_eq!(natural_cmp("x007", "x7"), Ordering::Equal);
    assert_eq!(natural_cmp("x007", "x8"), Ordering::Less);
}
