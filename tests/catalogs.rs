use granular_data::dimensions::{combine_dimensions, DimensionValues, PossibleDimensions};

fn strings(values: &[&str]) -> Vec<String> {
    values.iter().map(|v| v.to_string()).collect()
}

fn catalog(entries: &[(&str, &[&str])]) -> PossibleDimensions {
    let mut c = PossibleDimensions::default();
    for (name, values) in entries {
        c = c.add_dimension(name.to_string(), strings(values));
    }
    c
}

#[test]
fn test_same_single_dimension() {
    let a = PossibleDimensions::default()
        .add_dimension("1".to_string(), vec!["a".to_string(), "b".to_string()]);
    let b = PossibleDimensions::default()
        .add_dimension("1".to_string(), vec!["a".to_string(), "b".to_string()]);

    let c = combine_dimensions(&a, &b).unwrap();

    assert_eq!(c.len(), 1);
    assert_eq!(c, a);
}

#[test]
fn merging_with_itself_gives_the_same_catalog() {
    let a = catalog(&[("Y", &["a"]), ("A", &["a", "b"]), ("B", &["x", "y"])]);
    let b = catalog(&[("Y", &["a"]), ("A", &["a", "b"]), ("B", &["x", "y"])]);
    let c = combine_dimensions(&a, &b).unwrap();
    assert_eq!(c, a);
}

#[test]
fn conflicting_values_name_the_dimension() {
    let a = catalog(&[("X", &["a", "b"])]);
    let b = catalog(&[("X", &["a", "c"])]);
    let err = combine_dimensions(&a, &b).unwrap_err();
    assert_eq!(err.name, "X");
}

#[test]
fn lower_cardinality_comes_first() {
    let a = catalog(&[("X", &["a", "b"])]);
    let b = catalog(&[("Y", &["a"])]);
    let c = combine_dimensions(&a, &b).unwrap();
    assert_eq!(c, catalog(&[("Y", &["a"]), ("X", &["a", "b"])]));
}

#[test]
fn shared_head_then_tail_of_the_other() {
    let a = catalog(&[("A", &["1", "2"])]);
    let b = catalog(&[("A", &["1", "2"]), ("B", &["1", "2", "3"])]);
    let c = combine_dimensions(&a, &b).unwrap();
    assert_eq!(c.len(), 2);
    assert_eq!(c, catalog(&[("A", &["1", "2"]), ("B", &["1", "2", "3"])]));
}

#[test]
fn remaining_left_entries_are_kept() {
    let a = catalog(&[("A", &["1"]), ("B", &["1", "2"]), ("C", &["1", "2", "3"])]);
    let b = catalog(&[("A", &["1"])]);
    let c = combine_dimensions(&a, &b).unwrap();
    assert_eq!(c, a);
}

#[test]
fn equal_cardinality_orders_by_name() {
    let a = catalog(&[("b", &["1", "2"]), ("d", &["1", "2"])]);
    let b = catalog(&[("a", &["1", "2"]), ("c", &["1", "2"])]);
    let c = combine_dimensions(&a, &b).unwrap();
    let expected = catalog(&[
        ("a", &["1", "2"]),
        ("b", &["1", "2"]),
        ("c", &["1", "2"]),
        ("d", &["1", "2"]),
    ]);
    assert_eq!(c, expected);
}

#[test]
fn merge_is_symmetric() {
    let a = catalog(&[("Y", &["a"]), ("A", &["1", "2"]), ("Z", &["1", "2", "3"])]);
    let b = catalog(&[("B", &["1"]), ("A", &["1", "2"]), ("C", &["1", "2"])]);
    let ab = combine_dimensions(&a, &b).unwrap();
    let ba = combine_dimensions(&b, &a).unwrap();
    assert_eq!(ab, ba);
    assert_eq!(ab.len(), 5);
    assert_eq!(
        ab,
        catalog(&[
            ("B", &["1"]),
            ("Y", &["a"]),
            ("A", &["1", "2"]),
            ("C", &["1", "2"]),
            ("Z", &["1", "2", "3"]),
        ])
    );
}

#[test]
fn empty_catalogs_merge_to_empty() {
    let a = PossibleDimensions::default();
    let b = PossibleDimensions::default();
    let c = combine_dimensions(&a, &b).unwrap();
    assert_eq!(c.len(), 0);
}

#[test]
fn catalog_equality_depends_on_order() {
    let a = catalog(&[("A", &["1"]), ("B", &["1"])]);
    let b = catalog(&[("B", &["1"]), ("A", &["1"])]);
    assert!(a != b);
}

#[test]
fn adding_an_existing_name_redefines_in_place() {
    let a = catalog(&[("A", &["1"]), ("B", &["1"])]).add_dimension("A".to_string(), strings(&["9"]));
    assert_eq!(a.len(), 2);
    assert_eq!(a, catalog(&[("A", &["9"]), ("B", &["1"])]));
}

#[test]
fn dimension_values_compare_element_by_element() {
    let x = DimensionValues(strings(&["a", "b"]));
    assert_eq!(x.duplicate(), x);
    assert!(x != DimensionValues(strings(&["a"])));
    assert!(x != DimensionValues(strings(&["b", "a"])));
}

#[test]
fn conflict_between_lists_of_different_lengths() {
    let a = catalog(&[("X", &["a"])]);
    let b = catalog(&[("Y", &["p"]), ("X", &["a", "b"])]);
    let err = combine_dimensions(&a, &b).unwrap_err();
    assert_eq!(err.name, "X");
    let err = combine_dimensions(&b, &a).unwrap_err();
    assert_eq!(err.name, "X");
}

#[test]
fn default_dimension_values_are_empty() {
    let d = DimensionValues::default();
    assert!(d.0.is_empty());
}
