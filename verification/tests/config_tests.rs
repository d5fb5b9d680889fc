use learned_index_structures::config::{
    read_toml, value_array_arrays, value_array_arrays_float, ConfigError,
};

fn under_a(text: &str) -> toml::Value {
    let value = read_toml(text).ok().unwrap();
    value.get("a").unwrap().clone()
}

#[test]
fn text_that_is_no_document_is_a_syntax_error() {
    assert_eq!(read_toml("a = [1, 2").err(), Some(ConfigError::Syntax));
    assert_eq!(read_toml("= 3").err(), Some(ConfigError::Syntax));
    assert_eq!(read_toml("a = 1\na = 2").err(), Some(ConfigError::Syntax));
}

#[test]
fn a_document_is_parsed() {
    let value = read_toml("a = 5\nb = \"five\"").ok().unwrap();
    assert_eq!(value.get("a").and_then(|v| v.as_integer()), Some(5));
    assert_eq!(value.get("b").and_then(|v| v.as_str()), Some("five"));
    assert!(read_toml("").ok().unwrap().is_table());
}

#[test]
fn positions_are_read_row_by_row() {
    let rows = value_array_arrays(&under_a("a = [[3, 1, 2], [], [4294967295, 0]]"));
    assert_eq!(
        rows.ok(),
        Some(vec![vec![3, 1, 2], vec![], vec![4294967295, 0]])
    );
    assert_eq!(value_array_arrays(&under_a("a = []")).ok(), Some(vec![]));
}

#[test]
fn what_is_no_array_of_arrays_of_positions_is_refused() {
    assert_eq!(
        value_array_arrays(&under_a("a = 5")).err(),
        Some(ConfigError::BadIndices)
    );
    assert_eq!(
        value_array_arrays(&under_a("a = [1, 2]")).err(),
        Some(ConfigError::BadIndices)
    );
    assert_eq!(
        value_array_arrays(&under_a("a = [[1, 2], [1.5]]")).err(),
        Some(ConfigError::BadIndices)
    );
    assert_eq!(
        value_array_arrays(&under_a("a = [[1, 2], [[3]]]")).err(),
        Some(ConfigError::BadIndices)
    );
    assert_eq!(
        value_array_arrays(&under_a("[a]\nb = 1")).err(),
        Some(ConfigError::BadIndices)
    );
}

#[test]
fn integers_that_are_no_positions_are_refused() {
    assert_eq!(
        value_array_arrays(&under_a("a = [[0, -1]]")).err(),
        Some(ConfigError::BadIndices)
    );
    assert_eq!(
        value_array_arrays(&under_a("a = [[4294967296]]")).err(),
        Some(ConfigError::BadIndices)
    );
}

#[test]
fn floats_are_read_by_their_bits() {
    let rows = value_array_arrays_float(&under_a("a = [[1.0, -2.5], [0.3]]"), 0)
        .ok()
        .unwrap();
    assert_eq!(rows.len(), 2);
    assert_eq!(rows[0], vec![1.0f64.to_bits(), (-2.5f64).to_bits()]);
    assert_eq!(rows[1], vec![0.3f64.to_bits()]);
}

#[test]
fn what_is_no_array_of_arrays_of_floats_names_its_layer() {
    assert_eq!(
        value_array_arrays_float(&under_a("a = [[1.0], [2]]"), 4).err(),
        Some(ConfigError::BadLayer { layer: 4 })
    );
    assert_eq!(
        value_array_arrays_float(&under_a("a = [1.0]"), 0).err(),
        Some(ConfigError::BadLayer { layer: 0 })
    );
    assert_eq!(
        value_array_arrays_float(&under_a("a = \"x\""), 9).err(),
        Some(ConfigError::BadLayer { layer: 9 })
    );
}
