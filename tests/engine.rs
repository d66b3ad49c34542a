use actividades_rust::engine::{
    buscar_registros_avanzado, calcular_estadisticas, filtrar_registros, ordenar_registros,
};
use actividades_rust::record::Record;

fn rec(pairs: &[(&str, &str)]) -> Record {
    let mut r = Record::new();
    for (k, v) in pairs {
        r.insert(k.to_string(), v.to_string());
    }
    r
}

fn field_values(rs: &[Record], f: &str) -> Vec<String> {
    rs.iter()
        .map(|r| r.get(f).cloned().unwrap_or_default())
        .collect()
}

#[test]
fn record_insert_replaces_value() {
    let mut r = rec(&[("a", "1"), ("b", "2")]);
    r.insert("a".to_string(), "3".to_string());
    assert_eq!(r.get("a"), Some(&"3".to_string()));
    assert_eq!(r.get("b"), Some(&"2".to_string()));
    assert_eq!(r.get("c"), None);
    assert_eq!(r.pairs().len(), 2);
}

#[test]
fn search_finds_record_ignoring_case() {
    let rs = vec![rec(&[("a", "Foo")])];
    let out = buscar_registros_avanzado(&rs, "foo", &vec!["a".to_string()]);
    assert_eq!(field_values(&out, "a"), vec!["Foo".to_string()]);
}

#[test]
fn search_on_other_field_finds_nothing() {
    let rs = vec![rec(&[("a", "Foo")])];
    let out = buscar_registros_avanzado(&rs, "foo", &vec!["b".to_string()]);
    assert!(out.is_empty());
}

#[test]
fn search_with_no_fields_finds_nothing() {
    let rs = vec![rec(&[("a", "Foo")])];
    let out = buscar_registros_avanzado(&rs, "foo", &vec![]);
    assert!(out.is_empty());
}

#[test]
fn search_adds_each_record_once_in_order() {
    let rs = vec![
        rec(&[("a", "xfoo"), ("b", "foo"), ("id", "1")]),
        rec(&[("a", "bar"), ("id", "2")]),
        rec(&[("b", "FOOD"), ("id", "3")]),
    ];
    let out = buscar_registros_avanzado(&rs, "FoO", &vec!["a".to_string(), "b".to_string()]);
    assert_eq!(field_values(&out, "id"), vec!["1".to_string(), "3".to_string()]);
}

#[test]
fn aggregate_counts_each_value() {
    let rs = vec![rec(&[("x", "1")]), rec(&[("x", "2")]), rec(&[("x", "1")])];
    let mut out = calcular_estadisticas(&rs, "x");
    out.sort();
    assert_eq!(out, vec![("1".to_string(), 2), ("2".to_string(), 1)]);
}

#[test]
fn aggregate_skips_records_without_field_and_keeps_case() {
    let rs = vec![rec(&[("x", "A")]), rec(&[("y", "A")]), rec(&[("x", "a")])];
    let mut out = calcular_estadisticas(&rs, "x");
    out.sort();
    assert_eq!(out, vec![("A".to_string(), 1), ("a".to_string(), 1)]);
    assert!(calcular_estadisticas(&vec![], "x").is_empty());
}

#[test]
fn sort_ascending_and_descending() {
    let rs = vec![rec(&[("n", "b")]), rec(&[("n", "a")])];
    let up = ordenar_registros(rs, "n", true);
    assert_eq!(field_values(&up, "n"), vec!["a".to_string(), "b".to_string()]);
    let down = ordenar_registros(up, "n", false);
    assert_eq!(field_values(&down, "n"), vec!["b".to_string(), "a".to_string()]);
}

#[test]
fn sort_missing_field_sorts_as_empty() {
    let rs = vec![rec(&[("n", "b")]), rec(&[("id", "none")]), rec(&[("n", "a")])];
    let up = ordenar_registros(rs, "n", true);
    assert_eq!(field_values(&up, "id"), vec!["none".to_string(), String::new(), String::new()]);
    assert_eq!(field_values(&up, "n"), vec![String::new(), "a".to_string(), "b".to_string()]);
}

#[test]
fn sort_keeps_order_of_equal_keys() {
    let rs = vec![
        rec(&[("n", "b"), ("id", "1")]),
        rec(&[("n", "a"), ("id", "2")]),
        rec(&[("n", "b"), ("id", "3")]),
        rec(&[("n", "a"), ("id", "4")]),
    ];
    let up = ordenar_registros(rs, "n", true);
    assert_eq!(field_values(&up, "id"), vec!["2", "4", "1", "3"]);
    let down = ordenar_registros(up, "n", false);
    assert_eq!(field_values(&down, "id"), vec!["1", "3", "2", "4"]);
}

#[test]
fn sort_orders_by_code_point() {
    let rs = vec![rec(&[("n", "b")]), rec(&[("n", "B")]), rec(&[("n", "ab")]), rec(&[("n", "a")])];
    let up = ordenar_registros(rs, "n", true);
    assert_eq!(field_values(&up, "n"), vec!["B", "a", "ab", "b"]);
}

#[test]
fn filter_ignores_case() {
    let rs = vec![rec(&[("a", "FOO")]), rec(&[("a", "bar")])];
    let out = filtrar_registros(&rs, &rec(&[("a", "foo")]));
    assert_eq!(field_values(&out, "a"), vec!["FOO".to_string()]);
    let out = filtrar_registros(&rs, &rec(&[("a", "Fo")]));
    assert_eq!(field_values(&out, "a"), vec!["FOO".to_string()]);
}

#[test]
fn filter_excludes_record_missing_field() {
    let rs = vec![rec(&[("a", "foo"), ("id", "1")]), rec(&[("a", "foo"), ("b", "x"), ("id", "2")])];
    let out = filtrar_registros(&rs, &rec(&[("a", "foo"), ("b", "x")]));
    assert_eq!(field_values(&out, "id"), vec!["2".to_string()]);
}

#[test]
fn filter_empty_criteria_keeps_all_in_order() {
    let rs = vec![rec(&[("id", "1")]), rec(&[("id", "2")]), rec(&[])];
    let out = filtrar_registros(&rs, &Record::new());
    assert_eq!(field_values(&out, "id"), vec!["1".to_string(), "2".to_string(), String::new()]);
}

#[test]
fn filter_twice_is_filter_once() {
    let rs = vec![
        rec(&[("a", "Foo"), ("id", "1")]),
        rec(&[("a", "bar"), ("id", "2")]),
        rec(&[("a", "xfoox"), ("id", "3")]),
    ];
    let crit = rec(&[("a", "FOO")]);
    let once = filtrar_registros(&rs, &crit);
    let twice = filtrar_registros(&once, &crit);
    assert_eq!(field_values(&once, "id"), vec!["1".to_string(), "3".to_string()]);
    assert_eq!(field_values(&twice, "id"), field_values(&once, "id"));
}
