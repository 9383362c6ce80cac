use chunkstats::merge::{collect_partials, merge_groups};
use chunkstats::table::KeyedTable;

fn table(entries: &[(&str, i64)]) -> KeyedTable<i64> {
    let mut table = KeyedTable::new();
    for (key, value) in entries {
        table.insert(key.to_string(), *value);
    }
    table
}

fn groups_of(partials: &Vec<KeyedTable<i64>>) -> Vec<(String, Vec<i64>)> {
    let groups = merge_groups(partials);
    (0..groups.len())
        .map(|i| {
            (groups.key_at(i).to_string(), groups.value_at(i).iter().map(|v| **v).collect())
        })
        .collect()
}

fn group(key: &str, values: &[i64]) -> (String, Vec<i64>) {
    (key.to_string(), values.to_vec())
}

#[test]
fn merge_of_no_table_is_empty() {
    assert_eq!(groups_of(&Vec::new()), Vec::new());
    assert_eq!(groups_of(&vec![table(&[]), table(&[])]), Vec::new());
}

#[test]
fn merge_collects_the_values_of_each_key_in_worker_order() {
    let partials = vec![
        table(&[("Tokyo", 1), ("Oslo", 2)]),
        table(&[("Paris", 3)]),
        table(&[("Oslo", 4), ("Tokyo", 5), ("Accra", 6)]),
    ];
    assert_eq!(
        groups_of(&partials),
        vec![
            group("Accra", &[6]),
            group("Oslo", &[2, 4]),
            group("Paris", &[3]),
            group("Tokyo", &[1, 5]),
        ]
    );
}

#[test]
fn key_of_one_worker_keeps_that_workers_value() {
    let partials = vec![table(&[("Tokyo", 1)]), table(&[("Oslo", -7)]), table(&[("Tokyo", 3)])];
    let groups = groups_of(&partials);
    assert_eq!(groups[0], group("Oslo", &[-7]));
}

#[test]
fn merge_does_not_depend_on_the_order_of_the_workers() {
    let tables = [
        vec![("Tokyo", 1), ("Oslo", 2)],
        vec![("Paris", 3), ("Oslo", 7)],
        vec![("Oslo", 4), ("Tokyo", 5), ("Accra", 6)],
    ];
    let orders = [[0, 1, 2], [0, 2, 1], [1, 0, 2], [1, 2, 0], [2, 0, 1], [2, 1, 0]];
    let first: Vec<KeyedTable<i64>> = orders[0].iter().map(|w| table(&tables[*w])).collect();
    let mut expected = groups_of(&first);
    for (_, values) in expected.iter_mut() {
        values.sort();
    }
    for order in orders.iter() {
        let partials: Vec<KeyedTable<i64>> = order.iter().map(|w| table(&tables[*w])).collect();
        let mut groups = groups_of(&partials);
        for (_, values) in groups.iter_mut() {
            values.sort();
        }
        assert_eq!(groups, expected);
    }
}

#[test]
fn equal_tables_merge_to_one_copy_for_each_worker() {
    let one = vec![table(&[("Tokyo", 30), ("Oslo", -5)])];
    assert_eq!(groups_of(&one), vec![group("Oslo", &[-5]), group("Tokyo", &[30])]);
    let three: Vec<KeyedTable<i64>> =
        (0..3).map(|_| table(&[("Tokyo", 30), ("Oslo", -5)])).collect();
    assert_eq!(
        groups_of(&three),
        vec![group("Oslo", &[-5, -5, -5]), group("Tokyo", &[30, 30, 30])]
    );
}

#[test]
fn merge_leaves_the_tables_as_they_were() {
    let partials = vec![table(&[("Tokyo", 1)]), table(&[("Tokyo", 2)])];
    let _ = groups_of(&partials);
    assert_eq!(partials[0].get("Tokyo"), Some(&1));
    assert_eq!(partials[1].get("Tokyo"), Some(&2));
}

#[test]
fn run_goes_on_when_every_worker_succeeded() {
    let results: Vec<Result<i64, String>> = vec![Ok(1), Ok(2), Ok(3)];
    assert_eq!(collect_partials(results), Ok(vec![1, 2, 3]));
    let none: Vec<Result<i64, String>> = Vec::new();
    assert_eq!(collect_partials(none), Ok(Vec::new()));
}

#[test]
fn run_fails_with_the_first_error() {
    let results: Vec<Result<i64, String>> =
        vec![Ok(1), Err("second".to_string()), Ok(3), Err("fourth".to_string())];
    assert_eq!(collect_partials(results), Err("second".to_string()));
    let only: Vec<Result<i64, String>> = vec![Err("first".to_string())];
    assert_eq!(collect_partials(only), Err("first".to_string()));
}
