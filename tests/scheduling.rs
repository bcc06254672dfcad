use analise_sensoriamento::{
    collect_by_index, get_header_columns, merge_results, validate_csv_extension,
    ProcessingError, SensorSeries,
};

fn series(device: &str, month: &str, sensor: &str) -> SensorSeries {
    SensorSeries {
        device: device.to_string(),
        year_month: month.to_string(),
        sensor: sensor.to_string(),
        values: vec!["1".to_string()],
    }
}

#[test]
fn collection_restores_chunk_order() {
    let r = collect_by_index(3, vec![(2, "c"), (0, "a"), (1, "b")]);
    assert_eq!(r, vec![Ok("a"), Ok("b"), Ok("c")]);
}

#[test]
fn any_delivery_order_gives_same_results() {
    let a = collect_by_index(4, vec![(0, 10), (1, 11), (2, 12), (3, 13)]);
    let b = collect_by_index(4, vec![(3, 13), (1, 11), (0, 10), (2, 12)]);
    assert_eq!(a, b);
}

#[test]
fn missing_slot_reports_incomplete_task() {
    let r = collect_by_index(3, vec![(0, 'x'), (2, 'z')]);
    assert_eq!(r[0], Ok('x'));
    assert_eq!(r[1], Err(ProcessingError::TaskIncomplete(1)));
    assert_eq!(r[2], Ok('z'));
}

#[test]
fn merged_output_is_globally_sorted() {
    let part1 = vec![series("a", "2024-04", "eco2"), series("c", "2024-04", "ruido")];
    let part2 = vec![series("b", "2024-03", "umidade"), series("d", "2024-01", "eco2")];
    let merged = merge_results(vec![part1, part2]);
    let devices: Vec<&str> = merged.iter().map(|s| s.device.as_str()).collect();
    assert_eq!(devices, vec!["a", "b", "c", "d"]);
}

#[test]
fn merge_is_independent_of_part_order() {
    let first = vec![series("a", "2024-04", "eco2"), series("a", "2024-05", "eco2")];
    let second = vec![series("b", "2024-03", "etvoc")];
    let x = merge_results(vec![first.clone(), second.clone()]);
    let y = merge_results(vec![second, first]);
    assert_eq!(format!("{:?}", x), format!("{:?}", y));
}

#[test]
fn header_columns_are_trimmed() {
    assert_eq!(get_header_columns(" id | device ", '|'), vec!["id", "device"]);
}

#[test]
fn extension_check_is_case_insensitive_only_on_extension() {
    assert!(validate_csv_extension("dir/data.Csv"));
    assert!(!validate_csv_extension("csv"));
    assert!(!validate_csv_extension("data.csv.bak"));
}

#[test]
fn incrementa_adds_the_fixed_count() {
    let mut c: i32 = 5;
    analise_sensoriamento::incrementa(&mut c);
    assert_eq!(c, 5 + analise_sensoriamento::NUM_INCREMENTOS);
}
