use analise_sensoriamento::{
    build_device_hash_table, calculate_load_balance_stats, partition_by_device, DeviceIndex,
    ProcessingConfig,
};
use std::collections::HashSet;

fn config() -> ProcessingConfig {
    ProcessingConfig {
        file_path: String::new(),
        device_column: "device".to_string(),
        num_workers: 2,
        delimiter: '|',
    }
}

#[test]
fn malformed_and_empty_device_lines_are_dropped() {
    let data = "1|dev1|a\n2||b\n3\n\n4|dev2|c\r\n5|dev1|d\n";
    let index = build_device_hash_table(data, 1, "id|device|x", &config());
    assert_eq!(index.len(), 2);
    assert_eq!(index.get("dev1").unwrap(), &vec!["1|dev1|a".to_string(), "5|dev1|d".to_string()]);
    assert_eq!(index.get("dev2").unwrap(), &vec!["4|dev2|c".to_string()]);
    assert!(index.get("").is_none());
}

#[test]
fn last_column_as_device() {
    let data = "a|x\nb|y\nc|x";
    let index = build_device_hash_table(data, 1, "v|device", &config());
    assert_eq!(index.entries()[0].device_id, "x");
    assert_eq!(index.entries()[0].lines.len(), 2);
    assert_eq!(index.entries()[1].device_id, "y");
}

#[test]
fn partition_line_total_equals_valid_lines() {
    let data = "1|a|x\n2|b|x\n3|a|x\nbroken\n4|c|x\n5|a|x\n6|b|x";
    let index = build_device_hash_table(data, 1, "id|device|v", &config());
    let chunks = partition_by_device(&index, 2, "id|device|v");
    assert_eq!(chunks.iter().map(|c| c.line_count).sum::<usize>(), 6);
}

#[test]
fn partition_follows_longest_processing_time() {
    let mut index = DeviceIndex::new();
    for (dev, n) in [("d1", 5), ("d2", 4), ("d3", 3), ("d4", 3)] {
        for i in 0..n {
            index.push_line(dev.to_string(), format!("{}-{}", dev, i));
        }
    }
    let chunks = partition_by_device(&index, 2, "h");
    assert_eq!(chunks.len(), 2);
    assert_eq!(chunks[0].device_ids, vec!["d1", "d4"]);
    assert_eq!(chunks[0].line_count, 8);
    assert_eq!(chunks[1].device_ids, vec!["d2", "d3"]);
    assert_eq!(chunks[1].line_count, 7);
    assert_eq!(chunks[1].header, "h");
    assert_eq!(chunks[1].data, "d2-0\nd2-1\nd2-2\nd2-3\nd3-0\nd3-1\nd3-2");
}

#[test]
fn no_device_in_two_chunks() {
    let mut index = DeviceIndex::new();
    for i in 0..40 {
        index.push_line(format!("dev{}", i % 7), format!("line{}", i));
    }
    let chunks = partition_by_device(&index, 3, "h");
    let mut seen = HashSet::new();
    for c in &chunks {
        for d in &c.device_ids {
            assert!(seen.insert(d.clone()));
        }
    }
    assert_eq!(seen.len(), 7);
}

#[test]
fn equal_devices_divisible_workers_are_balanced() {
    let mut index = DeviceIndex::new();
    for d in 0..6 {
        for i in 0..4 {
            index.push_line(format!("dev{}", d), format!("l{}", i));
        }
    }
    let chunks = partition_by_device(&index, 3, "h");
    let stats = calculate_load_balance_stats(&chunks);
    assert_eq!(stats.chunk_count, 3);
    assert_eq!(stats.min_load, 8);
    assert_eq!(stats.max_load, 8);
    assert_eq!(stats.total_load, 24);
    assert!(stats.imbalance_is_zero());
}

#[test]
fn more_workers_than_devices_drops_empty_chunks() {
    let mut index = DeviceIndex::new();
    index.push_line("a".to_string(), "1".to_string());
    let chunks = partition_by_device(&index, 4, "h");
    assert_eq!(chunks.len(), 1);
}

#[test]
fn zero_workers_or_empty_index_gives_no_chunk() {
    let mut index = DeviceIndex::new();
    assert!(partition_by_device(&index, 3, "h").is_empty());
    index.push_line("a".to_string(), "1".to_string());
    assert!(partition_by_device(&index, 0, "h").is_empty());
}

#[test]
fn stats_of_no_chunk_are_zero() {
    let stats = calculate_load_balance_stats(&[]);
    assert_eq!(stats.min_load, 0);
    assert_eq!(stats.max_load, 0);
    assert!(stats.imbalance_is_zero());
}

#[test]
fn default_config() {
    let c = ProcessingConfig::default();
    assert_eq!(c.device_column, "device");
    assert_eq!(c.delimiter, '|');
    assert!(c.num_workers >= 1);
    assert!(c.file_path.is_empty());
}
