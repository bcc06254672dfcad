use analise_sensoriamento::{
    aggregate_rows, build_device_hash_table, keep_flags, calculate_load_balance_stats, find_column_index,
    get_header_columns, partition_by_device, select_rows, validate_csv_extension, ChunkRows,
    CsvChunk, DeviceIndex, ProcessingConfig, SensorSeries,
};

fn kept(rows: &ChunkRows) -> Vec<bool> {
    let fields: Vec<Vec<bool>> = rows
        .rows
        .iter()
        .map(|r| r.fields.iter().map(|f| f.trim().parse::<f64>().is_ok()).collect())
        .collect();
    let readings: Vec<Vec<bool>> = rows
        .rows
        .iter()
        .map(|r| r.readings.iter().map(|v| v.parse::<f64>().is_ok()).collect())
        .collect();
    keep_flags(rows, &fields, &readings)
}

fn analyze(chunk: &CsvChunk) -> (Vec<SensorSeries>, usize) {
    let rows = select_rows(chunk, '|');
    let keep = kept(&rows);
    (aggregate_rows(&rows, &keep), rows.total_lines_processed)
}

#[test]
fn test_device_hash_table_building() {
    let data = "1|dev1|23.5|45.2\n2|dev1|24.1|46.8\n3|dev2|22.8|44.5";
    let config = ProcessingConfig {
        delimiter: '|',
        ..Default::default()
    };
    let hash_table = build_device_hash_table(data, 1, "id|device|temp|hum", &config);
    assert_eq!(hash_table.len(), 2);
    assert!(hash_table.contains_key("dev1"));
    assert!(hash_table.contains_key("dev2"));
    assert_eq!(hash_table.get("dev1").unwrap().len(), 2);
    assert_eq!(hash_table.get("dev2").unwrap().len(), 1);
}

#[test]
fn test_device_partitioning() {
    let mut hash_table = DeviceIndex::new();
    hash_table.push_line("dev1".to_string(), "line1".to_string());
    hash_table.push_line("dev1".to_string(), "line2".to_string());
    hash_table.push_line("dev2".to_string(), "line3".to_string());
    let chunks = partition_by_device(&hash_table, 2, "header");
    assert_eq!(chunks.len(), 2);
    assert_eq!(chunks.iter().map(|c| c.line_count).sum::<usize>(), 3);
}

#[test]
fn test_load_balance_stats() {
    let chunks = vec![
        CsvChunk {
            data: String::new(),
            header: String::new(),
            device_ids: vec![],
            line_count: 10,
        },
        CsvChunk {
            data: String::new(),
            header: String::new(),
            device_ids: vec![],
            line_count: 20,
        },
    ];
    let stats = calculate_load_balance_stats(&chunks);
    assert_eq!(stats.min_load, 10);
    assert_eq!(stats.max_load, 20);
    let average = stats.total_load as f64 / stats.chunk_count as f64;
    let imbalance = (stats.max_load - stats.min_load) as f64 / average;
    assert!(imbalance > 0.0);
    assert!(!stats.imbalance_is_zero());
}

#[test]
fn test_csv_extension_validation() {
    assert!(validate_csv_extension("test.csv"));
    assert!(validate_csv_extension("test.CSV"));
    assert!(!validate_csv_extension("test.txt"));
    assert!(!validate_csv_extension("test"));
}

#[test]
fn test_memory_mapping() {
    let header = "id|device|temperature|humidity";
    assert_eq!(find_column_index(header, "device", '|'), Some(1));
    assert_eq!(find_column_index(header, "nonexistent", '|'), None);
    let columns = get_header_columns(header, '|');
    assert_eq!(columns, vec!["id", "device", "temperature", "humidity"]);
}

#[test]
fn test_end_to_end_csv_processing() {
    let header = "id|device|data|temperatura|umidade|luminosidade|ruido|eco2|etvoc";
    let data = "1|dev1|2024-04-01 10:00:00|23.5|45.0|100|50|400|200\n\
                2|dev1|2024-04-01 11:00:00|24.0|46.0|110|55|410|210\n\
                3|dev2|2024-04-01 12:00:00|22.5|44.0|95|48|395|195\n\
                4|dev2|2024-04-01 13:00:00|23.0|45.5|105|52|405|205\n";
    assert!(header.contains("device"));
    let device_column_index = find_column_index(header, "device", '|').unwrap();
    assert_eq!(device_column_index, 1);
    let config = ProcessingConfig {
        delimiter: '|',
        ..Default::default()
    };
    let hash_table = build_device_hash_table(data, device_column_index, header, &config);
    assert_eq!(hash_table.len(), 2);
    assert!(hash_table.contains_key("dev1"));
    assert!(hash_table.contains_key("dev2"));
    let chunks = partition_by_device(&hash_table, 2, header);
    assert!(!chunks.is_empty());
    assert!(chunks.len() <= 2);
    let results: Vec<(Vec<SensorSeries>, usize)> = chunks.iter().map(analyze).collect();
    assert!(!results.is_empty());
    let total_aggregations: usize = results.iter().map(|r| r.0.len()).sum();
    assert!(total_aggregations > 0);
}

#[test]
fn test_csv_chunk_analysis() {
    let chunk = CsvChunk {
        data: "1|dev1|2024-04-01 10:00:00|23.5|45.0|100|50|400|200\n2|dev1|2024-04-01 11:00:00|24.0|46.0|110|55|410|210".to_string(),
        header: "id|device|data|temperatura|umidade|luminosidade|ruido|eco2|etvoc".to_string(),
        device_ids: vec!["dev1".to_string()],
        line_count: 2,
    };
    let (result, total_lines_processed) = analyze(&chunk);
    assert!(!result.is_empty());
    assert_eq!(total_lines_processed, 2);
    let has_temperatura = result.iter().any(|agg| agg.sensor == "temperatura");
    assert!(has_temperatura, "Should have temperatura aggregations");
}

#[test]
fn test_device_partitioning_load_balance() {
    let mut hash_table = DeviceIndex::new();
    for _ in 0..100 {
        hash_table.push_line("dev1".to_string(), "line1".to_string());
    }
    for _ in 0..50 {
        hash_table.push_line("dev2".to_string(), "line2".to_string());
    }
    for _ in 0..25 {
        hash_table.push_line("dev3".to_string(), "line3".to_string());
    }
    let chunks = partition_by_device(&hash_table, 3, "header");
    assert_eq!(chunks.len(), 3);
    let stats = calculate_load_balance_stats(&chunks);
    assert!(stats.min_load > 0);
    assert!(stats.max_load >= stats.min_load);
    let average = stats.total_load as f64 / stats.chunk_count as f64;
    let imbalance_ratio = (stats.max_load - stats.min_load) as f64 / average;
    assert!(imbalance_ratio >= 0.0);
}

#[test]
fn test_empty_data_handling() {
    let chunk = CsvChunk {
        data: String::new(),
        header: "id|device|data|temperatura".to_string(),
        device_ids: vec![],
        line_count: 0,
    };
    let (result, total_lines_processed) = analyze(&chunk);
    assert_eq!(result.len(), 0);
    assert_eq!(total_lines_processed, 0);
}

#[test]
fn test_csv_validation() {
    assert!(validate_csv_extension("test.csv"));
    assert!(validate_csv_extension("test.CSV"));
    assert!(!validate_csv_extension("test.txt"));
    assert!(!validate_csv_extension("test"));
}
