use analise_sensoriamento::{
    aggregate_rows, keep_flags, select_rows, ChunkRows, CsvChunk, SensorSeries,
};

fn kept(rows: &ChunkRows) -> Vec<bool> {
    let fields: Vec<Vec<bool>> = rows
        .rows
        .iter()
        .map(|r| r.fields.iter().map(|f| f.trim().parse::<f64>().is_ok()).collect())
        .collect();
    let readings: Vec<Vec<bool>> = rows
        .rows
        .iter()
        .map(|r| r.readings.iter().map(|v| v.parse::<f64>().is_ok()).collect())
        .collect();
    keep_flags(rows, &fields, &readings)
}

fn chunk(header: &str, data: &str) -> CsvChunk {
    CsvChunk {
        data: data.to_string(),
        header: header.to_string(),
        device_ids: vec![],
        line_count: data.lines().count(),
    }
}

fn run(header: &str, data: &str) -> Vec<SensorSeries> {
    let rows = select_rows(&chunk(header, data), '|');
    let keep = kept(&rows);
    aggregate_rows(&rows, &keep)
}

fn stats(values: &[String]) -> (f64, f64, f64) {
    let xs: Vec<f64> = values.iter().map(|v| v.parse::<f64>().unwrap()).collect();
    let max = xs.iter().cloned().fold(f64::NEG_INFINITY, f64::max);
    let min = xs.iter().cloned().fold(f64::INFINITY, f64::min);
    let mean = xs.iter().sum::<f64>() / xs.len() as f64;
    (max, mean, min)
}

#[test]
fn basic_aggregation_one_record() {
    let out = run(
        "id|device|data|temperatura",
        "1|dev1|2024-04-01 10:00:00|23.5\n2|dev1|2024-04-01 11:00:00|24.0",
    );
    assert_eq!(out.len(), 1);
    assert_eq!(out[0].device, "dev1");
    assert_eq!(out[0].year_month, "2024-04");
    assert_eq!(out[0].sensor, "temperatura");
    assert_eq!(out[0].values, vec!["23.5", "24.0"]);
    let (max, mean, min) = stats(&out[0].values);
    assert_eq!(max, 24.0);
    assert_eq!(mean, 23.75);
    assert_eq!(min, 23.5);
}

#[test]
fn date_boundary_first_of_march_included() {
    let out = run(
        "device|data|temperatura",
        "dev1|2024-03-01 00:00:00|10\ndev1|2024-02-29 23:59:59|99",
    );
    assert_eq!(out.len(), 1);
    assert_eq!(out[0].year_month, "2024-03");
    assert_eq!(out[0].values, vec!["10"]);
}

#[test]
fn empty_chunk_gives_nothing() {
    let rows = select_rows(&chunk("id|device|data|temperatura", ""), '|');
    assert!(rows.rows.is_empty());
    assert_eq!(rows.total_lines_processed, 0);
    let out = aggregate_rows(&rows, &vec![]);
    assert!(out.is_empty());
}

#[test]
fn missing_device_column_is_soft_empty() {
    let out = run("id|sensor_id|data|temperatura", "1|dev1|2024-04-01|23.5");
    assert!(out.is_empty());
}

#[test]
fn missing_date_column_is_soft_empty() {
    let out = run("id|device|when|temperatura", "1|dev1|2024-04-01|23.5");
    assert!(out.is_empty());
}

#[test]
fn no_sensor_column_is_soft_empty() {
    let rows = select_rows(&chunk("id|device|data|pressure", "1|dev1|2024-04-01|7"), '|');
    assert!(rows.sensors.is_empty());
    assert!(rows.rows.is_empty());
}

#[test]
fn malformed_rows_dropped_siblings_kept() {
    let out = run(
        "id|device|data|temperatura",
        "1|dev1|2024-04-01 10:00:00|20\n\
         2|dev1|2024-04-01 11:00:00\n\
         3|device_id|2024-04-01 12:00:00|99\n\
         4|dev1|2024-04-01 13:00:00|30",
    );
    assert_eq!(out.len(), 1);
    assert_eq!(out[0].values, vec!["20", "30"]);
}

#[test]
fn json_like_and_marker_rows_dropped() {
    let out = run(
        "id|device|data|temperatura",
        "{1|dev1|2024-04-01|1\n[2|dev1|2024-04-01|2\n3|variable|2024-04-01|3\n4|dev1|2024-04-01|4",
    );
    assert_eq!(out.len(), 1);
    assert_eq!(out[0].values, vec!["4"]);
}

#[test]
fn empty_used_column_drops_row_but_empty_id_does_not() {
    let out = run(
        "id|device|data|temperatura|umidade",
        "|dev1|2024-04-01|1|2\n2|dev1|2024-04-01||5",
    );
    assert_eq!(out.len(), 2);
    assert_eq!(out[0].sensor, "temperatura");
    assert_eq!(out[0].values, vec!["1"]);
    assert_eq!(out[1].sensor, "umidade");
    assert_eq!(out[1].values, vec!["2"]);
}

#[test]
fn unparsable_date_drops_row() {
    let out = run(
        "device|data|temperatura",
        "dev1|not-a-date|1\ndev1|2024-13-01|2\ndev1|2024-05-02|3",
    );
    assert_eq!(out.len(), 1);
    assert_eq!(out[0].year_month, "2024-05");
    assert_eq!(out[0].values, vec!["3"]);
}

#[test]
fn uncoercible_reading_drops_whole_row() {
    let out = run(
        "device|data|temperatura|umidade",
        "dev1|2024-04-01|abc|10\ndev1|2024-04-02|1|20",
    );
    assert_eq!(out.len(), 2);
    assert_eq!(out[0].values, vec!["1"]);
    assert_eq!(out[1].values, vec!["20"]);
}

#[test]
fn output_sorted_by_device_month_sensor() {
    let out = run(
        "device|data|umidade|temperatura|eco2",
        "devB|2024-05-01|1|2|3\ndevA|2024-06-01|4|5|6\ndevA|2024-04-01|7|8|9",
    );
    let keys: Vec<(String, String, String)> = out
        .iter()
        .map(|s| (s.device.clone(), s.year_month.clone(), s.sensor.clone()))
        .collect();
    let mut sorted = keys.clone();
    sorted.sort();
    assert_eq!(keys, sorted);
    assert_eq!(out.len(), 9);
    assert_eq!(out[0].device, "devA");
    assert_eq!(out[0].year_month, "2024-04");
    assert_eq!(out[0].sensor, "eco2");
    assert_eq!(out[0].values, vec!["9"]);
}

#[test]
fn aggregation_is_idempotent() {
    let header = "id|device|data|temperatura|umidade";
    let data = "1|d2|2024-04-01|1|2\n2|d1|2024-05-01|3|4\n3|d2|2024-04-03|5|6";
    let a = run(header, data);
    let b = run(header, data);
    assert_eq!(format!("{:?}", a), format!("{:?}", b));
}

#[test]
fn custom_delimiter_and_crlf_lines() {
    let c = CsvChunk {
        data: "dev1;2024-04-01;5\r\ndev1;2024-04-02;7".to_string(),
        header: "device;data;ruido".to_string(),
        device_ids: vec![],
        line_count: 2,
    };
    let rows = select_rows(&c, ';');
    assert_eq!(rows.rows.len(), 2);
    assert_eq!(rows.rows[0].readings, vec!["5"]);
    let out = aggregate_rows(&rows, &kept(&rows));
    assert_eq!(out[0].values, vec!["5", "7"]);
}

#[test]
fn large_year_written_with_sign() {
    let rows = select_rows(&chunk("device|data|eco2", "dev1|+12345-01-02|1"), '|');
    assert_eq!(rows.rows.len(), 1);
    assert_eq!(rows.rows[0].year_month, "+12345-01");
}

#[test]
fn artifact_rows_are_not_kept() {
    let rows = select_rows(&chunk("id|device|data|eco2", "1|dev1|2024-04-01|5"), '|');
    assert_eq!(rows.rows.len(), 1);
    assert_eq!(keep_flags(&rows, &vec![vec![true, false, false, true]], &vec![vec![true]]), vec![true]);
    assert_eq!(keep_flags(&rows, &vec![vec![true, true, true, true]], &vec![vec![true]]), vec![false]);
    assert_eq!(keep_flags(&rows, &vec![vec![true, false, false, true]], &vec![vec![false]]), vec![false]);
}
