use thermo_logger::export::{
    current_export_file_name, export_file_name, export_header, export_record, export_table,
    parse_record, ExportGuard,
};
use thermo_logger::reading::Reading;
use thermo_logger::store::{ChannelStore, Row};

fn sample_store(k: u64, n: usize) -> ChannelStore {
    let mut s = ChannelStore::new(n);
    for t in 0..k {
        let readings = (0..n)
            .map(|i| {
                if (t as usize + i) % 3 == 0 {
                    None
                } else {
                    Some(Reading::new((t as i64 - 50) * 7 + i as i64, (i % 3) as usize))
                }
            })
            .collect();
        s.append(t * 1000, readings, format!("2024-01-01 00:00:{:02}.000", t % 60));
    }
    s
}

#[test]
fn header_names_every_column() {
    assert_eq!(
        export_header(3),
        vec!["Time since start (ms)", "datetime of data", "Sensor 1", "Sensor 2", "Sensor 3"]
    );
    assert_eq!(export_header(12)[13], "Sensor 12");
}

#[test]
fn record_renders_readings_and_empty_cells() {
    let row = Row {
        timestamp: 1000,
        datetime: "2024-05-06 07:08:09.010".to_string(),
        readings: vec![
            Some(Reading::new(215, 1)),
            None,
            Some(Reading::new(-5, 3)),
            Some(Reading::new(220, 1)),
            Some(Reading::new(0, 0)),
            Some(Reading::new(i64::MIN, 0)),
        ],
    };
    assert_eq!(
        export_record(&row),
        vec![
            "1000",
            "2024-05-06 07:08:09.010",
            "21.5",
            "",
            "-0.005",
            "22.0",
            "0",
            "-9223372036854775808"
        ]
    );
}

#[test]
fn table_is_header_then_rows() {
    let s = sample_store(3, 2);
    let table = export_table(s.channel_count(), &s.export_view());
    assert_eq!(table.len(), 4);
    assert_eq!(table[0], export_header(2));
    assert_eq!(table[1][0], "0");
    assert_eq!(table[3][0], "2000");
}

#[test]
fn exported_records_read_back() {
    let s = sample_store(200, 4);
    let view = s.export_view();
    let table = export_table(4, &view);
    for (row, record) in view.iter().zip(table.iter().skip(1)) {
        let (t, readings) = parse_record(record, 4).unwrap();
        assert_eq!(t, row.timestamp);
        assert_eq!(readings, row.readings);
    }
}

#[test]
fn export_file_round_trip() {
    let s = sample_store(50, 8);
    let view = s.export_view();
    let table = export_table(8, &view);
    let mut writer = csv::Writer::from_writer(Vec::new());
    for record in &table {
        writer.write_record(record).unwrap();
    }
    let bytes = writer.into_inner().unwrap();
    let mut reader = csv::ReaderBuilder::new().has_headers(true).from_reader(bytes.as_slice());
    let headers: Vec<String> = reader.headers().unwrap().iter().map(|h| h.to_string()).collect();
    assert_eq!(headers, export_header(8));
    let mut back = Vec::new();
    for rec in reader.records() {
        let fields: Vec<String> = rec.unwrap().iter().map(|f| f.to_string()).collect();
        back.push(parse_record(&fields, 8).unwrap());
    }
    assert_eq!(back.len(), view.len());
    for (row, (t, readings)) in view.iter().zip(back) {
        assert_eq!(t, row.timestamp);
        assert_eq!(readings, row.readings);
    }
}

#[test]
fn malformed_records_do_not_read_back() {
    let rec = |v: &[&str]| v.iter().map(|s| s.to_string()).collect::<Vec<String>>();
    assert_eq!(parse_record(&rec(&[]), 2), None);
    assert_eq!(
        parse_record(&rec(&["5", "d", "-9223372036854775808"]), 1),
        Some((5, vec![Some(Reading::new(i64::MIN, 0))]))
    );
    assert_eq!(parse_record(&rec(&["x", "d", "1"]), 2), None);
    assert_eq!(parse_record(&rec(&["5", "d", "1", "2C"]), 2), None);
    assert_eq!(
        parse_record(&rec(&["5", "d", "1.5"]), 2),
        Some((5, vec![Some(Reading::new(15, 1)), None]))
    );
}

#[test]
fn file_name_embeds_time() {
    assert_eq!(export_file_name("2024-01-02 03-04-05"), "data 2024-01-02 03-04-05.csv");
    let name = current_export_file_name();
    assert!(name.starts_with("data "));
    assert!(name.ends_with(".csv"));
    assert!(!name.contains('%'));
    assert_eq!(name.len(), "data 2024-01-02 03-04-05.csv".len());
}

#[test]
fn guard_skips_overlapping_exports() {
    let mut g = ExportGuard::new();
    assert!(g.try_begin());
    assert!(!g.try_begin());
    g.finish();
    assert!(g.try_begin());
}
