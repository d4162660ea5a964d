use hwinfo_log_core::models::{DataGroup, FieldGroup, GroupsConfig};
use hwinfo_log_core::resolver::DataProcessor;
use hwinfo_log_core::search::find_key_in_group;

fn lines_of(text: &str) -> Vec<String> {
    text.lines().map(|l| l.to_string()).collect()
}

/// A schema like a typical monitoring setup: timestamps in `base`, a
/// sensors group with exact members, and a pattern-driven group.
fn test_config() -> GroupsConfig {
    let base = FieldGroup::new(vec!["Date".to_string(), "Time".to_string()], None);
    let sensors = FieldGroup::new(
        vec![
            "CPU Usage".to_string(),
            "Drive Temp".to_string(),
            "S1".to_string(),
            "S2".to_string(),
            "S3".to_string(),
        ],
        None,
    );
    let gpu = FieldGroup::new(Vec::new(), Some("^GPU".to_string()));
    GroupsConfig::new(vec![
        ("base".to_string(), base),
        ("sensors".to_string(), sensors),
        ("GPU".to_string(), gpu),
    ])
}

fn get<'a>(rec: &'a [(String, DataGroup)], name: &str) -> Option<&'a DataGroup> {
    rec.iter().find(|p| p.0 == name).map(|p| &p.1)
}

fn field<'a>(g: &'a DataGroup, name: &str) -> Option<&'a str> {
    g.fields.iter().find(|p| p.0 == name).map(|p| p.1.as_str())
}

#[test]
fn test_fix_last_column() {
    // Test removing BOM
    let input = "\u{FEFF}test";
    let expected = "test".to_string();
    assert_eq!(DataProcessor::fix_last_column(input), expected);

    // Test trimming whitespace
    let input = "  test  ";
    let expected = "test".to_string();
    assert_eq!(DataProcessor::fix_last_column(input), expected);

    // Test removing extra quotes
    let input = "data\"";
    let expected = "data".to_string();
    assert_eq!(DataProcessor::fix_last_column(input), expected);

    // Test that valid quotes are not modified (e.g., field is surrounded by quotes)
    let input = "\"data\"";
    let expected = "\"data\"".to_string();
    assert_eq!(DataProcessor::fix_last_column(input), expected);
}

#[test]
fn test_process_csv_file() {
    let config = test_config();
    let processor = DataProcessor::new(config);
    let lines = lines_of(
        "Date,Time,CPU Usage,Drive Temp\n\
         1.1.2024,12:00:00.000,42.0,31.5\n\
         1.1.2024,12:00:02.000,43.5,31.6\n",
    );
    let result = processor.process_csv_lines(&lines).unwrap();
    assert_eq!(result.len(), 2);
    let first = &result[0];
    let base = get(first, "base").expect("base group");
    assert_eq!(field(base, "Date"), Some("1.1.2024"));
    assert_eq!(field(base, "Time"), Some("12:00:00.000"));
    let sensors = get(first, "sensors").expect("sensors group");
    assert_eq!(field(sensors, "CPU Usage"), Some("42.0"));
    assert_eq!(field(sensors, "Drive Temp"), Some("31.5"));
}

#[test]
fn test_process_csv_file_with_tail_group_overlay() {
    let config = test_config();
    let processor = DataProcessor::new(config);

    let lines = lines_of(
        "Date,Time,CPU Usage,Drive Temp\n\
         1.1.2024,12:00:00.000,42.0,31.5\n\
         Date,Time,CPU Usage,Drive Temp\n\
         ,,CPU [#0]: AMD Ryzen 9 5950X,Drive: Lexar SSD NM620 2TB [E:, F:]\n",
    );
    let result = processor.process_csv_lines(&lines).unwrap();
    assert!(!result.is_empty());

    let first = &result[0];

    // Date/Time must stay in base
    assert!(get(first, "base").is_some());

    // CPU group should be overridden by CSV parent title
    assert!(get(first, "CPU [#0]: AMD Ryzen 9 5950X").is_some());

    // Drive group should be overridden as well; note the unquoted comma inside brackets
    assert!(get(first, "Drive: Lexar SSD NM620 2TB [E:, F:]").is_some());
}

#[test]
fn test_process_csv_file_invalid_mid_header_rejected() {
    let config = test_config();
    let processor = DataProcessor::new(config);

    let lines = lines_of(
        "Date,Time,CPU Usage,Drive Temp\n\
         1.1.2024,12:00:00.000,42.0,31.5\n\
         Date,Time,CPU Usage,Drive Temp\n\
         1.1.2024,12:00:02.000,43.5,31.6\n\
         1.1.2024,12:00:04.000,44.0,31.7\n",
    );
    let err = processor
        .process_csv_lines(&lines)
        .expect_err("should reject CSV files that repeat the subtitle header in the middle");

    let msg = err.message();
    assert!(
        msg.contains("重复表头") || msg.contains("子标题表头"),
        "unexpected error message: {msg}"
    );
}

#[test]
fn test_process_csv_file_mid_log_extra_column_tolerated() {
    let config = test_config();
    let processor = DataProcessor::new(config);

    // This simulates the source tool adding a sensor mid-log without
    // rewriting the header, resulting in one extra column from that point
    // onward.
    let lines = lines_of(
        "Date,Time,S1,S2,S3\n\
         1.1.2024,12:00:00.000,1.0,2.0,3.0\n\
         1.1.2024,12:00:02.000,1.0,99.0,2.0,3.0\n\
         1.1.2024,12:00:04.000,1.0,98.0,2.0,3.0\n",
    );
    let result = processor.process_csv_lines(&lines).unwrap();
    assert_eq!(result.len(), 3);

    for row in &result {
        let base = get(row, "base").expect("base group should exist");
        assert!(field(base, "Date").is_some());
        assert!(field(base, "Time").is_some());
    }
}

#[test]
fn test_find_key_in_group() {
    let config = test_config();
    let processor = DataProcessor::new(config);
    let lines = lines_of(
        "Date,Time,GPU Temp,CPU Usage\n\
         1.1.2024,12:00:00.000,55.0,42.0\n",
    );
    let result = processor.process_csv_lines(&lines).unwrap();

    let mut res = Vec::new();
    let key = "GPU Temp";
    for group in result.iter() {
        res.extend(find_key_in_group(group, key));
    }
    assert_eq!(res.len(), 1);
    assert_eq!(field(&res[0], "GPU Temp"), Some("55.0"));
    // The hit carries the record's base fields as context.
    assert_eq!(field(&res[0], "Date"), Some("1.1.2024"));
}
