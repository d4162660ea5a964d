use hwinfo_log_core::errors::ProcessError;
use hwinfo_log_core::models::{DataGroup, FieldGroup, GroupsConfig, RawGroup};
use hwinfo_log_core::resolver::DataProcessor;

fn lines_of(text: &str) -> Vec<String> {
    text.lines().map(|l| l.to_string()).collect()
}

fn small_config() -> GroupsConfig {
    let base = FieldGroup::new(vec!["Date".to_string(), "Time".to_string()], None);
    let sensors = FieldGroup::new(
        vec!["S1".to_string(), "S2".to_string(), "S3".to_string()],
        None,
    );
    let gpu = FieldGroup::new(Vec::new(), Some("^GPU".to_string()));
    GroupsConfig::new(vec![
        ("base".to_string(), base),
        ("sensors".to_string(), sensors),
        ("GPU".to_string(), gpu),
    ])
}

fn get<'a>(rec: &'a [(String, DataGroup)], name: &str) -> Option<&'a DataGroup> {
    rec.iter().find(|p| p.0 == name).map(|p| &p.1)
}

fn field<'a>(g: &'a DataGroup, name: &str) -> Option<&'a str> {
    g.fields.iter().find(|p| p.0 == name).map(|p| p.1.as_str())
}

fn group_eq(a: &DataGroup, b: &DataGroup) -> bool {
    a.fields == b.fields
        && a.children.len() == b.children.len()
        && a
            .children
            .iter()
            .zip(b.children.iter())
            .all(|(x, y)| x.0 == y.0 && group_eq(&x.1, &y.1))
}

fn records_eq(a: &[Vec<(String, DataGroup)>], b: &[Vec<(String, DataGroup)>]) -> bool {
    a.len() == b.len()
        && a.iter().zip(b.iter()).all(|(ra, rb)| {
            ra.len() == rb.len()
                && ra
                    .iter()
                    .zip(rb.iter())
                    .all(|(x, y)| x.0 == y.0 && group_eq(&x.1, &y.1))
        })
}

#[test]
fn clean_last_column_idempotent_on_samples() {
    let samples = [
        "",
        "plain",
        "  padded  ",
        "\u{FEFF}bom",
        "data\"",
        "\"data\"",
        "1.25",
        " [E:, F:] ",
    ];
    for s in samples {
        let once = DataProcessor::fix_last_column(s);
        let twice = DataProcessor::fix_last_column(once.as_str());
        assert_eq!(once, twice, "not idempotent on {s:?}");
    }
}

#[test]
fn single_header_no_tail_one_record_per_row() {
    let processor = DataProcessor::new(small_config());
    let lines = lines_of(
        "Date,Time,S1\n\
         1.1.2024,12:00:00.000,1.0\n\
         \n\
         1.1.2024,12:00:02.000,2.0\n\
         1.1.2024,12:00:04.000,3.0\n",
    );
    let result = processor.process_csv_lines(&lines).unwrap();
    // The blank line vanishes in the CSV body; the three data rows stay in
    // order, one record each.
    assert_eq!(result.len(), 3);
    let third = &result[2];
    let sensors = get(third, "sensors").unwrap();
    assert_eq!(field(sensors, "S1"), Some("3.0"));
}

#[test]
fn empty_file_rejected() {
    let processor = DataProcessor::new(small_config());
    let err = processor.process_csv_lines(&lines_of("\n  \n")).unwrap_err();
    assert_eq!(err, ProcessError::EmptyFile);
    let err2 = processor.process_csv_lines(&Vec::new()).unwrap_err();
    assert_eq!(err2, ProcessError::EmptyFile);
}

#[test]
fn first_line_not_header_rejected() {
    let processor = DataProcessor::new(small_config());
    let err = processor
        .process_csv_lines(&lines_of("nonsense,row\nDate,Time,S1\n"))
        .unwrap_err();
    assert_eq!(err, ProcessError::FirstLineNotHeader);
}

#[test]
fn parent_title_without_repeated_header_rejected() {
    let processor = DataProcessor::new(small_config());
    let lines = lines_of(
        "Date,Time,S1\n\
         1.1.2024,12:00:00.000,1.0\n\
         ,,Lonely Parent Title\n",
    );
    let err = processor.process_csv_lines(&lines).unwrap_err();
    assert_eq!(err, ProcessError::MissingRepeatedHeader);
}

#[test]
fn repeated_header_without_parent_title_rejected() {
    let processor = DataProcessor::new(small_config());
    let lines = lines_of(
        "Date,Time,S1\n\
         1.1.2024,12:00:00.000,1.0\n\
         Date,Time,S1\n\
         not,a,parent\n",
    );
    let err = processor.process_csv_lines(&lines).unwrap_err();
    assert_eq!(err, ProcessError::LastLineNotParentTitle);
}

#[test]
fn three_header_lines_rejected() {
    let processor = DataProcessor::new(small_config());
    let lines = lines_of(
        "Date,Time,S1\n\
         Date,Time,S1\n\
         Date,Time,S1\n\
         ,,Parent\n",
    );
    let err = processor.process_csv_lines(&lines).unwrap_err();
    assert_eq!(err, ProcessError::TooManyHeaderLines);
    assert!(err.message().contains("子标题表头"));
}

#[test]
fn width_off_by_two_rejected() {
    let processor = DataProcessor::new(small_config());
    let lines = lines_of(
        "Date,Time,S1\n\
         1.1.2024,12:00:00.000,1.0,2.0,3.0\n",
    );
    let err = processor.process_csv_lines(&lines).unwrap_err();
    assert_eq!(
        err,
        ProcessError::ColumnCountMismatch { expected: 3, actual: 5 }
    );
}

#[test]
fn short_rows_padded() {
    let processor = DataProcessor::new(small_config());
    let lines = lines_of(
        "Date,Time,S1,S2\n\
         1.1.2024,12:00:00.000\n",
    );
    let result = processor.process_csv_lines(&lines).unwrap();
    let sensors = get(&result[0], "sensors").unwrap();
    assert_eq!(field(sensors, "S1"), Some(""));
    assert_eq!(field(sensors, "S2"), Some(""));
}

#[test]
fn drift_drops_least_deviating_column_and_reuses_index() {
    let processor = DataProcessor::new(small_config());
    // The second row gains one column: a new sensor value 99.0 inserted
    // before S2.  Dropping it aligns the row perfectly with the previous
    // one, so index 3 is inferred — and reused verbatim on the later row,
    // where re-inference might have chosen differently.
    let lines = lines_of(
        "Date,Time,S1,S2,S3\n\
         1.1.2024,12:00:00.000,1.0,2.0,3.0\n\
         1.1.2024,12:00:02.000,1.0,99.0,2.0,3.0\n\
         1.1.2024,12:00:04.000,5.0,77.0,6.0,7.0\n",
    );
    let result = processor.process_csv_lines(&lines).unwrap();
    assert_eq!(result.len(), 3);
    let second = get(&result[1], "sensors").unwrap();
    assert_eq!(field(second, "S1"), Some("1.0"));
    assert_eq!(field(second, "S2"), Some("2.0"));
    assert_eq!(field(second, "S3"), Some("3.0"));
    let third = get(&result[2], "sensors").unwrap();
    assert_eq!(field(third, "S1"), Some("5.0"));
    assert_eq!(field(third, "S2"), Some("6.0"));
    assert_eq!(field(third, "S3"), Some("7.0"));
}

#[test]
fn overlay_degrades_to_schema_on_width_mismatch() {
    let processor = DataProcessor::new(small_config());
    // The parent-title row has more fields than there are headers, so the
    // overlay cannot be aligned; the schema-only mapping must be kept and
    // the file still parses.
    let lines = lines_of(
        "Date,Time,S1\n\
         1.1.2024,12:00:00.000,1.0\n\
         Date,Time,S1\n\
         ,,A,B,C,D\n",
    );
    let result = processor.process_csv_lines(&lines).unwrap();
    let sensors = get(&result[0], "sensors").unwrap();
    assert_eq!(field(sensors, "S1"), Some("1.0"));
    assert!(get(&result[0], "A").is_none());
    // The degrade is observable, distinct from a full-fidelity parse.
    assert!(DataProcessor::overlay_degraded(&lines));
    let clean = lines_of(
        "Date,Time,S1\n\
         1.1.2024,12:00:00.000,1.0\n\
         Date,Time,S1\n\
         ,,Chip\n",
    );
    assert!(!DataProcessor::overlay_degraded(&clean));
}

#[test]
fn overlay_never_moves_base_or_timestamps() {
    let processor = DataProcessor::new(small_config());
    let lines = lines_of(
        "Date,Time,S1\n\
         1.1.2024,12:00:00.000,1.0\n\
         Date,Time,S1\n\
         ,,Sensors On Chip\n",
    );
    let result = processor.process_csv_lines(&lines).unwrap();
    let base = get(&result[0], "base").unwrap();
    assert_eq!(field(base, "Date"), Some("1.1.2024"));
    assert_eq!(field(base, "Time"), Some("12:00:00.000"));
    // S1's top-level group is overridden, away from "sensors".
    let over = get(&result[0], "Sensors On Chip").unwrap();
    assert_eq!(field(over, "S1"), Some("1.0"));
    assert!(get(&result[0], "sensors").is_none());
}

#[test]
fn quoted_separator_kept_inside_field() {
    let processor = DataProcessor::new(small_config());
    // The CSV reader must unquote the field and keep its embedded
    // separator: a wrapper handing the text back unchanged would split it.
    let lines = lines_of(
        "Date,Time,S1\n\
         1.1.2024,12:00:00.000,\"a,b\"\n",
    );
    let result = processor.process_csv_lines(&lines).unwrap();
    let sensors = get(&result[0], "sensors").unwrap();
    assert_eq!(field(sensors, "S1"), Some("a,b"));
}

#[test]
fn pattern_rule_maps_unknown_headers() {
    let processor = DataProcessor::new(small_config());
    let lines = lines_of(
        "Date,Time,GPU Clock,Unknown Sensor\n\
         1.1.2024,12:00:00.000,1800.0,7.0\n",
    );
    let result = processor.process_csv_lines(&lines).unwrap();
    let gpu = get(&result[0], "GPU").expect("pattern-matched group");
    assert_eq!(field(gpu, "GPU Clock"), Some("1800.0"));
    // A header matching nothing is dropped from the output entirely.
    for (_, g) in result[0].iter() {
        assert!(field(g, "Unknown Sensor").is_none());
    }
}

#[test]
fn reingestion_is_deterministic() {
    let processor = DataProcessor::new(small_config());
    let lines = lines_of(
        "Date,Time,S1,S2,S3\n\
         1.1.2024,12:00:00.000,1.0,2.0,3.0\n\
         1.1.2024,12:00:02.000,1.5,99.0,2.5,3.5\n\
         Date,Time,S1,S2,S3\n\
         ,,Chip [A:, B:],Chip 2,Chip 3\n",
    );
    let r1 = processor.process_csv_lines(&lines).unwrap();
    let r2 = processor.process_csv_lines(&lines).unwrap();
    assert!(records_eq(&r1, &r2));

    // A second processor over an equal snapshot agrees too.
    let other = DataProcessor::new(small_config());
    let r3 = other.process_csv_lines(&lines).unwrap();
    assert!(records_eq(&r1, &r3));
}

#[test]
fn nested_schema_paths_build_nested_groups() {
    let mut cpu = FieldGroup::new(Vec::new(), None);
    let core = FieldGroup::new(vec!["Core Clock".to_string()], None);
    cpu.children.push(("cores".to_string(), core));
    let base = FieldGroup::new(vec!["Date".to_string(), "Time".to_string()], None);
    let config = GroupsConfig::new(vec![
        ("base".to_string(), base),
        ("CPU".to_string(), cpu),
    ]);
    let processor = DataProcessor::new(config);
    let lines = lines_of(
        "Date,Time,Core Clock\n\
         1.1.2024,12:00:00.000,4500.0\n",
    );
    let result = processor.process_csv_lines(&lines).unwrap();
    let cpu_group = get(&result[0], "CPU").unwrap();
    let cores = cpu_group
        .children
        .iter()
        .find(|p| p.0 == "cores")
        .map(|p| &p.1)
        .unwrap();
    assert_eq!(field(cores, "Core Clock"), Some("4500.0"));
}

#[test]
fn from_raw_translates_nested_configuration() {
    let raw = RawGroup {
        fields: Some(vec!["Date".to_string()]),
        field_pattern: Some("^X".to_string()),
        subgroups: Some(vec![(
            "inner".to_string(),
            RawGroup { fields: None, field_pattern: None, subgroups: None },
        )]),
    };
    let g = FieldGroup::from_raw(&raw);
    assert_eq!(g.fields, vec!["Date".to_string()]);
    assert_eq!(g.field_pattern, Some("^X".to_string()));
    assert_eq!(g.children.len(), 1);
    assert_eq!(g.children[0].0, "inner");
    assert!(g.children[0].1.fields.is_empty());
}

#[test]
fn data_group_insert_walks_paths() {
    let mut root = DataGroup::new();
    let path = vec!["a".to_string(), "b".to_string()];
    root.insert(&path, "k", "v".to_string());
    root.insert(&path, "k", "w".to_string());
    let a = root.children.iter().find(|p| p.0 == "a").map(|p| &p.1).unwrap();
    let b = a.children.iter().find(|p| p.0 == "b").map(|p| &p.1).unwrap();
    // Last write wins.
    assert_eq!(field(b, "k"), Some("w"));
    root.insert(&[], "top", "t".to_string());
    assert_eq!(field(&root, "top"), Some("t"));
}

#[test]
fn search_without_base_group_still_finds_hits() {
    let sensors = FieldGroup::new(vec!["S1".to_string()], None);
    let config = GroupsConfig::new(vec![("sensors".to_string(), sensors)]);
    let processor = DataProcessor::new(config);
    let lines = lines_of(
        "Date,Time,S1\n\
         1.1.2024,12:00:00.000,9.5\n",
    );
    let result = processor.process_csv_lines(&lines).unwrap();
    // No schema entry for Date/Time: the record has no base group at all.
    assert!(get(&result[0], "base").is_none());
    let hits = hwinfo_log_core::search::find_key_in_group(&result[0], "S1");
    assert_eq!(hits.len(), 1);
    assert_eq!(field(&hits[0], "S1"), Some("9.5"));
}

#[test]
fn error_messages_name_their_cause() {
    assert!(ProcessError::EmptyFile.message().contains("为空"));
    assert!(ProcessError::FirstLineNotHeader.message().contains("子标题表头"));
    assert!(ProcessError::RepeatedHeaderMisplaced.message().contains("重复表头"));
    assert!(
        ProcessError::ColumnCountMismatch { expected: 3, actual: 5 }
            .message()
            .contains("列数不一致")
    );
    assert!(
        ProcessError::OverlayColumnMismatch { headers_len: 2, parent_len: 9 }
            .message()
            .contains("无法对齐")
    );
}
