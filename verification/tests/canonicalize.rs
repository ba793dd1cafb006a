use canonicalize_jsonl::canon::{
    canonicalize_jsonl, canonicalize_jsonl_bin, canonicalize_line, canonicalize_sample,
    FatalError, RawEntry,
};
use canonicalize_jsonl::encode::{bin_magic, encode_binary_sample, encode_text_record, u64_to_string};
use canonicalize_jsonl::keys::parse_key;
use canonicalize_jsonl::shape::{read_shape, ShapeIndex, TopoNode};

fn topo_text() -> &'static str {
    r#"{"nodes":[
        {"county":"A","prec":"1","id":0},
        {"county":"A","prec":"2","id":1},
        {"county":"B","prec":"1","id":2}
    ]}"#
}

fn index() -> ShapeIndex {
    read_shape(topo_text(), "county", "prec").expect("topology should parse")
}

fn node(county: &str, prec: &str, id: u64) -> TopoNode {
    TopoNode {
        region: Some(county.to_string()),
        precinct: Some(prec.to_string()),
        id: Some(id),
    }
}

#[test]
fn parse_key_single_component() {
    let parts = parse_key("[\"A\"]");
    assert_eq!(parts, vec!["A".to_string()]);
}

#[test]
fn parse_key_two_components() {
    let parts = parse_key("[\"Adams\", \"P-12\"]");
    assert_eq!(parts, vec!["Adams".to_string(), "P-12".to_string()]);
}

#[test]
fn parse_key_three_components() {
    let parts = parse_key("[\"A\", \"B\", \"C\"]");
    assert_eq!(
        parts,
        vec!["A".to_string(), "B".to_string(), "C".to_string()]
    );
}

#[test]
fn parse_key_without_brackets_or_quotes() {
    assert_eq!(parse_key("plain"), vec!["plain".to_string()]);
    assert_eq!(parse_key(""), vec!["".to_string()]);
}

#[test]
fn decimal_formatting() {
    assert_eq!(u64_to_string(0), "0");
    assert_eq!(u64_to_string(7), "7");
    assert_eq!(u64_to_string(1234567890), "1234567890");
    assert_eq!(u64_to_string(u64::MAX), "18446744073709551615");
}

#[test]
fn total_counts_distinct_pairs() {
    // Two complete nodes name the same pair, one node is incomplete: three
    // distinct complete pairs remain.
    let nodes = vec![
        node("A", "1", 0),
        node("A", "1", 5),
        node("A", "2", 1),
        node("B", "1", 2),
        TopoNode {
            region: Some("B".to_string()),
            precinct: Some("2".to_string()),
            id: None,
        },
    ];
    let ix = ShapeIndex::from_nodes(&nodes);
    assert_eq!(ix.total_precinct_count(), 3);
}

#[test]
fn round_trip_scenario() {
    // Broadcast A=7 then pinpoint (A,2)=9 over three precincts.
    let ix = index();
    let entries = vec![
        RawEntry {
            key: "[\"A\"]".to_string(),
            label: Some(7),
        },
        RawEntry {
            key: "[\"A\", \"2\"]".to_string(),
            label: Some(9),
        },
    ];
    let v = canonicalize_sample(&ix, &entries).expect("sample should canonicalize");
    assert_eq!(v, vec![7, 9, 0]);
}

#[test]
fn broadcast_overrides_earlier_writes() {
    let ix = index();
    let entries = vec![
        RawEntry {
            key: "[\"A\", \"2\"]".to_string(),
            label: Some(9),
        },
        RawEntry {
            key: "[\"A\"]".to_string(),
            label: Some(5),
        },
    ];
    let v = canonicalize_sample(&ix, &entries).expect("sample should canonicalize");
    assert_eq!(v, vec![5, 5, 0]);
}

#[test]
fn last_write_wins_on_shared_precinct() {
    let ix = index();
    let entries = vec![
        RawEntry {
            key: "[\"B\", \"1\"]".to_string(),
            label: Some(3),
        },
        RawEntry {
            key: "[\"B\", \"1\"]".to_string(),
            label: Some(8),
        },
    ];
    let v = canonicalize_sample(&ix, &entries).expect("sample should canonicalize");
    assert_eq!(v, vec![0, 0, 8]);
}

#[test]
fn untouched_slots_hold_default() {
    let ix = index();
    let entries = vec![RawEntry {
        key: "[\"B\", \"1\"]".to_string(),
        label: Some(4),
    }];
    let v = canonicalize_sample(&ix, &entries).expect("sample should canonicalize");
    assert_eq!(v.len(), 3);
    assert_eq!(v, vec![0, 0, 4]);
}

#[test]
fn malformed_keys_are_inert() {
    let ix = index();
    let entries = vec![
        RawEntry {
            key: "[\"A\", \"1\", \"extra\"]".to_string(),
            label: Some(9),
        },
        RawEntry {
            key: "[\"A\", \"1\", \"x\", \"y\"]".to_string(),
            label: None,
        },
    ];
    let v = canonicalize_sample(&ix, &entries).expect("malformed keys must not abort");
    assert_eq!(v, vec![0, 0, 0]);
}

#[test]
fn unknown_region_is_fatal() {
    let ix = index();
    let entries = vec![RawEntry {
        key: "[\"Z\"]".to_string(),
        label: Some(1),
    }];
    assert_eq!(
        canonicalize_sample(&ix, &entries),
        Err(FatalError::UnknownRegion)
    );
}

#[test]
fn unknown_precinct_is_fatal() {
    let ix = index();
    let entries = vec![RawEntry {
        key: "[\"A\", \"9\"]".to_string(),
        label: Some(1),
    }];
    assert_eq!(
        canonicalize_sample(&ix, &entries),
        Err(FatalError::UnknownPrecinct)
    );
}

#[test]
fn non_integer_label_is_fatal() {
    let ix = index();
    let line = "{\"districting\":[{\"[\\\"A\\\"]\":\"seven\"}]}";
    assert_eq!(canonicalize_line(&ix, line), Err(FatalError::LabelNotInteger));
}

#[test]
fn out_of_range_flat_index_is_fatal() {
    let nodes = vec![node("A", "1", 99)];
    let ix = ShapeIndex::from_nodes(&nodes);
    let entries = vec![RawEntry {
        key: "[\"A\", \"1\"]".to_string(),
        label: Some(1),
    }];
    assert_eq!(
        canonicalize_sample(&ix, &entries),
        Err(FatalError::IndexOutOfRange)
    );
}

#[test]
fn line_with_real_json_round_trips() {
    let ix = index();
    let line = "{\"districting\":[{\"[\\\"A\\\"]\":7},{\"[\\\"A\\\", \\\"2\\\"]\":9}]}";
    let v = canonicalize_line(&ix, line).expect("line should canonicalize");
    assert_eq!(v, Some(vec![7, 9, 0]));
}

#[test]
fn line_without_districting_is_skipped() {
    let ix = index();
    assert_eq!(canonicalize_line(&ix, "{\"other\":1}"), Ok(None));
}

#[test]
fn invalid_json_line_is_fatal() {
    let ix = index();
    assert_eq!(canonicalize_line(&ix, "not json"), Err(FatalError::LineParse));
}

#[test]
fn text_record_shape() {
    let v = vec![7u64, 9, 7];
    assert_eq!(
        encode_text_record(1, &v),
        "{\"sample\":1,\"assignment\":[7,9,7]}"
    );
    let empty: Vec<u64> = Vec::new();
    assert_eq!(encode_text_record(3, &empty), "{\"sample\":3,\"assignment\":[]}");
}

#[test]
fn binary_block_is_big_endian_fixed_width() {
    let v = vec![7u64, 258, 65535];
    let b = encode_binary_sample(&v).expect("labels fit");
    assert_eq!(b, vec![0, 7, 1, 2, 255, 255]);
}

#[test]
fn binary_block_rejects_wide_labels() {
    let v = vec![7u64, 65536];
    assert_eq!(encode_binary_sample(&v), Err(FatalError::LabelTooLarge));
}

#[test]
fn text_run_full_stream() {
    let lines = vec![
        "marker line, discarded unparsed".to_string(),
        "header one".to_string(),
        "header two".to_string(),
        "{\"districting\":[{\"[\\\"A\\\"]\":7},{\"[\\\"A\\\", \\\"2\\\"]\":9}]}".to_string(),
        "{\"no_assignments\":true}".to_string(),
        "{\"districting\":[{\"[\\\"B\\\"]\":4}]}".to_string(),
    ];
    let run = canonicalize_jsonl(topo_text(), "county", "prec", &lines).expect("run should pass");
    assert_eq!(
        run.header_lines,
        vec!["header one".to_string(), "header two".to_string()]
    );
    // The skipped record emits nothing; samples keep their line-based number.
    assert_eq!(
        run.records,
        vec![
            "{\"sample\":1,\"assignment\":[7,9,0]}".to_string(),
            "{\"sample\":3,\"assignment\":[0,0,4]}".to_string(),
        ]
    );
}

#[test]
fn text_run_rejects_bad_topology() {
    let lines: Vec<String> = Vec::new();
    assert!(matches!(
        canonicalize_jsonl("nonsense", "county", "prec", &lines),
        Err(FatalError::TopologyParse)
    ));
}

#[test]
fn topology_without_nodes_yields_empty_index() {
    let ix = read_shape("{\"other\":[]}", "county", "prec").expect("valid JSON");
    assert_eq!(ix.total_precinct_count(), 0);
}

#[test]
fn bin_run_starts_with_magic() {
    let lines = vec![
        "marker".to_string(),
        "h1".to_string(),
        "h2".to_string(),
        "{\"districting\":[{\"[\\\"A\\\"]\":7},{\"[\\\"A\\\", \\\"2\\\"]\":9}]}".to_string(),
    ];
    let run =
        canonicalize_jsonl_bin(topo_text(), "county", "prec", &lines).expect("run should pass");
    assert_eq!(run.header_lines, vec!["h1".to_string(), "h2".to_string()]);
    let magic = bin_magic();
    assert_eq!(&run.bytes[..magic.len()], &magic[..]);
    assert_eq!(&run.bytes[magic.len()..], &[0, 7, 0, 9, 0, 0]);
}

#[test]
fn bin_run_rejects_wide_labels() {
    let lines = vec![
        "marker".to_string(),
        "h1".to_string(),
        "h2".to_string(),
        "{\"districting\":[{\"[\\\"A\\\"]\":70000}]}".to_string(),
    ];
    assert_eq!(
        canonicalize_jsonl_bin(topo_text(), "county", "prec", &lines).err(),
        Some(FatalError::LabelTooLarge)
    );
}

#[test]
fn short_streams_produce_nothing() {
    let lines = vec!["only the marker".to_string(), "header one".to_string()];
    let run = canonicalize_jsonl(topo_text(), "county", "prec", &lines).expect("run should pass");
    assert_eq!(run.header_lines, vec!["header one".to_string()]);
    assert!(run.records.is_empty());
}
