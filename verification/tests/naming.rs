use kvs::engines::kvs::naming::{
    data_file_name, data_file_path, parse_file_id, sorted_file_id_list,
};

#[test]
fn parse_file_id_reads_decimal() {
    assert_eq!(parse_file_id("data-1"), Some(1));
    assert_eq!(parse_file_id("data-0"), Some(0));
    assert_eq!(parse_file_id("data-42"), Some(42));
    assert_eq!(parse_file_id("data-100"), Some(100));
    assert_eq!(parse_file_id("data-18446744073709551615"), Some(u64::MAX));
}

#[test]
fn parse_file_id_passes_over_other_names() {
    assert_eq!(parse_file_id(""), None);
    assert_eq!(parse_file_id("data-"), None);
    assert_eq!(parse_file_id("data-+"), None);
    assert_eq!(parse_file_id("data-+5"), None);
    assert_eq!(parse_file_id("data-007"), None);
    assert_eq!(parse_file_id("data-00"), None);
    assert_eq!(parse_file_id("data-01"), None);
    assert_eq!(parse_file_id("data"), None);
    assert_eq!(parse_file_id("7"), None);
    assert_eq!(parse_file_id("data-data-7"), None);
    assert_eq!(parse_file_id("data--7"), None);
    assert_eq!(parse_file_id("data-7 "), None);
    assert_eq!(parse_file_id("data-7a"), None);
    assert_eq!(parse_file_id("data-1_0"), None);
    assert_eq!(parse_file_id("Data-7"), None);
    assert_eq!(parse_file_id("identity"), None);
    assert_eq!(parse_file_id("hint"), None);
    assert_eq!(parse_file_id("data.backup"), None);
    assert_eq!(parse_file_id("data-٣"), None);
    assert_eq!(parse_file_id("data-18446744073709551616"), None);
    assert_eq!(parse_file_id("data-99999999999999999999999"), None);
}

#[test]
fn sorted_file_id_list_sorts_and_filters() {
    let names: Vec<String> =
        ["data-10", "identity", "data-2", "data-33", "data-x", "data-1"]
            .iter()
            .map(|s| s.to_string())
            .collect();
    assert_eq!(sorted_file_id_list(&names), vec![1, 2, 10, 33]);
    assert_eq!(sorted_file_id_list(&Vec::new()), Vec::<u64>::new());
}

#[test]
fn sorted_file_id_list_lists_an_id_once() {
    let names: Vec<String> =
        ["data-7", "data-07", "data-3", "data-7", "data-+3", "data-3"]
            .iter()
            .map(|s| s.to_string())
            .collect();
    assert_eq!(sorted_file_id_list(&names), vec![3, 7]);
}

#[test]
fn a_segment_has_one_name() {
    for name in ["data-0", "data-7", "data-10", "data-18446744073709551615"] {
        let id = parse_file_id(name).unwrap();
        assert_eq!(data_file_name(id), name);
    }
    for name in ["data-07", "data-+7", "data-007", "data-7 "] {
        assert_eq!(parse_file_id(name), None);
    }
}

#[test]
fn data_file_name_is_prefix_and_decimal() {
    assert_eq!(data_file_name(0), "data-0");
    assert_eq!(data_file_name(7), "data-7");
    assert_eq!(data_file_name(10), "data-10");
    assert_eq!(data_file_name(1234567890), "data-1234567890");
    assert_eq!(data_file_name(u64::MAX), "data-18446744073709551615");
}

#[test]
fn name_reads_back_as_id() {
    for id in [0u64, 1, 9, 10, 99, 100, 4096, u64::MAX - 1, u64::MAX] {
        assert_eq!(parse_file_id(&data_file_name(id)), Some(id));
    }
}

#[test]
fn data_file_path_joins() {
    assert_eq!(data_file_path("/var/kv", 3), "/var/kv/data-3");
    assert_eq!(data_file_path("/var/kv/", 3), "/var/kv/data-3");
    assert_eq!(data_file_path("", 3), "data-3");
    assert_eq!(data_file_path("/", 12), "/data-12");
    assert_eq!(data_file_path("dir", 0), "dir/data-0");
}
