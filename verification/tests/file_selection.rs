use bgp_analyzer::file_names::is_mrt_file_name;
use bgp_analyzer::parallel_processor::ProcessingStats;

#[test]
fn mrt_files_are_chosen_by_extension_or_name() {
    for name in [
        "rib.20240101.0000.bz2",
        "updates.20240101.0015.gz",
        "dump.MRT",
        "table.RIB",
        "archive.Gz",
        "bview.bz2",
        "latest-Updates",
        "my_mrt_dump.bin",
        "RIBS",
    ] {
        assert!(is_mrt_file_name(name.as_bytes()), "{}", name);
    }
    for name in ["notes.txt", "", "gz", ".gz", "image.png", "archive.tar", "README", "data.gz.txt"] {
        assert!(!is_mrt_file_name(name.as_bytes()), "{}", name);
    }
    // A leading dot does not start an extension, but a second one does.
    assert!(is_mrt_file_name(".hidden.gz".as_bytes()));
    assert!(!is_mrt_file_name(".bz2".as_bytes()));
}

#[test]
fn file_counts_add_up_and_wrap() {
    let mut s = ProcessingStats {
        total_records: 5,
        bgp_updates: u64::MAX,
        as_path_entries: 1,
        unique_prefixes: 7,
        unique_asns: 8,
        elapsed_ms: 9,
    };
    s.add_file(10, 2, 3);
    assert_eq!(s.total_records, 15);
    assert_eq!(s.bgp_updates, 1);
    assert_eq!(s.as_path_entries, 4);
    assert_eq!(s.unique_prefixes, 7);
    assert_eq!(s.unique_asns, 8);
    assert_eq!(s.elapsed_ms, 9);
}
