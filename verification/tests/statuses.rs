use blob_wrangler::config::{item_destination, Dest, Entry, Item, ItemKind};
use blob_wrangler::error::ErrorKind;
use blob_wrangler::status::{
    record_entry_failures, record_file_failure, record_partition_source, required_failure,
    stale_entries, FileFailure, PartitionStatus, Status,
};

#[test]
fn file_failure_records_final_mbn_destination() {
    let item = Item::Spec {
        from: "adsp.mdt".to_string(),
        to: None,
        required: true,
    };
    let destination = item_destination("/updates/qcom/device", &item, ItemKind::File);
    assert_eq!(destination, "/updates/qcom/device/adsp.mbn");

    let mut failures = Vec::new();
    record_file_failure(
        &mut failures,
        "vendor",
        "/vendor/firmware/adsp.mdt",
        &destination,
        true,
        "source does not exist",
    );

    assert_eq!(failures.len(), 1);
    assert_eq!(failures[0].destination, "/updates/qcom/device/adsp.mbn");
    assert!(failures[0].required);
}

#[test]
fn entry_failure_preserves_declared_required_flags() {
    let entry = Entry {
        partition: "vendor".to_string(),
        from: Some("firmware".to_string()),
        to: Dest::Fixed("qcom/device".to_string()),
        raw: false,
        files: vec![
            Item::Spec {
                from: "optional.bin".to_string(),
                to: None,
                required: false,
            },
            Item::Spec {
                from: "required.bin".to_string(),
                to: None,
                required: true,
            },
        ],
        dirs: Vec::new(),
    };
    let mut failures = Vec::new();

    record_entry_failures(
        &mut failures,
        &entry,
        "/updates/qcom/device",
        "unable to mount source partition",
    );

    assert_eq!(
        failures
            .iter()
            .map(|failure| failure.required)
            .collect::<Vec<_>>(),
        [false, true]
    );
    assert_eq!(failures[0].source, "vendor/firmware/optional.bin");
    assert_eq!(failures[0].destination, "/updates/qcom/device/optional.bin");
}

fn failure(source: &str, required: bool) -> FileFailure {
    FileFailure {
        partition: "vendor".to_string(),
        source: source.to_string(),
        destination: "/lib/firmware/updates/adsp.mbn".to_string(),
        required,
        error: "source does not exist".to_string(),
    }
}

fn status(entries: &[&str], failures: Vec<FileFailure>) -> Status {
    Status {
        entries: entries.iter().map(|entry| entry.to_string()).collect(),
        kernel_release: Some("7.2.0".to_string()),
        active_slot: Some("_a".to_string()),
        partitions: Vec::new(),
        failures,
    }
}

#[test]
fn required_failures_are_distinguished_from_optional_failures() {
    let failure = |required| FileFailure {
        partition: "vendor".to_string(),
        source: "vendor/firmware/adsp.mdt".to_string(),
        destination: "/lib/firmware/updates/adsp.mbn".to_string(),
        required,
        error: "source does not exist".to_string(),
    };
    let mut status = Status {
        entries: Vec::new(),
        kernel_release: Some("7.2.0".to_string()),
        active_slot: Some("_a".to_string()),
        partitions: Vec::new(),
        failures: vec![failure(false)],
    };
    assert!(!status.has_required_failures());

    status.failures.push(failure(true));
    assert!(status.has_required_failures());
}

#[test]
fn entry_failures_cover_files_and_directories() {
    let entry = Entry {
        partition: "vendor".to_string(),
        from: None,
        to: Dest::Fixed("x".to_string()),
        raw: false,
        files: vec![Item::Path("a.mdt".to_string())],
        dirs: vec![Item::Spec { from: "b".to_string(), to: None, required: true }],
    };
    let mut failures = vec![failure("before", false)];
    record_entry_failures(&mut failures, &entry, "/x", "why");
    assert_eq!(failures.len(), 3);
    assert_eq!(failures[0], failure("before", false));
    assert_eq!(failures[1].source, "vendor/a.mdt");
    assert_eq!(failures[1].destination, "/x/a.mbn");
    assert_eq!(failures[2].destination, "/x/b");
    assert_eq!((failures[2].required, failures[2].error.as_str()), (true, "why"));
}

#[test]
fn sources_are_recorded_once() {
    let mut partitions: Vec<PartitionStatus> = Vec::new();
    record_partition_source(&mut partitions, "vendor", "/dev/a");
    record_partition_source(&mut partitions, "vendor", "/dev/b");
    record_partition_source(&mut partitions, "vendor", "/dev/a");
    record_partition_source(&mut partitions, "modem", "/dev/a");
    assert_eq!(partitions.len(), 3);
    assert_eq!(partitions[2].partition, "modem");
    assert_eq!(partitions[1].source, "/dev/b");
}

#[test]
fn only_what_is_gone_is_stale() {
    let previous = status(&["/a", "/b", "/c", "/b"], Vec::new());
    let current = status(&["/c", "/d"], vec![failure("s", false)]);
    assert_eq!(stale_entries(&previous, &current), ["/a", "/b", "/b"]);
    let failing = status(&["/c", "/d"], vec![failure("s", true)]);
    assert!(stale_entries(&previous, &failing).is_empty());
}

#[test]
fn required_failures_end_the_run() {
    assert!(required_failure(&status(&[], vec![failure("s", false)])).is_none());
    let failing = status(
        &[],
        vec![failure("one", true), failure("two", false), failure("three", true)],
    );
    let error = required_failure(&failing).unwrap();
    assert_eq!(error.kind, ErrorKind::NotFound);
    assert_eq!(
        error.message(),
        "Required firmware extraction failed for: one, three; details written to /var/lib/blob-wrangler/status.json"
    );
}
