use blob_wrangler::config::{Config, Dest, Entry, Item};
use blob_wrangler::error::{Error, ErrorKind};
use blob_wrangler::mount::{MountedPartition, MS_RDONLY};
use blob_wrangler::process::{process, Outcome, Session, Task};
use blob_wrangler::slot::Slot;
use blob_wrangler::status::Status;

fn item(from: &str, required: bool) -> Item {
    Item::Spec { from: from.to_string(), to: None, required }
}

fn entry(partition: &str, to: &str, files: Vec<Item>, dirs: Vec<Item>) -> Entry {
    Entry {
        partition: partition.to_string(),
        from: Some("image".to_string()),
        to: Dest::Fixed(to.to_string()),
        raw: false,
        files,
        dirs,
    }
}

fn raw_entry(partition: &str, to: &str) -> Entry {
    Entry {
        partition: partition.to_string(),
        from: None,
        to: Dest::Fixed(to.to_string()),
        raw: true,
        files: Vec::new(),
        dirs: Vec::new(),
    }
}

fn begin(dynpart: Option<&str>, extract: Vec<Entry>, slot: Option<Slot>) -> Session {
    let config = Config { dynpart: dynpart.map(str::to_string), extract };
    process(config, "/fw", "/mounts", Some("7.2.0-x"), slot).unwrap()
}

fn task(session: &Session) -> String {
    format!("{:?}", session.task())
}

fn existing(paths: &[&str]) -> Outcome {
    Outcome::Existing { paths: paths.iter().map(|path| path.to_string()).collect() }
}

fn failed(text: &str) -> Outcome {
    Outcome::Failed { error: Error::new(ErrorKind::Other, text.to_string()) }
}

fn mounted(path: &str, source: &str, temporary: bool) -> Outcome {
    let partition = MountedPartition { path: path.to_string(), source: source.to_string(), temporary };
    Outcome::Mounted { partition }
}

fn status(session: Session) -> Status {
    session.finish().unwrap().unwrap()
}

#[test]
fn files_and_directories_are_copied_in_order() {
    let extract = vec![entry(
        "modem",
        "qcom",
        vec![item("adsp.mdt", true), item("plain.bin", false)],
        vec![item("sensors", false)],
    )];
    let mut session = begin(None, extract, Some(Slot::A));
    assert_eq!(task(&session), "CreateDirectory { path: \"/fw/qcom\" }");
    assert!(session.advance(Outcome::Done));
    match session.task() {
        Task::Probe { paths } => assert_eq!(
            paths,
            [
                "/dev/mapper/modem_a",
                "/dev/disk/by-partlabel/modem_a",
                "/dev/mapper/modem",
                "/dev/disk/by-partlabel/modem",
            ]
        ),
        other => panic!("{other:?}"),
    }
    assert!(session.advance(existing(&["/dev/disk/by-partlabel/modem_a"])));
    assert_eq!(
        task(&session),
        "Mount { source: \"/dev/disk/by-partlabel/modem_a\", path: \"/mounts/modem\", flags: 1 }"
    );
    assert!(session.advance(mounted("/mounts/modem", "/dev/disk/by-partlabel/modem_a", true)));

    assert_eq!(task(&session), "Inspect { path: \"/mounts/modem/image/adsp.mdt\" }");
    assert!(session.advance(Outcome::Found { directory: false }));
    assert_eq!(
        task(&session),
        "CopyFile { source: \"/mounts/modem/image/adsp.mdt\", destination: \"/fw/qcom/adsp.mbn\", squash: true }"
    );
    assert!(session.advance(Outcome::Done));

    assert!(session.advance(Outcome::Found { directory: false }));
    assert_eq!(
        task(&session),
        "CopyFile { source: \"/mounts/modem/image/plain.bin\", destination: \"/fw/qcom/plain.bin\", squash: false }"
    );
    assert!(session.advance(failed("disk full")));

    assert!(session.advance(Outcome::Found { directory: true }));
    assert_eq!(
        task(&session),
        "CopyDirectory { source: \"/mounts/modem/image/sensors\", destination: \"/fw/qcom/sensors\" }"
    );
    assert!(session.advance(Outcome::Done));
    assert_eq!(task(&session), "Release { path: \"/mounts/modem\" }");
    assert!(session.advance(Outcome::Done));
    assert_eq!(task(&session), "Nothing");

    let status = status(session);
    assert_eq!(status.entries, ["/fw/qcom/adsp.mbn", "/fw/qcom/sensors"]);
    assert_eq!(status.kernel_release.as_deref(), Some("7.2.0-x"));
    assert_eq!(status.active_slot.as_deref(), Some("_a"));
    assert_eq!(status.partitions.len(), 1);
    assert_eq!(status.partitions[0].partition, "modem");
    assert_eq!(status.partitions[0].source, "/dev/disk/by-partlabel/modem_a");
    assert_eq!(status.failures.len(), 1);
    assert_eq!(status.failures[0].partition, "modem");
    assert_eq!(status.failures[0].source, "/mounts/modem/image/plain.bin");
    assert_eq!(status.failures[0].destination, "/fw/qcom/plain.bin");
    assert_eq!(status.failures[0].error, "unable to copy: disk full");
    assert!(!status.has_required_failures());
}

#[test]
fn sources_must_exist_and_have_their_kind() {
    let extract = vec![entry(
        "modem",
        "qcom",
        vec![item("a", true), item("b", false)],
        vec![item("c", false)],
    )];
    let mut session = begin(None, extract, None);
    session.advance(Outcome::Done);
    session.advance(existing(&["/dev/mapper/modem"]));
    session.advance(mounted("/mnt/x", "/dev/mapper/modem", false));
    assert!(session.advance(failed("gone")));
    assert!(session.advance(Outcome::Found { directory: true }));
    assert!(session.advance(Outcome::Found { directory: false }));
    assert_eq!(task(&session), "Nothing");
    let status = status(session);
    assert!(status.entries.is_empty());
    let errors: Vec<&str> = status.failures.iter().map(|f| f.error.as_str()).collect();
    assert_eq!(
        errors,
        ["source does not exist: gone", "source is not a file", "source is not a directory"]
    );
    assert!(status.has_required_failures());
    assert_eq!(status.active_slot, None);
}

#[test]
fn whole_entries_fail_item_by_item() {
    let items = || vec![item("a.mdt", true), item("b", false)];
    let extract = vec![
        entry("one", "1", items(), Vec::new()),
        entry("two", "2", items(), Vec::new()),
        entry("three", "3", items(), vec![item("d", true)]),
    ];
    let mut session = begin(None, extract, Some(Slot::B));
    assert!(session.advance(failed("read-only")));
    assert!(session.advance(Outcome::Done));
    assert!(session.advance(existing(&["/dev/mapper/two_a"])));
    assert!(session.advance(Outcome::Done));
    assert!(session.advance(existing(&["/dev/mapper/three_b"])));
    assert!(session.advance(failed("bad magic")));
    let status = status(session);
    assert!(status.entries.is_empty());
    assert!(status.partitions.is_empty());
    assert_eq!(status.failures.len(), 7);
    assert_eq!(
        status.failures[0].error,
        "unable to create destination directory: read-only"
    );
    assert_eq!(status.failures[0].source, "one/image/a.mdt");
    assert_eq!(status.failures[0].destination, "/fw/1/a.mbn");
    assert_eq!(
        status.failures[2].error,
        "unable to mount source partition: Unable to find active partition two_b or unsuffixed partition two; refusing to use the opposite slot"
    );
    assert_eq!(
        status.failures[6].error,
        "unable to mount source partition: bad magic"
    );
    let required: Vec<bool> = status.failures.iter().map(|f| f.required).collect();
    assert_eq!(required, [true, false, true, false, true, false, true]);
}

#[test]
fn raw_entries_are_dumped() {
    let extract = vec![
        raw_entry("waveform", "rockchip/ebc.wbf"),
        raw_entry("missing", "/else/x"),
        raw_entry("waveform", "again"),
    ];
    let mut session = begin(None, extract, None);
    match session.task() {
        Task::Probe { paths } => assert_eq!(
            paths,
            [
                "/dev/disk/by-partlabel/waveform",
                "/dev/disk/by-partlabel/waveform_a",
                "/dev/disk/by-partlabel/waveform_b",
            ]
        ),
        other => panic!("{other:?}"),
    }
    assert!(session.advance(existing(&["/dev/disk/by-partlabel/waveform_b"])));
    assert_eq!(
        task(&session),
        "DumpRaw { origin: \"/dev/disk/by-partlabel/waveform_b\", destination: \"/fw/rockchip/ebc.wbf\" }"
    );
    assert!(session.advance(Outcome::Done));
    assert!(session.advance(existing(&[])));
    assert!(session.advance(existing(&["/dev/disk/by-partlabel/waveform_b"])));
    assert!(session.advance(failed("io")));
    let status = status(session);
    assert_eq!(status.entries, ["/fw/rockchip/ebc.wbf"]);
    assert_eq!(status.partitions.len(), 1);
    assert_eq!(status.failures.len(), 2);
    assert_eq!(status.failures[0].source, "missing");
    assert_eq!(status.failures[0].destination, "/else/x");
    assert_eq!(
        status.failures[0].error,
        "unable to find partition: Unable to find device file for partition missing"
    );
    assert_eq!(status.failures[1].source, "/dev/disk/by-partlabel/waveform_b");
    assert_eq!(status.failures[1].error, "unable to dump partition: io");
    assert!(!status.has_required_failures());
}

#[test]
fn entries_without_destination_are_skipped() {
    let skipped = Entry {
        to: Dest::ByKernel(
            vec![("<7.0".to_string(), "old".to_string())].into_iter().collect(),
        ),
        ..entry("modem", "", vec![item("a", true)], Vec::new())
    };
    let mut session = begin(None, vec![skipped, raw_entry("x", "y")], None);
    assert!(matches!(session.task(), Task::Probe { .. }));
    session.advance(existing(&["/dev/disk/by-partlabel/x"]));
    session.advance(Outcome::Done);
    let status = status(session);
    assert_eq!(status.entries, ["/fw/y"]);
    assert!(status.failures.is_empty());
}

#[test]
fn containers_are_mapped_before_anything_is_mounted() {
    let extract = vec![entry("vendor", "x", Vec::new(), Vec::new())];
    let mut session = begin(Some("super"), extract, Some(Slot::A));
    match session.task() {
        Task::Probe { paths } => assert_eq!(
            paths,
            ["/dev/disk/by-partlabel/super_a", "/dev/disk/by-partlabel/super"]
        ),
        other => panic!("{other:?}"),
    }
    assert!(session.advance(existing(&["/dev/disk/by-partlabel/super"])));
    assert_eq!(
        task(&session),
        "StartService { service: \"make-dynpart-mappings@super.service\" }"
    );
    assert!(session.advance(Outcome::Done));
    assert_eq!(task(&session), "CountEntries { directory: \"/dev/mapper\" }");
    assert!(session.advance(Outcome::Counted { entries: Some(1) }));
    assert_eq!(task(&session), "Pause { milliseconds: 100 }");
    assert!(session.advance(Outcome::Done));
    assert!(session.advance(Outcome::Counted { entries: Some(2) }));
    assert_eq!(task(&session), "CreateDirectory { path: \"/fw/x\" }");
    session.advance(Outcome::Done);
    session.advance(existing(&["/dev/mapper/vendor_a"]));
    session.advance(mounted("/mounts/vendor", "/dev/mapper/vendor_a", true));
    assert_eq!(task(&session), "Release { path: \"/mounts/vendor\" }");
    session.advance(Outcome::Done);
    let status = status(session);
    assert_eq!(status.partitions[0].partition, "dynpart:super");
    assert_eq!(status.partitions[0].source, "/dev/disk/by-partlabel/super");
    assert_eq!(status.partitions[1].partition, "vendor");
}

#[test]
fn mapped_partitions_are_awaited_for_a_while() {
    let mut session = begin(Some("super"), vec![raw_entry("x", "y")], None);
    session.advance(existing(&["/dev/disk/by-partlabel/super"]));
    session.advance(Outcome::Done);
    for _ in 0..5 {
        assert!(session.advance(Outcome::Counted { entries: None }));
        assert_eq!(task(&session), "Pause { milliseconds: 100 }");
        assert!(session.advance(Outcome::Done));
    }
    assert!(matches!(session.task(), Task::Probe { .. }));
}

#[test]
fn containers_that_fail_end_the_run() {
    let mut session = begin(Some("super"), Vec::new(), None);
    session.advance(existing(&[]));
    let error = session.finish().unwrap().unwrap_err();
    assert_eq!(error.message(), "Unable to find dynamic partition container super");

    let mut session = begin(Some("super"), Vec::new(), None);
    session.advance(existing(&[
        "/dev/disk/by-partlabel/super_a",
        "/dev/disk/by-partlabel/super_b",
    ]));
    assert!(session.advance(failed("one")));
    assert_eq!(
        task(&session),
        "StartService { service: \"make-dynpart-mappings@super_b.service\" }"
    );
    assert!(session.advance(failed("two")));
    assert_eq!(task(&session), "Nothing");
    assert_eq!(session.finish().unwrap().unwrap_err().message(), "two");
}

#[test]
fn one_mapped_container_is_enough_where_the_slot_is_unknown() {
    let mut session = begin(Some("super"), Vec::new(), None);
    session.advance(existing(&[
        "/dev/disk/by-partlabel/super_a",
        "/dev/disk/by-partlabel/super_b",
    ]));
    session.advance(failed("one"));
    session.advance(Outcome::Done);
    session.advance(Outcome::Counted { entries: Some(3) });
    let status = status(session);
    assert_eq!(status.partitions.len(), 1);
    assert_eq!(status.partitions[0].source, "/dev/disk/by-partlabel/super_b");
}

#[test]
fn nameless_containers_are_not_mapped() {
    let mut session = begin(Some(".."), Vec::new(), None);
    session.advance(existing(&["/dev/disk/by-partlabel/.."]));
    assert_eq!(task(&session), "Nothing");
    let error = session.finish().unwrap().unwrap_err();
    assert_eq!(error.kind, ErrorKind::InvalidData);
    assert_eq!(error.message(), "Invalid dynamic partition name");
}

#[test]
fn invalid_configurations_do_not_start() {
    let broken = Entry { from: Some("x".to_string()), ..raw_entry("waveform", "y") };
    let config = Config { dynpart: None, extract: vec![raw_entry("ok", "z"), broken] };
    match process(config, "/fw", "/mounts", None, None) {
        Ok(_) => panic!("accepted"),
        Err(error) => assert_eq!(
            error.message(),
            "raw entry on partition waveform must not set from, files or dirs"
        ),
    }
}

#[test]
fn wrong_outcomes_do_not_move_a_session() {
    let mut session = begin(None, vec![raw_entry("x", "y")], None);
    let before = task(&session);
    assert!(!session.advance(Outcome::Done));
    assert!(!session.advance(failed("x")));
    assert!(!session.advance(Outcome::Found { directory: true }));
    assert!(!session.advance(Outcome::Counted { entries: None }));
    assert!(!session.advance(mounted("/a", "/b", true)));
    assert_eq!(task(&session), before);
    assert!(session.finish().is_none());
}

#[test]
fn empty_configurations_finish_at_once() {
    let session = begin(None, Vec::new(), Some(Slot::B));
    assert_eq!(task(&session), "Nothing");
    let status = status(session);
    assert!(status.entries.is_empty());
    assert_eq!(status.active_slot.as_deref(), Some("_b"));
}

#[test]
fn everything_asked_for_is_accounted_for() {
    for pattern in 0..64u32 {
        let extract = vec![
            entry("p", "1", vec![item("a", true), item("b", false)], vec![item("c", true)]),
            raw_entry("q", "2"),
            entry("r", "3", vec![item("d", true)], vec![item("e", false)]),
        ];
        let mut session = begin(None, extract, None);
        let mut bit = 0;
        let mut steps = 0;
        loop {
            steps += 1;
            assert!(steps < 40);
            let good = pattern >> (bit % 6) & 1 == 1;
            let outcome = match session.task() {
                Task::Nothing => break,
                Task::Probe { paths } => Outcome::Existing { paths },
                Task::Mount { source, path, .. } => mounted(&path, &source, true),
                Task::Inspect { path } => Outcome::Found {
                    directory: path.ends_with('c') || path.ends_with('e'),
                },
                Task::CopyFile { .. } | Task::CopyDirectory { .. } | Task::DumpRaw { .. } => {
                    bit += 1;
                    if good {
                        Outcome::Done
                    } else {
                        failed("no")
                    }
                }
                _ => Outcome::Done,
            };
            assert!(session.advance(outcome));
        }
        let status = status(session);
        assert_eq!(status.entries.len() + status.failures.len(), 6);
        for wanted in ["/fw/1/a", "/fw/1/b", "/fw/1/c", "/fw/2", "/fw/3/d", "/fw/3/e"] {
            let extracted = status.entries.iter().any(|entry| entry == wanted);
            let failed = status.failures.iter().any(|failure| failure.destination == wanted);
            assert_ne!(extracted, failed, "{wanted}");
            let required = wanted.ends_with(['a', 'c', 'd']);
            if required && !status.has_required_failures() {
                assert!(extracted);
            }
        }
    }
}

#[test]
fn mounts_must_be_of_the_selected_device() {
    let extract = vec![entry("modem", "x", vec![item("a", false)], Vec::new())];
    let mut session = begin(None, extract, None);
    session.advance(Outcome::Done);
    session.advance(existing(&["/dev/mapper/modem_b"]));
    match session.task() {
        Task::Mount { flags, .. } => assert_eq!(flags, MS_RDONLY),
        other => panic!("{other:?}"),
    }
    assert!(!session.advance(mounted("/mounts/modem", "/dev/mapper/modem_a", true)));
    assert!(!session.advance(mounted("/elsewhere", "/dev/mapper/modem_b", true)));
    assert!(matches!(session.task(), Task::Mount { .. }));
    assert!(session.advance(mounted("/elsewhere", "/dev/mapper/modem_b", false)));
    assert_eq!(task(&session), "Inspect { path: \"/elsewhere/image/a\" }");
}

#[test]
fn unknown_kernels_extract_to_the_catch_all() {
    let pairs = [("<7.0", "old"), ("*", "any")];
    let caught = Entry {
        to: Dest::ByKernel(
            pairs.iter().map(|(c, path)| (c.to_string(), path.to_string())).collect(),
        ),
        ..entry("modem", "", vec![item("a", true)], Vec::new())
    };
    let config = Config { dynpart: None, extract: vec![caught] };
    let session = process(config, "/fw", "/mounts", Some("all"), None).unwrap();
    assert_eq!(task(&session), "CreateDirectory { path: \"/fw/any\" }");
}

#[test]
fn failed_squashing_leaves_nothing() {
    let items = vec![item("a.mdt", true), item("b.bin", false)];
    let mut session = begin(None, vec![entry("modem", "x", items, Vec::new())], None);
    session.advance(Outcome::Done);
    session.advance(existing(&["/dev/mapper/modem"]));
    session.advance(mounted("/mnt/x", "/dev/mapper/modem", false));
    session.advance(Outcome::Found { directory: false });
    assert!(session.advance(failed("Read 1 bytes (!= 2)")));
    assert_eq!(task(&session), "RemoveFile { path: \"/fw/x/a.mbn\" }");
    assert!(!session.advance(failed("no such file")));
    assert!(session.advance(Outcome::Done));
    session.advance(Outcome::Found { directory: false });
    assert!(session.advance(failed("disk full")));
    let status = status(session);
    let errors: Vec<&str> = status.failures.iter().map(|f| f.error.as_str()).collect();
    assert_eq!(errors, ["unable to copy: Read 1 bytes (!= 2)", "unable to copy: disk full"]);
    assert_eq!(status.failures[0].destination, "/fw/x/a.mbn");
    assert!(status.entries.is_empty());
}

#[test]
fn sources_of_a_run_are_distinct() {
    let extract = vec![raw_entry("q", "1"), raw_entry("q", "2"), raw_entry("q", "3")];
    let mut session = begin(Some("super"), extract, None);
    session.advance(existing(&[
        "/dev/disk/by-partlabel/super",
        "/dev/disk/by-partlabel/super_a",
        "/dev/disk/by-partlabel/super_b",
        "/dev/disk/by-partlabel/super",
    ]));
    for _ in 0..3 {
        assert!(session.advance(Outcome::Done));
    }
    session.advance(Outcome::Counted { entries: Some(2) });
    for _ in 0..3 {
        session.advance(existing(&["/dev/disk/by-partlabel/q"]));
        session.advance(Outcome::Done);
    }
    let status = status(session);
    assert_eq!(status.partitions.len(), 4);
    for i in 0..4 {
        for j in 0..i {
            assert_ne!(status.partitions[i], status.partitions[j]);
        }
    }
}
