use blob_wrangler::error::ErrorKind;
use blob_wrangler::slot::{
    detect_active_slot, merge_slot, parse_slot, reconcile_slots, slot_from_cmdline, Slot,
};

#[test]
fn parses_android_slot_command_line_variants() {
    assert_eq!(
        slot_from_cmdline("quiet androidboot.slot_suffix=_a rootwait").unwrap(),
        Some(Slot::A)
    );
    assert_eq!(
        slot_from_cmdline("androidboot.slot=b androidboot.slot_suffix=_b").unwrap(),
        Some(Slot::B)
    );
    assert_eq!(slot_from_cmdline("quiet rootwait").unwrap(), None);
}

#[test]
fn rejects_conflicting_slot_sources() {
    assert!(slot_from_cmdline("androidboot.slot=a androidboot.slot_suffix=_b").is_err());

    let error = reconcile_slots(Some(Slot::A), Some(Slot::B)).unwrap_err();
    assert!(error.message().contains("Active slot mismatch"));
    assert_eq!(
        reconcile_slots(Some(Slot::A), Some(Slot::A)).unwrap(),
        Some(Slot::A)
    );
    assert_eq!(reconcile_slots(None, Some(Slot::B)).unwrap(), Some(Slot::B));
}

#[test]
fn slot_values_may_be_quoted_and_padded() {
    assert_eq!(parse_slot("a"), Some(Slot::A));
    assert_eq!(parse_slot(" \"_b\"\n"), Some(Slot::B));
    assert_eq!(parse_slot("\" b\""), None);
    assert_eq!(parse_slot("c"), None);
    assert_eq!(parse_slot(""), None);
}

#[test]
fn suffixes_read_back() {
    assert_eq!(Slot::A.suffix(), "_a");
    assert_eq!(Slot::B.suffix(), "_b");
    assert_eq!(parse_slot(Slot::A.suffix()), Some(Slot::A));
    assert_eq!(parse_slot(Slot::B.suffix()), Some(Slot::B));
}

#[test]
fn merging_reports_the_source() {
    assert_eq!(merge_slot(None, Slot::B, "x").unwrap(), Some(Slot::B));
    assert_eq!(merge_slot(Some(Slot::B), Slot::B, "x").unwrap(), Some(Slot::B));
    let error = merge_slot(Some(Slot::A), Slot::B, "/proc/cmdline").unwrap_err();
    assert_eq!(error.kind, ErrorKind::InvalidData);
    assert_eq!(error.message(), "Conflicting active slot values in /proc/cmdline");
}

#[test]
fn unsupported_command_line_values_are_errors() {
    let error = slot_from_cmdline("androidboot.slot=c androidboot.slot=a").unwrap_err();
    assert_eq!(error.kind, ErrorKind::InvalidData);
    assert_eq!(
        error.message(),
        "Unsupported androidboot.slot value 'c' in /proc/cmdline"
    );
    assert_eq!(slot_from_cmdline("androidboot.slots=a").unwrap(), None);
    assert_eq!(slot_from_cmdline("androidboot.slot").unwrap(), None);
}

#[test]
fn mismatch_names_both_slots() {
    let error = reconcile_slots(Some(Slot::A), Some(Slot::B)).unwrap_err();
    assert_eq!(
        error.message(),
        "Active slot mismatch: kernel command line reports _a, qbootctl reports _b"
    );
    assert_eq!(reconcile_slots(Some(Slot::A), None).unwrap(), Some(Slot::A));
    assert_eq!(reconcile_slots(None, None).unwrap(), None);
}

#[test]
fn active_slot_comes_from_both_sources() {
    assert_eq!(detect_active_slot("androidboot.slot=a", None).unwrap(), Some(Slot::A));
    assert_eq!(detect_active_slot("", Some("_b\n")).unwrap(), Some(Slot::B));
    assert_eq!(detect_active_slot("quiet", None).unwrap(), None);
    assert!(detect_active_slot("androidboot.slot=a", Some("b")).is_err());
    let error = detect_active_slot("", Some(" ?? \n")).unwrap_err();
    assert_eq!(error.kind, ErrorKind::InvalidData);
    assert_eq!(error.message(), "qbootctl returned unsupported slot value '??'");
    let error = detect_active_slot("androidboot.slot=z", Some("??")).unwrap_err();
    assert_eq!(
        error.message(),
        "Unsupported androidboot.slot value 'z' in /proc/cmdline"
    );
}
