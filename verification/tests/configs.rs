use blob_wrangler::config::{
    bundled_compatibles, bundled_config, catch_all_destination, destination_path, first_matching_destination,
    item_destination, resolve_destination, Config, Dest, Entry, Item, ItemKind,
};
use blob_wrangler::error::{Error, ErrorKind};
use blob_wrangler::kernel::parse_kernel_version;
use serde_norway::Value;

fn kernel_dest(pairs: &[(&str, &str)]) -> Dest {
    Dest::ByKernel(
        pairs
            .iter()
            .map(|(constraint, path)| (constraint.to_string(), path.to_string()))
            .collect(),
    )
}

#[test]
fn kernel_map_first_match_in_document_order_wins() {
    let dest = kernel_dest(&[("<7.0", "qcom/old"), (">=7.0", "qcom/new")]);
    let old = parse_kernel_version("6.17.0").unwrap();
    let new = parse_kernel_version("7.2.0").unwrap();

    assert_eq!(
        resolve_destination(&dest, Some(old), "modem").as_deref(),
        Some("qcom/old")
    );
    assert_eq!(
        resolve_destination(&dest, Some(new), "modem").as_deref(),
        Some("qcom/new")
    );
}

#[test]
fn kernel_map_catch_all_matches_every_kernel() {
    let dest = kernel_dest(&[("<7.0", "qcom/old"), ("*", "qcom/fallback")]);
    let new = parse_kernel_version("7.2.0").unwrap();
    assert_eq!(
        resolve_destination(&dest, Some(new), "modem").as_deref(),
        Some("qcom/fallback")
    );

    let dest = kernel_dest(&[("*", "qcom/fallback"), ("<7.0", "qcom/old")]);
    let old = parse_kernel_version("6.17.0").unwrap();
    assert_eq!(
        resolve_destination(&dest, Some(old), "modem").as_deref(),
        Some("qcom/fallback")
    );
}

#[test]
fn kernel_map_without_match_skips_entry() {
    let dest = kernel_dest(&[("<7.0", "qcom/old")]);
    let new = parse_kernel_version("7.2.0").unwrap();

    assert_eq!(resolve_destination(&dest, Some(new), "modem"), None);
    assert_eq!(resolve_destination(&dest, None, "modem"), None);
}

#[test]
fn catch_all_matches_an_unknown_kernel() {
    let dest = kernel_dest(&[("*", "qcom/fallback")]);
    assert_eq!(
        resolve_destination(&dest, None, "modem").as_deref(),
        Some("qcom/fallback")
    );

    let dest = kernel_dest(&[(">=1.0", "qcom/any"), ("*", "qcom/fallback"), ("<7.0", "qcom/old")]);
    assert_eq!(
        resolve_destination(&dest, parse_kernel_version("all"), "modem").as_deref(),
        Some("qcom/fallback")
    );

    let pairs = vec![("*".to_string(), "a".to_string()), ("*".to_string(), "b".to_string())];
    assert_eq!(catch_all_destination(&pairs).as_deref(), Some("a"));
    assert_eq!(catch_all_destination(&Vec::new()), None);
}

#[test]
fn fixed_to_always_resolves() {
    let dest = Dest::Fixed("qcom/device".to_string());

    assert_eq!(
        resolve_destination(&dest, None, "modem").as_deref(),
        Some("qcom/device")
    );
}

#[test]
fn many_constraints_keep_their_order() {
    let pairs: Vec<(String, String)> = (0..40)
        .rev()
        .map(|minor| (format!(">=6.{minor}"), format!("minor-{minor}")))
        .collect();
    let dest = Dest::ByKernel(pairs.iter().cloned().collect());
    for minor in 0..40 {
        let running = parse_kernel_version(&format!("6.{minor}.5")).unwrap();
        let expected = Some(format!("minor-{minor}"));
        assert_eq!(resolve_destination(&dest, Some(running), "modem"), expected);
        assert_eq!(first_matching_destination(&pairs, running), expected);
    }
}

#[test]
fn relative_to_resolves_against_extract_path_absolute_verbatim() {
    assert_eq!(
        destination_path("qcom/device", "/lib/firmware/updates"),
        "/lib/firmware/updates/qcom/device"
    );
    assert_eq!(
        destination_path("/var/lib/blob-wrangler/sensors", "/lib/firmware/updates"),
        "/var/lib/blob-wrangler/sensors"
    );
    assert_eq!(destination_path(".", "/lib/firmware/updates"), "/lib/firmware/updates");
}

fn item_of(value: &Value) -> Item {
    if let Some(path) = value.as_str() {
        return Item::Path(path.to_string());
    }
    Item::Spec {
        from: value.get("from").and_then(Value::as_str).unwrap().to_string(),
        to: value.get("to").and_then(Value::as_str).map(str::to_string),
        required: value.get("required").and_then(Value::as_bool).unwrap_or(false),
    }
}

fn items_of(value: Option<&Value>) -> Vec<Item> {
    match value {
        Some(items) => items.as_sequence().unwrap().iter().map(item_of).collect(),
        None => Vec::new(),
    }
}

fn entry_of(text: &str) -> Entry {
    let value: Value = serde_norway::from_str(text).unwrap();
    Entry {
        partition: value.get("partition").and_then(Value::as_str).unwrap().to_string(),
        from: value.get("from").and_then(Value::as_str).map(str::to_string),
        to: Dest::Fixed(value.get("to").and_then(Value::as_str).unwrap().to_string()),
        raw: value.get("raw").and_then(Value::as_bool).unwrap_or(false),
        files: items_of(value.get("files")),
        dirs: items_of(value.get("dirs")),
    }
}

#[test]
fn items_accept_bare_strings_and_mappings() {
    let value: Value = serde_norway::from_str(
        "- adsp.mdt\n- { from: sns_reg_config, to: sensors/sns_reg.conf, required: true }\n",
    )
    .unwrap();
    let items = items_of(Some(&value));

    assert_eq!(items.len(), 2);
    assert_eq!(items[0].from(), "adsp.mdt");
    assert_eq!(items[0].to(), None);
    assert!(!items[0].required());
    assert_eq!(items[1].from(), "sns_reg_config");
    assert_eq!(items[1].to(), Some("sensors/sns_reg.conf"));
    assert!(items[1].required());
}

#[test]
fn raw_entry_rejects_from_files_and_dirs() {
    let entry = entry_of("partition: waveform\nraw: true\nto: rockchip/ebc.wbf");
    assert!(entry.validate().is_ok());

    for extra in ["from: image", "files: [adsp.mdt]", "dirs: [image]"] {
        let text = format!("partition: waveform\nraw: true\nto: rockchip/ebc.wbf\n{extra}\n");
        let entry = entry_of(&text);
        assert!(
            entry.validate().is_err(),
            "raw entry with '{extra}' must be rejected"
        );
        let error = entry.validate().unwrap_err();
        assert_eq!(error.kind, ErrorKind::InvalidData);
        assert_eq!(
            error.message(),
            "raw entry on partition waveform must not set from, files or dirs"
        );
    }
}

#[test]
fn other_entries_may_set_everything() {
    let entry = entry_of("partition: vendor\nto: x\nfrom: image\nfiles: [a.mdt]\ndirs: [b]");
    assert!(entry.validate().is_ok());
    assert!(entry.files[0].is_mdt_image());
    assert!(!entry.dirs[0].is_mdt_image());
    assert_eq!(entry.from_directory(), "image");
}

#[test]
fn renamed_mdt_files_still_land_as_mbn() {
    let item = Item::Spec {
        from: "vpu20_1v.mdt".to_string(),
        to: Some("venus.mdt".to_string()),
        required: false,
    };

    assert_eq!(
        item_destination("/updates/qcom/device", &item, ItemKind::File),
        "/updates/qcom/device/venus.mbn"
    );
}

#[test]
fn dir_items_are_named_after_to_or_the_source_directory() {
    let renamed = Item::Spec {
        from: "etc/acdbdata".to_string(),
        to: Some("acdb".to_string()),
        required: false,
    };
    let bare = Item::Path("etc/sensors".to_string());

    assert_eq!(
        item_destination("/var/lib/sensors", &renamed, ItemKind::Dir),
        "/var/lib/sensors/acdb"
    );
    assert_eq!(
        item_destination("/var/lib/sensors", &bare, ItemKind::Dir),
        "/var/lib/sensors/sensors"
    );
}

#[test]
fn items_land_by_name_and_kind() {
    let mdt = Item::Path("image/adsp.mdt".to_string());
    assert_eq!(item_destination("/d", &mdt, ItemKind::File), "/d/adsp.mbn");
    assert_eq!(item_destination("/d", &mdt, ItemKind::Dir), "/d/adsp.mdt");
    let plain = Item::Path("image/adsp.bin".to_string());
    assert_eq!(item_destination("/d", &plain, ItemKind::File), "/d/adsp.bin");
    let nameless = Item::Path("..".to_string());
    assert_eq!(item_destination("/d", &nameless, ItemKind::Dir), "/d/..");
    let away = Item::Spec {
        from: "x.mdt".to_string(),
        to: Some("/else/y".to_string()),
        required: false,
    };
    assert_eq!(item_destination("/d", &away, ItemKind::File), "/else/y.mbn");
    let upward = Item::Spec {
        from: "x.mdt".to_string(),
        to: Some("..".to_string()),
        required: false,
    };
    assert_eq!(item_destination("/d", &upward, ItemKind::File), "/d/..");
}

fn bundle() -> Vec<(String, Result<Config, Error>)> {
    bundled_compatibles()
        .into_iter()
        .map(|compatible| {
            let dynpart = match compatible {
                "google,sargo" => Some("system".to_string()),
                _ => None,
            };
            (compatible.to_string(), Ok(Config { dynpart, extract: Vec::new() }))
        })
        .collect()
}

fn compatibles(names: &[&str]) -> Vec<String> {
    names.iter().map(|name| name.to_string()).collect()
}

#[test]
fn matches_first_supported_compatible() {
    let wanted = compatibles(&["vendor,board", "google,sargo", "google,blueline"]);
    let bundled = bundled_config(&wanted, bundle()).unwrap().unwrap();

    assert_eq!(bundled.compatible, "google,sargo");
    assert_eq!(bundled.config.dynpart(), Some("system"));
}

#[test]
fn returns_none_for_unknown_compatibles() {
    assert!(bundled_config(&compatibles(&["vendor,board"]), bundle()).unwrap().is_none());
}

#[test]
fn unreadable_bundled_config_is_an_error() {
    let mut all = bundle();
    all[2].1 = Err(Error::new(ErrorKind::InvalidData, "broken".to_string()));
    let name = all[2].0.clone();
    let error = bundled_config(&vec![name, "google,sargo".to_string()], all).unwrap_err();
    assert_eq!(error.message(), "broken");
}

#[test]
fn supported_devices_are_listed() {
    let names = bundled_compatibles();
    assert_eq!(names.len(), 18);
    assert_eq!(names[0], "fairphone,fp4");
    assert_eq!(names[17], "xiaomi,polaris");
    assert!(names.contains(&"google,crosshatch"));
}

#[test]
fn order_of_compatibles_decides() {
    let alone = bundled_config(&compatibles(&["google,sargo"]), bundle()).unwrap().unwrap();
    let among = compatibles(&["x,y", "google,sargo", "fairphone,fp4", "google,blueline"]);
    let mut reversed = bundle();
    reversed.reverse();
    for all in [bundle(), reversed] {
        let selected = bundled_config(&among, all).unwrap().unwrap();
        assert_eq!(selected.compatible, alone.compatible);
        assert_eq!(selected.config.dynpart(), alone.config.dynpart());
    }
}
