use blob_wrangler::error::{Error, ErrorKind};
use blob_wrangler::partition::{
    dynpart_paths, find_in_roots, map_dynpart, partition_lookups, select_partition_path,
    start_dynpart_mapping,
};
use blob_wrangler::slot::Slot;

const MAPPER: &str = "/base/mapper";
const PARTLABEL: &str = "/base/partlabel";

struct TestRoots {
    existing: Vec<String>,
}

impl TestRoots {
    fn new() -> Self {
        TestRoots { existing: Vec::new() }
    }

    fn add_mapper(&mut self, name: &str) -> String {
        let path = format!("{MAPPER}/{name}");
        self.existing.push(path.clone());
        path
    }

    fn add_partlabel(&mut self, name: &str) -> String {
        let path = format!("{PARTLABEL}/{name}");
        self.existing.push(path.clone());
        path
    }

    fn roots(&self) -> Vec<String> {
        vec![MAPPER.to_string(), PARTLABEL.to_string()]
    }
}

#[test]
fn known_slot_prefers_active_name_across_all_roots() {
    let mut roots = TestRoots::new();
    roots.add_mapper("vendor");
    let active = roots.add_partlabel("vendor_a");
    roots.add_mapper("vendor_b");

    assert_eq!(
        select_partition_path("vendor", Some(Slot::A), &roots.roots(), &roots.existing).unwrap(),
        active
    );
}

#[test]
fn known_slot_never_falls_through_to_opposite_slot() {
    let mut roots = TestRoots::new();
    roots.add_mapper("modem_b");

    let error = select_partition_path("modem", Some(Slot::A), &roots.roots(), &roots.existing)
        .unwrap_err();
    assert!(error.message().contains("refusing to use the opposite slot"));
    assert_eq!(error.kind, ErrorKind::NotFound);
    assert_eq!(
        error.message(),
        "Unable to find active partition modem_a or unsuffixed partition modem; refusing to use the opposite slot"
    );
}

#[test]
fn known_slot_can_use_unsuffixed_partition() {
    let mut roots = TestRoots::new();
    let unsuffixed = roots.add_mapper("super");
    roots.add_partlabel("super_b");

    assert_eq!(
        select_partition_path("super", Some(Slot::A), &roots.roots(), &roots.existing).unwrap(),
        unsuffixed
    );
}

#[test]
fn unknown_slot_preserves_legacy_a_then_b_preference() {
    let mut roots = TestRoots::new();
    let part_a = roots.add_partlabel("system_a");
    roots.add_partlabel("system_b");

    assert_eq!(
        select_partition_path("system", None, &roots.roots(), &roots.existing).unwrap(),
        part_a
    );
}

#[test]
fn unknown_slot_uses_the_only_available_suffix() {
    let mut roots = TestRoots::new();
    let only = roots.add_partlabel("persist_b");

    assert_eq!(
        select_partition_path("persist", None, &roots.roots(), &roots.existing).unwrap(),
        only
    );
}

#[test]
fn unknown_slot_dynpart_maps_every_available_container() {
    let mut roots = TestRoots::new();
    let unsuffixed = roots.add_partlabel("system");
    let part_a = roots.add_partlabel("system_a");
    let part_b = roots.add_partlabel("system_b");

    assert_eq!(
        dynpart_paths("system", None, PARTLABEL, &roots.existing).unwrap(),
        [unsuffixed, part_a, part_b]
    );
}

#[test]
fn known_slot_dynpart_maps_only_the_active_container() {
    let mut roots = TestRoots::new();
    roots.add_partlabel("system_a");
    let part_b = roots.add_partlabel("system_b");

    assert_eq!(
        dynpart_paths("system", Some(Slot::B), PARTLABEL, &roots.existing).unwrap(),
        [part_b]
    );
}

#[test]
fn missing_partitions_are_reported() {
    let roots = TestRoots::new();
    let error = select_partition_path("modem", None, &roots.roots(), &roots.existing).unwrap_err();
    assert_eq!(error.kind, ErrorKind::NotFound);
    assert_eq!(error.message(), "Unable to find device file for partition modem");
    let error = dynpart_paths("super", None, PARTLABEL, &roots.existing).unwrap_err();
    assert_eq!(error.kind, ErrorKind::NotFound);
    assert_eq!(error.message(), "Unable to find dynamic partition container super");
    assert!(dynpart_paths("super", Some(Slot::A), PARTLABEL, &roots.existing).is_err());
}

#[test]
fn lookups_list_names_before_roots() {
    let roots = vec!["/x".to_string(), "/y/".to_string()];
    assert_eq!(
        partition_lookups("p", Some(Slot::B), &roots),
        ["/x/p_b", "/y/p_b", "/x/p", "/y/p"]
    );
    assert_eq!(
        partition_lookups("p", None, &roots),
        ["/x/p", "/y/p", "/x/p_a", "/y/p_a", "/x/p_b", "/y/p_b"]
    );
}

#[test]
fn only_lookups_matter() {
    let roots = vec![MAPPER.to_string()];
    let wanted = vec![format!("{MAPPER}/p_a")];
    let mut more = wanted.clone();
    more.insert(0, "/elsewhere/p".to_string());
    more.push(format!("{MAPPER}/p_b"));
    assert_eq!(
        select_partition_path("p", Some(Slot::A), &roots, &wanted).unwrap(),
        select_partition_path("p", Some(Slot::A), &roots, &more).unwrap()
    );
    assert_eq!(find_in_roots("p_a", &roots, &more), Some(format!("{MAPPER}/p_a")));
    assert_eq!(find_in_roots("q", &roots, &more), None);
}

#[test]
fn mapping_services_are_named_after_the_container() {
    assert_eq!(
        start_dynpart_mapping("/dev/disk/by-partlabel/super").unwrap(),
        "make-dynpart-mappings@super.service"
    );
    let error = start_dynpart_mapping("/dev/disk/by-partlabel/..").unwrap_err();
    assert_eq!(error.kind, ErrorKind::InvalidData);
    assert_eq!(error.message(), "Invalid dynamic partition name");
}

#[test]
fn mapping_results_depend_on_the_slot() {
    let failed = |text: &str| Some(Error::new(ErrorKind::Other, text.to_string()));
    let attempts = vec![
        ("a".to_string(), failed("first")),
        ("b".to_string(), None),
        ("c".to_string(), failed("last")),
    ];
    assert_eq!(map_dynpart("p", None, &attempts).unwrap(), ["b"]);
    assert_eq!(map_dynpart("p", Some(Slot::A), &attempts).unwrap_err().message(), "first");

    let attempts = vec![("a".to_string(), failed("first")), ("b".to_string(), failed("last"))];
    assert_eq!(map_dynpart("p", None, &attempts).unwrap_err().message(), "last");

    let error = map_dynpart("p", None, &Vec::new()).unwrap_err();
    assert_eq!(error.kind, ErrorKind::Other);
    assert_eq!(error.message(), "Failed to map dynamic partition container p");
}
