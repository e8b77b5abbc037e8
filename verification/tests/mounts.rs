use blob_wrangler::error::{Error, ErrorKind};
use blob_wrangler::mount::{
    already_mounted_path, mount_srcpath, mounted_partition, MountOutcome, MountTask,
    MountedPartition, MS_RDONLY,
};
use blob_wrangler::mountinfo::{
    decode_mountinfo_path, device_numbers, mounted_path_from_mountinfo, parse_mountinfo_device,
};

#[test]
fn mounted_path_prefers_filesystem_root() {
    let mountinfo = "
36 25 259:2 /NetworkManager/system-connections /etc/NetworkManager/system-connections rw,relatime - ext4 /dev/sda2 rw
35 25 259:2 / /var/lib/persist rw,relatime - ext4 /dev/sda2 rw
";

    assert_eq!(
        mounted_path_from_mountinfo(mountinfo, 259, 2),
        Some("/var/lib/persist".to_string())
    );
}

#[test]
fn mounted_path_decodes_mountinfo_escapes() {
    let mountinfo = "1 0 8:1 / /mnt/foo\\040bar rw,relatime - ext4 /dev/sda1 rw";

    assert_eq!(
        mounted_path_from_mountinfo(mountinfo, 8, 1),
        Some("/mnt/foo bar".to_string())
    );
}

#[test]
fn mounted_path_falls_back_to_the_first_part() {
    let table = "1 0 8:1 /x /mnt/x rw\n2 0 8:1 /y /mnt/y rw\n3 0 8:2 / /mnt/z rw\nshort 0 8:3 /\n";
    assert_eq!(mounted_path_from_mountinfo(table, 8, 1), Some("/mnt/x".to_string()));
    assert_eq!(mounted_path_from_mountinfo(table, 8, 2), Some("/mnt/z".to_string()));
    assert_eq!(mounted_path_from_mountinfo(table, 8, 3), None);
    assert_eq!(mounted_path_from_mountinfo("", 8, 1), None);
}

#[test]
fn mountinfo_escapes_are_undone() {
    assert_eq!(decode_mountinfo_path("/a\\040b\\011c\\012d\\134e"), "/a b\tc\nd\\e");
    assert_eq!(decode_mountinfo_path("/plain"), "/plain");
}

#[test]
fn devices_have_two_numbers() {
    assert_eq!(device_numbers(0x801), (8, 1));
    assert_eq!(device_numbers(0x10302), (259, 2));
    assert_eq!(device_numbers(u64::MAX), (0xffff_ffff, 0xffff_ffff));
    assert_eq!(device_numbers(0x0000_1000_0010_0000), (0x1000, 0x100));
    assert_eq!(parse_mountinfo_device("259:2"), Some((259, 2)));
    assert_eq!(parse_mountinfo_device("259"), None);
    assert_eq!(parse_mountinfo_device("a:2"), None);
    assert_eq!(parse_mountinfo_device("1:2:3"), None);
}

#[test]
fn mounted_partitions_are_found_by_number() {
    let table = "1 0 8:1 / /mnt/one rw";
    assert_eq!(already_mounted_path(Some(0x801), Some(table)), Some("/mnt/one".to_string()));
    assert_eq!(already_mounted_path(Some(0x802), Some(table)), None);
    assert_eq!(already_mounted_path(None, Some(table)), None);
    assert_eq!(already_mounted_path(Some(0x801), None), None);
    assert_eq!(
        mounted_partition("/dev/sda1", Some(0x801), Some(table)),
        Some(MountedPartition::existing("/mnt/one".to_string(), "/dev/sda1".to_string()))
    );
}

#[test]
fn partitions_know_whether_they_are_unmounted() {
    let existing = MountedPartition::existing("/a".to_string(), "/dev/a".to_string());
    assert_eq!((existing.path(), existing.source()), ("/a", "/dev/a"));
    assert!(!existing.needs_cleanup());
    let temporary = MountedPartition::temporary("/a".to_string(), "/dev/a".to_string());
    assert!(temporary.needs_cleanup());
}

fn unmounted() -> MountOutcome {
    MountOutcome::LookedUp { device: Some(0x801), mountinfo: Some(String::new()) }
}

fn shown() -> MountOutcome {
    MountOutcome::LookedUp {
        device: Some(0x801),
        mountinfo: Some("1 0 8:1 / /mnt/one rw".to_string()),
    }
}

fn failure(text: &str) -> MountOutcome {
    MountOutcome::MountFailed { error: Error::new(ErrorKind::InvalidInput, text.to_string()) }
}

#[test]
fn mounted_partition_is_used_at_once() {
    let mut mounting = mount_srcpath("/dev/sda1", "/run/mnt", MS_RDONLY);
    assert!(matches!(mounting.task(), MountTask::LookUp));
    assert!(mounting.advance(shown()));
    match mounting.task() {
        MountTask::Done { partition } => {
            assert_eq!(partition.path(), "/mnt/one");
            assert_eq!(partition.source(), "/dev/sda1");
            assert!(!partition.needs_cleanup());
        }
        other => panic!("{other:?}"),
    }
}

#[test]
fn filesystem_types_are_tried_in_order() {
    let mut mounting = mount_srcpath("/dev/sda1", "/run/mnt", MS_RDONLY);
    assert!(mounting.advance(unmounted()));
    assert!(matches!(mounting.task(), MountTask::CreateDirectory));
    assert!(mounting.advance(MountOutcome::DirectoryTried));
    for fstype in ["ext4", "erofs", "f2fs", "vfat", "exfat"] {
        match mounting.task() {
            MountTask::Mount { fstype: tried, flags } => {
                assert_eq!(tried, fstype);
                assert_eq!(flags, MS_RDONLY);
            }
            other => panic!("{other:?}"),
        }
        assert!(mounting.advance(failure(fstype)));
        assert!(matches!(mounting.task(), MountTask::LookUp));
        assert!(mounting.advance(unmounted()));
    }
    assert!(matches!(mounting.task(), MountTask::LookUp));
    assert!(mounting.advance(unmounted()));
    match mounting.task() {
        MountTask::GiveUp { error } => {
            assert_eq!(error.kind, ErrorKind::InvalidInput);
            assert_eq!(error.message(), "exfat");
        }
        other => panic!("{other:?}"),
    }
}

#[test]
fn own_mounts_are_temporary() {
    let mut mounting = mount_srcpath("/dev/sda1", "/run/mnt", MS_RDONLY);
    mounting.advance(unmounted());
    mounting.advance(MountOutcome::DirectoryTried);
    mounting.advance(failure("ext4"));
    mounting.advance(unmounted());
    assert!(mounting.advance(MountOutcome::MountSucceeded));
    match mounting.task() {
        MountTask::Done { partition } => assert_eq!(
            partition,
            MountedPartition::temporary("/run/mnt".to_string(), "/dev/sda1".to_string())
        ),
        other => panic!("{other:?}"),
    }
}

#[test]
fn partition_that_turns_up_mounted_is_used() {
    for failures in 1..=5 {
        let mut mounting = mount_srcpath("/dev/sda1", "/run/mnt", MS_RDONLY);
        mounting.advance(unmounted());
        mounting.advance(MountOutcome::DirectoryTried);
        for _ in 1..failures {
            mounting.advance(failure("x"));
            mounting.advance(unmounted());
        }
        mounting.advance(failure("x"));
        assert!(mounting.advance(shown()));
        assert!(matches!(mounting.task(), MountTask::Done { .. }));
    }
}

#[test]
fn wrong_outcomes_do_not_move_a_mounting() {
    let mut mounting = mount_srcpath("/dev/sda1", "/run/mnt", MS_RDONLY);
    assert!(!mounting.advance(MountOutcome::MountSucceeded));
    assert!(!mounting.advance(MountOutcome::DirectoryTried));
    assert!(!mounting.advance(failure("x")));
    assert!(matches!(mounting.task(), MountTask::LookUp));
}

#[test]
fn read_only_is_the_flag_of_the_system() {
    assert_eq!(MS_RDONLY, nix::mount::MsFlags::MS_RDONLY.bits());
}
