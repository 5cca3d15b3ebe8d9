use lagerist::device::DevicePaths;

fn partitions_text() -> String {
    String::from(
        "major minor  #blocks  name\n\n   8        0  976762584 sda\n   8        1     524288 sda1\n 253        2   10485760 dm-2\n",
    )
}

#[test]
fn resolves_plain_device() {
    let mut d = DevicePaths::new(partitions_text(), vec![]);
    assert_eq!(d.get_dev_path("8,0"), Some(String::from("/dev/sda")));
    assert_eq!(d.get_dev_path("8,1"), Some(String::from("/dev/sda1")));
}

#[test]
fn loop_device_ignores_partition_table() {
    let mut d = DevicePaths::new(String::from("garbage\nwith\nno 7 3 fields"), vec![]);
    assert_eq!(d.get_dev_path("7,3"), Some(String::from("/dev/loop3")));
    let mut e = DevicePaths::new(String::new(), vec![]);
    assert_eq!(e.get_dev_path("7,0"), Some(String::from("/dev/loop0")));
}

#[test]
fn repeated_resolution_is_idempotent() {
    let mut d = DevicePaths::new(partitions_text(), vec![]);
    let first = d.get_dev_path("8,0");
    let second = d.get_dev_path("8,0");
    let third = d.get_dev_path("8,0");
    assert_eq!(first, Some(String::from("/dev/sda")));
    assert_eq!(second, first);
    assert_eq!(third, first);
}

#[test]
fn unknown_device_resolves_to_nothing() {
    let mut d = DevicePaths::new(partitions_text(), vec![]);
    assert_eq!(d.get_dev_path("9,9"), None);
}

#[test]
fn identifier_without_comma_resolves_to_nothing() {
    let mut d = DevicePaths::new(partitions_text(), vec![]);
    assert_eq!(d.get_dev_path("80"), None);
}

#[test]
fn header_lines_are_skipped() {
    // the device is named only inside the two header lines, so it is not found
    let text = String::from("   8        0  976762584 sda\n   8        0  976762584 sda\n");
    let mut d = DevicePaths::new(text, vec![]);
    assert_eq!(d.get_dev_path("8,0"), None);
}

#[test]
fn last_matching_partition_line_wins() {
    let text = String::from(
        "major minor  #blocks  name\n\n   8        0  1 first\n   8        0  1 second\n",
    );
    let mut d = DevicePaths::new(text, vec![]);
    assert_eq!(d.get_dev_path("8,0"), Some(String::from("/dev/second")));
}

#[test]
fn mapper_symlink_resolves_group_and_volume() {
    let links = vec![(String::from("vgdata-lvroot"), String::from("../dm-2"))];
    let mut d = DevicePaths::new(partitions_text(), links);
    assert_eq!(d.get_dev_path("253,2"), Some(String::from("/dev/vgdata/lvroot")));
}

#[test]
fn mapper_escaped_hyphens_collapse_in_volume() {
    let links = vec![(String::from("vg--data-lv--root"), String::from("../dm-2"))];
    let mut d = DevicePaths::new(partitions_text(), links);
    let path = d.get_dev_path("253,2").unwrap();
    assert_eq!(path, String::from("/dev/vg--data/lv-root"));
    assert!(path.ends_with("/lv-root"));
}

#[test]
fn mapper_name_without_separator_keeps_target() {
    let links = vec![(String::from("cryptroot"), String::from("../dm-2"))];
    let mut d = DevicePaths::new(partitions_text(), links);
    assert_eq!(d.get_dev_path("253,2"), Some(String::from("../dm-2")));
}

#[test]
fn mapper_without_matching_symlink_keeps_plain_path() {
    let links = vec![(String::from("other-volume"), String::from("../dm-7"))];
    let mut d = DevicePaths::new(partitions_text(), links);
    assert_eq!(d.get_dev_path("253,2"), Some(String::from("/dev/dm-2")));
}

#[test]
fn absolute_symlink_target_matches_too() {
    let links = vec![(String::from("vgdata-lvroot"), String::from("/dev/dm-2"))];
    let mut d = DevicePaths::new(partitions_text(), links);
    assert_eq!(d.get_dev_path("253,2"), Some(String::from("/dev/vgdata/lvroot")));
}
