use android_debloater::backups::{backup_dir_name, latest_backups, parse_backup_name, DirItem};

fn dir(name: &str) -> DirItem {
    DirItem { name: name.to_string(), path: format!("/root/backups/{}", name), is_dir: true }
}

#[test]
fn latest_per_package_sorted() {
    let items = vec![dir("com.b-50"), dir("com.a-100"), dir("com.a-200")];
    let r = latest_backups(&items);
    assert_eq!(r.len(), 2);
    assert_eq!(r[0].package, "com.a");
    assert_eq!(r[0].dir, "/root/backups/com.a-200");
    assert_eq!(r[0].timestamp, 200);
    assert_eq!(r[1].package, "com.b");
    assert_eq!(r[1].dir, "/root/backups/com.b-50");
    assert_eq!(r[1].timestamp, 50);
}

#[test]
fn latest_of_nothing_is_empty() {
    assert!(latest_backups(&vec![]).is_empty());
}

#[test]
fn files_and_names_without_dash_are_ignored() {
    let mut f = dir("com.c-10");
    f.is_dir = false;
    let items = vec![f, dir("nodash"), dir("com.d-7")];
    let r = latest_backups(&items);
    assert_eq!(r.len(), 1);
    assert_eq!(r[0].package, "com.d");
    assert_eq!(r[0].timestamp, 7);
}

#[test]
fn equal_timestamps_keep_the_first_seen() {
    let mut a = dir("com.e-5");
    a.path = "/first".to_string();
    let mut b = dir("com.e-5");
    b.path = "/second".to_string();
    let r = latest_backups(&vec![a, b]);
    assert_eq!(r.len(), 1);
    assert_eq!(r[0].dir, "/first");
}

#[test]
fn unparsable_timestamp_counts_as_zero() {
    let r = latest_backups(&vec![dir("com.f-abc"), dir("com.g-")]);
    assert_eq!(r.len(), 2);
    assert_eq!(r[0].package, "com.f");
    assert_eq!(r[0].timestamp, 0);
    assert_eq!(r[1].package, "com.g");
    assert_eq!(r[1].timestamp, 0);
    let r = latest_backups(&vec![dir("com.h-abc"), dir("com.h-3")]);
    assert_eq!(r[0].timestamp, 3);
}

#[test]
fn timestamp_parse_follows_u64_rules() {
    assert_eq!(parse_backup_name("p-+12"), Some(("p".to_string(), 12)));
    assert_eq!(parse_backup_name("p-18446744073709551615"), Some(("p".to_string(), u64::MAX)));
    assert_eq!(parse_backup_name("p-18446744073709551616"), Some(("p".to_string(), 0)));
    assert_eq!(parse_backup_name("p-+"), Some(("p".to_string(), 0)));
    assert_eq!(parse_backup_name("plain"), None);
}

#[test]
fn dir_name_round_trip() {
    let n = backup_dir_name("com.example", 1700000000);
    assert_eq!(n, "com.example-1700000000");
    assert_eq!(parse_backup_name(&n), Some(("com.example".to_string(), 1700000000)));
    assert_eq!(backup_dir_name("x", 0), "x-0");
}

#[test]
fn dashed_package_splits_at_last_dash() {
    let n = backup_dir_name("com.a-1", 5);
    assert_eq!(n, "com.a-1-5");
    assert_eq!(parse_backup_name(&n), Some(("com.a-1".to_string(), 5)));
}
