use android_debloater::locate::{adb_candidates, pick_adb_path};
use android_debloater::uninstall::{
    backup_dir_path, backups_root_from, backups_root_under, check_package_name, plan_backup,
    reboot_outcome, uninstall_report,
};

#[test]
fn blank_package_is_refused() {
    assert_eq!(check_package_name("  \t"), Err("Package name cannot be empty".to_string()));
    assert_eq!(check_package_name(""), Err("Package name cannot be empty".to_string()));
    assert_eq!(check_package_name(" com.a "), Ok(()));
}

#[test]
fn no_paths_stops_before_backup() {
    let r = plan_backup("com.gone", true, "", "", "/r", 7);
    assert_eq!(r.err(), Some("No APK paths found for com.gone".to_string()));
}

#[test]
fn failed_query_reports_stderr() {
    let r = plan_backup("com.a", false, "package:/x.apk\n", "device offline", "/r", 7);
    assert_eq!(r.err(), Some("Failed to get APK paths for com.a: device offline".to_string()));
}

#[test]
fn paths_to_pull() {
    let r = plan_backup("com.a", true, "package:/data/app/com.a/base.apk\n", "", "/r", 1700000000).unwrap();
    assert_eq!(r.paths, vec!["/data/app/com.a/base.apk"]);
    assert_eq!(r.dir, "/r/com.a-1700000000");
}

#[test]
fn backup_paths() {
    assert_eq!(backups_root_under("/home/u/Documents"), "/home/u/Documents/AndroidDebloater/backups");
    assert_eq!(backup_dir_path("/r", "com.a", 42), "/r/com.a-42");
    assert_eq!(
        backups_root_from(Some("/home/u/Documents".to_string()), Some("/home/u".to_string()), "/cwd"),
        "/home/u/Documents/AndroidDebloater/backups"
    );
    assert_eq!(backups_root_from(None, Some("/home/u".to_string()), "/cwd"), "/home/u/AndroidDebloater/backups");
    assert_eq!(backups_root_from(None, None, "/cwd"), "/cwd/AndroidDebloater/backups");
}

#[test]
fn uninstall_report_text() {
    assert_eq!(uninstall_report("/r/com.a-42", "Success\n"), "Backup saved to: /r/com.a-42\nSuccess\n");
}

#[test]
fn reboot_status() {
    assert_eq!(reboot_outcome(true), Ok(()));
    assert_eq!(reboot_outcome(false), Err("adb reboot failed".to_string()));
}

#[test]
fn adb_found_in_order() {
    let c = adb_candidates(Some("/res/platform-tools/adb".to_string()), Some("/opt/app".to_string()), "adb");
    assert_eq!(
        c,
        vec![
            "/res/platform-tools/adb",
            "/opt/app/resources/platform-tools/adb",
            "/opt/app/_up_/platform-tools/adb",
        ]
    );
    let c2 = adb_candidates(None, None, "adb.exe");
    assert!(c2.is_empty());
    let r = pick_adb_path(&vec![("/a".to_string(), false), ("/b".to_string(), true), ("/c".to_string(), true)]);
    assert_eq!(r, Ok("/b".to_string()));
}

#[test]
fn adb_missing_lists_all_tried() {
    let r = pick_adb_path(&vec![("/a".to_string(), false), ("/b".to_string(), false)]);
    assert_eq!(r, Err("ADB not found in built-in locations. Tried: /a, /b".to_string()));
    let r = pick_adb_path(&vec![]);
    assert_eq!(r, Err("ADB not found in built-in locations. Tried: ".to_string()));
}
