use android_debloater::adb_output::{parse_apk_paths, parse_devices, parse_packages};

#[test]
fn devices_skip_header_and_blank_lines() {
    let out = "List of devices attached\nemulator-5554\tdevice\nR58M123\tunauthorized\n\n";
    let d = parse_devices(out);
    assert_eq!(d.len(), 2);
    assert_eq!(d[0].id, "emulator-5554");
    assert_eq!(d[0].status, "device");
    assert_eq!(d[1].id, "R58M123");
    assert_eq!(d[1].status, "unauthorized");
}

#[test]
fn devices_header_with_tab_is_still_skipped() {
    let out = "a\tb\r\nserial1\tdevice\r\nserial2\toffline";
    let d = parse_devices(out);
    assert_eq!(d.len(), 2);
    assert_eq!(d[0].id, "serial1");
    assert_eq!(d[0].status, "device");
    assert_eq!(d[1].status, "offline");
}

#[test]
fn devices_lines_without_tab_are_dropped() {
    let out = "List of devices attached\n* daemon started\nabc\tdevice\n   \n";
    let d = parse_devices(out);
    assert_eq!(d.len(), 1);
    assert_eq!(d[0].id, "abc");
}

#[test]
fn devices_empty_output() {
    assert!(parse_devices("").is_empty());
    assert!(parse_devices("List of devices attached\n").is_empty());
}

#[test]
fn packages_are_trimmed_text_after_colon() {
    let out = "package:com.android.chrome\npackage: com.example.app \r\nnoise\npackage:a:b\n";
    let p = parse_packages(out);
    assert_eq!(p, vec!["com.android.chrome", "com.example.app", "a:b"]);
}

#[test]
fn apk_paths_read_and_empty_dropped() {
    let out = "package:/data/app/base.apk\npackage:  \npackage:/data/app/split_config.arm64_v8a.apk\r\n";
    let r = parse_apk_paths("com.x", out).unwrap();
    assert_eq!(r, vec!["/data/app/base.apk", "/data/app/split_config.arm64_v8a.apk"]);
}

#[test]
fn apk_paths_none_is_error() {
    let r = parse_apk_paths("com.x", "");
    assert_eq!(r, Err("No APK paths found for com.x".to_string()));
    let r = parse_apk_paths("com.y", "no colon here\n");
    assert_eq!(r, Err("No APK paths found for com.y".to_string()));
}
