use android_debloater::restore::{restore_outcome, restore_plan, FileItem};

fn file(name: &str) -> FileItem {
    FileItem { name: name.to_string(), path: format!("/b/{}", name), is_file: true }
}

#[test]
fn split_apks_use_install_multiple_in_name_order() {
    let files = vec![file("split_config.apk"), file("base.apk")];
    let args = restore_plan(&files).unwrap();
    assert_eq!(args, vec!["install-multiple", "-r", "--user", "0", "/b/base.apk", "/b/split_config.apk"]);
}

#[test]
fn single_apk_uses_install() {
    let args = restore_plan(&vec![file("app.apk")]).unwrap();
    assert_eq!(args, vec!["install", "-r", "--user", "0", "/b/app.apk"]);
}

#[test]
fn apk_extension_any_case_and_only_files() {
    let mut d = file("dir.apk");
    d.is_file = false;
    let files = vec![file("B.APK"), file("a.Apk"), file(".apk"), file("notes.txt"), d, file("x.apkx")];
    let args = restore_plan(&files).unwrap();
    assert_eq!(args, vec!["install-multiple", "-r", "--user", "0", "/b/B.APK", "/b/a.Apk"]);
}

#[test]
fn no_apks_is_error() {
    let r = restore_plan(&vec![file("readme.md")]);
    assert_eq!(r, Err("No .apk files found in selected folder".to_string()));
    assert!(restore_plan(&vec![]).is_err());
}

#[test]
fn exit_zero_without_success_fails() {
    let r = restore_outcome(true, "Performing Streamed Install\n", 1, "/b");
    assert_eq!(r, Err("Install failed: Performing Streamed Install\n".to_string()));
}

#[test]
fn success_in_any_case_passes() {
    let r = restore_outcome(true, "Performing\nSuccess\n", 2, "/b/com.a-1");
    assert_eq!(r, Ok("Restored 2 APK(s) from /b/com.a-1\nPerforming\nSuccess\n".to_string()));
    assert!(restore_outcome(true, "SUCCESS", 1, "/d").is_ok());
    assert!(restore_outcome(true, "sUcCeSs", 1, "/d").is_ok());
}

#[test]
fn failed_exit_fails_even_with_success() {
    let r = restore_outcome(false, "Success", 1, "/d");
    assert_eq!(r, Err("Install failed: Success".to_string()));
}
