use android_debloater::update::{check_update_from, latest_from_path, update_info};

#[test]
fn newer_release_is_reported() {
    let r = check_update_from("/oop7/Android-debloater/releases/tag/v1.3.0", "1.2.0");
    assert_eq!(r.latest, "1.3.0");
    assert!(r.outdated);
}

#[test]
fn same_release_is_not_outdated() {
    let r = check_update_from("/oop7/Android-debloater/releases/tag/v1.2.0", "1.2.0");
    assert_eq!(r.latest, "1.2.0");
    assert!(!r.outdated);
}

#[test]
fn unparsable_tag_is_not_outdated() {
    let r = check_update_from("/oop7/Android-debloater/releases/tag/nightly", "1.2.0");
    assert_eq!(r.latest, "nightly");
    assert!(!r.outdated);
    let r = check_update_from("/x/releases/tag/v9.0.0", "not a version");
    assert!(!r.outdated);
}

#[test]
fn prerelease_orders_before_release() {
    assert!(check_update_from("/t/v1.3.0", "1.3.0-beta.1").outdated);
    assert!(!check_update_from("/t/v1.3.0-beta.1", "1.3.0").outdated);
}

#[test]
fn tag_is_last_segment_without_one_v() {
    assert_eq!(latest_from_path("/a/b/v2.0.1"), "2.0.1");
    assert_eq!(latest_from_path("/a/b/vv2"), "v2");
    assert_eq!(latest_from_path("/a/b/"), "");
    assert_eq!(latest_from_path("/"), "");
    assert_eq!(latest_from_path(""), "");
}

#[test]
fn update_info_from_comparison() {
    assert!(update_info("1.0.0".to_string(), Some(true)).outdated);
    assert!(!update_info("1.0.0".to_string(), Some(false)).outdated);
    assert!(!update_info("x".to_string(), None).outdated);
}

#[test]
fn build_metadata_is_not_an_update() {
    assert!(!check_update_from("/t/v1.3.0+b", "1.3.0").outdated);
    assert!(!check_update_from("/t/v1.3.0", "1.3.0+b").outdated);
}
