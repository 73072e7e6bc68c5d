use symbolserver::error::Error;
use symbolserver::sdk::{strip_archive_file_prefix, SdkInfo, SdkProcessor};

#[test]
fn test_sdk_info_parse_ios() {
    let info = SdkInfo::from_path("/Users/mitsuhiko/Library/Developer/Xcode/iOS DeviceSupport/10.2 (14C92)").unwrap();
    assert_eq!(info.name(), "iOS");
    assert_eq!(info.version_major(), 10);
    assert_eq!(info.version_minor(), 2);
    assert_eq!(info.version_patchlevel(), 0);
    assert_eq!(info.build(), "14C92");
    assert_eq!(info.flavour(), None);
}

#[test]
fn test_sdk_info_parse_ios_patchlevel() {
    let info = SdkInfo::from_path("/Users/mitsuhiko/Library/Developer/Xcode/iOS DeviceSupport/10.2.3 (14C93)").unwrap();
    assert_eq!(info.name(), "iOS");
    assert_eq!(info.version_major(), 10);
    assert_eq!(info.version_minor(), 2);
    assert_eq!(info.version_patchlevel(), 3);
    assert_eq!(info.build(), "14C93");
    assert_eq!(info.flavour(), None);
}

#[test]
fn test_sdk_info_parse_ios_patchlevel_ext() {
    let info = SdkInfo::from_path("/Users/mitsuhiko/Library/Developer/Xcode/iOS DeviceSupport/10.2.3 (14C93).zip").unwrap();
    assert_eq!(info.name(), "iOS");
    assert_eq!(info.version_major(), 10);
    assert_eq!(info.version_minor(), 2);
    assert_eq!(info.version_patchlevel(), 3);
    assert_eq!(info.build(), "14C93");
    assert_eq!(info.flavour(), None);
}

#[test]
fn test_sdk_info_parse_ios_patchlevel_ext_memdb() {
    let info = SdkInfo::from_path("/Users/mitsuhiko/Library/Developer/Xcode/iOS DeviceSupport/10.2.3 (14C93).memdb").unwrap();
    assert_eq!(info.name(), "iOS");
    assert_eq!(info.version_major(), 10);
    assert_eq!(info.version_minor(), 2);
    assert_eq!(info.version_patchlevel(), 3);
    assert_eq!(info.build(), "14C93");
    assert_eq!(info.flavour(), None);
}

#[test]
fn test_sdk_info_parse_tvos_patchlevel_ext() {
    let info = SdkInfo::from_path("/Users/mitsuhiko/Library/Developer/Xcode/tvOS DeviceSupport/2.2.3 (14C93).zip").unwrap();
    assert_eq!(info.name(), "tvOS");
    assert_eq!(info.version_major(), 2);
    assert_eq!(info.version_minor(), 2);
    assert_eq!(info.version_patchlevel(), 3);
    assert_eq!(info.build(), "14C93");
    assert_eq!(info.flavour(), None);
}

#[test]
fn sdk_path_unknown_folder() {
    assert!(SdkInfo::from_path("/x/watchOS DeviceSupport/10.2 (14C92)").is_none());
}

#[test]
fn sdk_path_bad_file_names() {
    let base = "/x/iOS DeviceSupport/";
    for name in ["10 (14C92)", "10.2(14C92)", "10.2 (14C92).tar", "10.2 ()", "a.2 (14C92)", "10.2. (14C92)"] {
        let p = format!("{}{}", base, name);
        assert!(SdkInfo::from_path(&p).is_none(), "{}", p);
    }
    assert!(SdkInfo::from_path("10.2 (14C92)").is_none());
}

#[test]
fn sdk_path_version_overflow() {
    assert!(SdkInfo::from_path("/x/iOS DeviceSupport/4294967296.2 (14C92)").is_none());
    let info = SdkInfo::from_path("/x/iOS DeviceSupport/4294967295.2 (14C92)").unwrap();
    assert_eq!(info.version_major(), 4294967295);
}

#[test]
fn sdk_path_tab_separator() {
    let info = SdkInfo::from_path("/x/tvOS DeviceSupport/11.0\t(15A5)").unwrap();
    assert_eq!(info.name(), "tvOS");
    assert_eq!(info.build(), "15A5");
}

#[test]
fn sdk_processor_keeps_path_and_info() {
    let p = SdkProcessor::new("/x/iOS DeviceSupport/10.2.3 (14C93)").unwrap();
    assert_eq!(p.info().version_patchlevel(), 3);
    assert_eq!(p.path(), "/x/iOS DeviceSupport/10.2.3 (14C93)");
    assert!(matches!(SdkProcessor::new("/x/y/10.2.3 (14C93)"), Err(Error::UnknownSdk)));
}

#[test]
fn archive_prefix_is_stripped() {
    assert_eq!(strip_archive_file_prefix("Symbols/System/Library/Foo.dylib"), "System/Library/Foo.dylib");
    assert_eq!(strip_archive_file_prefix("10.2 (14C92)/Symbols/usr/lib/libc.dylib"), "usr/lib/libc.dylib");
    assert_eq!(strip_archive_file_prefix("a/b/Symbols/c"), "a/b/Symbols/c");
    assert_eq!(strip_archive_file_prefix("Symbols"), "Symbols");
    assert_eq!(strip_archive_file_prefix("a/Symbols"), "a/Symbols");
}

#[test]
fn sdk_path_trailing_and_repeated_slashes() {
    let info = SdkInfo::from_path("/x/iOS DeviceSupport/10.2 (14C92)/").unwrap();
    assert_eq!(info.build(), "14C92");
    let info = SdkInfo::from_path("/x/tvOS DeviceSupport//2.2.3 (14C93).zip").unwrap();
    assert_eq!(info.name(), "tvOS");
    assert_eq!(info.version_patchlevel(), 3);
    assert!(SdkInfo::from_path("/10.2 (14C92)").is_none());
}

#[test]
fn sdk_path_unicode_space() {
    let info = SdkInfo::from_path("/x/iOS DeviceSupport/10.2\u{a0}(14C92)").unwrap();
    assert_eq!(info.version_minor(), 2);
}

#[test]
fn sdk_path_dot_components() {
    let info = SdkInfo::from_path("/x/iOS DeviceSupport/./10.2 (14C92)").unwrap();
    assert_eq!(info.name(), "iOS");
    assert_eq!(info.version_minor(), 2);
    let info = SdkInfo::from_path("/x/iOS DeviceSupport/10.2 (14C92)/.").unwrap();
    assert_eq!(info.build(), "14C92");
    assert!(SdkInfo::from_path("/x/iOS DeviceSupport/../10.2 (14C92)").is_none());
}
