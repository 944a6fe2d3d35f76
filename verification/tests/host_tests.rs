use image_processing::host::{build_plugin_path, TargetOs};

#[test]
fn test_plugin_path_on_unix() {
    assert_eq!(build_plugin_path("blur_plugin", "target/debug", TargetOs::Unix), "target/debug/libblur_plugin.so");
}

#[test]
fn test_plugin_path_on_macos() {
    assert_eq!(build_plugin_path("mirror_plugin", "target/release", TargetOs::MacOs), "target/release/libmirror_plugin.dylib");
}

#[test]
fn test_plugin_path_on_windows() {
    assert_eq!(build_plugin_path("blur_plugin", "plugins", TargetOs::Windows), "plugins/blur_plugin.dll");
}

#[test]
fn test_plugin_path_with_empty_directory() {
    assert_eq!(build_plugin_path("p", "", TargetOs::Unix), "/libp.so");
}
