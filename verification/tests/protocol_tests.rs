use zenscript_toolkit::extension::{
    asset_file_kind, needs_executable_bit, FileKind, find_asset, missing_asset_message, release_asset_name, target_triple, Architecture, Os,
    ZenscriptToolkitExtension,
};
use zenscript_toolkit::protocol::{
    notification_kind, request_kind, unknown_method_message, NotificationKind, RequestKind,
};

#[test]
fn request_kinds() {
    assert_eq!(request_kind("textDocument/completion"), RequestKind::Completion);
    assert_eq!(request_kind("textDocument/hover"), RequestKind::Hover);
    assert_eq!(request_kind("textDocument/definition"), RequestKind::Unknown);
    assert_eq!(unknown_method_message("foo/bar"), "unknown method foo/bar");
}

#[test]
fn notification_kinds() {
    assert_eq!(notification_kind("initialized"), NotificationKind::Initialized);
    assert_eq!(notification_kind("textDocument/didOpen"), NotificationKind::DidOpen);
    assert_eq!(notification_kind("textDocument/didChange"), NotificationKind::DidChange);
    assert_eq!(notification_kind("textDocument/didClose"), NotificationKind::DidClose);
    assert_eq!(notification_kind("zsbc/reload"), NotificationKind::Reload);
    assert_eq!(notification_kind("exit"), NotificationKind::Exit);
    assert_eq!(notification_kind("$/cancelRequest"), NotificationKind::Other);
}

#[test]
fn triples() {
    assert_eq!(target_triple(Os::Mac, Architecture::Aarch64), "aarch64-apple-darwin");
    assert_eq!(target_triple(Os::Mac, Architecture::X8664), "x86_64-apple-darwin");
    assert_eq!(target_triple(Os::Linux, Architecture::Aarch64), "aarch64-unknown-linux-gnu");
    assert_eq!(target_triple(Os::Linux, Architecture::X8664), "x86_64-unknown-linux-gnu");
    assert_eq!(target_triple(Os::Windows, Architecture::Aarch64), "aarch64-pc-windows-msvc");
    assert_eq!(target_triple(Os::Windows, Architecture::X8664), "x86_64-pc-windows-msvc");
    assert_eq!(target_triple(Os::Linux, Architecture::X86), "unknown");
}

#[test]
fn assets() {
    let name = release_asset_name("x86_64-unknown-linux-gnu");
    assert_eq!(name, "zsbc-lsp-x86_64-unknown-linux-gnu");
    let names = vec!["a".to_string(), name.clone(), name.clone()];
    assert_eq!(find_asset(&names, &name), Some(1));
    assert_eq!(find_asset(&names, "zzz"), None);
    assert_eq!(
        missing_asset_message("zsbc-lsp-unknown", "v0.1.0", &vec!["a".into(), "b".into()]),
        "no release asset named `zsbc-lsp-unknown` in Copernicium282/zenscript-toolkit v0.1.0 (have: a, b)"
    );
    assert_eq!(
        missing_asset_message("x", "v1", &vec![]),
        "no release asset named `x` in Copernicium282/zenscript-toolkit v1 (have: )"
    );
}

#[test]
fn extension_caches_binary() {
    let mut e = ZenscriptToolkitExtension::new();
    assert_eq!(e.cached_binary(), None);
    e.remember_binary("zsbc-lsp-x".to_string());
    assert_eq!(e.cached_binary(), Some("zsbc-lsp-x".to_string()));
}

#[test]
fn asset_packing_by_os() {
    assert_eq!(asset_file_kind(Os::Windows), FileKind::Uncompressed);
    assert_eq!(asset_file_kind(Os::Linux), FileKind::GzipTar);
    assert_eq!(asset_file_kind(Os::Mac), FileKind::GzipTar);
    assert!(!needs_executable_bit(Os::Windows));
    assert!(needs_executable_bit(Os::Linux));
    assert!(needs_executable_bit(Os::Mac));
}
