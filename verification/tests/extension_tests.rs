use zenscript_toolkit::extension::{
    Architecture, DownloadAction, DownloadEvent, DownloadPhase, FileKind, Os,
    ZenscriptToolkitExtension,
};

fn release(names: &[&str]) -> DownloadEvent {
    DownloadEvent::Release {
        version: "v1.2.0".to_string(),
        assets: names.iter().map(|n| n.to_string()).collect(),
    }
}

#[test]
fn download_walks_release_download_and_chmod() {
    let mut e = ZenscriptToolkitExtension::new();
    let (p, a) = e.download_step(DownloadPhase::Idle, Os::Linux, Architecture::X8664, DownloadEvent::Requested);
    assert!(matches!(p, DownloadPhase::FetchingRelease));
    assert!(matches!(a, DownloadAction::FetchRelease));
    let ev = release(&["zsbc-lsp-aarch64-apple-darwin", "zsbc-lsp-x86_64-unknown-linux-gnu"]);
    let (p, a) = e.download_step(p, Os::Linux, Architecture::X8664, ev);
    match &a {
        DownloadAction::Download { asset, file, kind } => {
            assert_eq!(*asset, 1);
            assert_eq!(file, "zsbc-lsp-x86_64-unknown-linux-gnu");
            assert_eq!(*kind, FileKind::GzipTar);
        }
        _ => panic!("expected a download"),
    }
    assert_eq!(e.cached_binary(), None);
    let (p, a) = e.download_step(p, Os::Linux, Architecture::X8664, DownloadEvent::Done);
    match &a {
        DownloadAction::MakeExecutable(f) => assert_eq!(f, "zsbc-lsp-x86_64-unknown-linux-gnu"),
        _ => panic!("expected chmod"),
    }
    assert_eq!(e.cached_binary(), None);
    let (p, a) = e.download_step(p, Os::Linux, Architecture::X8664, DownloadEvent::Done);
    assert!(matches!(p, DownloadPhase::Idle));
    match &a {
        DownloadAction::Start(f) => assert_eq!(f, "zsbc-lsp-x86_64-unknown-linux-gnu"),
        _ => panic!("expected start"),
    }
    assert_eq!(e.cached_binary(), Some("zsbc-lsp-x86_64-unknown-linux-gnu".to_string()));
    let (p, a) = e.download_step(p, Os::Linux, Architecture::X8664, DownloadEvent::Requested);
    assert!(matches!(p, DownloadPhase::Idle));
    assert!(matches!(a, DownloadAction::Start(ref f) if f == "zsbc-lsp-x86_64-unknown-linux-gnu"));
}

#[test]
fn download_on_windows_skips_chmod() {
    let mut e = ZenscriptToolkitExtension::new();
    let ev = release(&["zsbc-lsp-x86_64-pc-windows-msvc"]);
    let (p, a) = e.download_step(DownloadPhase::FetchingRelease, Os::Windows, Architecture::X8664, ev);
    assert!(matches!(a, DownloadAction::Download { asset: 0, kind: FileKind::Uncompressed, .. }));
    let (p, a) = e.download_step(p, Os::Windows, Architecture::X8664, DownloadEvent::Done);
    assert!(matches!(p, DownloadPhase::Idle));
    assert!(matches!(a, DownloadAction::Start(ref f) if f == "zsbc-lsp-x86_64-pc-windows-msvc"));
    assert_eq!(e.cached_binary(), Some("zsbc-lsp-x86_64-pc-windows-msvc".to_string()));
}

#[test]
fn download_failures_are_reported() {
    let mut e = ZenscriptToolkitExtension::new();
    let (_, a) = e.download_step(DownloadPhase::FetchingRelease, Os::Mac, Architecture::Aarch64, release(&["other"]));
    match a {
        DownloadAction::Fail(m) => assert_eq!(
            m,
            "no release asset named `zsbc-lsp-aarch64-apple-darwin` in Copernicium282/zenscript-toolkit v1.2.0 (have: other)"
        ),
        _ => panic!("expected failure"),
    }
    let (_, a) = e.download_step(
        DownloadPhase::FetchingRelease,
        Os::Mac,
        Architecture::Aarch64,
        DownloadEvent::Failed("rate limited".to_string()),
    );
    assert!(matches!(a, DownloadAction::Fail(ref m) if m == "rate limited"));
    let (_, a) = e.download_step(
        DownloadPhase::Downloading { file: "zsbc-lsp-x".to_string() },
        Os::Mac,
        Architecture::Aarch64,
        DownloadEvent::Failed("offline".to_string()),
    );
    assert!(matches!(a, DownloadAction::Fail(ref m) if m == "failed to download zsbc-lsp-x: offline"));
    let (p, a) = e.download_step(
        DownloadPhase::MarkingExecutable { file: "zsbc-lsp-x".to_string() },
        Os::Mac,
        Architecture::Aarch64,
        DownloadEvent::Failed("denied".to_string()),
    );
    assert!(matches!(p, DownloadPhase::Idle));
    assert!(matches!(a, DownloadAction::Fail(ref m) if m == "failed to chmod zsbc-lsp: denied"));
    assert_eq!(e.cached_binary(), None);
}
