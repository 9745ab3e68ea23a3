//! The editor extension's choices: which prebuilt language-server binary
//! fits the platform, which release asset holds it, what to report when
//! none does, the order of the steps that fetch it, and the binary it has
//! already fetched.

use vstd::prelude::*;

use crate::text::{push_str, str_equal};

verus! {

/// The repository whose releases hold the language-server binaries.
pub const RELEASE_REPO: &'static str = "Copernicium282/zenscript-toolkit";

/// The name of the language-server binary.
pub const LSP_BINARY: &'static str = "zsbc-lsp";

/// The operating systems the editor reports.
#[derive(Debug, Clone, Copy, PartialEq, Eq)]
pub enum Os {
    Mac,
    Linux,
    Windows,
}

/// The processor architectures the editor reports.
#[derive(Debug, Clone, Copy, PartialEq, Eq)]
pub enum Architecture {
    Aarch64,
    X86,
    X8664,
}

/// The Rust target triple for a platform, or `unknown` where no binary is built.
pub open spec fn triple_of(os: Os, arch: Architecture) -> Seq<char> {
    match (os, arch) {
        (Os::Mac, Architecture::Aarch64) => "aarch64-apple-darwin"@,
        (Os::Mac, Architecture::X8664) => "x86_64-apple-darwin"@,
        (Os::Linux, Architecture::Aarch64) => "aarch64-unknown-linux-gnu"@,
        (Os::Linux, Architecture::X8664) => "x86_64-unknown-linux-gnu"@,
        (Os::Windows, Architecture::Aarch64) => "aarch64-pc-windows-msvc"@,
        (Os::Windows, Architecture::X8664) => "x86_64-pc-windows-msvc"@,
        _ => "unknown"@,
    }
}

/// The Rust target triple for the platform `(os, arch)`.
pub fn target_triple(os: Os, arch: Architecture) -> (r: &'static str)
    ensures
        r@ == triple_of(os, arch),
{
    match (os, arch) {
        (Os::Mac, Architecture::Aarch64) => "aarch64-apple-darwin",
        (Os::Mac, Architecture::X8664) => "x86_64-apple-darwin",
        (Os::Linux, Architecture::Aarch64) => "aarch64-unknown-linux-gnu",
        (Os::Linux, Architecture::X8664) => "x86_64-unknown-linux-gnu",
        (Os::Windows, Architecture::Aarch64) => "aarch64-pc-windows-msvc",
        (Os::Windows, Architecture::X8664) => "x86_64-pc-windows-msvc",
        _ => "unknown",
    }
}

/// How a release asset is packed.
#[derive(Debug, Clone, Copy, PartialEq, Eq)]
pub enum FileKind {
    /// The binary itself.
    Uncompressed,
    /// A gzipped tar archive.
    GzipTar,
}

/// How the asset for `os` is packed: the Windows binaries are uploaded as
/// they are, the others gzipped.
pub fn asset_file_kind(os: Os) -> (k: FileKind)
    ensures
        k == (if os == Os::Windows {
            FileKind::Uncompressed
        } else {
            FileKind::GzipTar
        }),
{
    match os {
        Os::Windows => FileKind::Uncompressed,
        _ => FileKind::GzipTar,
    }
}

/// Whether the downloaded binary must be marked executable: everywhere but
/// on Windows.
pub fn needs_executable_bit(os: Os) -> (r: bool)
    ensures
        r == (os != Os::Windows),
{
    match os {
        Os::Windows => false,
        _ => true,
    }
}

/// The name of the release asset, and of the downloaded file, for a target:
/// `zsbc-lsp-{target}`.
pub fn release_asset_name(target: &str) -> (r: String)
    ensures
        r@ == LSP_BINARY@ + "-"@ + target@,
{
    let mut r = String::new();
    push_str(&mut r, LSP_BINARY);
    push_str(&mut r, "-");
    push_str(&mut r, target);
    assert(Seq::<char>::empty() + LSP_BINARY@ =~= LSP_BINARY@);
    r
}

/// The index of the first asset named `wanted`, if any.
pub fn find_asset(names: &Vec<String>, wanted: &str) -> (r: Option<usize>)
    ensures
        match r {
            Some(i) => i < names.len() && names@[i as int]@ == wanted@ && forall|j: int|
                0 <= j < i ==> (#[trigger] names@[j])@ != wanted@,
            None => forall|j: int| 0 <= j < names.len() ==> (#[trigger] names@[j])@ != wanted@,
        },
{
    let mut i: usize = 0;
    while i < names.len()
        invariant
            i <= names.len(),
            forall|j: int| 0 <= j < i ==> (#[trigger] names@[j])@ != wanted@,
        decreases names.len() - i,
    {
        if str_equal(names[i].as_str(), wanted) {
            return Some(i);
        }
        i = i + 1;
    }
    None
}

/// The names joined with `, ` between them.
pub open spec fn join_names(names: Seq<Seq<char>>) -> Seq<char>
    decreases names.len(),
{
    if names.len() == 0 {
        Seq::empty()
    } else if names.len() == 1 {
        names[0]
    } else {
        join_names(names.drop_last()) + ", "@ + names.last()
    }
}

/// The names of the assets, by their characters.
pub open spec fn names_view(names: Seq<String>) -> Seq<Seq<char>> {
    names.map_values(|n: String| n@)
}

/// What is reported when a release has no asset for the platform:
/// ``no release asset named `{asset}` in {repo} {version} (have: {names})``.
pub open spec fn missing_asset_text(asset: Seq<char>, version: Seq<char>, names: Seq<Seq<char>>) -> Seq<char> {
    "no release asset named `"@ + asset + "` in "@ + RELEASE_REPO@ + " "@ + version + " (have: "@
        + join_names(names) + ")"@
}

/// The report for a release with version `version` and assets `names` that
/// lacks the asset `asset`.
pub fn missing_asset_message(asset: &str, version: &str, names: &Vec<String>) -> (r: String)
    ensures
        r@ == missing_asset_text(asset@, version@, names_view(names@)),
{
    let mut r = String::new();
    push_str(&mut r, "no release asset named `");
    push_str(&mut r, asset);
    push_str(&mut r, "` in ");
    push_str(&mut r, RELEASE_REPO);
    push_str(&mut r, " ");
    push_str(&mut r, version);
    push_str(&mut r, " (have: ");
    let ghost before = r@;
    let mut i: usize = 0;
    while i < names.len()
        invariant
            i <= names.len(),
            r@ == before + join_names(names_view(names@).take(i as int)),
        decreases names.len() - i,
    {
        let ghost nv = names_view(names@);
        assert(nv.take(i + 1).drop_last() =~= nv.take(i as int));
        assert(nv.take(i + 1).last() == names@[i as int]@);
        if i > 0 {
            push_str(&mut r, ", ");
        } else {
            assert(nv.take(1) =~= seq![names@[0]@]);
        }
        push_str(&mut r, names[i].as_str());
        i = i + 1;
    }
    assert(names_view(names@).take(i as int) =~= names_view(names@));
    push_str(&mut r, ")");
    assert(r@ =~= missing_asset_text(asset@, version@, names_view(names@)));
    r
}

/// Where fetching the language-server binary stands between two requests
/// to the editor.
pub enum DownloadPhase {
    /// Nothing is asked of the editor.
    Idle,
    /// The latest release was asked for.
    FetchingRelease,
    /// The asset was asked to be saved as `file`.
    Downloading { file: String },
    /// `file` was asked to be marked executable.
    MarkingExecutable { file: String },
}

/// What the editor reports.
pub enum DownloadEvent {
    /// The binary is wanted.
    Requested,
    /// The latest release, by its version and the names of its assets.
    Release { version: String, assets: Vec<String> },
    /// The last request was carried out.
    Done,
    /// The last request failed with this message.
    Failed(String),
}

/// What the editor is asked to do next.
pub enum DownloadAction {
    /// Start the binary at this path.
    Start(String),
    /// Look up the latest release of [`RELEASE_REPO`].
    FetchRelease,
    /// Save the release asset at index `asset` as `file`, packed as `kind`.
    Download { asset: usize, file: String, kind: FileKind },
    /// Mark `file` executable.
    MakeExecutable(String),
    /// Give up with this message.
    Fail(String),
}

/// The reports that a phase waits for: the request when idle, the release
/// or a failure while it is looked up, and the outcome of a download or of
/// marking the file executable.
pub open spec fn expects(phase: DownloadPhase, event: DownloadEvent) -> bool {
    match phase {
        DownloadPhase::Idle => event is Requested,
        DownloadPhase::FetchingRelease => event is Release || event is Failed,
        _ => event is Done || event is Failed,
    }
}

/// What is reported when saving the asset `file` fails with `e`.
pub open spec fn download_failed_text(file: Seq<char>, e: Seq<char>) -> Seq<char> {
    "failed to download "@ + file + ": "@ + e
}

/// What is reported when marking the binary executable fails with `e`.
pub open spec fn chmod_failed_text(e: Seq<char>) -> Seq<char> {
    "failed to chmod zsbc-lsp: "@ + e
}

/// The extension's state: the path of the language-server binary once it
/// has been fetched.
pub struct ZenscriptToolkitExtension {
    pub cached_binary: Option<String>,
}

impl ZenscriptToolkitExtension {
    /// No binary fetched yet.
    pub fn new() -> (e: ZenscriptToolkitExtension)
        ensures
            e.cached_binary is None,
    {
        ZenscriptToolkitExtension { cached_binary: None }
    }

    /// The binary fetched before, if any; it is used without a new download.
    pub fn cached_binary(&self) -> (r: Option<String>)
        ensures
            r == self.cached_binary,
    {
        match &self.cached_binary {
            Some(p) => Some(p.clone()),
            None => None,
        }
    }

    /// Records the path of a freshly fetched binary.
    pub fn remember_binary(&mut self, path: String)
        ensures
            final(self).cached_binary == Some(path),
    {
        self.cached_binary = Some(path);
    }

    /// One step of fetching the language-server binary for the platform
    /// `(os, arch)`: from where it stands and what the editor reported, the
    /// next phase and what the editor is asked to do. A binary fetched
    /// before is started as it is; a fresh one is remembered only once it is
    /// saved and, off Windows, marked executable; every failure ends the
    /// fetch with its report.
    pub fn download_step(
        &mut self,
        phase: DownloadPhase,
        os: Os,
        arch: Architecture,
        event: DownloadEvent,
    ) -> (r: (DownloadPhase, DownloadAction))
        requires
            expects(phase, event),
        ensures
            ({
                let name = LSP_BINARY@ + "-"@ + triple_of(os, arch);
                match phase {
                    DownloadPhase::Idle => match old(self).cached_binary {
                        Some(p) => r == (DownloadPhase::Idle, DownloadAction::Start(p)),
                        None => r == (DownloadPhase::FetchingRelease, DownloadAction::FetchRelease),
                    },
                    DownloadPhase::FetchingRelease => match event {
                        DownloadEvent::Release { version, assets } => if exists|j: int|
                            0 <= j < assets.len() && (#[trigger] assets@[j])@ == name {
                            r.1 matches DownloadAction::Download { asset, file, kind } && {
                                &&& asset < assets.len()
                                &&& assets@[asset as int]@ == name
                                &&& forall|j: int| 0 <= j < asset ==> (#[trigger] assets@[j])@ != name
                                &&& file@ == name
                                &&& kind == (if os == Os::Windows {
                                    FileKind::Uncompressed
                                } else {
                                    FileKind::GzipTar
                                })
                                &&& r.0 == (DownloadPhase::Downloading { file })
                            }
                        } else {
                            r.0 is Idle && (r.1 matches DownloadAction::Fail(m) && m@
                                == missing_asset_text(name, version@, names_view(assets@)))
                        },
                        DownloadEvent::Failed(e) => r == (DownloadPhase::Idle, DownloadAction::Fail(e)),
                        _ => false,
                    },
                    DownloadPhase::Downloading { file } => match event {
                        DownloadEvent::Done => if os != Os::Windows {
                            r == (
                                DownloadPhase::MarkingExecutable { file },
                                DownloadAction::MakeExecutable(file),
                            )
                        } else {
                            r == (DownloadPhase::Idle, DownloadAction::Start(file))
                        },
                        DownloadEvent::Failed(e) => r.0 is Idle && (r.1 matches DownloadAction::Fail(m)
                            && m@ == download_failed_text(file@, e@)),
                        _ => false,
                    },
                    DownloadPhase::MarkingExecutable { file } => match event {
                        DownloadEvent::Done => r == (DownloadPhase::Idle, DownloadAction::Start(file)),
                        DownloadEvent::Failed(e) => r.0 is Idle && (r.1 matches DownloadAction::Fail(m)
                            && m@ == chmod_failed_text(e@)),
                        _ => false,
                    },
                }
            }),
            final(self).cached_binary == (if r.0 is Idle && r.1 is Start {
                Some(r.1->Start_0)
            } else {
                old(self).cached_binary
            }),
    {
        match phase {
            DownloadPhase::Idle => match self.cached_binary() {
                Some(p) => (DownloadPhase::Idle, DownloadAction::Start(p)),
                None => (DownloadPhase::FetchingRelease, DownloadAction::FetchRelease),
            },
            DownloadPhase::FetchingRelease => match event {
                DownloadEvent::Release { version, assets } => {
                    let name = release_asset_name(target_triple(os, arch));
                    match find_asset(&assets, name.as_str()) {
                        Some(i) => {
                            let file = name.clone();
                            (
                                DownloadPhase::Downloading { file: name },
                                DownloadAction::Download { asset: i, file, kind: asset_file_kind(os) },
                            )
                        },
                        None => (
                            DownloadPhase::Idle,
                            DownloadAction::Fail(missing_asset_message(name.as_str(), version.as_str(), &assets)),
                        ),
                    }
                },
                DownloadEvent::Failed(e) => (DownloadPhase::Idle, DownloadAction::Fail(e)),
                _ => (DownloadPhase::Idle, DownloadAction::FetchRelease),
            },
            DownloadPhase::Downloading { file } => match event {
                DownloadEvent::Done => if needs_executable_bit(os) {
                    let target = file.clone();
                    (DownloadPhase::MarkingExecutable { file }, DownloadAction::MakeExecutable(target))
                } else {
                    self.remember_binary(file.clone());
                    (DownloadPhase::Idle, DownloadAction::Start(file))
                },
                DownloadEvent::Failed(e) => {
                    let mut m = String::new();
                    push_str(&mut m, "failed to download ");
                    push_str(&mut m, file.as_str());
                    push_str(&mut m, ": ");
                    push_str(&mut m, e.as_str());
                    assert(Seq::<char>::empty() + "failed to download "@ =~= "failed to download "@);
                    (DownloadPhase::Idle, DownloadAction::Fail(m))
                },
                _ => (DownloadPhase::Idle, DownloadAction::FetchRelease),
            },
            DownloadPhase::MarkingExecutable { file } => match event {
                DownloadEvent::Done => {
                    self.remember_binary(file.clone());
                    (DownloadPhase::Idle, DownloadAction::Start(file))
                },
                DownloadEvent::Failed(e) => {
                    let mut m = String::new();
                    push_str(&mut m, "failed to chmod zsbc-lsp: ");
                    push_str(&mut m, e.as_str());
                    assert(Seq::<char>::empty() + "failed to chmod zsbc-lsp: "@ =~= "failed to chmod zsbc-lsp: "@);
                    (DownloadPhase::Idle, DownloadAction::Fail(m))
                },
                _ => (DownloadPhase::Idle, DownloadAction::FetchRelease),
            },
        }
    }
}

} // verus!
