//! The decisions of the editor extension that installs the language server:
//! which release asset fits the host, where the binary goes, whether it must
//! be downloaded again, and in which order the host is asked for what
//! (`Launcher`).
use vstd::prelude::*;
use crate::text::{chars_of, extend_chars, join_vecs, join_with, push_str, string_of, str_eq};

verus! {

/// The operating system of the host.
#[derive(Debug, Clone, Copy, PartialEq, Eq, Structural)]
pub enum HostOs {
    Mac,
    Linux,
    Windows,
}

/// The processor architecture of the host.
#[derive(Debug, Clone, Copy, PartialEq, Eq, Structural)]
pub enum HostArch {
    Aarch64,
    X86,
    X8664,
}

/// The target triple of the server build for a host, if there is one.
pub open spec fn target_for(os: HostOs, arch: HostArch) -> Option<Seq<char>> {
    match (os, arch) {
        (HostOs::Mac, HostArch::Aarch64) => Some("aarch64-apple-darwin"@),
        (HostOs::Mac, HostArch::X8664) => Some("x86_64-apple-darwin"@),
        (HostOs::Linux, HostArch::Aarch64) => Some("aarch64-unknown-linux-gnu"@),
        (HostOs::Linux, HostArch::X8664) => Some("x86_64-unknown-linux-gnu"@),
        (HostOs::Windows, HostArch::X8664) => Some("x86_64-pc-windows-msvc"@),
        _ => None,
    }
}

/// The target triple of the server build for a host; `None` for a host that
/// no release supports.
pub fn platform_target(os: HostOs, arch: HostArch) -> (r: Option<&'static str>)
    ensures
        match target_for(os, arch) {
            Some(t) => r matches Some(s) && s@ == t,
            None => r is None,
        },
{
    match (os, arch) {
        (HostOs::Mac, HostArch::Aarch64) => Some("aarch64-apple-darwin"),
        (HostOs::Mac, HostArch::X8664) => Some("x86_64-apple-darwin"),
        (HostOs::Linux, HostArch::Aarch64) => Some("aarch64-unknown-linux-gnu"),
        (HostOs::Linux, HostArch::X8664) => Some("x86_64-unknown-linux-gnu"),
        (HostOs::Windows, HostArch::X8664) => Some("x86_64-pc-windows-msvc"),
        _ => None,
    }
}

/// The name of the release asset that holds the server for `platform`.
pub fn asset_name(platform: &str) -> (r: String)
    ensures
        r@ == "sql-lsp-"@ + platform@,
{
    let mut v: Vec<char> = Vec::new();
    push_str(&mut v, "sql-lsp-");
    push_str(&mut v, platform);
    string_of(&v)
}

/// Where the server of release `version` is kept, so that a new release is
/// downloaded anew.
pub fn binary_path(version: &str) -> (r: String)
    ensures
        r@ == "sql-lsp-"@ + version@,
{
    asset_name(version)
}

/// The index of the first of `names` equal to `wanted`.
pub fn find_asset(names: &Vec<String>, wanted: &str) -> (r: Option<usize>)
    ensures
        r matches Some(i) ==> i < names@.len() && names@[i as int]@ == wanted@ && forall|j: int|
            0 <= j < i ==> names@[j]@ != wanted@,
        r is None ==> forall|j: int| 0 <= j < names@.len() ==> names@[j]@ != wanted@,
{
    let mut i: usize = 0;
    while i < names.len()
        invariant
            i <= names@.len(),
            forall|j: int| 0 <= j < i ==> names@[j]@ != wanted@,
        decreases names@.len() - i,
    {
        if str_eq(names[i].as_str(), wanted) {
            return Some(i);
        }
        i = i + 1;
    }
    None
}

/// The error for a release that lacks the wanted asset: the release, the asset
/// and the names of the assets that it has.
pub fn missing_asset_message(version: &str, wanted: &str, names: &Vec<String>) -> (r: String)
    ensures
        r@ == "release "@ + version@ + " has no asset '"@ + wanted@ + "' — available: "@
            + join_with(names@.map_values(|n: String| n@), ", "@),
{
    let mut parts: Vec<Vec<char>> = Vec::new();
    let mut i: usize = 0;
    while i < names.len()
        invariant
            i <= names@.len(),
            parts@.map_values(|p: Vec<char>| p@) == names@.take(i as int).map_values(
                |n: String| n@,
            ),
        decreases names@.len() - i,
    {
        let ghost before = parts@.map_values(|p: Vec<char>| p@);
        let ghost old_parts = parts@;
        let v = chars_of(names[i].as_str());
        parts.push(v);
        assert(parts@ == old_parts.push(v));
        assert(parts@.map_values(|p: Vec<char>| p@) =~= before.push(names@[i as int]@));
        assert(names@.take(i + 1) =~= names@.take(i as int).push(names@[i as int]));
        assert(parts@.map_values(|p: Vec<char>| p@) =~= names@.take(i + 1).map_values(
            |n: String| n@,
        ));
        i = i + 1;
    }
    assert(names@.take(i as int) =~= names@);
    let listed = join_vecs(&parts, ", ");
    let mut v: Vec<char> = Vec::new();
    push_str(&mut v, "release ");
    push_str(&mut v, version);
    push_str(&mut v, " has no asset '");
    push_str(&mut v, wanted);
    push_str(&mut v, "' — available: ");
    extend_chars(&mut v, &listed);
    string_of(&v)
}

/// Whether the server must be downloaded: when no path is cached, when the
/// cached path is not that of this release, or when the file is missing.
pub fn needs_download(cached: Option<&str>, binary_path: &str, exists: bool) -> (r: bool)
    ensures
        r == (match cached {
            Some(p) => p@ != binary_path@,
            None => true,
        } || !exists),
{
    let stale = match cached {
        Some(p) => !str_eq(p, binary_path),
        None => true,
    };
    stale || !exists
}

/// The index of the first of `names[from..]` equal to `wanted`.
pub open spec fn first_index(names: Seq<Seq<char>>, wanted: Seq<char>, from: int) -> Option<nat>
    decreases names.len() - from,
{
    if from < 0 || from >= names.len() {
        None
    } else if names[from] == wanted {
        Some(from as nat)
    } else {
        first_index(names, wanted, from + 1)
    }
}

/// The first index that [`find_asset`] describes is the one `first_index` gives.
proof fn lemma_first_index(names: Seq<Seq<char>>, wanted: Seq<char>, from: int, found: Option<nat>)
    requires
        0 <= from <= names.len(),
        found matches Some(i) ==> from <= i < names.len() && names[i as int] == wanted && forall|j: int|
            from <= j < i ==> names[j] != wanted,
        found is None ==> forall|j: int| from <= j < names.len() ==> names[j] != wanted,
    ensures
        first_index(names, wanted, from) == found,
    decreases names.len() - from,
{
    if from < names.len() && !(found == Some(from as nat)) {
        lemma_first_index(names, wanted, from + 1, found);
    }
}

/// The error for a release `version` that lacks the asset `wanted`.
pub open spec fn missing_asset_text(version: Seq<char>, wanted: Seq<char>, names: Seq<Seq<char>>) -> Seq<char> {
    "release "@ + version + " has no asset '"@ + wanted + "' — available: "@ + join_with(names, ", "@)
}

/// Where the extension stands while it finds the server to start.
pub enum LaunchPhase {
    Idle,
    AwaitPath,
    AwaitPlatform,
    AwaitRelease(Seq<char>),
    AwaitExists(Seq<char>, nat),
    AwaitDownload(Seq<char>),
}

/// What the extension asks its host to do next.
pub enum LaunchOutcome {
    LookUpPath,
    QueryPlatform,
    FetchRelease,
    CheckExists(Seq<char>),
    Download(nat, Seq<char>),
    RunFound(Seq<char>),
    RunInstalled(Seq<char>),
    UnsupportedPlatform,
    Fail(Seq<char>),
    Ignore,
}

/// The executable form of [`LaunchPhase`].
pub enum Phase {
    Idle,
    AwaitPath,
    AwaitPlatform,
    AwaitRelease(String),
    AwaitExists(String, usize),
    AwaitDownload(String),
}

impl View for Phase {
    type V = LaunchPhase;

    open spec fn view(&self) -> LaunchPhase {
        match self {
            Phase::Idle => LaunchPhase::Idle,
            Phase::AwaitPath => LaunchPhase::AwaitPath,
            Phase::AwaitPlatform => LaunchPhase::AwaitPlatform,
            Phase::AwaitRelease(t) => LaunchPhase::AwaitRelease(t@),
            Phase::AwaitExists(p, i) => LaunchPhase::AwaitExists(p@, *i as nat),
            Phase::AwaitDownload(p) => LaunchPhase::AwaitDownload(p@),
        }
    }
}

/// What the host reports back: the start of a request for the server, the
/// binary found on the PATH, the host platform, the latest release (its
/// version and asset names), whether the binary file exists, or that the
/// download finished.
pub enum LaunchEvent {
    Started,
    PathLookup(Option<String>),
    Platform(HostOs, HostArch),
    Release(String, Vec<String>),
    Exists(bool),
    Downloaded,
}

/// The executable form of [`LaunchOutcome`].
pub enum LaunchAction {
    LookUpPath,
    QueryPlatform,
    FetchRelease,
    CheckExists(String),
    Download(usize, String),
    RunFound(String),
    RunInstalled(String),
    UnsupportedPlatform,
    Fail(String),
    Ignore,
}

impl View for LaunchAction {
    type V = LaunchOutcome;

    open spec fn view(&self) -> LaunchOutcome {
        match self {
            LaunchAction::LookUpPath => LaunchOutcome::LookUpPath,
            LaunchAction::QueryPlatform => LaunchOutcome::QueryPlatform,
            LaunchAction::FetchRelease => LaunchOutcome::FetchRelease,
            LaunchAction::CheckExists(p) => LaunchOutcome::CheckExists(p@),
            LaunchAction::Download(i, p) => LaunchOutcome::Download(*i as nat, p@),
            LaunchAction::RunFound(p) => LaunchOutcome::RunFound(p@),
            LaunchAction::RunInstalled(p) => LaunchOutcome::RunInstalled(p@),
            LaunchAction::UnsupportedPlatform => LaunchOutcome::UnsupportedPlatform,
            LaunchAction::Fail(m) => LaunchOutcome::Fail(m@),
            LaunchAction::Ignore => LaunchOutcome::Ignore,
        }
    }
}

/// Whether a download is due for `path`, given the cached path and whether the
/// file exists.
pub open spec fn download_due(cached: Option<Seq<char>>, path: Seq<char>, exists: bool) -> bool {
    (match cached {
        Some(c) => c != path,
        None => true,
    }) || !exists
}

/// The next phase, cached path and request after `event`:
///  * a request first looks for the server on the PATH, and uses it if found;
///  * otherwise it asks for the platform, and fails on one without a build;
///  * then it asks for the latest release, and fails when the release lacks
///    the asset of the platform;
///  * then it checks the versioned binary path, downloads the asset there when
///    no cached path matches or the file is gone, and runs the installed
///    binary, remembering a downloaded path;
///  * an event that does not answer the pending request is ignored.
pub open spec fn launch_step(
    phase: LaunchPhase,
    cached: Option<Seq<char>>,
    event: LaunchEvent,
) -> (LaunchPhase, Option<Seq<char>>, LaunchOutcome) {
    let ignored = (phase, cached, LaunchOutcome::Ignore);
    match event {
        LaunchEvent::Started => (LaunchPhase::AwaitPath, cached, LaunchOutcome::LookUpPath),
        LaunchEvent::PathLookup(found) => match phase {
            LaunchPhase::AwaitPath => match found {
                Some(p) => (LaunchPhase::Idle, cached, LaunchOutcome::RunFound(p@)),
                None => (LaunchPhase::AwaitPlatform, cached, LaunchOutcome::QueryPlatform),
            },
            _ => ignored,
        },
        LaunchEvent::Platform(os, arch) => match phase {
            LaunchPhase::AwaitPlatform => match target_for(os, arch) {
                Some(t) => (LaunchPhase::AwaitRelease(t), cached, LaunchOutcome::FetchRelease),
                None => (LaunchPhase::Idle, cached, LaunchOutcome::UnsupportedPlatform),
            },
            _ => ignored,
        },
        LaunchEvent::Release(version, names) => match phase {
            LaunchPhase::AwaitRelease(t) => {
                let wanted = "sql-lsp-"@ + t;
                let nv = names@.map_values(|n: String| n@);
                match first_index(nv, wanted, 0) {
                    Some(i) => {
                        let path = "sql-lsp-"@ + version@;
                        (LaunchPhase::AwaitExists(path, i), cached, LaunchOutcome::CheckExists(path))
                    },
                    None => (
                        LaunchPhase::Idle,
                        cached,
                        LaunchOutcome::Fail(missing_asset_text(version@, wanted, nv)),
                    ),
                }
            },
            _ => ignored,
        },
        LaunchEvent::Exists(exists) => match phase {
            LaunchPhase::AwaitExists(path, i) => if download_due(cached, path, exists) {
                (LaunchPhase::AwaitDownload(path), cached, LaunchOutcome::Download(i, path))
            } else {
                (LaunchPhase::Idle, cached, LaunchOutcome::RunInstalled(path))
            },
            _ => ignored,
        },
        LaunchEvent::Downloaded => match phase {
            LaunchPhase::AwaitDownload(path) => (
                LaunchPhase::Idle,
                Some(path),
                LaunchOutcome::RunInstalled(path),
            ),
            _ => ignored,
        },
    }
}

/// The value of an optional string.
pub open spec fn opt_string(o: Option<String>) -> Option<Seq<char>> {
    match o {
        Some(s) => Some(s@),
        None => None,
    }
}

fn copy_text(s: &String) -> (r: String)
    ensures
        r@ == s@,
{
    s.clone()
}

/// The extension's state between requests: where it stands, and the path of
/// the binary it downloaded last.
pub struct Launcher {
    pub phase: Phase,
    pub cached: Option<String>,
}

impl Launcher {
    /// A launcher that has downloaded nothing.
    pub fn new() -> (r: Launcher)
        ensures
            r.phase@ == LaunchPhase::Idle,
            r.cached is None,
    {
        Launcher { phase: Phase::Idle, cached: None }
    }

    /// Takes in what the host reported and says what to do next.
    pub fn step(&mut self, event: LaunchEvent) -> (action: LaunchAction)
        ensures
            (final(self).phase@, opt_string(final(self).cached), action@) == launch_step(
                old(self).phase@,
                opt_string(old(self).cached),
                event,
            ),
    {
        match event {
            LaunchEvent::Started => {
                self.phase = Phase::AwaitPath;
                LaunchAction::LookUpPath
            },
            LaunchEvent::PathLookup(found) => {
                if !matches!(self.phase, Phase::AwaitPath) {
                    return LaunchAction::Ignore;
                }
                match found {
                    Some(p) => {
                        self.phase = Phase::Idle;
                        LaunchAction::RunFound(p)
                    },
                    None => {
                        self.phase = Phase::AwaitPlatform;
                        LaunchAction::QueryPlatform
                    },
                }
            },
            LaunchEvent::Platform(os, arch) => {
                if !matches!(self.phase, Phase::AwaitPlatform) {
                    return LaunchAction::Ignore;
                }
                match platform_target(os, arch) {
                    Some(t) => {
                        self.phase = Phase::AwaitRelease(t.to_owned());
                        LaunchAction::FetchRelease
                    },
                    None => {
                        self.phase = Phase::Idle;
                        LaunchAction::UnsupportedPlatform
                    },
                }
            },
            LaunchEvent::Release(version, names) => {
                let target = match &self.phase {
                    Phase::AwaitRelease(t) => copy_text(t),
                    _ => {
                        return LaunchAction::Ignore;
                    },
                };
                let wanted = asset_name(target.as_str());
                let ghost nv = names@.map_values(|n: String| n@);
                let found = find_asset(&names, wanted.as_str());
                proof {
                    lemma_first_index(nv, wanted@, 0, match found {
                        Some(i) => Some(i as nat),
                        None => None,
                    });
                }
                match found {
                    Some(i) => {
                        let path = binary_path(version.as_str());
                        self.phase = Phase::AwaitExists(copy_text(&path), i);
                        LaunchAction::CheckExists(path)
                    },
                    None => {
                        self.phase = Phase::Idle;
                        LaunchAction::Fail(
                            missing_asset_message(version.as_str(), wanted.as_str(), &names),
                        )
                    },
                }
            },
            LaunchEvent::Exists(exists) => {
                let (path, i) = match &self.phase {
                    Phase::AwaitExists(p, i) => (copy_text(p), *i),
                    _ => {
                        return LaunchAction::Ignore;
                    },
                };
                let due = match &self.cached {
                    Some(c) => needs_download(Some(c.as_str()), path.as_str(), exists),
                    None => needs_download(None, path.as_str(), exists),
                };
                if due {
                    self.phase = Phase::AwaitDownload(copy_text(&path));
                    LaunchAction::Download(i, path)
                } else {
                    self.phase = Phase::Idle;
                    LaunchAction::RunInstalled(path)
                }
            },
            LaunchEvent::Downloaded => {
                let path = match &self.phase {
                    Phase::AwaitDownload(p) => copy_text(p),
                    _ => {
                        return LaunchAction::Ignore;
                    },
                };
                self.phase = Phase::Idle;
                self.cached = Some(copy_text(&path));
                LaunchAction::RunInstalled(path)
            },
        }
    }
}

/// A server found on the PATH is used as it is: nothing is downloaded and the
/// cached path is kept.
pub proof fn law_path_binary_is_used(phase: LaunchPhase, cached: Option<Seq<char>>, path: String)
    ensures
        ({
            let (p1, c1, a1) = launch_step(phase, cached, LaunchEvent::Started);
            let (_, c2, a2) = launch_step(p1, c1, LaunchEvent::PathLookup(Some(path)));
            a1 == LaunchOutcome::LookUpPath && a2 == LaunchOutcome::RunFound(path@) && c2 == cached
        }),
{
}

/// A binary that was downloaded is reused while its file exists: a later
/// request for the same release runs it without downloading it again.
pub proof fn law_downloaded_binary_is_reused(
    path: Seq<char>,
    i: nat,
    cached: Option<Seq<char>>,
    j: nat,
)
    ensures
        ({
            let (p1, c1, _) = launch_step(LaunchPhase::AwaitDownload(path), cached, LaunchEvent::Downloaded);
            let (_, c2, a2) = launch_step(LaunchPhase::AwaitExists(path, j), c1, LaunchEvent::Exists(true));
            &&& c1 == Some(path)
            &&& a2 == LaunchOutcome::RunInstalled(path)
            &&& c2 == Some(path)
        }),
{
}

/// The first part of a target triple: the processor architecture.
pub open spec fn arch_part(arch: HostArch) -> Seq<char> {
    match arch {
        HostArch::Aarch64 => "aarch64-"@,
        HostArch::X8664 => "x86_64-"@,
        HostArch::X86 => "i686-"@,
    }
}

/// The rest of a target triple: vendor, operating system and environment.
pub open spec fn os_part(os: HostOs) -> Seq<char> {
    match os {
        HostOs::Mac => "apple-darwin"@,
        HostOs::Linux => "unknown-linux-gnu"@,
        HostOs::Windows => "pc-windows-msvc"@,
    }
}

/// The server build chosen for a host is the one for that host: a build
/// exists for every 64-bit ARM or x86 host but 64-bit ARM Windows, and its
/// target triple names the host's architecture followed by its operating
/// system.
pub proof fn law_target_names_host(os: HostOs, arch: HostArch)
    ensures
        target_for(os, arch) is Some <==> (arch != HostArch::X86 && !(os == HostOs::Windows && arch
            == HostArch::Aarch64)),
        target_for(os, arch) matches Some(t) ==> t == arch_part(arch) + os_part(os),
{
    reveal_strlit("aarch64-");
    reveal_strlit("x86_64-");
    reveal_strlit("apple-darwin");
    reveal_strlit("unknown-linux-gnu");
    reveal_strlit("pc-windows-msvc");
    reveal_strlit("aarch64-apple-darwin");
    reveal_strlit("x86_64-apple-darwin");
    reveal_strlit("aarch64-unknown-linux-gnu");
    reveal_strlit("x86_64-unknown-linux-gnu");
    reveal_strlit("x86_64-pc-windows-msvc");
    match (os, arch) {
        (HostOs::Mac, HostArch::Aarch64) => {
            assert("aarch64-apple-darwin"@ =~= "aarch64-"@ + "apple-darwin"@);
        },
        (HostOs::Mac, HostArch::X8664) => {
            assert("x86_64-apple-darwin"@ =~= "x86_64-"@ + "apple-darwin"@);
        },
        (HostOs::Linux, HostArch::Aarch64) => {
            assert("aarch64-unknown-linux-gnu"@ =~= "aarch64-"@ + "unknown-linux-gnu"@);
        },
        (HostOs::Linux, HostArch::X8664) => {
            assert("x86_64-unknown-linux-gnu"@ =~= "x86_64-"@ + "unknown-linux-gnu"@);
        },
        (HostOs::Windows, HostArch::X8664) => {
            assert("x86_64-pc-windows-msvc"@ =~= "x86_64-"@ + "pc-windows-msvc"@);
        },
        _ => {},
    }
}

} // verus!
