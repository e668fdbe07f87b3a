//! Where a configuration file is found, whether it is trusted there, and what
//! one that is not trusted may not decide.

use crate::config::{Config, HttpConfig, TransportConfig};
use crate::path;
use crate::path::PathName;
use crate::text;
use crate::text::{push_decimal, to_text};
use vstd::prelude::*;
use vstd::string::StringExecFns;

verus! {

/// A tilde that stands alone or before a slash.
pub open spec fn starts_at_home(s: Seq<char>) -> bool {
    s.len() > 0 && s[0] == '~' && (s.len() == 1 || s[1] == '/')
}

/// A tilde before a backslash, which is a separator on some platforms.
pub open spec fn starts_at_backslash(s: Seq<char>) -> bool {
    s.len() > 1 && s[0] == '~' && s[1] == '\\'
}

/// The text with the home directory in place of a leading tilde, as it is where there
/// is nothing to put in its place.
pub open spec fn at_home(s: Seq<char>, home: Option<Seq<char>>) -> Seq<char> {
    if starts_at_home(s) && home is Some {
        home->0 + s.skip(1)
    } else {
        s
    }
}

/// The characters of an optional slice.
pub open spec fn home_text(home: Option<&str>) -> Option<Seq<char>> {
    match home {
        Some(h) => Some(h@),
        None => None,
    }
}

/// `shellexpand::tilde_with_context`, which puts the given home directory in place of
/// a tilde that stands alone or before a slash, and leaves any other text as it is.
/// A tilde before a backslash is replaced on Windows and left elsewhere; which of the
/// two is not stated.
#[verifier::external_body]
fn tilde_with_home(s: &str, home: Option<&str>) -> (r: String)
    ensures
        !starts_at_backslash(s@) ==> r@ == at_home(s@, home_text(home)),
        starts_at_backslash(s@) ==> r@ == s@ || (home is Some && r@ == home->0@ + s@.skip(1)),
{
    shellexpand::tilde_with_context(s, || home).into_owned()
}

/// A path with the home directory in place of a leading tilde; as it is where the
/// home directory is not known. Before a backslash the tilde is replaced on Windows
/// only.
pub fn expand_tilde(s: &str, home: Option<&str>) -> (r: String)
    ensures
        !starts_at_backslash(s@) ==> r@ == at_home(s@, home_text(home)),
        starts_at_backslash(s@) ==> r@ == s@ || (home is Some && r@ == home->0@ + s@.skip(1)),
{
    tilde_with_home(s, home)
}

/// What the file system says of the paths that were asked about.
#[derive(Debug, Clone)]
pub struct FileFacts {
    /// The paths at which something exists.
    pub existing: Vec<PathName>,
    /// Paths with what they resolve to; a path that cannot be resolved is not
    /// listed.
    pub canonical: Vec<(PathName, PathName)>,
    /// The paths that are symbolic links.
    pub symlinks: Vec<PathName>,
}

/// What the first entry for a path says.
pub open spec fn entry_for(
    entries: Seq<(PathName, PathName)>,
    p: path::PathText,
) -> Option<path::PathText>
    decreases entries.len(),
{
    if entries.len() == 0 {
        None
    } else if entries[0].0@ == p {
        Some(entries[0].1@)
    } else {
        entry_for(entries.skip(1), p)
    }
}

impl FileFacts {
    pub open spec fn exists_at(&self, p: path::PathText) -> bool {
        path::path_texts(self.existing@).contains(p)
    }

    pub open spec fn links_at(&self, p: path::PathText) -> bool {
        path::path_texts(self.symlinks@).contains(p)
    }

    /// What a path resolves to.
    pub open spec fn resolved(&self, p: path::PathText) -> Option<path::PathText> {
        entry_for(self.canonical@, p)
    }

    /// What a path resolves to, or the path itself where it cannot be resolved.
    pub open spec fn resolved_or_same(&self, p: path::PathText) -> path::PathText {
        match self.resolved(p) {
            Some(q) => q,
            None => p,
        }
    }

    pub fn resolve(&self, p: &PathName) -> (r: Option<PathName>)
        ensures
            path::option_path(r) == self.resolved(p@),
    {
        let mut i: usize = 0;
        assert(self.canonical@.skip(0) =~= self.canonical@);
        while i < self.canonical.len()
            invariant
                i <= self.canonical@.len(),
                entry_for(self.canonical@, p@) == entry_for(self.canonical@.skip(i as int), p@),
            decreases self.canonical@.len() - i,
        {
            assert(self.canonical@.skip(i as int)[0] == self.canonical@[i as int]);
            if self.canonical[i].0.same(p) {
                return Some(self.canonical[i].1.copy());
            }
            assert(self.canonical@.skip(i as int).skip(1) =~= self.canonical@.skip(i + 1));
            i += 1;
        }
        None
    }

    /// What a path resolves to, or the path itself where it cannot be resolved.
    pub fn canonical_or_as_is(&self, p: &PathName) -> (r: PathName)
        ensures
            r@ == self.resolved_or_same(p@),
    {
        match self.resolve(p) {
            Some(q) => q,
            None => p.copy(),
        }
    }
}

/// Where a configuration came from.
#[derive(Debug, Clone, Copy, PartialEq, Eq, Structural)]
pub enum ConfigSource {
    /// It was named on the command line.
    Explicit,
    /// It lies in the working directory.
    Cwd,
    /// It lies at the root of the repository around the working directory.
    GitRoot,
    /// It lies beside the program.
    AlongsideBinary,
    /// There is no file.
    NotFound,
}

/// Whether a configuration may be taken for the operator's own.
#[derive(Debug, Clone, Copy, PartialEq, Eq, Structural)]
pub enum ConfigTrust {
    Trusted,
    Untrusted,
}

/// A configuration file that was found.
#[derive(Debug, Clone)]
pub struct Located {
    pub source: ConfigSource,
    /// `None` where there is no file.
    pub path: Option<PathName>,
}

/// A configuration with where it came from.
#[derive(Debug, Clone)]
pub struct Discovered {
    pub config: Config,
    pub source: ConfigSource,
    pub trust: ConfigTrust,
    /// `None` where there is no file.
    pub path: Option<PathName>,
}

/// The path that was named on the command line and does not exist.
#[derive(Debug, Clone)]
pub struct NoSuchConfig {
    pub path: PathName,
}

impl NoSuchConfig {
    /// What is said of it; `shown` is the path as text.
    pub fn message(&self, shown: &str) -> (r: String)
        ensures
            r@ == "--config path not found: "@ + shown@,
    {
        let mut out = to_text("--config path not found: ");
        out.append(shown);
        out
    }
}

/// The number of directories that are looked at for a repository.
pub const GIT_ROOT_LEVELS: usize = 20;

/// The nearest directory that holds a repository, from `start` upwards over at
/// most `levels` directories.
pub open spec fn git_root(
    start: path::PathText,
    facts: FileFacts,
    levels: nat,
) -> Option<path::PathText>
    decreases levels,
{
    if levels == 0 {
        None
    } else if facts.exists_at(start.below(".git"@)) {
        Some(start)
    } else {
        match start.parent() {
            Some(up) => git_root(up, facts, (levels - 1) as nat),
            None => None,
        }
    }
}

/// The nearest directory that holds a repository, from `start` upwards.
pub fn find_git_root(start: &PathName, facts: &FileFacts) -> (r: Option<PathName>)
    ensures
        path::option_path(r) == git_root(start@, *facts, GIT_ROOT_LEVELS as nat),
{
    let mut current = start.copy();
    let mut left: usize = GIT_ROOT_LEVELS;
    while left > 0
        invariant
            git_root(start@, *facts, GIT_ROOT_LEVELS as nat) == git_root(
                current@,
                *facts,
                left as nat,
            ),
        decreases left,
    {
        if current.below(".git").is_among(&facts.existing) {
            return Some(current);
        }
        match current.parent() {
            Some(up) => {
                current = up;
            },
            None => {
                return None;
            },
        }
        left -= 1;
    }
    None
}

/// The first `n` names of a path.
pub open spec fn ancestor(p: path::PathText, n: int) -> path::PathText {
    path::PathText { root: p.root, parts: p.parts.take(n) }
}

/// The directory that is found holds a repository, is `start` or one of its
/// ancestors less than `levels` names away, and no nearer one holds a repository.
pub proof fn git_root_is_the_nearest(start: path::PathText, facts: FileFacts, levels: nat)
    ensures
        git_root(start, facts, levels) matches Some(root) ==> {
            &&& facts.exists_at(root.below(".git"@))
            &&& start.within(root)
            &&& start.parts.len() - root.parts.len() < levels
            &&& forall|n: int|
                root.parts.len() < n <= start.parts.len() ==> !facts.exists_at(
                    (#[trigger] ancestor(start, n)).below(".git"@),
                )
        },
    decreases levels,
{
    assert(ancestor(start, start.parts.len() as int) =~= start);
    assert(start.parts.subrange(0, start.parts.len() as int) =~= start.parts);
    if levels > 0 && !facts.exists_at(start.below(".git"@)) {
        if let Some(up) = start.parent() {
            git_root_is_the_nearest(up, facts, (levels - 1) as nat);
            if let Some(root) = git_root(start, facts, levels) {
                path::within_is_an_order(start, up, root);
                assert(start.parts.subrange(0, up.parts.len() as int) =~= up.parts);
                assert forall|n: int|
                    root.parts.len() < n <= start.parts.len() implies !facts.exists_at(
                    (#[trigger] ancestor(start, n)).below(".git"@),
                ) by {
                    if n < start.parts.len() {
                        assert(ancestor(start, n) =~= ancestor(up, n));
                    }
                }
            }
        }
    }
}

/// Where the configuration is taken from: the path named on the command line,
/// else the working directory, else the root of the repository around it, else
/// beside the program. `None` where the named path does not exist.
pub open spec fn config_location(
    explicit: Option<path::PathText>,
    cwd: path::PathText,
    alongside: Option<path::PathText>,
    facts: FileFacts,
) -> Option<(ConfigSource, Option<path::PathText>)> {
    let repository = git_root(cwd, facts, GIT_ROOT_LEVELS as nat);
    if explicit is Some {
        let named = cwd.joined(explicit->0);
        if facts.exists_at(named) {
            Some((ConfigSource::Explicit, Some(named)))
        } else {
            None
        }
    } else if facts.exists_at(cwd.below("kb-mcp.toml"@)) {
        Some((ConfigSource::Cwd, Some(cwd.below("kb-mcp.toml"@))))
    } else if repository is Some && facts.exists_at(repository->0.below("kb-mcp.toml"@)) {
        Some((ConfigSource::GitRoot, Some(repository->0.below("kb-mcp.toml"@))))
    } else if alongside is Some && facts.exists_at(alongside->0) {
        Some((ConfigSource::AlongsideBinary, alongside))
    } else {
        Some((ConfigSource::NotFound, None))
    }
}

/// Finds the configuration file.
pub fn discover_located(
    explicit: Option<&PathName>,
    cwd: &PathName,
    alongside: Option<&PathName>,
    facts: &FileFacts,
) -> (r: Result<Located, NoSuchConfig>)
    ensures
        match r {
            Ok(l) => config_location(path::path_ref(explicit), cwd@, path::path_ref(alongside), *facts)
                == Some((l.source, path::option_path(l.path))),
            Err(e) => {
                &&& config_location(
                    path::path_ref(explicit),
                    cwd@,
                    path::path_ref(alongside),
                    *facts,
                ) is None
                &&& e.path@ == cwd@.joined(explicit->0@)
            },
        },
{
    if let Some(p) = explicit {
        let named = cwd.join(p);
        if !named.is_among(&facts.existing) {
            return Err(NoSuchConfig { path: named });
        }
        return Ok(Located { source: ConfigSource::Explicit, path: Some(named) });
    }
    let here = cwd.below("kb-mcp.toml");
    if here.is_among(&facts.existing) {
        return Ok(Located { source: ConfigSource::Cwd, path: Some(here) });
    }
    if let Some(root) = find_git_root(cwd, facts) {
        let at_root = root.below("kb-mcp.toml");
        if at_root.is_among(&facts.existing) {
            return Ok(Located { source: ConfigSource::GitRoot, path: Some(at_root) });
        }
    }
    if let Some(side) = alongside {
        if side.is_among(&facts.existing) {
            return Ok(Located { source: ConfigSource::AlongsideBinary, path: Some(side.copy()) });
        }
    }
    Ok(Located { source: ConfigSource::NotFound, path: None })
}

/// A path named on the command line is the one that is read, whatever else
/// exists; and without one no search fails.
pub proof fn a_named_config_comes_first(
    explicit: Option<path::PathText>,
    cwd: path::PathText,
    alongside: Option<path::PathText>,
    facts: FileFacts,
)
    ensures
        explicit is None ==> config_location(explicit, cwd, alongside, facts) is Some,
        config_location(explicit, cwd, alongside, facts) matches Some(l) ==> (explicit is Some <==>
            l.0 == ConfigSource::Explicit) && (l.1 is None <==> l.0 == ConfigSource::NotFound) && (
        l.1 matches Some(p) ==> facts.exists_at(p)),
{
}

/// What of the environment decides on trust.
#[derive(Debug, Clone)]
pub struct TrustRoots {
    /// The directories whose configuration files are the operator's own.
    pub roots: Vec<PathName>,
    /// The home directory.
    pub home: Option<PathName>,
    /// The directory for caches.
    pub cache_dir: Option<PathName>,
    /// Whether the environment names a directory for models already.
    pub cache_env_set: bool,
}

impl Default for TrustRoots {
    /// Nothing is known.
    fn default() -> (r: Self)
        ensures
            r.roots@.len() == 0,
            r.home is None,
            r.cache_dir is None,
            !r.cache_env_set,
    {
        TrustRoots { roots: Vec::new(), home: None, cache_dir: None, cache_env_set: false }
    }
}

/// The trusted directories below the bases that are known.
pub open spec fn roots_below(
    first: Option<path::PathText>,
    second: Option<path::PathText>,
) -> Seq<path::PathText> {
    let a = match first {
        Some(b) => seq![b.below("kb-mcp"@)],
        None => Seq::empty(),
    };
    let b = match second {
        Some(b) => seq![b.below("kb-mcp"@)],
        None => Seq::empty(),
    };
    a + b
}

impl TrustRoots {
    /// The trusted directories are named `kb-mcp` below the bases: a base itself
    /// could be as wide as the home directory.
    pub fn from_bases(
        config_home_override: Option<PathName>,
        config_dir: Option<PathName>,
        home: Option<PathName>,
        cache_dir: Option<PathName>,
        cache_env_set: bool,
    ) -> (r: Self)
        ensures
            path::path_texts(r.roots@) == roots_below(
                path::option_path(config_home_override),
                path::option_path(config_dir),
            ),
            r.home == home,
            r.cache_dir == cache_dir,
            r.cache_env_set == cache_env_set,
    {
        let mut roots: Vec<PathName> = Vec::new();
        if let Some(b) = &config_home_override {
            roots.push(b.below("kb-mcp"));
        }
        if let Some(b) = &config_dir {
            roots.push(b.below("kb-mcp"));
        }
        assert(path::path_texts(roots@) =~= roots_below(
            path::option_path(config_home_override),
            path::option_path(config_dir),
        ));
        TrustRoots { roots, home, cache_dir, cache_env_set }
    }

    /// Whether a directory is a trusted one or lies below one, once links are
    /// resolved.
    pub open spec fn holds(&self, dir: path::PathText, facts: FileFacts) -> bool {
        exists|i: int|
            0 <= i < self.roots@.len() && facts.resolved_or_same(dir).within(
                facts.resolved_or_same((#[trigger] self.roots@[i])@),
            )
    }

    pub fn contains(&self, dir: &PathName, facts: &FileFacts) -> (r: bool)
        ensures
            r == self.holds(dir@, *facts),
    {
        let target = facts.canonical_or_as_is(dir);
        let mut i: usize = 0;
        while i < self.roots.len()
            invariant
                i <= self.roots@.len(),
                target@ == facts.resolved_or_same(dir@),
                forall|k: int|
                    0 <= k < i ==> !target@.within(
                        facts.resolved_or_same((#[trigger] self.roots@[k])@),
                    ),
            decreases self.roots@.len() - i,
        {
            if target.starts_with(&facts.canonical_or_as_is(&self.roots[i])) {
                return true;
            }
            i += 1;
        }
        false
    }
}

/// Trust by location alone.
pub open spec fn trust_of(
    source: ConfigSource,
    at: Option<path::PathText>,
    roots: TrustRoots,
    facts: FileFacts,
) -> ConfigTrust {
    if source != ConfigSource::Cwd && source != ConfigSource::GitRoot {
        ConfigTrust::Trusted
    } else if at is Some && at->0.parent() is Some && roots.holds(at->0.parent()->0, facts) {
        ConfigTrust::Trusted
    } else {
        ConfigTrust::Untrusted
    }
}

/// Decides on trust by location alone: what the file says plays no part.
pub fn classify_trust(
    source: ConfigSource,
    at: Option<&PathName>,
    roots: &TrustRoots,
    facts: &FileFacts,
) -> (r: ConfigTrust)
    ensures
        r == trust_of(source, path::path_ref(at), *roots, *facts),
{
    match source {
        ConfigSource::Explicit | ConfigSource::AlongsideBinary | ConfigSource::NotFound => {
            ConfigTrust::Trusted
        },
        ConfigSource::Cwd | ConfigSource::GitRoot => {
            if let Some(p) = at {
                if let Some(dir) = p.parent() {
                    if roots.contains(&dir, facts) {
                        return ConfigTrust::Trusted;
                    }
                }
            }
            ConfigTrust::Untrusted
        },
    }
}

/// Why a directory may not be indexed for an untrusted configuration.
#[derive(Debug, Clone, Copy, PartialEq, Eq, Structural)]
pub enum ForbiddenKbPath {
    BrokenLink,
    FilesystemRoot,
    Home,
    AboveHome,
    AboveConfig,
}

impl ForbiddenKbPath {
    pub open spec fn text(self) -> Seq<char> {
        match self {
            ForbiddenKbPath::BrokenLink => "it is a symlink that cannot be resolved"@,
            ForbiddenKbPath::FilesystemRoot => "it is a filesystem root"@,
            ForbiddenKbPath::Home => "it is the home directory"@,
            ForbiddenKbPath::AboveHome => "it is an ancestor of the home directory"@,
            ForbiddenKbPath::AboveConfig =>
                "it is an ancestor of the directory holding the config file"@,
        }
    }

    pub fn as_str(self) -> (r: &'static str)
        ensures
            r@ == self.text(),
    {
        match self {
            ForbiddenKbPath::BrokenLink => "it is a symlink that cannot be resolved",
            ForbiddenKbPath::FilesystemRoot => "it is a filesystem root",
            ForbiddenKbPath::Home => "it is the home directory",
            ForbiddenKbPath::AboveHome => "it is an ancestor of the home directory",
            ForbiddenKbPath::AboveConfig =>
                "it is an ancestor of the directory holding the config file",
        }
    }
}

/// Why a directory may not be indexed for an untrusted configuration; `None`
/// where it may.
pub open spec fn kb_path_refusal(
    kb: path::PathText,
    config_dir: Option<path::PathText>,
    roots: TrustRoots,
    facts: FileFacts,
) -> Option<ForbiddenKbPath> {
    let target = facts.resolved_or_same(kb);
    let home = match roots.home {
        Some(h) => Some(facts.resolved_or_same(h@)),
        None => None,
    };
    let dir = match config_dir {
        Some(d) => Some(facts.resolved_or_same(d)),
        None => None,
    };
    if facts.resolved(kb) is None && facts.links_at(kb) {
        Some(ForbiddenKbPath::BrokenLink)
    } else if target.parent() is None {
        Some(ForbiddenKbPath::FilesystemRoot)
    } else if home == Some(target) {
        Some(ForbiddenKbPath::Home)
    } else if home is Some && home->0.within(target) {
        Some(ForbiddenKbPath::AboveHome)
    } else if dir is Some && dir->0.within(target) && dir->0 != target {
        Some(ForbiddenKbPath::AboveConfig)
    } else {
        None
    }
}

/// Whether an untrusted configuration may have a directory indexed. Only what can
/// be named without knowing the user is refused: a root, the home directory and
/// what lies above it or above the file.
pub fn forbidden_kb_path(
    kb_path: &PathName,
    config_dir: Option<&PathName>,
    roots: &TrustRoots,
    facts: &FileFacts,
) -> (r: Option<ForbiddenKbPath>)
    ensures
        r == kb_path_refusal(kb_path@, path::path_ref(config_dir), *roots, *facts),
{
    let target = match facts.resolve(kb_path) {
        Some(p) => p,
        None => {
            if kb_path.is_among(&facts.symlinks) {
                return Some(ForbiddenKbPath::BrokenLink);
            }
            kb_path.copy()
        },
    };
    if target.parent().is_none() {
        return Some(ForbiddenKbPath::FilesystemRoot);
    }
    if let Some(h) = &roots.home {
        let home = facts.canonical_or_as_is(h);
        if home.same(&target) {
            return Some(ForbiddenKbPath::Home);
        }
        if home.starts_with(&target) {
            return Some(ForbiddenKbPath::AboveHome);
        }
    }
    if let Some(d) = config_dir {
        let dir = facts.canonical_or_as_is(d);
        if dir.starts_with(&target) && !dir.same(&target) {
            return Some(ForbiddenKbPath::AboveConfig);
        }
    }
    None
}

/// What an untrusted configuration has indexed holds neither the home directory
/// nor, unless it is the very directory of the file, the file.
pub proof fn allowed_kb_paths_are_bounded(
    kb: path::PathText,
    config_dir: Option<path::PathText>,
    roots: TrustRoots,
    facts: FileFacts,
)
    requires
        kb_path_refusal(kb, config_dir, roots, facts) is None,
    ensures
        facts.resolved_or_same(kb).parts.len() > 0,
        roots.home matches Some(h) ==> !facts.resolved_or_same(h@).within(
            facts.resolved_or_same(kb),
        ),
        config_dir matches Some(d) ==> (facts.resolved_or_same(d).within(
            facts.resolved_or_same(kb),
        ) ==> facts.resolved_or_same(d) == facts.resolved_or_same(kb)),
{
    path::within_is_an_order(
        facts.resolved_or_same(kb),
        facts.resolved_or_same(kb),
        facts.resolved_or_same(kb),
    );
}

/// An address to listen on.
#[derive(Debug, Clone, Copy, PartialEq, Eq, Structural)]
pub enum IpName {
    V4 { a: u8, b: u8, c: u8, d: u8 },
    V6 { value: u128 },
}

/// An address and port to listen on.
#[derive(Debug, Clone, Copy, PartialEq, Eq, Structural)]
pub struct BindAddress {
    pub ip: IpName,
    pub port: u16,
}

impl BindAddress {
    /// Whether only this machine can reach it: 127.0.0.0/8 and ::1.
    pub open spec fn loopback(self) -> bool {
        match self.ip {
            IpName::V4 { a, b, c, d } => a == 127,
            IpName::V6 { value } => value == 1,
        }
    }

    /// Whether other machines can reach it.
    pub fn is_non_loopback(&self) -> (r: bool)
        ensures
            r == !self.loopback(),
    {
        match self.ip {
            IpName::V4 { a, .. } => a != 127,
            IpName::V6 { value } => value != 1,
        }
    }
}

/// The address that an untrusted configuration listens on; `bind` is what its own
/// text means, where it means an address.
pub open spec fn safe_bind(text: Option<Seq<char>>, bind: Option<BindAddress>) -> Option<
    Seq<char>,
> {
    if text is Some && bind is Some && !bind->0.loopback() {
        Some("127.0.0.1:"@ + text::decimal(bind->0.port as nat))
    } else {
        text
    }
}

/// The directory for models of an untrusted configuration. The outer `None` says
/// that there is no safe one.
pub open spec fn safe_cache(roots: TrustRoots) -> Option<Option<path::PathText>> {
    if roots.cache_env_set {
        Some(None)
    } else {
        match roots.cache_dir {
            Some(d) => Some(Some(d@.below("fastembed"@))),
            None => None,
        }
    }
}

/// `h` without what an untrusted configuration may not decide.
pub open spec fn http_restricted(h: HttpConfig, g: HttpConfig, bind: Option<BindAddress>) -> bool {
    &&& text::option_text(g.bind) == safe_bind(text::option_text(h.bind), bind)
    &&& g.allowed_hosts is None
    &&& g.healthz_public is None
}

/// `t` without what an untrusted configuration may not decide.
pub open spec fn transport_restricted(
    t: Option<TransportConfig>,
    u: Option<TransportConfig>,
    bind: Option<BindAddress>,
) -> bool {
    match (t, u) {
        (Some(a), Some(b)) => a.kind == b.kind && match (a.http, b.http) {
            (Some(h), Some(g)) => http_restricted(h, g, bind),
            (None, None) => true,
            _ => false,
        },
        (None, None) => true,
        _ => false,
    }
}

/// Everything but the directory for models and the connections is the same.
pub open spec fn rest_kept(before: Config, after: Config) -> bool {
    &&& after.kb_path == before.kb_path
    &&& after.model == before.model
    &&& after.reranker == before.reranker
    &&& after.rerank_by_default == before.rerank_by_default
    &&& after.exclude_headings == before.exclude_headings
    &&& after.exclude_dirs == before.exclude_dirs
    &&& after.quality_filter == before.quality_filter
    &&& after.best_practice == before.best_practice
    &&& after.parsers == before.parsers
    &&& after.watch == before.watch
    &&& after.eval == before.eval
    &&& after.search == before.search
    &&& after.contextual == before.contextual
}

/// `after` is `before` without what an untrusted configuration may not decide.
pub open spec fn restricted(
    before: Config,
    after: Config,
    bind: Option<BindAddress>,
    roots: TrustRoots,
) -> bool {
    &&& safe_cache(roots) == Some(path::option_path(after.fastembed_cache_dir))
    &&& transport_restricted(before.transport, after.transport, bind)
    &&& rest_kept(before, after)
}

/// Why an untrusted configuration is refused.
#[derive(Debug, Clone, Copy, PartialEq, Eq, Structural)]
pub enum TrustError {
    /// There is no safe directory for models.
    NoCacheDir,
    /// The directory to index is refused.
    KbPath { reason: ForbiddenKbPath },
}

impl TrustError {
    /// What is said of the refusal; `shown` is the path of the file and `kb` the
    /// directory to index, as text.
    pub open spec fn text(self, shown: Seq<char>, kb: Seq<char>) -> Seq<char> {
        match self {
            TrustError::NoCacheDir =>
                "cannot determine a cache directory for embedding models, so the model directory named by "@
                + shown
                + " cannot be safely replaced.\nThis config was found by kb-mcp itself (not named with --config), so its directory is treated as untrusted. Set FASTEMBED_CACHE_DIR to a directory you control, or pass --config "@
                + shown + " to accept the config as written."@,
            TrustError::KbPath { reason } => "refusing kb_path "@ + kb + " from "@ + shown + ": "@
                + reason.text()
                + ".\nThis config was found by kb-mcp itself (not named with --config), so its directory is treated as untrusted. Pass --config "@
                + shown + " to accept it, or point kb_path at a specific directory."@,
        }
    }

    pub fn message(&self, shown: &str, kb: &str) -> (r: String)
        ensures
            r@ == self.text(shown@, kb@),
    {
        match self {
            TrustError::NoCacheDir => {
                let mut out = to_text(
                    "cannot determine a cache directory for embedding models, so the model directory named by ",
                );
                out.append(shown);
                out.append(
                    " cannot be safely replaced.\nThis config was found by kb-mcp itself (not named with --config), so its directory is treated as untrusted. Set FASTEMBED_CACHE_DIR to a directory you control, or pass --config ",
                );
                out.append(shown);
                out.append(" to accept the config as written.");
                out
            },
            TrustError::KbPath { reason } => {
                let mut out = to_text("refusing kb_path ");
                out.append(kb);
                out.append(" from ");
                out.append(shown);
                out.append(": ");
                out.append(reason.as_str());
                out.append(
                    ".\nThis config was found by kb-mcp itself (not named with --config), so its directory is treated as untrusted. Pass --config ",
                );
                out.append(shown);
                out.append(" to accept it, or point kb_path at a specific directory.");
                out
            },
        }
    }
}

fn restrict_http(h: HttpConfig, bind: Option<BindAddress>) -> (r: HttpConfig)
    ensures
        http_restricted(h, r, bind),
{
    let mut listens = h.bind;
    if listens.is_some() {
        if let Some(address) = bind {
            if address.is_non_loopback() {
                let mut out = to_text("127.0.0.1:");
                push_decimal(&mut out, address.port as u64);
                listens = Some(out);
            }
        }
    }
    HttpConfig { bind: listens, allowed_hosts: None, healthz_public: None }
}

impl Config {
    /// Takes away what an untrusted configuration may not decide: from where
    /// models are loaded, and from where the service can be reached. `bind` is what
    /// the configured address means, where it means one. A directory to index that
    /// reaches too far is refused.
    pub fn restrict_untrusted(
        &mut self,
        config_dir: Option<&PathName>,
        bind: Option<BindAddress>,
        roots: &TrustRoots,
        facts: &FileFacts,
    ) -> (r: Result<(), TrustError>)
        ensures
            r == (if safe_cache(*roots) is None {
                Err(TrustError::NoCacheDir)
            } else if old(self).kb_path is Some && kb_path_refusal(
                old(self).kb_path->0@,
                path::path_ref(config_dir),
                *roots,
                *facts,
            ) is Some {
                Err(
                    TrustError::KbPath {
                        reason: kb_path_refusal(
                            old(self).kb_path->0@,
                            path::path_ref(config_dir),
                            *roots,
                            *facts,
                        )->0,
                    },
                )
            } else {
                Ok(())
            }),
            safe_cache(*roots) is None ==> *final(self) == *old(self),
            safe_cache(*roots) is Some ==> restricted(*old(self), *final(self), bind, *roots),
    {
        if roots.cache_env_set {
            self.fastembed_cache_dir = None;
        } else {
            match &roots.cache_dir {
                Some(d) => {
                    self.fastembed_cache_dir = Some(d.below("fastembed"));
                },
                None => {
                    return Err(TrustError::NoCacheDir);
                },
            }
        }
        let mut transport: Option<TransportConfig> = None;
        std::mem::swap(&mut transport, &mut self.transport);
        self.transport = match transport {
            Some(t) => Some(
                TransportConfig {
                    kind: t.kind,
                    http: match t.http {
                        Some(h) => Some(restrict_http(h, bind)),
                        None => None,
                    },
                },
            ),
            None => None,
        };
        if let Some(kb) = &self.kb_path {
            if let Some(reason) = forbidden_kb_path(kb, config_dir, roots, facts) {
                return Err(TrustError::KbPath { reason });
            }
        }
        Ok(())
    }

    /// Judges a configuration by where it was found, and restricts it where it is
    /// not trusted there.
    pub fn discover_in(
        self,
        located: Located,
        bind: Option<BindAddress>,
        roots: &TrustRoots,
        facts: &FileFacts,
    ) -> (r: Result<Discovered, TrustError>)
        ensures
            r is Err <==> {
                &&& trust_of(located.source, path::option_path(located.path), *roots, *facts)
                    == ConfigTrust::Untrusted
                &&& untrusted_refusal(self, located, *roots, *facts) is Some
            },
            r matches Err(e) ==> Some(e) == untrusted_refusal(self, located, *roots, *facts),
            r matches Ok(d) ==> {
                &&& d.source == located.source
                &&& d.path == located.path
                &&& d.trust == trust_of(
                    located.source,
                    path::option_path(located.path),
                    *roots,
                    *facts,
                )
                &&& d.trust == ConfigTrust::Trusted ==> d.config == self
                &&& d.trust == ConfigTrust::Untrusted ==> restricted(self, d.config, bind, *roots)
            },
    {
        let at = match &located.path {
            Some(p) => Some(p),
            None => None,
        };
        let trust = classify_trust(located.source, at, roots, facts);
        let mut config = self;
        match trust {
            ConfigTrust::Trusted => {},
            ConfigTrust::Untrusted => {
                let dir = match &located.path {
                    Some(p) => p.parent(),
                    None => None,
                };
                let dir_ref = match &dir {
                    Some(d) => Some(d),
                    None => None,
                };
                if let Err(e) = config.restrict_untrusted(dir_ref, bind, roots, facts) {
                    return Err(e);
                }
            },
        }
        Ok(Discovered { config, source: located.source, trust, path: located.path })
    }
}

/// The directory that holds a found file.
pub open spec fn directory_of(located: Located) -> Option<path::PathText> {
    match located.path {
        Some(p) => p@.parent(),
        None => None,
    }
}

/// Why an untrusted configuration is refused; `None` where it is not.
pub open spec fn untrusted_refusal(
    config: Config,
    located: Located,
    roots: TrustRoots,
    facts: FileFacts,
) -> Option<TrustError> {
    if safe_cache(roots) is None {
        Some(TrustError::NoCacheDir)
    } else if config.kb_path is Some {
        match kb_path_refusal(config.kb_path->0@, directory_of(located), roots, facts) {
            Some(reason) => Some(TrustError::KbPath { reason }),
            None => None,
        }
    } else {
        None
    }
}

/// A configuration that was named, lies beside the program or does not exist is
/// trusted, whatever the environment says; one in the working directory or at the
/// root of a repository is trusted only below a trusted directory.
pub proof fn only_found_configs_are_untrusted(
    source: ConfigSource,
    at: Option<path::PathText>,
    roots: TrustRoots,
    facts: FileFacts,
)
    ensures
        trust_of(source, at, roots, facts) == ConfigTrust::Untrusted ==> source
            == ConfigSource::Cwd || source == ConfigSource::GitRoot,
        (source == ConfigSource::Cwd || source == ConfigSource::GitRoot) && roots.roots@.len() == 0
            ==> trust_of(source, at, roots, facts) == ConfigTrust::Untrusted,
{
}

/// Restricting a restricted configuration once more changes nothing, where `again`
/// is what its new text means: an address that only this machine can reach, or
/// none.
pub proof fn restricting_twice_is_restricting_once(
    first: Config,
    second: Config,
    third: Config,
    bind: Option<BindAddress>,
    again: Option<BindAddress>,
    roots: TrustRoots,
)
    requires
        restricted(first, second, bind, roots),
        restricted(second, third, again, roots),
        again matches Some(a) ==> a.loopback(),
    ensures
        path::option_path(third.fastembed_cache_dir) == path::option_path(
            second.fastembed_cache_dir,
        ),
        rest_kept(second, third),
        third.transport is Some <==> second.transport is Some,
        third.transport matches Some(t) ==> {
            &&& t.kind == second.transport->0.kind
            &&& t.http is Some <==> second.transport->0.http is Some
            &&& t.http matches Some(h) ==> text::option_text(h.bind) == text::option_text(
                second.transport->0.http->0.bind,
            )
        },
{
}

} // verus!
