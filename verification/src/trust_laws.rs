//! What is read, trusted and refused of a configuration, said of paths, files and
//! addresses alone.

use crate::config::{Config, HttpConfig};
use crate::path;
use crate::path::PathText;
use crate::text;
use crate::trust;
use crate::trust::{
    BindAddress, ConfigSource, ConfigTrust, FileFacts, ForbiddenKbPath, IpName, Located,
    TrustError, TrustRoots,
};
use vstd::prelude::*;

verus! {

// ---------------------------------------------------------------------------
// Paths
// ---------------------------------------------------------------------------

/// A path lies within another where it begins with all of its components, and at the same
/// root.
pub proof fn paths_lie_within_their_beginnings(a: PathText, base: PathText)
    ensures
        a.within(base) <==> a.root == base.root && base.parts.len() <= a.parts.len() && forall|
            i: int,
        |
            0 <= i < base.parts.len() ==> #[trigger] a.parts[i] == base.parts[i],
{
    if a.root == base.root && base.parts.len() <= a.parts.len() && forall|i: int|
        0 <= i < base.parts.len() ==> #[trigger] a.parts[i] == base.parts[i] {
        assert(a.parts.subrange(0, base.parts.len() as int) =~= base.parts);
    }
    if a.within(base) {
        assert forall|i: int| 0 <= i < base.parts.len() implies #[trigger] a.parts[i]
            == base.parts[i] by {
            assert(a.parts.subrange(0, base.parts.len() as int)[i] == a.parts[i]);
        }
    }
}

/// Going down and up again ends where it began. A path without components has nothing
/// above it.
pub proof fn going_down_and_up_ends_where_it_began(a: PathText, name: Seq<char>)
    ensures
        a.below(name).parent() == Some(a),
        a.below(name).parts.len() == a.parts.len() + 1,
        a.below(name).parts.last() == name,
        a.parent() is None <==> a.parts.len() == 0,
        a.parent() matches Some(up) ==> up.root == a.root && up.below(a.parts.last()) == a,
{
    assert(a.parts.push(name).drop_last() =~= a.parts);
    if a.parts.len() > 0 {
        assert(a.parts.drop_last().push(a.parts.last()) =~= a.parts);
    }
}

/// A relative path is taken from the other on; an absolute one stands as it is.
pub proof fn joining_keeps_absolute_paths(a: PathText, b: PathText)
    ensures
        b.root is Some ==> a.joined(b) == b,
        b.root is None ==> a.joined(b).root == a.root && a.joined(b).parts == a.parts + b.parts,
        a.is_absolute() <==> a.root is Some,
{
}

/// A tilde alone or before a slash stands for the home directory, where there is one; any
/// other text stays as it is.
pub proof fn only_a_leading_tilde_stands_for_home(rest: Seq<char>, s: Seq<char>, home: Seq<char>)
    ensures
        rest.len() == 0 || rest[0] == '/' ==> trust::at_home(seq!['~'] + rest, Some(home)) == home
            + rest,
        rest.len() > 0 && rest[0] != '/' ==> trust::at_home(seq!['~'] + rest, Some(home))
            == seq!['~'] + rest,
        s.len() == 0 || s[0] != '~' ==> trust::at_home(s, Some(home)) == s,
        trust::at_home(s, None) == s,
{
    let t = seq!['~'] + rest;
    assert(t.skip(1) =~= rest);
    assert(t[0] == '~');
    if rest.len() > 0 {
        assert(t[1] == rest[0]);
    }
}

// ---------------------------------------------------------------------------
// Files
// ---------------------------------------------------------------------------

/// A path resolves to what is first listed for it, and to nothing only where it is not
/// listed.
pub proof fn paths_resolve_as_first_listed(
    entries: Seq<(path::PathName, path::PathName)>,
    p: PathText,
    i: int,
)
    requires
        0 <= i <= entries.len(),
        forall|k: int| 0 <= k < i ==> (#[trigger] entries[k]).0@ != p,
    ensures
        i < entries.len() && entries[i].0@ == p ==> trust::entry_for(entries, p) == Some(
            entries[i].1@,
        ),
        i == entries.len() ==> trust::entry_for(entries, p) is None,
    decreases entries.len(),
{
    if entries.len() > 0 && i > 0 {
        let rest = entries.skip(1);
        assert(entries[0].0@ != p);
        assert forall|k: int| 0 <= k < i - 1 implies (#[trigger] rest[k]).0@ != p by {
            assert(rest[k] == entries[k + 1]);
        }
        if i < entries.len() {
            assert(rest[i - 1] == entries[i]);
        }
        paths_resolve_as_first_listed(rest, p, i - 1);
    }
}

/// The repository around a directory is looked for in the directory itself and above it,
/// as far as the levels go, and is missed only where none of these holds one.
pub proof fn no_repository_is_overlooked(start: PathText, facts: FileFacts, levels: nat, n: int)
    requires
        0 <= n <= start.parts.len(),
        start.parts.len() - n < levels,
        facts.exists_at(trust::ancestor(start, n).below(".git"@)),
    ensures
        trust::git_root(start, facts, levels) is Some,
        trust::git_root(start, facts, levels)->0.parts.len() >= n,
    decreases levels,
{
    if n == start.parts.len() {
        assert(trust::ancestor(start, n) =~= start);
    } else if !facts.exists_at(start.below(".git"@)) {
        let up = start.parent()->0;
        assert(trust::ancestor(start, n) =~= trust::ancestor(up, n));
        no_repository_is_overlooked(up, facts, (levels - 1) as nat, n);
    }
}

/// Where the configuration is taken from. A file that was named is the one, and an error
/// where it is missing. Else it is the one in the working directory; where there is none,
/// the one at the root of the repository, if it is one of the twenty directories from the
/// working directory upwards; where there is none, the one beside the program; where there
/// is none, there is no configuration.
pub proof fn the_nearest_config_is_taken(
    explicit: Option<PathText>,
    cwd: PathText,
    alongside: Option<PathText>,
    facts: FileFacts,
)
    ensures
        ({
            let found = trust::config_location(explicit, cwd, alongside, facts);
            let here = cwd.below("kb-mcp.toml"@);
            let root = trust::git_root(cwd, facts, 20);
            let in_root = root is Some && facts.exists_at(root->0.below("kb-mcp.toml"@));
            let beside = alongside is Some && facts.exists_at(alongside->0);
            &&& explicit is Some && facts.exists_at(cwd.joined(explicit->0)) ==> found == Some(
                (ConfigSource::Explicit, Some(cwd.joined(explicit->0))),
            )
            &&& explicit is Some && !facts.exists_at(cwd.joined(explicit->0)) ==> found is None
            &&& explicit is None && facts.exists_at(here) ==> found == Some(
                (ConfigSource::Cwd, Some(here)),
            )
            &&& explicit is None && !facts.exists_at(here) && in_root ==> found == Some(
                (ConfigSource::GitRoot, Some(root->0.below("kb-mcp.toml"@))),
            )
            &&& explicit is None && !facts.exists_at(here) && !in_root && beside ==> found == Some(
                (ConfigSource::AlongsideBinary, alongside),
            )
            &&& explicit is None && !facts.exists_at(here) && !in_root && !beside ==> found
                == Some((ConfigSource::NotFound, None::<PathText>))
        }),
{
}

// ---------------------------------------------------------------------------
// Trust
// ---------------------------------------------------------------------------

/// What a directory is once links are followed, as far as that is known.
pub open spec fn links_followed(p: PathText, facts: FileFacts) -> PathText {
    match trust::entry_for(facts.canonical@, p) {
        Some(q) => q,
        None => p,
    }
}

/// A directory is trusted where it lies within one of the operator's own, links followed.
pub open spec fn operators_own(dir: PathText, roots: TrustRoots, facts: FileFacts) -> bool {
    exists|i: int|
        0 <= i < roots.roots@.len() && links_followed(dir, facts).within(
            links_followed((#[trigger] roots.roots@[i])@, facts),
        )
}

/// Only a configuration that was found in the working directory or in a repository can be
/// untrusted, and it is unless its directory is one of the operator's own.
pub proof fn found_configs_are_trusted_in_own_directories(
    source: ConfigSource,
    at: Option<PathText>,
    roots: TrustRoots,
    facts: FileFacts,
)
    ensures
        source == ConfigSource::Explicit || source == ConfigSource::AlongsideBinary || source
            == ConfigSource::NotFound ==> trust::trust_of(source, at, roots, facts)
            == ConfigTrust::Trusted,
        source == ConfigSource::Cwd || source == ConfigSource::GitRoot ==> (trust::trust_of(
            source,
            at,
            roots,
            facts,
        ) == ConfigTrust::Trusted <==> at is Some && at->0.parts.len() > 0 && operators_own(
            PathText { root: at->0.root, parts: at->0.parts.drop_last() },
            roots,
            facts,
        )),
{
    if at is Some && at->0.parts.len() > 0 {
        let dir = at->0.parent()->0;
        if roots.holds(dir, facts) {
            let i = choose|i: int|
                0 <= i < roots.roots@.len() && facts.resolved_or_same(dir).within(
                    facts.resolved_or_same((#[trigger] roots.roots@[i])@),
                );
            assert(links_followed(dir, facts).within(links_followed(roots.roots@[i]@, facts)));
        }
        if operators_own(dir, roots, facts) {
            let i = choose|i: int|
                0 <= i < roots.roots@.len() && links_followed(dir, facts).within(
                    links_followed((#[trigger] roots.roots@[i])@, facts),
                );
            assert(facts.resolved_or_same(dir).within(
                facts.resolved_or_same(roots.roots@[i]@),
            ));
        }
    }
}

/// What an untrusted configuration may not name as its knowledge base, links followed: a
/// link that leads nowhere, a root of the file system, the home directory or a directory
/// above it, and a directory above that of the configuration. Everything else it may.
pub proof fn untrusted_configs_may_not_reach_out(
    kb: PathText,
    config_dir: Option<PathText>,
    roots: TrustRoots,
    facts: FileFacts,
)
    ensures
        ({
            let r = trust::kb_path_refusal(kb, config_dir, roots, facts);
            let target = links_followed(kb, facts);
            let broken = trust::entry_for(facts.canonical@, kb) is None && facts.links_at(kb);
            let top = target.parts.len() == 0;
            let holds_home = roots.home is Some && links_followed(roots.home->0@, facts).within(target);
            let is_home = roots.home is Some && links_followed(roots.home->0@, facts) == target;
            let above_config = config_dir is Some && links_followed(config_dir->0, facts).within(target)
                && links_followed(config_dir->0, facts) != target;
            &&& r is None <==> !broken && !top && !holds_home && !above_config
            &&& r == Some(ForbiddenKbPath::BrokenLink) <==> broken
            &&& r == Some(ForbiddenKbPath::FilesystemRoot) <==> !broken && top
            &&& r == Some(ForbiddenKbPath::Home) <==> !broken && !top && is_home
            &&& r == Some(ForbiddenKbPath::AboveHome) <==> !broken && !top && !is_home
                && holds_home
            &&& r == Some(ForbiddenKbPath::AboveConfig) <==> !broken && !top && !holds_home
                && above_config
        }),
{
    if roots.home is Some {
        path::within_is_an_order(
            links_followed(roots.home->0@, facts),
            links_followed(kb, facts),
            links_followed(kb, facts),
        );
    }
}

/// Only this machine reaches itself at 127.x.x.x and at `::1`.
pub proof fn loopback_stays_on_this_machine(a: BindAddress)
    ensures
        a.ip matches IpName::V4 { a: first, b, c, d } ==> (a.loopback() <==> first == 127),
        a.ip matches IpName::V6 { value } ==> (a.loopback() <==> value == 1),
{
}

/// An untrusted configuration listens on this machine only: an address that others reach
/// becomes 127.0.0.1 with the same port, and any other stays as it is written.
pub proof fn untrusted_configs_listen_on_this_machine(
    text: Option<Seq<char>>,
    bind: Option<BindAddress>,
)
    ensures
        text is None ==> trust::safe_bind(text, bind) is None,
        bind is None ==> trust::safe_bind(text, bind) == text,
        text is Some && bind is Some && bind->0.loopback() ==> trust::safe_bind(text, bind)
            == text,
        text is Some && bind is Some && !bind->0.loopback() ==> trust::safe_bind(text, bind)
            == Some("127.0.0.1:"@ + text::decimal(bind->0.port as nat)),
{
}

/// The models of an untrusted configuration are kept where the operator keeps caches; the
/// directory that it names is never used. Where the environment names one, none is set.
pub proof fn untrusted_configs_do_not_choose_where_models_lie(roots: TrustRoots)
    ensures
        roots.cache_env_set ==> trust::safe_cache(roots) == Some(None::<PathText>),
        !roots.cache_env_set && roots.cache_dir is None ==> trust::safe_cache(roots) is None,
        !roots.cache_env_set && roots.cache_dir is Some ==> trust::safe_cache(roots) == Some(
            Some(
                PathText {
                    root: roots.cache_dir->0@.root,
                    parts: roots.cache_dir->0@.parts.push("fastembed"@),
                },
            ),
        ),
{
}

/// What restricting a configuration changes: where models lie, and of the transport the
/// address, the hosts that may call and what may be seen without leave. Nothing else.
pub proof fn restricting_changes_nothing_else(
    before: Config,
    after: Config,
    bind: Option<BindAddress>,
    roots: TrustRoots,
)
    requires
        trust::restricted(before, after, bind, roots),
    ensures
        trust::safe_cache(roots) == Some(path::option_path(after.fastembed_cache_dir)),
        after.kb_path == before.kb_path,
        after.model == before.model,
        after.reranker == before.reranker,
        after.rerank_by_default == before.rerank_by_default,
        after.exclude_headings == before.exclude_headings,
        after.exclude_dirs == before.exclude_dirs,
        after.quality_filter == before.quality_filter,
        after.best_practice == before.best_practice,
        after.parsers == before.parsers,
        after.watch == before.watch,
        after.eval == before.eval,
        after.search == before.search,
        after.contextual == before.contextual,
        after.transport is Some <==> before.transport is Some,
        after.transport is Some ==> after.transport->0.kind == before.transport->0.kind && (
        after.transport->0.http is Some <==> before.transport->0.http is Some),
        after.transport is Some && after.transport->0.http is Some ==> {
            let h: HttpConfig = after.transport->0.http->0;
            &&& h.allowed_hosts is None
            &&& h.healthz_public is None
            &&& text::option_text(h.bind) == trust::safe_bind(
                text::option_text(before.transport->0.http->0.bind),
                bind,
            )
        },
{
}

/// Why an untrusted configuration is refused: there is no place for models, or it names a
/// knowledge base that it may not.
pub proof fn untrusted_configs_are_refused_for_a_reason(
    config: Config,
    located: Located,
    roots: TrustRoots,
    facts: FileFacts,
)
    ensures
        ({
            let r = trust::untrusted_refusal(config, located, roots, facts);
            let dir = match located.path {
                Some(p) => p@.parent(),
                None => None,
            };
            let reason = trust::kb_path_refusal(config.kb_path->0@, dir, roots, facts);
            &&& r == Some(TrustError::NoCacheDir) <==> !roots.cache_env_set
                && roots.cache_dir is None
            &&& r is None <==> (roots.cache_env_set || roots.cache_dir is Some) && (
            config.kb_path is None || reason is None)
            &&& (r matches Some(TrustError::KbPath { reason: why }) ==> config.kb_path is Some
                && reason == Some(why))
        }),
{
}

/// The operator's own directories are those named `kb-mcp` below the two places for
/// configurations, as far as these are known.
pub proof fn own_directories_are_named_after_the_program(
    first: Option<PathText>,
    second: Option<PathText>,
    p: PathText,
)
    ensures
        trust::roots_below(first, second).contains(p) <==> (first is Some && p
            == first->0.below("kb-mcp"@)) || (second is Some && p == second->0.below("kb-mcp"@)),
{
    let all = trust::roots_below(first, second);
    let n = if first is Some {
        1int
    } else {
        0
    };
    if first is Some {
        assert(all[0] == first->0.below("kb-mcp"@));
    }
    if second is Some {
        assert(all[n] == second->0.below("kb-mcp"@));
    }
}

} // verus!
