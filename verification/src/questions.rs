//! Which paths the file system is asked about before a configuration is looked for
//! and judged, and that no other path matters.

use crate::config::Config;
use crate::path;
use crate::path::PathName;
use crate::trust;
use crate::trust::{FileFacts, Located, TrustRoots, GIT_ROOT_LEVELS};
use vstd::prelude::*;

verus! {

/// The list of a path, or of none.
pub open spec fn listed(p: Option<path::PathText>) -> Seq<path::PathText> {
    match p {
        Some(q) => seq![q],
        None => Seq::empty(),
    }
}

/// The configuration file and the repository of a directory and of those above it,
/// over at most `levels` directories.
pub open spec fn asked_upwards(dir: path::PathText, levels: nat) -> Seq<path::PathText>
    decreases levels,
{
    if levels == 0 {
        Seq::empty()
    } else {
        seq![dir.below("kb-mcp.toml"@), dir.below(".git"@)] + match dir.parent() {
            Some(up) => asked_upwards(up, (levels - 1) as nat),
            None => Seq::empty(),
        }
    }
}

/// The paths whose existence decides where the configuration is found.
pub open spec fn asked_for_location(
    explicit: Option<path::PathText>,
    cwd: path::PathText,
    alongside: Option<path::PathText>,
) -> Seq<path::PathText> {
    listed(
        match explicit {
            Some(p) => Some(cwd.joined(p)),
            None => None,
        },
    ) + asked_upwards(cwd, GIT_ROOT_LEVELS as nat) + listed(alongside)
}

/// The paths to ask about before `discover_located`.
pub fn location_questions(
    explicit: Option<&PathName>,
    cwd: &PathName,
    alongside: Option<&PathName>,
) -> (r: Vec<PathName>)
    ensures
        path::path_texts(r@) == asked_for_location(
            path::path_ref(explicit),
            cwd@,
            path::path_ref(alongside),
        ),
{
    let mut out: Vec<PathName> = Vec::new();
    if let Some(p) = explicit {
        out.push(cwd.join(p));
    }
    let ghost first = path::path_texts(out@);
    let mut dir = cwd.copy();
    let mut left: usize = GIT_ROOT_LEVELS;
    let mut more: bool = true;
    while more && left > 0
        invariant
            first + asked_upwards(cwd@, GIT_ROOT_LEVELS as nat) == path::path_texts(out@) + (if more {
                asked_upwards(dir@, left as nat)
            } else {
                Seq::empty()
            }),
        decreases left,
    {
        let ghost before = path::path_texts(out@);
        out.push(dir.below("kb-mcp.toml"));
        out.push(dir.below(".git"));
        assert(path::path_texts(out@) =~= before + seq![
            dir@.below("kb-mcp.toml"@),
            dir@.below(".git"@),
        ]);
        let ghost rest = match dir@.parent() {
            Some(up) => asked_upwards(up, (left - 1) as nat),
            None => Seq::empty(),
        };
        assert(before + asked_upwards(dir@, left as nat) =~= path::path_texts(out@) + rest);
        match dir.parent() {
            Some(up) => {
                dir = up;
            },
            None => {
                more = false;
            },
        }
        left -= 1;
    }
    assert(first + asked_upwards(cwd@, GIT_ROOT_LEVELS as nat) =~= path::path_texts(out@));
    let ghost before = path::path_texts(out@);
    if let Some(p) = alongside {
        out.push(p.copy());
        assert(path::path_texts(out@) =~= before.push(p@));
    }
    assert(path::path_texts(out@) =~= before + listed(path::path_ref(alongside)));
    assert(first =~= listed(
        match path::path_ref(explicit) {
            Some(p) => Some(cwd@.joined(p)),
            None => None,
        },
    ));
    out
}

/// Two accounts of the file system say the same of the existence of some paths.
pub open spec fn agree_on_existence(a: FileFacts, b: FileFacts, paths: Seq<path::PathText>) -> bool {
    forall|i: int|
        0 <= i < paths.len() ==> (a.exists_at(#[trigger] paths[i]) <==> b.exists_at(paths[i]))
}

proof fn lemma_git_root_needs_only_the_questions(
    dir: path::PathText,
    levels: nat,
    a: FileFacts,
    b: FileFacts,
)
    requires
        agree_on_existence(a, b, asked_upwards(dir, levels)),
    ensures
        trust::git_root(dir, a, levels) == trust::git_root(dir, b, levels),
        trust::git_root(dir, a, levels) matches Some(root) ==> (a.exists_at(
            root.below("kb-mcp.toml"@),
        ) <==> b.exists_at(root.below("kb-mcp.toml"@))),
    decreases levels,
{
    if levels > 0 {
        let asked = asked_upwards(dir, levels);
        assert(asked[0] == dir.below("kb-mcp.toml"@));
        assert(asked[1] == dir.below(".git"@));
        if let Some(up) = dir.parent() {
            let rest = asked_upwards(up, (levels - 1) as nat);
            assert forall|i: int| 0 <= i < rest.len() implies (a.exists_at(#[trigger] rest[i])
                <==> b.exists_at(rest[i])) by {
                assert(asked[i + 2] == rest[i]);
            }
            lemma_git_root_needs_only_the_questions(up, (levels - 1) as nat, a, b);
        }
    }
}

/// Where the configuration is found depends on nothing but the paths that were asked
/// about.
pub proof fn location_needs_only_the_questions(
    explicit: Option<path::PathText>,
    cwd: path::PathText,
    alongside: Option<path::PathText>,
    a: FileFacts,
    b: FileFacts,
)
    requires
        agree_on_existence(a, b, asked_for_location(explicit, cwd, alongside)),
    ensures
        trust::config_location(explicit, cwd, alongside, a) == trust::config_location(
            explicit,
            cwd,
            alongside,
            b,
        ),
{
    let asked = asked_for_location(explicit, cwd, alongside);
    let first = listed(
        match explicit {
            Some(p) => Some(cwd.joined(p)),
            None => None,
        },
    );
    let up = asked_upwards(cwd, GIT_ROOT_LEVELS as nat);
    if explicit is Some {
        assert(asked[0] == cwd.joined(explicit->0));
    } else {
        assert forall|i: int| 0 <= i < up.len() implies (a.exists_at(#[trigger] up[i])
            <==> b.exists_at(up[i])) by {
            assert(asked[first.len() + i] == up[i]);
        }
        lemma_git_root_needs_only_the_questions(cwd, GIT_ROOT_LEVELS as nat, a, b);
        assert(up[0] == cwd.below("kb-mcp.toml"@));
        if alongside is Some {
            assert(asked[(first.len() + up.len()) as int] == alongside->0);
        }
    }
}

/// The directory of a path.
pub open spec fn parent_of(p: Option<path::PathText>) -> Option<path::PathText> {
    match p {
        Some(q) => q.parent(),
        None => None,
    }
}

/// The paths whose targets decide whether a configuration is trusted and whether it
/// is refused.
pub open spec fn asked_for_trust(
    roots: TrustRoots,
    kb_path: Option<path::PathText>,
    at: Option<path::PathText>,
) -> Seq<path::PathText> {
    path::path_texts(roots.roots@) + listed(path::option_path(roots.home)) + listed(kb_path)
        + listed(parent_of(at))
}

/// The paths to ask about before `discover_in`.
pub fn trust_questions(roots: &TrustRoots, config: &Config, located: &Located) -> (r: Vec<PathName>)
    ensures
        path::path_texts(r@) == asked_for_trust(
            *roots,
            path::option_path(config.kb_path),
            path::option_path(located.path),
        ),
{
    let mut out: Vec<PathName> = Vec::new();
    let mut i: usize = 0;
    while i < roots.roots.len()
        invariant
            i <= roots.roots@.len(),
            path::path_texts(out@) == path::path_texts(roots.roots@).take(i as int),
        decreases roots.roots@.len() - i,
    {
        let ghost before = path::path_texts(out@);
        out.push(roots.roots[i].copy());
        assert(path::path_texts(out@) =~= before.push(roots.roots@[i as int]@));
        i += 1;
    }
    let ghost own = path::path_texts(out@);
    assert(own =~= path::path_texts(roots.roots@));
    if let Some(p) = &roots.home {
        out.push(p.copy());
    }
    let ghost with_home = path::path_texts(out@);
    assert(with_home =~= own + listed(path::option_path(roots.home)));
    if let Some(p) = &config.kb_path {
        out.push(p.copy());
    }
    let ghost with_kb = path::path_texts(out@);
    assert(with_kb =~= with_home + listed(path::option_path(config.kb_path)));
    if let Some(p) = &located.path {
        if let Some(dir) = p.parent() {
            out.push(dir);
        }
    }
    assert(path::path_texts(out@) =~= with_kb + listed(
        parent_of(path::option_path(located.path)),
    ));
    out
}

/// Two accounts of the file system say the same of the targets of some paths.
pub open spec fn agree_on_targets(a: FileFacts, b: FileFacts, paths: Seq<path::PathText>) -> bool {
    forall|i: int|
        0 <= i < paths.len() ==> {
            let p = #[trigger] paths[i];
            a.resolved(p) == b.resolved(p) && (a.links_at(p) <==> b.links_at(p))
        }
}

/// Whether a configuration is trusted, and whether it is refused where it is not,
/// depends on nothing but the paths that were asked about.
pub proof fn trust_needs_only_the_questions(
    config: Config,
    located: Located,
    roots: TrustRoots,
    a: FileFacts,
    b: FileFacts,
)
    requires
        agree_on_targets(
            a,
            b,
            asked_for_trust(
                roots,
                path::option_path(config.kb_path),
                path::option_path(located.path),
            ),
        ),
    ensures
        trust::trust_of(located.source, path::option_path(located.path), roots, a)
            == trust::trust_of(located.source, path::option_path(located.path), roots, b),
        trust::untrusted_refusal(config, located, roots, a) == trust::untrusted_refusal(
            config,
            located,
            roots,
            b,
        ),
{
    let own = path::path_texts(roots.roots@);
    let home = listed(path::option_path(roots.home));
    let kb = listed(path::option_path(config.kb_path));
    let dir = listed(parent_of(path::option_path(located.path)));
    let asked = asked_for_trust(
        roots,
        path::option_path(config.kb_path),
        path::option_path(located.path),
    );
    assert forall|i: int| 0 <= i < roots.roots@.len() implies a.resolved_or_same(
        (#[trigger] roots.roots@[i])@,
    ) == b.resolved_or_same(roots.roots@[i]@) by {
        assert(asked[i] == own[i]);
    }
    if roots.home is Some {
        assert(asked[own.len() as int] == roots.home->0@);
    }
    if config.kb_path is Some {
        assert(asked[(own.len() + home.len()) as int] == config.kb_path->0@);
    }
    if parent_of(path::option_path(located.path)) is Some {
        let at = parent_of(path::option_path(located.path))->0;
        assert(asked[(own.len() + home.len() + kb.len()) as int] == at);
        assert(a.resolved_or_same(at) == b.resolved_or_same(at));
        assert(roots.holds(at, a) == roots.holds(at, b)) by {
            if roots.holds(at, a) {
                let i = choose|i: int|
                    0 <= i < roots.roots@.len() && a.resolved_or_same(at).within(
                        a.resolved_or_same((#[trigger] roots.roots@[i])@),
                    );
                assert(b.resolved_or_same(at).within(b.resolved_or_same(roots.roots@[i]@)));
            }
            if roots.holds(at, b) {
                let i = choose|i: int|
                    0 <= i < roots.roots@.len() && b.resolved_or_same(at).within(
                        b.resolved_or_same((#[trigger] roots.roots@[i])@),
                    );
                assert(a.resolved_or_same(at).within(a.resolved_or_same(roots.roots@[i]@)));
            }
        }
    }
}

} // verus!
