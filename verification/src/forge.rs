//! GitHub and GitLab references: `owner:repo:path`, with shorthand paths.

use vstd::prelude::*;

use crate::error::ErrorView;
use crate::text::{has_prefix, index_of, index_of_from, lemma_index_of_from, lemma_index_of_from_at};

verus! {

/// Why a forge reference without `:` is refused.
pub open spec fn forge_syntax_reason() -> Seq<char> {
    "Forge references must use format owner:repo:path or ::path"@
}

/// Why a forge reference with an owner and no repository is refused when
/// no repository is configured.
pub open spec fn no_repository_reason() -> Seq<char> {
    "No repository specified and none configured"@
}

/// The text `prefix:value` of a reference.
pub open spec fn reference_text(prefix: Seq<char>, value: Seq<char>) -> Seq<char> {
    prefix + seq![':'] + value
}

/// The owner, repository and path of a forge reference value, split at its
/// first two `:` as `splitn(3, ':')` does; with one `:` the repository is
/// empty, and with none there are no parts.
pub open spec fn forge_parts(v: Seq<char>) -> Option<(Seq<char>, Seq<char>, Seq<char>)> {
    match index_of(v, ':') {
        None => None,
        Some(i) => match index_of_from(v, ':', i + 1) {
            None => Some((v.take(i), Seq::empty(), v.skip(i + 1))),
            Some(j) => Some((v.take(i), v.subrange(i + 1, j), v.skip(j + 1))),
        },
    }
}

/// The owner and repository of a configured `owner/repo`: the parts before
/// and after its first `/`.
pub open spec fn configured_pair(repo: Option<Seq<char>>) -> Option<(Seq<char>, Seq<char>)> {
    match repo {
        None => None,
        Some(r) => match index_of(r, '/') {
            None => None,
            Some(k) => Some((r.take(k), r.skip(k + 1))),
        },
    }
}

/// The second `/`-separated piece of a configured `owner/repo`, as
/// `split('/').nth(1)` gives it.
pub open spec fn configured_second(repo: Option<Seq<char>>) -> Option<Seq<char>> {
    match repo {
        None => None,
        Some(r) => match index_of(r, '/') {
            None => None,
            Some(k) => Some(
                match index_of_from(r, '/', k + 1) {
                    Some(m) => r.subrange(k + 1, m),
                    None => r.skip(k + 1),
                },
            ),
        },
    }
}

/// The rest of `path` after `p`.
pub open spec fn after(path: Seq<char>, p: Seq<char>) -> Seq<char> {
    path.skip(p.len() as int)
}

/// The URL path for a forge path with its shorthand expanded for `platform`.
pub open spec fn spec_convert_forge_path(path: Seq<char>, platform: Seq<char>) -> Seq<char> {
    if has_prefix(path, "issue/"@) {
        "issues/"@ + after(path, "issue/"@)
    } else if has_prefix(path, "pr/"@) {
        if platform == "github"@ {
            "pull/"@ + after(path, "pr/"@)
        } else {
            "-/merge_requests/"@ + after(path, "pr/"@)
        }
    } else if has_prefix(path, "mr/"@) {
        if platform == "gitlab"@ {
            "-/merge_requests/"@ + after(path, "mr/"@)
        } else {
            "pull/"@ + after(path, "mr/"@)
        }
    } else if has_prefix(path, "commit/"@) {
        if platform == "gitlab"@ {
            "-/commit/"@ + after(path, "commit/"@)
        } else {
            "commit/"@ + after(path, "commit/"@)
        }
    } else if has_prefix(path, "blob/"@) {
        if platform == "gitlab"@ {
            "-/blob/"@ + after(path, "blob/"@)
        } else {
            "blob/"@ + after(path, "blob/"@)
        }
    } else {
        path
    }
}

/// What a forge reference `tag:value` resolves to: a URL under `host`, or
/// the error for its syntax or its missing repository. `repo` is the
/// configured `owner/repo`; an empty repository in the reference is taken
/// from it, and refused when it has none. An empty owner beside a given
/// repository is taken from it where it has one, and stays empty otherwise
/// (`::foobar:issue/1` then gives `{host}/foobar/issues/1` with an empty
/// owner segment). `missing` is the reason given when both owner and
/// repository are left to it and it has none.
pub open spec fn spec_resolve_forge(
    tag: Seq<char>,
    repo: Option<Seq<char>>,
    host: Seq<char>,
    platform: Seq<char>,
    missing: Seq<char>,
    value: Seq<char>,
) -> Result<Seq<char>, ErrorView> {
    let reference = reference_text(tag, value);
    match forge_parts(value) {
        None => Err(ErrorView::InvalidSyntax { reference, reason: forge_syntax_reason() }),
        Some((owner, repo_part, path)) => {
            let pair: Result<(Seq<char>, Seq<char>), ErrorView> = if owner.len() == 0
                && repo_part.len() == 0 {
                match configured_pair(repo) {
                    Some(p) => Ok(p),
                    None => Err(ErrorView::Resolution { reference, reason: missing }),
                }
            } else if repo_part.len() == 0 {
                match configured_second(repo) {
                    Some(r) => Ok((owner, r)),
                    None => Err(ErrorView::Resolution { reference, reason: no_repository_reason() }),
                }
            } else if owner.len() == 0 {
                match configured_pair(repo) {
                    Some((o, _)) => Ok((o, repo_part)),
                    None => Ok((owner, repo_part)),
                }
            } else {
                Ok((owner, repo_part))
            };
            match pair {
                Err(e) => Err(e),
                Ok((o, r)) => Ok(
                    host + o + seq!['/'] + r + seq!['/'] + spec_convert_forge_path(path, platform),
                ),
            }
        },
    }
}

/// What `gh:value` resolves to under the configured GitHub repository.
pub open spec fn spec_resolve_github(repo: Option<Seq<char>>, value: Seq<char>) -> Result<
    Seq<char>,
    ErrorView,
> {
    spec_resolve_forge(
        "gh"@,
        repo,
        "https://github.com/"@,
        "github"@,
        "No GitHub repository configured"@,
        value,
    )
}

/// What `gl:value` resolves to under the configured GitLab repository.
pub open spec fn spec_resolve_gitlab(repo: Option<Seq<char>>, value: Seq<char>) -> Result<
    Seq<char>,
    ErrorView,
> {
    spec_resolve_forge(
        "gl"@,
        repo,
        "https://gitlab.com/"@,
        "gitlab"@,
        "No GitLab repository configured"@,
        value,
    )
}


/// The `pr/` and `mr/` shorthands are interchangeable on GitHub and on
/// GitLab: both name a pull request there (a merge request on GitLab).
pub proof fn lemma_pr_mr_interchangeable(rest: Seq<char>, platform: Seq<char>)
    requires
        platform == "github"@ || platform == "gitlab"@,
    ensures
        spec_convert_forge_path("pr/"@ + rest, platform) == spec_convert_forge_path(
            "mr/"@ + rest,
            platform,
        ),
        spec_convert_forge_path("pr/"@ + rest, platform) == if platform == "github"@ {
            "pull/"@ + rest
        } else {
            "-/merge_requests/"@ + rest
        },
{
    reveal_strlit("pr/");
    reveal_strlit("mr/");
    reveal_strlit("issue/");
    reveal_strlit("github");
    reveal_strlit("gitlab");
    let pr = "pr/"@ + rest;
    let mr = "mr/"@ + rest;
    assert(!has_prefix(pr, "issue/"@)) by {
        if has_prefix(pr, "issue/"@) {
            assert(pr.take(6)[0] == pr[0]);
        }
    }
    assert(!has_prefix(mr, "issue/"@)) by {
        if has_prefix(mr, "issue/"@) {
            assert(mr.take(6)[0] == mr[0]);
        }
    }
    assert(has_prefix(pr, "pr/"@)) by {
        assert(pr.take(3) =~= "pr/"@);
    }
    assert(!has_prefix(mr, "pr/"@)) by {
        if has_prefix(mr, "pr/"@) {
            assert(mr.take(3)[0] == mr[0]);
        }
    }
    assert(has_prefix(mr, "mr/"@)) by {
        assert(mr.take(3) =~= "mr/"@);
    }
    assert(after(pr, "pr/"@) =~= rest);
    assert(after(mr, "mr/"@) =~= rest);
    assert("github"@ != "gitlab"@) by {
        assert("github"@[3] != "gitlab"@[3]);
    }
}

/// The forms of a forge reference agree where the configured repository is
/// `owner/name`: `::path`, `owner::path`, `:name:path` and `owner:name:path`
/// all resolve to the same URL, each empty part filled from the
/// configuration.
pub proof fn lemma_forge_forms_agree(
    tag: Seq<char>,
    host: Seq<char>,
    platform: Seq<char>,
    missing: Seq<char>,
    owner: Seq<char>,
    name: Seq<char>,
    path: Seq<char>,
)
    requires
        owner.len() > 0,
        name.len() > 0,
        forall|i: int| 0 <= i < owner.len() ==> #[trigger] owner[i] != '/' && owner[i] != ':',
        forall|i: int| 0 <= i < name.len() ==> #[trigger] name[i] != '/' && name[i] != ':',
    ensures
        ({
            let repo = Some(owner + seq!['/'] + name);
            let url = host + owner + seq!['/'] + name + seq!['/'] + spec_convert_forge_path(
                path,
                platform,
            );
            &&& spec_resolve_forge(tag, repo, host, platform, missing, seq![':', ':'] + path)
                == Ok::<Seq<char>, ErrorView>(url)
            &&& spec_resolve_forge(tag, repo, host, platform, missing, owner + seq![':', ':'] + path)
                == Ok::<Seq<char>, ErrorView>(url)
            &&& spec_resolve_forge(
                tag,
                repo,
                host,
                platform,
                missing,
                owner + seq![':'] + name + seq![':'] + path,
            ) == Ok::<Seq<char>, ErrorView>(url)
            &&& spec_resolve_forge(tag, repo, host, platform, missing, seq![':'] + name + seq![':'] + path)
                == Ok::<Seq<char>, ErrorView>(url)
        }),
{
    let r = owner + seq!['/'] + name;
    let ol = owner.len() as int;
    let nl = name.len() as int;
    // The configured repository splits at its one `/`.
    lemma_index_of_from_at(r, '/', 0, ol);
    assert(r.take(ol) =~= owner);
    assert(r.skip(ol + 1) =~= name);
    lemma_index_of_from(r, '/', ol + 1);
    assert(index_of_from(r, '/', ol + 1) is None) by {
        if index_of_from(r, '/', ol + 1) is Some {
            let m = index_of_from(r, '/', ol + 1)->Some_0;
            assert(r[m] == name[m - ol - 1]);
        }
    }
    // `::path`
    let v1 = seq![':', ':'] + path;
    lemma_index_of_from_at(v1, ':', 0, 0);
    lemma_index_of_from_at(v1, ':', 1, 1);
    assert(v1.take(0) =~= Seq::<char>::empty());
    assert(v1.subrange(1, 1) =~= Seq::<char>::empty());
    assert(v1.skip(2) =~= path);
    // `owner::path`
    let v2 = owner + seq![':', ':'] + path;
    lemma_index_of_from_at(v2, ':', 0, ol);
    lemma_index_of_from_at(v2, ':', ol + 1, ol + 1);
    assert(v2.take(ol) =~= owner);
    assert(v2.subrange(ol + 1, ol + 1) =~= Seq::<char>::empty());
    assert(v2.skip(ol + 2) =~= path);
    // `owner:name:path`
    let v3 = owner + seq![':'] + name + seq![':'] + path;
    lemma_index_of_from_at(v3, ':', 0, ol);
    assert forall|j: int| ol + 1 <= j < ol + 1 + nl implies v3[j] != ':' by {
        assert(v3[j] == name[j - ol - 1]);
    }
    lemma_index_of_from_at(v3, ':', ol + 1, ol + 1 + nl);
    assert(v3.take(ol) =~= owner);
    assert(v3.subrange(ol + 1, ol + 1 + nl) =~= name);
    assert(v3.skip(ol + 2 + nl) =~= path);
    // `:name:path`
    let v4 = seq![':'] + name + seq![':'] + path;
    lemma_index_of_from_at(v4, ':', 0, 0);
    assert forall|j: int| 1 <= j < 1 + nl implies v4[j] != ':' by {
        assert(v4[j] == name[j - 1]);
    }
    lemma_index_of_from_at(v4, ':', 1, 1 + nl);
    assert(v4.take(0) =~= Seq::<char>::empty());
    assert(v4.subrange(1, 1 + nl) =~= name);
    assert(v4.skip(2 + nl) =~= path);
}

/// A forge reference value splits into parts exactly when it holds a `:`,
/// and is then its owner, repository and path joined by `:` (or, with one
/// `:`, its owner and path); owner and repository hold no `:`, and a `:`
/// after the second stays in the path.
pub proof fn lemma_forge_parts_round_trip(v: Seq<char>)
    ensures
        forge_parts(v) is Some <==> exists|k: int| 0 <= k < v.len() && v[k] == ':',
        forge_parts(v) matches Some((o, r, p)) ==> {
            &&& forall|i: int| 0 <= i < o.len() ==> #[trigger] o[i] != ':'
            &&& forall|i: int| 0 <= i < r.len() ==> #[trigger] r[i] != ':'
            &&& (v == o + seq![':'] + r + seq![':'] + p || (r.len() == 0 && (forall|i: int|
                0 <= i < p.len() ==> #[trigger] p[i] != ':') && v == o + seq![':'] + p))
        },
{
    lemma_index_of_from(v, ':', 0);
    if let Some(i) = index_of(v, ':') {
        lemma_index_of_from(v, ':', i + 1);
        let o = v.take(i);
        assert forall|k: int| 0 <= k < o.len() implies #[trigger] o[k] != ':' by {
            assert(o[k] == v[k]);
        }
        match index_of_from(v, ':', i + 1) {
            None => {
                let p = v.skip(i + 1);
                assert forall|k: int| 0 <= k < p.len() implies #[trigger] p[k] != ':' by {
                    assert(p[k] == v[i + 1 + k]);
                }
                assert(v =~= o + seq![':'] + p);
                assert(v[i] == ':');
            },
            Some(j) => {
                let r = v.subrange(i + 1, j);
                assert forall|k: int| 0 <= k < r.len() implies #[trigger] r[k] != ':' by {
                    assert(r[k] == v[i + 1 + k]);
                }
                assert(v =~= o + seq![':'] + r + seq![':'] + v.skip(j + 1));
                assert(v[i] == ':');
            },
        }
    }
}

/// An owner given without a repository is kept, whatever the configured
/// owner: `owner::path` resolves under `owner` and the configured
/// repository's name.
pub proof fn lemma_given_owner_kept(
    tag: Seq<char>,
    host: Seq<char>,
    platform: Seq<char>,
    missing: Seq<char>,
    owner: Seq<char>,
    configured_owner: Seq<char>,
    name: Seq<char>,
    path: Seq<char>,
)
    requires
        owner.len() > 0,
        forall|i: int| 0 <= i < owner.len() ==> #[trigger] owner[i] != ':',
        forall|i: int| 0 <= i < configured_owner.len() ==> #[trigger] configured_owner[i] != '/',
        forall|i: int| 0 <= i < name.len() ==> #[trigger] name[i] != '/',
    ensures
        spec_resolve_forge(
            tag,
            Some(configured_owner + seq!['/'] + name),
            host,
            platform,
            missing,
            owner + seq![':', ':'] + path,
        ) == Ok::<Seq<char>, ErrorView>(
            host + owner + seq!['/'] + name + seq!['/'] + spec_convert_forge_path(path, platform),
        ),
{
    let ol = owner.len() as int;
    let v = owner + seq![':', ':'] + path;
    lemma_index_of_from_at(v, ':', 0, ol);
    lemma_index_of_from_at(v, ':', ol + 1, ol + 1);
    assert(v.take(ol) =~= owner);
    assert(v.subrange(ol + 1, ol + 1) =~= Seq::<char>::empty());
    assert(v.skip(ol + 2) =~= path);
    let r = configured_owner + seq!['/'] + name;
    let cl = configured_owner.len() as int;
    lemma_index_of_from_at(r, '/', 0, cl);
    lemma_index_of_from(r, '/', cl + 1);
    assert(index_of_from(r, '/', cl + 1) is None) by {
        if index_of_from(r, '/', cl + 1) is Some {
            let m = index_of_from(r, '/', cl + 1)->Some_0;
            assert(r[m] == name[m - cl - 1]);
        }
    }
    assert(r.skip(cl + 1) =~= name);
}

/// `:path`, with one `:`, leaves both owner and repository to the
/// configuration: it resolves under the configured `owner/name`.
pub proof fn lemma_short_form_uses_configuration(
    tag: Seq<char>,
    host: Seq<char>,
    platform: Seq<char>,
    missing: Seq<char>,
    owner: Seq<char>,
    name: Seq<char>,
    path: Seq<char>,
)
    requires
        forall|i: int| 0 <= i < owner.len() ==> #[trigger] owner[i] != '/',
        forall|i: int| 0 <= i < path.len() ==> #[trigger] path[i] != ':',
    ensures
        spec_resolve_forge(
            tag,
            Some(owner + seq!['/'] + name),
            host,
            platform,
            missing,
            seq![':'] + path,
        ) == Ok::<Seq<char>, ErrorView>(
            host + owner + seq!['/'] + name + seq!['/'] + spec_convert_forge_path(path, platform),
        ),
{
    let v = seq![':'] + path;
    lemma_index_of_from_at(v, ':', 0, 0);
    lemma_index_of_from(v, ':', 1);
    assert(index_of_from(v, ':', 1) is None) by {
        if index_of_from(v, ':', 1) is Some {
            let m = index_of_from(v, ':', 1)->Some_0;
            assert(v[m] == path[m - 1]);
        }
    }
    assert(v.take(0) =~= Seq::<char>::empty());
    assert(v.skip(1) =~= path);
    let r = owner + seq!['/'] + name;
    let ol = owner.len() as int;
    lemma_index_of_from_at(r, '/', 0, ol);
    assert(r.take(ol) =~= owner);
    assert(r.skip(ol + 1) =~= name);
}

/// An explicit owner and repository win over the configuration: whatever
/// repository is configured, `owner:name:path` resolves under `owner/name`.
pub proof fn lemma_explicit_repository_wins(
    tag: Seq<char>,
    repo: Option<Seq<char>>,
    host: Seq<char>,
    platform: Seq<char>,
    missing: Seq<char>,
    owner: Seq<char>,
    name: Seq<char>,
    path: Seq<char>,
)
    requires
        owner.len() > 0,
        name.len() > 0,
        forall|i: int| 0 <= i < owner.len() ==> #[trigger] owner[i] != ':',
        forall|i: int| 0 <= i < name.len() ==> #[trigger] name[i] != ':',
    ensures
        spec_resolve_forge(tag, repo, host, platform, missing, owner + seq![':'] + name + seq![':'] + path)
            == Ok::<Seq<char>, ErrorView>(
            host + owner + seq!['/'] + name + seq!['/'] + spec_convert_forge_path(path, platform),
        ),
{
    let ol = owner.len() as int;
    let nl = name.len() as int;
    let v = owner + seq![':'] + name + seq![':'] + path;
    lemma_index_of_from_at(v, ':', 0, ol);
    assert forall|j: int| ol + 1 <= j < ol + 1 + nl implies v[j] != ':' by {
        assert(v[j] == name[j - ol - 1]);
    }
    lemma_index_of_from_at(v, ':', ol + 1, ol + 1 + nl);
    assert(v.take(ol) =~= owner);
    assert(v.subrange(ol + 1, ol + 1 + nl) =~= name);
    assert(v.skip(ol + 2 + nl) =~= path);
}

} // verus!
