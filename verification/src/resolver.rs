//! Reference resolution logic.

use vstd::prelude::*;

use crate::config::Config;
use crate::uuid_index::{lookup_uuid, spec_resolve_uuid};
use crate::reference::Reference;
use crate::error::{result_view, Error, ErrorView};
use crate::forge::{
    configured_pair, configured_second, forge_parts, forge_syntax_reason, no_repository_reason,
    reference_text, spec_convert_forge_path, spec_resolve_forge, spec_resolve_github,
    spec_resolve_gitlab,
};
use crate::paths::{
    components, copy_chars, count_common, has_leading_components, join_components, join_path,
    parent_components, path_components, push_component, push_path, raw_remainder, raw_remainder_of,
    relative_components, seqs_of, lemma_components_join, lemma_relative_below,
    lemma_relative_round_trip, plain_names, walk, strip_components, is_plain, all_named,
    lemma_parent_of_named, strip_leading_components, strip_or_keep,
};
use crate::text::{
    append_str, find_char, head_then_rest, lemma_index_of_from, push_char, replace, replace_all,
    starts_with, str_chars, str_eq, string_of,
};

verus! {

/// The characters of an optional string.
pub open spec fn text_of(o: Option<String>) -> Option<Seq<char>> {
    match o {
        Some(s) => Some(s@),
        None => None,
    }
}

/// The text `prefix:value`.
fn reference_string(prefix: &str, value: &str) -> (r: String)
    ensures
        r@ == reference_text(prefix@, value@),
{
    let mut out = prefix.to_owned();
    push_char(&mut out, ':');
    append_str(&mut out, value);
    out
}

/// The owner and repository of a configured `owner/repo`.
fn split_configured(repo: &Option<String>) -> (r: Option<(String, String)>)
    ensures
        match configured_pair(text_of(*repo)) {
            None => r is None,
            Some((o, n)) => r matches Some((a, b)) && a@ == o && b@ == n,
        },
{
    match repo {
        None => None,
        Some(text) => {
            let cs = str_chars(text.as_str());
            let len = cs.len();
            match find_char(cs.as_slice(), '/', 0) {
                None => None,
                Some(k) => {
                    proof {
                        lemma_index_of_from(cs@, '/', 0);
                    }
                    let owner = string_of(&cs[0..k]);
                    let name = string_of(&cs[k + 1..len]);
                    assert(cs@.subrange(0, k as int) =~= cs@.take(k as int));
                    assert(cs@.subrange(k + 1, len as int) =~= cs@.skip(k + 1));
                    Some((owner, name))
                },
            }
        },
    }
}

/// The second `/`-separated piece of a configured `owner/repo`.
fn second_configured(repo: &Option<String>) -> (r: Option<String>)
    ensures
        match configured_second(text_of(*repo)) {
            None => r is None,
            Some(n) => r matches Some(b) && b@ == n,
        },
{
    match repo {
        None => None,
        Some(text) => {
            let cs = str_chars(text.as_str());
            let len = cs.len();
            match find_char(cs.as_slice(), '/', 0) {
                None => None,
                Some(k) => {
                    proof {
                        lemma_index_of_from(cs@, '/', 0);
                    }
                    match find_char(cs.as_slice(), '/', k + 1) {
                        Some(m) => {
                            proof {
                                lemma_index_of_from(cs@, '/', k + 1);
                            }
                            Some(string_of(&cs[k + 1..m]))
                        },
                        None => {
                            let name = string_of(&cs[k + 1..len]);
                            assert(cs@.subrange(k + 1, len as int) =~= cs@.skip(k + 1));
                            Some(name)
                        },
                    }
                },
            }
        },
    }
}

/// The characters of an optional string slice.
pub open spec fn str_opt(o: Option<&str>) -> Option<Seq<char>> {
    match o {
        Some(s) => Some(s@),
        None => None,
    }
}

/// Whether `glob::glob` accepts `pattern`: the pattern as a whole, and each
/// of its `/`-separated parts, compile as glob patterns.
pub uninterp spec fn glob_accepts(pattern: Seq<char>) -> bool;

/// Whether `path` matches glob pattern `pattern`, as `glob::glob` matches
/// the paths it yields.
pub uninterp spec fn glob_matches(pattern: Seq<char>, path: Seq<char>) -> bool;

/// Every readable entry of `items` matches `pattern`.
pub open spec fn all_match(pattern: Seq<char>, items: Seq<Option<Seq<char>>>) -> bool {
    forall|i: int|
        0 <= i < items.len() ==> (#[trigger] items[i] matches Some(p) ==> glob_matches(pattern, p))
}

/// `glob::glob`, with each path it yields read as text (`None` for an entry
/// it could not read), or the pattern's syntax error. The contract claims
/// that the pattern is refused exactly when `glob_accepts` says so, which
/// `glob::glob` decides from the pattern alone (by `Pattern::new` on it and
/// on its parts, split at separators as on Unix), and that every path it
/// yields matches the pattern (`glob_matches`), as its documentation says.
/// Which of the matching paths exist depends on what is on disk, and is not
/// stated; nor is the order.
#[verifier::external_body]
fn glob_paths(pattern: &str) -> (r: Result<Vec<Option<String>>, glob::PatternError>)
    ensures
        r is Ok == glob_accepts(pattern@),
        r matches Ok(v) ==> forall|i: int|
            0 <= i < v@.len() ==> (#[trigger] v@[i] matches Some(p) ==> glob_matches(
                pattern@,
                p@,
            )),
{
    match glob::glob(pattern) {
        Ok(paths) => {
            let mut found = Vec::new();
            for entry in paths {
                found.push(entry.ok().map(|p| p.to_string_lossy().into_owned()));
            }
            Ok(found)
        },
        Err(e) => Err(e),
    }
}

/// What glob found, read as plain values: `None` for a refused pattern,
/// else each entry's text or `None` for an unreadable entry.
pub open spec fn found_view(found: Result<Vec<Option<String>>, glob::PatternError>) -> Option<
    Seq<Option<Seq<char>>>,
> {
    match found {
        Err(_) => None,
        Ok(items) => Some(items@.map_values(|o: Option<String>| text_of(o))),
    }
}

/// The readable entries of what glob found, in order.
pub open spec fn readable_paths(found: Seq<Option<Seq<char>>>) -> Seq<Seq<char>>
    decreases found.len(),
{
    if found.len() == 0 {
        Seq::empty()
    } else {
        match found.last() {
            Some(p) => readable_paths(found.drop_last()).push(p),
            None => readable_paths(found.drop_last()),
        }
    }
}

/// The glob pattern for a reference value: `{id}`, then `{path}`, replaced
/// by the value.
pub open spec fn file_glob_pattern(pattern: Seq<char>, value: Seq<char>) -> Seq<char> {
    replace_all(replace_all(pattern, "{id}"@, value), "{path}"@, value)
}

/// The relative path from directory `from` (its components) to `to`, both
/// read below `root` where they lie below it.
pub open spec fn spec_relative(root: Seq<char>, from: Seq<Seq<char>>, to: Seq<char>) -> Seq<char> {
    let base = components(root);
    join_components(
        relative_components(strip_or_keep(from, base), strip_or_keep(components(to), base)),
    )
}

/// `target` below `root`, as `Path::strip_prefix` gives its text, or
/// `target` itself where it is not below `root`.
pub open spec fn spec_root_relative(root: Seq<char>, target: Seq<char>) -> Seq<char> {
    match strip_components(components(target), components(root)) {
        Some(_) => raw_remainder(target, components(root).len()),
        None => target,
    }
}

/// What a file reference resolves to once glob has answered: the one
/// matching file, relative to the chapter's directory (or to the root when
/// there is no chapter), or the error for no match, several matches, or a
/// refused pattern.
pub open spec fn spec_select(
    root: Seq<char>,
    prefix: Seq<char>,
    value: Seq<char>,
    glob_pattern: Seq<char>,
    found: Option<Seq<Option<Seq<char>>>>,
    chapter: Option<Seq<char>>,
) -> Result<Seq<char>, ErrorView> {
    let reference = reference_text(prefix, value);
    match found {
        None => Err(ErrorView::GlobPattern),
        Some(items) => {
            let matches = readable_paths(items);
            if matches.len() == 0 {
                Err(ErrorView::FileNotFound { pattern: glob_pattern, reference })
            } else if matches.len() == 1 {
                Ok(
                    match chapter {
                        Some(c) => spec_relative(root, parent_components(components(c)), matches[0]),
                        None => spec_root_relative(root, matches[0]),
                    },
                )
            } else {
                Err(ErrorView::AmbiguousReference { reference, files: matches })
            }
        },
    }
}

/// A file reference in a chapter resolves to what `relative_path` gives
/// from the chapter's directory: from any path `dir` with the components of
/// the chapter's parent (for `docs/src/chapter1.md`, `docs/src`).
pub proof fn lemma_chapter_relative(
    root: Seq<char>,
    prefix: Seq<char>,
    value: Seq<char>,
    glob_pattern: Seq<char>,
    items: Seq<Option<Seq<char>>>,
    chapter: Seq<char>,
    dir: Seq<char>,
)
    requires
        components(dir) == parent_components(components(chapter)),
        readable_paths(items).len() == 1,
    ensures
        spec_select(root, prefix, value, glob_pattern, Some(items), Some(chapter)) == Ok::<
            Seq<char>,
            ErrorView,
        >(spec_relative(root, components(dir), readable_paths(items)[0])),
{
}

/// The relative path leads back to its target. Read below the root (where
/// they lie below it), let `f` be the components of `from` and `t` those of
/// `to`, both plain names: the components of the path `relative_path` gives
/// are `f`'s way up and `t`'s way down, and walking them from `f`, each `..`
/// leaving the last directory entered, reaches `t`. Where `f` leads along
/// the way to `t`, the path holds no `..`: it is the rest of `t`.
pub proof fn lemma_relative_path_round_trip(root: Seq<char>, from: Seq<char>, to: Seq<char>)
    requires
        plain_names(strip_or_keep(components(from), components(root))),
        plain_names(strip_or_keep(components(to), components(root))),
    ensures
        ({
            let f = strip_or_keep(components(from), components(root));
            let t = strip_or_keep(components(to), components(root));
            let way = components(spec_relative(root, components(from), to));
            &&& way == relative_components(f, t)
            &&& walk(f, way) == t
            &&& (f.len() <= t.len() && t.take(f.len() as int) == f) ==> way == t.skip(
                f.len() as int,
            )
        }),
{
    let f = strip_or_keep(components(from), components(root));
    let t = strip_or_keep(components(to), components(root));
    let rel = relative_components(f, t);
    crate::paths::lemma_common_len(f, t);
    let n = crate::paths::common_len(f, t) as int;
    assert forall|i: int| 0 <= i < rel.len() implies is_plain(#[trigger] rel[i]) by {
        if i < f.len() - n {
            assert(rel[i] == seq!['.', '.']);
        } else {
            assert(rel[i] == t[i - (f.len() - n) + n]);
        }
    }
    lemma_components_join(rel);
    assert(all_named(f)) by {
        assert forall|i: int| 0 <= i < f.len() implies #[trigger] f[i] != seq!['/'] && f[i] != seq![
            '.',
        ] && f[i] != seq!['.', '.'] by {
            assert(is_plain(f[i]));
            assert(seq!['/'][0] == '/');
        }
    }
    assert(all_named(t)) by {
        assert forall|i: int| 0 <= i < t.len() implies #[trigger] t[i] != seq!['/'] && t[i] != seq![
            '.',
        ] && t[i] != seq!['.', '.'] by {
            assert(is_plain(t[i]));
            assert(seq!['/'][0] == '/');
        }
    }
    lemma_relative_round_trip(f, t);
    if f.len() <= t.len() && t.take(f.len() as int) == f {
        lemma_relative_below(f, t);
    }
}

/// The paths in glob's answer that could be read, in the order given.
pub open spec fn answered_paths(items: Seq<Option<Seq<char>>>) -> Seq<Seq<char>> {
    items.filter(|o: Option<Seq<char>>| o is Some).map_values(|o: Option<Seq<char>>| o->Some_0)
}

/// `readable_paths` keeps the readable entries of glob's answer, in order.
proof fn lemma_readable_paths_answered(items: Seq<Option<Seq<char>>>)
    ensures
        readable_paths(items) == answered_paths(items),
    decreases items.len(),
{
    reveal(Seq::filter);
    if items.len() > 0 {
        lemma_readable_paths_answered(items.drop_last());
        let pred = |o: Option<Seq<char>>| o is Some;
        let f = |o: Option<Seq<char>>| o->Some_0;
        let front = items.drop_last().filter(pred);
        if items.last() is Some {
            assert(items.filter(pred) == front.push(items.last()));
            assert(front.push(items.last()).map_values(f) =~= front.map_values(f).push(
                items.last()->Some_0,
            ));
        } else {
            assert(items.filter(pred) == front);
        }
    }
}

/// What a file reference resolves to is decided by every readable path in
/// glob's answer: none is a missing file, several are refused as ambiguous
/// with all of them listed in glob's order, and exactly one is the answer.
pub proof fn lemma_selection_uses_every_path(
    root: Seq<char>,
    prefix: Seq<char>,
    value: Seq<char>,
    glob_pattern: Seq<char>,
    items: Seq<Option<Seq<char>>>,
    chapter: Option<Seq<char>>,
)
    ensures
        ({
            let paths = answered_paths(items);
            let reference = prefix + seq![':'] + value;
            let out = spec_select(root, prefix, value, glob_pattern, Some(items), chapter);
            &&& paths.len() == 0 ==> out == Err::<Seq<char>, ErrorView>(
                ErrorView::FileNotFound { pattern: glob_pattern, reference },
            )
            &&& paths.len() >= 2 ==> out == Err::<Seq<char>, ErrorView>(
                ErrorView::AmbiguousReference { reference, files: paths },
            )
            &&& paths.len() == 1 ==> out is Ok
        }),
{
    lemma_readable_paths_answered(items);
}

/// A chapter at a single plain name (a top-level chapter) lies in the book's
/// root directory: the file it refers to is given by its path below the
/// root, with no `..`, where that path is made of plain names.
pub proof fn lemma_top_level_chapter(
    root: Seq<char>,
    prefix: Seq<char>,
    value: Seq<char>,
    glob_pattern: Seq<char>,
    items: Seq<Option<Seq<char>>>,
    chapter: Seq<char>,
)
    requires
        is_plain(chapter),
        answered_paths(items).len() == 1,
        plain_names(strip_or_keep(components(answered_paths(items)[0]), components(root))),
    ensures
        spec_select(root, prefix, value, glob_pattern, Some(items), Some(chapter)) matches Ok(p)
            && components(p) == strip_or_keep(
            components(answered_paths(items)[0]),
            components(root),
        ),
{
    lemma_readable_paths_answered(items);
    let t = strip_or_keep(components(answered_paths(items)[0]), components(root));
    assert forall|i: int| 0 <= i < seq![chapter].len() implies is_plain(#[trigger] seq![chapter][i]) by {}
    lemma_components_join(seq![chapter]);
    let e = Seq::<Seq<char>>::empty();
    assert(seq![chapter] =~= e.push(chapter));
    assert(seq![chapter].drop_last() =~= e);
    assert(join_components(e) == Seq::<char>::empty());
    assert(chapter[0] != '/');
    assert(Seq::<char>::empty() + chapter =~= chapter);
    assert(join_components(seq![chapter]) == chapter);
    lemma_parent_of_named(e, chapter);
    assert(parent_components(components(chapter)) == e);
    assert(t.take(0) =~= e);
    lemma_relative_below(e, t);
    assert(t.skip(0) =~= t);
    let rel = relative_components(e, t);
    assert forall|i: int| 0 <= i < rel.len() implies is_plain(#[trigger] rel[i]) by {
        assert(rel[i] == t[i]);
    }
    lemma_components_join(rel);
    assert(strip_or_keep(e, components(root)) == e) by {
        assert(e.skip(0) =~= e);
    }
}

/// The components of the parent of the path with components `c`.
fn parent_of(c: Vec<Vec<char>>) -> (r: Vec<Vec<char>>)
    ensures
        seqs_of(r@) == parent_components(seqs_of(c@)),
{
    let mut c = c;
    let n = c.len();
    if n == 0 {
        let empty: Vec<Vec<char>> = Vec::new();
        assert(seqs_of(empty@) =~= Seq::<Seq<char>>::empty());
        return empty;
    }
    let last_is_root = c[n - 1].len() == 1 && c[n - 1][0] == '/';
    assert(last_is_root == (seqs_of(c@).last() =~= seq!['/']));
    if last_is_root {
        let empty: Vec<Vec<char>> = Vec::new();
        assert(seqs_of(empty@) =~= Seq::<Seq<char>>::empty());
        empty
    } else {
        let ghost before = seqs_of(c@);
        c.pop();
        assert(seqs_of(c@) =~= before.drop_last());
        c
    }
}

/// Resolves references to their full paths.
pub struct ReferenceResolver {
    config: Config,
    root: String,
    uuid_index: Option<String>,
}

impl ReferenceResolver {
    /// The configuration the resolver was made with.
    pub closed spec fn config(self) -> Config {
        self.config
    }

    /// The book root the resolver was made with.
    pub closed spec fn root(self) -> Seq<char> {
        self.root@
    }

    /// The text of the UUID index the resolver holds, if one was given.
    pub closed spec fn uuid_index(self) -> Option<Seq<char>> {
        text_of(self.uuid_index)
    }

    /// Create a new resolver with the given configuration.
    pub fn new(config: Config, root: String) -> (r: Self)
        ensures
            r.config() == config,
            r.root() == root@,
            r.uuid_index() is None,
    {
        Self { config, root, uuid_index: None }
    }

    /// The resolver with the UUID index whose text is `index` (lines
    /// `<uuid> <path>`, read from the file that the configuration's
    /// `uuid_index` names).
    pub fn with_uuid_index(self, index: String) -> (r: Self)
        ensures
            r.config() == self.config(),
            r.root() == self.root(),
            r.uuid_index() == Some(index@),
    {
        Self { config: self.config, root: self.root, uuid_index: Some(index) }
    }

    /// Parse a forge reference in the format owner:repo:path
    /// Supports: ::path (both empty), :repo:path (owner empty), owner::path (repo empty)
    fn parse_forge_reference(&self, value: &str, prefix: &str) -> (r: Result<
        (String, String, String),
        Error,
    >)
        ensures
            match forge_parts(value@) {
                None => r matches Err(e) && e@ == ErrorView::InvalidSyntax {
                    reference: reference_text(prefix@, value@),
                    reason: forge_syntax_reason(),
                },
                Some((o, n, p)) => r matches Ok((a, b, c)) && a@ == o && b@ == n && c@ == p,
            },
    {
        let cs = str_chars(value);
        let len = cs.len();
        proof {
            lemma_index_of_from(cs@, ':', 0);
        }
        let i = match find_char(cs.as_slice(), ':', 0) {
            None => {
                return Err(
                    Error::InvalidSyntax {
                        reference: reference_string(prefix, value),
                        reason: "Forge references must use format owner:repo:path or ::path".to_owned(),
                    },
                );
            },
            Some(i) => i,
        };
        proof {
            lemma_index_of_from(cs@, ':', i + 1);
        }
        let owner = string_of(&cs[0..i]);
        assert(cs@.subrange(0, i as int) =~= cs@.take(i as int));
        match find_char(cs.as_slice(), ':', i + 1) {
            None => {
                let path = string_of(&cs[i + 1..len]);
                assert(cs@.subrange(i + 1, len as int) =~= cs@.skip(i + 1));
                Ok((owner, String::new(), path))
            },
            Some(j) => {
                let repo = string_of(&cs[i + 1..j]);
                let path = string_of(&cs[j + 1..len]);
                assert(cs@.subrange(j + 1, len as int) =~= cs@.skip(j + 1));
                Ok((owner, repo, path))
            },
        }
    }

    /// Convert forge path shorthand to full URL path.
    fn convert_forge_path(&self, path: &str, platform: &str) -> (r: String)
        ensures
            r@ == spec_convert_forge_path(path@, platform@),
    {
        let pc = str_chars(path);
        let issue = str_chars("issue/");
        if starts_with(pc.as_slice(), issue.as_slice()) {
            return head_then_rest("issues/", pc.as_slice(), issue.len());
        }
        let pr = str_chars("pr/");
        if starts_with(pc.as_slice(), pr.as_slice()) {
            if str_eq(platform, "github") {
                return head_then_rest("pull/", pc.as_slice(), pr.len());
            } else {
                return head_then_rest("-/merge_requests/", pc.as_slice(), pr.len());
            }
        }
        let mr = str_chars("mr/");
        if starts_with(pc.as_slice(), mr.as_slice()) {
            if str_eq(platform, "gitlab") {
                return head_then_rest("-/merge_requests/", pc.as_slice(), mr.len());
            } else {
                return head_then_rest("pull/", pc.as_slice(), mr.len());
            }
        }
        let commit = str_chars("commit/");
        if starts_with(pc.as_slice(), commit.as_slice()) {
            if str_eq(platform, "gitlab") {
                return head_then_rest("-/commit/", pc.as_slice(), commit.len());
            }
            return head_then_rest("commit/", pc.as_slice(), commit.len());
        }
        let blob = str_chars("blob/");
        if starts_with(pc.as_slice(), blob.as_slice()) {
            if str_eq(platform, "gitlab") {
                return head_then_rest("-/blob/", pc.as_slice(), blob.len());
            }
            return head_then_rest("blob/", pc.as_slice(), blob.len());
        }
        path.to_owned()
    }

    /// Resolve a reference `tag:value` to a repository on a forge at `host`.
    fn resolve_forge(
        &self,
        value: &str,
        tag: &str,
        repo: &Option<String>,
        host: &str,
        platform: &str,
        missing: &str,
    ) -> (r: Result<String, Error>)
        ensures
            result_view(r) == spec_resolve_forge(
                tag@,
                text_of(*repo),
                host@,
                platform@,
                missing@,
                value@,
            ),
    {
        let (owner, repo_part, path) = match self.parse_forge_reference(value, tag) {
            Ok(parts) => parts,
            Err(e) => return Err(e),
        };
        let (o, n) = if owner.as_str().is_empty() && repo_part.as_str().is_empty() {
            match split_configured(repo) {
                Some(pair) => pair,
                None => {
                    return Err(
                        Error::Resolution {
                            reference: reference_string(tag, value),
                            reason: missing.to_owned(),
                        },
                    );
                },
            }
        } else if repo_part.as_str().is_empty() {
            match second_configured(repo) {
                Some(name) => (owner, name),
                None => {
                    return Err(
                        Error::Resolution {
                            reference: reference_string(tag, value),
                            reason: "No repository specified and none configured".to_owned(),
                        },
                    );
                },
            }
        } else if owner.as_str().is_empty() {
            match split_configured(repo) {
                Some((configured_owner, _)) => (configured_owner, repo_part),
                None => (owner, repo_part),
            }
        } else {
            (owner, repo_part)
        };
        let converted = self.convert_forge_path(path.as_str(), platform);
        let mut url = host.to_owned();
        append_str(&mut url, o.as_str());
        push_char(&mut url, '/');
        append_str(&mut url, n.as_str());
        push_char(&mut url, '/');
        append_str(&mut url, converted.as_str());
        assert(url@ =~= host@ + o@ + seq!['/'] + n@ + seq!['/'] + converted@);
        Ok(url)
    }

    /// Resolve a GitHub reference.
    /// Format: gh:owner:repo:type/id or gh:::type/id (uses configured repo)
    fn resolve_github(&self, value: &str) -> (r: Result<String, Error>)
        ensures
            result_view(r) == spec_resolve_github(text_of(self.config().github_repo), value@),
    {
        self.resolve_forge(
            value,
            "gh",
            &self.config.github_repo,
            "https://github.com/",
            "github",
            "No GitHub repository configured",
        )
    }

    /// Resolve a GitLab reference.
    fn resolve_gitlab(&self, value: &str) -> (r: Result<String, Error>)
        ensures
            result_view(r) == spec_resolve_gitlab(text_of(self.config().gitlab_repo), value@),
    {
        self.resolve_forge(
            value,
            "gl",
            &self.config.gitlab_repo,
            "https://gitlab.com/",
            "gitlab",
            "No GitLab repository configured",
        )
    }

    /// Resolve a UUID reference (lookup in the index).
    fn resolve_uuid(&self, value: &str) -> (r: Result<String, Error>)
        ensures
            result_view(r) == spec_resolve_uuid(self.uuid_index(), value@),
    {
        match &self.uuid_index {
            None => Err(
                Error::Resolution {
                    reference: reference_string("uuid", value),
                    reason: "No UUID index configured".to_owned(),
                },
            ),
            Some(index) => {
                let text = str_chars(index.as_str());
                let key = str_chars(value);
                match lookup_uuid(text.as_slice(), key.as_slice()) {
                    Some(path) => Ok(string_of(path.as_slice())),
                    None => Err(
                        Error::Resolution {
                            reference: reference_string("uuid", value),
                            reason: "UUID not found in index".to_owned(),
                        },
                    ),
                }
            },
        }
    }

    /// Whether reference `prefix:value`, in a chapter at `chapter`, may
    /// resolve to `out` by the book's file patterns: every outcome that
    /// glob's answer allows.
    pub open spec fn file_outcome(
        self,
        prefix: Seq<char>,
        value: Seq<char>,
        chapter: Option<Seq<char>>,
        out: Result<Seq<char>, ErrorView>,
    ) -> bool {
        let prefixes = self.config().prefixes@;
        if !prefixes.contains_key(prefix) {
            out == Err::<Seq<char>, ErrorView>(
                ErrorView::UnknownPrefix { prefix, reference: reference_text(prefix, value) },
            )
        } else {
            let glob_pattern = file_glob_pattern(prefixes[prefix], value);
            let full = push_path(self.root(), glob_pattern);
            if !glob_accepts(full) {
                out == Err::<Seq<char>, ErrorView>(ErrorView::GlobPattern)
            } else {
                exists|items: Seq<Option<Seq<char>>>|
                    all_match(full, items) && out == spec_select(
                        self.root(),
                        prefix,
                        value,
                        glob_pattern,
                        Some(items),
                        chapter,
                    )
            }
        }
    }

    /// Whether reference `prefix:value`, in a chapter at `chapter`, may
    /// resolve to `out`: `gh`, `gl` and `uuid` references resolve to one
    /// outcome, and any other prefix is looked up among the file patterns.
    pub open spec fn resolves_to(
        self,
        prefix: Seq<char>,
        value: Seq<char>,
        chapter: Option<Seq<char>>,
        out: Result<Seq<char>, ErrorView>,
    ) -> bool {
        if prefix == "gh"@ {
            out == spec_resolve_github(text_of(self.config().github_repo), value)
        } else if prefix == "gl"@ {
            out == spec_resolve_gitlab(text_of(self.config().gitlab_repo), value)
        } else if prefix == "uuid"@ {
            out == spec_resolve_uuid(self.uuid_index(), value)
        } else {
            self.file_outcome(prefix, value, chapter, out)
        }
    }

    /// Every reference has some outcome it may resolve to.
    pub proof fn lemma_outcome_exists(
        self,
        prefix: Seq<char>,
        value: Seq<char>,
        chapter: Option<Seq<char>>,
    )
        ensures
            exists|out: Result<Seq<char>, ErrorView>| self.resolves_to(prefix, value, chapter, out),
    {
        let prefixes = self.config().prefixes@;
        if prefix == "gh"@ {
            assert(self.resolves_to(
                prefix,
                value,
                chapter,
                spec_resolve_github(text_of(self.config().github_repo), value),
            ));
        } else if prefix == "gl"@ {
            assert(self.resolves_to(
                prefix,
                value,
                chapter,
                spec_resolve_gitlab(text_of(self.config().gitlab_repo), value),
            ));
        } else if prefix == "uuid"@ {
            assert(self.resolves_to(prefix, value, chapter, spec_resolve_uuid(self.uuid_index(), value)));
        } else if !prefixes.contains_key(prefix) {
            let out = Err::<Seq<char>, ErrorView>(
                ErrorView::UnknownPrefix { prefix, reference: reference_text(prefix, value) },
            );
            assert(self.resolves_to(prefix, value, chapter, out));
        } else {
            let glob_pattern = file_glob_pattern(prefixes[prefix], value);
            if !glob_accepts(push_path(self.root(), glob_pattern)) {
                let out = Err::<Seq<char>, ErrorView>(ErrorView::GlobPattern);
                assert(self.resolves_to(prefix, value, chapter, out));
            } else {
                let items = Seq::<Option<Seq<char>>>::empty();
                assert(all_match(push_path(self.root(), glob_pattern), items));
                let out = spec_select(self.root(), prefix, value, glob_pattern, Some(items), chapter);
                assert(self.file_outcome(prefix, value, chapter, out));
                assert(self.resolves_to(prefix, value, chapter, out));
            }
        }
    }

    /// Resolve a reference to its full path or URL.
    pub fn resolve(&self, reference: &Reference, chapter_path: Option<&str>) -> (r: Result<
        String,
        Error,
    >)
        ensures
            self.resolves_to(
                reference.prefix@,
                reference.value@,
                str_opt(chapter_path),
                result_view(r),
            ),
    {
        let prefix = reference.prefix.as_str();
        let value = reference.value.as_str();
        if str_eq(prefix, "gh") {
            self.resolve_github(value)
        } else if str_eq(prefix, "gl") {
            self.resolve_gitlab(value)
        } else if str_eq(prefix, "uuid") {
            self.resolve_uuid(value)
        } else {
            self.resolve_file_reference(prefix, value, chapter_path)
        }
    }

    /// Resolve a file-based reference using glob patterns.
    fn resolve_file_reference(&self, prefix: &str, value: &str, chapter_path: Option<&str>) -> (r:
        Result<String, Error>)
        ensures
            self.file_outcome(prefix@, value@, str_opt(chapter_path), result_view(r)),
    {
        let pattern = match self.config.get_pattern(prefix) {
            Some(p) => p,
            None => {
                return Err(
                    Error::UnknownPrefix {
                        prefix: prefix.to_owned(),
                        reference: reference_string(prefix, value),
                    },
                );
            },
        };
        // Build the glob pattern by replacing placeholders
        let pattern_chars = str_chars(pattern.as_str());
        let value_chars = str_chars(value);
        let id_mark = str_chars("{id}");
        let path_mark = str_chars("{path}");
        proof {
            reveal_strlit("{id}");
            reveal_strlit("{path}");
        }
        let with_id = replace(pattern_chars.as_slice(), id_mark.as_slice(), value_chars.as_slice());
        let glob_chars = replace(with_id.as_slice(), path_mark.as_slice(), value_chars.as_slice());
        let glob_pattern = string_of(glob_chars.as_slice());
        let mut full = str_chars(self.root.as_str());
        push_component(&mut full, glob_chars.as_slice());
        let full_pattern = string_of(full.as_slice());
        // Find matching files
        let found = glob_paths(full_pattern.as_str());
        let r = self.select_match(prefix, value, glob_pattern.as_str(), found, chapter_path);
        proof {
            if glob_accepts(full_pattern@) {
                let items = found_view(found)->Some_0;
                assert(all_match(full_pattern@, items)) by {
                    assert forall|i: int| 0 <= i < items.len() implies (#[trigger] items[i] matches Some(
                        p,
                    ) ==> glob_matches(full_pattern@, p)) by {
                        let v = found->Ok_0;
                        assert(items[i] == text_of(v@[i]));
                    }
                }
                assert(result_view(r) == spec_select(
                    self.root(),
                    prefix@,
                    value@,
                    glob_pattern@,
                    Some(items),
                    str_opt(chapter_path),
                ));
            }
        }
        r
    }

    /// What a file reference resolves to, given what glob found for its
    /// pattern `glob_pattern`.
    pub fn select_match(
        &self,
        prefix: &str,
        value: &str,
        glob_pattern: &str,
        found: Result<Vec<Option<String>>, glob::PatternError>,
        chapter_path: Option<&str>,
    ) -> (r: Result<String, Error>)
        ensures
            result_view(r) == spec_select(
                self.root(),
                prefix@,
                value@,
                glob_pattern@,
                found_view(found),
                str_opt(chapter_path),
            ),
            found matches Err(e) ==> r == Err::<String, Error>(Error::GlobPattern(e)),
    {
        let items = match found {
            Err(e) => return Err(Error::GlobPattern(e)),
            Ok(items) => items,
        };
        let ghost seen = items@.map_values(|o: Option<String>| text_of(o));
        let mut matches: Vec<String> = Vec::new();
        let mut i: usize = 0;
        while i < items.len()
            invariant
                i <= items@.len(),
                seen == items@.map_values(|o: Option<String>| text_of(o)),
                matches.deep_view() == readable_paths(seen.take(i as int)),
            decreases items.len() - i,
        {
            assert(seen.take(i + 1).drop_last() =~= seen.take(i as int));
            let ghost before = matches.deep_view();
            match &items[i] {
                Some(p) => {
                    matches.push(p.clone());
                    assert(matches.deep_view() =~= before.push(p@));
                },
                None => {},
            }
            i = i + 1;
        }
        assert(seen.take(i as int) =~= seen);
        if matches.len() == 0 {
            Err(
                Error::FileNotFound {
                    pattern: glob_pattern.to_owned(),
                    reference: reference_string(prefix, value),
                },
            )
        } else if matches.len() == 1 {
            let target = matches[0].as_str();
            assert(target@ == readable_paths(seen)[0]);
            match chapter_path {
                Some(chapter) => {
                    let chapter_chars = str_chars(chapter);
                    let dir = parent_of(path_components(chapter_chars.as_slice()));
                    Ok(self.relative_from(dir, target))
                },
                None => Ok(self.root_relative(target)),
            }
        } else {
            Err(
                Error::AmbiguousReference {
                    reference: reference_string(prefix, value),
                    files: matches,
                },
            )
        }
    }

    /// `target` below the root, or `target` itself where it is not below it.
    fn root_relative(&self, target: &str) -> (r: String)
        ensures
            r@ == spec_root_relative(self.root(), target@),
    {
        let target_chars = str_chars(target);
        let root_chars = str_chars(self.root.as_str());
        let target_comps = path_components(target_chars.as_slice());
        let root_comps = path_components(root_chars.as_slice());
        if has_leading_components(target_comps.as_slice(), root_comps.as_slice()) {
            assert(seqs_of(root_comps@).len() == root_comps@.len());
            let rest = raw_remainder_of(target_chars.as_slice(), root_comps.len());
            string_of(rest.as_slice())
        } else {
            target.to_owned()
        }
    }

    /// Calculate relative path from source to target.
    pub fn relative_path(&self, from: &str, to: &str) -> (r: String)
        ensures
            r@ == spec_relative(self.root(), components(from@), to@),
    {
        let from_chars = str_chars(from);
        self.relative_from(path_components(from_chars.as_slice()), to)
    }

    /// The relative path from the directory with components `from` to `to`.
    fn relative_from(&self, from: Vec<Vec<char>>, to: &str) -> (r: String)
        ensures
            r@ == spec_relative(self.root(), seqs_of(from@), to@),
    {
        let root_chars = str_chars(self.root.as_str());
        let root_comps = path_components(root_chars.as_slice());
        let to_chars = str_chars(to);
        let from_rel = strip_leading_components(from, root_comps.as_slice());
        let to_rel = strip_leading_components(
            path_components(to_chars.as_slice()),
            root_comps.as_slice(),
        );
        let common = count_common(from_rel.as_slice(), to_rel.as_slice());
        let ghost f = seqs_of(from_rel@);
        let ghost t = seqs_of(to_rel@);
        proof {
            crate::paths::lemma_common_len(f, t);
        }
        let mut comps: Vec<Vec<char>> = Vec::new();
        // Add ".." for each remaining component in 'from'
        let mut i = common;
        while i < from_rel.len()
            invariant
                common <= i <= from_rel@.len(),
                common == crate::paths::common_len(f, t),
                f == seqs_of(from_rel@),
                seqs_of(comps@) =~= Seq::new((i - common) as nat, |k: int| seq!['.', '.']),
            decreases from_rel.len() - i,
        {
            let mut up: Vec<char> = Vec::new();
            up.push('.');
            up.push('.');
            assert(up@ =~= seq!['.', '.']);
            let ghost before = seqs_of(comps@);
            comps.push(up);
            assert(seqs_of(comps@) =~= before.push(seq!['.', '.']));
            i = i + 1;
        }
        let ghost ups = seqs_of(comps@);
        // Add remaining components from 'to'
        let mut k = common;
        while k < to_rel.len()
            invariant
                common <= k <= to_rel@.len(),
                common <= t.len(),
                t == seqs_of(to_rel@),
                seqs_of(comps@) == ups + t.subrange(common as int, k as int),
            decreases to_rel.len() - k,
        {
            let c = copy_chars(&to_rel[k]);
            let ghost before = seqs_of(comps@);
            comps.push(c);
            assert(seqs_of(comps@) =~= before.push(c@));
            assert(seqs_of(comps@) =~= ups + t.subrange(common as int, k + 1));
            k = k + 1;
        }
        assert(t.subrange(common as int, k as int) =~= t.skip(common as int));
        assert(seqs_of(comps@) =~= relative_components(f, t));
        let joined = join_path(comps.as_slice());
        string_of(joined.as_slice())
    }
}

} // verus!
