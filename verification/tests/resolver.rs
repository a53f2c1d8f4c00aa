use mdbook_ref_resolver::{find_references, Config, Error, Reference, ReferenceResolver};

fn resolver_with(github: Option<&str>, gitlab: Option<&str>) -> ReferenceResolver {
    let config = Config {
        github_repo: github.map(|s| s.to_string()),
        gitlab_repo: gitlab.map(|s| s.to_string()),
        ..Config::default()
    };
    ReferenceResolver::new(config, "/tmp".to_string())
}

fn resolve_str(resolver: &ReferenceResolver, text: &str) -> Result<String, Error> {
    let reference = Reference::parse(text).unwrap();
    resolver.resolve(&reference, None)
}

#[test]
fn test_parse_adr_reference() {
    let ref_ = Reference::parse("adr:0042").unwrap();
    assert_eq!(ref_.prefix, "adr");
    assert_eq!(ref_.value, "0042");
}

#[test]
fn test_parse_docs_reference() {
    let ref_ = Reference::parse("docs:user/auth").unwrap();
    assert_eq!(ref_.prefix, "docs");
    assert_eq!(ref_.value, "user/auth");
}

#[test]
fn test_parse_github_reference() {
    let ref_ = Reference::parse("gh:::issue/123").unwrap();
    assert_eq!(ref_.prefix, "gh");
    assert_eq!(ref_.value, "::issue/123");
}

#[test]
fn test_parse_invalid_reference() {
    assert!(Reference::parse("noprefix").is_none());
    assert!(Reference::parse(":noprefix").is_none());
}

#[test]
fn parse_keeps_original_and_splits_at_first_colon() {
    let r = Reference::parse("gh:owner:repo:issue/789").unwrap();
    assert_eq!(r.original, "gh:owner:repo:issue/789");
    assert_eq!(r.prefix, "gh");
    assert_eq!(r.value, "owner:repo:issue/789");
    let empty = Reference::parse("x1:").unwrap();
    assert_eq!(empty.prefix, "x1");
    assert_eq!(empty.value, "");
}

#[test]
fn parse_requires_alphanumeric_prefix() {
    assert!(Reference::parse("a-b:c").is_none());
    assert!(Reference::parse("a b:c").is_none());
    assert!(Reference::parse("a/b:c").is_none());
    let unicode = Reference::parse("émoji2:x").unwrap();
    assert_eq!(unicode.prefix, "émoji2");
    assert_eq!(unicode.value, "x");
}

#[test]
fn test_find_references_in_content() {
    let content = r#"
See [ADR-0042](adr:0042) for details.
Check the [auth docs](docs:user/auth).
Related to [Issue #123](gh:::issue/123).
Regular [link](https://example.com) should not match.
"#;
    let refs = find_references(content);
    assert_eq!(refs.len(), 3);
    assert_eq!(refs[0].2.prefix, "adr");
    assert_eq!(refs[1].2.prefix, "docs");
    assert_eq!(refs[2].2.prefix, "gh");
}

#[test]
fn find_references_gives_byte_offsets_of_the_reference() {
    let content = "é [x](adr:1) ✓ [y](gh:::pr/2)";
    let refs = find_references(content);
    assert_eq!(refs.len(), 2);
    for (start, end, reference) in &refs {
        assert_eq!(&content[*start..*end], reference.original);
    }
    assert_eq!(refs[0].0, 7);
    assert_eq!(refs[0].1, 12);
    assert_eq!(refs[1].2.value, "::pr/2");
}

#[test]
fn find_references_come_in_order_and_apart() {
    let content = "[a](adr:1)[b](docs:é2) x [c](gh:::issue/3)](adr:4)";
    let refs = find_references(content);
    assert_eq!(refs.len(), 4);
    for (start, end, _) in &refs {
        assert!(start < end);
    }
    for pair in refs.windows(2) {
        assert!(pair[0].1 < pair[1].0);
    }
    assert_eq!(refs[0].0, 4);
    assert_eq!(refs[0].1, 9);
    assert_eq!(refs[1].2.original, "docs:é2");
    assert_eq!(refs[3].2.original, "adr:4");
}

#[test]
fn find_references_skips_malformed_links() {
    // No letters before the colon, digits in the scheme, nothing after the
    // colon, no closing parenthesis, and a URL.
    let content = "[a](:x) [b](a1:x) [c](adr:) [d](http://x.org) [e](adr:open";
    assert!(find_references(content).is_empty());
}

#[test]
fn find_references_reads_across_lines_up_to_first_parenthesis() {
    let content = "[a](notes:one\ntwo) and ](docs:x(y)";
    let refs = find_references(content);
    assert_eq!(refs.len(), 2);
    assert_eq!(refs[0].2.value, "one\ntwo");
    assert_eq!(refs[1].2.value, "x(y");
}

#[test]
fn find_references_agrees_with_the_link_pattern() {
    let re = regex::Regex::new(r"\]\(([a-zA-Z]+:[^)]+)\)").unwrap();
    let samples = [
        "See [A](adr:0042) and [B](docs:user/auth) and [C](https://x.org).",
        "](a:b)](c:d)) ](](e:f) [x](g:h",
        "Ünïcödé [✓](blog:naïve) ](ZZ:top)(x) ](q:)",
        "nested ](a:(b)) and ](ab:c](d:e)",
        "](x:y://z) ](mailto:me@x.org) ](aB:cD)",
    ];
    for sample in samples.iter() {
        let expected: Vec<(usize, usize, String)> = re
            .captures_iter(sample)
            .filter_map(|cap| {
                let m = cap.get(1)?;
                if m.as_str().contains("://") {
                    return None;
                }
                Some((m.start(), m.end(), m.as_str().to_string()))
            })
            .collect();
        let found: Vec<(usize, usize, String)> = find_references(sample)
            .into_iter()
            .map(|(s, e, r)| (s, e, r.original))
            .collect();
        assert_eq!(found, expected, "sample: {}", sample);
    }
}

#[test]
fn test_github_url_resolution() {
    let config = Config {
        github_repo: Some("octocat/foobar".to_string()),
        ..Config::default()
    };

    let resolver = ReferenceResolver::new(config, "/tmp".to_string());

    let ref_ = Reference::parse("gh:::issue/123").unwrap();
    let result = resolver.resolve(&ref_, None).unwrap();
    assert_eq!(result, "https://github.com/octocat/foobar/issues/123");
}

#[test]
fn test_github_pr_resolution() {
    let config = Config {
        github_repo: Some("octocat/foobar".to_string()),
        ..Config::default()
    };

    let resolver = ReferenceResolver::new(config, "/tmp".to_string());

    let ref_ = Reference::parse("gh:::pr/456").unwrap();
    let result = resolver.resolve(&ref_, None).unwrap();
    assert_eq!(result, "https://github.com/octocat/foobar/pull/456");
}

#[test]
fn test_github_with_explicit_repo() {
    let config = Config::default();
    let resolver = ReferenceResolver::new(config, "/tmp".to_string());

    let ref_ = Reference::parse("gh:owner:repo:issue/789").unwrap();
    let result = resolver.resolve(&ref_, None).unwrap();
    assert_eq!(result, "https://github.com/owner/repo/issues/789");
}

#[test]
fn test_relative_path_calculation() {
    let config = Config::default();
    let resolver = ReferenceResolver::new(config, "/project".to_string());

    // From docs/src/chapter1.md to docs/adr/0042-test.md
    let from = "docs/src";
    let to = "/project/docs/adr/0042-test.md";

    let result = resolver.relative_path(from, to);
    assert_eq!(result, "../adr/0042-test.md");
}

#[test]
fn relative_path_edge_cases() {
    let resolver = ReferenceResolver::new(Config::default(), "/project".to_string());
    assert_eq!(resolver.relative_path("docs", "/project/docs/a.md"), "a.md");
    assert_eq!(resolver.relative_path("", "/project/docs/a.md"), "docs/a.md");
    assert_eq!(resolver.relative_path("a/b/c", "/project/a/x.md"), "../../x.md");
    assert_eq!(resolver.relative_path("/project/a//b/", "/project/a/b/c.md"), "c.md");
    assert_eq!(resolver.relative_path("a", "/other/x.md"), "/other/x.md");
    assert_eq!(resolver.relative_path("./a", "/project/a/x.md"), "../../a/x.md");
}

#[test]
fn equivalent_github_reference_forms() {
    let resolver = resolver_with(Some("octocat/foobar"), None);
    let want = "https://github.com/octocat/foobar/issues/123";
    assert_eq!(resolve_str(&resolver, "gh:::issue/123").unwrap(), want);
    assert_eq!(resolve_str(&resolver, "gh:octocat::issue/123").unwrap(), want);
    assert_eq!(resolve_str(&resolver, "gh:octocat:foobar:issue/123").unwrap(), want);
    assert_eq!(resolve_str(&resolver, "gh::foobar:issue/123").unwrap(), want);
    // The repository given wins over the configured one; the owner is filled.
    assert_eq!(
        resolve_str(&resolver, "gh::other:issue/1").unwrap(),
        "https://github.com/octocat/other/issues/1"
    );
}

#[test]
fn github_shorthands() {
    let resolver = resolver_with(Some("o/r"), None);
    assert_eq!(resolve_str(&resolver, "gh:::mr/9").unwrap(), "https://github.com/o/r/pull/9");
    assert_eq!(resolve_str(&resolver, "gh:::commit/abc").unwrap(), "https://github.com/o/r/commit/abc");
    assert_eq!(resolve_str(&resolver, "gh:::blob/main/x.rs").unwrap(), "https://github.com/o/r/blob/main/x.rs");
    assert_eq!(resolve_str(&resolver, "gh:::wiki/Home").unwrap(), "https://github.com/o/r/wiki/Home");
    assert_eq!(resolve_str(&resolver, "gh:owner:path").unwrap(), "https://github.com/owner/r/path");
}

#[test]
fn gitlab_shorthands() {
    let resolver = resolver_with(None, Some("group/proj"));
    assert_eq!(resolve_str(&resolver, "gl:::issue/1").unwrap(), "https://gitlab.com/group/proj/issues/1");
    assert_eq!(resolve_str(&resolver, "gl:::pr/2").unwrap(), "https://gitlab.com/group/proj/-/merge_requests/2");
    assert_eq!(resolve_str(&resolver, "gl:::mr/3").unwrap(), "https://gitlab.com/group/proj/-/merge_requests/3");
    assert_eq!(resolve_str(&resolver, "gl:::commit/ff").unwrap(), "https://gitlab.com/group/proj/-/commit/ff");
    assert_eq!(resolve_str(&resolver, "gl:::blob/main/a").unwrap(), "https://gitlab.com/group/proj/-/blob/main/a");
}

#[test]
fn configured_repository_pieces() {
    // splitn(2, '/') keeps the rest; split('/').nth(1) takes one piece.
    let resolver = resolver_with(Some("o/r/extra"), None);
    assert_eq!(resolve_str(&resolver, "gh:::x").unwrap(), "https://github.com/o/r/extra/x");
    assert_eq!(resolve_str(&resolver, "gh:me::x").unwrap(), "https://github.com/me/r/x");
}

#[test]
fn forge_reference_without_colon_is_invalid() {
    let resolver = resolver_with(Some("o/r"), None);
    match resolve_str(&resolver, "gh:issue/1") {
        Err(Error::InvalidSyntax { reference, reason }) => {
            assert_eq!(reference, "gh:issue/1");
            assert_eq!(reason, "Forge references must use format owner:repo:path or ::path");
        }
        other => panic!("unexpected result: {:?}", other),
    }
}

#[test]
fn forge_reference_without_configuration_fails() {
    let resolver = resolver_with(None, None);
    match resolve_str(&resolver, "gh:::issue/1") {
        Err(Error::Resolution { reference, reason }) => {
            assert_eq!(reference, "gh:::issue/1");
            assert_eq!(reason, "No GitHub repository configured");
        }
        other => panic!("unexpected result: {:?}", other),
    }
    match resolve_str(&resolver, "gl:me::issue/1") {
        Err(Error::Resolution { reference, reason }) => {
            assert_eq!(reference, "gl:me::issue/1");
            assert_eq!(reason, "No repository specified and none configured");
        }
        other => panic!("unexpected result: {:?}", other),
    }
    let no_slash = resolver_with(Some("justowner"), None);
    match resolve_str(&no_slash, "gh:::issue/1") {
        Err(Error::Resolution { reason, .. }) => {
            assert_eq!(reason, "No GitHub repository configured");
        }
        other => panic!("unexpected result: {:?}", other),
    }
}

#[test]
fn uuid_reference_without_index_fails() {
    let resolver = resolver_with(None, None);
    match resolve_str(&resolver, "uuid:20ae") {
        Err(Error::Resolution { reference, reason }) => {
            assert_eq!(reference, "uuid:20ae");
            assert_eq!(reason, "No UUID index configured");
        }
        other => panic!("unexpected result: {:?}", other),
    }
}

#[test]
fn uuid_reference_is_looked_up_in_the_index() {
    let index = "a1 first.md\n\nno-space-line\n20ae docs/adr/0042 session.md\n20ae later.md".to_string();
    let resolver = resolver_with(None, None).with_uuid_index(index);
    assert_eq!(resolve_str(&resolver, "uuid:20ae").unwrap(), "docs/adr/0042 session.md");
    assert_eq!(resolve_str(&resolver, "uuid:a1").unwrap(), "first.md");
    match resolve_str(&resolver, "uuid:20a") {
        Err(Error::Resolution { reference, reason }) => {
            assert_eq!(reference, "uuid:20a");
            assert_eq!(reason, "UUID not found in index");
        }
        other => panic!("unexpected result: {:?}", other),
    }
}

#[test]
fn github_repository_from_the_git_remote() {
    for url in [
        "https://github.com/octocat/foobar.git",
        "http://github.com/octocat/foobar",
        "ssh://git@github.com/octocat/foobar.git",
        "git@github.com:octocat/foobar.git",
    ]
    .iter()
    {
        let mut config = Config::default();
        config.detect_github_repo(url);
        assert_eq!(config.github_repo, Some("octocat/foobar".to_string()), "url: {}", url);
        let resolver = ReferenceResolver::new(config, "/tmp".to_string());
        assert_eq!(
            resolve_str(&resolver, "gh:::issue/1").unwrap(),
            "https://github.com/octocat/foobar/issues/1"
        );
    }
    for url in ["https://gitlab.com/o/r.git", "git@github.com:norepo", "https://github.com//r"].iter() {
        let mut config = Config::default();
        config.detect_github_repo(url);
        assert_eq!(config.github_repo, None, "url: {}", url);
    }
    let mut config = Config {
        github_repo: Some("mine/book".to_string()),
        ..Config::default()
    };
    config.detect_github_repo("git@github.com:other/repo.git");
    assert_eq!(config.github_repo, Some("mine/book".to_string()));
}

#[test]
fn empty_owner_without_configuration_stays_empty() {
    let resolver = resolver_with(None, None);
    assert_eq!(
        resolve_str(&resolver, "gh::repo:issue/1").unwrap(),
        "https://github.com//repo/issues/1"
    );
    assert_eq!(
        resolve_str(&resolver, "gl::repo:mr/2").unwrap(),
        "https://gitlab.com//repo/-/merge_requests/2"
    );
    let unsplit = resolver_with(Some("noslash"), None);
    assert_eq!(
        resolve_str(&unsplit, "gh::repo:issue/1").unwrap(),
        "https://github.com//repo/issues/1"
    );
}

#[test]
fn unknown_prefix_is_refused() {
    let resolver = resolver_with(None, None);
    match resolve_str(&resolver, "rfc:0001") {
        Err(Error::UnknownPrefix { prefix, reference }) => {
            assert_eq!(prefix, "rfc");
            assert_eq!(reference, "rfc:0001");
        }
        other => panic!("unexpected result: {:?}", other),
    }
}

#[test]
fn file_reference_without_match_is_not_found() {
    let resolver = ReferenceResolver::new(
        Config::default(),
        "/nonexistent-book-root-for-tests".to_string(),
    );
    match resolve_str(&resolver, "adr:0042") {
        Err(Error::FileNotFound { pattern, reference }) => {
            assert_eq!(pattern, "docs/adr/0042-*.md");
            assert_eq!(reference, "adr:0042");
        }
        other => panic!("unexpected result: {:?}", other),
    }
    match resolve_str(&resolver, "docs:user/auth") {
        Err(Error::FileNotFound { pattern, .. }) => {
            assert_eq!(pattern, "docs/src/user/auth.md");
        }
        other => panic!("unexpected result: {:?}", other),
    }
}

#[test]
fn file_reference_with_bad_pattern_is_refused() {
    let mut config = Config::default();
    config.prefixes.insert("bad".to_string(), "docs/[{id}".to_string());
    let resolver = ReferenceResolver::new(config, "/tmp".to_string());
    match resolve_str(&resolver, "bad:x") {
        Err(Error::GlobPattern(e)) => assert!(e.msg.len() > 0),
        other => panic!("unexpected result: {:?}", other),
    }
}

#[test]
fn file_reference_finds_a_real_file() {
    // The system's temporary directory, found through glob from the root.
    let mut config = Config::default();
    config.prefixes.insert("top".to_string(), "{id}".to_string());
    let resolver = ReferenceResolver::new(config, "/".to_string());
    assert_eq!(resolve_str(&resolver, "top:tmp").unwrap(), "tmp");
    let reference = Reference::parse("top:tmp").unwrap();
    assert_eq!(
        resolver.resolve(&reference, Some("docs/chapter.md")).unwrap(),
        "../tmp"
    );
}

#[test]
fn select_match_cases() {
    let resolver = ReferenceResolver::new(Config::default(), "/book".to_string());
    let one = Ok(vec![None, Some("/book/docs/adr/0042-x.md".to_string())]);
    assert_eq!(
        resolver.select_match("adr", "0042", "docs/adr/0042-*.md", one, None).unwrap(),
        "docs/adr/0042-x.md"
    );
    let one = Ok(vec![Some("/book/docs/adr/0042-x.md".to_string())]);
    assert_eq!(
        resolver
            .select_match("adr", "0042", "docs/adr/0042-*.md", one, Some("docs/src/ch1.md"))
            .unwrap(),
        "../adr/0042-x.md"
    );
    let outside = Ok(vec![Some("/elsewhere/x.md".to_string())]);
    assert_eq!(
        resolver.select_match("adr", "1", "p", outside, None).unwrap(),
        "/elsewhere/x.md"
    );
    match resolver.select_match("adr", "1", "p", Ok(vec![None]), None) {
        Err(Error::FileNotFound { pattern, reference }) => {
            assert_eq!(pattern, "p");
            assert_eq!(reference, "adr:1");
        }
        other => panic!("unexpected result: {:?}", other),
    }
    let two = Ok(vec![Some("/book/a.md".to_string()), Some("/book/b.md".to_string())]);
    match resolver.select_match("adr", "1", "p", two, None) {
        Err(Error::AmbiguousReference { reference, files }) => {
            assert_eq!(reference, "adr:1");
            assert_eq!(files, vec!["/book/a.md".to_string(), "/book/b.md".to_string()]);
        }
        other => panic!("unexpected result: {:?}", other),
    }
    let bad = Err(glob::PatternError { pos: 3, msg: "invalid range pattern" });
    match resolver.select_match("adr", "1", "p", bad, None) {
        Err(Error::GlobPattern(e)) => {
            assert_eq!(e.pos, 3);
            assert_eq!(e.msg, "invalid range pattern");
        }
        other => panic!("unexpected result: {:?}", other),
    }
}

#[test]
fn from_text_follows_the_prefix_verdict() {
    let r = Reference::from_text("adr:0042", true).unwrap();
    assert_eq!(r.prefix, "adr");
    assert_eq!(r.value, "0042");
    assert_eq!(r.original, "adr:0042");
    assert!(Reference::from_text("adr:0042", false).is_none());
    assert!(Reference::from_text("a-b:c", true).is_some());
    assert!(Reference::from_text(":c", true).is_none());
    assert!(Reference::from_text("abc", true).is_none());
}

#[test]
fn parse_reads_back_prefix_colon_value() {
    for text in ["ab:c:d", "x:", "Zz9:/a/b", "gh:::issue/1"].iter() {
        let r = Reference::parse(text).unwrap();
        assert_eq!(format!("{}:{}", r.prefix, r.value), *text);
    }
}

#[test]
fn explicit_owner_and_repository_win_over_configuration() {
    let resolver = resolver_with(Some("octocat/foobar"), Some("group/proj"));
    assert_eq!(
        resolve_str(&resolver, "gh:alice:tools:blob/a:b").unwrap(),
        "https://github.com/alice/tools/blob/a:b"
    );
    assert_eq!(
        resolve_str(&resolver, "gl:bob:lib:mr/4").unwrap(),
        "https://gitlab.com/bob/lib/-/merge_requests/4"
    );
}

#[test]
fn relative_path_walks_back_to_the_target() {
    let resolver = ReferenceResolver::new(Config::default(), "/project".to_string());
    let way = resolver.relative_path("a/b/c", "/project/a/d/e.md");
    assert_eq!(way, "../../d/e.md");
    let joined = std::path::Path::new("a/b/c").join(&way);
    let mut walked: Vec<String> = Vec::new();
    for part in joined.iter() {
        let part = part.to_string_lossy().into_owned();
        if part == ".." {
            walked.pop();
        } else {
            walked.push(part);
        }
    }
    assert_eq!(walked.join("/"), "a/d/e.md");
}

#[test]
fn root_relative_text_agrees_with_strip_prefix() {
    let roots = ["/book", "/book/", "", "/", "book", "./book", "."];
    let targets = [
        "/book/docs/adr/0042-x.md",
        "/book//docs/./adr/x.md/",
        "/book",
        "/book/.",
        "/bookish/x.md",
        "book/a/b",
        "./book/a//b/.",
        "./a",
        "a/b/",
        "/",
        "//a",
        "./",
        "",
    ];
    for root in roots.iter() {
        let resolver = ReferenceResolver::new(Config::default(), root.to_string());
        for target in targets.iter() {
            let expected = std::path::Path::new(target)
                .strip_prefix(root)
                .unwrap_or(std::path::Path::new(target))
                .to_string_lossy()
                .into_owned();
            let found = resolver
                .select_match("adr", "1", "p", Ok(vec![Some(target.to_string())]), None)
                .unwrap();
            assert_eq!(found, expected, "root {:?}, target {:?}", root, target);
        }
    }
}

/// The way from `from` to `to` computed with `std::path`, component by
/// component, below `root`.
fn std_relative(root: &str, from: &str, to: &str) -> String {
    let root = std::path::Path::new(root);
    let from = std::path::Path::new(from);
    let to = std::path::Path::new(to);
    let from_rel = from.strip_prefix(root).unwrap_or(from);
    let to_rel = to.strip_prefix(root).unwrap_or(to);
    let f: Vec<_> = from_rel.components().collect();
    let t: Vec<_> = to_rel.components().collect();
    let common = f.iter().zip(t.iter()).take_while(|(a, b)| a == b).count();
    let mut result = std::path::PathBuf::new();
    for _ in common..f.len() {
        result.push("..");
    }
    for c in t.iter().skip(common) {
        result.push(c);
    }
    result.to_string_lossy().into_owned()
}

#[test]
fn relative_path_agrees_with_std_paths() {
    let roots = ["/project", "/project/", "", "/", "project"];
    let froms = ["docs/src", "", ".", "./docs", "/project/docs//src/", "a/../b", "/other"];
    let tos = [
        "/project/docs/adr/0042-test.md",
        "/project/docs/src/x.md",
        "/other/x.md",
        "docs/./a.md",
        "./docs/a",
        "",
        "/",
    ];
    for root in roots.iter() {
        let resolver = ReferenceResolver::new(Config::default(), root.to_string());
        for from in froms.iter() {
            for to in tos.iter() {
                assert_eq!(
                    resolver.relative_path(from, to),
                    std_relative(root, from, to),
                    "root {:?}, from {:?}, to {:?}",
                    root,
                    from,
                    to
                );
            }
        }
    }
}
