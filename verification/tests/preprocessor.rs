use mdbook_ref_resolver::preprocessor::resolution_error_summary;
use mdbook_ref_resolver::{
    process_chapter, process_content, Chapter, Config, Error, RefResolverPreprocessor,
    ReferenceResolver,
};

fn github_resolver(repo: &str) -> ReferenceResolver {
    let config = Config {
        github_repo: Some(repo.to_string()),
        ..Config::default()
    };
    ReferenceResolver::new(config, "/tmp".to_string())
}

#[test]
fn preprocessor_test_preprocessor_name() {
    let preprocessor = RefResolverPreprocessor::new();
    assert_eq!(preprocessor.name(), "ref-resolver");
}

#[test]
fn preprocessor_test_supports_html_renderer() {
    let preprocessor = RefResolverPreprocessor::new();
    assert!(preprocessor.supports_renderer("html"));
}

#[test]
fn test_supports_epub_renderer() {
    let preprocessor = RefResolverPreprocessor::new();
    assert!(preprocessor.supports_renderer("epub"));
}

#[test]
fn test_does_not_support_not_supported() {
    let preprocessor = RefResolverPreprocessor::new();
    assert!(!preprocessor.supports_renderer("not-supported"));
}

#[test]
fn default_preprocessor_is_the_same() {
    let preprocessor = RefResolverPreprocessor::default();
    assert_eq!(preprocessor.name(), "ref-resolver");
    assert!(preprocessor.supports_renderer("not-supported-either"));
    assert!(preprocessor.supports_renderer(""));
}

#[test]
fn test_process_content_with_github_refs() {
    let resolver = github_resolver("octocat/foobar");
    let input = "See [Issue #123](gh:::issue/123) for details.";
    let result = process_content(input, &resolver).unwrap();
    assert_eq!(
        result,
        "See [Issue #123](https://github.com/octocat/foobar/issues/123) for details."
    );
}

#[test]
fn test_process_content_no_references() {
    let config = Config::default();
    let resolver = ReferenceResolver::new(config, "/tmp".to_string());
    let input = "Just regular [markdown](https://example.com) content.";
    let result = process_content(input, &resolver).unwrap();
    assert_eq!(result, input);
}

#[test]
fn test_process_content_multiple_refs() {
    let resolver = github_resolver("owner/repo");
    let input = r#"See [Issue](gh:::issue/1) and [PR](gh:::pr/2)."#;
    let result = process_content(input, &resolver).unwrap();
    assert_eq!(
        result,
        "See [Issue](https://github.com/owner/repo/issues/1) and [PR](https://github.com/owner/repo/pull/2)."
    );
}

#[test]
fn process_content_keeps_text_around_multibyte_characters() {
    let resolver = github_resolver("o/r");
    let input = "Über [é](gh:::issue/7) — ✓ [x](gh:::mr/8)!";
    let result = process_content(input, &resolver).unwrap();
    assert_eq!(
        result,
        "Über [é](https://github.com/o/r/issues/7) — ✓ [x](https://github.com/o/r/pull/8)!"
    );
}

#[test]
fn process_content_reports_the_last_failing_reference() {
    let resolver = ReferenceResolver::new(Config::default(), "/tmp".to_string());
    let input = "[a](gh:::issue/1) [b](uuid:abc) [c](gl:::issue/2)";
    match process_content(input, &resolver) {
        Err(Error::Resolution { reference, reason }) => {
            assert_eq!(reference, "gl:::issue/2");
            assert_eq!(reason, "No GitLab repository configured");
        }
        other => panic!("unexpected result: {:?}", other),
    }
}

#[test]
fn process_content_uuid_reference_fails() {
    let resolver = github_resolver("o/r");
    let input = "[a](uuid:20ae) then [b](gh:::issue/3)";
    match process_content(input, &resolver) {
        Err(Error::Resolution { reference, reason }) => {
            assert_eq!(reference, "uuid:20ae");
            assert_eq!(reason, "No UUID index configured");
        }
        other => panic!("unexpected result: {:?}", other),
    }
}

#[test]
fn process_chapter_rewrites_content() {
    let resolver = github_resolver("octocat/foobar");
    let mut chapter = Chapter {
        name: "Intro".to_string(),
        content: "Read [this](gh:::pr/5).".to_string(),
        path: Some("intro.md".to_string()),
    };
    assert!(process_chapter(&mut chapter, &resolver).is_ok());
    assert_eq!(
        chapter.content,
        "Read [this](https://github.com/octocat/foobar/pull/5)."
    );
    assert_eq!(chapter.name, "Intro");
    assert_eq!(chapter.path, Some("intro.md".to_string()));
}

#[test]
fn process_chapter_leaves_content_on_error() {
    let resolver = ReferenceResolver::new(Config::default(), "/tmp".to_string());
    let original = "Read [this](gh:::pr/5).".to_string();
    let mut chapter = Chapter {
        name: "Intro".to_string(),
        content: original.clone(),
        path: None,
    };
    match process_chapter(&mut chapter, &resolver) {
        Err(Error::Resolution { reference, reason }) => {
            assert_eq!(reference, "gh:::pr/5");
            assert_eq!(reason, "No GitHub repository configured");
        }
        other => panic!("unexpected result: {:?}", other),
    }
    assert_eq!(chapter.content, original);
}

#[test]
fn process_chapter_without_references_is_unchanged() {
    let resolver = ReferenceResolver::new(Config::default(), "/tmp".to_string());
    let mut chapter = Chapter {
        name: "Plain".to_string(),
        content: "No [links](https://x.org) here (really).".to_string(),
        path: Some("a/b.md".to_string()),
    };
    assert!(process_chapter(&mut chapter, &resolver).is_ok());
    assert_eq!(chapter.content, "No [links](https://x.org) here (really).");
}

#[test]
fn error_summary_lists_each_error() {
    assert_eq!(resolution_error_summary(&Vec::new()), None);
    let errors = vec!["first".to_string(), "second".to_string()];
    assert_eq!(
        resolution_error_summary(&errors),
        Some("Reference resolution errors:\nfirst\nsecond".to_string())
    );
    let one = vec!["only".to_string()];
    assert_eq!(
        resolution_error_summary(&one),
        Some("Reference resolution errors:\nonly".to_string())
    );
}

#[test]
fn process_content_resolves_uuid_references_from_the_index() {
    let resolver = github_resolver("o/r")
        .with_uuid_index("20ae docs/notes/a.md\nffff other.md\n".to_string());
    let input = "[a](uuid:20ae) then [b](gh:::issue/3)";
    assert_eq!(
        process_content(input, &resolver).unwrap(),
        "[a](docs/notes/a.md) then [b](https://github.com/o/r/issues/3)"
    );
}
