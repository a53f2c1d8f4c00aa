use mdbook_ref_resolver::config::PatternMap;
use mdbook_ref_resolver::Config;

#[test]
fn test_default_config() {
    let config = Config::default();
    assert!(config.github_repo.is_none());
    assert!(config.prefixes.contains_key("adr"));
    assert!(config.prefixes.contains_key("docs"));
    assert!(config.prefixes.contains_key("blog"));
    assert!(config.prefixes.contains_key("notes"));
}

#[test]
fn test_default_adr_pattern() {
    let config = Config::default();
    assert_eq!(
        config.get_pattern("adr"),
        Some(&"docs/adr/{id}-*.md".to_string())
    );
}

#[test]
fn default_config_has_exactly_four_patterns() {
    let config = Config::default();
    assert_eq!(config.prefixes.len(), 4);
    assert!(config.gitlab_repo.is_none());
    assert!(config.uuid_index.is_none());
    assert_eq!(
        config.get_pattern("docs"),
        Some(&"docs/src/{path}.md".to_string())
    );
    assert_eq!(
        config.get_pattern("blog"),
        Some(&"docs/blog/*{path}*.md".to_string())
    );
    assert_eq!(
        config.get_pattern("notes"),
        Some(&"docs/notes/{path}.md".to_string())
    );
    assert_eq!(config.get_pattern("gh"), None);
    assert_eq!(config.get_pattern("ADR"), None);
}

#[test]
fn pattern_map_insert_then_get() {
    let mut map = PatternMap::new();
    assert_eq!(map.len(), 0);
    assert!(!map.contains_key("rfc"));
    assert_eq!(map.insert("rfc".to_string(), "docs/rfcs/RFC-{id}.md".to_string()), None);
    assert_eq!(map.get("rfc"), Some(&"docs/rfcs/RFC-{id}.md".to_string()));
    assert_eq!(map.len(), 1);
}

#[test]
fn pattern_map_insert_replaces_and_returns_old() {
    let mut map = PatternMap::new();
    map.insert("api".to_string(), "docs/api/{path}.md".to_string());
    map.insert("meeting".to_string(), "docs/meetings/*{id}*.md".to_string());
    let old = map.insert("api".to_string(), "api/{path}.md".to_string());
    assert_eq!(old, Some("docs/api/{path}.md".to_string()));
    assert_eq!(map.len(), 2);
    assert_eq!(map.get("api"), Some(&"api/{path}.md".to_string()));
    assert_eq!(
        map.get("meeting"),
        Some(&"docs/meetings/*{id}*.md".to_string())
    );
}

#[test]
fn custom_prefix_added_to_default_config() {
    let mut config = Config::default();
    config
        .prefixes
        .insert("custom".to_string(), "custom/{path}.md".to_string());
    assert_eq!(
        config.get_pattern("custom"),
        Some(&"custom/{path}.md".to_string())
    );
    assert_eq!(config.prefixes.len(), 5);
}

#[test]
fn pattern_map_entries_list_every_pattern() {
    let config = Config::default();
    let mut entries = config.prefixes.entries();
    entries.sort();
    assert_eq!(
        entries,
        vec![
            ("adr".to_string(), "docs/adr/{id}-*.md".to_string()),
            ("blog".to_string(), "docs/blog/*{path}*.md".to_string()),
            ("docs".to_string(), "docs/src/{path}.md".to_string()),
            ("notes".to_string(), "docs/notes/{path}.md".to_string()),
        ]
    );
}
