use mdbook_ref_resolver::RefResolverPreprocessor;

#[test]
fn integration_test_preprocessor_name() {
    let preprocessor = RefResolverPreprocessor::new();
    assert_eq!(preprocessor.name(), "ref-resolver");
}

#[test]
fn integration_test_supports_html_renderer() {
    let preprocessor = RefResolverPreprocessor::new();
    assert!(preprocessor.supports_renderer("html"));
}
