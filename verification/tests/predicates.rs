use floe_executor::expression_eval::predicates::matches_like;

#[test]
fn like_supports_percent_and_underscore_wildcards() {
    assert!(matches_like("foobarbaz", "%bar%"));
    assert!(matches_like("abcz", "a_c%"));
    assert!(matches_like("a💡c", "a_c"));
    assert!(matches_like("", "%"));
    assert!(!matches_like("abc", "a_d%"));
    assert!(!matches_like("ac", "a_c"));
}
