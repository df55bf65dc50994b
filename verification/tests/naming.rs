use wahlberg::naming::{apply_rename_rule, to_snake_case};

#[test]
fn rename_rules_match_serde() {
    let f = "user_id";
    assert_eq!(apply_rename_rule("lowercase", f).unwrap(), "user_id");
    assert_eq!(apply_rename_rule("UPPERCASE", f).unwrap(), "USER_ID");
    assert_eq!(apply_rename_rule("PascalCase", f).unwrap(), "UserId");
    assert_eq!(apply_rename_rule("camelCase", f).unwrap(), "userId");
    assert_eq!(apply_rename_rule("snake_case", f).unwrap(), "user_id");
    assert_eq!(
        apply_rename_rule("SCREAMING_SNAKE_CASE", f).unwrap(),
        "USER_ID"
    );
    assert_eq!(apply_rename_rule("kebab-case", f).unwrap(), "user-id");
    assert_eq!(
        apply_rename_rule("SCREAMING-KEBAB-CASE", f).unwrap(),
        "USER-ID"
    );
    assert_eq!(apply_rename_rule("camelCase", "id").unwrap(), "id");
    assert!(apply_rename_rule("Title Case", f).is_none());
}

#[test]
fn default_table_is_snake_case() {
    assert_eq!(to_snake_case("User"), "user");
    assert_eq!(to_snake_case("UserProfile"), "user_profile");
}
