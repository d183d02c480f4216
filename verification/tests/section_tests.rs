use kee::parse_aws_config_section;

#[test]
fn test_parse_aws_config_section_valid() {
    let config_content = "\n[profile kee-test]\nsso_start_url = https://test.awsapps.com/start\nsso_region = us-east-1\nsso_account_id = 123456789012\nsso_role_name = TestRole\n\n[profile other-profile]\n";

    let section = parse_aws_config_section(config_content, "profile kee-test").unwrap();

    assert_eq!(
        section.get("sso_start_url"),
        Some(&"https://test.awsapps.com/start".to_string())
    );
    assert_eq!(section.get("sso_region"), Some(&"us-east-1".to_string()));
    assert_eq!(
        section.get("sso_account_id"),
        Some(&"123456789012".to_string())
    );
    assert_eq!(section.get("sso_role_name"), Some(&"TestRole".to_string()));
}

#[test]
fn test_parse_aws_config_section_nonexistent() {
    let config_content = "\n[profile kee-test]\nsso_start_url = https://test.awsapps.com/start\n";

    let section = parse_aws_config_section(config_content, "profile nonexistent");
    assert!(section.is_none());
}

#[test]
fn test_parse_aws_config_section_empty_content() {
    let section = parse_aws_config_section("", "profile test");
    assert!(section.is_none());
}

#[test]
fn test_parse_aws_config_section_malformed() {
    let config_content = "\n[profile kee-test]\ninvalid_line_without_equals\nsso_start_url = https://test.awsapps.com/start\n= value_without_key\nkey_without_value =\n";

    let section = parse_aws_config_section(config_content, "profile kee-test").unwrap();

    // Should parse valid lines and ignore malformed ones
    assert_eq!(
        section.get("sso_start_url"),
        Some(&"https://test.awsapps.com/start".to_string())
    );
    assert_eq!(section.get("key_without_value"), Some(&"".to_string()));
    assert!(!section.contains_key("invalid_line_without_equals"));
}

#[test]
fn test_parse_aws_config_section_with_spaces() {
    let config_content = "\n[profile kee-test]\n  sso_start_url   =   https://test.awsapps.com/start\n  region=us-east-1\n";

    let section = parse_aws_config_section(config_content, "profile kee-test").unwrap();

    assert_eq!(
        section.get("sso_start_url"),
        Some(&"https://test.awsapps.com/start".to_string())
    );
}

#[test]
fn test_parse_aws_config_section_duplicate_key_keeps_last() {
    let config_content = "[profile p]\nregion = one\nregion = two\n";
    let section = parse_aws_config_section(config_content, "profile p").unwrap();
    assert_eq!(section.len(), 1);
    assert_eq!(section.get("region"), Some(&"two".to_string()));
}

#[test]
fn test_parse_aws_config_section_stops_at_next_header() {
    let config_content = "[profile a]\nx = 1\n[profile b]\ny = 2\n";
    let section = parse_aws_config_section(config_content, "profile a").unwrap();
    assert_eq!(section.get("x"), Some(&"1".to_string()));
    assert!(!section.contains_key("y"));
}
