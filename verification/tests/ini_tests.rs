use kee::AwsManager;

#[test]
fn test_aws_config_parsing() {
    let aws_config_content = "\n[profile test-profile]\nsso_start_url = https://test.awsapps.com/start\nsso_region = us-east-1\nsso_account_id = 123456789012\nsso_role_name = TestRole\nsso_session = test-session\n\n[sso-session test-session]\nsso_start_url = https://test.awsapps.com/start\nsso_region = us-east-1\n\n[profile other-profile]\nsso_account_id = 999999999999\n";

    let config = AwsManager::parse_text(aws_config_content).unwrap();

    assert_eq!(
        config.section_value("profile test-profile", "sso_start_url"),
        Some("https://test.awsapps.com/start".to_string())
    );
    assert_eq!(
        config.section_value("profile test-profile", "sso_region"),
        Some("us-east-1".to_string())
    );
    assert_eq!(
        config.section_value("profile test-profile", "sso_account_id"),
        Some("123456789012".to_string())
    );
    assert_eq!(
        config.section_value("profile test-profile", "sso_role_name"),
        Some("TestRole".to_string())
    );
    assert_eq!(
        config.section_value("profile test-profile", "sso_session"),
        Some("test-session".to_string())
    );
}

#[test]
fn test_aws_config_with_sso_session() {
    let aws_config_content = "\n[profile modern-profile]\nsso_session = company-session\nsso_account_id = 123456789012\nsso_role_name = ModernRole\n\n[sso-session company-session]\nsso_start_url = https://company.awsapps.com/start\nsso_region = us-west-2\n";

    let config = AwsManager::parse_text(aws_config_content).unwrap();

    // Test profile section
    assert_eq!(
        config.section_value("profile modern-profile", "sso_session"),
        Some("company-session".to_string())
    );
    assert_eq!(
        config.section_value("profile modern-profile", "sso_account_id"),
        Some("123456789012".to_string())
    );

    // Test sso-session section
    assert_eq!(
        config.section_value("sso-session company-session", "sso_start_url"),
        Some("https://company.awsapps.com/start".to_string())
    );
    assert_eq!(
        config.section_value("sso-session company-session", "sso_region"),
        Some("us-west-2".to_string())
    );
}

#[test]
fn test_read_profile_resolves_session_reference() {
    // The profile section carries its own start URL and region, but the
    // session reference must win.
    let text = "[profile p]\nsso_session = corp\nsso_account_id = 123456789012\nsso_role_name = Dev\nsso_start_url = https://wrong.example/start\nsso_region = eu-west-1\n\n[sso-session corp]\nsso_start_url = https://corp.awsapps.com/start\nsso_region = us-west-2\n";
    let config = AwsManager::parse_text(text).unwrap();
    let info = config.read_profile("p").unwrap();
    assert_eq!(info.profile_name, "p");
    assert_eq!(info.sso_start_url, "https://corp.awsapps.com/start");
    assert_eq!(info.sso_region, "us-west-2");
    assert_eq!(info.sso_account_id, "123456789012");
    assert_eq!(info.sso_role_name, "Dev");
    assert_eq!(info.session_name, "corp");
}

#[test]
fn test_read_profile_missing_session_section_gives_empty_strings() {
    let text = "[profile p]\nsso_session = ghost\nsso_account_id = 123456789012\nsso_role_name = Dev\n";
    let config = AwsManager::parse_text(text).unwrap();
    let info = config.read_profile("p").unwrap();
    assert_eq!(info.sso_start_url, "");
    assert_eq!(info.sso_region, "");
    assert_eq!(info.session_name, "ghost");
}

#[test]
fn test_read_profile_legacy_format() {
    let text = "[profile p]\nsso_account_id = 123456789012\nsso_role_name = Dev\nsso_start_url = https://legacy.awsapps.com/start\nsso_region = us-east-1\n";
    let config = AwsManager::parse_text(text).unwrap();
    let info = config.read_profile("p").unwrap();
    assert_eq!(info.sso_start_url, "https://legacy.awsapps.com/start");
    assert_eq!(info.sso_region, "us-east-1");
    assert_eq!(info.session_name, "");
}

#[test]
fn test_read_profile_empty_account_id_is_none() {
    let text = "[profile p]\nsso_account_id =\nsso_role_name = Dev\n";
    let config = AwsManager::parse_text(text).unwrap();
    assert!(config.read_profile("p").is_none());
}

#[test]
fn test_read_profile_empty_role_name_is_none() {
    let text = "[profile p]\nsso_account_id = 123456789012\nsso_role_name =\n";
    let config = AwsManager::parse_text(text).unwrap();
    assert!(config.read_profile("p").is_none());
}

#[test]
fn test_read_profile_missing_account_id_is_none() {
    let text = "[profile p]\nsso_role_name = Dev\nsso_start_url = https://x.example/start\n";
    let config = AwsManager::parse_text(text).unwrap();
    assert!(config.read_profile("p").is_none());
}

#[test]
fn test_read_profile_missing_role_name_is_none() {
    let text = "[profile p]\nsso_account_id = 123456789012\n";
    let config = AwsManager::parse_text(text).unwrap();
    assert!(config.read_profile("p").is_none());
}

#[test]
fn test_read_profile_unknown_section_is_none() {
    let config = AwsManager::parse_text("[profile other]\nsso_account_id = 1\nsso_role_name = r\n")
        .unwrap();
    assert!(config.read_profile("p").is_none());
}

#[test]
fn test_ini_round_trip_preserves_bindings() {
    let text = "[profile a]\nk1 = v1\nk2 = v2\n\n[sso-session s]\nurl = https://e.example\n";
    let first = AwsManager::parse_text(text).unwrap();
    let rendered = first.to_text();
    let second = AwsManager::parse_text(rendered.as_str()).unwrap();
    assert_eq!(second.section_value("profile a", "k1"), Some("v1".to_string()));
    assert_eq!(second.section_value("profile a", "k2"), Some("v2".to_string()));
    assert_eq!(
        second.section_value("sso-session s", "url"),
        Some("https://e.example".to_string())
    );
    // rendering the reparsed value changes nothing further
    assert_eq!(second.to_text(), rendered);
}

#[test]
fn test_format_config_normalizes_layout() {
    let text = "[profile a]\n   k1   =    v1\nbare_key\n; a comment\nk2=v2";
    let formatted = AwsManager::format_config(text).unwrap();
    assert_eq!(formatted, "[profile a]\nk1 = v1\nk2 = v2\n\n");
}

#[test]
fn test_format_config_rejects_malformed_header() {
    assert!(AwsManager::format_config("[broken\nk = v\n").is_err());
}

#[test]
fn test_parse_text_skips_binding_before_any_section() {
    let config = AwsManager::parse_text("k = v\n[s]\na = 1\n").unwrap();
    assert_eq!(config.section_value("s", "a"), Some("1".to_string()));
    assert_eq!(config.section_value("s", "k"), None);
    assert_eq!(config.to_text(), "[s]\na = 1\n\n");
}

#[test]
fn test_parse_text_rejects_empty_key() {
    assert!(AwsManager::parse_text("[s]\n= v\n").is_err());
}

#[test]
fn test_remove_profile_drops_only_that_section() {
    let text = "[profile a]\nk = 1\n\n[profile b]\nk = 2\n";
    let mut config = AwsManager::parse_text(text).unwrap();
    config.remove_profile("a");
    assert_eq!(config.section_value("profile a", "k"), None);
    assert_eq!(config.section_value("profile b", "k"), Some("2".to_string()));
}

#[test]
fn test_remove_section_absent_name_is_no_error() {
    let mut config = AwsManager::parse_text("[profile a]\nk = 1\n").unwrap();
    config.remove_section("sso-session ghost");
    assert_eq!(config.section_value("profile a", "k"), Some("1".to_string()));
}

#[test]
fn test_empty_config_renders_empty_text() {
    let config = AwsManager::new();
    assert_eq!(config.to_text(), "");
}
