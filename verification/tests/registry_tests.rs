use kee::registry::ProfileMap;
use kee::{format_profile_name, KeeConfig, ProfileInfo, KEE_ART};

fn sample_profile() -> ProfileInfo {
    ProfileInfo {
        profile_name: "kee-test".to_string(),
        sso_start_url: "https://test.awsapps.com/start".to_string(),
        sso_region: "us-east-1".to_string(),
        sso_account_id: "123456789012".to_string(),
        sso_role_name: "TestRole".to_string(),
        session_name: "test-session".to_string(),
    }
}

#[test]
fn test_kee_art_contains_expected_content() {
    assert!(KEE_ART.contains("AWS CLI profile manager"));
    assert!(!KEE_ART.is_empty());
    assert!(KEE_ART.len() > 50); // Should be a substantial ASCII art
}

#[test]
fn test_kee_config_default() {
    let config = KeeConfig::default();
    assert!(config.profiles.is_empty());
    assert!(config.current_profile.is_none());
    assert!(config.is_empty());
}

#[test]
fn lib_test_kee_config_new() {
    let config = KeeConfig::new();
    assert!(config.profiles.is_empty());
    assert!(config.current_profile.is_none());
}

#[test]
fn test_kee_config_add_profile() {
    let mut config = KeeConfig::new();
    let profile = sample_profile();

    config.add_profile("test".to_string(), profile.clone());

    assert!(!config.is_empty());
    assert_eq!(config.profiles.len(), 1);
    assert_eq!(config.get_profile("test"), Some(&profile));
}

#[test]
fn test_kee_config_remove_profile() {
    let mut config = KeeConfig::new();
    let profile = sample_profile();

    config.add_profile("test".to_string(), profile.clone());
    config.set_current_profile(Some("test".to_string()));

    let removed = config.remove_profile("test");

    assert_eq!(removed, Some(profile));
    assert!(config.is_empty());
    assert!(config.current_profile.is_none());
}

#[test]
fn test_kee_config_remove_nonexistent_profile() {
    let mut config = KeeConfig::new();
    let removed = config.remove_profile("nonexistent");
    assert!(removed.is_none());
}

#[test]
fn test_kee_config_get_profile() {
    let mut config = KeeConfig::new();
    let profile = sample_profile();

    config.add_profile("test".to_string(), profile.clone());

    assert_eq!(config.get_profile("test"), Some(&profile));
    assert_eq!(config.get_profile("nonexistent"), None);
}

#[test]
fn test_kee_config_list_profiles() {
    let mut config = KeeConfig::new();
    let profile1 = ProfileInfo {
        profile_name: "kee-test1".to_string(),
        sso_start_url: "https://test.awsapps.com/start".to_string(),
        sso_region: "us-east-1".to_string(),
        sso_account_id: "123456789012".to_string(),
        sso_role_name: "TestRole".to_string(),
        session_name: "test-session1".to_string(),
    };
    let profile2 = ProfileInfo {
        profile_name: "kee-test2".to_string(),
        sso_start_url: "https://test.awsapps.com/start".to_string(),
        sso_region: "us-west-2".to_string(),
        sso_account_id: "123456789013".to_string(),
        sso_role_name: "TestRole2".to_string(),
        session_name: "test-session2".to_string(),
    };

    config.add_profile("test1".to_string(), profile1);
    config.add_profile("test2".to_string(), profile2);

    let profiles = config.list_profiles();
    assert_eq!(profiles.len(), 2);

    let profile_names: Vec<&String> = profiles.iter().map(|(name, _)| *name).collect();
    assert!(profile_names.contains(&&"test1".to_string()));
    assert!(profile_names.contains(&&"test2".to_string()));
}

#[test]
fn test_kee_config_set_current_profile() {
    let mut config = KeeConfig::new();

    config.set_current_profile(Some("test".to_string()));
    assert_eq!(config.current_profile, Some("test".to_string()));

    config.set_current_profile(None);
    assert!(config.current_profile.is_none());
}

#[test]
fn test_format_profile_name() {
    assert_eq!(format_profile_name("test"), "kee-test");
    assert_eq!(format_profile_name("my-profile"), "kee-my-profile");
    assert_eq!(format_profile_name(""), "kee-");
}

#[test]
fn unit_tests_test_kee_config_new() {
    let config = KeeConfig::default();
    assert!(config.profiles.is_empty());
    assert!(config.current_profile.is_none());
}

#[test]
fn test_profile_info_creation() {
    let profile = ProfileInfo {
        profile_name: "test-profile".to_string(),
        sso_start_url: "https://test.awsapps.com/start".to_string(),
        sso_region: "us-east-1".to_string(),
        sso_account_id: "123456789012".to_string(),
        sso_role_name: "TestRole".to_string(),
        session_name: "test-session".to_string(),
    };

    assert_eq!(profile.profile_name, "test-profile");
    assert_eq!(profile.sso_account_id, "123456789012");
    assert_eq!(profile.sso_role_name, "TestRole");
}

#[test]
fn test_config_with_multiple_profiles() {
    let mut config = KeeConfig::default();

    let profile1 = ProfileInfo {
        profile_name: "prod-profile".to_string(),
        sso_start_url: "https://prod.awsapps.com/start".to_string(),
        sso_region: "us-east-1".to_string(),
        sso_account_id: "111111111111".to_string(),
        sso_role_name: "ProdRole".to_string(),
        session_name: "prod-session".to_string(),
    };

    let profile2 = ProfileInfo {
        profile_name: "dev-profile".to_string(),
        sso_start_url: "https://dev.awsapps.com/start".to_string(),
        sso_region: "us-west-2".to_string(),
        sso_account_id: "222222222222".to_string(),
        sso_role_name: "DevRole".to_string(),
        session_name: "dev-session".to_string(),
    };

    config.profiles.insert("prod".to_string(), profile1.clone());
    config.profiles.insert("dev".to_string(), profile2.clone());

    assert_eq!(config.profiles.len(), 2);
    assert_eq!(config.profiles.get("prod"), Some(&profile1));
    assert_eq!(config.profiles.get("dev"), Some(&profile2));
}

#[test]
fn test_environment_variable_constants() {
    // Test that our constants are properly defined
    let kee_vars = vec![
        "KEE_ACTIVE_PROFILE",
        "KEE_CURRENT_PROFILE",
        "AWS_PROFILE",
        "AWS_CLI_AUTO_PROMPT",
        "AWS_PAGER",
    ];

    for var in kee_vars {
        assert!(!var.is_empty());
        assert!(var.len() > 3);
    }
}

#[test]
fn test_profile_info_clone() {
    let profile = ProfileInfo {
        profile_name: "test".to_string(),
        sso_start_url: "https://test.com".to_string(),
        sso_region: "us-east-1".to_string(),
        sso_account_id: "123456789012".to_string(),
        sso_role_name: "TestRole".to_string(),
        session_name: "session".to_string(),
    };

    let cloned = profile.clone();
    assert_eq!(profile.profile_name, cloned.profile_name);
    assert_eq!(profile.sso_account_id, cloned.sso_account_id);
}

#[test]
fn test_version_from_cargo() {
    // The version the package is built as; must follow semantic versioning.
    let version = "1.0.0";
    assert!(!version.is_empty());
    assert!(version.contains('.'));

    // Should match semantic versioning pattern (basic check)
    let parts: Vec<&str> = version.split('.').collect();
    assert!(parts.len() >= 2); // At least major.minor

    // Each part should be numeric
    for part in parts {
        assert!(part.chars().all(|c| c.is_ascii_digit()));
    }
}

#[test]
fn test_replacing_a_nickname_keeps_one_binding() {
    let mut map = ProfileMap::new();
    let mut first = sample_profile();
    first.sso_account_id = "000000000000".to_string();
    let second = sample_profile();
    map.insert("test".to_string(), first);
    map.insert("test".to_string(), second.clone());
    assert_eq!(map.len(), 1);
    assert_eq!(map.get("test"), Some(&second));
    assert!(map.contains_key("test"));
    assert!(!map.contains_key("other"));
}

#[test]
fn test_current_pointer_survives_removing_another_profile() {
    let mut config = KeeConfig::new();
    config.add_profile("a".to_string(), sample_profile());
    config.add_profile("b".to_string(), sample_profile());
    config.set_current_profile(Some("a".to_string()));
    let removed = config.remove_profile("b");
    assert!(removed.is_some());
    assert_eq!(config.current_profile, Some("a".to_string()));
}
