use kee::json::{parse_registry_json, registry_from_json, registry_to_json};
use kee::{KeeConfig, ProfileInfo};

fn sample_profile() -> ProfileInfo {
    ProfileInfo {
        profile_name: "kee-test".to_string(),
        sso_start_url: "https://test.awsapps.com/start".to_string(),
        sso_region: "us-east-1".to_string(),
        sso_account_id: "123456789012".to_string(),
        sso_role_name: "TestRole".to_string(),
        session_name: "test-session".to_string(),
    }
}

#[test]
fn test_profile_info_serialization() {
    let profile = ProfileInfo {
        profile_name: "kee-test".to_string(),
        sso_start_url: "https://test.awsapps.com/start".to_string(),
        sso_region: "us-east-1".to_string(),
        sso_account_id: "123456789012".to_string(),
        sso_role_name: "TestRole".to_string(),
        session_name: "test-session".to_string(),
    };

    let mut config = KeeConfig::new();
    config.add_profile("test".to_string(), profile.clone());
    let json = registry_to_json(&config);
    let deserialized = registry_from_json(json.as_str());

    assert_eq!(deserialized.get_profile("test"), Some(&profile));
}

#[test]
fn test_kee_config_serialization() {
    let mut config = KeeConfig::new();
    let profile = sample_profile();

    config.add_profile("test".to_string(), profile);
    config.set_current_profile(Some("test".to_string()));

    let json = registry_to_json(&config);
    let deserialized = registry_from_json(json.as_str());

    assert_eq!(config, deserialized);
}

#[test]
fn test_config_serialization() {
    let mut config = KeeConfig::default();
    let profile = ProfileInfo {
        profile_name: "test-profile".to_string(),
        sso_start_url: "https://test.awsapps.com/start".to_string(),
        sso_region: "us-east-1".to_string(),
        sso_account_id: "123456789012".to_string(),
        sso_role_name: "TestRole".to_string(),
        session_name: "test-session".to_string(),
    };

    config.profiles.insert("test".to_string(), profile.clone());
    config.current_profile = Some("test".to_string());

    // Test serialization
    let json = registry_to_json(&config);
    assert!(json.contains("test-profile"));
    assert!(json.contains("123456789012"));

    // Test deserialization
    let deserialized = registry_from_json(json.as_str());
    assert_eq!(deserialized.profiles.len(), 1);
    assert_eq!(deserialized.current_profile, Some("test".to_string()));
    assert_eq!(deserialized.profiles.get("test"), Some(&profile));
}

#[test]
fn test_multiple_profiles_in_config() {
    let mut config = KeeConfig::default();

    let profile1 = ProfileInfo {
        profile_name: "prod-profile".to_string(),
        sso_start_url: "https://prod.awsapps.com/start".to_string(),
        sso_region: "us-east-1".to_string(),
        sso_account_id: "111111111111".to_string(),
        sso_role_name: "ProdRole".to_string(),
        session_name: "prod-session".to_string(),
    };

    let profile2 = ProfileInfo {
        profile_name: "dev-profile".to_string(),
        sso_start_url: "https://dev.awsapps.com/start".to_string(),
        sso_region: "us-west-2".to_string(),
        sso_account_id: "222222222222".to_string(),
        sso_role_name: "DevRole".to_string(),
        session_name: "dev-session".to_string(),
    };

    config.profiles.insert("prod".to_string(), profile1.clone());
    config.profiles.insert("dev".to_string(), profile2.clone());

    let json = registry_to_json(&config);
    let deserialized = registry_from_json(json.as_str());

    assert_eq!(deserialized.profiles.len(), 2);
    assert_eq!(deserialized.profiles.get("prod"), Some(&profile1));
    assert_eq!(deserialized.profiles.get("dev"), Some(&profile2));
}

#[test]
fn test_empty_config_handling() {
    let config = KeeConfig::default();
    assert!(config.profiles.is_empty());
    assert!(config.current_profile.is_none());

    // Test serialization of empty config
    let json = registry_to_json(&config);
    let deserialized = registry_from_json(json.as_str());
    assert!(deserialized.profiles.is_empty());
    assert!(deserialized.current_profile.is_none());
}

#[test]
fn test_empty_config_exact_text() {
    let config = KeeConfig::new();
    let json = registry_to_json(&config);
    assert_eq!(json, "{\"profiles\":{},\"current_profile\":null}");
}

#[test]
fn test_malformed_registry_text_yields_empty() {
    let loaded = registry_from_json("{ invalid json }");
    assert!(loaded.is_empty());
    assert!(loaded.current_profile.is_none());
    assert!(parse_registry_json("{ invalid json }").is_none());
    assert!(parse_registry_json("").is_none());
    assert!(parse_registry_json("{\"profiles\":{}}").is_none());
}

#[test]
fn test_escaped_characters_round_trip() {
    let mut config = KeeConfig::new();
    let profile = ProfileInfo {
        profile_name: "quote\"back\\slash".to_string(),
        sso_start_url: "line\nbreak".to_string(),
        sso_region: "tab\there".to_string(),
        sso_account_id: "car\rriage".to_string(),
        sso_role_name: "ctrl\u{1}\u{1f}chars".to_string(),
        session_name: "plain and unicode \u{e9}\u{4e2d}".to_string(),
    };
    config.add_profile("odd \"nick\"".to_string(), profile.clone());
    config.set_current_profile(Some("odd \"nick\"".to_string()));

    let json = registry_to_json(&config);
    let deserialized = registry_from_json(json.as_str());
    assert_eq!(config, deserialized);
    assert_eq!(deserialized.get_profile("odd \"nick\""), Some(&profile));
}

#[test]
fn test_pretty_printed_registry_is_accepted() {
    // the layout a pretty printer writes: newlines and indentation between
    // tokens, none inside the strings
    let pretty = "{\n  \"profiles\": {\n    \"test\": {\n      \"profile_name\": \"kee-test\",\n      \"sso_start_url\": \"https://test.awsapps.com/start\",\n      \"sso_region\": \"us-east-1\",\n      \"sso_account_id\": \"123456789012\",\n      \"sso_role_name\": \"TestRole\",\n      \"session_name\": \"test-session\"\n    }\n  },\n  \"current_profile\": \"test\"\n}";
    let loaded = parse_registry_json(pretty).unwrap();
    assert_eq!(loaded.get_profile("test"), Some(&sample_profile()));
    assert_eq!(loaded.current_profile, Some("test".to_string()));

    let mut expected = KeeConfig::new();
    expected.add_profile("test".to_string(), sample_profile());
    expected.set_current_profile(Some("test".to_string()));
    assert_eq!(loaded, expected);
}

#[test]
fn test_whitespace_inside_strings_is_kept() {
    let text = "{ \"profiles\": { \"a b\": {\"profile_name\": \"p q\", \"sso_start_url\": \"u\", \"sso_region\": \"r\", \"sso_account_id\": \"1\", \"sso_role_name\": \"x\", \"session_name\": \"\"} }, \"current_profile\": \"a b\" }";
    let loaded = parse_registry_json(text).unwrap();
    let info = loaded.get_profile("a b").unwrap();
    assert_eq!(info.profile_name, "p q");
    assert_eq!(loaded.current_profile, Some("a b".to_string()));
}

#[test]
fn test_letter_escapes_are_read_back() {
    let text = "{\"profiles\":{\"n\":{\"profile_name\":\"a\\bb\\fc\\/d\",\"sso_start_url\":\"u\",\"sso_region\":\"r\",\"sso_account_id\":\"1\",\"sso_role_name\":\"x\",\"session_name\":\"\"}},\"current_profile\":null}";
    let loaded = parse_registry_json(text).unwrap();
    let info = loaded.get_profile("n").unwrap();
    assert_eq!(info.profile_name, "a\u{8}b\u{c}c/d");
}

#[test]
fn test_trailing_garbage_is_malformed() {
    let config = KeeConfig::new();
    let mut json = registry_to_json(&config);
    json.push_str("x");
    assert!(parse_registry_json(json.as_str()).is_none());
}
