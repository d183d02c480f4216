use kee::controller::{
    add_command, choose_shell, current_command, hlt, is_affirmative, list_command, prompt_prefix,
    remove_command, subshell_env, use_step, AddOutcome, ListOutput, RemoveOutcome, UseAction,
    UseEvent, UseState, AWS_CLI_AUTO_PROMPT, AWS_PAGER, AWS_PROFILE, KEE_ACTIVE_PROFILE,
    KEE_CURRENT_PROFILE,
};
use kee::{KeeConfig, ProfileInfo};

fn sample_profile() -> ProfileInfo {
    ProfileInfo {
        profile_name: "kee-test".to_string(),
        sso_start_url: "https://test.awsapps.com/start".to_string(),
        sso_region: "us-east-1".to_string(),
        sso_account_id: "123456789012".to_string(),
        sso_role_name: "TestRole".to_string(),
        session_name: "test-session".to_string(),
    }
}

#[test]
fn test_hlt_wraps_text_in_highlight() {
    assert_eq!(hlt("Kee"), "\u{1b}[1;37mKee\u{1b}[0m");
    assert_eq!(hlt(""), "\u{1b}[1;37m\u{1b}[0m");
}

#[test]
fn test_environment_variable_names() {
    assert_eq!(KEE_ACTIVE_PROFILE, "KEE_ACTIVE_PROFILE");
    assert_eq!(KEE_CURRENT_PROFILE, "KEE_CURRENT_PROFILE");
    assert_eq!(AWS_PROFILE, "AWS_PROFILE");
    assert_eq!(AWS_CLI_AUTO_PROMPT, "AWS_CLI_AUTO_PROMPT");
    assert_eq!(AWS_PAGER, "AWS_PAGER");
}

#[test]
fn test_add_command_configure_failure_changes_nothing() {
    let mut cfg = KeeConfig::new();
    let r = add_command(&mut cfg, "test", false, None);
    assert_eq!(r, AddOutcome::ConfigureFailed);
    assert!(cfg.is_empty());
}

#[test]
fn test_add_command_unreadable_profile_changes_nothing() {
    let mut cfg = KeeConfig::new();
    let r = add_command(&mut cfg, "test", true, None);
    assert_eq!(r, AddOutcome::ProfileUnreadable);
    assert!(cfg.is_empty());
}

#[test]
fn test_add_command_registers_profile() {
    let mut cfg = KeeConfig::new();
    let profile = sample_profile();
    let r = add_command(&mut cfg, "test", true, Some(profile.clone()));
    assert_eq!(r, AddOutcome::Added);
    assert_eq!(cfg.get_profile("test"), Some(&profile));
}

#[test]
fn test_remove_command_unknown_nickname_is_untouched() {
    let mut cfg = KeeConfig::new();
    cfg.add_profile("other".to_string(), sample_profile());
    let before = registry_snapshot(&cfg);
    let r = remove_command(&mut cfg, "missing", true);
    assert_eq!(r, RemoveOutcome::NotFound);
    assert_eq!(registry_snapshot(&cfg), before);
}

#[test]
fn test_remove_command_declined_is_untouched() {
    let mut cfg = KeeConfig::new();
    cfg.add_profile("test".to_string(), sample_profile());
    let r = remove_command(&mut cfg, "test", false);
    assert_eq!(r, RemoveOutcome::Declined);
    assert!(cfg.get_profile("test").is_some());
}

#[test]
fn test_remove_command_confirmed_removes_and_asks_for_session_removal() {
    let mut cfg = KeeConfig::new();
    cfg.add_profile("test".to_string(), sample_profile());
    cfg.set_current_profile(Some("test".to_string()));
    let r = remove_command(&mut cfg, "test", true);
    match r {
        RemoveOutcome::Removed { info, remove_session } => {
            assert_eq!(info, sample_profile());
            assert!(remove_session);
        }
        _ => panic!("expected a removal"),
    }
    assert!(cfg.is_empty());
    assert!(cfg.current_profile.is_none());
}

#[test]
fn test_remove_command_empty_session_name_skips_session_removal() {
    let mut cfg = KeeConfig::new();
    let mut profile = sample_profile();
    profile.session_name = "".to_string();
    cfg.add_profile("test".to_string(), profile);
    let r = remove_command(&mut cfg, "test", true);
    match r {
        RemoveOutcome::Removed { remove_session, .. } => assert!(!remove_session),
        _ => panic!("expected a removal"),
    }
}

#[test]
fn test_list_command_empty_registry_prints_hint() {
    let cfg = KeeConfig::new();
    assert!(matches!(list_command(&cfg, false), ListOutput::Hint));
    assert!(matches!(list_command(&cfg, true), ListOutput::Hint));
}

#[test]
fn test_list_command_names_mode() {
    let mut cfg = KeeConfig::new();
    cfg.add_profile("one".to_string(), sample_profile());
    cfg.add_profile("two".to_string(), sample_profile());
    match list_command(&cfg, true) {
        ListOutput::Names(names) => {
            assert_eq!(names, vec!["one".to_string(), "two".to_string()]);
        }
        _ => panic!("expected bare names"),
    }
}

#[test]
fn test_list_command_rows_mark_current() {
    let mut cfg = KeeConfig::new();
    cfg.add_profile("one".to_string(), sample_profile());
    cfg.add_profile("two".to_string(), sample_profile());
    cfg.set_current_profile(Some("two".to_string()));
    match list_command(&cfg, false) {
        ListOutput::Rows(rows) => {
            assert_eq!(rows.len(), 2);
            assert_eq!(rows[0].nickname, "one");
            assert!(!rows[0].current);
            assert_eq!(rows[1].nickname, "two");
            assert!(rows[1].current);
            assert_eq!(rows[0].account_id, "123456789012");
            assert_eq!(rows[0].role, "TestRole");
        }
        _ => panic!("expected rows"),
    }
}

#[test]
fn test_current_command_prefers_environment() {
    let mut cfg = KeeConfig::new();
    cfg.set_current_profile(Some("from-file".to_string()));
    let r = current_command(Some("from-env".to_string()), &cfg);
    assert_eq!(r, Some("from-env".to_string()));
}

#[test]
fn test_current_command_falls_back_to_registry() {
    let mut cfg = KeeConfig::new();
    cfg.set_current_profile(Some("from-file".to_string()));
    assert_eq!(current_command(None, &cfg), Some("from-file".to_string()));
    cfg.set_current_profile(None);
    assert_eq!(current_command(None, &cfg), None);
}

#[test]
fn test_use_step_rejects_nested_session() {
    let mut cfg = KeeConfig::new();
    cfg.add_profile("test".to_string(), sample_profile());
    let (state, action) =
        use_step(UseState::Start, UseEvent::Begin { in_session: true }, &mut cfg, "test");
    assert_eq!(state, UseState::Done(false));
    assert!(matches!(action, UseAction::ReportNested));
}

#[test]
fn test_use_step_known_profile_checks_credentials() {
    let mut cfg = KeeConfig::new();
    cfg.add_profile("test".to_string(), sample_profile());
    let (state, action) =
        use_step(UseState::Start, UseEvent::Begin { in_session: false }, &mut cfg, "test");
    assert_eq!(state, UseState::AwaitCreds);
    match action {
        UseAction::CheckCreds(name) => assert_eq!(name, "kee-test"),
        _ => panic!("expected a credential probe"),
    }
}

#[test]
fn test_use_step_unknown_profile_offers_add() {
    let mut cfg = KeeConfig::new();
    let (state, action) =
        use_step(UseState::Start, UseEvent::Begin { in_session: false }, &mut cfg, "test");
    assert_eq!(state, UseState::AwaitAddConsent);
    assert!(matches!(action, UseAction::OfferAdd));
    let (state, action) = use_step(UseState::AwaitAddConsent, UseEvent::Consent(false), &mut cfg, "test");
    assert_eq!(state, UseState::Done(false));
    assert!(matches!(action, UseAction::Finish));
}

#[test]
fn test_use_step_full_session_sets_and_clears_pointer() {
    let mut cfg = KeeConfig::new();
    cfg.add_profile("test".to_string(), sample_profile());

    let (state, _) =
        use_step(UseState::Start, UseEvent::Begin { in_session: false }, &mut cfg, "test");
    assert_eq!(state, UseState::AwaitCreds);

    // invalid credentials lead to a login attempt
    let (state, action) = use_step(state, UseEvent::CredsChecked(false), &mut cfg, "test");
    assert_eq!(state, UseState::AwaitLogin);
    assert!(matches!(action, UseAction::RunLogin(_)));
    assert!(cfg.current_profile.is_none());

    // a successful login enters the sub-shell and sets the pointer
    let (state, action) = use_step(state, UseEvent::LoginFinished(true), &mut cfg, "test");
    assert_eq!(state, UseState::InShell);
    match action {
        UseAction::EnterShell(name) => assert_eq!(name, "kee-test"),
        _ => panic!("expected the sub-shell"),
    }
    assert_eq!(cfg.current_profile, Some("test".to_string()));

    // leaving the sub-shell clears the pointer, however it exited
    let (state, action) = use_step(state, UseEvent::ShellExited, &mut cfg, "test");
    assert_eq!(state, UseState::Done(true));
    assert!(matches!(action, UseAction::ClearAndReport));
    assert!(cfg.current_profile.is_none());
}

#[test]
fn test_use_step_failed_login_aborts() {
    let mut cfg = KeeConfig::new();
    cfg.add_profile("test".to_string(), sample_profile());
    let (state, action) =
        use_step(UseState::AwaitLogin, UseEvent::LoginFinished(false), &mut cfg, "test");
    assert_eq!(state, UseState::Done(false));
    assert!(matches!(action, UseAction::ReportLoginFailed));
    assert!(cfg.current_profile.is_none());
}

#[test]
fn test_use_step_add_flow_ready_without_entering() {
    let mut cfg = KeeConfig::new();
    let (state, action) = use_step(UseState::AwaitAddConsent, UseEvent::Consent(true), &mut cfg, "test");
    assert_eq!(state, UseState::AwaitAdd);
    assert!(matches!(action, UseAction::RunAdd));

    // the add flow registered the profile
    cfg.add_profile("test".to_string(), sample_profile());
    let (state, action) = use_step(state, UseEvent::AddFinished(true), &mut cfg, "test");
    assert_eq!(state, UseState::AwaitUseConsent);
    assert!(matches!(action, UseAction::OfferUseNow));

    // declining still counts as success: the profile is ready for later
    let (state, action) = use_step(state, UseEvent::Consent(false), &mut cfg, "test");
    assert_eq!(state, UseState::Done(true));
    assert!(matches!(action, UseAction::ReportReady));
}

#[test]
fn test_use_step_failed_add_aborts() {
    let mut cfg = KeeConfig::new();
    let (state, action) = use_step(UseState::AwaitAdd, UseEvent::AddFinished(false), &mut cfg, "test");
    assert_eq!(state, UseState::Done(false));
    assert!(matches!(action, UseAction::ReportAddFailed));
}

#[test]
fn test_use_step_mismatched_event_is_invalid() {
    let mut cfg = KeeConfig::new();
    let (state, action) = use_step(UseState::Start, UseEvent::ShellExited, &mut cfg, "test");
    assert_eq!(state, UseState::Done(false));
    assert!(matches!(action, UseAction::Invalid));
}

#[test]
fn test_subshell_env_injects_three_variables() {
    let env = subshell_env("kee-test");
    assert_eq!(env.len(), 3);
    assert_eq!(env[0], ("AWS_PROFILE".to_string(), "kee-test".to_string()));
    assert_eq!(
        env[1],
        ("KEE_CURRENT_PROFILE".to_string(), "kee-test".to_string())
    );
    assert_eq!(env[2], ("KEE_ACTIVE_PROFILE".to_string(), "1".to_string()));
}

#[test]
fn test_prompt_prefix_tags_the_prompt() {
    assert_eq!(prompt_prefix("kee-test", Some("$ ")), "aws:kee-test $ ");
    assert_eq!(prompt_prefix("kee-test", None), "aws:kee-test $ ");
    assert_eq!(prompt_prefix("p", Some("[u@h]$ ")), "aws:p [u@h]$ ");
}

#[test]
fn test_is_affirmative_accepts_a_lone_y() {
    assert!(is_affirmative("y"));
    assert!(is_affirmative("Y"));
    assert!(is_affirmative("y\n"));
    assert!(is_affirmative("  y \r\n"));
    assert!(!is_affirmative(""));
    assert!(!is_affirmative("\n"));
    assert!(!is_affirmative("n"));
    assert!(!is_affirmative("yes"));
    assert!(!is_affirmative("y y"));
}

#[test]
fn test_choose_shell_fallbacks() {
    assert_eq!(
        choose_shell(true, Some("C:\\cmd".to_string()), Some("/bin/zsh".to_string())),
        "C:\\cmd"
    );
    assert_eq!(choose_shell(true, None, Some("/bin/zsh".to_string())), "cmd.exe");
    assert_eq!(choose_shell(false, None, Some("/bin/zsh".to_string())), "/bin/zsh");
    assert_eq!(choose_shell(false, None, None), "/bin/bash");
}

fn registry_snapshot(cfg: &KeeConfig) -> Vec<(String, ProfileInfo)> {
    cfg.list_profiles()
        .iter()
        .map(|(n, p)| ((*n).clone(), (*p).clone()))
        .collect()
}
