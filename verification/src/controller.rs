use vstd::prelude::*;

use crate::registry::{spec_add_profile, spec_remove_profile, KeeConfig, ProfileInfo, ProfileInfoV};

verus! {

/// Environment marker that a profile session is active.
pub const KEE_ACTIVE_PROFILE: &'static str = "KEE_ACTIVE_PROFILE";

/// Environment variable naming the profile of the live sub-shell.
pub const KEE_CURRENT_PROFILE: &'static str = "KEE_CURRENT_PROFILE";

/// Environment variable the AWS CLI reads to pick its profile.
pub const AWS_PROFILE: &'static str = "AWS_PROFILE";

/// Environment variable that disables the AWS CLI auto-prompt.
pub const AWS_CLI_AUTO_PROMPT: &'static str = "AWS_CLI_AUTO_PROMPT";

/// Environment variable that disables the AWS CLI pager.
pub const AWS_PAGER: &'static str = "AWS_PAGER";

pub const BOLD_WHITE: &'static str = "\u{1b}[1;37m";

pub const RESET: &'static str = "\u{1b}[0m";

/// Wraps text in the bold-white terminal highlight.
pub fn hlt(text: &str) -> (r: String)
    ensures
        r@ == BOLD_WHITE@ + text@ + RESET@,
{
    let mut s = String::from_str(BOLD_WHITE);
    s.append(text);
    s.append(RESET);
    s
}

/// How adding a profile ended.
#[derive(Debug, PartialEq, Eq, Structural, Clone, Copy)]
pub enum AddOutcome {
    /// The external SSO configure flow exited non-zero; nothing was changed.
    ConfigureFailed,
    /// The flow ran but the written profile lacked its account id or role
    /// name; nothing was changed.
    ProfileUnreadable,
    /// The profile was registered.
    Added,
}

/// What the `add` command decides once the external SSO configure flow has
/// run (`configure_ok` its exit) and the AWS config has been read back
/// (`profile`): only a readable profile after a clean exit is registered.
pub fn add_command(
    cfg: &mut KeeConfig,
    nickname: &str,
    configure_ok: bool,
    profile: Option<ProfileInfo>,
) -> (r: AddOutcome)
    requires
        old(cfg).wf(),
    ensures
        final(cfg).wf(),
        !configure_ok ==> r == AddOutcome::ConfigureFailed && *final(cfg) == *old(cfg),
        configure_ok && profile is None ==> r == AddOutcome::ProfileUnreadable && *final(cfg)
            == *old(cfg),
        (configure_ok && (profile matches Some(info))) ==> r == AddOutcome::Added && final(cfg)@
            == spec_add_profile(old(cfg)@, nickname@, profile->Some_0@),
{
    if !configure_ok {
        return AddOutcome::ConfigureFailed;
    }
    match profile {
        None => AddOutcome::ProfileUnreadable,
        Some(info) => {
            cfg.add_profile(nickname.to_owned(), info);
            AddOutcome::Added
        },
    }
}

/// How removing a profile ended.
#[derive(Debug, PartialEq, Eq)]
pub enum RemoveOutcome {
    /// No such nickname; nothing was changed and nothing is to be written.
    NotFound,
    /// The user declined the confirmation; nothing was changed.
    Declined,
    /// The profile was unregistered. The `profile <name>` section of the AWS
    /// config is to be dropped, and the `sso-session` section only when
    /// `remove_session` holds.
    Removed { info: ProfileInfo, remove_session: bool },
}

/// What the `rm` command decides: an unknown nickname or a declined
/// confirmation leaves the registry untouched; on removal the current pointer
/// is cleared when it named the nickname, and the SSO session section is to
/// be dropped only when the profile named one.
pub fn remove_command(cfg: &mut KeeConfig, nickname: &str, confirmed: bool) -> (r: RemoveOutcome)
    requires
        old(cfg).wf(),
    ensures
        final(cfg).wf(),
        !old(cfg)@.profiles.contains_key(nickname@) ==> r == RemoveOutcome::NotFound && *final(cfg)
            == *old(cfg),
        old(cfg)@.profiles.contains_key(nickname@) && !confirmed ==> r == RemoveOutcome::Declined
            && *final(cfg) == *old(cfg),
        old(cfg)@.profiles.contains_key(nickname@) && confirmed ==> (r matches
            RemoveOutcome::Removed { info, remove_session } && info@ == old(
            cfg,
        )@.profiles[nickname@] && remove_session == (info.session_name@.len() > 0) && final(cfg)@
            == spec_remove_profile(old(cfg)@, nickname@)),
{
    if cfg.get_profile(nickname).is_none() {
        return RemoveOutcome::NotFound;
    }
    if !confirmed {
        return RemoveOutcome::Declined;
    }
    match cfg.remove_profile(nickname) {
        Some(info) => {
            let remove_session = info.session_name.as_str().unicode_len() > 0;
            RemoveOutcome::Removed { info, remove_session }
        },
        None => vstd::pervasive::unreached(),
    }
}

/// One row of the profile listing.
pub struct ListRow {
    pub nickname: String,
    pub account_id: String,
    pub role: String,
    pub current: bool,
}

/// What `ls` prints: a hint when nothing is registered, the bare names for
/// scripting, or one row per profile with a marker on the current one.
pub enum ListOutput {
    Hint,
    Names(Vec<String>),
    Rows(Vec<ListRow>),
}

/// What the `ls` command decides from the registry. An empty registry always
/// yields the hint, never an empty table.
pub fn list_command(cfg: &KeeConfig, names_only: bool) -> (r: ListOutput)
    requires
        cfg.wf(),
    ensures
        (r is Hint <==> cfg@.profiles == Map::<Seq<char>, ProfileInfoV>::empty()),
        names_only && !(r is Hint) ==> (r matches ListOutput::Names(ns) && ns@.len()
            == cfg.profiles.spec_len() && forall|i: int|
            0 <= i < ns@.len() ==> (#[trigger] ns@[i])@ == cfg.profiles.entries_view()[i].0),
        !names_only && !(r is Hint) ==> (r matches ListOutput::Rows(rows) && rows@.len()
            == cfg.profiles.spec_len() && forall|i: int|
            0 <= i < rows@.len() ==> {
                let e = cfg.profiles.entries_view()[i];
                &&& (#[trigger] rows@[i]).nickname@ == e.0
                &&& rows@[i].account_id@ == e.1.sso_account_id
                &&& rows@[i].role@ == e.1.sso_role_name
                &&& rows@[i].current == (cfg@.current_profile == Some(e.0))
            }),
{
    if cfg.is_empty() {
        return ListOutput::Hint;
    }
    let n = cfg.profiles.len();
    if names_only {
        let mut names: Vec<String> = Vec::new();
        let mut i: usize = 0;
        while i < n
            invariant
                i <= n,
                n == cfg.profiles.spec_len(),
                n == cfg.profiles.entries.len(),
                names@.len() == i,
                forall|j: int|
                    0 <= j < i ==> (#[trigger] names@[j])@ == cfg.profiles.entries_view()[j].0,
            decreases n - i,
        {
            names.push(cfg.profiles.entries[i].0.clone());
            i = i + 1;
        }
        ListOutput::Names(names)
    } else {
        let mut rows: Vec<ListRow> = Vec::new();
        let mut i: usize = 0;
        while i < n
            invariant
                i <= n,
                cfg.wf(),
                n == cfg.profiles.spec_len(),
                n == cfg.profiles.entries.len(),
                rows@.len() == i,
                forall|j: int|
                    0 <= j < i ==> {
                        let e = cfg.profiles.entries_view()[j];
                        &&& (#[trigger] rows@[j]).nickname@ == e.0
                        &&& rows@[j].account_id@ == e.1.sso_account_id
                        &&& rows@[j].role@ == e.1.sso_role_name
                        &&& rows@[j].current == (cfg@.current_profile == Some(e.0))
                    },
            decreases n - i,
        {
            let entry = &cfg.profiles.entries[i];
            let current = match &cfg.current_profile {
                Some(c) => *c == entry.0,
                None => false,
            };
            rows.push(
                ListRow {
                    nickname: entry.0.clone(),
                    account_id: entry.1.sso_account_id.clone(),
                    role: entry.1.sso_role_name.clone(),
                    current,
                },
            );
            i = i + 1;
        }
        ListOutput::Rows(rows)
    }
}

/// What the `current` command reports: the live sub-shell's profile from the
/// environment when one is set — it reflects the running session — and the
/// persisted pointer only otherwise.
pub fn current_command(env_profile: Option<String>, cfg: &KeeConfig) -> (r: Option<String>)
    ensures
        env_profile matches Some(p) ==> r matches Some(q) && q == p,
        env_profile is None ==> r.deep_view() == cfg@.current_profile,
{
    match env_profile {
        Some(p) => Some(p),
        None => match &cfg.current_profile {
            Some(c) => Some(c.clone()),
            None => None,
        },
    }
}

/// Where the `use` command stands between two external steps.
#[derive(Debug, PartialEq, Eq, Structural, Clone, Copy)]
pub enum UseState {
    /// Nothing has happened yet.
    Start,
    /// The user is being asked whether to add the unknown profile.
    AwaitAddConsent,
    /// The add flow is running.
    AwaitAdd,
    /// The user is being asked whether to enter the freshly added profile.
    AwaitUseConsent,
    /// Credentials are being probed.
    AwaitCreds,
    /// SSO login is running.
    AwaitLogin,
    /// The sub-shell is running.
    InShell,
    /// The command is over; the payload is its success.
    Done(bool),
}

/// What the environment reports back to the `use` command.
pub enum UseEvent {
    /// The command starts; whether the session marker is already set.
    Begin { in_session: bool },
    /// The user answered a yes/no question.
    Consent(bool),
    /// The add flow finished, successfully or not.
    AddFinished(bool),
    /// The credential probe finished; whether credentials are valid.
    CredsChecked(bool),
    /// The SSO login finished, successfully or not.
    LoginFinished(bool),
    /// The sub-shell exited, however it exited.
    ShellExited,
}

/// What the caller must do next for the `use` command.
pub enum UseAction {
    /// Say that a session is already active and how to leave it.
    ReportNested,
    /// Say the profile is unknown, list the known ones, offer to add it.
    OfferAdd,
    /// Run the add flow for the nickname.
    RunAdd,
    /// Offer to enter the freshly added profile now.
    OfferUseNow,
    /// Say the profile is ready for a later `use`.
    ReportReady,
    /// Say the add flow failed.
    ReportAddFailed,
    /// Probe credentials of the named AWS profile.
    CheckCreds(String),
    /// Run SSO login for the named AWS profile.
    RunLogin(String),
    /// Persist the registry, then spawn the sub-shell for the named AWS
    /// profile and wait for it.
    EnterShell(String),
    /// Say that login failed.
    ReportLoginFailed,
    /// Persist the registry: the pointer was cleared after the sub-shell.
    ClearAndReport,
    /// Nothing: the command is over.
    Finish,
    /// The event does not belong to the state.
    Invalid,
}

/// One step of the `use` command: from the state and the event that ended the
/// last external step, decide the registry change and the next action. The
/// current pointer is set on entering the sub-shell and cleared when it
/// exits, whatever the exit looked like.
pub fn use_step(state: UseState, event: UseEvent, cfg: &mut KeeConfig, nickname: &str) -> (r: (
    UseState,
    UseAction,
))
    requires
        old(cfg).wf(),
    ensures
        final(cfg).wf(),
        match (state, event) {
            (UseState::Start, UseEvent::Begin { in_session }) => {
                if in_session {
                    r.0 == UseState::Done(false) && r.1 is ReportNested && *final(cfg) == *old(cfg)
                } else if old(cfg)@.profiles.contains_key(nickname@) {
                    r.0 == UseState::AwaitCreds && (r.1 matches UseAction::CheckCreds(p) && p@
                        == old(cfg)@.profiles[nickname@].profile_name) && *final(cfg) == *old(cfg)
                } else {
                    r.0 == UseState::AwaitAddConsent && r.1 is OfferAdd && *final(cfg) == *old(cfg)
                }
            },
            (UseState::AwaitAddConsent, UseEvent::Consent(yes)) => {
                if yes {
                    r.0 == UseState::AwaitAdd && r.1 is RunAdd && *final(cfg) == *old(cfg)
                } else {
                    r.0 == UseState::Done(false) && r.1 is Finish && *final(cfg) == *old(cfg)
                }
            },
            (UseState::AwaitAdd, UseEvent::AddFinished(ok)) => {
                if ok && old(cfg)@.profiles.contains_key(nickname@) {
                    r.0 == UseState::AwaitUseConsent && r.1 is OfferUseNow && *final(cfg) == *old(
                        cfg,
                    )
                } else {
                    r.0 == UseState::Done(false) && r.1 is ReportAddFailed && *final(cfg) == *old(
                        cfg,
                    )
                }
            },
            (UseState::AwaitUseConsent, UseEvent::Consent(yes)) => {
                if yes && old(cfg)@.profiles.contains_key(nickname@) {
                    r.0 == UseState::AwaitCreds && (r.1 matches UseAction::CheckCreds(p) && p@
                        == old(cfg)@.profiles[nickname@].profile_name) && *final(cfg) == *old(cfg)
                } else if yes {
                    r.0 == UseState::Done(false) && r.1 is ReportAddFailed && *final(cfg) == *old(
                        cfg,
                    )
                } else {
                    r.0 == UseState::Done(true) && r.1 is ReportReady && *final(cfg) == *old(cfg)
                }
            },
            (UseState::AwaitCreds, UseEvent::CredsChecked(valid)) => {
                if !old(cfg)@.profiles.contains_key(nickname@) {
                    r.0 == UseState::Done(false) && r.1 is Invalid && *final(cfg) == *old(cfg)
                } else if valid {
                    r.0 == UseState::InShell && (r.1 matches UseAction::EnterShell(p) && p@ == old(
                        cfg,
                    )@.profiles[nickname@].profile_name) && final(cfg)@.profiles == old(
                        cfg,
                    )@.profiles && final(cfg)@.current_profile == Some(nickname@)
                } else {
                    r.0 == UseState::AwaitLogin && (r.1 matches UseAction::RunLogin(p) && p@ == old(
                        cfg,
                    )@.profiles[nickname@].profile_name) && *final(cfg) == *old(cfg)
                }
            },
            (UseState::AwaitLogin, UseEvent::LoginFinished(ok)) => {
                if !old(cfg)@.profiles.contains_key(nickname@) {
                    r.0 == UseState::Done(false) && r.1 is Invalid && *final(cfg) == *old(cfg)
                } else if ok {
                    r.0 == UseState::InShell && (r.1 matches UseAction::EnterShell(p) && p@ == old(
                        cfg,
                    )@.profiles[nickname@].profile_name) && final(cfg)@.profiles == old(
                        cfg,
                    )@.profiles && final(cfg)@.current_profile == Some(nickname@)
                } else {
                    r.0 == UseState::Done(false) && r.1 is ReportLoginFailed && *final(cfg) == *old(
                        cfg,
                    )
                }
            },
            (UseState::InShell, UseEvent::ShellExited) => {
                r.0 == UseState::Done(true) && r.1 is ClearAndReport && final(cfg)@.profiles == old(
                    cfg,
                )@.profiles && final(cfg)@.current_profile is None
            },
            _ => { r.0 == UseState::Done(false) && r.1 is Invalid && *final(cfg) == *old(cfg) },
        },
{
    match (state, event) {
        (UseState::Start, UseEvent::Begin { in_session }) => {
            if in_session {
                (UseState::Done(false), UseAction::ReportNested)
            } else {
                match cfg.get_profile(nickname) {
                    Some(info) => (
                        UseState::AwaitCreds,
                        UseAction::CheckCreds(info.profile_name.clone()),
                    ),
                    None => (UseState::AwaitAddConsent, UseAction::OfferAdd),
                }
            }
        },
        (UseState::AwaitAddConsent, UseEvent::Consent(yes)) => {
            if yes {
                (UseState::AwaitAdd, UseAction::RunAdd)
            } else {
                (UseState::Done(false), UseAction::Finish)
            }
        },
        (UseState::AwaitAdd, UseEvent::AddFinished(ok)) => {
            if ok && cfg.get_profile(nickname).is_some() {
                (UseState::AwaitUseConsent, UseAction::OfferUseNow)
            } else {
                (UseState::Done(false), UseAction::ReportAddFailed)
            }
        },
        (UseState::AwaitUseConsent, UseEvent::Consent(yes)) => {
            if yes {
                match cfg.get_profile(nickname) {
                    Some(info) => (
                        UseState::AwaitCreds,
                        UseAction::CheckCreds(info.profile_name.clone()),
                    ),
                    None => (UseState::Done(false), UseAction::ReportAddFailed),
                }
            } else {
                (UseState::Done(true), UseAction::ReportReady)
            }
        },
        (UseState::AwaitCreds, UseEvent::CredsChecked(valid)) => {
            let name = match cfg.get_profile(nickname) {
                Some(info) => info.profile_name.clone(),
                None => {
                    return (UseState::Done(false), UseAction::Invalid);
                },
            };
            if valid {
                cfg.set_current_profile(Some(nickname.to_owned()));
                (UseState::InShell, UseAction::EnterShell(name))
            } else {
                (UseState::AwaitLogin, UseAction::RunLogin(name))
            }
        },
        (UseState::AwaitLogin, UseEvent::LoginFinished(ok)) => {
            let name = match cfg.get_profile(nickname) {
                Some(info) => info.profile_name.clone(),
                None => {
                    return (UseState::Done(false), UseAction::Invalid);
                },
            };
            if ok {
                cfg.set_current_profile(Some(nickname.to_owned()));
                (UseState::InShell, UseAction::EnterShell(name))
            } else {
                (UseState::Done(false), UseAction::ReportLoginFailed)
            }
        },
        (UseState::InShell, UseEvent::ShellExited) => {
            cfg.set_current_profile(None);
            (UseState::Done(true), UseAction::ClearAndReport)
        },
        _ => (UseState::Done(false), UseAction::Invalid),
    }
}

/// The whitespace around a typed prompt answer, the trailing newline of the
/// input line included.
pub open spec fn is_prompt_space(c: char) -> bool {
    c == ' ' || c == '\t' || c == '\r' || c == '\n'
}

/// Whether a typed answer means yes: besides surrounding whitespace it is
/// exactly one `y`, of either case.
pub open spec fn spec_affirmative(s: Seq<char>) -> bool {
    exists|i: int|
        0 <= i < s.len() && ((#[trigger] s[i]) == 'y' || s[i] == 'Y') && (forall|j: int|
            0 <= j < s.len() && j != i ==> is_prompt_space(#[trigger] s[j]))
}

/// Reads a typed confirmation: yes exactly when the answer is a lone `y` or
/// `Y` amid whitespace; anything else declines.
pub fn is_affirmative(answer: &str) -> (r: bool)
    ensures
        r == spec_affirmative(answer@),
{
    let n = answer.unicode_len();
    let mut i: usize = 0;
    let mut found: Option<usize> = None;
    while i < n
        invariant
            i <= n,
            n == answer@.len(),
            match found {
                Some(t) => t < i && !is_prompt_space(answer@[t as int]) && (forall|j: int|
                    0 <= j < i && j != t ==> is_prompt_space(#[trigger] answer@[j])),
                None => forall|j: int| 0 <= j < i ==> is_prompt_space(#[trigger] answer@[j]),
            },
        decreases n - i,
    {
        let c = answer.get_char(i);
        if !(c == ' ' || c == '\t' || c == '\r' || c == '\n') {
            match found {
                Some(t) => {
                    proof {
                        assert(!spec_affirmative(answer@)) by {
                            if spec_affirmative(answer@) {
                                let w = choose|w: int|
                                    0 <= w < answer@.len() && ((#[trigger] answer@[w]) == 'y'
                                        || answer@[w] == 'Y') && (forall|j: int|
                                        0 <= j < answer@.len() && j != w ==> is_prompt_space(
                                            #[trigger] answer@[j],
                                        ));
                                if w != t {
                                    assert(is_prompt_space(answer@[t as int]));
                                }
                                if w != i {
                                    assert(is_prompt_space(answer@[i as int]));
                                }
                            }
                        }
                    }
                    return false;
                },
                None => {
                    found = Some(i);
                },
            }
        }
        i = i + 1;
    }
    match found {
        Some(t) => {
            let c = answer.get_char(t);
            let r = c == 'y' || c == 'Y';
            proof {
                if r {
                    assert(spec_affirmative(answer@)) by {
                        assert((answer@[t as int] == 'y' || answer@[t as int] == 'Y') && (
                        forall|j: int|
                            0 <= j < answer@.len() && j != t ==> is_prompt_space(
                                #[trigger] answer@[j],
                            )));
                    }
                } else {
                    assert(!spec_affirmative(answer@)) by {
                        if spec_affirmative(answer@) {
                            let w = choose|w: int|
                                0 <= w < answer@.len() && ((#[trigger] answer@[w]) == 'y'
                                    || answer@[w] == 'Y') && (forall|j: int|
                                    0 <= j < answer@.len() && j != w ==> is_prompt_space(
                                        #[trigger] answer@[j],
                                    ));
                            if w != t {
                                assert(is_prompt_space(answer@[t as int]));
                            }
                        }
                    }
                }
            }
            r
        },
        None => {
            proof {
                assert(!spec_affirmative(answer@)) by {
                    if spec_affirmative(answer@) {
                        let w = choose|w: int|
                            0 <= w < answer@.len() && ((#[trigger] answer@[w]) == 'y' || answer@[w]
                                == 'Y') && (forall|j: int|
                                0 <= j < answer@.len() && j != w ==> is_prompt_space(
                                    #[trigger] answer@[j],
                                ));
                        assert(is_prompt_space(answer@[w]));
                    }
                }
            }
            false
        },
    }
}

/// Which shell the sub-shell runs: the `COMSPEC` value with a `cmd.exe`
/// fallback on Windows, the `SHELL` value with a `/bin/bash` fallback
/// elsewhere.
pub fn choose_shell(windows: bool, comspec: Option<String>, shell: Option<String>) -> (r: String)
    ensures
        windows ==> (match comspec {
            Some(c) => r == c,
            None => r@ == "cmd.exe"@,
        }),
        !windows ==> (match shell {
            Some(sh) => r == sh,
            None => r@ == "/bin/bash"@,
        }),
{
    if windows {
        match comspec {
            Some(c) => c,
            None => String::from_str("cmd.exe"),
        }
    } else {
        match shell {
            Some(sh) => sh,
            None => String::from_str("/bin/bash"),
        }
    }
}

/// The environment handed to the sub-shell: the AWS profile selector, the
/// live-session profile name, and the active-session marker.
pub fn subshell_env(profile_name: &str) -> (r: Vec<(String, String)>)
    ensures
        r@.len() == 3,
        r@[0].0@ == AWS_PROFILE@ && r@[0].1@ == profile_name@,
        r@[1].0@ == KEE_CURRENT_PROFILE@ && r@[1].1@ == profile_name@,
        r@[2].0@ == KEE_ACTIVE_PROFILE@ && r@[2].1@ == "1"@,
{
    let mut v: Vec<(String, String)> = Vec::new();
    v.push((AWS_PROFILE.to_owned(), profile_name.to_owned()));
    v.push((KEE_CURRENT_PROFILE.to_owned(), profile_name.to_owned()));
    v.push((KEE_ACTIVE_PROFILE.to_owned(), String::from_str("1")));
    v
}

/// The prompt for the sub-shell: the profile tag ahead of the inherited
/// prompt, or ahead of a plain `$` when none is inherited.
pub fn prompt_prefix(profile_name: &str, inherited: Option<&str>) -> (r: String)
    ensures
        inherited matches Some(p) ==> r@ == "aws:"@ + profile_name@ + " "@ + p@,
        inherited is None ==> r@ == "aws:"@ + profile_name@ + " $ "@,
{
    let mut s = String::from_str("aws:");
    s.append(profile_name);
    match inherited {
        Some(p) => {
            s.append(" ");
            s.append(p);
        },
        None => {
            s.append(" $ ");
        },
    }
    s
}

} // verus!
