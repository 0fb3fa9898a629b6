use glint::render::apply_override;
use glint::PromptTheme;

fn vars(pairs: &[(&str, &str)]) -> Vec<(String, String)> {
    pairs
        .iter()
        .map(|(k, v)| (k.to_string(), v.to_string()))
        .collect()
}

#[test]
fn empty_environment_gives_default_theme() {
    assert_eq!(PromptTheme::from_env(&Vec::new()), PromptTheme::default());
}

#[test]
fn overrides_replace_defaults() {
    let theme = PromptTheme::from_env(&vars(&[
        ("ZSH_THEME_GIT_PROMPT_PREFIX", "["),
        ("ZSH_THEME_GIT_PROMPT_SUFFIX", "]"),
        ("ZSH_THEME_GIT_PROMPT_SEPARATOR", " :: "),
        ("ZSH_THEME_GIT_PROMPT_BRANCH", "BR:"),
        ("ZSH_THEME_GIT_PROMPT_CLEAN", "OK"),
        ("HOME", "/home/user"),
    ]));
    assert_eq!(theme.prefix, "[");
    assert_eq!(theme.suffix, "]");
    assert_eq!(theme.separator, " :: ");
    assert_eq!(theme.branch, "BR:");
    assert_eq!(theme.clean, "OK");
    assert_eq!(theme.staged, PromptTheme::default().staged);
    assert_eq!(theme.reset, "%{${reset_color}%}");
}

#[test]
fn every_marker_is_configurable() {
    let theme = PromptTheme::from_env(&vars(&[
        ("ZSH_THEME_GIT_PROMPT_STAGED", "s"),
        ("ZSH_THEME_GIT_PROMPT_CONFLICTS", "c"),
        ("ZSH_THEME_GIT_PROMPT_CHANGED", "m"),
        ("ZSH_THEME_GIT_PROMPT_BEHIND", "b"),
        ("ZSH_THEME_GIT_PROMPT_AHEAD", "a"),
        ("ZSH_THEME_GIT_PROMPT_UNTRACKED", "u"),
    ]));
    assert_eq!(
        (
            theme.staged.as_str(),
            theme.conflicts.as_str(),
            theme.changed.as_str(),
            theme.behind.as_str(),
            theme.ahead.as_str(),
            theme.untracked.as_str()
        ),
        ("s", "c", "m", "b", "a", "u")
    );
}

#[test]
fn reset_is_not_configurable() {
    let theme = PromptTheme::from_env(&vars(&[("ZSH_THEME_GIT_PROMPT_RESET", "x")]));
    assert_eq!(theme, PromptTheme::default());
}

#[test]
fn last_setting_wins() {
    let mut field = "old".to_owned();
    apply_override(
        &mut field,
        &vars(&[("K", "first"), ("OTHER", "x"), ("K", "second")]),
        "K",
    );
    assert_eq!(field, "second");
    let mut untouched = "old".to_owned();
    apply_override(&mut untouched, &vars(&[("KEY", "v")]), "K");
    assert_eq!(untouched, "old");
}
