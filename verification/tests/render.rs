use glint::render::{render, render_prompt};
use glint::{GitStatus, PromptTheme};

fn status() -> GitStatus {
    GitStatus {
        branch: "main".to_owned(),
        ahead: 2,
        behind: 1,
        staged: 3,
        conflicts: 4,
        changed: 5,
        untracked: 1,
    }
}

fn letters() -> PromptTheme {
    PromptTheme {
        prefix: "(".to_owned(),
        suffix: ")".to_owned(),
        separator: "|".to_owned(),
        branch: "BR".to_owned(),
        staged: "S".to_owned(),
        conflicts: "C".to_owned(),
        changed: "M".to_owned(),
        behind: "B".to_owned(),
        ahead: "A".to_owned(),
        untracked: "U".to_owned(),
        clean: "K".to_owned(),
        reset: "R".to_owned(),
    }
}

#[test]
fn renders_full_status() {
    let theme = PromptTheme {
        prefix: "(".to_owned(),
        suffix: ")".to_owned(),
        separator: "|".to_owned(),
        branch: "BR".to_owned(),
        staged: "S".to_owned(),
        conflicts: "C".to_owned(),
        changed: "M".to_owned(),
        behind: "B".to_owned(),
        ahead: "A".to_owned(),
        untracked: "U".to_owned(),
        clean: "K".to_owned(),
        reset: "R".to_owned(),
    };

    assert_eq!(render(&status(), &theme), "(BRmainRB1RA2R|S3RC4RM5RURR)");
}

#[test]
fn renders_clean_status() {
    let theme = PromptTheme {
        branch: String::new(),
        staged: "S".to_owned(),
        conflicts: "C".to_owned(),
        changed: "M".to_owned(),
        behind: "B".to_owned(),
        ahead: "A".to_owned(),
        untracked: "U".to_owned(),
        clean: "K".to_owned(),
        reset: String::new(),
        ..PromptTheme::default()
    };
    let status = GitStatus {
        branch: "main".to_owned(),
        ahead: 0,
        behind: 0,
        staged: 0,
        conflicts: 0,
        changed: 0,
        untracked: 0,
    };

    assert_eq!(render(&status, &theme), "(main|K)");
}

#[test]
fn multi_digit_counts_render_in_decimal() {
    let s = GitStatus {
        branch: "dev".to_owned(),
        ahead: 120,
        behind: 0,
        staged: 10,
        conflicts: 0,
        changed: 0,
        untracked: 0,
    };
    assert_eq!(render(&s, &letters()), "(BRdevRA120R|S10RR)");
}

#[test]
fn untracked_alone_is_not_clean() {
    let s = GitStatus {
        branch: "main".to_owned(),
        ahead: 0,
        behind: 0,
        staged: 0,
        conflicts: 0,
        changed: 0,
        untracked: 7,
    };
    assert_eq!(render(&s, &letters()), "(BRmainR|URR)");
}

#[test]
fn largest_count_renders() {
    let s = GitStatus {
        branch: "m".to_owned(),
        ahead: usize::MAX,
        behind: 0,
        staged: 0,
        conflicts: 0,
        changed: 0,
        untracked: 0,
    };
    assert_eq!(
        render(&s, &letters()),
        format!("(BRmRA{}R|KR)", usize::MAX)
    );
}

#[test]
fn default_theme_renders_zsh_markup() {
    let s = GitStatus {
        branch: "main".to_owned(),
        ahead: 0,
        behind: 0,
        staged: 0,
        conflicts: 0,
        changed: 0,
        untracked: 0,
    };
    assert_eq!(
        render(&s, &PromptTheme::default()),
        "(%{$fg_bold[magenta]%}main%{${reset_color}%}|%{$fg_bold[green]%}%{✔%G%}%{${reset_color}%})"
    );
}

#[test]
fn no_status_renders_nothing() {
    assert_eq!(render_prompt(None, &letters()), "");
    assert_eq!(render_prompt(Some(&status()), &letters()), "(BRmainRB1RA2R|S3RC4RM5RURR)");
}
