use glint::git::{parse_status, resolve_short_head, status_report, StatusReport};
use glint::render::render;
use glint::{GitStatus, PromptTheme};

#[test]
fn parses_branch_and_counts() {
    let status = parse_status(
        "\
# branch.oid aabbccddeeff00112233445566778899aabbccdd
# branch.head main
# branch.upstream origin/main
# branch.ab +2 -1
1 M. N... 100644 100644 100644 abcdef1 abcdef2 src/lib.rs
1 .M N... 100644 100644 100644 abcdef1 abcdef1 src/main.rs
2 MM N... 100644 100644 100644 100644 abcdef1 abcdef2 R100 src/old.rs\tsrc/new.rs
u UU N... 100644 100644 100644 100644 abcdef1 abcdef2 abcdef3 conflicted.rs
? untracked.rs
",
    )
    .unwrap();

    assert_eq!(
        status,
        GitStatus {
            branch: "main".to_owned(),
            ahead: 2,
            behind: 1,
            staged: 2,
            conflicts: 1,
            changed: 2,
            untracked: 1,
        }
    );
}

#[test]
fn parses_detached_head() {
    let status = parse_status(
        "\
# branch.oid 70c2952abcdef012345678901234567890123456
# branch.head (detached)
",
    )
    .unwrap();

    assert_eq!(status.branch, ":70c2952");
}

#[test]
fn ignores_non_git_output() {
    assert!(parse_status("").is_none());
}

fn clean_main() -> GitStatus {
    GitStatus {
        branch: "main".to_owned(),
        ahead: 0,
        behind: 0,
        staged: 0,
        conflicts: 0,
        changed: 0,
        untracked: 0,
    }
}

#[test]
fn missing_head_line_gives_nothing() {
    assert!(parse_status("# branch.oid 70c2952abcdef\n? a.txt\n").is_none());
}

#[test]
fn header_lines_without_entries_give_clean_status() {
    let status = parse_status("# branch.oid abc1234\n# branch.head main\n").unwrap();
    assert_eq!(status, clean_main());
}

#[test]
fn last_head_line_wins() {
    let status = parse_status("# branch.head one\n# branch.head two\n").unwrap();
    assert_eq!(status.branch, "two");
}

#[test]
fn crlf_line_endings_are_stripped() {
    let status = parse_status("# branch.head main\r\n? a\r\n").unwrap();
    assert_eq!(status.branch, "main");
    assert_eq!(status.untracked, 1);
}

#[test]
fn trailing_carriage_return_without_newline_is_kept() {
    let status = parse_status("# branch.head main\r").unwrap();
    assert_eq!(status.branch, "main\r");
}

#[test]
fn unknown_lines_are_ignored() {
    let status = parse_status("# branch.head main\n# branch.upstream origin/main\nxyz\n\n").unwrap();
    assert_eq!(status, clean_main());
}

#[test]
fn ab_counts_accept_plus_sign_and_ignore_other_words() {
    let status = parse_status("# branch.head main\n# branch.ab +12 -3 x\n").unwrap();
    assert_eq!(status.ahead, 12);
    assert_eq!(status.behind, 3);
    let status = parse_status("# branch.head main\n# branch.ab ++4 -+5\n").unwrap();
    assert_eq!(status.ahead, 4);
    assert_eq!(status.behind, 5);
}

#[test]
fn bad_ab_count_gives_nothing() {
    assert!(parse_status("# branch.head main\n# branch.ab +x -1\n").is_none());
    assert!(parse_status("# branch.head main\n# branch.ab + -1\n").is_none());
    assert!(parse_status("# branch.head main\n# branch.ab +-1 -1\n").is_none());
    assert!(parse_status("# branch.head main\n# branch.ab +99999999999999999999999 -1\n").is_none());
}

#[test]
fn entry_without_code_gives_nothing() {
    assert!(parse_status("# branch.head main\n1    \n").is_none());
}

#[test]
fn malformed_status_code_gives_nothing() {
    assert!(parse_status("# branch.head main\n1 M\n").is_none());
    assert!(parse_status("# branch.head main\n1 .\n").is_none());
    assert!(parse_status("# branch.head main\n2 MMM x\n").is_none());
    assert!(parse_status("# branch.head main\n1 é. x\n").is_none());
    let status = parse_status("# branch.head main\n2 .. x\n").unwrap();
    assert_eq!(status.staged, 0);
    assert_eq!(status.changed, 0);
    let status = parse_status("# branch.head main\n1 Mé x\n").unwrap();
    assert_eq!(status.staged, 1);
    assert_eq!(status.changed, 1);
}

#[test]
fn plain_lines_change_nothing() {
    let base = "# branch.head main\n1 .M N... x\n";
    let more = "# branch.head main\n1 .M N... x\n! ignored.txt\n# branch.upstream origin/main\r\n";
    assert_eq!(parse_status(base), parse_status(more));
}

#[test]
fn detached_head_needs_a_usable_object_id() {
    assert!(parse_status("# branch.head (detached)\n").is_none());
    assert!(parse_status("# branch.oid (initial)\n# branch.head (detached)\n").is_none());
    assert!(parse_status("# branch.oid abc123\n# branch.head (detached)\n").is_none());
    let status = parse_status("# branch.oid abcdefg\n# branch.head (detached)\n").unwrap();
    assert_eq!(status.branch, ":abcdefg");
}

#[test]
fn detached_short_id_counts_bytes() {
    // "é" takes two bytes: the seventh byte ends "abcdeé".
    let status = parse_status("# branch.oid abcdeéxyz\n# branch.head (detached)\n").unwrap();
    assert_eq!(status.branch, ":abcdeé");
    // Here byte seven falls inside "é".
    assert!(parse_status("# branch.oid abcdefé\n# branch.head (detached)\n").is_none());
    assert!(parse_status("# branch.oid abcdé\u{20ac}x\n# branch.head (detached)\n").is_none());
}

#[test]
fn report_of_failed_git_is_unavailable() {
    assert!(matches!(
        status_report(false, b"# branch.head main\n"),
        StatusReport::Unavailable
    ));
}

#[test]
fn report_of_branch_is_ready() {
    match status_report(true, b"# branch.head main\n? a\n") {
        StatusReport::Ready(s) => {
            assert_eq!(s.branch, "main");
            assert_eq!(s.untracked, 1);
        }
        _ => panic!("expected a ready status"),
    }
}

#[test]
fn report_of_incomplete_output_is_unavailable() {
    assert!(matches!(
        status_report(true, b"# branch.oid deadbeef\n"),
        StatusReport::Unavailable
    ));
}

#[test]
fn report_of_detached_head_asks_for_short_id() {
    let out = b"# branch.oid 70c2952abcdef012345678901234567890123456\n# branch.head (detached)\n";
    match status_report(true, out) {
        StatusReport::Detached(s) => {
            assert_eq!(s.branch, ":70c2952");
            let resolved = resolve_short_head(s.clone(), true, b"70c2952abcde\n").unwrap();
            assert_eq!(resolved.branch, ":70c2952abcde");
            assert!(resolve_short_head(s.clone(), false, b"70c2952abcde\n").is_none());
            assert!(resolve_short_head(s, true, b" \n").is_none());
        }
        _ => panic!("expected a detached status"),
    }
}

#[test]
fn report_of_multibyte_status_code_is_unavailable() {
    assert!(matches!(
        status_report(true, "# branch.head main\n1 é. x\n".as_bytes()),
        StatusReport::Unavailable
    ));
}

#[test]
fn report_decodes_invalid_utf8_lossily() {
    match status_report(true, b"# branch.head ma\xffin\n") {
        StatusReport::Ready(s) => assert_eq!(s.branch, "ma\u{fffd}in"),
        _ => panic!("expected a ready status"),
    }
}

#[test]
fn printed_counts_parse_back() {
    let theme = PromptTheme {
        prefix: String::new(),
        suffix: String::new(),
        separator: String::new(),
        branch: String::new(),
        staged: String::new(),
        conflicts: String::new(),
        changed: String::new(),
        behind: String::new(),
        ahead: "+".to_owned(),
        untracked: String::new(),
        clean: String::new(),
        reset: String::new(),
    };
    for n in [1usize, 9, 10, 4096, usize::MAX] {
        let shown = render(
            &GitStatus {
                branch: String::new(),
                ahead: n,
                behind: 0,
                staged: 0,
                conflicts: 0,
                changed: 0,
                untracked: 0,
            },
            &theme,
        );
        let status = parse_status(&format!("# branch.head x\n# branch.ab {}\n", shown)).unwrap();
        assert_eq!(status.ahead, n);
    }
}
