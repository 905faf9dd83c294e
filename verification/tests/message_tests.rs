use jilu::error::{Error, ParseIssue};
use jilu::message::parse_message;

#[test]
fn parse_minimal_message() {
    let m = parse_message("fix: stop the crash").unwrap();
    assert_eq!(m.type_, "fix");
    assert!(m.scope.is_none());
    assert_eq!(m.description, "stop the crash");
    assert!(m.body.is_none());
    assert!(!m.breaking);
    assert_eq!(m.footers.len(), 0);
}

#[test]
fn parse_scope_and_bang() {
    let m = parse_message("feat(parser)!: new grammar").unwrap();
    assert_eq!(m.type_, "feat");
    assert_eq!(m.scope.as_deref(), Some("parser"));
    assert!(m.breaking);
    assert_eq!(m.description, "new grammar");
}

#[test]
fn parse_body_after_blank_line() {
    let m = parse_message("fix: a\n\nThe body.\nSecond line.").unwrap();
    assert_eq!(m.body.as_deref(), Some("The body.\nSecond line."));
    assert_eq!(m.footers.len(), 0);
}

#[test]
fn parse_footers_after_body() {
    let m = parse_message("fix: a\n\nBody.\n\nCo-authored-by: Jane <j@x.y>\nCloses #12").unwrap();
    assert_eq!(m.body.as_deref(), Some("Body."));
    assert_eq!(m.footers.len(), 2);
    assert_eq!(m.footers[0].token, "Co-authored-by");
    assert_eq!(m.footers[0].value, "Jane <j@x.y>");
    assert_eq!(m.footers[1].token, "Closes");
    assert_eq!(m.footers[1].value, "12");
}

#[test]
fn parse_footer_value_spans_lines() {
    let m = parse_message("fix: a\n\nBody.\n\nNote: first\nstill the note").unwrap();
    assert_eq!(m.footers.len(), 1);
    assert_eq!(m.footers[0].value, "first\nstill the note");
}

#[test]
fn parse_breaking_change_footer() {
    let m = parse_message("fix: a\n\nBody.\n\nBREAKING CHANGE: yes").unwrap();
    assert!(m.breaking);
    assert_eq!(m.footers[0].token, "BREAKING CHANGE");
    let m2 = parse_message("fix: a\n\nBody.\n\nBREAKING-CHANGE: yes").unwrap();
    assert!(m2.breaking);
    assert_eq!(m2.footers[0].token, "BREAKING-CHANGE");
}

#[test]
fn parse_bang_without_scope() {
    let m = parse_message("fix!: drop the old field").unwrap();
    assert!(m.breaking);
    assert!(m.scope.is_none());
    assert_eq!(m.description, "drop the old field");
}

#[test]
fn parse_scope_characters() {
    let ok = parse_message("feat(api server): x").unwrap();
    assert_eq!(ok.scope.as_deref(), Some("api server"));
    let hyphen = parse_message("feat(api-server): x").unwrap();
    assert_eq!(hyphen.scope.as_deref(), Some("api-server"));
    assert_eq!(
        parse_message("feat(api_server): x").unwrap_err(),
        Error::ConventionalCommit(ParseIssue::InvalidHeader)
    );
    assert_eq!(
        parse_message("feat(-api): x").unwrap_err(),
        Error::ConventionalCommit(ParseIssue::InvalidHeader)
    );
}

#[test]
fn parse_empty_message_is_rejected() {
    assert_eq!(
        parse_message("").unwrap_err(),
        Error::ConventionalCommit(ParseIssue::EmptyMessage)
    );
}

#[test]
fn parse_whitespace_only_is_missing_message() {
    assert_eq!(parse_message("  \n\t ").unwrap_err(), Error::MissingCommitMessage);
}

#[test]
fn parse_bad_header_is_rejected() {
    let bad = [
        "no colon here",
        "fix:missing space",
        "fix : early space",
        "fix(): empty scope",
        "fix(x: open scope",
        ": no type",
        "fix:  double space",
        "fix: trailing space ",
    ];
    for msg in bad {
        assert_eq!(
            parse_message(msg).unwrap_err(),
            Error::ConventionalCommit(ParseIssue::InvalidHeader),
            "{msg:?} should be rejected"
        );
    }
}

#[test]
fn parse_blank_line_without_body_is_rejected() {
    assert_eq!(
        parse_message("fix: a\n\n").unwrap_err(),
        Error::ConventionalCommit(ParseIssue::MissingBody)
    );
}

#[test]
fn parse_footer_without_value_is_rejected() {
    assert_eq!(
        parse_message("fix: a\n\nBody.\n\nRef: ").unwrap_err(),
        Error::ConventionalCommit(ParseIssue::MissingFooterValue)
    );
}

#[test]
fn parse_header_only_with_trailing_newline() {
    let m = parse_message("fix: a\n").unwrap();
    assert!(m.body.is_none());
    assert_eq!(m.footers.len(), 0);
}

#[test]
fn parse_footers_without_blank_line() {
    let m = parse_message("fix: a\nCloses #7").unwrap();
    assert!(m.body.is_none());
    assert_eq!(m.footers.len(), 1);
    assert_eq!(m.footers[0].token, "Closes");
    assert_eq!(m.footers[0].value, "7");
}
