use jilu::changelog::change::{Change, GithubMergeCommit};
use jilu::changelog::contributor::parse_contributor_footer;
use jilu::git::{Commit, Signature};

fn sig(name: &str, email: &str, time: i64) -> Signature {
    Signature { name: name.to_owned(), email: email.to_owned(), time }
}

fn commit(id: &str, message: &str) -> Commit {
    Commit {
        id: id.to_owned(),
        short_id: id.chars().take(7).collect(),
        message: message.to_owned(),
        time: 1_700_000_000,
        author: sig("Ada", "ada@example.com", 1_700_000_000),
        committer: sig("Bob", "bob@example.com", 1_700_000_001),
    }
}

#[test]
fn test_parse_contributor_footer() {
    let cases = [
        ("John", ("John", "")),
        ("John Doe", ("John Doe", "")),
        ("john@doe.com", ("john@doe.com", "")),
        ("John Doe <john@doe.com>", ("John Doe", "john@doe.com")),
    ];

    for (value, expected) in cases {
        let got = parse_contributor_footer(value).unwrap();
        assert_eq!(got.name, expected.0);
        assert_eq!(got.email, expected.1);
    }
}

#[test]
fn pr_reference_is_extracted() {
    let g = GithubMergeCommit::new("fix bug (#42)").unwrap();
    assert_eq!(g.description(), "fix bug");
    assert_eq!(g.pr_number(), 42);
}

#[test]
fn pr_reference_never_partially_matches() {
    assert!(GithubMergeCommit::new("fix bug (#42").is_none());
    assert!(GithubMergeCommit::new("fix bug").is_none());
    assert!(GithubMergeCommit::new("fix bug (#)").is_none());
    assert!(GithubMergeCommit::new("fix bug (42)").is_none());
    assert!(GithubMergeCommit::new("fix bug(#42)").is_none());
    assert!(GithubMergeCommit::new(" (#42)").is_none());
    assert!(GithubMergeCommit::new("").is_none());
}

#[test]
fn change_exposes_message_parts() {
    let c = commit("deadbeef0123", "feat(api): add endpoint (#7)\n\nDetails.");
    let change = Change::new(&c).unwrap();
    assert_eq!(change.type_(), "feat");
    assert_eq!(change.scope(), Some("api"));
    assert_eq!(change.description(), "add endpoint (#7)");
    assert_eq!(change.body(), Some("Details."));
    assert_eq!(change.id(), "deadbeef0123");
    assert_eq!(change.short_id(), "deadbee");
    let g = change.merge_commit_description().unwrap();
    assert_eq!(g.description(), "add endpoint");
    assert_eq!(g.pr_number(), 7);
}

#[test]
fn change_author_and_committer_are_trimmed() {
    let mut c = commit("1", "fix: x");
    c.author.name = "  Ada  ".to_owned();
    c.author.email = " ada@example.com ".to_owned();
    let change = Change::new(&c).unwrap();
    let a = change.author();
    assert_eq!(a.name, "Ada");
    assert_eq!(a.email, "ada@example.com");
    let k = change.committer();
    assert_eq!(k.name, "Bob");
}

#[test]
fn change_contributors_are_sorted_and_deduplicated() {
    let c = commit(
        "1",
        "fix: x\n\nBody.\n\nCo-authored-by: Zoe <zoe@example.com>\nCo-Authored-By: Ada <ada@example.org>\nReviewed-by: Ada <ada@example.com>",
    );
    let change = Change::new(&c).unwrap();
    let footers = vec!["co-authored-by".to_owned(), "reviewed-by".to_owned()];
    let list = change.contributors(&footers);
    let names: Vec<&str> = list.iter().map(|c| c.name.as_str()).collect();
    // author Ada, committer Bob, and the declared contributors, sorted by
    // name and email with exact duplicates removed
    assert_eq!(names, vec!["Ada", "Ada", "Bob", "Zoe"]);
    assert_eq!(list[0].email, "ada@example.com");
    assert_eq!(list[1].email, "ada@example.org");
}

#[test]
fn change_contributor_footers_match_case_insensitively() {
    let c = commit("1", "fix: x\n\nBody.\n\nSigned-Off-By: Eve <eve@example.com>");
    let change = Change::new(&c).unwrap();
    let footers = vec!["signed-off-by".to_owned()];
    let list = change.contributors(&footers);
    assert!(list.iter().any(|c| c.name == "Eve"));
}

#[test]
fn change_unlisted_footer_token_adds_nobody() {
    let c = commit("1", "fix: x\n\nBody.\n\nTested-by: Eve <eve@example.com>");
    let change = Change::new(&c).unwrap();
    let footers = vec!["co-authored-by".to_owned()];
    let list = change.contributors(&footers);
    assert!(!list.iter().any(|c| c.name == "Eve"));
    assert_eq!(list.len(), 2);
}
