use jilu::changelog::{ChangeSet, Changelog};
use jilu::config::Config;
use jilu::error::{Error, ParseIssue};
use jilu::git::{Commit, Signature, Tag};
use jilu::version::parse_version;

fn sig(name: &str) -> Signature {
    Signature { name: name.to_owned(), email: format!("{}@example.com", name), time: 1_600_000_000 }
}

fn commit(id: &str, message: &str) -> Commit {
    Commit {
        id: id.to_owned(),
        short_id: id.to_owned(),
        message: message.to_owned(),
        time: 1_600_000_000,
        author: sig("ada"),
        committer: sig("bob"),
    }
}

fn tag(name: &str, target: &Commit) -> Tag {
    Tag {
        message: None,
        name: name.to_owned(),
        version: parse_version(name.trim_start_matches('v')).unwrap(),
        tagger: None,
        commit: Commit {
            id: target.id.clone(),
            short_id: target.short_id.clone(),
            message: target.message.clone(),
            time: target.time,
            author: sig("ada"),
            committer: sig("bob"),
        },
    }
}

#[test]
fn end_to_end_partitioning() {
    // history, oldest first: A, B, C, D; v0.1.0 marks A, v0.2.0 marks C
    let commits = vec![
        commit("a", "feat: first feature"),
        commit("b", "fix: first fix"),
        commit("c", "feat: second feature"),
        commit("d", "fix: trailing fix"),
    ];
    let mut config = Config::default();
    config.accept_types = Some(vec!["feat".to_owned(), "fix".to_owned()]);
    let tags = vec![tag("v0.1.0", &commits[0]), tag("v0.2.0", &commits[2])];

    let log = Changelog::new(&config, &commits, tags).unwrap();
    let releases = log.releases();
    assert_eq!(releases.len(), 2);

    // newest first: v0.2.0 holds C and B (newest first), v0.1.0 holds A
    assert_eq!(releases[0].tag().name, "v0.2.0");
    let v020: Vec<&str> = releases[0].changeset().changes().iter().map(|c| c.id()).collect();
    assert_eq!(v020, vec!["c", "b"]);

    assert_eq!(releases[1].tag().name, "v0.1.0");
    let v010: Vec<&str> = releases[1].changeset().changes().iter().map(|c| c.id()).collect();
    assert_eq!(v010, vec!["a"]);

    let unreleased: Vec<&str> = log.unreleased().changes().iter().map(|c| c.id()).collect();
    assert_eq!(unreleased, vec!["d"]);
}

#[test]
fn releases_are_sorted_by_version_not_input_order() {
    let commits = vec![
        commit("a", "fix: one"),
        commit("b", "fix: two"),
        commit("c", "fix: three"),
    ];
    let config = Config::default();
    // deliberately unsorted, with a two-digit minor to defeat text order
    let tags = vec![
        tag("v0.10.0", &commits[2]),
        tag("v0.2.0", &commits[1]),
        tag("v0.1.0", &commits[0]),
    ];
    let log = Changelog::new(&config, &commits, tags).unwrap();
    let names: Vec<&str> = log.releases().iter().map(|r| r.tag().name.as_str()).collect();
    assert_eq!(names, vec!["v0.10.0", "v0.2.0", "v0.1.0"]);
}

#[test]
fn filtered_type_is_consumed_but_dropped() {
    let commits = vec![
        commit("a", "chore: housekeeping"),
        commit("b", "feat: the feature"),
    ];
    let mut config = Config::default();
    config.accept_types = Some(vec!["feat".to_owned(), "fix".to_owned()]);
    let tags = vec![tag("v1.0.0", &commits[1])];
    let log = Changelog::new(&config, &commits, tags).unwrap();
    assert_eq!(log.config().accept_types.as_ref().unwrap().len(), 2);
    // the chore commit is consumed by v1.0.0 but appears nowhere
    let ids: Vec<&str> = log.releases()[0].changeset().changes().iter().map(|c| c.id()).collect();
    assert_eq!(ids, vec!["b"]);
    assert_eq!(log.unreleased().changes().len(), 0);
}

#[test]
fn invalid_tag_name_fails_the_build() {
    let commits = vec![commit("a", "fix: one")];
    let config = Config::default();
    let bad = Tag {
        message: None,
        name: "nightly".to_owned(),
        version: parse_version("0.0.0").unwrap(),
        tagger: None,
        commit: commit("a", "fix: one"),
    };
    match Changelog::new(&config, &commits, vec![bad]) {
        Err(e) => assert_eq!(e, Error::SemVer),
        Ok(_) => panic!("a marker without a semantic version must fail"),
    }
}

#[test]
fn unparseable_commit_fails_the_build() {
    let commits = vec![commit("a", "fix: fine"), commit("b", "not conventional at all")];
    let config = Config::default();
    let tags = vec![tag("v1.0.0", &commits[1])];
    match Changelog::new(&config, &commits, tags) {
        Err(e) => assert_eq!(e, Error::ConventionalCommit(ParseIssue::InvalidHeader)),
        Ok(_) => panic!("an unparseable consumed commit must fail the build"),
    }
}

#[test]
fn absent_boundary_leaves_the_cursor_in_place() {
    let commits = vec![commit("a", "fix: one"), commit("b", "fix: two")];
    let mut cs = ChangeSet::new();
    let missing = tag("v9.9.9", &commit("zzz", "fix: gone"));
    let cursor = cs.take_commits(0, &commits, &None, Some(&missing)).unwrap();
    assert_eq!(cursor, 0);
    assert_eq!(cs.changes().len(), 0);
}

#[test]
fn take_commits_without_boundary_takes_the_tail() {
    let commits = vec![commit("a", "fix: one"), commit("b", "feat: two")];
    let mut cs = ChangeSet::new();
    let cursor = cs.take_commits(0, &commits, &None, None).unwrap();
    assert_eq!(cursor, 2);
    let ids: Vec<&str> = cs.changes().iter().map(|c| c.id()).collect();
    assert_eq!(ids, vec!["b", "a"]);
}

#[test]
fn changeset_contributors_ignore_list() {
    let commits = vec![commit(
        "a",
        "fix: x\n\nBody.\n\nCo-authored-by: Zoe <zoe@example.com>",
    )];
    let mut cs = ChangeSet::new();
    cs.take_commits(0, &commits, &None, None).unwrap();
    let footers = vec!["co-authored-by".to_owned()];

    let all = cs.contributors(&footers, None);
    let names: Vec<&str> = all.iter().map(|c| c.name.as_str()).collect();
    // lexicographic by code point: upper-case letters sort first
    assert_eq!(names, vec!["Zoe", "ada", "bob"]);

    let ignore = vec!["bob@example.com".to_owned(), "Zoe".to_owned()];
    let some = cs.contributors(&footers, Some(&ignore));
    let names: Vec<&str> = some.iter().map(|c| c.name.as_str()).collect();
    assert_eq!(names, vec!["ada"]);
}
