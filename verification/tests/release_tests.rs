use jilu::changelog::Release;
use jilu::error::Error;
use jilu::git::{Commit, Signature, Tag};
use jilu::version::{parse_version, version_cmp};

fn sig(name: &str, time: i64) -> Signature {
    Signature { name: name.to_owned(), email: format!("{}@example.com", name), time }
}

fn commit(id: &str) -> Commit {
    Commit {
        id: id.to_owned(),
        short_id: id.to_owned(),
        message: "fix: something".to_owned(),
        time: 1_600_000_000,
        author: sig("ada", 1_600_000_000),
        committer: sig("bob", 1_600_000_001),
    }
}

fn tag(name: &str, message: Option<&str>, tagger: Option<Signature>) -> Tag {
    Tag {
        message: message.map(|m| m.to_owned()),
        name: name.to_owned(),
        version: parse_version(name.trim_start_matches('v')).unwrap(),
        tagger,
        commit: commit("aaaa"),
    }
}

#[test]
fn release_requires_a_semantic_version() {
    assert!(Release::new(tag("v1.2.3", None, None)).is_ok());
    assert!(Release::new(tag("1.2.3", None, None)).is_ok());
    let bad = Tag {
        message: None,
        name: "not-a-version".to_owned(),
        version: parse_version("0.0.0").unwrap(),
        tagger: None,
        commit: commit("aaaa"),
    };
    match Release::new(bad) {
        Err(e) => assert_eq!(e, Error::SemVer),
        Ok(_) => panic!("a marker without a semantic version must fail"),
    }
}

#[test]
fn release_version_parts() {
    let rel = Release::new(tag("v1.2.3-alpha.1", None, None)).unwrap();
    let v = rel.version();
    assert_eq!(v.major, 1);
    assert_eq!(v.minor, 2);
    assert_eq!(v.patch, 3);
    assert_eq!(v.pre, "alpha.1");
    assert_eq!(v.build, "");
}

#[test]
fn version_precedence_follows_semver() {
    let a = parse_version("1.0.0-alpha").unwrap();
    let b = parse_version("1.0.0").unwrap();
    let c = parse_version("0.10.0").unwrap();
    let d = parse_version("0.2.0").unwrap();
    assert_eq!(version_cmp(&a, &b), -1);
    assert_eq!(version_cmp(&b, &a), 1);
    assert_eq!(version_cmp(&d, &c), -1);
    assert_eq!(version_cmp(&b, &b), 0);
}

#[test]
fn subject_needs_a_blank_separator() {
    let some = Release::new(tag("v1.0.0", Some("Title\n\nBody line"), None)).unwrap();
    assert_eq!(some.subject(), Some("Title"));

    let none = Release::new(tag("v1.0.0", Some("Title\nBody line"), None)).unwrap();
    assert_eq!(none.subject(), None);

    let empty = Release::new(tag("v1.0.0", Some(""), None)).unwrap();
    assert_eq!(empty.subject(), None);
}

#[test]
fn subject_edge_cases() {
    // a single-line annotation holds only a body, never a subject
    let lone = Release::new(tag("v1.0.0", Some("Title"), None)).unwrap();
    assert_eq!(lone.subject(), None);
    assert_eq!(lone.notes(), Some("Title"));

    let trailing = Release::new(tag("v1.0.0", Some("Title\n"), None)).unwrap();
    assert_eq!(trailing.subject(), None);
    assert_eq!(trailing.notes(), Some("Title"));

    let no_third = Release::new(tag("v1.0.0", Some("Title\n\n"), None)).unwrap();
    assert_eq!(no_third.subject(), None);

    let unannotated = Release::new(tag("v1.0.0", None, None)).unwrap();
    assert_eq!(unannotated.subject(), None);
}

#[test]
fn subject_rejects_an_empty_third_line() {
    let rel = Release::new(tag("v1.0.0", Some("Title\n\n\nBody"), None)).unwrap();
    assert_eq!(rel.subject(), None);
}

#[test]
fn notes_stop_at_the_signature_block() {
    let rel = Release::new(
        tag(
            "v1.0.0",
            Some("Title\n\nBody\n-----BEGIN PGP SIGNATURE-----\nxyz\n-----END PGP SIGNATURE-----"),
            None,
        ),
    )
    .unwrap();
    assert_eq!(rel.notes(), Some("Body"));
}

#[test]
fn notes_without_subject_start_at_the_top() {
    let rel = Release::new(tag("v1.0.0", Some("just a body\nwith two lines"), None)).unwrap();
    assert_eq!(rel.notes(), Some("just a body\nwith two lines"));
    let none = Release::new(tag("v1.0.0", None, None)).unwrap();
    assert_eq!(none.notes(), None);
}

#[test]
fn date_prefers_the_tagger_timestamp() {
    let with_tagger = Release::new(tag("v1.0.0", None, Some(sig("eve", 1_650_000_000)))).unwrap();
    assert_eq!(with_tagger.date(), 1_650_000_000);
    let without = Release::new(tag("v1.0.0", None, None)).unwrap();
    assert_eq!(without.date(), 1_600_000_000);
}
