//! A release: a version, its release marker, and the changes it bounds.

use crate::changelog::changeset::{ChangeSet, ChangeSetView};
use crate::changelog::change::ChangeView;
use crate::error::Error;
use crate::git::{Tag, TagView};
use crate::text::{
    all_ws, chars_of, find_from, find_sub_from, scan_char, scan_non_ws, scan_sub, trim_bounds,
    trim_spec,
};
use crate::version::{parse_version, spec_parse_version, Version, VersionView};
use vstd::prelude::*;

verus! {

/// Mathematical view of a [`Release`].
#[verifier::ext_equal]
pub ghost struct ReleaseView {
    pub version: VersionView,
    pub tag: TagView,
    pub changeset: ChangeSetView,
}

/// One release of the project.
pub struct Release<'a> {
    version: Version,
    tag: Tag,
    changeset: ChangeSet<'a>,
}

impl<'a> View for Release<'a> {
    type V = ReleaseView;

    closed spec fn view(&self) -> ReleaseView {
        ReleaseView { version: self.version@, tag: self.tag@, changeset: self.changeset@ }
    }
}

/// A marker name with any single leading `v` removed.
pub open spec fn strip_v(name: Seq<char>) -> Seq<char> {
    if name.len() > 0 && name[0] == 'v' {
        name.subrange(1, name.len() as int)
    } else {
        name
    }
}

/// The subject of a release annotation: its first line, but only when a
/// blank line, followed by at least one non-blank line, separates it
/// from the rest. An annotation without that separation — a single
/// line included — holds only a body and no subject; an absent or
/// whitespace-only annotation has none either.
pub open spec fn spec_subject(msg: Option<Seq<char>>) -> Option<Seq<char>> {
    match msg {
        None => None,
        Some(m) => {
            if all_ws(m) {
                None
            } else {
                let e0 = find_from(m, '\n', 0);
                if e0 + 1 >= m.len() {
                    None
                } else {
                    let e1 = find_from(m, '\n', e0 + 1);
                    if e1 == e0 + 1 && e1 + 1 < m.len() && find_from(m, '\n', e1 + 1) > e1 + 1 {
                        Some(m.subrange(0, e0))
                    } else {
                        None
                    }
                }
            }
        },
    }
}

/// The marker that begins a PGP signature block.
pub open spec fn pgp_marker() -> Seq<char> {
    seq!['-', '-', '-', '-', '-', 'B', 'E', 'G', 'I', 'N']
}

/// The notes of a release annotation: everything after the subject's
/// line — from the start, when there is no subject, so a single-line
/// annotation is all notes — up to the start of a PGP signature block,
/// trimmed; an absent annotation has none.
pub open spec fn spec_notes(msg: Option<Seq<char>>) -> Option<Seq<char>> {
    match msg {
        None => None,
        Some(m) => {
            let begin = if spec_subject(msg) is Some {
                find_from(m, '\n', 0)
            } else {
                0
            };
            let stop = match find_sub_from(m, pgp_marker(), 0) {
                Some(i) => i,
                None => m.len() as int,
            };
            let end = if stop < begin {
                begin
            } else {
                stop
            };
            Some(trim_spec(m.subrange(begin, end)))
        },
    }
}

/// The release date: the annotator's timestamp when the marker carries
/// one, else the timestamp of the commit it points to.
pub open spec fn spec_date(t: TagView) -> int {
    match t.tagger {
        Some(s) => s.time,
        None => t.commit.time,
    }
}

impl<'a> Release<'a> {
    /// A release made from a marker, whose name — once any leading `v`
    /// is removed — must be a valid semantic version.
    pub fn new(tag: Tag) -> (r: Result<Release<'a>, Error>)
        ensures
            match r {
                Ok(rel) => {
                    &&& spec_parse_version(strip_v(tag@.name)) == Some(rel@.version)
                    &&& rel@.tag == tag@
                    &&& rel@.changeset.changes =~= Seq::<ChangeView>::empty()
                },
                Err(e) => spec_parse_version(strip_v(tag@.name)) is None && e == Error::SemVer,
            },
    {
        let s = tag.name.as_str();
        let n = s.unicode_len();
        let vs = if n > 0 && s.get_char(0) == 'v' {
            s.substring_char(1, n)
        } else {
            s
        };
        proof {
            assert(vs@ =~= strip_v(tag@.name));
        }
        match parse_version(vs) {
            Some(version) => Ok(Release { version, tag, changeset: ChangeSet::new() }),
            None => Err(Error::SemVer),
        }
    }

    /// Add a set of changes to the release.
    pub fn with_changeset(&mut self, changeset: ChangeSet<'a>)
        ensures
            final(self)@.changeset == changeset@,
            final(self)@.version == old(self)@.version,
            final(self)@.tag == old(self)@.tag,
    {
        self.changeset = changeset;
    }

    /// The semantic version of the release.
    pub fn version(&self) -> (r: &Version)
        ensures
            r@ == self@.version,
    {
        &self.version
    }

    /// The subject of the release, read from the marker's annotation.
    ///
    /// The first line is the subject **only** when an empty line,
    /// followed by at least one further non-blank line, stands between
    /// it and the rest; any other annotation — a single line included —
    /// is taken to hold only a body and no subject.
    pub fn subject(&self) -> (r: Option<&str>)
        ensures
            match r {
                Some(s) => spec_subject(self@.tag.message) == Some(s@),
                None => spec_subject(self@.tag.message) is None,
            },
    {
        let m = match &self.tag.message {
            None => {
                return None;
            },
            Some(m) => m,
        };
        let v = chars_of(m.as_str());
        let n = v.len();
        let w = scan_non_ws(&v, 0, n);
        if w == n {
            proof {
                assert(all_ws(m@));
            }
            return None;
        }
        proof {
            assert(!all_ws(m@)) by {
                assert(!crate::text::is_ws(m@[w as int]));
            }
        }
        let e0 = scan_char(&v, '\n', 0);
        proof {
            crate::text::lemma_find_from(v@, '\n', 0);
        }
        if n - e0 <= 1 {
            return None;
        }
        let e1 = scan_char(&v, '\n', e0 + 1);
        proof {
            crate::text::lemma_find_from(v@, '\n', e0 + 1);
        }
        if e1 - e0 == 1 && n - e1 > 1 {
            let e2 = scan_char(&v, '\n', e1 + 1);
            proof {
                crate::text::lemma_find_from(v@, '\n', e1 + 1);
            }
            if e2 - e1 > 1 {
                return Some(m.as_str().substring_char(0, e0));
            }
        }
        None
    }

    /// The release notes, read from the marker's annotation: the lines
    /// after the subject, up to any PGP signature block, trimmed.
    pub fn notes(&self) -> (r: Option<&str>)
        ensures
            match r {
                Some(s) => spec_notes(self@.tag.message) == Some(s@),
                None => spec_notes(self@.tag.message) is None,
            },
    {
        let has_subject = self.subject().is_some();
        let m = match &self.tag.message {
            None => {
                return None;
            },
            Some(m) => m,
        };
        let v = chars_of(m.as_str());
        let n = v.len();
        let begin = if has_subject {
            scan_char(&v, '\n', 0)
        } else {
            0
        };
        proof {
            crate::text::lemma_find_from(v@, '\n', 0);
        }
        let marker = chars_of("-----BEGIN");
        proof {
            reveal_strlit("-----BEGIN");
            assert(marker@ =~= pgp_marker());
        }
        let stop = match scan_sub(&v, &marker, 0) {
            Some(i) => i,
            None => n,
        };
        let end = if stop < begin {
            begin
        } else {
            stop
        };
        proof {
            crate::text::lemma_find_sub_from(v@, pgp_marker(), 0);
        }
        let (i, j) = trim_bounds(&v, begin, end);
        Some(m.as_str().substring_char(i, j))
    }

    /// The release date, in Unix seconds.
    pub fn date(&self) -> (r: i64)
        ensures
            r as int == spec_date(self@.tag),
    {
        match &self.tag.tagger {
            Some(t) => t.time,
            None => self.tag.commit.time,
        }
    }

    /// The release marker belonging to the release.
    pub fn tag(&self) -> (r: &Tag)
        ensures
            r@ == self@.tag,
    {
        &self.tag
    }

    /// The change set belonging to the release.
    pub fn changeset(&self) -> (r: &ChangeSet<'a>)
        ensures
            r@ == self@.changeset,
    {
        &self.changeset
    }
}

} // verus!
