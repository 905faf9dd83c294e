//! The commit and release-marker records the library works on.
//!
//! The records hold plain values only: identifiers and messages as
//! strings, timestamps as Unix seconds. Reading them out of a repository
//! is a collaborator's job.

use crate::version::{Version, VersionView};
use vstd::prelude::*;

verus! {

/// Mathematical view of a [`Signature`].
pub ghost struct SignatureView {
    pub email: Seq<char>,
    pub name: Seq<char>,
    pub time: int,
}

/// An author, committer or tagger identity, with the moment it signed.
pub struct Signature {
    pub email: String,
    pub name: String,
    /// Unix timestamp, in seconds.
    pub time: i64,
}

impl View for Signature {
    type V = SignatureView;

    open spec fn view(&self) -> SignatureView {
        SignatureView { email: self.email@, name: self.name@, time: self.time as int }
    }
}

impl Signature {
    /// A copy of this signature with the same fields.
    pub fn duplicate(&self) -> (r: Signature)
        ensures
            r@ == self@,
    {
        Signature { email: self.email.clone(), name: self.name.clone(), time: self.time }
    }
}

/// Mathematical view of a [`Commit`].
pub ghost struct CommitView {
    pub id: Seq<char>,
    pub short_id: Seq<char>,
    pub message: Seq<char>,
    pub time: int,
    pub author: SignatureView,
    pub committer: SignatureView,
}

/// A commit owning all the data the changelog needs.
pub struct Commit {
    pub id: String,
    pub short_id: String,
    pub message: String,
    /// Unix timestamp, in seconds.
    pub time: i64,
    pub author: Signature,
    pub committer: Signature,
}

impl View for Commit {
    type V = CommitView;

    open spec fn view(&self) -> CommitView {
        CommitView {
            id: self.id@,
            short_id: self.short_id@,
            message: self.message@,
            time: self.time as int,
            author: self.author@,
            committer: self.committer@,
        }
    }
}

/// Mathematical view of a [`Tag`].
pub ghost struct TagView {
    pub message: Option<Seq<char>>,
    pub name: Seq<char>,
    pub version: VersionView,
    pub tagger: Option<SignatureView>,
    pub commit: CommitView,
}

/// A release marker: a named, versioned pointer to a commit, optionally
/// carrying an annotation and the identity that made it.
pub struct Tag {
    pub message: Option<String>,
    pub name: String,
    pub version: Version,
    pub tagger: Option<Signature>,
    pub commit: Commit,
}

impl View for Tag {
    type V = TagView;

    open spec fn view(&self) -> TagView {
        TagView {
            message: match self.message {
                Some(m) => Some(m@),
                None => None,
            },
            name: self.name@,
            version: self.version@,
            tagger: match self.tagger {
                Some(t) => Some(t@),
                None => None,
            },
            commit: self.commit@,
        }
    }
}

} // verus!
