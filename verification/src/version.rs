//! Semantic versions of release markers.
//!
//! Parsing a version string and ordering two versions are delegated to the
//! `semver` crate; the parts of a parsed version are held here as plain
//! values so that the rest of the library can reason about them.

use vstd::prelude::*;

verus! {

/// Mathematical view of a [`Version`]: the numeric triple plus the raw
/// pre-release and build identifiers.
pub ghost struct VersionView {
    pub major: int,
    pub minor: int,
    pub patch: int,
    pub pre: Seq<char>,
    pub build: Seq<char>,
}

/// A parsed semantic version: `major.minor.patch`, an optional pre-release
/// identifier and optional build metadata, both kept as the raw text
/// between their markers (empty when absent).
pub struct Version {
    pub major: u64,
    pub minor: u64,
    pub patch: u64,
    pub pre: String,
    pub build: String,
}

impl View for Version {
    type V = VersionView;

    open spec fn view(&self) -> VersionView {
        VersionView {
            major: self.major as int,
            minor: self.minor as int,
            patch: self.patch as int,
            pre: self.pre@,
            build: self.build@,
        }
    }
}

/// The version, if any, that `semver::Version::parse` reads out of a text.
pub uninterp spec fn spec_parse_version(s: Seq<char>) -> Option<VersionView>;

/// Relies on `semver::Version::parse`: whether a text is a valid semantic
/// version, and the parts read out of it, depend on the text alone.
#[verifier::external_body]
pub fn parse_version(text: &str) -> (r: Option<Version>)
    ensures
        match r {
            Some(v) => spec_parse_version(text@) == Some(v@),
            None => spec_parse_version(text@) is None,
        },
{
    match semver::Version::parse(text) {
        Ok(v) => Some(
            Version {
                major: v.major,
                minor: v.minor,
                patch: v.patch,
                pre: v.pre.as_str().to_owned(),
                build: v.build.as_str().to_owned(),
            },
        ),
        Err(_) => None,
    }
}

/// Whether the total order of `semver::Version` places `a` strictly below
/// `b`; a function of the two versions' parts alone.
pub uninterp spec fn spec_version_lt(a: VersionView, b: VersionView) -> bool;

/// Relies on `Ord for semver::Version`: semantic-version precedence on the
/// numeric triple and the pre-release identifiers, with build metadata as
/// the final tie-breaker, giving a total order on the parts.
#[verifier::external_body]
pub fn version_cmp(a: &Version, b: &Version) -> (r: i8)
    ensures
        r == -1 || r == 0 || r == 1,
        (r == -1) == spec_version_lt(a@, b@),
        (r == 1) == spec_version_lt(b@, a@),
{
    let ap = semver::Prerelease::new(&a.pre).unwrap_or_default();
    let ab = semver::BuildMetadata::new(&a.build).unwrap_or_default();
    let bp = semver::Prerelease::new(&b.pre).unwrap_or_default();
    let bb = semver::BuildMetadata::new(&b.build).unwrap_or_default();
    let av = semver::Version { major: a.major, minor: a.minor, patch: a.patch, pre: ap, build: ab };
    let bv = semver::Version { major: b.major, minor: b.minor, patch: b.patch, pre: bp, build: bb };
    match av.cmp(&bv) {
        core::cmp::Ordering::Less => -1,
        core::cmp::Ordering::Equal => 0,
        core::cmp::Ordering::Greater => 1,
    }
}

impl Version {
    /// A copy of this version with the same parts.
    pub fn duplicate(&self) -> (r: Version)
        ensures
            r@ == self@,
    {
        Version {
            major: self.major,
            minor: self.minor,
            patch: self.patch,
            pre: self.pre.clone(),
            build: self.build.clone(),
        }
    }
}

} // verus!
