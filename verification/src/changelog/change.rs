//! A single change in the change log: one commit with its parsed message.

use crate::changelog::contributor::{
    contrib_views, contributor_of, insert_contributor, parse_contributor_footer, sorted_unique,
    Contributor, ContributorView,
};
use crate::error::Error;
use crate::git::{Commit, CommitView, SignatureView};
use crate::message::{parse_message, spec_parse_message, FooterView, MessageView, ParsedMessage};
use crate::text::{chars_of, digit, is_digit, lower_eq, lower_seq, str_views, trim_spec};
use vstd::prelude::*;

verus! {

/// Mathematical view of a [`Change`].
#[verifier::ext_equal]
pub ghost struct ChangeView {
    pub commit: CommitView,
    pub message: MessageView,
}

/// A single change in the change log.
pub struct Change<'a> {
    commit: &'a Commit,
    message: ParsedMessage,
}

impl<'a> View for Change<'a> {
    type V = ChangeView;

    closed spec fn view(&self) -> ChangeView {
        ChangeView { commit: (*self.commit)@, message: self.message@ }
    }
}

/// The contributor identity of a signature: its name and email, trimmed.
pub open spec fn signature_contributor(s: SignatureView) -> ContributorView {
    ContributorView { name: trim_spec(s.name), email: trim_spec(s.email) }
}

/// Whether a footer's token, folded to lower case, is one of the allowed
/// contributor tokens.
pub open spec fn footer_allowed(f: FooterView, allow: Seq<Seq<char>>) -> bool {
    exists|k: int| 0 <= k < allow.len() && lower_seq(f.token) == allow[k]
}

/// Whether `x` is among the contributors a change names: one declared by
/// an allowed footer, the author, or the committer.
pub open spec fn in_contributor_pool(cv: ChangeView, allow: Seq<Seq<char>>, x: ContributorView)
    -> bool {
    ||| exists|i: int|
        0 <= i < cv.message.footers.len() && footer_allowed(#[trigger] cv.message.footers[i], allow)
            && x == contributor_of(cv.message.footers[i].value)
    ||| x == signature_contributor(cv.commit.author)
    ||| x == signature_contributor(cv.commit.committer)
}

impl<'a> Change<'a> {
    /// Parse a commit's message into a change record.
    pub fn new(commit: &'a Commit) -> (r: Result<Change<'a>, Error>)
        ensures
            match r {
                Ok(c) => spec_parse_message(commit@.message) matches Ok(m) && c@.message =~~= m
                    && c@.commit == commit@,
                Err(e) => spec_parse_message(commit@.message) matches Err(e2) && e == e2,
            },
    {
        match parse_message(commit.message.as_str()) {
            Ok(message) => Ok(Change { commit, message }),
            Err(e) => Err(e),
        }
    }

    /// The type of the change.
    pub fn type_(&self) -> (r: &str)
        ensures
            r@ == self@.message.type_,
    {
        self.message.type_.as_str()
    }

    /// The scope of the change.
    pub fn scope(&self) -> (r: Option<&str>)
        ensures
            match r {
                Some(sc) => self@.message.scope == Some(sc@),
                None => self@.message.scope is None,
            },
    {
        match &self.message.scope {
            Some(sc) => Some(sc.as_str()),
            None => None,
        }
    }

    /// The short description of the change.
    pub fn description(&self) -> (r: &str)
        ensures
            r@ == self@.message.description,
    {
        self.message.description.as_str()
    }

    /// The description of a merge commit of a hosting platform, including
    /// the pull-request number, if the description carries one.
    pub fn merge_commit_description(&self) -> (r: Option<GithubMergeCommit>)
        ensures
            match r {
                Some(g) => pr_match(self@.message.description) && g@.description == pr_desc(
                    self@.message.description,
                ) && g@.pr_number == pr_number_of(self@.message.description),
                None => !pr_match(self@.message.description),
            },
    {
        GithubMergeCommit::new(self.message.description.as_str())
    }

    /// The body of the change.
    pub fn body(&self) -> (r: Option<&str>)
        ensures
            match r {
                Some(b) => self@.message.body == Some(b@),
                None => self@.message.body is None,
            },
    {
        match &self.message.body {
            Some(b) => Some(b.as_str()),
            None => None,
        }
    }

    /// Whether the change is marked as breaking.
    pub fn breaking(&self) -> (r: bool)
        ensures
            r == self@.message.breaking,
    {
        self.message.breaking
    }

    /// The footers of the change's message.
    pub fn footers(&self) -> (r: &Vec<crate::message::Footer>)
        ensures
            r@.map_values(|f: crate::message::Footer| f@) == self@.message.footers,
    {
        &self.message.footers
    }

    /// The short commit identifier.
    pub fn short_id(&self) -> (r: &str)
        ensures
            r@ == self@.commit.short_id,
    {
        self.commit.short_id.as_str()
    }

    /// The full commit identifier.
    pub fn id(&self) -> (r: &str)
        ensures
            r@ == self@.commit.id,
    {
        self.commit.id.as_str()
    }

    /// The author details of this change.
    pub fn author(&self) -> (r: Contributor)
        ensures
            r@ == signature_contributor(self@.commit.author),
    {
        let c = Contributor::from_parts(
            self.commit.author.name.as_str(),
            self.commit.author.email.as_str(),
        );
        proof {
            assert(c@ =~~= signature_contributor(self@.commit.author));
        }
        c
    }

    /// The committer details of this change.
    pub fn committer(&self) -> (r: Contributor)
        ensures
            r@ == signature_contributor(self@.commit.committer),
    {
        let c = Contributor::from_parts(
            self.commit.committer.name.as_str(),
            self.commit.committer.email.as_str(),
        );
        proof {
            assert(c@ =~~= signature_contributor(self@.commit.committer));
        }
        c
    }

    /// The list of contributors for this change: the author, the
    /// committer, and anyone declared by a footer whose token is in
    /// `contributor_footers`; sorted canonically, without duplicates.
    pub fn contributors(&self, contributor_footers: &Vec<String>) -> (r: Vec<Contributor>)
        ensures
            sorted_unique(contrib_views(r@)),
            forall|x: ContributorView|
                #[trigger] contrib_views(r@).contains(x) <==> in_contributor_pool(
                    self@,
                    str_views(contributor_footers@),
                    x,
                ),
    {
        let ghost allow = str_views(contributor_footers@);
        let ghost fs = self@.message.footers;
        let mut out: Vec<Contributor> = Vec::new();
        let mut j: usize = 0;
        while j < self.message.footers.len()
            invariant
                j <= fs.len(),
                fs == self@.message.footers,
                allow == str_views(contributor_footers@),
                sorted_unique(contrib_views(out@)),
                forall|x: ContributorView|
                    #[trigger] contrib_views(out@).contains(x) <==> exists|i: int|
                        0 <= i < j && footer_allowed(#[trigger] fs[i], allow) && x
                            == contributor_of(fs[i].value),
            decreases fs.len() - j,
        {
            let footer = &self.message.footers[j];
            proof {
                assert(fs[j as int] == footer@);
            }
            let mut ok = false;
            let mut k: usize = 0;
            while k < contributor_footers.len()
                invariant
                    k <= allow.len(),
                    allow == str_views(contributor_footers@),
                    ok ==> footer_allowed(footer@, allow),
                    !ok ==> forall|t: int| 0 <= t < k ==> lower_seq(footer@.token) != allow[t],
                decreases allow.len() - k,
            {
                if lower_eq(footer.token.as_str(), contributor_footers[k].as_str()) {
                    proof {
                        assert(allow[k as int] == contributor_footers@[k as int]@);
                    }
                    ok = true;
                    k = contributor_footers.len();
                } else {
                    proof {
                        assert(allow[k as int] == contributor_footers@[k as int]@);
                    }
                    k += 1;
                }
            }
            let ghost before = contrib_views(out@);
            if ok {
                if let Some(c) = parse_contributor_footer(footer.value.as_str()) {
                    let ghost cv = c@;
                    proof {
                        assert(cv == contributor_of(fs[j as int].value));
                    }
                    insert_contributor(&mut out, c);
                    proof {
                        assert forall|x: ContributorView| #[trigger] contrib_views(
                            out@,
                        ).contains(x) <==> exists|i: int|
                            0 <= i < j + 1 && footer_allowed(#[trigger] fs[i], allow) && x
                                == contributor_of(fs[i].value) by {
                            if contrib_views(out@).contains(x) {
                                if before.contains(x) {
                                    let i0 = choose|i0: int|
                                        0 <= i0 < j && footer_allowed(#[trigger] fs[i0], allow) && x
                                            == contributor_of(fs[i0].value);
                                    assert(footer_allowed(fs[i0], allow));
                                } else {
                                    assert(x == cv);
                                    assert(footer_allowed(fs[j as int], allow));
                                }
                            }
                            if exists|i: int|
                                0 <= i < j + 1 && footer_allowed(#[trigger] fs[i], allow) && x
                                    == contributor_of(fs[i].value) {
                                let i0 = choose|i0: int|
                                    0 <= i0 < j + 1 && footer_allowed(#[trigger] fs[i0], allow) && x
                                        == contributor_of(fs[i0].value);
                                if i0 < j {
                                    assert(before.contains(x));
                                } else {
                                    assert(x == cv);
                                }
                            }
                        }
                    }
                } else {
                    proof {
                        assert(false);
                    }
                }
            } else {
                proof {
                    assert(!footer_allowed(fs[j as int], allow));
                    assert forall|x: ContributorView| #[trigger] contrib_views(out@).contains(x)
                        <==> exists|i: int|
                        0 <= i < j + 1 && footer_allowed(#[trigger] fs[i], allow) && x
                            == contributor_of(fs[i].value) by {
                        if exists|i: int|
                            0 <= i < j + 1 && footer_allowed(#[trigger] fs[i], allow) && x
                                == contributor_of(fs[i].value) {
                            let i0 = choose|i0: int|
                                0 <= i0 < j + 1 && footer_allowed(#[trigger] fs[i0], allow) && x
                                    == contributor_of(fs[i0].value);
                            assert(i0 < j);
                        }
                    }
                }
            }
            j += 1;
        }
        let a = self.author();
        insert_contributor(&mut out, a);
        let c = self.committer();
        insert_contributor(&mut out, c);
        proof {
            assert forall|x: ContributorView| #[trigger] contrib_views(out@).contains(x)
                <==> in_contributor_pool(self@, allow, x) by {}
        }
        out
    }
}

/// The start of the maximal run of ASCII digits that ends just before
/// `e`.
pub open spec fn digit_run_start(d: Seq<char>, e: int) -> int
    decreases e,
{
    if e <= 0 {
        0
    } else if is_digit(d[e - 1]) {
        digit_run_start(d, e - 1)
    } else {
        e
    }
}

/// The number the ASCII digits `[lo, hi)` of `d` denote.
pub open spec fn digits_val(d: Seq<char>, lo: int, hi: int) -> int
    decreases hi - lo,
{
    if lo >= hi {
        0
    } else {
        digits_val(d, lo, hi - 1) * 10 + ((d[hi - 1] as u32) - ('0' as u32))
    }
}

/// Whether a description ends in a pull-request suffix: a space, `(#`,
/// one or more digits that denote a number no larger than `usize::MAX`,
/// and a closing parenthesis, with a non-empty description before it.
pub open spec fn pr_match(d: Seq<char>) -> bool {
    let n = d.len() as int;
    let ds = digit_run_start(d, n - 1);
    &&& n >= 1
    &&& d[n - 1] == ')'
    &&& ds < n - 1
    &&& ds >= 4
    &&& d[ds - 1] == '#'
    &&& d[ds - 2] == '('
    &&& d[ds - 3] == ' '
    &&& digits_val(d, ds, n - 1) <= usize::MAX
}

/// The description with the pull-request suffix removed.
pub open spec fn pr_desc(d: Seq<char>) -> Seq<char> {
    d.subrange(0, digit_run_start(d, d.len() - 1) - 3)
}

/// The number the pull-request suffix carries.
pub open spec fn pr_number_of(d: Seq<char>) -> int {
    digits_val(d, digit_run_start(d, d.len() - 1), d.len() - 1)
}

/// Mathematical view of a [`GithubMergeCommit`].
#[verifier::ext_equal]
pub ghost struct GithubMergeCommitView {
    pub description: Seq<char>,
    pub pr_number: int,
}

/// A change description that ends in the `(#N)` suffix a hosting
/// platform appends to merge commits.
pub struct GithubMergeCommit {
    description: String,
    pr_number: usize,
}

impl View for GithubMergeCommit {
    type V = GithubMergeCommitView;

    closed spec fn view(&self) -> GithubMergeCommitView {
        GithubMergeCommitView {
            description: self.description@,
            pr_number: self.pr_number as int,
        }
    }
}

/// The value of a digit run is never negative.
proof fn lemma_digits_nonneg(d: Seq<char>, lo: int, hi: int)
    requires
        forall|k: int| lo <= k < hi ==> is_digit(d[k]),
        0 <= lo,
        hi <= d.len(),
    ensures
        digits_val(d, lo, hi) >= 0,
    decreases hi - lo,
{
    if lo < hi {
        lemma_digits_nonneg(d, lo, hi - 1);
    }
}

/// A longer digit run denotes at least as large a number.
proof fn lemma_digits_monotone(d: Seq<char>, lo: int, mid: int, hi: int)
    requires
        forall|k: int| lo <= k < hi ==> is_digit(d[k]),
        0 <= lo <= mid <= hi <= d.len(),
    ensures
        digits_val(d, lo, mid) <= digits_val(d, lo, hi),
    decreases hi - mid,
{
    if mid < hi {
        lemma_digits_monotone(d, lo, mid, hi - 1);
        lemma_digits_nonneg(d, lo, hi - 1);
    }
}

impl GithubMergeCommit {
    /// Scan the description backwards for a trailing pull-request suffix.
    pub fn new(description: &str) -> (r: Option<GithubMergeCommit>)
        ensures
            match r {
                Some(g) => pr_match(description@) && g@.description == pr_desc(description@)
                    && g@.pr_number == pr_number_of(description@),
                None => !pr_match(description@),
            },
    {
        let ghost d = description@;
        let v = chars_of(description);
        let n = v.len();
        if n == 0 {
            return None;
        }
        if v[n - 1] != ')' {
            return None;
        }
        let mut ds: usize = n - 1;
        while ds > 0 && digit(v[ds - 1])
            invariant
                ds <= n - 1,
                n == d.len(),
                v@ == d,
                digit_run_start(d, n - 1) == digit_run_start(d, ds as int),
                forall|k: int| ds <= k < n - 1 ==> is_digit(d[k]),
            decreases ds,
        {
            ds -= 1;
        }
        proof {
            assert(digit_run_start(d, ds as int) == ds);
        }
        if ds >= n - 1 {
            return None;
        }
        if ds < 4 {
            return None;
        }
        if v[ds - 1] != '#' || v[ds - 2] != '(' || v[ds - 3] != ' ' {
            return None;
        }
        let mut val: usize = 0;
        let mut k: usize = ds;
        while k < n - 1
            invariant
                d == description@,
                ds <= k <= n - 1,
                n == d.len(),
                v@ == d,
                digit_run_start(d, n - 1) == ds,
                forall|j: int| ds <= j < n - 1 ==> is_digit(d[j]),
                val == digits_val(d, ds as int, k as int),
            decreases n - 1 - k,
        {
            let dig = (v[k] as u32) - ('0' as u32);
            let step = match val.checked_mul(10) {
                Some(x) => x.checked_add(dig as usize),
                None => None,
            };
            match step {
                Some(x) => {
                    val = x;
                },
                None => {
                    proof {
                        assert(is_digit(d[k as int]));
                        lemma_digits_nonneg(d, ds as int, k as int);
                        lemma_digits_monotone(d, ds as int, k + 1, n - 1);
                        assert(digits_val(d, ds as int, k + 1) > usize::MAX);
                        assert(digits_val(d, ds as int, n - 1) > usize::MAX);
                        assert(!pr_match(d));
                    }
                    return None;
                },
            }
            k += 1;
        }
        let descr = description.substring_char(0, ds - 3).to_owned();
        proof {
            assert(descr@ == pr_desc(d));
        }
        Some(GithubMergeCommit { description: descr, pr_number: val })
    }

    /// The description, without the pull-request suffix.
    pub fn description(&self) -> (r: &str)
        ensures
            r@ == self@.description,
    {
        self.description.as_str()
    }

    /// The pull-request number.
    pub fn pr_number(&self) -> (r: usize)
        ensures
            r == self@.pr_number,
    {
        self.pr_number
    }
}

} // verus!
