//! A set of changes belonging together: the commits one release bounds.

use crate::changelog::change::{Change, ChangeView};
use crate::changelog::contributor::{
    contrib_views, insert_contributor, sorted_unique, Contributor, ContributorView,
};
use crate::changelog::change::in_contributor_pool;
use crate::error::Error;
use crate::git::{Commit, CommitView, Tag, TagView};
use crate::message::{spec_parse_message, MessageView};
use crate::text::{str_eq, str_views};
use vstd::prelude::*;

verus! {

/// Mathematical view of a [`ChangeSet`].
#[verifier::ext_equal]
pub ghost struct ChangeSetView {
    pub changes: Seq<ChangeView>,
}

/// A set of changes belonging together.
pub struct ChangeSet<'a> {
    changes: Vec<Change<'a>>,
}

impl<'a> View for ChangeSet<'a> {
    type V = ChangeSetView;

    closed spec fn view(&self) -> ChangeSetView {
        ChangeSetView { changes: self.changes@.map_values(|c: Change<'a>| c@) }
    }
}

/// The views of a list of commits.
pub open spec fn commit_views(commits: Seq<Commit>) -> Seq<CommitView> {
    commits.map_values(|c: Commit| c@)
}

/// The views of a list of changes.
pub open spec fn change_views<'a>(cs: Seq<Change<'a>>) -> Seq<ChangeView> {
    cs.map_values(|c: Change<'a>| c@)
}

/// The view of an optional accept-type list.
pub open spec fn accept_views(accept: Option<Vec<String>>) -> Option<Seq<Seq<char>>> {
    match accept {
        None => None,
        Some(v) => Some(str_views(v@)),
    }
}

/// The view of an optional release-marker boundary.
pub open spec fn tag_view_opt(tag: Option<&Tag>) -> Option<TagView> {
    match tag {
        Some(t) => Some((*t)@),
        None => None,
    }
}

/// Whether `ty` is one of the types in `ts`.
pub open spec fn type_in(ts: Seq<Seq<char>>, ty: Seq<char>) -> bool {
    exists|k: int| 0 <= k < ts.len() && (#[trigger] ts[k]) == ty
}

/// Whether a message's type passes the accept-type list; an absent list
/// accepts every type.
pub open spec fn accepted(m: MessageView, accept: Option<Seq<Seq<char>>>) -> bool {
    match accept {
        None => true,
        Some(ts) => type_in(ts, m.type_),
    }
}


/// The changes of the commit span `[lo, hi)`, newest first, keeping only
/// the accepted types.
pub open spec fn span_changes(
    commits: Seq<CommitView>,
    lo: int,
    hi: int,
    accept: Option<Seq<Seq<char>>>,
) -> Seq<ChangeView>
    decreases hi - lo,
{
    if lo >= hi || hi > commits.len() || lo < 0 {
        Seq::empty()
    } else {
        let c = commits[hi - 1];
        let rest = span_changes(commits, lo, hi - 1, accept);
        match spec_parse_message(c.message) {
            Ok(m) => if accepted(m, accept) {
                seq![ChangeView { commit: c, message: m }] + rest
            } else {
                rest
            },
            Err(e) => rest,
        }
    }
}

/// A span never yields more changes than it has commits.
proof fn lemma_span_changes_len(
    commits: Seq<CommitView>,
    lo: int,
    hi: int,
    accept: Option<Seq<Seq<char>>>,
)
    ensures
        0 <= span_changes(commits, lo, hi, accept).len(),
        lo <= hi ==> span_changes(commits, lo, hi, accept).len() <= hi - lo,
    decreases hi - lo,
{
    if !(lo >= hi || hi > commits.len() || lo < 0) {
        lemma_span_changes_len(commits, lo, hi - 1, accept);
    }
}

/// A commit whose type is absent from an accept-type list never appears
/// among the changes of any span, though its commit is consumed like any
/// other: the span's extent does not depend on the list at all, and
/// every change the span yields carries an accepted type.
pub proof fn lemma_type_filter(
    commits: Seq<CommitView>,
    lo: int,
    hi: int,
    types: Seq<Seq<char>>,
)
    ensures
        forall|i: int|
            0 <= i < span_changes(commits, lo, hi, Some(types)).len() ==> type_in(
                types,
                (#[trigger] span_changes(commits, lo, hi, Some(types))[i]).message.type_,
            ),
    decreases hi - lo,
{
    if !(lo >= hi || hi > commits.len() || lo < 0) {
        lemma_type_filter(commits, lo, hi - 1, types);
        let s = span_changes(commits, lo, hi, Some(types));
        let rest = span_changes(commits, lo, hi - 1, Some(types));
        assert forall|i: int| 0 <= i < s.len() implies type_in(
            types,
            (#[trigger] s[i]).message.type_,
        ) by {
            match spec_parse_message(commits[hi - 1].message) {
                Ok(m) => {
                    if accepted(m, Some(types)) {
                        if i == 0 {
                        } else {
                            assert(s[i] == rest[i - 1]);
                        }
                    } else {
                        assert(s[i] == rest[i]);
                    }
                },
                Err(e) => {
                    assert(s[i] == rest[i]);
                },
            }
        }
    }
}

/// The first commit of `[lo, hi)` whose message does not parse.
pub open spec fn first_bad(commits: Seq<CommitView>, lo: int, hi: int) -> Option<int>
    decreases hi - lo,
{
    if lo < 0 || lo >= hi || hi > commits.len() {
        None
    } else if spec_parse_message(commits[lo].message) is Err {
        Some(lo)
    } else {
        first_bad(commits, lo + 1, hi)
    }
}

proof fn lemma_first_bad_none(commits: Seq<CommitView>, lo: int, hi: int)
    requires
        forall|j: int| lo <= j < hi ==> spec_parse_message(#[trigger] commits[j].message) is Ok,
    ensures
        first_bad(commits, lo, hi) is None,
    decreases hi - lo,
{
    if 0 <= lo && lo < hi && hi <= commits.len() {
        lemma_first_bad_none(commits, lo + 1, hi);
    }
}

proof fn lemma_first_bad_at(commits: Seq<CommitView>, lo: int, k: int, hi: int)
    requires
        0 <= lo <= k < hi <= commits.len(),
        forall|j: int| lo <= j < k ==> spec_parse_message(#[trigger] commits[j].message) is Ok,
        spec_parse_message(commits[k].message) is Err,
    ensures
        first_bad(commits, lo, hi) == Some(k),
    decreases k - lo,
{
    if lo < k {
        lemma_first_bad_at(commits, lo + 1, k, hi);
    }
}

/// What a found first bad commit means: it lies in the span and its
/// message does not parse.
pub proof fn lemma_first_bad_props(commits: Seq<CommitView>, lo: int, hi: int)
    ensures
        match first_bad(commits, lo, hi) {
            Some(k) => 0 <= k < commits.len() && lo <= k < hi && spec_parse_message(
                commits[k].message,
            ) is Err,
            None => true,
        },
    decreases hi - lo,
{
    if 0 <= lo && lo < hi && hi <= commits.len() && !(spec_parse_message(
        commits[lo].message,
    ) is Err) {
        lemma_first_bad_props(commits, lo + 1, hi);
    }
}

/// The first commit at or after `from` carrying the identifier `id`;
/// `commits.len()` when there is none.
pub open spec fn find_id(commits: Seq<CommitView>, from: int, id: Seq<char>) -> int
    decreases commits.len() - from,
{
    if from < 0 || from >= commits.len() {
        commits.len() as int
    } else if commits[from].id == id {
        from
    } else {
        find_id(commits, from + 1, id)
    }
}

proof fn lemma_find_id_range(commits: Seq<CommitView>, from: int, upto: int, id: Seq<char>)
    requires
        0 <= from <= upto <= commits.len(),
        forall|k: int| from <= k < upto ==> (#[trigger] commits[k].id) != id,
        upto < commits.len() ==> commits[upto].id == id,
    ensures
        find_id(commits, from, id) == upto,
    decreases upto - from,
{
    if from < upto {
        lemma_find_id_range(commits, from + 1, upto, id);
    }
}

/// Where the span that a boundary consumes ends: at the end of the
/// sequence without a boundary; just past the boundary's commit when it
/// is found at or after `offset`; at `offset` itself — an empty span —
/// when it is not.
pub open spec fn span_end(commits: Seq<CommitView>, offset: int, tag: Option<TagView>) -> int {
    match tag {
        None => commits.len() as int,
        Some(t) => {
            let j = find_id(commits, offset, t.commit.id);
            if j < commits.len() {
                j + 1
            } else {
                offset
            }
        },
    }
}

/// The first commit at or after `from` whose identifier is `id`, as the
/// exec counterpart of `find_id`.
fn find_commit(commits: &Vec<Commit>, from: usize, id: &str) -> (r: usize)
    requires
        from <= commits@.len(),
    ensures
        r == find_id(commit_views(commits@), from as int, id@),
        from <= r <= commits@.len(),
{
    let ghost cvs = commit_views(commits@);
    let n = commits.len();
    let mut j = from;
    while j < n
        invariant
            from <= j <= n,
            n == commits@.len(),
            cvs == commit_views(commits@),
            forall|k: int| from <= k < j ==> (#[trigger] cvs[k].id) != id@,
        decreases n - j,
    {
        if str_eq(commits[j].id.as_str(), id) {
            proof {
                lemma_find_id_range(cvs, from as int, j as int, id@);
            }
            return j;
        }
        j += 1;
    }
    proof {
        lemma_find_id_range(cvs, from as int, n as int, id@);
    }
    n
}

impl<'a> ChangeSet<'a> {
    /// An empty change set.
    pub fn new() -> (r: ChangeSet<'a>)
        ensures
            r@.changes =~= Seq::<ChangeView>::empty(),
    {
        ChangeSet { changes: Vec::new() }
    }

    /// The list of changes in this change set, newest first.
    pub fn changes(&self) -> (r: &Vec<Change<'a>>)
        ensures
            change_views(r@) == self@.changes,
    {
        &self.changes
    }

    /// Given the ordered, oldest-first commit sequence and a cursor into
    /// it, take all commits belonging to this change set.
    ///
    /// Without a boundary every commit from the cursor on is consumed;
    /// with one, the commits up to and including the boundary's commit
    /// are, or none when that commit is absent. A consumed commit whose
    /// message does not parse aborts the build; one whose type is not
    /// accepted is consumed but dropped. The changes arrive newest
    /// first. The advanced cursor is returned.
    pub fn take_commits(
        &mut self,
        offset: usize,
        commits: &'a Vec<Commit>,
        accept_types: &Option<Vec<String>>,
        tag: Option<&Tag>,
    ) -> (r: Result<usize, Error>)
        requires
            offset <= commits@.len(),
        ensures
            match r {
                Ok(no) => {
                    &&& offset <= no <= commits@.len()
                    &&& no == span_end(commit_views(commits@), offset as int, tag_view_opt(tag))
                    &&& first_bad(commit_views(commits@), offset as int, no as int) is None
                    &&& final(self)@.changes =~~= old(self)@.changes + span_changes(
                        commit_views(commits@),
                        offset as int,
                        no as int,
                        accept_views(*accept_types),
                    )
                },
                Err(e) => {
                    &&& first_bad(
                        commit_views(commits@),
                        offset as int,
                        span_end(commit_views(commits@), offset as int, tag_view_opt(tag)),
                    ) matches Some(k) && spec_parse_message(commit_views(commits@)[k].message)
                        == Err::<MessageView, Error>(e)
                    &&& final(self)@ == old(self)@
                },
            },
    {
        let ghost cvs = commit_views(commits@);
        let ghost acc = accept_views(*accept_types);
        let n = commits.len();
        let end: usize = match tag {
            None => n,
            Some(t) => {
                let j = find_commit(commits, offset, t.commit.id.as_str());
                if j < n {
                    j + 1
                } else {
                    offset
                }
            },
        };
        let ghost send = span_end(cvs, offset as int, tag_view_opt(tag));
        proof {
            assert(send == end);
        }
        let mut parsed: Vec<Change<'a>> = Vec::new();
        let mut k = offset;
        while k < end
            invariant
                offset <= k <= end <= commits@.len(),
                cvs == commit_views(commits@),
                acc == accept_views(*accept_types),
                end == span_end(cvs, offset as int, tag_view_opt(tag)),
                forall|j: int|
                    offset <= j < k ==> spec_parse_message(#[trigger] cvs[j].message) is Ok,
                change_views(parsed@).len() == span_changes(cvs, offset as int, k as int, acc).len(),
                forall|i: int|
                    0 <= i < change_views(parsed@).len() ==> #[trigger] change_views(parsed@)[i]
                        == span_changes(cvs, offset as int, k as int, acc)[span_changes(
                        cvs,
                        offset as int,
                        k as int,
                        acc,
                    ).len() - 1 - i],
            decreases end - k,
        {
            let ghost sk = span_changes(cvs, offset as int, k as int, acc);
            let ghost sk1 = span_changes(cvs, offset as int, k + 1, acc);
            match Change::new(&commits[k]) {
                Err(e) => {
                    proof {
                        assert(cvs[k as int] == commits@[k as int]@);
                        lemma_first_bad_at(cvs, offset as int, k as int, end as int);
                    }
                    return Err(e);
                },
                Ok(c) => {
                    proof {
                        assert(cvs[k as int] == commits@[k as int]@);
                    }
                    let type_ok: bool = match accept_types {
                        None => true,
                        Some(ts) => {
                            let mut found = false;
                            let mut t: usize = 0;
                            while t < ts.len()
                                invariant
                                    t <= ts@.len(),
                                    acc == Some(str_views(ts@)),
                                    found ==> accepted(c@.message, acc),
                                    !found ==> forall|q: int|
                                        0 <= q < t ==> str_views(ts@)[q] != c@.message.type_,
                                decreases ts@.len() - t,
                            {
                                if str_eq(ts[t].as_str(), c.type_()) {
                                    proof {
                                        assert(str_views(ts@)[t as int] == ts@[t as int]@);
                                        assert(str_views(ts@)[t as int] == c@.message.type_);
                                        assert(type_in(str_views(ts@), c@.message.type_)) by {
                                            let tsv = str_views(ts@);
                                            assert(0 <= t < tsv.len() && (#[trigger] tsv[t as int])
                                                == c@.message.type_);
                                        }
                                        assert(accepted(c@.message, acc));
                                    }
                                    found = true;
                                    t = ts.len();
                                } else {
                                    proof {
                                        assert(str_views(ts@)[t as int] == ts@[t as int]@);
                                    }
                                    t += 1;
                                }
                            }
                            proof {
                                if !found {
                                    assert(!type_in(str_views(ts@), c@.message.type_));
                                    assert(!accepted(c@.message, acc));
                                }
                            }
                            found
                        },
                    };
                    let ghost cv = c@;
                    let ghost pbefore = parsed@;
                    if type_ok {
                        parsed.push(c);
                        proof {
                            let m = spec_parse_message(cvs[k as int].message).unwrap();
                            assert(cv.message =~~= m);
                            assert(cv =~~= ChangeView { commit: cvs[k as int], message: m });
                            assert(sk1 =~= seq![cv] + sk);
                            assert(parsed@ == pbefore.push(c));
                            assert(change_views(parsed@) =~= change_views(pbefore).push(cv));
                        }
                    } else {
                        proof {
                            assert(sk1 =~= sk);
                        }
                    }
                },
            }
            k += 1;
        }
        proof {
            lemma_first_bad_none(cvs, offset as int, end as int);
        }
        let ghost total = span_changes(cvs, offset as int, end as int, acc);
        let ghost oldchanges = self@.changes;
        proof {
            lemma_span_changes_len(cvs, offset as int, end as int, acc);
        }
        let mut taken: usize = 0;
        loop
            invariant
                taken == total.len() - change_views(parsed@).len(),
                change_views(parsed@).len() <= total.len(),
                total.len() <= end - offset,
                offset <= end <= commits@.len(),
                total == span_changes(cvs, offset as int, end as int, acc),
                oldchanges == old(self)@.changes,
                forall|i: int|
                    0 <= i < change_views(parsed@).len() ==> #[trigger] change_views(parsed@)[i]
                        == total[total.len() - 1 - i],
                self@.changes =~~= oldchanges + total.take(taken as int),
            ensures
                taken == total.len(),
                self@.changes =~~= oldchanges + total.take(taken as int),
            decreases parsed@.len(),
        {
            let ghost pbefore = parsed@;
            let ghost sbefore = self@.changes;
            match parsed.pop() {
                None => {
                    proof {
                        assert(change_views(parsed@).len() == 0);
                        assert(total.take(taken as int) =~= total);
                    }
                    break ;
                },
                Some(c) => {
                    proof {
                        let plen = pbefore.len();
                        assert(parsed@ == pbefore.subrange(0, plen - 1));
                        assert(change_views(pbefore)[plen - 1] == c@);
                        assert(c@ == total[taken as int]);
                    }
                    self.changes.push(c);
                    proof {
                        assert(change_views(parsed@) =~= change_views(pbefore).drop_last());
                        assert(self@.changes =~~= sbefore.push(c@));
                        assert(self@.changes =~~= oldchanges + total.take(taken + 1));
                        assert(forall|i: int|
                            0 <= i < change_views(parsed@).len() ==> #[trigger] change_views(
                                parsed@,
                            )[i] == total[total.len() - 1 - i]);
                    }
                    taken += 1;
                },
            }
        }
        proof {
            assert(self@.changes =~~= oldchanges + total);
        }
        Ok(end)
    }

    /// A list of the people who contributed to this change set: everyone
    /// any change names, excluding those whose name or email is on the
    /// ignore list; sorted canonically, without duplicates.
    pub fn contributors(
        &self,
        contributor_footers: &Vec<String>,
        ignore: Option<&Vec<String>>,
    ) -> (r: Vec<Contributor>)
        ensures
            sorted_unique(contrib_views(r@)),
            forall|x: ContributorView|
                #[trigger] contrib_views(r@).contains(x) <==> (!ignored(ignore_views(ignore), x)
                    && exists|ci: int|
                    0 <= ci < self@.changes.len() && in_contributor_pool(
                        #[trigger] self@.changes[ci],
                        str_views(contributor_footers@),
                        x,
                    )),
    {
        let ghost allow = str_views(contributor_footers@);
        let ghost ig = ignore_views(ignore);
        let mut out: Vec<Contributor> = Vec::new();
        let mut ci: usize = 0;
        while ci < self.changes.len()
            invariant
                ci <= self@.changes.len(),
                self@.changes.len() == self.changes@.len(),
                allow == str_views(contributor_footers@),
                ig == ignore_views(ignore),
                sorted_unique(contrib_views(out@)),
                forall|x: ContributorView|
                    #[trigger] contrib_views(out@).contains(x) <==> (!ignored(ig, x) && exists|
                        cj: int,
                    |
                        0 <= cj < ci && in_contributor_pool(
                            #[trigger] self@.changes[cj],
                            allow,
                            x,
                        )),
            decreases self.changes@.len() - ci,
        {
            proof {
                assert(self@.changes[ci as int] == self.changes@[ci as int]@);
            }
            let list = self.changes[ci].contributors(contributor_footers);
            let ghost before = contrib_views(out@);
            let mut li: usize = 0;
            while li < list.len()
                invariant
                    li <= list@.len(),
                    allow == str_views(contributor_footers@),
                    ig == ignore_views(ignore),
                    sorted_unique(contrib_views(list@)),
                    forall|x: ContributorView|
                        #[trigger] contrib_views(list@).contains(x) <==> in_contributor_pool(
                            self@.changes[ci as int],
                            allow,
                            x,
                        ),
                    ci < self@.changes.len(),
                    sorted_unique(contrib_views(out@)),
                    forall|x: ContributorView|
                        #[trigger] contrib_views(out@).contains(x) <==> (before.contains(x) || (
                        !ignored(ig, x) && exists|lj: int|
                            0 <= lj < li && contrib_views(list@)[lj] == x)),
                decreases list@.len() - li,
            {
                proof {
                    assert(contrib_views(list@)[li as int] == list@[li as int]@);
                }
                let keep: bool = match ignore {
                    None => true,
                    Some(igl) => {
                        let mut pass = true;
                        let mut q: usize = 0;
                        while q < igl.len()
                            invariant
                                q <= igl@.len(),
                                ig == Some(str_views(igl@)),
                                li < list@.len(),
                                pass ==> forall|w: int|
                                    0 <= w < q ==> str_views(igl@)[w] != list@[li as int]@.name
                                        && str_views(igl@)[w] != list@[li as int]@.email,
                                !pass ==> ignored(ig, list@[li as int]@),
                            decreases igl@.len() - q,
                        {
                            proof {
                                assert(str_views(igl@)[q as int] == igl@[q as int]@);
                            }
                            if str_eq(igl[q].as_str(), list[li].name.as_str()) || str_eq(
                                igl[q].as_str(),
                                list[li].email.as_str(),
                            ) {
                                pass = false;
                                q = igl.len();
                            } else {
                                q += 1;
                            }
                        }
                        pass
                    },
                };
                let ghost prev = contrib_views(out@);
                if keep {
                    proof {
                        assert(!ignored(ig, list@[li as int]@));
                    }
                    let c = list[li].duplicate();
                    insert_contributor(&mut out, c);
                    proof {
                        let cv = list@[li as int]@;
                        assert forall|x: ContributorView| #[trigger] contrib_views(
                            out@,
                        ).contains(x) <==> (before.contains(x) || (!ignored(ig, x) && exists|
                            lj: int,
                        | 0 <= lj < li + 1 && contrib_views(list@)[lj] == x)) by {
                            if contrib_views(out@).contains(x) {
                                if !prev.contains(x) {
                                    assert(x == cv);
                                    assert(contrib_views(list@)[li as int] == x);
                                }
                            }
                            if !ignored(ig, x) && exists|lj: int|
                                0 <= lj < li + 1 && contrib_views(list@)[lj] == x {
                                let lj = choose|lj: int|
                                    0 <= lj < li + 1 && contrib_views(list@)[lj] == x;
                                if lj == li {
                                    assert(x == cv);
                                }
                            }
                        }
                    }
                } else {
                    proof {
                        let cv = list@[li as int]@;
                        assert forall|x: ContributorView| #[trigger] contrib_views(
                            out@,
                        ).contains(x) <==> (before.contains(x) || (!ignored(ig, x) && exists|
                            lj: int,
                        | 0 <= lj < li + 1 && contrib_views(list@)[lj] == x)) by {
                            if !ignored(ig, x) && exists|lj: int|
                                0 <= lj < li + 1 && contrib_views(list@)[lj] == x {
                                let lj = choose|lj: int|
                                    0 <= lj < li + 1 && contrib_views(list@)[lj] == x;
                                if lj == li {
                                    assert(x == cv);
                                    assert(ignored(ig, x));
                                }
                            }
                        }
                    }
                }
                li += 1;
            }
            proof {
                assert forall|x: ContributorView| #[trigger] contrib_views(out@).contains(x)
                    <==> (!ignored(ig, x) && exists|cj: int|
                    0 <= cj < ci + 1 && in_contributor_pool(
                        #[trigger] self@.changes[cj],
                        allow,
                        x,
                    )) by {
                    if contrib_views(out@).contains(x) {
                        if before.contains(x) {
                            let cj = choose|cj: int|
                                0 <= cj < ci && in_contributor_pool(
                                    #[trigger] self@.changes[cj],
                                    allow,
                                    x,
                                );
                            assert(in_contributor_pool(self@.changes[cj], allow, x));
                        } else {
                            let lj = choose|lj: int|
                                0 <= lj < list@.len() && contrib_views(list@)[lj] == x;
                            assert(contrib_views(list@).contains(x));
                            assert(in_contributor_pool(self@.changes[ci as int], allow, x));
                        }
                    }
                    if !ignored(ig, x) && exists|cj: int|
                        0 <= cj < ci + 1 && in_contributor_pool(
                            #[trigger] self@.changes[cj],
                            allow,
                            x,
                        ) {
                        let cj = choose|cj: int|
                            0 <= cj < ci + 1 && in_contributor_pool(
                                #[trigger] self@.changes[cj],
                                allow,
                                x,
                            );
                        if cj == ci {
                            assert(contrib_views(list@).contains(x));
                            let lj = choose|lj: int|
                                0 <= lj < contrib_views(list@).len() && contrib_views(
                                    list@,
                                )[lj] == x;
                            assert(contrib_views(out@).contains(x));
                        }
                    }
                }
            }
            ci += 1;
        }
        out
    }
}

/// The view of an optional ignore list.
pub open spec fn ignore_views(ignore: Option<&Vec<String>>) -> Option<Seq<Seq<char>>> {
    match ignore {
        Some(v) => Some(str_views((*v)@)),
        None => None,
    }
}

/// Whether a contributor's name or email is on the ignore list.
pub open spec fn ignored(ignore: Option<Seq<Seq<char>>>, x: ContributorView) -> bool {
    match ignore {
        None => false,
        Some(l) => exists|k: int| 0 <= k < l.len() && (l[k] == x.name || l[k] == x.email),
    }
}

} // verus!
