//! The changelog document and its parts.

pub mod change;
pub mod changeset;
pub mod contributor;
pub mod release;

pub use self::change::Change;
pub use self::changeset::ChangeSet;
pub use self::contributor::Contributor;
pub use self::release::Release;

use crate::changelog::change::ChangeView;
use crate::changelog::changeset::{
    accept_views, commit_views, first_bad, lemma_first_bad_props, span_changes, span_end,
    ChangeSetView,
};
use crate::changelog::release::{strip_v, ReleaseView};
use crate::config::{Config, ConfigView};
use crate::error::Error;
use crate::git::{Commit, CommitView, Tag, TagView};
use crate::message::{spec_parse_message, MessageView};
use crate::version::{spec_parse_version, spec_version_lt, version_cmp};
use vstd::multiset::Multiset;
use vstd::prelude::*;

verus! {

/// Mathematical view of a [`Changelog`].
#[verifier::ext_equal]
pub ghost struct ChangelogView {
    pub config: ConfigView,
    pub unreleased: ChangeSetView,
    pub releases: Seq<ReleaseView>,
}

/// The assembled changelog: the releases, newest first, and the
/// unreleased tail.
pub struct Changelog<'a> {
    config: &'a Config,
    unreleased: ChangeSet<'a>,
    releases: Vec<Release<'a>>,
}

impl<'a> View for Changelog<'a> {
    type V = ChangelogView;

    closed spec fn view(&self) -> ChangelogView {
        ChangelogView {
            config: (*self.config)@,
            unreleased: self.unreleased@,
            releases: self.releases@.map_values(|r: Release<'a>| r@),
        }
    }
}

/// The views of a list of releases.
pub open spec fn release_views<'a>(rs: Seq<Release<'a>>) -> Seq<ReleaseView> {
    rs.map_values(|r: Release<'a>| r@)
}

/// The views of a list of release markers.
pub open spec fn tag_views(ts: Seq<Tag>) -> Seq<TagView> {
    ts.map_values(|t: Tag| t@)
}

/// The markers of a list of releases.
pub open spec fn rel_tags(vs: Seq<ReleaseView>) -> Seq<TagView> {
    vs.map_values(|rv: ReleaseView| rv.tag)
}

/// A release whose version was parsed from its marker's name.
pub open spec fn version_from_name(rv: ReleaseView) -> bool {
    spec_parse_version(strip_v(rv.tag.name)) == Some(rv.version)
}

/// Ascending by version: no release stands below its predecessor.
pub open spec fn sorted_ascending(vs: Seq<ReleaseView>) -> bool {
    forall|i: int|
        0 <= i < vs.len() - 1 ==> !(#[trigger] spec_version_lt(vs[i + 1].version, vs[i].version))
}

/// Newest first: no release stands below its successor.
pub open spec fn sorted_descending(vs: Seq<ReleaseView>) -> bool {
    forall|i: int|
        0 <= i < vs.len() - 1 ==> !(#[trigger] spec_version_lt(vs[i].version, vs[i + 1].version))
}

/// The cursor chain of a changelog build: the releases, in ascending
/// order, consume disjoint, adjacent spans of the commit sequence, each
/// ending where its marker's commit stands.
pub open spec fn spans_ok(
    commits: Seq<CommitView>,
    asc: Seq<ReleaseView>,
    accept: Option<Seq<Seq<char>>>,
    cursors: Seq<int>,
) -> bool {
    &&& cursors.len() == asc.len() + 1
    &&& cursors[0] == 0
    &&& 0 <= cursors.last() <= commits.len()
    &&& forall|i: int|
        0 <= i < asc.len() ==> {
            &&& 0 <= #[trigger] cursors[i] <= cursors[i + 1] <= commits.len()
            &&& cursors[i + 1] == span_end(commits, cursors[i], Some(asc[i].tag))
            &&& asc[i].changeset.changes == span_changes(
                commits,
                cursors[i],
                cursors[i + 1],
                accept,
            )
            &&& first_bad(commits, cursors[i], cursors[i + 1]) is None
        }
}

/// Whether commit index `k` falls in the `i`-th span of a cursor chain:
/// the last span runs to the end of the commit sequence.
pub open spec fn in_span(commits: Seq<CommitView>, cursors: Seq<int>, i: int, k: int) -> bool {
    &&& 0 <= i < cursors.len()
    &&& cursors[i] <= k
    &&& k < (if i + 1 < cursors.len() {
        cursors[i + 1]
    } else {
        commits.len() as int
    })
}

/// A cursor chain never goes backwards.
proof fn lemma_cursors_mono(
    commits: Seq<CommitView>,
    asc: Seq<ReleaseView>,
    accept: Option<Seq<Seq<char>>>,
    cursors: Seq<int>,
    i: int,
    j: int,
)
    requires
        spans_ok(commits, asc, accept, cursors),
        0 <= i <= j < cursors.len(),
    ensures
        cursors[i] <= cursors[j],
    decreases j - i,
{
    if i < j {
        lemma_cursors_mono(commits, asc, accept, cursors, i + 1, j);
        assert(cursors[i] <= cursors[i + 1]) by {
            if i < asc.len() {
            } else {
                assert(i == asc.len());
            }
        }
    }
}

/// Every commit of `[cursors[i], len)` falls in some span at or after
/// `i`.
proof fn lemma_span_exists(
    commits: Seq<CommitView>,
    asc: Seq<ReleaseView>,
    accept: Option<Seq<Seq<char>>>,
    cursors: Seq<int>,
    i: int,
    k: int,
)
    requires
        spans_ok(commits, asc, accept, cursors),
        0 <= i < cursors.len(),
        cursors[i] <= k < commits.len(),
    ensures
        exists|s: int| i <= s && #[trigger] in_span(commits, cursors, s, k),
    decreases cursors.len() - i,
{
    if i + 1 < cursors.len() && cursors[i + 1] <= k {
        lemma_span_exists(commits, asc, accept, cursors, i + 1, k);
    } else {
        assert(in_span(commits, cursors, i, k)) by {
            if i + 1 < cursors.len() {
            } else {
                assert(i == cursors.len() - 1);
            }
        }
    }
}

/// The index of a span holding commit index `k`, when one does.
pub open spec fn span_index(commits: Seq<CommitView>, cursors: Seq<int>, k: int) -> int {
    choose|i: int| in_span(commits, cursors, i, k)
}

/// The spans of one build partition the commit sequence: counting the
/// tail from the last cursor to the end as one more span, every commit
/// falls in exactly one of them, so no commit is consumed twice and
/// none is passed over.
pub proof fn lemma_spans_partition(
    commits: Seq<CommitView>,
    asc: Seq<ReleaseView>,
    accept: Option<Seq<Seq<char>>>,
    cursors: Seq<int>,
)
    requires
        spans_ok(commits, asc, accept, cursors),
    ensures
        forall|k: int|
            0 <= k < commits.len() ==> in_span(
                commits,
                cursors,
                #[trigger] span_index(commits, cursors, k),
                k,
            ),
        forall|k: int, i: int, j: int|
            #[trigger] in_span(commits, cursors, i, k) && #[trigger] in_span(
                commits,
                cursors,
                j,
                k,
            ) ==> i == j,
{
    assert forall|k: int| 0 <= k < commits.len() implies in_span(
        commits,
        cursors,
        #[trigger] span_index(commits, cursors, k),
        k,
    ) by {
        lemma_span_exists(commits, asc, accept, cursors, 0, k);
        let s = choose|s: int| 0 <= s && #[trigger] in_span(commits, cursors, s, k);
        assert(in_span(commits, cursors, s, k));
        assert(in_span(commits, cursors, span_index(commits, cursors, k), k));
    }
    assert forall|k: int, i: int, j: int|
        #[trigger] in_span(commits, cursors, i, k) && #[trigger] in_span(
            commits,
            cursors,
            j,
            k,
        ) implies i == j by {
        if i < j {
            lemma_cursors_mono(commits, asc, accept, cursors, i + 1, j);
            assert(k < cursors[i + 1]);
            assert(cursors[j] <= k);
        }
        if j < i {
            lemma_cursors_mono(commits, asc, accept, cursors, j + 1, i);
            assert(k < cursors[j + 1]);
            assert(cursors[i] <= k);
        }
    }
}

/// Two releases with the same version and marker.
pub open spec fn same_core(a: ReleaseView, b: ReleaseView) -> bool {
    a.version == b.version && a.tag == b.tag
}

/// Insert a release into a version-ascending list, keeping it ascending.
fn insert_release<'a>(out: &mut Vec<Release<'a>>, rel: Release<'a>)
    requires
        sorted_ascending(release_views(old(out)@)),
    ensures
        sorted_ascending(release_views(final(out)@)),
        rel_tags(release_views(final(out)@)).to_multiset() == rel_tags(
            release_views(old(out)@),
        ).to_multiset().insert(rel@.tag),
        final(out)@.len() == old(out)@.len() + 1,
        forall|i: int|
            0 <= i < final(out)@.len() ==> (exists|j: int|
                0 <= j < old(out)@.len() && #[trigger] release_views(final(out)@)[i]
                    == release_views(old(out)@)[j]) || release_views(final(out)@)[i] == rel@,
{
    let ghost olds = release_views(old(out)@);
    let ghost rv = rel@;
    let mut i: usize = 0;
    loop
        invariant
            i <= out@.len(),
            release_views(out@) == olds,
            release_views(old(out)@) == olds,
            sorted_ascending(olds),
            forall|k: int| 0 <= k < i ==> !spec_version_lt(rv.version, (#[trigger] olds[k]).version),
            rv == rel@,
        decreases out@.len() - i,
    {
        let take_here: bool = if i >= out.len() {
            true
        } else {
            version_cmp(out[i].version(), rel.version()) == 1
        };
        if take_here {
            proof {
                if i < out@.len() {
                    assert(spec_version_lt(rv.version, olds[i as int].version));
                }
            }
            out.insert(i, rel);
            proof {
                broadcast use vstd::seq_lib::to_multiset_insert;

                let news = release_views(out@);
                assert(news =~= olds.insert(i as int, rv));
                assert(forall|k: int| 0 <= k < i ==> news[k] == olds[k]);
                assert(news[i as int] == rv);
                assert(forall|k: int| i < k < news.len() ==> news[k] == olds[k - 1]);
                assert(rel_tags(news) =~= rel_tags(olds).insert(i as int, rv.tag));
                assert(rel_tags(olds).insert(i as int, rv.tag).to_multiset() == rel_tags(
                    olds,
                ).to_multiset().insert(rv.tag));
                assert forall|k: int| 0 <= k < news.len() - 1 implies !(
                #[trigger] spec_version_lt(news[k + 1].version, news[k].version)) by {
                    if k + 1 < i {
                        assert(!spec_version_lt(olds[k + 1].version, olds[k].version));
                    } else if k + 1 == i {
                        assert(news[k] == olds[k] && news[k + 1] == rv);
                        assert(!spec_version_lt(rv.version, olds[k].version));
                    } else if k == i {
                        assert(news[k] == rv && news[k + 1] == olds[k]);
                        assert(spec_version_lt(rv.version, olds[k].version));
                    } else {
                        let j = k - 1;
                        assert(!spec_version_lt(olds[j + 1].version, olds[j].version));
                        assert(news[k] == olds[j] && news[k + 1] == olds[j + 1]);
                    }
                }
                assert forall|k: int| 0 <= k < news.len() implies (exists|j: int|
                    0 <= j < olds.len() && #[trigger] news[k] == olds[j]) || news[k] == rv by {
                    if k < i {
                        assert(news[k] == olds[k]);
                    } else if k > i {
                        assert(news[k] == olds[k - 1]);
                    }
                }
            }
            return ;
        }
        proof {
            assert(!spec_version_lt(rv.version, olds[i as int].version));
        }
        i += 1;
    }
}

/// Reverse a list of releases.
fn reverse_releases<'a>(v: Vec<Release<'a>>) -> (r: Vec<Release<'a>>)
    ensures
        release_views(r@).len() == release_views(v@).len(),
        forall|i: int|
            0 <= i < release_views(v@).len() ==> #[trigger] release_views(r@)[i] == release_views(
                v@,
            )[release_views(v@).len() - 1 - i],
{
    let ghost v0 = release_views(v@);
    let mut src = v;
    let mut out: Vec<Release<'a>> = Vec::new();
    proof {
        assert(release_views(src@) =~= v0.subrange(0, src@.len() as int));
    }
    while src.len() > 0
        invariant
            src@.len() <= v0.len(),
            release_views(src@) =~= v0.subrange(0, src@.len() as int),
            out@.len() == v0.len() - src@.len(),
            forall|i: int|
                0 <= i < out@.len() ==> #[trigger] release_views(out@)[i] == v0[v0.len() - 1 - i],
        decreases src@.len(),
    {
        let ghost sbefore = src@;
        let ghost obefore = out@;
        let x = src.pop().unwrap();
        proof {
            assert(release_views(sbefore)[sbefore.len() - 1] == x@);
            assert(x@ == v0[sbefore.len() - 1]);
            assert(release_views(src@) =~= v0.subrange(0, src@.len() as int)) by {
                assert(src@ == sbefore.subrange(0, sbefore.len() - 1));
            }
        }
        out.push(x);
        proof {
            assert(release_views(out@) =~= release_views(obefore).push(x@));
        }
    }
    out
}

impl<'a> Changelog<'a> {
    /// Assemble a changelog: one release per marker — whose name must
    /// parse as a semantic version — sorted ascending by version, each
    /// consuming its span of the commit sequence in turn, presented
    /// newest first, with the unreleased tail after the last marker.
    pub fn new(config: &'a Config, commits: &'a Vec<Commit>, tags: Vec<Tag>) -> (r: Result<
        Changelog<'a>,
        Error,
    >)
        ensures
            match r {
                Ok(log) => {
                    &&& log@.config == config@
                    &&& log@.releases.len() == tags@.len()
                    &&& forall|i: int|
                        0 <= i < log@.releases.len() ==> version_from_name(
                            #[trigger] log@.releases[i],
                        )
                    &&& sorted_descending(log@.releases)
                    &&& rel_tags(log@.releases).to_multiset() == tag_views(tags@).to_multiset()
                    &&& exists|cursors: Seq<int>|
                        {
                            &&& #[trigger] spans_ok(
                                commit_views(commits@),
                                log@.releases.reverse(),
                                config@.accept_types,
                                cursors,
                            )
                            &&& log@.unreleased.changes == span_changes(
                                commit_views(commits@),
                                cursors.last(),
                                commits@.len() as int,
                                config@.accept_types,
                            )
                            &&& first_bad(
                                commit_views(commits@),
                                cursors.last(),
                                commits@.len() as int,
                            ) is None
                        }
                },
                Err(e) => {
                    ||| (e == Error::SemVer && exists|j: int|
                        0 <= j < tags@.len() && spec_parse_version(
                            strip_v((#[trigger] tag_views(tags@)[j]).name),
                        ) is None)
                    ||| (exists|k: int|
                        0 <= k < commits@.len() && spec_parse_message(
                            (#[trigger] commit_views(commits@)[k]).message,
                        ) == Err::<MessageView, Error>(e))
                },
            },
            (forall|j: int|
                0 <= j < tags@.len() ==> spec_parse_version(
                    strip_v((#[trigger] tag_views(tags@)[j]).name),
                ) is Some) && (forall|k: int|
                0 <= k < commits@.len() ==> spec_parse_message(
                    (#[trigger] commit_views(commits@)[k]).message,
                ) is Ok) ==> r is Ok,
    {
        let ghost cvs = commit_views(commits@);
        let ghost acc = config@.accept_types;
        let ghost tags0 = tag_views(tags@);
        proof {
            assert(tag_views(tags@) =~= tags0.subrange(0, tags@.len() as int));
        }
        // one release per marker
        let mut source = tags;
        let mut built: Vec<Release<'a>> = Vec::new();
        proof {
            broadcast use vstd::seq_lib::group_to_multiset_ensures;

            assert(rel_tags(release_views(built@)) =~= Seq::<TagView>::empty());
            lemma_empty_multiset::<TagView>();
            assert(rel_tags(release_views(built@)).to_multiset().add(
                tag_views(source@).to_multiset(),
            ) =~= tags0.to_multiset());
        }
        while source.len() > 0
            invariant
                source@.len() <= tags0.len(),
                tag_views(source@) =~= tags0.subrange(0, source@.len() as int),
                built@.len() == tags0.len() - source@.len(),
                forall|i: int|
                    0 <= i < built@.len() ==> version_from_name(
                        #[trigger] release_views(built@)[i],
                    ) && release_views(built@)[i].changeset.changes =~= Seq::<ChangeView>::empty(),
                rel_tags(release_views(built@)).to_multiset().add(tag_views(source@).to_multiset())
                    == tags0.to_multiset(),
                tags0 == tag_views(tags@),
            decreases source@.len(),
        {
            let ghost sbefore = source@;
            let ghost bbefore = built@;
            let t = source.pop().unwrap();
            let ghost tv = t@;
            proof {
                broadcast use vstd::seq_lib::group_to_multiset_ensures;

                assert(tag_views(sbefore)[sbefore.len() - 1] == tv);
                assert(tv == tags0[sbefore.len() - 1]);
                assert(tag_views(source@) =~= tags0.subrange(0, source@.len() as int)) by {
                    assert(source@ == sbefore.subrange(0, sbefore.len() - 1));
                }
                assert(tag_views(sbefore) =~= tag_views(source@).push(tv));
                assert(tag_views(sbefore).to_multiset() == tag_views(
                    source@,
                ).to_multiset().insert(tv));
            }
            match Release::new(t) {
                Err(e) => {
                    proof {
                        let j = sbefore.len() - 1;
                        assert(spec_parse_version(strip_v(tags0[j].name)) is None);
                    }
                    return Err(e);
                },
                Ok(rel) => {
                    built.push(rel);
                    proof {
                        broadcast use vstd::seq_lib::group_to_multiset_ensures;

                        assert(release_views(built@) =~= release_views(bbefore).push(rel@));
                        assert(rel_tags(release_views(built@)) =~= rel_tags(
                            release_views(bbefore),
                        ).push(tv));
                        assert(rel_tags(release_views(built@)).to_multiset() == rel_tags(
                            release_views(bbefore),
                        ).to_multiset().insert(tv));
                    }
                },
            }
        }
        // sort ascending by version
        let mut asc: Vec<Release<'a>> = Vec::new();
        while built.len() > 0
            invariant
                sorted_ascending(release_views(asc@)),
                forall|i: int|
                    0 <= i < asc@.len() ==> version_from_name(#[trigger] release_views(asc@)[i])
                        && release_views(asc@)[i].changeset.changes =~= Seq::<ChangeView>::empty(),
                forall|i: int|
                    0 <= i < built@.len() ==> version_from_name(
                        #[trigger] release_views(built@)[i],
                    ) && release_views(built@)[i].changeset.changes =~= Seq::<ChangeView>::empty(),
                asc@.len() + built@.len() == tags0.len(),
                rel_tags(release_views(asc@)).to_multiset().add(
                    rel_tags(release_views(built@)).to_multiset(),
                ) == tags0.to_multiset(),
            decreases built@.len(),
        {
            let ghost bbefore = built@;
            let ghost abefore = asc@;
            let rel = built.pop().unwrap();
            let ghost rv = rel@;
            proof {
                broadcast use vstd::seq_lib::group_to_multiset_ensures;

                assert(release_views(bbefore)[bbefore.len() - 1] == rv);
                assert(release_views(built@) =~= release_views(bbefore).subrange(
                    0,
                    bbefore.len() - 1,
                )) by {
                    assert(built@ == bbefore.subrange(0, bbefore.len() - 1));
                }
                assert(rel_tags(release_views(bbefore)) =~= rel_tags(release_views(built@)).push(
                    rv.tag,
                ));
                assert(rel_tags(release_views(bbefore)).to_multiset() == rel_tags(
                    release_views(built@),
                ).to_multiset().insert(rv.tag));
                assert(version_from_name(rv));
                assert(rv.changeset.changes =~= Seq::<ChangeView>::empty());
            }
            insert_release(&mut asc, rel);
            proof {
                assert forall|i: int| 0 <= i < asc@.len() implies version_from_name(
                    #[trigger] release_views(asc@)[i],
                ) && release_views(asc@)[i].changeset.changes =~= Seq::<ChangeView>::empty() by {
                    if exists|j: int|
                        0 <= j < abefore.len() && #[trigger] release_views(asc@)[i]
                            == release_views(abefore)[j] {
                        let j = choose|j: int|
                            0 <= j < abefore.len() && release_views(asc@)[i] == release_views(
                                abefore,
                            )[j];
                        assert(version_from_name(release_views(abefore)[j]));
                    } else {
                        assert(release_views(asc@)[i] == rv);
                    }
                }
            }
        }
        // walk the commit sequence, earliest release first
        let ghost ascviews = release_views(asc@);
        let mut work = reverse_releases(asc);
        let mut procd: Vec<Release<'a>> = Vec::new();
        let mut offset: usize = 0;
        let ghost mut cursors: Seq<int> = seq![0int];
        while work.len() > 0
            invariant
                procd@.len() + work@.len() == ascviews.len(),
                forall|i: int|
                    0 <= i < procd@.len() ==> same_core(
                        #[trigger] release_views(procd@)[i],
                        ascviews[i],
                    ),
                forall|i: int|
                    0 <= i < work@.len() ==> same_core(
                        #[trigger] release_views(work@)[i],
                        ascviews[ascviews.len() - 1 - i],
                    ) && release_views(work@)[i].changeset.changes =~= Seq::<ChangeView>::empty(),
                cursors.len() == procd@.len() + 1,
                cursors[0] == 0,
                cursors.last() == offset,
                offset <= commits@.len(),
                spans_ok(cvs, release_views(procd@), acc, cursors),
                cvs == commit_views(commits@),
                acc == config@.accept_types,
                acc == accept_views(config.accept_types),
            decreases work@.len(),
        {
            let ghost wbefore = work@;
            let ghost pbefore = procd@;
            let ghost curbefore = cursors;
            let mut rel = work.pop().unwrap();
            let ghost rv = rel@;
            proof {
                assert(release_views(wbefore)[wbefore.len() - 1] == rv);
                assert(same_core(rv, ascviews[pbefore.len() as int]));
                assert(rv.changeset.changes =~= Seq::<ChangeView>::empty());
                assert(release_views(work@) =~= release_views(wbefore).subrange(
                    0,
                    wbefore.len() - 1,
                )) by {
                    assert(work@ == wbefore.subrange(0, wbefore.len() - 1));
                }
            }
            let mut cset = ChangeSet::new();
            let outcome = cset.take_commits(offset, commits, &config.accept_types, Some(rel.tag()));
            match outcome {
                Err(e) => {
                    proof {
                        let no = span_end(cvs, offset as int, Some(rv.tag));
                        lemma_first_bad_props(cvs, offset as int, no);
                        let k = first_bad(cvs, offset as int, no).unwrap();
                        assert(0 <= k < cvs.len() && spec_parse_message(cvs[k].message) == Err::<
                            MessageView,
                            Error,
                        >(e));
                    }
                    return Err(e);
                },
                Ok(no) => {
                    rel.with_changeset(cset);
                    procd.push(rel);
                    proof {
                        cursors = curbefore.push(no as int);
                        assert(release_views(procd@) =~= release_views(pbefore).push(rel@));
                        assert(rel@.tag == rv.tag && rel@.version == rv.version);
                        assert(rel@.changeset.changes =~~= span_changes(
                            cvs,
                            offset as int,
                            no as int,
                            acc,
                        )) by {
                            assert(Seq::<ChangeView>::empty() + span_changes(
                                cvs,
                                offset as int,
                                no as int,
                                acc,
                            ) =~= span_changes(cvs, offset as int, no as int, acc));
                        }
                        assert(spans_ok(cvs, release_views(procd@), acc, cursors)) by {
                            let news = release_views(procd@);
                            assert(forall|i: int|
                                0 <= i < pbefore.len() ==> #[trigger] news[i] == release_views(
                                    pbefore,
                                )[i]);
                            assert(forall|i: int|
                                0 <= i < curbefore.len() ==> #[trigger] cursors[i] == curbefore[i]);
                            assert(cursors[news.len() - 1] == offset);
                            assert(cursors[news.len() as int] == no);
                            assert(news[news.len() - 1] == rel@);
                        }
                    }
                    offset = no;
                },
            }
        }
        // the unreleased tail
        let mut unreleased = ChangeSet::new();
        match unreleased.take_commits(offset, commits, &config.accept_types, None) {
            Err(e) => {
                proof {
                    let no = span_end(cvs, offset as int, None);
                    lemma_first_bad_props(cvs, offset as int, no);
                    let k = first_bad(cvs, offset as int, no).unwrap();
                    assert(0 <= k < cvs.len() && spec_parse_message(cvs[k].message) == Err::<
                        MessageView,
                        Error,
                    >(e));
                }
                return Err(e);
            },
            Ok(_) => {},
        }
        // present the releases newest first
        let ghost pviews = release_views(procd@);
        let ghost tail_lo = cursors.last();
        let releases = reverse_releases(procd);
        let log = Changelog { config, unreleased, releases };
        proof {
            let relviews = log@.releases;
            let m = ascviews.len();
            assert(relviews.len() == m);
            assert(forall|i: int| 0 <= i < m ==> #[trigger] relviews[i] == pviews[m - 1 - i]);
            assert forall|i: int| 0 <= i < relviews.len() implies version_from_name(
                #[trigger] relviews[i],
            ) by {
                assert(same_core(pviews[m - 1 - i], ascviews[m - 1 - i]));
                assert(version_from_name(ascviews[m - 1 - i]));
            }
            assert(sorted_descending(relviews)) by {
                assert forall|i: int| 0 <= i < relviews.len() - 1 implies !(
                #[trigger] spec_version_lt(relviews[i].version, relviews[i + 1].version)) by {
                    let j = m - 2 - i;
                    assert(relviews[i].version == ascviews[j + 1].version);
                    assert(relviews[i + 1].version == ascviews[j].version);
                    assert(!spec_version_lt(ascviews[j + 1].version, ascviews[j].version));
                }
            }
            assert(rel_tags(relviews).to_multiset() == tags0.to_multiset()) by {
                broadcast use vstd::seq_lib::group_to_multiset_ensures;

                assert(rel_tags(relviews) =~= rel_tags(ascviews).reverse()) by {
                    assert(forall|i: int|
                        0 <= i < m ==> #[trigger] rel_tags(relviews)[i] == rel_tags(
                            ascviews,
                        )[m - 1 - i]);
                }
                rel_tags(ascviews).lemma_reverse_to_multiset();
                assert(rel_tags(release_views(built@)) =~= Seq::<TagView>::empty());
                assert(rel_tags(ascviews).to_multiset().add(
                    rel_tags(release_views(built@)).to_multiset(),
                ) == tags0.to_multiset());
                assert(Seq::<TagView>::empty().to_multiset() =~= Multiset::<TagView>::empty());
                assert(rel_tags(ascviews).to_multiset().add(Multiset::<TagView>::empty())
                    =~= rel_tags(ascviews).to_multiset());
            }
            assert(relviews.reverse() =~= pviews);
            assert(spans_ok(cvs, relviews.reverse(), acc, cursors));
            assert(log@.unreleased.changes =~~= span_changes(
                cvs,
                tail_lo,
                cvs.len() as int,
                acc,
            )) by {
                assert(Seq::<ChangeView>::empty() + span_changes(
                    cvs,
                    tail_lo,
                    cvs.len() as int,
                    acc,
                ) =~= span_changes(cvs, tail_lo, cvs.len() as int, acc));
            }
        }
        Ok(log)
    }

    /// The configuration the changelog was built with.
    pub fn config(&self) -> (r: &Config)
        ensures
            r@ == self@.config,
    {
        self.config
    }

    /// The releases, newest first.
    pub fn releases(&self) -> (r: &Vec<Release<'a>>)
        ensures
            release_views(r@) == self@.releases,
    {
        &self.releases
    }

    /// The unreleased changes.
    pub fn unreleased(&self) -> (r: &ChangeSet<'a>)
        ensures
            r@ == self@.unreleased,
    {
        &self.unreleased
    }
}

/// The multiset of the empty sequence is empty.
proof fn lemma_empty_multiset<A>()
    ensures
        Seq::<A>::empty().to_multiset() =~= Multiset::<A>::empty(),
{
    broadcast use vstd::seq_lib::group_to_multiset_ensures;

    assert forall|a: A| Seq::<A>::empty().to_multiset().count(a) == 0 by {
        assert(!Seq::<A>::empty().contains(a));
    }
}

} // verus!
