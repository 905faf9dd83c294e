//! Contributors: the people named by a change.

use crate::text::{
    chars_of, find_last, lemma_find_last, lex_cmp, lex_lt, scan_last, trim_spec, trim_substring,
};
use vstd::prelude::*;

verus! {

/// Mathematical view of a [`Contributor`].
#[verifier::ext_equal]
pub ghost struct ContributorView {
    pub name: Seq<char>,
    pub email: Seq<char>,
}

/// The contributor to a change: a name and an email address, both trimmed
/// of surrounding whitespace.
#[derive(Debug)]
pub struct Contributor {
    pub name: String,
    pub email: String,
}

impl View for Contributor {
    type V = ContributorView;

    open spec fn view(&self) -> ContributorView {
        ContributorView { name: self.name@, email: self.email@ }
    }
}

impl PartialEq for Contributor {
    fn eq(&self, other: &Contributor) -> (r: bool) {
        crate::text::str_eq(self.name.as_str(), other.name.as_str()) && crate::text::str_eq(
            self.email.as_str(),
            other.email.as_str(),
        )
    }
}

impl vstd::std_specs::cmp::PartialEqSpecImpl for Contributor {
    open spec fn obeys_eq_spec() -> bool {
        true
    }

    open spec fn eq_spec(&self, other: &Contributor) -> bool {
        self@ == other@
    }
}

/// The canonical order on contributors: by name, then by email, both
/// lexicographic by code point.
pub open spec fn contributor_lt(a: ContributorView, b: ContributorView) -> bool {
    lex_lt(a.name, b.name) || (a.name == b.name && lex_lt(a.email, b.email))
}

impl Contributor {
    /// A copy of this contributor with the same fields.
    pub fn duplicate(&self) -> (r: Contributor)
        ensures
            r@ == self@,
    {
        Contributor { name: self.name.clone(), email: self.email.clone() }
    }

    /// A contributor built from a raw name and email, each trimmed.
    pub fn from_parts(name: &str, email: &str) -> (r: Contributor)
        ensures
            r@.name == trim_spec(name@),
            r@.email == trim_spec(email@),
    {
        let nv = chars_of(name);
        let ev = chars_of(email);
        let n = trim_substring(name, &nv, 0, nv.len());
        let e = trim_substring(email, &ev, 0, ev.len());
        proof {
            assert(nv@.subrange(0, nv@.len() as int) =~= name@);
            assert(ev@.subrange(0, ev@.len() as int) =~= email@);
        }
        Contributor { name: n, email: e }
    }
}

/// The contributor read out of a footer value: the part before the last
/// `<` is the name, the part between the last `<` and the last `>` after
/// it is the email; without brackets the whole value is the name.
pub open spec fn contributor_of(value: Seq<char>) -> ContributorView {
    let lt = find_last(value, '<');
    let name_part = if lt >= 0 {
        value.subrange(0, lt)
    } else {
        value
    };
    let email_rest = if lt >= 0 {
        value.subrange(lt + 1, value.len() as int)
    } else {
        Seq::empty()
    };
    let gt = find_last(email_rest, '>');
    let email_part = if gt >= 0 {
        email_rest.subrange(0, gt)
    } else {
        email_rest
    };
    ContributorView { name: trim_spec(name_part), email: trim_spec(email_part) }
}

/// Best-effort parsing of a contributor from a commit footer.
///
/// `"Jane <jane@example.com>"` gives name and email; a bare name or a
/// bare address is kept whole as the name, with an empty email.
pub fn parse_contributor_footer(value: &str) -> (r: Option<Contributor>)
    ensures
        r matches Some(c) && c@ =~~= contributor_of(value@),
{
    let v = chars_of(value);
    let n = v.len();
    let c = match scan_last(&v, '<') {
        None => {
            proof {
                assert(trim_spec(Seq::<char>::empty()) =~= Seq::<char>::empty());
            }
            Contributor {
                name: trim_substring(value, &v, 0, n),
                email: String::new(),
            }
        },
        Some(lt) => {
            proof {
                lemma_find_last(v@, '<');
            }
            let ghost email_rest = value@.subrange(lt + 1, value@.len() as int);
            let name = trim_substring(value, &v, 0, lt);
            let gt_abs = match scan_last(&v, '>') {
                Some(g) if g > lt => Some(g),
                _ => None,
            };
            proof {
                lemma_find_last(v@, '>');
                assert(forall|k: int| 0 <= k < email_rest.len() ==> email_rest[k] == v@[lt + 1 + k]);
                match gt_abs {
                    Some(g) => {
                        lemma_find_last_range(email_rest, '>', g - lt - 1);
                    },
                    None => {
                        lemma_find_last_range_none(email_rest, '>');
                    },
                }
            }
            let email = match gt_abs {
                Some(g) => trim_substring(value, &v, lt + 1, g),
                None => trim_substring(value, &v, lt + 1, n),
            };
            proof {
                let gt = find_last(email_rest, '>');
                if gt >= 0 {
                    assert(email_rest.subrange(0, gt) =~= v@.subrange(lt + 1, lt + 1 + gt));
                } else {
                    assert(email_rest =~= v@.subrange(lt + 1, v@.len() as int));
                }
            }
            Contributor { name, email }
        },
    };
    proof {
        assert(v@.subrange(0, v@.len() as int) =~= value@);
    }
    Some(c)
}

/// A position holding `c`, with nothing equal after it, is the last
/// occurrence.
proof fn lemma_find_last_range(s: Seq<char>, c: char, i: int)
    requires
        0 <= i < s.len(),
        s[i] == c,
        forall|k: int| i < k < s.len() ==> s[k] != c,
    ensures
        find_last(s, c) == i,
    decreases s.len(),
{
    if s.len() > 0 && s[s.len() - 1] != c {
        let t = s.subrange(0, s.len() - 1);
        assert(forall|k: int| 0 <= k < t.len() ==> t[k] == s[k]);
        lemma_find_last_range(t, c, i);
    }
}

/// With no occurrence at all, the last occurrence is `-1`.
proof fn lemma_find_last_range_none(s: Seq<char>, c: char)
    requires
        forall|k: int| 0 <= k < s.len() ==> s[k] != c,
    ensures
        find_last(s, c) == -1,
    decreases s.len(),
{
    if s.len() > 0 {
        let t = s.subrange(0, s.len() - 1);
        assert(forall|k: int| 0 <= k < t.len() ==> t[k] == s[k]);
        lemma_find_last_range_none(t, c);
    }
}

/// Compare two contributors in the canonical order: negative, zero or
/// positive as `a` is below, equal to or above `b`.
pub fn cmp_contributor(a: &Contributor, b: &Contributor) -> (r: i8)
    ensures
        r == -1 ==> contributor_lt(a@, b@),
        r == 0 ==> a@ == b@,
        r == 1 ==> contributor_lt(b@, a@),
        r == -1 || r == 0 || r == 1,
{
    let an = chars_of(a.name.as_str());
    let bn = chars_of(b.name.as_str());
    let c1 = lex_cmp(&an, &bn);
    if c1 != 0 {
        return c1;
    }
    let ae = chars_of(a.email.as_str());
    let be = chars_of(b.email.as_str());
    let c2 = lex_cmp(&ae, &be);
    proof {
        if c2 == 0 {
            assert(a@ =~~= b@);
        }
    }
    c2
}

/// The views of a list of contributors.
pub open spec fn contrib_views(v: Seq<Contributor>) -> Seq<ContributorView> {
    v.map_values(|x: Contributor| x@)
}

/// A strictly ascending list of contributors: each one below the next,
/// so that no two are equal.
pub open spec fn sorted_unique(cs: Seq<ContributorView>) -> bool {
    forall|i: int| 0 <= i < cs.len() - 1 ==> #[trigger] contributor_lt(cs[i], cs[i + 1])
}

/// Insert `c` into the strictly ascending `out`, keeping it ascending;
/// nothing happens when `c` is already there.
pub fn insert_contributor(out: &mut Vec<Contributor>, c: Contributor)
    requires
        sorted_unique(contrib_views(old(out)@)),
    ensures
        sorted_unique(contrib_views(final(out)@)),
        forall|x: ContributorView|
            #[trigger] contrib_views(final(out)@).contains(x) <==> (contrib_views(
                old(out)@,
            ).contains(x) || x == c@),
{
    let ghost olds = contrib_views(old(out)@);
    let mut i: usize = 0;
    loop
        invariant
            i <= out@.len(),
            contrib_views(out@) == olds,
            contrib_views(old(out)@) == olds,
            sorted_unique(olds),
            forall|k: int| 0 <= k < i ==> #[trigger] contributor_lt(olds[k], c@),
        decreases out@.len() - i,
    {
        if i >= out.len() {
            out.push(c);
            proof {
                let news = contrib_views(out@);
                assert(news =~= olds.push(c@));
                assert forall|k: int| 0 <= k < news.len() - 1 implies #[trigger] contributor_lt(
                    news[k],
                    news[k + 1],
                ) by {
                    if k + 1 < olds.len() {
                        assert(contributor_lt(olds[k], olds[k + 1]));
                        assert(news[k] == olds[k] && news[k + 1] == olds[k + 1]);
                    } else {
                        assert(contributor_lt(olds[k], c@));
                        assert(news[k] == olds[k] && news[k + 1] == c@);
                    }
                }
                assert forall|x: ContributorView| #[trigger] contrib_views(out@).contains(x)
                    <==> (contrib_views(old(out)@).contains(x) || x == c@) by {
                    if news.contains(x) {
                        let j = choose|j: int| 0 <= j < news.len() && news[j] == x;
                        if j < olds.len() {
                            assert(olds[j] == x);
                        }
                    }
                    if olds.contains(x) {
                        let j = choose|j: int| 0 <= j < olds.len() && olds[j] == x;
                        assert(news[j] == x);
                    }
                    if x == c@ {
                        assert(news[news.len() - 1] == x);
                    }
                }
            }
            return ;
        }
        let r = cmp_contributor(&out[i], &c);
        if r == 0 {
            proof {
                let news = contrib_views(out@);
                assert(olds[i as int] == c@);
                assert forall|x: ContributorView| #[trigger] contrib_views(out@).contains(x)
                    <==> (contrib_views(old(out)@).contains(x) || x == c@) by {
                    if x == c@ {
                        assert(news[i as int] == x);
                    }
                }
            }
            return ;
        }
        if r == 1 {
            let ghost cv = c@;
            proof {
                assert(contributor_lt(cv, olds[i as int]));
            }
            out.insert(i, c);
            proof {
                let news = contrib_views(out@);
                assert(news =~= olds.insert(i as int, cv));
                assert(forall|k: int| 0 <= k < i ==> news[k] == olds[k]);
                assert(news[i as int] == cv);
                assert(forall|k: int| i < k < news.len() ==> news[k] == olds[k - 1]);
                assert forall|k: int| 0 <= k < news.len() - 1 implies #[trigger] contributor_lt(
                    news[k],
                    news[k + 1],
                ) by {
                    if k + 1 < i {
                        assert(contributor_lt(olds[k], olds[k + 1]));
                        assert(news[k] == olds[k] && news[k + 1] == olds[k + 1]);
                    } else if k + 1 == i {
                        assert(contributor_lt(olds[k], cv));
                        assert(news[k] == olds[k] && news[k + 1] == cv);
                    } else if k == i {
                        assert(news[k] == cv && news[k + 1] == olds[k]);
                    } else {
                        let j = k - 1;
                        assert(contributor_lt(olds[j], olds[j + 1]));
                        assert(news[k] == olds[k - 1] && news[k + 1] == olds[k]);
                    }
                }
                assert forall|x: ContributorView| #[trigger] contrib_views(out@).contains(x)
                    <==> (contrib_views(old(out)@).contains(x) || x == cv) by {
                    if news.contains(x) {
                        let j = choose|j: int| 0 <= j < news.len() && news[j] == x;
                        if j < i {
                            assert(olds[j] == x);
                        } else if j == i {
                        } else {
                            assert(olds[j - 1] == x);
                        }
                    }
                    if olds.contains(x) {
                        let j = choose|j: int| 0 <= j < olds.len() && olds[j] == x;
                        if j < i {
                            assert(news[j] == x);
                        } else {
                            assert(news[j + 1] == x);
                        }
                    }
                    if x == cv {
                        assert(news[i as int] == x);
                    }
                }
            }
            return ;
        }
        i += 1;
    }
}

} // verus!
