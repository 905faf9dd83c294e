//! The conventional-commit message grammar.
//!
//! A message is `type(scope)?!?: description`, optionally followed — after
//! one blank line — by a body, whose trailing lines of the shape
//! `Token: value` or `Token #value` are footers. Once a footer has
//! started, a later line that does not look like a footer extends the
//! previous footer's value rather than the body.

use crate::error::{Error, ParseIssue};
use crate::text::{
    all_ws, alpha, chars_of, find_from, is_alpha, is_ws, lemma_find_from, lemma_find_suffix,
    scan_char, scan_non_ws, scan_trim_end, str_eq, trim_end_spec,
};
use vstd::prelude::*;

verus! {

/// Mathematical view of a [`Footer`].
#[verifier::ext_equal]
pub ghost struct FooterView {
    pub token: Seq<char>,
    pub value: Seq<char>,
}

/// A `Token: value` or `Token #value` trailer line of a commit message.
#[derive(Debug)]
pub struct Footer {
    pub token: String,
    pub value: String,
}

impl View for Footer {
    type V = FooterView;

    open spec fn view(&self) -> FooterView {
        FooterView { token: self.token@, value: self.value@ }
    }
}

/// Mathematical view of a [`ParsedMessage`].
#[verifier::ext_equal]
pub ghost struct MessageView {
    pub type_: Seq<char>,
    pub scope: Option<Seq<char>>,
    pub breaking: bool,
    pub description: Seq<char>,
    pub body: Option<Seq<char>>,
    pub footers: Seq<FooterView>,
}

/// A commit message parsed against the conventional-commit grammar.
#[derive(Debug)]
pub struct ParsedMessage {
    pub type_: String,
    pub scope: Option<String>,
    pub breaking: bool,
    pub description: String,
    pub body: Option<String>,
    pub footers: Vec<Footer>,
}

impl View for ParsedMessage {
    type V = MessageView;

    open spec fn view(&self) -> MessageView {
        MessageView {
            type_: self.type_@,
            scope: match self.scope {
                Some(sc) => Some(sc@),
                None => None,
            },
            breaking: self.breaking,
            description: self.description@,
            body: match self.body {
                Some(b) => Some(b@),
                None => None,
            },
            footers: self.footers@.map_values(|f: Footer| f@),
        }
    }
}

/// A character a scope may hold.
pub open spec fn is_scope_char(c: char) -> bool {
    is_alpha(c) || c == ' ' || c == '-'
}

/// A character a footer token may hold.
pub open spec fn is_ftoken_char(c: char) -> bool {
    is_alpha(c) || c == '-'
}

/// Index of the first character at or after `from` that is not an ASCII
/// letter; `s.len()` when all of the rest are letters.
pub open spec fn alpha_end(s: Seq<char>, from: int) -> int
    decreases s.len() - from,
{
    if from < 0 || from >= s.len() {
        s.len() as int
    } else if !is_alpha(s[from]) {
        from
    } else {
        alpha_end(s, from + 1)
    }
}

pub proof fn lemma_alpha_end_range(s: Seq<char>, from: int, upto: int)
    requires
        0 <= from <= upto <= s.len(),
        forall|k: int| from <= k < upto ==> is_alpha(s[k]),
        upto < s.len() ==> !is_alpha(s[upto]),
    ensures
        alpha_end(s, from) == upto,
    decreases upto - from,
{
    if from < upto {
        lemma_alpha_end_range(s, from + 1, upto);
    }
}

/// Index of the first character at or after `from` that cannot stand in a
/// footer token; `s.len()` when all of the rest can.
pub open spec fn ftoken_end(s: Seq<char>, from: int) -> int
    decreases s.len() - from,
{
    if from < 0 || from >= s.len() {
        s.len() as int
    } else if !is_ftoken_char(s[from]) {
        from
    } else {
        ftoken_end(s, from + 1)
    }
}

pub proof fn lemma_ftoken_end_range(s: Seq<char>, from: int, upto: int)
    requires
        0 <= from <= upto <= s.len(),
        forall|k: int| from <= k < upto ==> is_ftoken_char(s[k]),
        upto < s.len() ==> !is_ftoken_char(s[upto]),
    ensures
        ftoken_end(s, from) == upto,
    decreases upto - from,
{
    if from < upto {
        lemma_ftoken_end_range(s, from + 1, upto);
    }
}

/// A valid scope: non-empty, only scope characters, and beginning and
/// ending with a letter.
pub open spec fn valid_scope(sc: Seq<char>) -> bool {
    &&& sc.len() > 0
    &&& forall|k: int| 0 <= k < sc.len() ==> is_scope_char(sc[k])
    &&& is_alpha(sc[0])
    &&& is_alpha(sc[sc.len() - 1])
}

/// Mathematical view of a parsed header line.
#[verifier::ext_equal]
pub ghost struct HeaderView {
    pub type_: Seq<char>,
    pub scope: Option<Seq<char>>,
    pub bang: bool,
    pub description: Seq<char>,
}

/// Index just past the optional parenthesized scope that begins at `te`,
/// or `-1` when a scope begins there but is malformed.
pub open spec fn after_scope(h: Seq<char>, te: int) -> int {
    if te < h.len() && h[te] == '(' {
        let close = find_from(h, ')', te + 1);
        if close < h.len() && valid_scope(h.subrange(te + 1, close)) {
            close + 1
        } else {
            -1
        }
    } else {
        te
    }
}

/// The scope delimited at `te`, if one stands there.
pub open spec fn scope_at(h: Seq<char>, te: int) -> Option<Seq<char>> {
    if te < h.len() && h[te] == '(' {
        Some(h.subrange(te + 1, find_from(h, ')', te + 1)))
    } else {
        None
    }
}

/// The header line parsed into its parts, or `None` when it does not
/// match `type(scope)?!?: description`.
pub open spec fn spec_parse_header(h: Seq<char>) -> Option<HeaderView> {
    let te = alpha_end(h, 0);
    if te <= 0 {
        None
    } else {
        let pos = after_scope(h, te);
        if pos < 0 {
            None
        } else {
            let bang = pos < h.len() && h[pos] == '!';
            let cp = if bang {
                pos + 1
            } else {
                pos
            };
            if cp + 1 < h.len() && h[cp] == ':' && h[cp + 1] == ' ' {
                let d = h.subrange(cp + 2, h.len() as int);
                if d.len() > 0 && d[0] != ' ' && d[d.len() - 1] != ' ' {
                    Some(
                        HeaderView {
                            type_: h.subrange(0, te),
                            scope: scope_at(h, te),
                            bang,
                            description: d,
                        },
                    )
                } else {
                    None
                }
            } else {
                None
            }
        }
    }
}

/// The fixed token that marks a breaking change in a footer.
pub open spec fn breaking_token() -> Seq<char> {
    seq!['B', 'R', 'E', 'A', 'K', 'I', 'N', 'G', ' ', 'C', 'H', 'A', 'N', 'G', 'E']
}

/// The same token written with a hyphen.
pub open spec fn breaking_token_hyphen() -> Seq<char> {
    seq!['B', 'R', 'E', 'A', 'K', 'I', 'N', 'G', '-', 'C', 'H', 'A', 'N', 'G', 'E']
}

/// Whether a footer separator (`": "` or `" #"`) stands at `p`.
pub open spec fn sep_at(line: Seq<char>, p: int) -> bool {
    0 <= p && p + 2 <= line.len() && (line[p] == ':' && line[p + 1] == ' ' || line[p] == ' '
        && line[p + 1] == '#')
}

/// Length of the footer token that begins the line, or `-1` when the line
/// does not have the footer shape `Token: value` or `Token #value`.
pub open spec fn footer_token_len(line: Seq<char>) -> int {
    if line.len() >= breaking_token().len() && line.subrange(0, breaking_token().len() as int)
        =~= breaking_token() {
        if sep_at(line, breaking_token().len() as int) {
            breaking_token().len() as int
        } else {
            -1
        }
    } else {
        let te = ftoken_end(line, 0);
        if te > 0 && sep_at(line, te) {
            te
        } else {
            -1
        }
    }
}

/// Whether a line has the footer shape.
pub open spec fn is_footer_line(line: Seq<char>) -> bool {
    footer_token_len(line) >= 0
}

/// The end of the line that starts at `from`: the index of the next
/// newline, or the end of `t`, kept within `[from, t.len()]`.
pub open spec fn line_end(t: Seq<char>, from: int) -> int {
    let e = find_from(t, '\n', from);
    if e < from {
        from
    } else if e > t.len() {
        t.len() as int
    } else {
        e
    }
}

pub proof fn lemma_line_end(t: Seq<char>, from: int)
    requires
        0 <= from <= t.len(),
    ensures
        line_end(t, from) == find_from(t, '\n', from),
        from <= line_end(t, from) <= t.len(),
        line_end(t, from) < t.len() ==> t[line_end(t, from)] == '\n',
        forall|k: int| from <= k < line_end(t, from) ==> t[k] != '\n',
{
    lemma_find_from(t, '\n', from);
}

/// The start of the first footer-shaped line of `t` at or after the line
/// start `from`; `t.len()` when there is none.
pub open spec fn first_footer_pos(t: Seq<char>, from: int) -> int
    decreases t.len() - from,
{
    if from < 0 || from >= t.len() {
        t.len() as int
    } else {
        let e = line_end(t, from);
        if is_footer_line(t.subrange(from, e)) {
            from
        } else if e >= t.len() {
            t.len() as int
        } else {
            first_footer_pos(t, e + 1)
        }
    }
}

pub proof fn lemma_first_footer_pos(t: Seq<char>, from: int)
    requires
        0 <= from <= t.len(),
    ensures
        from <= first_footer_pos(t, from) <= t.len(),
    decreases t.len() - from,
{
    if 0 <= from && from < t.len() {
        let e = line_end(t, from);
        if !is_footer_line(t.subrange(from, e)) && e < t.len() {
            lemma_first_footer_pos(t, e + 1);
        }
    }
}

/// `first_footer_pos`, clamped to `[from, t.len()]` so that recursion
/// over it visibly advances and stays in range.
pub open spec fn footer_pos_clamped(t: Seq<char>, from: int) -> int {
    let p = first_footer_pos(t, from);
    if p < from {
        from
    } else if p > t.len() {
        t.len() as int
    } else {
        p
    }
}

/// The footers read from `t` starting at the line start `q`, or an error
/// when a footer separator stands at the very end of `t`.
pub open spec fn spec_parse_footers(t: Seq<char>, q: int) -> Result<Seq<FooterView>, ParseIssue>
    decreases t.len() - q,
{
    if q < 0 || q >= t.len() {
        Ok(Seq::empty())
    } else {
        let e = line_end(t, q);
        let line = t.subrange(q, e);
        let tl = footer_token_len(line);
        if tl < 0 {
            Ok(Seq::empty())
        } else {
            let vs = q + tl + 2;
            if vs >= t.len() {
                Err(ParseIssue::MissingFooterValue)
            } else {
                let ve = footer_pos_clamped(t, vs);
                let f = FooterView {
                    token: t.subrange(q, q + tl),
                    value: trim_end_spec(t.subrange(vs, ve)),
                };
                match spec_parse_footers(t, ve) {
                    Ok(rest) => Ok(seq![f] + rest),
                    Err(issue) => Err(issue),
                }
            }
        }
    }
}

/// Whether one of the footers carries the breaking-change token.
pub open spec fn has_breaking_footer(fs: Seq<FooterView>) -> bool {
    exists|i: int|
        0 <= i < fs.len() && (fs[i].token =~= breaking_token() || fs[i].token
            =~= breaking_token_hyphen())
}

/// The message assembled from a parsed header, body and footers.
pub open spec fn assemble(h: HeaderView, body: Option<Seq<char>>, fs: Seq<FooterView>)
    -> MessageView {
    MessageView {
        type_: h.type_,
        scope: h.scope,
        breaking: h.bang || has_breaking_footer(fs),
        description: h.description,
        body,
        footers: fs,
    }
}

/// What parsing a raw commit message yields: the parsed parts, or the
/// error with which the message is rejected.
pub open spec fn spec_parse_message(s: Seq<char>) -> Result<MessageView, Error> {
    if s.len() == 0 {
        Err(Error::ConventionalCommit(ParseIssue::EmptyMessage))
    } else if all_ws(s) {
        Err(Error::MissingCommitMessage)
    } else {
        let hl = find_from(s, '\n', 0);
        match spec_parse_header(s.subrange(0, hl)) {
            None => Err(Error::ConventionalCommit(ParseIssue::InvalidHeader)),
            Some(h) => {
                if hl >= s.len() {
                    Ok(assemble(h, None, Seq::empty()))
                } else {
                    let rest = s.subrange(hl + 1, s.len() as int);
                    if rest.len() == 0 {
                        Ok(assemble(h, None, Seq::empty()))
                    } else if rest[0] == '\n' {
                        let body_text = rest.subrange(1, rest.len() as int);
                        if body_text.len() == 0 {
                            Err(Error::ConventionalCommit(ParseIssue::MissingBody))
                        } else {
                            let p = first_footer_pos(body_text, 0);
                            match spec_parse_footers(body_text, p) {
                                Ok(fs) => Ok(
                                    assemble(
                                        h,
                                        Some(trim_end_spec(body_text.subrange(0, p))),
                                        fs,
                                    ),
                                ),
                                Err(issue) => Err(Error::ConventionalCommit(issue)),
                            }
                        }
                    } else {
                        match spec_parse_footers(rest, 0) {
                            Ok(fs) => Ok(assemble(h, None, fs)),
                            Err(issue) => Err(Error::ConventionalCommit(issue)),
                        }
                    }
                }
            },
        }
    }
}

fn scope_char(c: char) -> (r: bool)
    ensures
        r == is_scope_char(c),
{
    alpha(c) || c == ' ' || c == '-'
}

fn ftoken(c: char) -> (r: bool)
    ensures
        r == is_ftoken_char(c),
{
    alpha(c) || c == '-'
}

/// The first index in `[from, upto)` holding no ASCII letter, or `upto`.
fn scan_alpha(v: &Vec<char>, from: usize, upto: usize) -> (r: usize)
    requires
        from <= upto <= v@.len(),
    ensures
        from <= r <= upto,
        forall|k: int| from <= k < r ==> is_alpha(v@[k]),
        r < upto ==> !is_alpha(v@[r as int]),
{
    let mut i: usize = from;
    while i < upto && alpha(v[i])
        invariant
            from <= i <= upto <= v@.len(),
            forall|k: int| from <= k < i ==> is_alpha(v@[k]),
        decreases upto - i,
    {
        i += 1;
    }
    i
}

/// The first index in `[from, upto)` holding no footer-token character,
/// or `upto`.
fn scan_ftoken(v: &Vec<char>, from: usize, upto: usize) -> (r: usize)
    requires
        from <= upto <= v@.len(),
    ensures
        from <= r <= upto,
        forall|k: int| from <= k < r ==> is_ftoken_char(v@[k]),
        r < upto ==> !is_ftoken_char(v@[r as int]),
{
    let mut i: usize = from;
    while i < upto && ftoken(v[i])
        invariant
            from <= i <= upto <= v@.len(),
            forall|k: int| from <= k < i ==> is_ftoken_char(v@[k]),
        decreases upto - i,
    {
        i += 1;
    }
    i
}

/// Whether a footer separator stands at `[p, p + 2)`, within the bound
/// `e`.
fn sep_check(v: &Vec<char>, p: usize, e: usize) -> (r: bool)
    requires
        p <= e <= v@.len(),
    ensures
        r == (p + 2 <= e && (v@[p as int] == ':' && v@[p + 1] == ' ' || v@[p as int] == ' '
            && v@[p + 1] == '#')),
{
    if e - p < 2 {
        return false;
    }
    v[p] == ':' && v[p + 1] == ' ' || v[p] == ' ' && v[p + 1] == '#'
}

/// The footer token length of the line `[a, e)` of `v`, when the line is
/// footer-shaped.
fn footer_line_at(v: &Vec<char>, a: usize, e: usize) -> (r: Option<usize>)
    requires
        a <= e <= v@.len(),
    ensures
        match r {
            Some(tl) => footer_token_len(v@.subrange(a as int, e as int)) == tl && 1 <= tl && tl
                + 2 <= e - a,
            None => footer_token_len(v@.subrange(a as int, e as int)) < 0,
        },
{
    let ghost line = v@.subrange(a as int, e as int);
    let bc = chars_of("BREAKING CHANGE");
    proof {
        reveal_strlit("BREAKING CHANGE");
        assert(bc@ =~= breaking_token());
        assert(forall|k: int| 0 <= k < e - a ==> line[k] == v@[a + k]);
    }
    let mut bc_prefix = e - a >= 15;
    let mut j: usize = 0;
    while bc_prefix && j < 15
        invariant
            a <= e <= v@.len(),
            j <= 15,
            bc@ =~= breaking_token(),
            bc@.len() == 15,
            line == v@.subrange(a as int, e as int),
            bc_prefix ==> e - a >= 15 && (forall|k: int| 0 <= k < j ==> v@[a + k] == bc@[k]),
            !bc_prefix ==> !(line.len() >= 15 && line.subrange(0, 15) =~= breaking_token()),
        decreases 15 - j,
    {
        if v[a + j] != bc[j] {
            proof {
                assert(line.subrange(0, 15)[j as int] == v@[a + j]);
            }
            bc_prefix = false;
            j = 15;
        } else {
            j += 1;
        }
    }
    if bc_prefix {
        proof {
            assert(line.subrange(0, 15) =~= breaking_token()) by {
                assert(forall|k: int| 0 <= k < 15 ==> line.subrange(0, 15)[k] == v@[a + k]);
            }
        }
        let ok = sep_check(v, a + 15, e);
        proof {
            if 17 <= e - a {
                assert(line[15] == v@[a + 15] && line[16] == v@[a + 16]);
            }
            assert(ok == sep_at(line, 15));
        }
        if ok {
            return Some(15);
        } else {
            return None;
        }
    }
    let te = scan_ftoken(v, a, e);
    let tl = te - a;
    proof {
        lemma_ftoken_end_range(line, 0, tl as int);
    }
    if tl == 0 {
        return None;
    }
    let ok = sep_check(v, te, e);
    proof {
        if tl + 2 <= e - a {
            assert(line[tl as int] == v@[te as int] && line[tl + 1] == v@[te + 1]);
        }
        assert(ok == sep_at(line, tl as int));
    }
    if ok {
        Some(tl)
    } else {
        None
    }
}

/// The absolute start of the first footer-shaped line of the suffix of
/// `v` beginning at `base`, at or after `from`.
fn footer_scan(v: &Vec<char>, base: usize, from: usize) -> (r: usize)
    requires
        base <= from <= v@.len(),
    ensures
        from <= r <= v@.len(),
        r - base == first_footer_pos(v@.subrange(base as int, v@.len() as int), from - base),
{
    let ghost t = v@.subrange(base as int, v@.len() as int);
    let n = v.len();
    let mut q = from;
    loop
        invariant
            base <= from <= q <= n,
            n == v@.len(),
            t == v@.subrange(base as int, v@.len() as int),
            first_footer_pos(t, from - base) == first_footer_pos(t, q - base),
        decreases n - q,
    {
        if q >= n {
            return n;
        }
        let e = scan_char(v, '\n', q);
        proof {
            lemma_find_from(v@, '\n', q as int);
            lemma_find_suffix(v@, '\n', base as int, q - base);
            lemma_line_end(t, q - base);
            assert(line_end(t, q - base) == e - base);
            assert(t.subrange(q - base, e - base) =~= v@.subrange(q as int, e as int));
        }
        let fl = footer_line_at(v, q, e);
        if fl.is_some() {
            return q;
        }
        if e >= n {
            return n;
        }
        q = e + 1;
    }
}

/// The footers of the suffix of `v` beginning at `base`, read from the
/// line start `q0` on, as owned values.
#[verifier::rlimit(60)]
fn parse_footers_exec(s: &str, v: &Vec<char>, base: usize, q0: usize) -> (r: Result<
    Vec<Footer>,
    Error,
>)
    requires
        v@ == s@,
        base <= q0 <= v@.len(),
    ensures
        match r {
            Ok(fv) => spec_parse_footers(v@.subrange(base as int, v@.len() as int), q0 - base)
                matches Ok(fs) && fv@.map_values(|f: Footer| f@) =~~= fs,
            Err(er) => spec_parse_footers(v@.subrange(base as int, v@.len() as int), q0 - base)
                matches Err(issue) && er == Error::ConventionalCommit(issue),
        },
{
    let ghost t = v@.subrange(base as int, v@.len() as int);
    let n = v.len();
    let mut q = q0;
    let mut out: Vec<Footer> = Vec::new();
    loop
        invariant
            v@ == s@,
            base <= q0 <= q <= n,
            n == v@.len(),
            t == v@.subrange(base as int, v@.len() as int),
            match spec_parse_footers(t, q - base) {
                Ok(rest) => spec_parse_footers(t, q0 - base) matches Ok(all) && all =~~= out@
                    .map_values(|f: Footer| f@) + rest,
                Err(issue) => spec_parse_footers(t, q0 - base) matches Err(i2) && i2 == issue,
            },
        decreases n - q,
    {
        if q >= n {
            proof {
                assert(spec_parse_footers(t, q - base) == Ok::<Seq<FooterView>, ParseIssue>(
                    Seq::empty(),
                ));
                assert(out@.map_values(|f: Footer| f@) + Seq::<FooterView>::empty() =~~= out@
                    .map_values(|f: Footer| f@));
            }
            return Ok(out);
        }
        let e = scan_char(v, '\n', q);
        proof {
            lemma_find_from(v@, '\n', q as int);
            lemma_find_suffix(v@, '\n', base as int, q - base);
            lemma_line_end(t, q - base);
            assert(line_end(t, q - base) == e - base);
            assert(t.subrange(q - base, e - base) =~= v@.subrange(q as int, e as int));
        }
        let ghost line = t.subrange(q - base, e - base);
        let fl = footer_line_at(v, q, e);
        match fl {
            None => {
                proof {
                    assert(spec_parse_footers(t, q - base) == Ok::<Seq<FooterView>, ParseIssue>(
                        Seq::empty(),
                    ));
                    assert(out@.map_values(|f: Footer| f@) + Seq::<FooterView>::empty() =~~= out@
                        .map_values(|f: Footer| f@));
                }
                return Ok(out);
            },
            Some(tl) => {
                let vs = q + tl + 2;
                if vs >= n {
                    proof {
                        assert(spec_parse_footers(t, q - base) == Err::<
                            Seq<FooterView>,
                            ParseIssue,
                        >(ParseIssue::MissingFooterValue));
                    }
                    return Err(Error::ConventionalCommit(ParseIssue::MissingFooterValue));
                }
                let ve = footer_scan(v, base, vs);
                proof {
                    lemma_first_footer_pos(t, vs - base);
                    assert(footer_pos_clamped(t, vs - base) == ve - base);
                }
                let wend = scan_trim_end(v, vs, ve);
                let token = s.substring_char(q, q + tl).to_owned();
                let value = s.substring_char(vs, wend).to_owned();
                let ghost fv = FooterView {
                    token: t.subrange(q - base, q - base + tl),
                    value: trim_end_spec(t.subrange(vs - base, ve - base)),
                };
                proof {
                    assert(t.subrange(q - base, q - base + tl) =~= s@.subrange(
                        q as int,
                        q + tl as int,
                    ));
                    assert(t.subrange(vs - base, ve - base) =~= v@.subrange(vs as int, ve as int));
                    assert(trim_end_spec(v@.subrange(vs as int, ve as int)) =~= s@.subrange(
                        vs as int,
                        wend as int,
                    )) by {
                        assert(v@.subrange(vs as int, ve as int).subrange(
                            0,
                            wend - vs,
                        ) =~= v@.subrange(vs as int, wend as int));
                    }
                    assert(token@ =~= fv.token);
                    assert(value@ =~= fv.value);
                }
                let ghost old_out = out@;
                let f = Footer { token, value };
                proof {
                    assert(f@ =~= fv);
                }
                out.push(f);
                proof {
                    assert(out@.map_values(|g: Footer| g@) =~~= old_out.map_values(
                        |g: Footer| g@,
                    ).push(fv)) by {
                        assert(out@ == old_out.push(f));
                    }
                    // one unfolding of the footer list at `q`
                    match spec_parse_footers(t, ve - base) {
                        Ok(rest) => {
                            assert(spec_parse_footers(t, q - base) matches Ok(whole) && whole =~~=
                            seq![fv] + rest);
                            assert(old_out.map_values(|g: Footer| g@) + (seq![fv] + rest) =~~= out@
                                .map_values(|g: Footer| g@) + rest);
                        },
                        Err(issue) => {
                            assert(spec_parse_footers(t, q - base) matches Err(i3) && i3 == issue);
                        },
                    }
                }
                q = ve;
            },
        }
    }
}

/// The header line `[0, hl)` of `v` parsed into (type, scope, bang,
/// description), or `None` when it does not match the grammar.
#[verifier::loop_isolation(false)]
#[verifier::rlimit(60)]
fn parse_header_exec(s: &str, v: &Vec<char>, hl: usize) -> (r: Option<
    (String, Option<String>, bool, String),
>)
    requires
        v@ == s@,
        hl <= v@.len(),
    ensures
        match r {
            Some(hd) => spec_parse_header(s@.subrange(0, hl as int)) matches Some(hv) && hd.0@
                =~= hv.type_ && (match hd.1 {
                Some(sc) => hv.scope matches Some(scv) && sc@ =~= scv,
                None => hv.scope is None,
            }) && hd.2 == hv.bang && hd.3@ =~= hv.description,
            None => spec_parse_header(s@.subrange(0, hl as int)) is None,
        },
{
    let ghost h = s@.subrange(0, hl as int);
    proof {
        assert(forall|k: int| 0 <= k < hl ==> h[k] == v@[k]);
    }
    let te = scan_alpha(v, 0, hl);
    proof {
        lemma_alpha_end_range(h, 0, te as int);
    }
    if te == 0 {
        return None;
    }
    let mut scope: Option<String> = None;
    let mut pos = te;
    if te < hl && v[te] == '(' {
        let close = scan_char(v, ')', te + 1);
        proof {
            lemma_find_from(v@, ')', te + 1);
        }
        if close >= hl {
            proof {
                crate::text::lemma_find_range(h, ')', te + 1, hl as int);
                assert(after_scope(h, te as int) == -1);
            }
            return None;
        }
        proof {
            crate::text::lemma_find_range(h, ')', te + 1, close as int);
        }
        let ghost inner = h.subrange(te + 1, close as int);
        proof {
            assert(forall|k: int| te + 1 <= k < close ==> inner[k - te - 1] == v@[k]);
        }
        if close == te + 1 {
            proof {
                assert(!valid_scope(inner));
            }
            return None;
        }
        if !alpha(v[te + 1]) || !alpha(v[close - 1]) {
            proof {
                assert(inner[0] == v@[te + 1]);
                assert(inner[inner.len() - 1] == v@[close - 1]);
                assert(!valid_scope(inner));
            }
            return None;
        }
        let mut k: usize = te + 1;
        while k < close
            invariant
                te + 1 <= k <= close <= v@.len(),
                forall|j: int| te + 1 <= j < k ==> is_scope_char(v@[j]),
            decreases close - k,
        {
            if !scope_char(v[k]) {
                proof {
                    assert(inner[k - te - 1] == v@[k as int]);
                    assert(!valid_scope(inner));
                }
                return None;
            }
            k += 1;
        }
        proof {
            assert(valid_scope(inner)) by {
                assert(inner[0] == v@[te + 1] && inner[inner.len() - 1] == v@[close - 1]);
                assert(forall|j: int| 0 <= j < inner.len() ==> inner[j] == v@[te + 1 + j]);
            }
            assert(after_scope(h, te as int) == close + 1);
        }
        scope = Some(s.substring_char(te + 1, close).to_owned());
        pos = close + 1;
    }
    let ghost gpos = pos as int;
    proof {
        assert(after_scope(h, te as int) == gpos);
    }
    let mut bang = false;
    if pos < hl && v[pos] == '!' {
        bang = true;
    }
    let cp = if bang {
        pos + 1
    } else {
        pos
    };
    if hl - cp < 2 {
        return None;
    }
    if v[cp] != ':' || v[cp + 1] != ' ' {
        return None;
    }
    if hl - cp == 2 {
        return None;
    }
    let ghost d = h.subrange(cp + 2, hl as int);
    proof {
        assert(forall|k: int| cp + 2 <= k < hl ==> d[k - cp - 2] == v@[k]);
    }
    if v[cp + 2] == ' ' || v[hl - 1] == ' ' {
        proof {
            assert(d[0] == v@[cp + 2] && d[d.len() - 1] == v@[hl - 1]);
        }
        return None;
    }
    let type_ = s.substring_char(0, te).to_owned();
    let description = s.substring_char(cp + 2, hl).to_owned();
    proof {
        assert(d[0] == v@[cp + 2] && d[d.len() - 1] == v@[hl - 1]);
        assert(h.subrange(0, te as int) =~= s@.subrange(0, te as int));
        assert(d =~= s@.subrange(cp + 2, hl as int));
        if te < hl && v@[te as int] == '(' {
            let close = find_from(h, ')', te + 1);
            assert(scope_at(h, te as int) == Some(h.subrange(te + 1, close)));
            assert(h.subrange(te + 1, close) =~= s@.subrange(te + 1, close));
        }
    }
    Some((type_, scope, bang, description))
}

/// Whether one of the footers carries the breaking-change token.
fn breaking_in(footers: &Vec<Footer>) -> (r: bool)
    ensures
        r == has_breaking_footer(footers@.map_values(|f: Footer| f@)),
{
    let ghost fs = footers@.map_values(|f: Footer| f@);
    let mut i: usize = 0;
    while i < footers.len()
        invariant
            i <= footers@.len(),
            fs == footers@.map_values(|f: Footer| f@),
            forall|k: int|
                0 <= k < i ==> !(fs[k].token =~= breaking_token() || fs[k].token
                    =~= breaking_token_hyphen()),
        decreases footers@.len() - i,
    {
        proof {
            reveal_strlit("BREAKING CHANGE");
            reveal_strlit("BREAKING-CHANGE");
            assert("BREAKING CHANGE"@ =~= breaking_token());
            assert("BREAKING-CHANGE"@ =~= breaking_token_hyphen());
        }
        let b1 = str_eq(footers[i].token.as_str(), "BREAKING CHANGE");
        let b2 = str_eq(footers[i].token.as_str(), "BREAKING-CHANGE");
        proof {
            assert(fs[i as int].token == footers@[i as int].token@);
        }
        if b1 || b2 {
            return true;
        }
        i += 1;
    }
    proof {
        assert(!has_breaking_footer(fs));
    }
    false
}

/// Parse a raw commit message against the conventional-commit grammar.
///
/// The result is exactly what [`spec_parse_message`] states: the header
/// parts, the body separated by one blank line, and the trailing footers;
/// or the error with which the message is rejected.
#[verifier::rlimit(60)]
pub fn parse_message(s: &str) -> (r: Result<ParsedMessage, Error>)
    ensures
        match r {
            Ok(m) => spec_parse_message(s@) matches Ok(mv) && m@ =~~= mv,
            Err(e) => spec_parse_message(s@) matches Err(ev) && e == ev,
        },
{
    let v = chars_of(s);
    let n = v.len();
    if n == 0 {
        return Err(Error::ConventionalCommit(ParseIssue::EmptyMessage));
    }
    let w = scan_non_ws(&v, 0, n);
    if w == n {
        proof {
            assert(all_ws(s@));
        }
        return Err(Error::MissingCommitMessage);
    }
    proof {
        assert(!all_ws(s@)) by {
            assert(!is_ws(s@[w as int]));
        }
    }
    let hl = scan_char(&v, '\n', 0);
    proof {
        lemma_find_from(v@, '\n', 0);
    }
    let hd = match parse_header_exec(s, &v, hl) {
        None => {
            return Err(Error::ConventionalCommit(ParseIssue::InvalidHeader));
        },
        Some(hd) => hd,
    };
    let ghost hv = spec_parse_header(s@.subrange(0, hl as int)).unwrap();
    if hl >= n || n - hl == 1 {
        let m = ParsedMessage {
            type_: hd.0,
            scope: hd.1,
            breaking: hd.2,
            description: hd.3,
            body: None,
            footers: Vec::new(),
        };
        proof {
            assert(m@.footers =~= Seq::<FooterView>::empty());
            assert(!has_breaking_footer(Seq::empty()));
            if hl < n {
                assert(s@.subrange(hl + 1, n as int).len() == 0);
            }
            assert(m@ =~~= assemble(hv, None, Seq::empty()));
        }
        return Ok(m);
    }
    if v[hl + 1] == '\n' {
        let ghost bt = s@.subrange(hl + 2, n as int);
        proof {
            assert(s@.subrange(hl + 1, n as int)[0] == v@[hl + 1]);
            assert(s@.subrange(hl + 1, n as int).subrange(
                1,
                s@.subrange(hl + 1, n as int).len() as int,
            ) =~= bt);
        }
        if n - hl == 2 {
            proof {
                assert(bt.len() == 0);
            }
            return Err(Error::ConventionalCommit(ParseIssue::MissingBody));
        }
        let base = hl + 2;
        let p = footer_scan(&v, base, base);
        proof {
            assert(bt =~= v@.subrange(base as int, v@.len() as int));
        }
        let bend = scan_trim_end(&v, base, p);
        let body = s.substring_char(base, bend).to_owned();
        proof {
            assert(bt.subrange(0, p - base) =~= v@.subrange(base as int, p as int));
            assert(trim_end_spec(v@.subrange(base as int, p as int)) =~= s@.subrange(
                base as int,
                bend as int,
            )) by {
                assert(v@.subrange(base as int, p as int).subrange(0, bend - base) =~= v@.subrange(
                    base as int,
                    bend as int,
                ));
            }
        }
        match parse_footers_exec(s, &v, base, p) {
            Err(e) => {
                return Err(e);
            },
            Ok(fv) => {
                let breaking = hd.2 || breaking_in(&fv);
                let m = ParsedMessage {
                    type_: hd.0,
                    scope: hd.1,
                    breaking,
                    description: hd.3,
                    body: Some(body),
                    footers: fv,
                };
                proof {
                    let fs = spec_parse_footers(bt, p - base).unwrap();
                    assert(m@.footers =~~= fs);
                    assert(has_breaking_footer(m@.footers) == has_breaking_footer(fs));
                    assert(m@ =~~= assemble(hv, Some(trim_end_spec(bt.subrange(0, p - base))), fs));
                }
                return Ok(m);
            },
        }
    } else {
        let base = hl + 1;
        let ghost rest = s@.subrange(hl + 1, n as int);
        proof {
            assert(rest[0] == v@[hl + 1]);
            assert(rest =~= v@.subrange(base as int, v@.len() as int));
        }
        match parse_footers_exec(s, &v, base, base) {
            Err(e) => {
                return Err(e);
            },
            Ok(fv) => {
                let breaking = hd.2 || breaking_in(&fv);
                let m = ParsedMessage {
                    type_: hd.0,
                    scope: hd.1,
                    breaking,
                    description: hd.3,
                    body: None,
                    footers: fv,
                };
                proof {
                    let fs = spec_parse_footers(rest, 0).unwrap();
                    assert(m@.footers =~~= fs);
                    assert(has_breaking_footer(m@.footers) == has_breaking_footer(fs));
                    assert(m@ =~~= assemble(hv, None, fs));
                }
                return Ok(m);
            },
        }
    }
}

} // verus!
