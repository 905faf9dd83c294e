//! Helpers for rendering: header lookup with fallback, and indentation.

use crate::config::pair_views;
use crate::message::line_end;
use crate::text::{chars_of, lemma_find_from, scan_char, str_eq};
use vstd::prelude::*;

verus! {

/// The display header for a token: the value of the first pair whose key
/// is the token, or the token itself when no pair matches.
pub open spec fn spec_lookup(map: Seq<(Seq<char>, Seq<char>)>, token: Seq<char>) -> Seq<char>
    decreases map.len(),
{
    if map.len() == 0 {
        token
    } else if map[0].0 == token {
        map[0].1
    } else {
        spec_lookup(map.subrange(1, map.len() as int), token)
    }
}

/// Map a type or scope token to its configured display header; an
/// unknown token passes through unchanged.
pub fn lookup_header(map: &Vec<(String, String)>, token: &str) -> (r: String)
    ensures
        r@ == spec_lookup(pair_views(map@), token@),
{
    let ghost views = pair_views(map@);
    proof {
        assert(views.subrange(0, views.len() as int) =~= views);
    }
    let mut i: usize = 0;
    while i < map.len()
        invariant
            i <= map@.len(),
            views == pair_views(map@),
            spec_lookup(views, token@) == spec_lookup(
                views.subrange(i as int, views.len() as int),
                token@,
            ),
        decreases map@.len() - i,
    {
        let ghost rest = views.subrange(i as int, views.len() as int);
        proof {
            assert(rest[0] == views[i as int]);
            assert(views[i as int] == (map@[i as int].0@, map@[i as int].1@));
            assert(rest.subrange(1, rest.len() as int) =~= views.subrange(
                i + 1,
                views.len() as int,
            ));
        }
        if str_eq(map[i].0.as_str(), token) {
            return map[i].1.clone();
        }
        i += 1;
    }
    proof {
        assert(views.subrange(i as int, views.len() as int).len() == 0);
    }
    token.to_owned()
}

/// `n` spaces.
pub open spec fn spec_spaces(n: nat) -> Seq<char>
    decreases n,
{
    if n == 0 {
        Seq::empty()
    } else {
        spec_spaces((n - 1) as nat).push(' ')
    }
}

/// The text with each non-empty line prefixed by `n` spaces; the lines
/// are joined by single newlines, so one trailing newline is dropped.
pub open spec fn spec_indent(s: Seq<char>, n: nat) -> Seq<char>
    decreases s.len(),
{
    if s.len() == 0 {
        s
    } else {
        let e = line_end(s, 0);
        let line = s.subrange(0, e);
        let head = if line.len() > 0 {
            spec_spaces(n) + line
        } else {
            line
        };
        if e + 1 >= s.len() {
            head
        } else {
            head + seq!['\n'] + spec_indent(s.subrange(e + 1, s.len() as int), n)
        }
    }
}

/// Append `n` spaces to `out`.
fn push_spaces(out: &mut String, n: usize)
    ensures
        final(out)@ == old(out)@ + spec_spaces(n as nat),
{
    let ghost start = old(out)@;
    let mut k: usize = 0;
    proof {
        assert(start + spec_spaces(0) =~= start);
    }
    while k < n
        invariant
            k <= n,
            out@ == start + spec_spaces(k as nat),
        decreases n - k,
    {
        out.append(" ");
        proof {
            reveal_strlit(" ");
            assert(start + spec_spaces((k + 1) as nat) =~= (start + spec_spaces(k as nat)) + " "@);
        }
        k += 1;
    }
}

/// Indent each non-empty line of `text` by `n` spaces.
pub fn indent_text(text: &str, n: usize) -> (r: String)
    ensures
        r@ == spec_indent(text@, n as nat),
{
    let v = chars_of(text);
    let total = v.len();
    let mut out = String::new();
    let mut pos: usize = 0;
    proof {
        assert(text@.subrange(0, total as int) =~= text@);
        assert(Seq::<char>::empty() + spec_indent(text@, n as nat) =~= spec_indent(
            text@,
            n as nat,
        ));
    }
    while pos < total
        invariant
            pos <= total,
            total == text@.len(),
            v@ == text@,
            spec_indent(text@, n as nat) == out@ + spec_indent(
                text@.subrange(pos as int, total as int),
                n as nat,
            ),
        decreases total - pos,
    {
        let ghost suffix = text@.subrange(pos as int, total as int);
        let e = scan_char(&v, '\n', pos);
        proof {
            lemma_find_from(v@, '\n', pos as int);
            crate::text::lemma_find_suffix(v@, '\n', pos as int, 0);
            crate::message::lemma_line_end(suffix, 0);
            assert(line_end(suffix, 0) == e - pos);
            assert(suffix.subrange(0, e - pos) =~= text@.subrange(pos as int, e as int));
        }
        let ghost obefore = out@;
        if e > pos {
            push_spaces(&mut out, n);
        }
        out.append(text.substring_char(pos, e));
        proof {
            if e > pos {
                assert(out@ =~= obefore + (spec_spaces(n as nat) + text@.subrange(
                    pos as int,
                    e as int,
                )));
            } else {
                assert(out@ =~= obefore + text@.subrange(pos as int, e as int));
            }
        }
        if e >= total || e + 1 == total {
            proof {
                assert(spec_indent(suffix, n as nat) == (if e - pos > 0 {
                    spec_spaces(n as nat) + suffix.subrange(0, e - pos)
                } else {
                    suffix.subrange(0, e - pos)
                }));
            }
            pos = total;
        } else {
            let ghost obefore2 = out@;
            out.append("\n");
            proof {
                reveal_strlit("\n");
                let head = if e - pos > 0 {
                    spec_spaces(n as nat) + suffix.subrange(0, e - pos)
                } else {
                    suffix.subrange(0, e - pos)
                };
                assert(suffix.subrange(e - pos + 1, suffix.len() as int) =~= text@.subrange(
                    e + 1,
                    total as int,
                ));
                assert(spec_indent(suffix, n as nat) == head + seq!['\n'] + spec_indent(
                    text@.subrange(e + 1, total as int),
                    n as nat,
                ));
                assert(out@ =~= obefore2 + seq!['\n']);
                assert(out@ + spec_indent(text@.subrange(e + 1, total as int), n as nat)
                    =~= obefore + spec_indent(suffix, n as nat));
            }
            pos = e + 1;
        }
    }
    proof {
        assert(text@.subrange(total as int, total as int).len() == 0);
        assert(out@ + spec_indent(text@.subrange(pos as int, total as int), n as nat) =~= out@);
    }
    out
}

} // verus!
