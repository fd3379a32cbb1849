//! Rendering of a command template against one ordered dependency record.
//!
//! The template holds the literal placeholder tokens `{}`, `{version}` and
//! `{path}`; rendering substitutes them, in that order, by plain textual
//! replacement of every occurrence, scanning left to right.

use vstd::prelude::*;
use crate::graph::OrderedDependency;

verus! {

/// `s` with every occurrence of `pat` replaced by `rep`, scanning left to
/// right over non-overlapping occurrences.  An empty pattern replaces
/// nothing.
pub open spec fn replace_seq(s: Seq<char>, pat: Seq<char>, rep: Seq<char>) -> Seq<char>
    decreases s.len(),
{
    if pat.len() == 0 {
        s
    } else if s.len() < pat.len() {
        s
    } else if s.subrange(0, pat.len() as int) == pat {
        rep + replace_seq(s.skip(pat.len() as int), pat, rep)
    } else {
        seq![s[0]] + replace_seq(s.skip(1), pat, rep)
    }
}

/// The command template `t` with `{}` replaced by `name`, then `{version}`
/// by `version`, then `{path}` by `path`.
pub open spec fn rendered(
    t: Seq<char>,
    name: Seq<char>,
    version: Seq<char>,
    path: Seq<char>,
) -> Seq<char> {
    replace_seq(
        replace_seq(replace_seq(t, "{}"@, name), "{version}"@, version),
        "{path}"@,
        path,
    )
}

/// Whether `pat` occurs in `s` starting at character position `i`.
fn match_at(s: &str, n: usize, i: usize, pat: &str, plen: usize) -> (r: bool)
    requires
        n == s@.len(),
        plen == pat@.len(),
        i <= n,
        plen <= n - i,
    ensures
        r == (s@.subrange(i as int, i + plen) == pat@),
{
    let mut j: usize = 0;
    while j < plen
        invariant
            n == s@.len(),
            plen == pat@.len(),
            i <= n,
            plen <= n - i,
            0 <= j <= plen,
            forall|m: int| 0 <= m < j ==> s@[i + m] == pat@[m],
        decreases plen - j,
    {
        if s.get_char(i + j) != pat.get_char(j) {
            assert(s@.subrange(i as int, i + plen)[j as int] == s@[i + j]);
            return false;
        }
        j += 1;
    }
    assert(s@.subrange(i as int, i + plen) =~= pat@);
    true
}

/// `s` with every occurrence of `pat` replaced by `rep`.
fn replace_str(s: &str, pat: &str, rep: &str) -> (r: String)
    requires
        pat@.len() >= 1,
    ensures
        r@ == replace_seq(s@, pat@, rep@),
{
    let n = s.unicode_len();
    let plen = pat.unicode_len();
    let mut r = String::new();
    let mut i: usize = 0;
    proof {
        assert(s@.skip(0) =~= s@);
        assert(r@ + replace_seq(s@, pat@, rep@) =~= replace_seq(s@, pat@, rep@));
    }
    while i < n && plen <= n - i
        invariant
            n == s@.len(),
            plen == pat@.len(),
            plen >= 1,
            0 <= i <= n,
            replace_seq(s@, pat@, rep@) == r@ + replace_seq(s@.skip(i as int), pat@, rep@),
        decreases n - i,
    {
        let tail_len: usize = n - i;
        assert(s@.skip(i as int).len() == tail_len);
        if match_at(s, n, i, pat, plen) {
            proof {
                assert(s@.skip(i as int).subrange(0, plen as int) =~= s@.subrange(
                    i as int,
                    i + plen,
                ));
                assert(s@.skip(i as int).skip(plen as int) =~= s@.skip(i + plen));
            }
            r.append(rep);
            i += plen;
        } else {
            proof {
                assert(s@.skip(i as int).subrange(0, plen as int) =~= s@.subrange(
                    i as int,
                    i + plen,
                ));
                assert(s@.skip(i as int)[0] == s@[i as int]);
                assert(s@.skip(i as int).skip(1) =~= s@.skip(i + 1));
                assert(s@.subrange(i as int, i + 1) =~= seq![s@[i as int]]);
            }
            let c = s.substring_char(i, i + 1);
            r.append(c);
            i += 1;
        }
    }
    // fewer than `plen` characters remain: they are kept unchanged
    assert(s@.skip(i as int).len() < plen || i == n);
    let rest = s.substring_char(i, n);
    proof {
        assert(s@.subrange(i as int, n as int) =~= s@.skip(i as int));
    }
    r.append(rest);
    r
}

/// The command template rendered against one dependency record: `{}` is
/// replaced by the name, `{version}` by the version and `{path}` by the
/// manifest directory, each by plain textual substitution in that order.
pub fn render_command(template: &str, dep: &OrderedDependency) -> (r: String)
    ensures
        r@ == rendered(template@, dep.name@, dep.version@, dep.path@),
{
    proof {
        reveal_strlit("{}");
        reveal_strlit("{version}");
        reveal_strlit("{path}");
    }
    let a = replace_str(template, "{}", dep.name.as_str());
    let b = replace_str(a.as_str(), "{version}", dep.version.as_str());
    let c = replace_str(b.as_str(), "{path}", dep.path.as_str());
    c
}

} // verus!
