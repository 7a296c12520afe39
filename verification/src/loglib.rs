//! The logging surface's own logic: naming the script that logged, and
//! joining multiple logged values into one line.

use vstd::prelude::*;
use crate::chars::{append_chars, chars_to_string, str_to_chars};

verus! {

/// The text with every occurrence of `pat` replaced by `rep`, scanning
/// left to right without overlap. An empty pattern leaves the text alone.
pub open spec fn spec_replace(s: Seq<char>, pat: Seq<char>, rep: Seq<char>) -> Seq<char>
    decreases s.len(),
    via spec_replace_decreases
{
    if pat.len() == 0 || s.len() < pat.len() {
        s
    } else if s.take(pat.len() as int) == pat {
        rep + spec_replace(s.skip(pat.len() as int), pat, rep)
    } else {
        seq![s[0]] + spec_replace(s.drop_first(), pat, rep)
    }
}

#[via_fn]
proof fn spec_replace_decreases(s: Seq<char>, pat: Seq<char>, rep: Seq<char>) {
}

/// Replaces every occurrence of `pat` in `s` by `rep`, left to right.
#[verifier::loop_isolation(false)]
pub fn replace_all(s: &Vec<char>, pat: &Vec<char>, rep: &Vec<char>) -> (r: Vec<char>)
    ensures
        r@ == spec_replace(s@, pat@, rep@),
{
    let ghost cs = s@;
    let plen = pat.len();
    let mut out: Vec<char> = Vec::new();
    if plen == 0 {
        let r = crate::chars::clone_chars(s);
        return r;
    }
    let mut i: usize = 0;
    proof {
        assert(cs.skip(0) =~= cs);
    }
    while i < s.len()
        invariant
            i <= cs.len(),
            cs == s@,
            plen == pat@.len(),
            plen > 0,
            out@ + spec_replace(cs.skip(i as int), pat@, rep@) == spec_replace(cs, pat@, rep@),
        decreases cs.len() - i,
    {
        let ghost suf = cs.skip(i as int);
        let n = s.len();
        let hit = plen <= n && i <= n - plen && window_matches(s, i, pat);
        if hit {
            proof {
                assert(suf.take(plen as int) =~= cs.subrange(i as int, i as int + plen as int));
                assert(suf.skip(plen as int) =~= cs.skip(i as int + plen as int));
            }
            append_chars(&mut out, rep);
            i = i + plen;
        } else {
            proof {
                assert(suf.len() < plen || suf.take(plen as int) != pat@) by {
                    if suf.len() >= plen {
                        assert(suf.take(plen as int) =~= cs.subrange(
                            i as int,
                            i as int + plen as int,
                        ));
                    }
                }
                assert(suf[0] == cs[i as int]);
                assert(suf.drop_first() =~= cs.skip(i as int + 1));
            }
            out.push(s[i]);
            i = i + 1;
        }
        proof {
            assert(out@ + spec_replace(cs.skip(i as int), pat@, rep@) =~= spec_replace(
                cs,
                pat@,
                rep@,
            ));
        }
    }
    proof {
        assert(cs.skip(cs.len() as int) =~= Seq::<char>::empty());
        assert(out@ =~= spec_replace(cs, pat@, rep@));
    }
    out
}

/// Whether `pat` occurs in `s` starting at `i`.
#[verifier::loop_isolation(false)]
fn window_matches(s: &Vec<char>, i: usize, pat: &Vec<char>) -> (r: bool)
    requires
        i + pat@.len() <= s@.len(),
    ensures
        r == (s@.subrange(i as int, i as int + pat@.len() as int) == pat@),
{
    let n = s.len();
    let mut w: usize = 0;
    while w < pat.len()
        invariant
            w <= pat@.len(),
            n as int == s@.len(),
            forall|m: int| 0 <= m < w ==> s@[i + m] == pat@[m],
        decreases pat@.len() - w,
    {
        if s[i + w] != pat[w] {
            proof {
                assert(s@.subrange(i as int, i as int + pat@.len() as int)[w as int]
                    != pat@[w as int]);
            }
            return false;
        }
        w = w + 1;
    }
    proof {
        assert(s@.subrange(i as int, i as int + pat@.len() as int) =~= pat@) by {
            assert forall|m: int| 0 <= m < pat@.len() implies s@.subrange(
                i as int,
                i as int + pat@.len() as int,
            )[m] == pat@[m] by {
                assert(s@[i + m] == pat@[m]);
            }
        }
    }
    true
}

/// The diagnostic target of a logging call: a named chunk (a source
/// starting with `@`) is shown by its name, with the `@` and any script
/// suffix stripped and any suffixed fragment marker collapsed; an unnamed
/// chunk is shown as loaded from a string; a call with no source at all is
/// attributed to the host.
pub open spec fn spec_log_target(source: Option<Seq<char>>) -> Seq<char> {
    match source {
        None => "<host>"@,
        Some(s) => {
            if s.len() > 0 && s[0] == '@' {
                let base = strip_one_suffix(strip_one_suffix(s.drop_first(), ".lua"@), ".luau"@);
                spec_replace(spec_replace(base, ".lua#"@, "#"@), ".luau#"@, "#"@)
            } else {
                "<loadstring>"@
            }
        },
    }
}

/// The text without `suffix` at its end, when present.
pub open spec fn strip_one_suffix(s: Seq<char>, suffix: Seq<char>) -> Seq<char> {
    if s.len() >= suffix.len() && s.skip(s.len() - suffix.len()) == suffix {
        s.take(s.len() - suffix.len())
    } else {
        s
    }
}

/// Strips `suffix` from the end of `s`, when present.
#[verifier::loop_isolation(false)]
fn strip_suffix_chars(s: Vec<char>, suffix: &Vec<char>) -> (r: Vec<char>)
    ensures
        r@ == strip_one_suffix(s@, suffix@),
{
    let slen = s.len();
    let xlen = suffix.len();
    if slen < xlen {
        return s;
    }
    let base = slen - xlen;
    let mut m: usize = 0;
    while m < xlen
        invariant
            m <= xlen,
            base == s@.len() - suffix@.len(),
            forall|q: int| 0 <= q < m ==> s@[base + q] == suffix@[q],
        decreases xlen - m,
    {
        if s[base + m] != suffix[m] {
            proof {
                assert(s@.skip(base as int)[m as int] != suffix@[m as int]);
            }
            return s;
        }
        m = m + 1;
    }
    proof {
        assert(s@.skip(base as int) =~= suffix@) by {
            assert forall|q: int| 0 <= q < xlen implies s@.skip(base as int)[q]
                == suffix@[q] by {
                assert(s@[base + q] == suffix@[q]);
            }
        }
    }
    let mut s = s;
    let ghost pre = s@;
    s.truncate(base);
    proof {
        assert(s@ =~= strip_one_suffix(pre, suffix@));
    }
    s
}

/// Renders the diagnostic target of a logging call.
pub fn log_target(source: Option<&str>) -> (r: String)
    ensures
        r@ == spec_log_target(match source {
            Some(s) => Some(s@),
            None => None,
        }),
{
    match source {
        None => {
            let r = "<host>".to_owned();
            r
        },
        Some(src) => {
            let cv = str_to_chars(src);
            if cv.len() > 0 && cv[0] == '@' {
                let mut body: Vec<char> = Vec::new();
                let mut i: usize = 1;
                while i < cv.len()
                    invariant
                        1 <= i <= cv@.len(),
                        cv@.len() > 0,
                        body@ == cv@.subrange(1, i as int),
                    decreases cv@.len() - i,
                {
                    body.push(cv[i]);
                    proof {
                        assert(body@ =~= cv@.subrange(1, i as int + 1));
                    }
                    i = i + 1;
                }
                proof {
                    assert(body@ =~= cv@.drop_first());
                }
                let lua = str_to_chars(".lua");
                let luau = str_to_chars(".luau");
                let stripped = strip_suffix_chars(strip_suffix_chars(body, &lua), &luau);
                let lua_hash = str_to_chars(".lua#");
                let luau_hash = str_to_chars(".luau#");
                let hash = str_to_chars("#");
                let replaced = replace_all(
                    &replace_all(&stripped, &lua_hash, &hash),
                    &luau_hash,
                    &hash,
                );
                chars_to_string(&replaced)
            } else {
                "<loadstring>".to_owned()
            }
        },
    }
}

/// Joins the rendered values of one logging call with tab separators.
#[verifier::loop_isolation(false)]
pub fn join_logged_values(values: &Vec<String>) -> (r: String)
    ensures
        r@ == spec_join_tabs(values@.map(|i: int, s: String| s@)),
{
    let ghost vv = values@.map(|i: int, s: String| s@);
    let mut out: Vec<char> = Vec::new();
    let mut i: usize = 0;
    proof {
        assert(vv.take(0) =~= Seq::<Seq<char>>::empty());
    }
    while i < values.len()
        invariant
            i <= values@.len(),
            vv.len() == values@.len(),
            vv == values@.map(|q: int, s: String| s@),
            out@ == spec_join_tabs(vv.take(i as int)),
        decreases values@.len() - i,
    {
        proof {
            assert(vv[i as int] == values@[i as int]@);
            assert(vv.take(i as int + 1).drop_last() =~= vv.take(i as int));
            assert(vv.take(i as int + 1).last() == vv[i as int]);
        }
        if i > 0 {
            out.push('\t');
        }
        let sc = str_to_chars(values[i].as_str());
        append_chars(&mut out, &sc);
        proof {
            assert(out@ =~= spec_join_tabs(vv.take(i as int + 1)));
        }
        i = i + 1;
    }
    proof {
        assert(vv.take(vv.len() as int) =~= vv);
    }
    chars_to_string(&out)
}

/// Values joined by single tabs.
pub open spec fn spec_join_tabs(vals: Seq<Seq<char>>) -> Seq<char>
    decreases vals.len(),
{
    if vals.len() == 0 {
        Seq::empty()
    } else if vals.len() == 1 {
        vals[0]
    } else {
        spec_join_tabs(vals.drop_last()) + seq!['\t'] + vals.last()
    }
}

} // verus!
