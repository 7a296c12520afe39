//! The virtual path space: forward-slash paths, relative only. Absolute
//! paths are rejected at the boundary; everything else is plain string
//! logic over path segments.

use vstd::prelude::*;
use crate::LibError;
use crate::chars::{chars_eq_str, chars_to_string, str_to_chars};

verus! {

/// Whether the path is absolute: it starts with a separator.
pub open spec fn spec_is_absolute(s: Seq<char>) -> bool {
    s.len() > 0 && s[0] == '/'
}

/// Rejects absolute paths: the path space handed to scripts is virtual and
/// relative.
pub fn check_relative(path: &str) -> (r: Result<(), LibError>)
    ensures
        r is Ok <==> !spec_is_absolute(path@),
        r is Err ==> r == Err::<(), LibError>(LibError::AbsolutePath),
{
    let cv = str_to_chars(path);
    if cv.len() > 0 && cv[0] == '/' {
        Err(LibError::AbsolutePath)
    } else {
        Ok(())
    }
}

/// The length of the leading run of non-separator characters.
pub open spec fn seg_run_len(s: Seq<char>) -> int
    decreases s.len(),
{
    if s.len() == 0 || s[0] == '/' {
        0
    } else {
        1 + seg_run_len(s.drop_first())
    }
}

proof fn lemma_seg_run_len_bounds(s: Seq<char>)
    ensures
        0 <= seg_run_len(s) <= s.len(),
    decreases s.len(),
{
    if s.len() > 0 && s[0] != '/' {
        lemma_seg_run_len_bounds(s.drop_first());
    }
}

proof fn lemma_seg_run_len_is(s: Seq<char>, k: int)
    requires
        0 <= k <= s.len(),
        forall|m: int| 0 <= m < k ==> s[m] != '/',
        k == s.len() || s[k] == '/',
    ensures
        seg_run_len(s) == k,
    decreases k,
{
    if k > 0 {
        lemma_seg_run_len_is(s.drop_first(), k - 1);
    }
}

/// The segments of a path, in order: the non-empty pieces between
/// separators, with current-directory pieces normalized away.
pub open spec fn segments(s: Seq<char>) -> Seq<Seq<char>>
    decreases s.len(),
    via segments_decreases
{
    if s.len() == 0 {
        Seq::empty()
    } else if s[0] == '/' {
        segments(s.drop_first())
    } else {
        (if s.take(seg_run_len(s)) == "."@ {
            Seq::<Seq<char>>::empty()
        } else {
            seq![s.take(seg_run_len(s))]
        }) + segments(s.skip(seg_run_len(s)))
    }
}

#[via_fn]
proof fn segments_decreases(s: Seq<char>) {
    if s.len() > 0 && s[0] != '/' {
        lemma_seg_run_len_bounds(s.drop_first());
        lemma_seg_run_len_bounds(s);
    }
}

/// The path text of a segment list: the segments joined by separators.
pub open spec fn joined(segs: Seq<Seq<char>>) -> Seq<char>
    decreases segs.len(),
{
    if segs.len() == 0 {
        Seq::empty()
    } else if segs.len() == 1 {
        segs[0]
    } else {
        joined(segs.drop_last()) + seq!['/'] + segs.last()
    }
}

/// Splits a path into its non-empty segments.
#[verifier::loop_isolation(false)]
pub fn split_path(path: &str) -> (r: Vec<String>)
    ensures
        r@.map(|i: int, s: String| s@) == segments(path@),
{
    let cv = str_to_chars(path);
    let segs = split_segments(&cv);
    let mut r: Vec<String> = Vec::new();
    let mut w: usize = 0;
    while w < segs.len()
        invariant
            w <= segs@.len(),
            r@.len() == w as int,
            forall|m: int| 0 <= m < w ==> (#[trigger] r@[m])@ == segs@[m]@,
        decreases segs@.len() - w,
    {
        r.push(chars_to_string(&segs[w]));
        w = w + 1;
    }
    proof {
        assert(r@.map(|i: int, s: String| s@) =~= segs@.map(|q: int, t: Vec<char>| t@));
    }
    r
}

/// Splits a character path into its non-empty segments.
#[verifier::loop_isolation(false)]
fn split_segments(cv: &Vec<char>) -> (r: Vec<Vec<char>>)
    ensures
        r@.map(|q: int, t: Vec<char>| t@) == segments(cv@),
{
    let n = cv.len();
    let ghost cs = cv@;
    let mut runs: Vec<Vec<char>> = Vec::new();
    let mut i: usize = 0;
    proof {
        assert(cs.skip(0) =~= cs);
        assert(runs@.map(|q: int, t: Vec<char>| t@) + segments(cs.skip(0)) =~= segments(cs));
    }
    while i < n
        invariant
            i <= n,
            n as int == cs.len(),
            cs == cv@,
            runs@.map(|q: int, t: Vec<char>| t@) + segments(cs.skip(i as int)) == segments(cs),
        decreases n - i,
    {
        if cv[i] == '/' {
            proof {
                assert(cs.skip(i as int).drop_first() =~= cs.skip(i as int + 1));
            }
            i = i + 1;
        } else {
            let mut j = i + 1;
            while j < n && cv[j] != '/'
                invariant
                    i < j <= n,
                    forall|m: int| i <= m < j ==> cs[m] != '/',
                decreases n - j,
            {
                j = j + 1;
            }
            let ghost suf = cs.skip(i as int);
            proof {
                lemma_seg_run_len_is(suf, j - i);
                assert(suf.take(j - i) =~= cs.subrange(i as int, j as int));
                assert(suf.skip(j - i) =~= cs.skip(j as int));
            }
            let mut tok: Vec<char> = Vec::new();
            let mut m = i;
            while m < j
                invariant
                    i <= m <= j,
                    j <= n,
                    tok@ == cs.subrange(i as int, m as int),
                decreases j - m,
            {
                tok.push(cv[m]);
                proof {
                    assert(tok@ =~= cs.subrange(i as int, m as int + 1));
                }
                m = m + 1;
            }
            let ghost rv_old = runs@.map(|q: int, t: Vec<char>| t@);
            let ghost tokv = cs.subrange(i as int, j as int);
            if chars_eq_str(&tok, ".") {
                proof {
                    assert(segments(suf) == Seq::<Seq<char>>::empty() + segments(
                        cs.skip(j as int),
                    ));
                    assert(rv_old + segments(cs.skip(j as int)) =~= rv_old + segments(suf));
                }
            } else {
                runs.push(tok);
                proof {
                    assert(runs@.map(|q: int, t: Vec<char>| t@) =~= rv_old.push(tokv));
                    assert(segments(suf) == seq![tokv] + segments(cs.skip(j as int)));
                    assert(rv_old.push(tokv) + segments(cs.skip(j as int)) =~= rv_old + (seq![tokv]
                        + segments(cs.skip(j as int))));
                    assert(rv_old + (seq![tokv] + segments(cs.skip(j as int))) =~= rv_old
                        + segments(suf));
                }
            }
            i = j;
        }
    }
    proof {
        assert(cs.skip(n as int) =~= Seq::<char>::empty());
        assert(runs@.map(|q: int, t: Vec<char>| t@) + Seq::<Seq<char>>::empty() =~= runs@.map(
            |q: int, t: Vec<char>| t@,
        ));
    }
    runs
}

/// Joins segments back into path text.
#[verifier::loop_isolation(false)]
fn join_segments(segs: &Vec<Vec<char>>) -> (r: Vec<char>)
    ensures
        r@ == joined(segs@.map(|q: int, t: Vec<char>| t@)),
{
    let ghost sv = segs@.map(|q: int, t: Vec<char>| t@);
    let mut out: Vec<char> = Vec::new();
    let mut i: usize = 0;
    while i < segs.len()
        invariant
            i <= segs@.len(),
            sv.len() == segs@.len(),
            sv == segs@.map(|q: int, t: Vec<char>| t@),
            out@ == joined(sv.take(i as int)),
        decreases segs@.len() - i,
    {
        proof {
            assert(sv[i as int] == segs@[i as int]@);
        }
        if i > 0 {
            out.push('/');
        }
        crate::chars::append_chars(&mut out, &segs[i]);
        proof {
            let t1 = sv.take(i as int + 1);
            assert(t1.drop_last() =~= sv.take(i as int));
            assert(t1.last() == sv[i as int]);
            if i == 0 {
                assert(t1.len() == 1);
                assert(out@ =~= joined(t1));
            } else {
                assert(out@ =~= joined(t1));
            }
        }
        i = i + 1;
    }
    proof {
        assert(sv.take(sv.len() as int) =~= sv);
    }
    out
}

/// The last segment of a path, when it is a real name rather than a
/// relative component.
pub open spec fn spec_basename(s: Seq<char>) -> Option<Seq<char>> {
    let segs = segments(s);
    if segs.len() == 0 {
        None
    } else if segs.last() == ".."@ {
        None
    } else {
        Some(segs.last())
    }
}

/// The file name of the path: its last segment. A path ending in a
/// relative component has none and faults.
pub fn basename(path: &str) -> (r: Result<String, LibError>)
    ensures
        match spec_basename(path@) {
            Some(name) => r matches Ok(s) && s@ == name,
            None => r == Err::<String, LibError>(LibError::BadPathComponent),
        },
{
    let cv = str_to_chars(path);
    let segs = split_segments(&cv);
    if segs.len() == 0 {
        return Err(LibError::BadPathComponent);
    }
    let last = &segs[segs.len() - 1];
    proof {
        assert(segments(path@).last() == segs@[segs@.len() - 1]@);
    }
    if chars_eq_str(last, "..") {
        return Err(LibError::BadPathComponent);
    }
    Ok(chars_to_string(last))
}

/// The parent of the path: everything before the last segment, possibly
/// empty. An empty path has no parent and faults.
pub fn dirname(path: &str) -> (r: Result<String, LibError>)
    ensures
        segments(path@).len() == 0 ==> r == Err::<String, LibError>(LibError::NoParentDir),
        segments(path@).len() > 0 ==> (r matches Ok(s) && s@ == joined(
            segments(path@).drop_last(),
        )),
{
    let cv = str_to_chars(path);
    let mut segs = split_segments(&cv);
    if segs.len() == 0 {
        return Err(LibError::NoParentDir);
    }
    let ghost sv = segs@.map(|q: int, t: Vec<char>| t@);
    segs.pop();
    proof {
        assert(segs@.map(|q: int, t: Vec<char>| t@) =~= sv.drop_last());
    }
    let out = join_segments(&segs);
    Ok(chars_to_string(&out))
}

/// One step of path joining: a current-directory component is skipped, a
/// parent component pops the last segment (or accumulates when there is
/// nothing left to pop), and a normal component is appended.
pub open spec fn join_step(acc: Seq<Seq<char>>, comp: Seq<char>) -> Seq<Seq<char>> {
    if comp == "."@ {
        acc
    } else if comp == ".."@ {
        if acc.len() > 0 {
            acc.drop_last()
        } else {
            acc.push(comp)
        }
    } else {
        acc.push(comp)
    }
}

/// Path joining folded over the appended path's components.
pub open spec fn join_all(acc: Seq<Seq<char>>, comps: Seq<Seq<char>>) -> Seq<Seq<char>>
    decreases comps.len(),
{
    if comps.len() == 0 {
        acc
    } else {
        join_step(join_all(acc, comps.drop_last()), comps.last())
    }
}

/// Appends path `b` onto path `a` segment by segment, resolving `.` and
/// `..` components as it goes.
#[verifier::loop_isolation(false)]
pub fn join_path(a: &str, b: &str) -> (r: String)
    ensures
        r@ == joined(join_all(segments(a@), segments(b@))),
{
    let av = str_to_chars(a);
    let bv = str_to_chars(b);
    let mut acc = split_segments(&av);
    let bsegs = split_segments(&bv);
    let ghost bsv = bsegs@.map(|q: int, t: Vec<char>| t@);
    let mut i: usize = 0;
    proof {
        assert(bsv.take(0) =~= Seq::<Seq<char>>::empty());
    }
    while i < bsegs.len()
        invariant
            i <= bsegs@.len(),
            bsv.len() == bsegs@.len(),
            bsv == bsegs@.map(|q: int, t: Vec<char>| t@),
            acc@.map(|q: int, t: Vec<char>| t@) == join_all(segments(a@), bsv.take(i as int)),
        decreases bsegs@.len() - i,
    {
        let ghost accv = acc@.map(|q: int, t: Vec<char>| t@);
        proof {
            assert(bsv[i as int] == bsegs@[i as int]@);
            assert(bsv.take(i as int + 1).drop_last() =~= bsv.take(i as int));
            assert(bsv.take(i as int + 1).last() == bsv[i as int]);
        }
        let comp = &bsegs[i];
        if chars_eq_str(comp, ".") {
        } else if chars_eq_str(comp, "..") {
            if acc.len() > 0 {
                acc.pop();
                proof {
                    assert(acc@.map(|q: int, t: Vec<char>| t@) =~= accv.drop_last());
                }
            } else {
                acc.push(crate::chars::clone_chars(comp));
                proof {
                    assert(acc@.map(|q: int, t: Vec<char>| t@) =~= accv.push(bsv[i as int]));
                }
            }
        } else {
            acc.push(crate::chars::clone_chars(comp));
            proof {
                assert(acc@.map(|q: int, t: Vec<char>| t@) =~= accv.push(bsv[i as int]));
            }
        }
        i = i + 1;
    }
    proof {
        assert(bsv.take(bsv.len() as int) =~= bsv);
    }
    let out = join_segments(&acc);
    chars_to_string(&out)
}

/// The position after the last dot of a name, when a dot separates a
/// non-empty stem from an extension.
pub open spec fn last_dot(name: Seq<char>) -> Option<int> {
    if exists|p: int| 0 < p < name.len() && name[p] == '.' {
        Some(choose|p: int| 0 < p < name.len() && name[p] == '.' && (forall|q: int| p < q < name.len() ==> name[q] != '.'))
    } else {
        None
    }
}

/// The extension of the path's file name: the part after the last dot,
/// when a dot follows a non-empty stem.
pub fn get_extension(path: &str) -> (r: Result<Option<String>, LibError>)
    ensures
        spec_basename(path@) is None ==> r == Err::<Option<String>, LibError>(
            LibError::BadPathComponent,
        ),
        spec_basename(path@) matches Some(name) ==> match last_dot(name) {
            Some(p) => r matches Ok(Some(s)) && s@ == name.skip(p + 1),
            None => r == Ok::<Option<String>, LibError>(None),
        },
{
    let name = match basename(path) {
        Ok(n) => n,
        Err(e) => {
            return Err(e);
        },
    };
    let nv = str_to_chars(name.as_str());
    let ghost ns = nv@;
    let mut best: usize = 0;
    let mut found = false;
    let mut i: usize = 1;
    while i < nv.len()
        invariant
            1 <= i || nv@.len() == 0,
            i <= nv@.len() || nv@.len() == 0,
            ns == nv@,
            found ==> 0 < best as int && (best as int) < ns.len() && ns[best as int] == '.',
            found ==> forall|q: int| best < q < i ==> ns[q] != '.',
            !found ==> forall|q: int| 0 < q < i ==> ns[q] != '.',
        decreases nv@.len() - i,
    {
        if nv[i] == '.' {
            best = i;
            found = true;
        }
        i = i + 1;
    }
    if !found {
        proof {
            if exists|p: int| 0 < p < ns.len() && ns[p] == '.' {
                let p = choose|p: int| 0 < p < ns.len() && ns[p] == '.';
                assert(false);
            }
        }
        return Ok(None);
    }
    proof {
        assert(last_dot(ns) == Some(best as int)) by {
            assert(0 < best as int && (best as int) < ns.len() && ns[best as int] == '.' && (
            forall|q: int| best < q < ns.len() ==> ns[q] != '.'));
            let p = choose|p: int|
                0 < p < ns.len() && ns[p] == '.' && (forall|q: int|
                    p < q < ns.len() ==> ns[q] != '.');
            if p != best as int {
                if p < best as int {
                    assert(ns[best as int] != '.');
                } else {
                    assert(ns[p] != '.');
                }
            }
        }
    }
    let mut ext: Vec<char> = Vec::new();
    let mut k = best + 1;
    while k < nv.len()
        invariant
            best < k <= nv@.len(),
            ns == nv@,
            ext@ == ns.subrange(best as int + 1, k as int),
        decreases nv@.len() - k,
    {
        ext.push(nv[k]);
        proof {
            assert(ext@ =~= ns.subrange(best as int + 1, k as int + 1));
        }
        k = k + 1;
    }
    proof {
        assert(ns.subrange(best as int + 1, ns.len() as int) =~= ns.skip(best as int + 1));
    }
    Ok(Some(chars_to_string(&ext)))
}


/// The length of the leading run of non-dot characters.
pub open spec fn dot_run_len(s: Seq<char>) -> int
    decreases s.len(),
{
    if s.len() == 0 || s[0] == '.' {
        0
    } else {
        1 + dot_run_len(s.drop_first())
    }
}

proof fn lemma_dot_run_len_bounds(s: Seq<char>)
    ensures
        0 <= dot_run_len(s) <= s.len(),
    decreases s.len(),
{
    if s.len() > 0 && s[0] != '.' {
        lemma_dot_run_len_bounds(s.drop_first());
    }
}

proof fn lemma_dot_run_len_is(s: Seq<char>, k: int)
    requires
        0 <= k <= s.len(),
        forall|m: int| 0 <= m < k ==> s[m] != '.',
        k == s.len() || s[k] == '.',
    ensures
        dot_run_len(s) == k,
    decreases k,
{
    if k > 0 {
        lemma_dot_run_len_is(s.drop_first(), k - 1);
    }
}

/// The pieces of a name between its dots, empty pieces kept: the stem
/// first, then each extension in turn.
pub open spec fn dot_pieces(s: Seq<char>) -> Seq<Seq<char>>
    decreases s.len(),
    via dot_pieces_decreases
{
    let k = dot_run_len(s);
    if k >= s.len() {
        seq![s]
    } else {
        seq![s.take(k)] + dot_pieces(s.skip(k + 1))
    }
}

#[via_fn]
proof fn dot_pieces_decreases(s: Seq<char>) {
    lemma_dot_run_len_bounds(s);
}

/// Splits a name on its dots, empty pieces kept.
#[verifier::loop_isolation(false)]
fn split_dots(cv: &Vec<char>) -> (r: Vec<Vec<char>>)
    ensures
        r@.map(|q: int, t: Vec<char>| t@) == dot_pieces(cv@),
{
    let n = cv.len();
    let ghost cs = cv@;
    let mut pieces: Vec<Vec<char>> = Vec::new();
    let mut i: usize = 0;
    let mut tok: Vec<char> = Vec::new();
    proof {
        assert(cs.skip(0) =~= cs);
    }
    while i < n
        invariant
            i <= n,
            n as int == cs.len(),
            cs == cv@,
            tok@.len() <= i as int,
            tok@ == cs.subrange(i - tok@.len(), i as int),
            forall|m: int| i - tok@.len() <= m < i ==> cs[m] != '.',
            pieces@.map(|q: int, t: Vec<char>| t@) + dot_pieces(cs.skip(i - tok@.len()))
                =~= dot_pieces(cs) || pieces@.map(|q: int, t: Vec<char>| t@) + dot_pieces(
                cs.skip(i - tok@.len()),
            ) == dot_pieces(cs),
        decreases n - i,
    {
        if cv[i] == '.' {
            let ghost start = i - tok@.len();
            let ghost suf = cs.skip(start);
            proof {
                lemma_dot_run_len_is(suf, tok@.len() as int);
                assert(suf.take(tok@.len() as int) =~= tok@);
                assert(suf.skip(tok@.len() as int + 1) =~= cs.skip(i as int + 1));
                assert(dot_pieces(suf) == seq![tok@] + dot_pieces(cs.skip(i as int + 1)));
            }
            let ghost pv_old = pieces@.map(|q: int, t: Vec<char>| t@);
            pieces.push(tok);
            tok = Vec::new();
            proof {
                assert(pieces@.map(|q: int, t: Vec<char>| t@) =~= pv_old.push(suf.take(
                    dot_run_len(suf),
                )));
                assert(pieces@.map(|q: int, t: Vec<char>| t@) + dot_pieces(cs.skip(i as int + 1))
                    =~= pv_old + dot_pieces(suf));
                assert(tok@ =~= cs.subrange(i as int + 1, i as int + 1));
            }
            i = i + 1;
        } else {
            tok.push(cv[i]);
            proof {
                assert(tok@ =~= cs.subrange(i + 1 - tok@.len(), i as int + 1));
            }
            i = i + 1;
        }
    }
    let ghost start = i - tok@.len();
    let ghost suf = cs.skip(start);
    proof {
        lemma_dot_run_len_is(suf, tok@.len() as int);
        assert(suf.take(dot_run_len(suf)) =~= tok@);
        assert(suf =~= tok@);
        assert(dot_pieces(suf) == seq![tok@]);
    }
    let ghost pv_old = pieces@.map(|q: int, t: Vec<char>| t@);
    pieces.push(tok);
    proof {
        assert(pieces@.map(|q: int, t: Vec<char>| t@) =~= pv_old.push(suf));
        assert(pieces@.map(|q: int, t: Vec<char>| t@) =~= dot_pieces(cs));
    }
    pieces
}

/// The extensions of the path's file name: every dot-separated piece after
/// the stem, in order.
pub fn get_extensions(path: &str) -> (r: Result<Vec<String>, LibError>)
    ensures
        spec_basename(path@) is None ==> r == Err::<Vec<String>, LibError>(
            LibError::BadPathComponent,
        ),
        spec_basename(path@) matches Some(name) ==> (r matches Ok(v) && v@.map(
            |q: int, s: String| s@,
        ) == dot_pieces(name).drop_first()),
{
    let name = match basename(path) {
        Ok(n) => n,
        Err(e) => {
            return Err(e);
        },
    };
    let nv = str_to_chars(name.as_str());
    let pieces = split_dots(&nv);
    let ghost pv = pieces@.map(|q: int, t: Vec<char>| t@);
    let mut r: Vec<String> = Vec::new();
    let mut w: usize = 1;
    proof {
        assert(pv.len() >= 1) by {
            lemma_dot_run_len_bounds(nv@);
        }
    }
    while w < pieces.len()
        invariant
            1 <= w <= pieces@.len(),
            pv.len() == pieces@.len(),
            pv == pieces@.map(|q: int, t: Vec<char>| t@),
            r@.len() == w - 1,
            forall|m: int| 0 <= m < w - 1 ==> (#[trigger] r@[m])@ == pv[m + 1],
        decreases pieces@.len() - w,
    {
        proof {
            assert(pv[w as int] == pieces@[w as int]@);
        }
        r.push(chars_to_string(&pieces[w]));
        w = w + 1;
    }
    proof {
        assert(r@.map(|q: int, s: String| s@) =~= pv.drop_first());
    }
    Ok(r)
}

/// Whether any extension of the path's file name equals `extension`.
#[verifier::loop_isolation(false)]
pub fn has_extension(path: &str, extension: &str) -> (r: Result<bool, LibError>)
    ensures
        spec_basename(path@) is None ==> r == Err::<bool, LibError>(LibError::BadPathComponent),
        spec_basename(path@) matches Some(name) ==> r == Ok::<bool, LibError>(
            dot_pieces(name).drop_first().contains(extension@),
        ),
{
    let exts = match get_extensions(path) {
        Ok(v) => v,
        Err(e) => {
            return Err(e);
        },
    };
    let ghost ev = exts@.map(|q: int, s: String| s@);
    let target = str_to_chars(extension);
    let mut i: usize = 0;
    while i < exts.len()
        invariant
            i <= exts@.len(),
            ev.len() == exts@.len(),
            ev == exts@.map(|q: int, s: String| s@),
            target@ == extension@,
            forall|m: int| 0 <= m < i ==> (#[trigger] ev[m]) != extension@,
        decreases exts@.len() - i,
    {
        proof {
            assert(ev[i as int] == exts@[i as int]@);
        }
        let sc = str_to_chars(exts[i].as_str());
        if crate::chars::chars_eq(&sc, &target) {
            proof {
                assert(ev.contains(extension@));
            }
            return Ok(true);
        }
        i = i + 1;
    }
    proof {
        if ev.contains(extension@) {
            let m = choose|m: int| 0 <= m < ev.len() && ev[m] == extension@;
            assert(false);
        }
    }
    Ok(false)
}


/// Picks the last dot strictly inside the prefix of length `k`.
proof fn lemma_max_dot(name: Seq<char>, k: int) -> (p: int)
    requires
        0 < k <= name.len(),
        exists|q: int| 0 < q < k && name[q] == '.',
    ensures
        0 < p < k,
        name[p] == '.',
        forall|q: int| p < q < k ==> name[q] != '.',
    decreases k,
{
    if k - 1 > 0 && name[k - 1] == '.' {
        k - 1
    } else {
        let q0 = choose|q: int| 0 < q < k && name[q] == '.';
        assert(q0 < k - 1);
        let p = lemma_max_dot(name, k - 1);
        p
    }
}

/// What the position behind `last_dot` satisfies: it is a dot inside the
/// name with no later dot.
proof fn lemma_last_dot_props(name: Seq<char>)
    requires
        last_dot(name) is Some,
    ensures
        ({
            let p = last_dot(name)->0;
            &&& 0 < p < name.len()
            &&& name[p] == '.'
            &&& forall|q: int| p < q < name.len() ==> name[q] != '.'
        }),
{
    let pm = lemma_max_dot(name, name.len() as int);
    assert(0 < pm < name.len() && name[pm] == '.' && (forall|q: int|
        pm < q < name.len() ==> name[q] != '.'));
}

/// The file name without its last extension: everything before the last
/// dot when a dot follows a non-empty stem, the whole name otherwise.
pub open spec fn spec_stem(name: Seq<char>) -> Seq<char> {
    match last_dot(name) {
        Some(p) => name.take(p),
        None => name,
    }
}

/// The path with its file name's last extension removed. A path without a
/// real file name faults.
pub fn strip_extension(path: &str) -> (r: Result<String, LibError>)
    ensures
        spec_basename(path@) is None ==> r == Err::<String, LibError>(LibError::BadPathComponent),
        spec_basename(path@) matches Some(name) ==> (r matches Ok(s) && s@ == joined(
            segments(path@).drop_last().push(spec_stem(name)),
        )),
{
    let stem = match get_extension(path) {
        Err(e) => {
            return Err(e);
        },
        Ok(ext) => {
            let name = match basename(path) {
                Ok(n) => n,
                Err(e) => {
                    return Err(e);
                },
            };
            let nv = str_to_chars(name.as_str());
            match ext {
                None => nv,
                Some(e) => {
                    let ev = str_to_chars(e.as_str());
                    proof {
                        assert(spec_basename(path@) is Some);
                        assert(nv@ == spec_basename(path@)->0);
                        assert(last_dot(nv@) is Some);
                        lemma_last_dot_props(nv@);
                        let p = last_dot(nv@)->0;
                        assert(ev@ == nv@.skip(p + 1));
                        assert(nv@.len() >= ev@.len() + 1);
                    }
                    let keep = nv.len() - ev.len() - 1;
                    let mut out: Vec<char> = Vec::new();
                    let mut m: usize = 0;
                    proof {
                        let p = last_dot(nv@)->0;
                        assert(ev@ == nv@.skip(p + 1));
                        assert(keep as int == p);
                    }
                    while m < keep
                        invariant
                            m <= keep,
                            keep as int <= nv@.len(),
                            out@ == nv@.subrange(0, m as int),
                        decreases keep - m,
                    {
                        out.push(nv[m]);
                        proof {
                            assert(out@ =~= nv@.subrange(0, m as int + 1));
                        }
                        m = m + 1;
                    }
                    proof {
                        assert(out@ =~= nv@.take(keep as int));
                    }
                    out
                },
            }
        },
    };
    rebuild_with_name(path, stem)
}

/// The path with every extension of its file name removed: the stem is the
/// part of the name before its first dot. A path without a real file name
/// faults.
pub fn strip_all_extensions(path: &str) -> (r: Result<String, LibError>)
    ensures
        spec_basename(path@) is None ==> r == Err::<String, LibError>(LibError::BadPathComponent),
        spec_basename(path@) matches Some(name) ==> (r matches Ok(s) && s@ == joined(
            segments(path@).drop_last().push(dot_pieces(name)[0]),
        )),
{
    let name = match basename(path) {
        Ok(n) => n,
        Err(e) => {
            return Err(e);
        },
    };
    let nv = str_to_chars(name.as_str());
    let pieces = split_dots(&nv);
    proof {
        assert(pieces@.map(|q: int, t: Vec<char>| t@).len() >= 1) by {
            lemma_dot_run_len_bounds(nv@);
        }
        assert(pieces@[0]@ == dot_pieces(nv@)[0]);
    }
    let stem = crate::chars::clone_chars(&pieces[0]);
    rebuild_with_name(path, stem)
}

/// The path with its file name replaced by `name`.
#[verifier::loop_isolation(false)]
fn rebuild_with_name(path: &str, name: Vec<char>) -> (r: Result<String, LibError>)
    ensures
        segments(path@).len() == 0 ==> r == Err::<String, LibError>(LibError::BadPathComponent),
        segments(path@).len() > 0 ==> (r matches Ok(s) && s@ == joined(
            segments(path@).drop_last().push(name@),
        )),
{
    let cv = str_to_chars(path);
    let mut segs = split_segments(&cv);
    if segs.len() == 0 {
        return Err(LibError::BadPathComponent);
    }
    let ghost sv = segs@.map(|q: int, t: Vec<char>| t@);
    segs.pop();
    segs.push(name);
    proof {
        assert(segs@.map(|q: int, t: Vec<char>| t@) =~= sv.drop_last().push(name@));
    }
    let out = join_segments(&segs);
    Ok(chars_to_string(&out))
}

} // verus!
