//! Text helpers behind the script-visible string and class surfaces.

use vstd::prelude::*;
use crate::LibError;
use crate::chars::{chars_eq, chars_to_string, str_to_chars};

verus! {

/// The whitespace characters that separate class names in a `class`
/// attribute.
pub open spec fn sel_ws(c: char) -> bool {
    c == ' ' || c == '\t' || c == '\n' || c == '\r' || c == '\u{c}'
}

/// Executable whitespace test.
pub fn sel_ws_exec(c: char) -> (r: bool)
    ensures
        r == sel_ws(c),
{
    c == ' ' || c == '\t' || c == '\n' || c == '\r' || c == '\u{c}'
}

/// The length of the leading run of non-whitespace characters.
pub open spec fn run_len(s: Seq<char>) -> int
    decreases s.len(),
{
    if s.len() == 0 || sel_ws(s[0]) {
        0
    } else {
        1 + run_len(s.drop_first())
    }
}

proof fn lemma_run_len_bounds(s: Seq<char>)
    ensures
        0 <= run_len(s) <= s.len(),
    decreases s.len(),
{
    if s.len() > 0 && !sel_ws(s[0]) {
        lemma_run_len_bounds(s.drop_first());
    }
}

/// `run_len` finds exactly the boundary of the leading run.
proof fn lemma_run_len_is(s: Seq<char>, k: int)
    requires
        0 <= k <= s.len(),
        forall|m: int| 0 <= m < k ==> !sel_ws(s[m]),
        k == s.len() || sel_ws(s[k]),
    ensures
        run_len(s) == k,
    decreases k,
{
    if k == 0 {
    } else {
        assert(!sel_ws(s[0]));
        lemma_run_len_is(s.drop_first(), k - 1);
    }
}

/// The maximal non-whitespace runs of `s`, in order.
pub open spec fn split_runs(s: Seq<char>) -> Seq<Seq<char>>
    decreases s.len(),
    via split_runs_decreases
{
    if s.len() == 0 {
        Seq::empty()
    } else if sel_ws(s[0]) {
        split_runs(s.drop_first())
    } else {
        seq![s.take(run_len(s))] + split_runs(s.skip(run_len(s)))
    }
}

#[via_fn]
proof fn split_runs_decreases(s: Seq<char>) {
    if s.len() > 0 && !sel_ws(s[0]) {
        lemma_run_len_bounds(s.drop_first());
        lemma_run_len_bounds(s);
    }
}

/// The tokens with later repetitions of an earlier token removed.
pub open spec fn dedup_tokens(toks: Seq<Seq<char>>) -> Seq<Seq<char>>
    decreases toks.len(),
{
    if toks.len() == 0 {
        Seq::empty()
    } else {
        let rest = dedup_tokens(toks.drop_last());
        if toks.drop_last().contains(toks.last()) {
            rest
        } else {
            rest.push(toks.last())
        }
    }
}

/// Removing repetitions keeps exactly the members.
pub proof fn lemma_dedup_mem(toks: Seq<Seq<char>>, x: Seq<char>)
    ensures
        dedup_tokens(toks).contains(x) <==> toks.contains(x),
    decreases toks.len(),
{
    if toks.len() == 0 {
        assert(!dedup_tokens(toks).contains(x));
        assert(!toks.contains(x));
    } else {
        let tl = toks.drop_last();
        let last = toks.last();
        lemma_dedup_mem(tl, x);
        let rest = dedup_tokens(tl);
        if toks.contains(x) {
            let k = choose|k: int| 0 <= k < toks.len() && toks[k] == x;
            if k < toks.len() - 1 {
                assert(tl[k] == x);
                assert(tl.contains(x));
                if tl.contains(last) {
                } else {
                    let m = choose|m: int| 0 <= m < rest.len() && rest[m] == x;
                    assert(rest.push(last)[m] == x);
                    assert(rest.push(last).contains(x));
                }
            } else {
                assert(x == last);
                if tl.contains(last) {
                } else {
                    assert(rest.push(last)[rest.len() as int] == x);
                    assert(rest.push(last).contains(x));
                }
            }
        }
        if dedup_tokens(toks).contains(x) {
            if tl.contains(last) {
                assert(rest.contains(x));
                assert(tl.contains(x));
                let m = choose|m: int| 0 <= m < tl.len() && tl[m] == x;
                assert(toks[m] == x);
                assert(toks.contains(x));
            } else {
                let m = choose|m: int|
                    0 <= m < rest.push(last).len() && rest.push(last)[m] == x;
                if m < rest.len() {
                    assert(rest[m] == x);
                    assert(rest.contains(x));
                    assert(tl.contains(x));
                    let w = choose|w: int| 0 <= w < tl.len() && tl[w] == x;
                    assert(toks[w] == x);
                } else {
                    assert(x == last);
                    assert(toks[toks.len() - 1] == x);
                }
                assert(toks.contains(x));
            }
        }
    }
}

/// The Unicode White_Space characters: what full trimming removes from a
/// token's edges.
pub open spec fn unicode_ws(c: char) -> bool {
    ||| (9 <= c as u32 && c as u32 <= 13)
    ||| c == ' '
    ||| c as u32 == 0x85
    ||| c as u32 == 0xa0
    ||| c as u32 == 0x1680
    ||| (0x2000 <= c as u32 && c as u32 <= 0x200a)
    ||| c as u32 == 0x2028
    ||| c as u32 == 0x2029
    ||| c as u32 == 0x202f
    ||| c as u32 == 0x205f
    ||| c as u32 == 0x3000
}

/// Executable White_Space test.
pub fn unicode_ws_exec(c: char) -> (r: bool)
    ensures
        r == unicode_ws(c),
{
    let v = c as u32;
    (9 <= v && v <= 13) || v == 0x20 || v == 0x85 || v == 0xa0 || v == 0x1680 || (0x2000 <= v && v
        <= 0x200a) || v == 0x2028 || v == 0x2029 || v == 0x202f || v == 0x205f || v == 0x3000
}

/// The token without White_Space characters at its edges.
pub open spec fn trim_uws(s: Seq<char>) -> Seq<char>
    decreases s.len(),
{
    if s.len() == 0 {
        s
    } else if unicode_ws(s[0]) {
        trim_uws(s.drop_first())
    } else if unicode_ws(s.last()) {
        trim_uws(s.drop_last())
    } else {
        s
    }
}

/// Strips White_Space from both edges of a token.
#[verifier::loop_isolation(false)]
fn trim_uws_exec(s: &Vec<char>) -> (r: Vec<char>)
    ensures
        r@ == trim_uws(s@),
{
    let mut lo: usize = 0;
    let mut hi: usize = s.len();
    proof {
        assert(s@.subrange(0, s@.len() as int) =~= s@);
    }
    while lo < hi && unicode_ws_exec(s[lo])
        invariant
            lo <= hi <= s@.len(),
            trim_uws(s@) == trim_uws(s@.subrange(lo as int, hi as int)),
        decreases hi - lo,
    {
        proof {
            assert(s@.subrange(lo as int, hi as int).drop_first() =~= s@.subrange(
                lo as int + 1,
                hi as int,
            ));
        }
        lo = lo + 1;
    }
    while lo < hi && unicode_ws_exec(s[hi - 1])
        invariant
            lo <= hi <= s@.len(),
            trim_uws(s@) == trim_uws(s@.subrange(lo as int, hi as int)),
            lo < hi ==> !unicode_ws(s@[lo as int]),
        decreases hi - lo,
    {
        proof {
            assert(s@.subrange(lo as int, hi as int).drop_last() =~= s@.subrange(
                lo as int,
                hi as int - 1,
            ));
        }
        hi = hi - 1;
    }
    let mut r: Vec<char> = Vec::new();
    let mut i = lo;
    while i < hi
        invariant
            lo <= i <= hi <= s@.len(),
            r@ == s@.subrange(lo as int, i as int),
        decreases hi - i,
    {
        r.push(s[i]);
        proof {
            assert(r@ =~= s@.subrange(lo as int, i as int + 1));
        }
        i = i + 1;
    }
    proof {
        let seg = s@.subrange(lo as int, hi as int);
        assert(trim_uws(seg) == seg) by {
            if seg.len() > 0 {
                assert(seg[0] == s@[lo as int]);
                assert(seg.last() == s@[hi as int - 1]);
            }
        }
    }
    r
}

/// The tokens trimmed of edge whitespace, with those that trim away
/// entirely dropped.
pub open spec fn clean_tokens(toks: Seq<Seq<char>>) -> Seq<Seq<char>>
    decreases toks.len(),
{
    if toks.len() == 0 {
        Seq::empty()
    } else {
        let rest = clean_tokens(toks.drop_last());
        let t = trim_uws(toks.last());
        if t.len() == 0 {
            rest
        } else {
            rest.push(t)
        }
    }
}

/// Collects the class tokens of an attribute value: maximal
/// non-separator runs, each trimmed of White_Space, empties dropped.
#[verifier::loop_isolation(false)]
pub fn class_runs(cv: &Vec<char>) -> (r: Vec<Vec<char>>)
    ensures
        r@.map(|q: int, t: Vec<char>| t@) == clean_tokens(split_runs(cv@)),
{
    let raw = split_ws_runs(cv);
    let ghost rawv = raw@.map(|q: int, t: Vec<char>| t@);
    let mut out: Vec<Vec<char>> = Vec::new();
    let mut k: usize = 0;
    proof {
        assert(rawv.take(0) =~= Seq::<Seq<char>>::empty());
        assert(out@.map(|q: int, t: Vec<char>| t@) =~= clean_tokens(rawv.take(0)));
    }
    while k < raw.len()
        invariant
            k <= raw@.len(),
            rawv.len() == raw@.len(),
            rawv == raw@.map(|q: int, t: Vec<char>| t@),
            out@.map(|q: int, t: Vec<char>| t@) == clean_tokens(rawv.take(k as int)),
        decreases raw@.len() - k,
    {
        proof {
            assert(rawv[k as int] == raw@[k as int]@);
            assert(rawv.take(k as int + 1).drop_last() =~= rawv.take(k as int));
            assert(rawv.take(k as int + 1).last() == rawv[k as int]);
        }
        let t = trim_uws_exec(&raw[k]);
        if t.len() > 0 {
            out.push(t);
        }
        proof {
            assert(out@.map(|q: int, t2: Vec<char>| t2@) =~= clean_tokens(rawv.take(k as int + 1)));
        }
        k = k + 1;
    }
    proof {
        assert(rawv.take(rawv.len() as int) =~= rawv);
    }
    out
}

/// The distinct class names of a `class` attribute value: its maximal
/// non-separator runs, trimmed of edge whitespace, empties dropped, first
/// occurrence kept, in order.
pub open spec fn spec_split_classes(s: Seq<char>) -> Seq<Seq<char>> {
    dedup_tokens(clean_tokens(split_runs(s)))
}

/// Collects the maximal non-whitespace runs of the characters.
#[verifier::loop_isolation(false)]
pub fn split_ws_runs(cv: &Vec<char>) -> (runs: Vec<Vec<char>>)
    ensures
        runs@.map(|q: int, t: Vec<char>| t@) == split_runs(cv@),
{
    let n = cv.len();
    let ghost cs = cv@;
    let mut runs: Vec<Vec<char>> = Vec::new();
    let mut i: usize = 0;
    proof {
        assert(cs.skip(0) =~= cs);
        assert(runs@.map(|q: int, t: Vec<char>| t@) + split_runs(cs.skip(0)) =~= split_runs(cs));
    }
    while i < n
        invariant
            i <= n,
            n as int == cs.len(),
            cs == cv@,
            runs@.map(|q: int, t: Vec<char>| t@) + split_runs(cs.skip(i as int)) == split_runs(cs),
        decreases n - i,
    {
        if sel_ws_exec(cv[i]) {
            proof {
                assert(cs.skip(i as int).drop_first() =~= cs.skip(i as int + 1));
            }
            i = i + 1;
        } else {
            let mut j = i + 1;
            while j < n && !sel_ws_exec(cv[j])
                invariant
                    i < j <= n,
                    forall|m: int| i <= m < j ==> !sel_ws(cs[m]),
                decreases n - j,
            {
                j = j + 1;
            }
            let ghost suf = cs.skip(i as int);
            proof {
                lemma_run_len_is(suf, j - i);
                assert(suf.take(j - i) =~= cs.subrange(i as int, j as int));
                assert(suf.skip(j - i) =~= cs.skip(j as int));
            }
            let mut tok: Vec<char> = Vec::new();
            let mut m = i;
            while m < j
                invariant
                    i <= m <= j,
                    j <= n,
                    tok@ == cs.subrange(i as int, m as int),
                decreases j - m,
            {
                tok.push(cv[m]);
                proof {
                    assert(tok@ =~= cs.subrange(i as int, m as int + 1));
                }
                m = m + 1;
            }
            let ghost rv_old = runs@.map(|q: int, t: Vec<char>| t@);
            let ghost tokv = cs.subrange(i as int, j as int);
            runs.push(tok);
            proof {
                assert(runs@.map(|q: int, t: Vec<char>| t@) =~= rv_old.push(tokv));
                assert(split_runs(suf) == seq![tokv] + split_runs(cs.skip(j as int)));
                assert(rv_old.push(tokv) + split_runs(cs.skip(j as int)) =~= rv_old + (seq![tokv]
                    + split_runs(cs.skip(j as int))));
                assert(rv_old + (seq![tokv] + split_runs(cs.skip(j as int))) =~= rv_old
                    + split_runs(suf));
            }
            i = j;
        }
    }
    proof {
        assert(cs.skip(n as int) =~= Seq::<char>::empty());
        assert(runs@.map(|q: int, t: Vec<char>| t@) + Seq::<Seq<char>>::empty() =~= runs@.map(
            |q: int, t: Vec<char>| t@,
        ));
    }
    runs
}

/// Splits a `class` attribute value into its distinct class names, in
/// order of first occurrence.
#[verifier::loop_isolation(false)]
pub fn split_classes(input: &str) -> (r: Vec<String>)
    ensures
        r@.map(|i: int, s: String| s@) == spec_split_classes(input@),
{
    let cv = str_to_chars(input);
    let runs = class_runs(&cv);
    let ghost runsv = runs@.map(|q: int, t: Vec<char>| t@);

    // Phase two: keep the first occurrence of each token.
    let mut out: Vec<Vec<char>> = Vec::new();
    let mut k: usize = 0;
    proof {
        assert(runsv.take(0) =~= Seq::<Seq<char>>::empty());
        assert(out@.map(|q: int, t: Vec<char>| t@) =~= dedup_tokens(runsv.take(0)));
    }
    while k < runs.len()
        invariant
            k <= runs@.len(),
            runsv.len() == runs@.len(),
            runsv == runs@.map(|q: int, t: Vec<char>| t@),
            out@.map(|q: int, t: Vec<char>| t@) == dedup_tokens(runsv.take(k as int)),
        decreases runs@.len() - k,
    {
        proof {
            assert(runsv[k as int] == runs@[k as int]@);
            assert(runsv.take(k as int + 1).drop_last() =~= runsv.take(k as int));
            assert(runsv.take(k as int + 1).last() == runsv[k as int]);
        }
        let mut seen = false;
        let mut q: usize = 0;
        while q < out.len() && !seen
            invariant
                q <= out@.len(),
                seen ==> out@.map(|w: int, t: Vec<char>| t@).contains(runsv[k as int]),
                !seen ==> forall|w: int|
                    0 <= w < q ==> (#[trigger] out@[w])@ != runsv[k as int],
            decreases out@.len() - q + (if seen { 0int } else { 1int }),
        {
            if chars_eq(&out[q], &runs[k]) {
                seen = true;
                proof {
                    assert(out@.map(|w: int, t: Vec<char>| t@)[q as int] == runsv[k as int]);
                }
            } else {
                q = q + 1;
            }
        }
        proof {
            let ov = out@.map(|w: int, t: Vec<char>| t@);
            if !seen {
                assert(!ov.contains(runsv[k as int])) by {
                    if ov.contains(runsv[k as int]) {
                        let w = choose|w: int| 0 <= w < ov.len() && ov[w] == runsv[k as int];
                        assert(out@[w]@ == runsv[k as int]);
                    }
                }
            }
            lemma_dedup_mem(runsv.take(k as int), runsv[k as int]);
        }
        if !seen {
            let tok = crate::chars::clone_chars(&runs[k]);
            out.push(tok);
            proof {
                assert(out@.map(|w: int, t: Vec<char>| t@) =~= dedup_tokens(
                    runsv.take(k as int + 1),
                ));
            }
        } else {
            proof {
                assert(out@.map(|w: int, t: Vec<char>| t@) =~= dedup_tokens(
                    runsv.take(k as int + 1),
                ));
            }
        }
        k = k + 1;
    }
    proof {
        assert(runsv.take(runsv.len() as int) =~= runsv);
    }

    // Phase three: hand the names out as strings.
    let mut r: Vec<String> = Vec::new();
    let mut w: usize = 0;
    while w < out.len()
        invariant
            w <= out@.len(),
            r@.len() == w as int,
            forall|m: int| 0 <= m < w ==> (#[trigger] r@[m])@ == out@[m]@,
        decreases out@.len() - w,
    {
        r.push(chars_to_string(&out[w]));
        w = w + 1;
    }
    proof {
        assert(r@.map(|i: int, s: String| s@) =~= out@.map(|q: int, t: Vec<char>| t@));
    }
    r
}

/// Validates a single class name: it may not hold any of the whitespace
/// characters that separate classes, and it must equal its trimmed form —
/// no White_Space character may edge it.
pub fn check_class_name(name: &str) -> (r: Result<(), LibError>)
    ensures
        r is Ok <==> ((forall|i: int| 0 <= i < name@.len() ==> !sel_ws(name@[i])) && (name@.len()
            > 0 ==> !unicode_ws(name@[0]) && !unicode_ws(name@[name@.len() - 1]))),
        r is Err ==> r == Err::<(), LibError>(LibError::InvalidClassName),
{
    let cv = str_to_chars(name);
    if cv.len() > 0 && (unicode_ws_exec(cv[0]) || unicode_ws_exec(cv[cv.len() - 1])) {
        return Err(LibError::InvalidClassName);
    }
    let mut i: usize = 0;
    while i < cv.len()
        invariant
            i <= cv@.len(),
            cv@ == name@,
            forall|m: int| 0 <= m < i ==> !sel_ws(name@[m]),
        decreases cv@.len() - i,
    {
        if sel_ws_exec(cv[i]) {
            return Err(LibError::InvalidClassName);
        }
        i = i + 1;
    }
    Ok(())
}

/// The punctuation a CSS identifier guards with a backslash.
pub open spec fn css_special(c: char) -> bool {
    ||| c == '!'
    ||| c == '"'
    ||| c == '#'
    ||| c == '$'
    ||| c == '%'
    ||| c == '&'
    ||| c == '\''
    ||| c == '('
    ||| c == ')'
    ||| c == '*'
    ||| c == '+'
    ||| c == ','
    ||| c == '-'
    ||| c == '.'
    ||| c == '/'
    ||| c == ':'
    ||| c == ';'
    ||| c == '<'
    ||| c == '='
    ||| c == '>'
    ||| c == '?'
    ||| c == '@'
    ||| c == '['
    ||| c == '\\'
    ||| c == ']'
    ||| c == '^'
    ||| c == '`'
    ||| c == '{'
    ||| c == '|'
    ||| c == '}'
    ||| c == '~'
}

/// Whether the character counts as numeric, which bars it from opening a
/// CSS identifier unescaped.
pub uninterp spec fn char_is_numeric(c: char) -> bool;

/// Relies on `char::is_numeric`: the Unicode numeric classes; every
/// decimal digit is numeric.
pub assume_specification[ char::is_numeric ](c: char) -> (r: bool)
    ensures
        r == char_is_numeric(c),
        48 <= c as u32 <= 57 ==> r,
;

/// The control ranges, always written numerically.
pub open spec fn css_control(c: char) -> bool {
    (c as u32) < 0x20 || (0x7f <= c as u32 && c as u32 <= 0x9f)
}

/// The six-digit lowercase hexadecimal form of a code point.
pub open spec fn hex6(n: int) -> Seq<char> {
    seq![
        crate::digestlib::hex_digit(n / 1048576 % 16),
        crate::digestlib::hex_digit(n / 65536 % 16),
        crate::digestlib::hex_digit(n / 4096 % 16),
        crate::digestlib::hex_digit(n / 256 % 16),
        crate::digestlib::hex_digit(n / 16 % 16),
        crate::digestlib::hex_digit(n % 16),
    ]
}

/// The escaped form of one character: a leading numeric character or a
/// control character is written numerically, guarded punctuation gets a
/// backslash, anything else stands as itself.
pub open spec fn css_escape_char(c: char, first: bool) -> Seq<char> {
    if (first && char_is_numeric(c)) || css_control(c) {
        seq!['\\'] + hex6(c as u32 as int)
    } else if css_special(c) {
        seq!['\\', c]
    } else {
        seq![c]
    }
}

/// The escaped form of the characters after the first.
pub open spec fn css_escaped_rest(s: Seq<char>) -> Seq<char>
    decreases s.len(),
{
    if s.len() == 0 {
        Seq::empty()
    } else {
        css_escape_char(s[0], false) + css_escaped_rest(s.drop_first())
    }
}

/// The CSS-escaped form of a string.
pub open spec fn css_escaped(s: Seq<char>) -> Seq<char> {
    if s.len() == 0 {
        Seq::empty()
    } else {
        css_escape_char(s[0], true) + css_escaped_rest(s.drop_first())
    }
}

/// Executable six-digit hexadecimal code point.
fn hex6_exec(v: u32) -> (r: Vec<char>)
    ensures
        r@ == hex6(v as int),
{
    let mut r: Vec<char> = Vec::new();
    r.push(crate::digestlib::hex_digit_exec((v / 1048576 % 16) as u8));
    r.push(crate::digestlib::hex_digit_exec((v / 65536 % 16) as u8));
    r.push(crate::digestlib::hex_digit_exec((v / 4096 % 16) as u8));
    r.push(crate::digestlib::hex_digit_exec((v / 256 % 16) as u8));
    r.push(crate::digestlib::hex_digit_exec((v / 16 % 16) as u8));
    r.push(crate::digestlib::hex_digit_exec((v % 16) as u8));
    proof {
        assert(r@ =~= hex6(v as int));
    }
    r
}

/// Executable guarded-punctuation test.
fn css_special_exec(c: char) -> (r: bool)
    ensures
        r == css_special(c),
{
    c == '!' || c == '"' || c == '#' || c == '$' || c == '%' || c == '&' || c == '\'' || c == '('
        || c == ')' || c == '*' || c == '+' || c == ',' || c == '-' || c == '.' || c == '/' || c
        == ':' || c == ';' || c == '<' || c == '=' || c == '>' || c == '?' || c == '@' || c == '['
        || c == '\\' || c == ']' || c == '^' || c == '`' || c == '{' || c == '|' || c == '}' || c
        == '~'
}

/// Escapes one character onto `out`.
fn css_push_char(out: &mut Vec<char>, c: char, first: bool)
    ensures
        final(out)@ == old(out)@ + css_escape_char(c, first),
{
    let v = c as u32;
    if (first && c.is_numeric()) || v < 0x20 || (0x7f <= v && v <= 0x9f) {
        out.push('\\');
        let six = hex6_exec(v);
        crate::chars::append_chars(out, &six);
        proof {
            assert(out@ =~= old(out)@ + css_escape_char(c, first));
        }
    } else if css_special_exec(c) {
        out.push('\\');
        out.push(c);
        proof {
            assert(out@ =~= old(out)@ + css_escape_char(c, first));
        }
    } else {
        out.push(c);
        proof {
            assert(out@ =~= old(out)@ + css_escape_char(c, first));
        }
    }
}

/// Escapes text for use inside a CSS selector: a leading digit and every
/// control character are written numerically, and guarded punctuation gets
/// a backslash.
#[verifier::loop_isolation(false)]
pub fn escape_css(text: &str) -> (r: String)
    ensures
        r@ == css_escaped(text@),
{
    let cv = str_to_chars(text);
    let ghost cs = cv@;
    let mut out: Vec<char> = Vec::new();
    if cv.len() == 0 {
        proof {
            assert(out@ =~= css_escaped(cs));
        }
        return chars_to_string(&out);
    }
    css_push_char(&mut out, cv[0], true);
    let mut i: usize = 1;
    proof {
        assert(cs.skip(1) =~= cs.drop_first());
    }
    while i < cv.len()
        invariant
            1 <= i <= cs.len(),
            cs == cv@,
            out@ + css_escaped_rest(cs.skip(i as int)) == css_escaped(cs),
        decreases cs.len() - i,
    {
        let ghost pre = out@;
        css_push_char(&mut out, cv[i], false);
        proof {
            let suf = cs.skip(i as int);
            assert(suf[0] == cs[i as int]);
            assert(suf.drop_first() =~= cs.skip(i as int + 1));
            assert(out@ + css_escaped_rest(cs.skip(i as int + 1)) =~= pre + (css_escape_char(
                cs[i as int],
                false,
            ) + css_escaped_rest(cs.skip(i as int + 1))));
        }
        i = i + 1;
    }
    proof {
        assert(cs.skip(cs.len() as int) =~= Seq::<char>::empty());
        assert(out@ =~= css_escaped(cs));
    }
    chars_to_string(&out)
}

/// The diagnostic name of a script chunk loaded without one: the source
/// text itself, truncated to at most forty visible characters with an
/// ellipsis suffix.
pub fn default_chunk_name(code: &str) -> (r: String)
    ensures
        code@.len() <= 40 ==> r@ == code@,
        code@.len() > 40 ==> r@ == code@.take(40) + "..."@,
{
    let cv = str_to_chars(code);
    if cv.len() <= 40 {
        proof {
            assert(cv@ =~= code@);
        }
        chars_to_string(&cv)
    } else {
        let mut t: Vec<char> = Vec::new();
        let mut i: usize = 0;
        while i < 40
            invariant
                i <= 40,
                cv@.len() > 40,
                cv@ == code@,
                t@ == code@.take(i as int),
            decreases 40 - i,
        {
            t.push(cv[i]);
            proof {
                assert(t@ =~= code@.take(i as int + 1));
            }
            i = i + 1;
        }
        crate::chars::append_str(&mut t, "...");
        chars_to_string(&t)
    }
}

} // verus!
