//! The string-utility surface: binary and URL codecs, entity escaping, and
//! slug rewriting.

use vstd::prelude::*;
use base64::Engine;
use crate::LibError;
use crate::regexlib::{re_replace_all, re_valid, regex_replace_all};

verus! {

/// The standard base64 rendering of the input bytes.
pub uninterp spec fn b64_of(data: Seq<u8>) -> Seq<char>;

/// Whether the input is valid standard base64.
pub uninterp spec fn b64_valid(text: Seq<u8>) -> bool;

/// The bytes a valid base64 input decodes to.
pub uninterp spec fn b64_decoded(text: Seq<u8>) -> Seq<u8>;

/// Relies on `base64`'s standard engine `encode`: the rendering is a
/// function of the input alone, and decoding it yields the input back.
#[verifier::external_body]
pub fn base64_encode(data: &[u8]) -> (r: String)
    ensures
        r@ == b64_of(data@),
        b64_valid(r@.map(|i: int, c: char| c as u8)),
        b64_decoded(r@.map(|i: int, c: char| c as u8)) == data@,
{
    base64::engine::general_purpose::STANDARD.encode(data)
}

/// Relies on `base64`'s standard engine `decode`: success depends on the
/// input alone, and the decoded bytes are a function of it.
#[verifier::external_body]
pub fn base64_decode(text: &[u8]) -> (r: Result<Vec<u8>, LibError>)
    ensures
        r is Ok <==> b64_valid(text@),
        r matches Ok(b) ==> b@ == b64_decoded(text@),
{
    match base64::engine::general_purpose::STANDARD.decode(text) {
        Ok(b) => Ok(b),
        Err(_) => Err(LibError::ParseFailed),
    }
}

/// The percent-encoded form of the input text.
pub uninterp spec fn url_encoded(text: Seq<char>) -> Seq<char>;

/// Whether the input percent-decodes to valid text.
pub uninterp spec fn url_decode_ok(text: Seq<char>) -> bool;

/// The text a percent-encoded input decodes to.
pub uninterp spec fn url_decoded(text: Seq<char>) -> Seq<char>;

/// Relies on `urlencoding::encode`: the rendering is a function of the
/// input alone, and decoding it yields the input back.
#[verifier::external_body]
pub fn url_encode(text: &str) -> (r: String)
    ensures
        r@ == url_encoded(text@),
        url_decode_ok(r@),
        url_decoded(r@) == text@,
{
    urlencoding::encode(text).into_owned()
}

/// Relies on `urlencoding::decode`: success depends on the input alone,
/// and the decoded text is a function of it.
#[verifier::external_body]
pub fn url_decode(text: &str) -> (r: Result<String, LibError>)
    ensures
        r is Ok <==> url_decode_ok(text@),
        r matches Ok(s) ==> s@ == url_decoded(text@),
{
    match urlencoding::decode(text) {
        Ok(s) => Ok(s.into_owned()),
        Err(_) => Err(LibError::ParseFailed),
    }
}

/// The text with the decodable HTML character entities replaced.
pub uninterp spec fn entities_decoded(text: Seq<char>) -> Seq<char>;

/// Relies on `html_escape::encode_text`: exactly `&`, `<` and `>` are
/// replaced by their entities.
#[verifier::external_body]
pub fn encode_entities(text: &str) -> (r: String)
    ensures
        r@ == crate::serialize::escape_text_entities(text@),
{
    html_escape::encode_text(text).into_owned()
}

/// Relies on `html_escape::decode_html_entities`: the result is a function
/// of the input alone, and an input without `&` is unchanged.
#[verifier::external_body]
pub fn decode_entities(text: &str) -> (r: String)
    ensures
        r@ == entities_decoded(text@),
        (forall|i: int| 0 <= i < text@.len() ==> text@[i] != '&') ==> r@ == text@,
{
    html_escape::decode_html_entities(text).into_owned()
}

/// Rewrites whitespace-and-underscore runs to single underscores and trims
/// underscores: the aggressive slug form.
pub fn slugify(text: &str) -> (r: Result<String, LibError>)
    ensures
        re_valid("[\\pZ_]+"@) ==> (r matches Ok(s) && s@ == trim_underscores(
            re_replace_all("[\\pZ_]+"@, text@, "_"@),
        )),
        !re_valid("[\\pZ_]+"@) ==> r is Err,
{
    let replaced = match regex_replace_all(text, "[\\pZ_]+", "_") {
        Ok(s) => s,
        Err(e) => {
            return Err(e);
        },
    };
    let cv = crate::chars::str_to_chars(replaced.as_str());
    let trimmed = trim_underscores_exec(&cv);
    Ok(crate::chars::chars_to_string(&trimmed))
}

/// Rewrites symbol runs to dashes: the soft slug form.
pub fn slugify_soft(text: &str) -> (r: Result<String, LibError>)
    ensures
        re_valid("\\pS+"@) ==> (r matches Ok(s) && s@ == re_replace_all("\\pS+"@, text@, "-"@)),
        !re_valid("\\pS+"@) ==> r is Err,
{
    regex_replace_all(text, "\\pS+", "-")
}

/// Rewrites every run outside ASCII letters and digits to a dash: the
/// ASCII slug form.
pub fn slugify_ascii(text: &str) -> (r: Result<String, LibError>)
    ensures
        re_valid("[^a-zA-Z0-9]+"@) ==> (r matches Ok(s) && s@ == re_replace_all(
            "[^a-zA-Z0-9]+"@,
            text@,
            "-"@,
        )),
        !re_valid("[^a-zA-Z0-9]+"@) ==> r is Err,
{
    regex_replace_all(text, "[^a-zA-Z0-9]+", "-")
}

/// The string without leading and trailing underscores.
pub open spec fn trim_underscores(s: Seq<char>) -> Seq<char>
    decreases s.len(),
{
    if s.len() == 0 {
        s
    } else if s[0] == '_' {
        trim_underscores(s.drop_first())
    } else if s.last() == '_' {
        trim_underscores(s.drop_last())
    } else {
        s
    }
}

/// Strips leading and trailing underscores.
#[verifier::loop_isolation(false)]
fn trim_underscores_exec(s: &Vec<char>) -> (r: Vec<char>)
    ensures
        r@ == trim_underscores(s@),
{
    let mut lo: usize = 0;
    let mut hi: usize = s.len();
    proof {
        assert(s@.subrange(0, s@.len() as int) =~= s@);
    }
    while lo < hi && s[lo] == '_'
        invariant
            lo <= hi <= s@.len(),
            trim_underscores(s@) == trim_underscores(s@.subrange(lo as int, hi as int)),
        decreases hi - lo,
    {
        proof {
            assert(s@.subrange(lo as int, hi as int).drop_first() =~= s@.subrange(
                lo as int + 1,
                hi as int,
            ));
        }
        lo = lo + 1;
    }
    while lo < hi && s[hi - 1] == '_'
        invariant
            lo <= hi <= s@.len(),
            trim_underscores(s@) == trim_underscores(s@.subrange(lo as int, hi as int)),
            lo < hi ==> s@[lo as int] != '_',
        decreases hi - lo,
    {
        proof {
            assert(s@.subrange(lo as int, hi as int).drop_last() =~= s@.subrange(
                lo as int,
                hi as int - 1,
            ));
        }
        hi = hi - 1;
    }
    let mut r: Vec<char> = Vec::new();
    let mut i = lo;
    while i < hi
        invariant
            lo <= i <= hi <= s@.len(),
            r@ == s@.subrange(lo as int, i as int),
        decreases hi - i,
    {
        r.push(s[i]);
        proof {
            assert(r@ =~= s@.subrange(lo as int, i as int + 1));
        }
        i = i + 1;
    }
    proof {
        let seg = s@.subrange(lo as int, hi as int);
        assert(trim_underscores(seg) == seg) by {
            if seg.len() > 0 {
                assert(seg[0] == s@[lo as int]);
                assert(seg.last() == s@[hi as int - 1]);
            }
        }
    }
    r
}

} // verus!
