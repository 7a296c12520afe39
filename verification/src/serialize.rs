//! Serialization of arena subtrees back to markup, and plain-text
//! extraction.
//!
//! The serialized form of a node is a function of the node rows reachable
//! from it alone; the lemmas at the end state the two consequences the
//! arena's users rely on: a change confined to rows beyond a closed bound
//! never alters the serialization of a subtree below the bound, and a copied
//! subtree serializes exactly as its source.

use vstd::prelude::*;
use crate::LibError;
use crate::arena::{
    in_subtree, lemma_in_subtree_ge, region_closed, subtree_eq, wf_at, wf_nodes, HtmlContext,
    HtmlNode, NodeType, NodeV,
};
use crate::chars::{append_chars, append_str, chars_eq_str, chars_to_string};
use crate::events::{NodeData, NodeDataV};

verus! {

/// The replacement for one character of text (or, in attribute mode, of an
/// attribute value).
pub open spec fn escape_char(c: char, attr_mode: bool) -> Seq<char> {
    if c == '&' {
        seq!['&', 'a', 'm', 'p', ';']
    } else if c == '\u{a0}' {
        seq!['&', 'n', 'b', 's', 'p', ';']
    } else if !attr_mode && c == '<' {
        seq!['&', 'l', 't', ';']
    } else if !attr_mode && c == '>' {
        seq!['&', 'g', 't', ';']
    } else if attr_mode && c == '"' {
        seq!['&', 'q', 'u', 'o', 't', ';']
    } else {
        seq![c]
    }
}

/// The escaped form of a string.
pub open spec fn escape_str(s: Seq<char>, attr_mode: bool) -> Seq<char>
    decreases s.len(),
{
    if s.len() == 0 {
        Seq::empty()
    } else {
        escape_str(s.drop_last(), attr_mode) + escape_char(s.last(), attr_mode)
    }
}

/// Escapes markup-significant characters of `s`.
pub fn escape_chars(s: &Vec<char>, attr_mode: bool, out: &mut Vec<char>)
    ensures
        final(out)@ == old(out)@ + escape_str(s@, attr_mode),
{
    let mut i: usize = 0;
    while i < s.len()
        invariant
            i <= s.len(),
            out@ == old(out)@ + escape_str(s@.take(i as int), attr_mode),
        decreases s.len() - i,
    {
        let c = s[i];
        if c == '&' {
            append_str(out, "&amp;");
        } else if c == '\u{a0}' {
            append_str(out, "&nbsp;");
        } else if !attr_mode && c == '<' {
            append_str(out, "&lt;");
        } else if !attr_mode && c == '>' {
            append_str(out, "&gt;");
        } else if attr_mode && c == '"' {
            append_str(out, "&quot;");
        } else {
            out.push(c);
        }
        proof {
            let t1 = s@.take(i as int + 1);
            assert(t1.drop_last() =~= s@.take(i as int));
            assert(t1.last() == s@[i as int]);
            reveal_strlit("&amp;");
            reveal_strlit("&nbsp;");
            reveal_strlit("&lt;");
            reveal_strlit("&gt;");
            reveal_strlit("&quot;");
            assert(out@ =~= old(out)@ + escape_str(t1, attr_mode));
        }
        i = i + 1;
    }
    proof {
        assert(s@.take(s@.len() as int) =~= s@);
    }
}

/// The entity replacement for one character of plain text: exactly `&`,
/// `<` and `>` are replaced.
pub open spec fn entity_char(c: char) -> Seq<char> {
    if c == '&' {
        seq!['&', 'a', 'm', 'p', ';']
    } else if c == '<' {
        seq!['&', 'l', 't', ';']
    } else if c == '>' {
        seq!['&', 'g', 't', ';']
    } else {
        seq![c]
    }
}

/// The text with `&`, `<` and `>` replaced by their entities.
pub open spec fn escape_text_entities(s: Seq<char>) -> Seq<char>
    decreases s.len(),
{
    if s.len() == 0 {
        Seq::empty()
    } else {
        escape_text_entities(s.drop_last()) + entity_char(s.last())
    }
}

/// Whether `name` names a void element, written without a closing tag and
/// with no children.
pub open spec fn is_void_name(name: Seq<char>) -> bool {
    ||| name == "area"@
    ||| name == "base"@
    ||| name == "basefont"@
    ||| name == "bgsound"@
    ||| name == "br"@
    ||| name == "col"@
    ||| name == "embed"@
    ||| name == "frame"@
    ||| name == "hr"@
    ||| name == "img"@
    ||| name == "input"@
    ||| name == "keygen"@
    ||| name == "link"@
    ||| name == "meta"@
    ||| name == "param"@
    ||| name == "source"@
    ||| name == "track"@
    ||| name == "wbr"@
}

/// Whether `name` names a raw-text element, whose text content is written
/// unescaped.
pub open spec fn is_raw_name(name: Seq<char>) -> bool {
    ||| name == "style"@
    ||| name == "script"@
    ||| name == "xmp"@
    ||| name == "iframe"@
    ||| name == "noembed"@
    ||| name == "noframes"@
    ||| name == "plaintext"@
}

/// Executable void-element test.
pub fn is_void_exec(name: &Vec<char>) -> (r: bool)
    ensures
        r == is_void_name(name@),
{
    chars_eq_str(name, "area") || chars_eq_str(name, "base") || chars_eq_str(name, "basefont")
        || chars_eq_str(name, "bgsound") || chars_eq_str(name, "br") || chars_eq_str(name, "col")
        || chars_eq_str(name, "embed") || chars_eq_str(name, "frame") || chars_eq_str(name, "hr")
        || chars_eq_str(name, "img") || chars_eq_str(name, "input") || chars_eq_str(name, "keygen")
        || chars_eq_str(name, "link") || chars_eq_str(name, "meta") || chars_eq_str(name, "param")
        || chars_eq_str(name, "source") || chars_eq_str(name, "track") || chars_eq_str(name, "wbr")
}

/// Executable raw-text test.
pub fn is_raw_exec(name: &Vec<char>) -> (r: bool)
    ensures
        r == is_raw_name(name@),
{
    chars_eq_str(name, "style") || chars_eq_str(name, "script") || chars_eq_str(name, "xmp")
        || chars_eq_str(name, "iframe") || chars_eq_str(name, "noembed") || chars_eq_str(
        name,
        "noframes",
    ) || chars_eq_str(name, "plaintext")
}

/// The serialized attribute list: one ` name="value"` piece per attribute,
/// values escaped.
pub open spec fn ser_attrs(attrs: Seq<(Seq<char>, Seq<char>)>) -> Seq<char>
    decreases attrs.len(),
{
    if attrs.len() == 0 {
        Seq::empty()
    } else {
        ser_attrs(attrs.drop_last()) + seq![' '] + attrs.last().0 + seq!['=', '"'] + escape_str(
            attrs.last().1,
            true,
        ) + seq!['"']
    }
}

/// The serialized form of the subtree at `i`. Elements are written as their
/// open tag, their children and (except void elements) their close tag;
/// document and fragment rows write their children only; text is escaped
/// unless `raw` (inside a raw-text element).
pub open spec fn ser_node(nodes: Seq<NodeV>, i: int, raw: bool) -> Seq<char>
    decreases nodes.len() - i, 1int, 0int,
    when 0 <= i < nodes.len() && wf_nodes(nodes)
    via ser_node_decreases
{
    match nodes[i].data {
        NodeDataV::Document => ser_kids(nodes, i, nodes[i].children.len() as int, false),
        NodeDataV::Fragment => ser_kids(nodes, i, nodes[i].children.len() as int, false),
        NodeDataV::Doctype { name } => seq!['<', '!', 'D', 'O', 'C', 'T', 'Y', 'P', 'E', ' ']
            + name + seq!['>'],
        NodeDataV::Comment { text } => seq!['<', '!', '-', '-'] + text + seq!['-', '-', '>'],
        NodeDataV::Text { text } => if raw {
            text
        } else {
            escape_str(text, false)
        },
        NodeDataV::Pi { target, data } => seq!['<', '?'] + target + seq![' '] + data + seq!['>'],
        NodeDataV::Element { name, attrs } => {
            let open = seq!['<'] + name + ser_attrs(attrs) + seq!['>'];
            if is_void_name(name) {
                open
            } else {
                open + ser_kids(nodes, i, nodes[i].children.len() as int, is_raw_name(name)) + seq![
                    '<',
                    '/',
                ] + name + seq!['>']
            }
        },
    }
}

/// The concatenated serialization of the first `k` children of row `i`.
pub open spec fn ser_kids(nodes: Seq<NodeV>, i: int, k: int, raw: bool) -> Seq<char>
    decreases nodes.len() - i, 0int, k,
    when 0 <= i < nodes.len() && k <= nodes[i].children.len() && wf_nodes(nodes)
    via ser_kids_decreases
{
    if k <= 0 {
        Seq::empty()
    } else {
        ser_kids(nodes, i, k - 1, raw) + ser_node(nodes, nodes[i].children[k - 1] as int, raw)
    }
}

#[via_fn]
proof fn ser_node_decreases(nodes: Seq<NodeV>, i: int, raw: bool) {
    assert(wf_at(nodes, i));
}

#[via_fn]
proof fn ser_kids_decreases(nodes: Seq<NodeV>, i: int, k: int, raw: bool) {
    assert(wf_at(nodes, i));
}

impl HtmlContext {
    /// Writes the serialization of the subtree at `i` onto `out`.
    #[verifier::loop_isolation(false)]
    fn ser_rec(&self, i: usize, raw: bool, out: &mut Vec<char>)
        requires
            self.wf(),
            (i as int) < self.nodes_view().len(),
        ensures
            final(out)@ == old(out)@ + ser_node(self.nodes_view(), i as int, raw),
        decreases self.nodes_view().len() - i, 1int, 0int,
    {
        let ghost nv = self.nodes_view();
        proof {
            assert(wf_at(nv, i as int));
        }
        match self.node_data(i) {
            NodeData::Document => {
                self.ser_children(i, false, out);
            },
            NodeData::Fragment => {
                self.ser_children(i, false, out);
            },
            NodeData::Doctype { name } => {
                append_str(out, "<!DOCTYPE ");
                append_chars(out, name);
                append_str(out, ">");
                proof {
                    reveal_strlit("<!DOCTYPE ");
                    reveal_strlit(">");
                    assert(out@ =~= old(out)@ + ser_node(nv, i as int, raw));
                }
            },
            NodeData::Comment { text } => {
                append_str(out, "<!--");
                append_chars(out, text);
                append_str(out, "-->");
                proof {
                    reveal_strlit("<!--");
                    reveal_strlit("-->");
                    assert(out@ =~= old(out)@ + ser_node(nv, i as int, raw));
                }
            },
            NodeData::Text { text } => {
                if raw {
                    append_chars(out, text);
                } else {
                    escape_chars(text, false, out);
                }
            },
            NodeData::Pi { target, data } => {
                append_str(out, "<?");
                append_chars(out, target);
                append_str(out, " ");
                append_chars(out, data);
                append_str(out, ">");
                proof {
                    reveal_strlit("<?");
                    reveal_strlit(" ");
                    reveal_strlit(">");
                    assert(out@ =~= old(out)@ + ser_node(nv, i as int, raw));
                }
            },
            NodeData::Element { name, attrs } => {
                append_str(out, "<");
                append_chars(out, name);
                self.ser_attrs_exec(attrs, out);
                append_str(out, ">");
                if is_void_exec(name) {
                    proof {
                        reveal_strlit("<");
                        reveal_strlit(">");
                        assert(out@ =~= old(out)@ + ser_node(nv, i as int, raw));
                    }
                } else {
                    let inner_raw = is_raw_exec(name);
                    self.ser_children(i, inner_raw, out);
                    append_str(out, "</");
                    append_chars(out, name);
                    append_str(out, ">");
                    proof {
                        reveal_strlit("<");
                        reveal_strlit(">");
                        reveal_strlit("</");
                        assert(out@ =~= old(out)@ + ser_node(nv, i as int, raw));
                    }
                }
            },
        }
    }

    /// Writes the serializations of all children of row `i` onto `out`.
    #[verifier::loop_isolation(false)]
    fn ser_children(&self, i: usize, raw: bool, out: &mut Vec<char>)
        requires
            self.wf(),
            (i as int) < self.nodes_view().len(),
        ensures
            final(out)@ == old(out)@ + ser_kids(
                self.nodes_view(),
                i as int,
                self.nodes_view()[i as int].children.len() as int,
                raw,
            ),
        decreases self.nodes_view().len() - i, 0int, 1int,
    {
        let ghost nv = self.nodes_view();
        proof {
            assert(wf_at(nv, i as int));
        }
        let clen = self.child_count_at(i);
        let mut k: usize = 0;
        while k < clen
            invariant
                k <= clen,
                out@ == old(out)@ + ser_kids(nv, i as int, k as int, raw),
            decreases clen - k,
        {
            let c = self.child_at(i, k);
            proof {
                assert(wf_at(nv, i as int));
            }
            self.ser_rec(c, raw, out);
            k = k + 1;
        }
    }

    /// Writes the serialized attribute list onto `out`.
    fn ser_attrs_exec(&self, attrs: &Vec<(Vec<char>, Vec<char>)>, out: &mut Vec<char>)
        ensures
            final(out)@ == old(out)@ + ser_attrs(
                attrs@.map(|j: int, p: (Vec<char>, Vec<char>)| (p.0@, p.1@)),
            ),
    {
        let ghost av = attrs@.map(|j: int, p: (Vec<char>, Vec<char>)| (p.0@, p.1@));
        let mut k: usize = 0;
        while k < attrs.len()
            invariant
                k <= attrs.len(),
                av == attrs@.map(|j: int, p: (Vec<char>, Vec<char>)| (p.0@, p.1@)),
                av.len() == attrs@.len(),
                out@ == old(out)@ + ser_attrs(av.take(k as int)),
            decreases attrs.len() - k,
        {
            proof {
                assert(av[k as int] == (attrs@[k as int].0@, attrs@[k as int].1@));
            }
            append_str(out, " ");
            append_chars(out, &attrs[k].0);
            append_str(out, "=\"");
            escape_chars(&attrs[k].1, true, out);
            append_str(out, "\"");
            proof {
                reveal_strlit(" ");
                reveal_strlit("=\"");
                reveal_strlit("\"");
                let t1 = av.take(k as int + 1);
                assert(t1.drop_last() =~= av.take(k as int));
                assert(t1.last() == av[k as int]);
                assert(out@ =~= old(out)@ + ser_attrs(t1));
            }
            k = k + 1;
        }
        proof {
            assert(av.take(av.len() as int) =~= av);
        }
    }

    /// Serializes the subtree under `node`: a fragment handle writes its
    /// children only (the fragment wrapper is synthetic), every other
    /// handle writes the node itself.
    pub fn to_html(&self, node: &HtmlNode) -> (r: Result<String, LibError>)
        requires
            self.wf(),
        ensures
            node.ctx_id != self.id() ==> r == Err::<String, LibError>(LibError::ContextMismatch),
            node.ctx_id == self.id() && !self.owns(*node) ==> r == Err::<String, LibError>(
                LibError::InvalidHandle,
            ),
            self.owns(*node) && node.kind == NodeType::Fragment ==> (r matches Ok(s) && s@
                == ser_kids(
                self.nodes_view(),
                node.node_id as int,
                self.nodes_view()[node.node_id as int].children.len() as int,
                false,
            )),
            self.owns(*node) && node.kind != NodeType::Fragment ==> (r matches Ok(s) && s@
                == ser_node(self.nodes_view(), node.node_id as int, false)),
    {
        if let Err(e) = self.check_handle(node) {
            return Err(e);
        }
        let mut out: Vec<char> = Vec::new();
        if kind_is(node.kind, NodeType::Fragment) {
            self.ser_children(node.node_id, false, &mut out);
        } else {
            self.ser_rec(node.node_id, false, &mut out);
        }
        Ok(chars_to_string(&out))
    }

    /// Serializes only the children of the node `node` acts on.
    pub fn to_inner_html(&self, node: &HtmlNode) -> (r: Result<String, LibError>)
        requires
            self.wf(),
        ensures
            node.ctx_id != self.id() ==> r == Err::<String, LibError>(LibError::ContextMismatch),
            node.ctx_id == self.id() && !self.owns(*node) ==> r == Err::<String, LibError>(
                LibError::InvalidHandle,
            ),
            self.owns(*node) ==> (r matches Ok(s) && s@ == ser_kids(
                self.nodes_view(),
                node.node_id as int,
                self.nodes_view()[node.node_id as int].children.len() as int,
                false,
            )),
    {
        if let Err(e) = self.check_handle(node) {
            return Err(e);
        }
        let mut out: Vec<char> = Vec::new();
        self.ser_children(node.node_id, false, &mut out);
        Ok(chars_to_string(&out))
    }

    /// The concatenated text of the subtree under `node`, markup stripped.
    pub fn strip_tags(&self, node: &HtmlNode) -> (r: Result<String, LibError>)
        requires
            self.wf(),
        ensures
            node.ctx_id != self.id() ==> r == Err::<String, LibError>(LibError::ContextMismatch),
            node.ctx_id == self.id() && !self.owns(*node) ==> r == Err::<String, LibError>(
                LibError::InvalidHandle,
            ),
            self.owns(*node) ==> (r matches Ok(s) && s@ == text_of(
                self.nodes_view(),
                node.node_id as int,
            )),
    {
        if let Err(e) = self.check_handle(node) {
            return Err(e);
        }
        let mut out: Vec<char> = Vec::new();
        self.text_rec(node.node_id, &mut out);
        Ok(chars_to_string(&out))
    }

    /// Writes the raw text of the subtree at `i` onto `out`.
    #[verifier::loop_isolation(false)]
    fn text_rec(&self, i: usize, out: &mut Vec<char>)
        requires
            self.wf(),
            (i as int) < self.nodes_view().len(),
        ensures
            final(out)@ == old(out)@ + text_of(self.nodes_view(), i as int),
        decreases self.nodes_view().len() - i, 1int, 0int,
    {
        let ghost nv = self.nodes_view();
        proof {
            assert(wf_at(nv, i as int));
        }
        match self.node_data(i) {
            NodeData::Text { text } => {
                append_chars(out, text);
            },
            NodeData::Doctype { .. } => {},
            NodeData::Comment { .. } => {},
            NodeData::Pi { .. } => {},
            NodeData::Document => {
                self.text_kids_exec(i, out);
            },
            NodeData::Fragment => {
                self.text_kids_exec(i, out);
            },
            NodeData::Element { .. } => {
                self.text_kids_exec(i, out);
            },
        }
    }

    /// Writes the raw text of all children of row `i` onto `out`.
    #[verifier::loop_isolation(false)]
    fn text_kids_exec(&self, i: usize, out: &mut Vec<char>)
        requires
            self.wf(),
            (i as int) < self.nodes_view().len(),
        ensures
            final(out)@ == old(out)@ + text_kids(
                self.nodes_view(),
                i as int,
                self.nodes_view()[i as int].children.len() as int,
            ),
        decreases self.nodes_view().len() - i, 0int, 1int,
    {
        let ghost nv = self.nodes_view();
        proof {
            assert(wf_at(nv, i as int));
        }
        let clen = self.child_count_at(i);
        let mut k: usize = 0;
        while k < clen
            invariant
                k <= clen,
                out@ == old(out)@ + text_kids(nv, i as int, k as int),
            decreases clen - k,
        {
            let c = self.child_at(i, k);
            proof {
                assert(wf_at(nv, i as int));
            }
            self.text_rec(c, out);
            k = k + 1;
        }
    }
}

/// Whether the two characters are equal up to ASCII case.
pub open spec fn ascii_eq_char(x: char, y: char) -> bool {
    ||| x == y
    ||| (65 <= x as u32 && x as u32 <= 90 && x as u32 + 32 == y as u32)
    ||| (65 <= y as u32 && y as u32 <= 90 && y as u32 + 32 == x as u32)
}

/// Whether the two names are equal up to ASCII case.
pub open spec fn eq_ignore_ascii_case(a: Seq<char>, b: Seq<char>) -> bool {
    a.len() == b.len() && (forall|i: int| 0 <= i < a.len() ==> ascii_eq_char(a[i], b[i]))
}

/// Executable ASCII-case-blind character comparison.
fn ascii_eq_char_exec(x: char, y: char) -> (r: bool)
    ensures
        r == ascii_eq_char(x, y),
{
    let xv = x as u32;
    let yv = y as u32;
    x == y || (65 <= xv && xv <= 90 && xv + 32 == yv) || (65 <= yv && yv <= 90 && yv + 32 == xv)
}

/// Executable ASCII-case-blind name comparison against a literal.
#[verifier::loop_isolation(false)]
fn eq_icase_str(v: &Vec<char>, s: &str) -> (r: bool)
    ensures
        r == eq_ignore_ascii_case(v@, s@),
{
    let sc = crate::chars::str_to_chars(s);
    if v.len() != sc.len() {
        return false;
    }
    let mut i: usize = 0;
    while i < v.len()
        invariant
            i <= v@.len(),
            v@.len() == sc@.len(),
            sc@ == s@,
            forall|m: int| 0 <= m < i ==> ascii_eq_char(v@[m], s@[m]),
        decreases v@.len() - i,
    {
        if !ascii_eq_char_exec(v[i], sc[i]) {
            return false;
        }
        i = i + 1;
    }
    true
}

/// Whether the element's contents are invisible prose: document metadata,
/// styling or scripting, the tag name matched without regard to ASCII
/// case.
pub open spec fn invisible_name(name: Seq<char>) -> bool {
    ||| eq_ignore_ascii_case(name, "head"@)
    ||| eq_ignore_ascii_case(name, "style"@)
    ||| eq_ignore_ascii_case(name, "script"@)
}

/// Executable invisibility test.
fn invisible_exec(name: &Vec<char>) -> (r: bool)
    ensures
        r == invisible_name(name@),
{
    eq_icase_str(name, "head") || eq_icase_str(name, "style") || eq_icase_str(name, "script")
}

/// The text the page shows under `i`: the text nodes in order, with the
/// metadata, styling and scripting subtrees left out.
pub open spec fn visible_text(nodes: Seq<NodeV>, i: int) -> Seq<char>
    decreases nodes.len() - i, 1int, 0int,
    when 0 <= i < nodes.len() && wf_nodes(nodes)
    via visible_text_decreases
{
    match nodes[i].data {
        NodeDataV::Text { text } => text,
        NodeDataV::Doctype { .. } => Seq::empty(),
        NodeDataV::Comment { .. } => Seq::empty(),
        NodeDataV::Pi { .. } => Seq::empty(),
        NodeDataV::Element { name, .. } => if invisible_name(name) {
            Seq::empty()
        } else {
            visible_kids(nodes, i, nodes[i].children.len() as int)
        },
        _ => visible_kids(nodes, i, nodes[i].children.len() as int),
    }
}

/// The visible text of the first `k` children of row `i`.
pub open spec fn visible_kids(nodes: Seq<NodeV>, i: int, k: int) -> Seq<char>
    decreases nodes.len() - i, 0int, k,
    when 0 <= i < nodes.len() && k <= nodes[i].children.len() && wf_nodes(nodes)
    via visible_kids_decreases
{
    if k <= 0 {
        Seq::empty()
    } else {
        visible_kids(nodes, i, k - 1) + visible_text(nodes, nodes[i].children[k - 1] as int)
    }
}

#[via_fn]
proof fn visible_text_decreases(nodes: Seq<NodeV>, i: int) {
    assert(wf_at(nodes, i));
}

#[via_fn]
proof fn visible_kids_decreases(nodes: Seq<NodeV>, i: int, k: int) {
    assert(wf_at(nodes, i));
}

/// Tokens joined by single spaces.
pub open spec fn joined_spaces(toks: Seq<Seq<char>>) -> Seq<char>
    decreases toks.len(),
{
    if toks.len() == 0 {
        Seq::empty()
    } else if toks.len() == 1 {
        toks[0]
    } else {
        joined_spaces(toks.drop_last()) + seq![' '] + toks.last()
    }
}

impl HtmlContext {
    /// The whitespace-normalized prose of the subtree under `node`: its
    /// visible text split into words and joined by single spaces, with
    /// metadata, styling and scripting subtrees skipped.
    pub fn inner_text(&self, node: &HtmlNode) -> (r: Result<String, LibError>)
        requires
            self.wf(),
        ensures
            node.ctx_id != self.id() ==> r == Err::<String, LibError>(LibError::ContextMismatch),
            node.ctx_id == self.id() && !self.owns(*node) ==> r == Err::<String, LibError>(
                LibError::InvalidHandle,
            ),
            self.owns(*node) ==> (r matches Ok(s) && s@ == joined_spaces(
                crate::textutil::split_runs(visible_text(self.nodes_view(), node.node_id as int)),
            )),
    {
        if let Err(e) = self.check_handle(node) {
            return Err(e);
        }
        let mut text: Vec<char> = Vec::new();
        self.visible_rec(node.node_id, &mut text);
        let runs = crate::textutil::split_ws_runs(&text);
        let ghost runsv = runs@.map(|q: int, t: Vec<char>| t@);
        let mut out: Vec<char> = Vec::new();
        let mut i: usize = 0;
        proof {
            assert(runsv.take(0) =~= Seq::<Seq<char>>::empty());
        }
        while i < runs.len()
            invariant
                i <= runs@.len(),
                runsv.len() == runs@.len(),
                runsv == runs@.map(|q: int, t: Vec<char>| t@),
                out@ == joined_spaces(runsv.take(i as int)),
            decreases runs@.len() - i,
        {
            proof {
                assert(runsv[i as int] == runs@[i as int]@);
                assert(runsv.take(i as int + 1).drop_last() =~= runsv.take(i as int));
                assert(runsv.take(i as int + 1).last() == runsv[i as int]);
            }
            if i > 0 {
                out.push(' ');
            }
            append_chars(&mut out, &runs[i]);
            proof {
                assert(out@ =~= joined_spaces(runsv.take(i as int + 1)));
            }
            i = i + 1;
        }
        proof {
            assert(runsv.take(runsv.len() as int) =~= runsv);
        }
        Ok(chars_to_string(&out))
    }

    /// Writes the visible text of the subtree at `i` onto `out`.
    #[verifier::loop_isolation(false)]
    fn visible_rec(&self, i: usize, out: &mut Vec<char>)
        requires
            self.wf(),
            (i as int) < self.nodes_view().len(),
        ensures
            final(out)@ == old(out)@ + visible_text(self.nodes_view(), i as int),
        decreases self.nodes_view().len() - i, 1int, 0int,
    {
        let ghost nv = self.nodes_view();
        proof {
            assert(wf_at(nv, i as int));
        }
        match self.node_data(i) {
            NodeData::Text { text } => {
                append_chars(out, text);
            },
            NodeData::Doctype { .. } => {},
            NodeData::Comment { .. } => {},
            NodeData::Pi { .. } => {},
            NodeData::Document => {
                self.visible_kids_exec(i, out);
            },
            NodeData::Fragment => {
                self.visible_kids_exec(i, out);
            },
            NodeData::Element { name, .. } => {
                if !invisible_exec(name) {
                    self.visible_kids_exec(i, out);
                }
            },
        }
    }

    /// Writes the visible text of all children of row `i` onto `out`.
    #[verifier::loop_isolation(false)]
    fn visible_kids_exec(&self, i: usize, out: &mut Vec<char>)
        requires
            self.wf(),
            (i as int) < self.nodes_view().len(),
        ensures
            final(out)@ == old(out)@ + visible_kids(
                self.nodes_view(),
                i as int,
                self.nodes_view()[i as int].children.len() as int,
            ),
        decreases self.nodes_view().len() - i, 0int, 1int,
    {
        let ghost nv = self.nodes_view();
        proof {
            assert(wf_at(nv, i as int));
        }
        let clen = self.child_count_at(i);
        let mut k: usize = 0;
        while k < clen
            invariant
                k <= clen,
                out@ == old(out)@ + visible_kids(nv, i as int, k as int),
            decreases clen - k,
        {
            let c = self.child_at(i, k);
            proof {
                assert(wf_at(nv, i as int));
            }
            self.visible_rec(c, out);
            k = k + 1;
        }
    }
}

/// The concatenated text content of the subtree at `i`.
pub open spec fn text_of(nodes: Seq<NodeV>, i: int) -> Seq<char>
    decreases nodes.len() - i, 1int, 0int,
    when 0 <= i < nodes.len() && wf_nodes(nodes)
    via text_of_decreases
{
    match nodes[i].data {
        NodeDataV::Text { text } => text,
        NodeDataV::Doctype { .. } => Seq::empty(),
        NodeDataV::Comment { .. } => Seq::empty(),
        NodeDataV::Pi { .. } => Seq::empty(),
        _ => text_kids(nodes, i, nodes[i].children.len() as int),
    }
}

/// The concatenated text of the first `k` children of row `i`.
pub open spec fn text_kids(nodes: Seq<NodeV>, i: int, k: int) -> Seq<char>
    decreases nodes.len() - i, 0int, k,
    when 0 <= i < nodes.len() && k <= nodes[i].children.len() && wf_nodes(nodes)
    via text_kids_decreases
{
    if k <= 0 {
        Seq::empty()
    } else {
        text_kids(nodes, i, k - 1) + text_of(nodes, nodes[i].children[k - 1] as int)
    }
}

#[via_fn]
proof fn text_of_decreases(nodes: Seq<NodeV>, i: int) {
    assert(wf_at(nodes, i));
}

#[via_fn]
proof fn text_kids_decreases(nodes: Seq<NodeV>, i: int, k: int) {
    assert(wf_at(nodes, i));
}

/// Executable kind comparison.
fn kind_is(a: NodeType, b: NodeType) -> (r: bool)
    ensures
        r == (a == b),
{
    a == b
}

/// The serialized form of a subtree depends only on the rows below a closed
/// bound. Whatever is changed, added or removed at or beyond that bound —
/// for instance, renaming an element inside a copy of the subtree living
/// there — its serialization is unchanged.
pub proof fn lemma_ser_frame(v: Seq<NodeV>, v2: Seq<NodeV>, L: int, i: int, raw: bool)
    requires
        wf_nodes(v),
        wf_nodes(v2),
        0 <= L <= v.len(),
        L <= v2.len(),
        region_closed(v, L),
        forall|m: int| 0 <= m < L ==> (#[trigger] v2[m]) == v[m],
        0 <= i < L,
    ensures
        ser_node(v2, i, raw) == ser_node(v, i, raw),
        ser_kids(v2, i, v2[i].children.len() as int, raw) == ser_kids(
            v,
            i,
            v[i].children.len() as int,
            raw,
        ),
    decreases v.len() - i, 1int,
{
    assert(wf_at(v, i));
    assert(v2[i] == v[i]);
    lemma_ser_kids_frame(v, v2, L, i, v[i].children.len() as int, false);
    lemma_ser_kids_frame(v, v2, L, i, v[i].children.len() as int, true);
    lemma_ser_kids_frame(v, v2, L, i, v[i].children.len() as int, raw);
}

proof fn lemma_ser_kids_frame(v: Seq<NodeV>, v2: Seq<NodeV>, L: int, i: int, k: int, raw: bool)
    requires
        wf_nodes(v),
        wf_nodes(v2),
        0 <= L <= v.len(),
        L <= v2.len(),
        region_closed(v, L),
        forall|m: int| 0 <= m < L ==> (#[trigger] v2[m]) == v[m],
        0 <= i < L,
        0 <= k <= v[i].children.len(),
    ensures
        ser_kids(v2, i, k, raw) == ser_kids(v, i, k, raw),
    decreases v.len() - i, 0int, k,
{
    assert(wf_at(v, i));
    assert(v2[i] == v[i]);
    if k > 0 {
        lemma_ser_kids_frame(v, v2, L, i, k - 1, raw);
        let c = v[i].children[k - 1] as int;
        assert(c < L);
        lemma_ser_frame(v, v2, L, c, raw);
    }
}

/// A copied subtree serializes exactly as its source: equal payloads and
/// shape give equal markup.
pub proof fn lemma_ser_congruence(v: Seq<NodeV>, i: int, j: int, raw: bool)
    requires
        wf_nodes(v),
        0 <= i < v.len(),
        subtree_eq(v, i, j),
    ensures
        ser_node(v, i, raw) == ser_node(v, j, raw),
    decreases v.len() - i, 1int,
{
    assert(wf_at(v, i));
    lemma_ser_kids_congruence(v, i, j, v[i].children.len() as int, false);
    lemma_ser_kids_congruence(v, i, j, v[i].children.len() as int, true);
    lemma_ser_kids_congruence(v, i, j, v[i].children.len() as int, raw);
}

/// Parsing into an arena only appends: when a store grows while its old
/// rows stay untouched, every subtree below the old length keeps its
/// serialized form, and every row of a freshly added subtree lies beyond
/// the old length — the old and the new node sets are disjoint.
pub proof fn lemma_accretive_growth(v1: Seq<NodeV>, v2: Seq<NodeV>, i: int, n: int, x: int)
    requires
        wf_nodes(v1),
        wf_nodes(v2),
        v1.len() <= v2.len(),
        forall|j: int| 0 <= j < v1.len() ==> (#[trigger] v2[j]) == v1[j],
        0 <= i < v1.len(),
        v1.len() <= n < v2.len(),
        in_subtree(v2, n, x),
    ensures
        ser_node(v2, i, false) == ser_node(v1, i, false),
        x >= v1.len(),
{
    assert(region_closed(v1, v1.len() as int)) by {
        assert forall|a: int, y: int|
            0 <= a < v1.len() && 0 <= y < v1[a].children.len() implies ((
        #[trigger] v1[a].children[y]) as int) < v1.len() by {
            assert(wf_at(v1, a));
        }
    }
    lemma_ser_frame(v1, v2, v1.len() as int, i, false);
    lemma_in_subtree_ge(v2, n, x);
}

proof fn lemma_ser_kids_congruence(v: Seq<NodeV>, i: int, j: int, k: int, raw: bool)
    requires
        wf_nodes(v),
        0 <= i < v.len(),
        subtree_eq(v, i, j),
        0 <= k <= v[i].children.len(),
    ensures
        ser_kids(v, i, k, raw) == ser_kids(v, j, k, raw),
    decreases v.len() - i, 0int, k,
{
    assert(wf_at(v, i));
    if k > 0 {
        lemma_ser_kids_congruence(v, i, j, k - 1, raw);
        let ci = v[i].children[k - 1] as int;
        let cj = v[j].children[k - 1] as int;
        assert(subtree_eq(v, ci, cj));
        lemma_ser_congruence(v, ci, cj, raw);
    }
}

} // verus!
