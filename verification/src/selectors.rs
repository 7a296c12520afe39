//! A structural selector surface over the arena: a compound selector names
//! an optional tag, an optional identifier and required classes, and is
//! matched against the element a handle acts on, or searched for across a
//! subtree in document order.

use vstd::prelude::*;
use crate::LibError;
use crate::arena::{
    attr_lookup, attr_lookup_from, data_kind, spec_resolve, wf_at, wf_nodes, HtmlContext,
    HtmlNode, NodeV,
};
use crate::ContextId;
use crate::chars::chars_eq;
use crate::events::{NodeData, NodeDataV};
use crate::textutil::{class_runs, clean_tokens, lemma_dedup_mem, spec_split_classes, split_runs};

verus! {

/// One compound selector: an element matches when it carries the tag name
/// (if given), the identifier (if given), and every listed class.
pub struct SimpleSelector {
    pub tag: Option<Vec<char>>,
    pub id: Option<Vec<char>>,
    pub classes: Vec<Vec<char>>,
}

/// Spec-level image of a compound selector.
pub struct SimpleSelectorV {
    pub tag: Option<Seq<char>>,
    pub id: Option<Seq<char>>,
    pub classes: Seq<Seq<char>>,
}

impl View for SimpleSelector {
    type V = SimpleSelectorV;

    open spec fn view(&self) -> SimpleSelectorV {
        SimpleSelectorV {
            tag: match self.tag {
                Some(t) => Some(t@),
                None => None,
            },
            id: match self.id {
                Some(i) => Some(i@),
                None => None,
            },
            classes: self.classes@.map(|k: int, c: Vec<char>| c@),
        }
    }
}

/// Whether the row at `i` is an element matching the selector.
pub open spec fn sel_matches(nodes: Seq<NodeV>, i: int, sel: SimpleSelectorV) -> bool {
    &&& nodes[i].data matches NodeDataV::Element { .. }
    &&& (match sel.tag {
        Some(t) => nodes[i].data->Element_name == t,
        None => true,
    })
    &&& (match sel.id {
        Some(idv) => attr_lookup(nodes[i].data->Element_attrs, "id"@) == Some(idv),
        None => true,
    })
    &&& (sel.classes.len() == 0 || (attr_lookup(nodes[i].data->Element_attrs, "class"@) matches
        Some(value) && (forall|k: int|
        0 <= k < sel.classes.len() ==> spec_split_classes(value).contains(
            #[trigger] sel.classes[k],
        ))))
}

impl HtmlContext {
    /// The value of attribute `name` on row `i`, when the row is an
    /// element carrying it.
    #[verifier::loop_isolation(false)]
    fn attr_at(&self, i: usize, name: &Vec<char>) -> (r: Option<&Vec<char>>)
        requires
            self.wf(),
            (i as int) < self.nodes_view().len(),
            self.nodes_view()[i as int].data is Element,
        ensures
            match attr_lookup(self.nodes_view()[i as int].data->Element_attrs, name@) {
                Some(v) => r matches Some(x) && x@ == v,
                None => r is None,
            },
    {
        match self.node_data(i) {
            NodeData::Element { attrs, .. } => {
                let ghost av = self.nodes_view()[i as int].data->Element_attrs;
                proof {
                    assert(av == attrs@.map(|j: int, p: (Vec<char>, Vec<char>)| (p.0@, p.1@)));
                }
                let mut k: usize = 0;
                while k < attrs.len()
                    invariant
                        k <= attrs@.len(),
                        av == attrs@.map(|j: int, p: (Vec<char>, Vec<char>)| (p.0@, p.1@)),
                        av.len() == attrs@.len(),
                        attr_lookup_from(av, name@, 0) == attr_lookup_from(av, name@, k as int),
                    decreases attrs@.len() - k,
                {
                    proof {
                        assert(av[k as int] == (attrs@[k as int].0@, attrs@[k as int].1@));
                    }
                    if chars_eq(&attrs[k].0, name) {
                        return Some(&attrs[k].1);
                    }
                    k = k + 1;
                }
                None
            },
            _ => None,
        }
    }

    /// Whether the element the handle acts on matches the selector.
    pub fn match_selector(&self, node: &HtmlNode, sel: &SimpleSelector) -> (r: Result<
        bool,
        LibError,
    >)
        requires
            self.wf(),
        ensures
            node.ctx_id != self.id() ==> r == Err::<bool, LibError>(LibError::ContextMismatch),
            node.ctx_id == self.id() && !self.owns(*node) ==> r == Err::<bool, LibError>(
                LibError::InvalidHandle,
            ),
            self.owns(*node) ==> match spec_resolve(self.nodes_view(), *node) {
                Ok(i) => r == Ok::<bool, LibError>(sel_matches(self.nodes_view(), i as int, sel@)),
                Err(e) => r == Err::<bool, LibError>(e),
            },
    {
        if let Err(e) = self.check_handle(node) {
            return Err(e);
        }
        let i = match self.resolve_element(node) {
            Ok(i) => i,
            Err(e) => {
                return Err(e);
            },
        };
        Ok(self.matches_at(i, sel))
    }

    /// Whether the element row `i` matches the selector.
    #[verifier::loop_isolation(false)]
    fn matches_at(&self, i: usize, sel: &SimpleSelector) -> (r: bool)
        requires
            self.wf(),
            (i as int) < self.nodes_view().len(),
            self.nodes_view()[i as int].data is Element,
        ensures
            r == sel_matches(self.nodes_view(), i as int, sel@),
    {
        let ghost nv = self.nodes_view();
        let ghost attrs_v = nv[i as int].data->Element_attrs;
        if let Some(t) = &sel.tag {
            let matches_tag = match self.node_data(i) {
                NodeData::Element { name, .. } => chars_eq(name, t),
                _ => false,
            };
            if !matches_tag {
                return false;
            }
        }
        if let Some(idv) = &sel.id {
            let key = crate::chars::str_to_chars("id");
            match self.attr_at(i, &key) {
                Some(v) => {
                    if !chars_eq(v, idv) {
                        return false;
                    }
                },
                None => {
                    return false;
                },
            }
        }
        let ghost sc = sel@.classes;
        let key = crate::chars::str_to_chars("class");
        let class_attr = self.attr_at(i, &key);
        let mut k: usize = 0;
        while k < sel.classes.len()
            invariant
                k <= sel.classes@.len(),
                sc.len() == sel.classes@.len(),
                sc == sel@.classes,
                k > 0 ==> attr_lookup(attrs_v, "class"@) is Some,
                forall|m: int|
                    0 <= m < k ==> spec_split_classes(
                        attr_lookup(attrs_v, "class"@)->0,
                    ).contains(#[trigger] sc[m]),
            decreases sel.classes@.len() - k,
        {
            proof {
                assert(sc[k as int] == sel.classes@[k as int]@);
            }
            let value = match &class_attr {
                Some(v) => *v,
                None => {
                    proof {
                        assert(!sel_matches(nv, i as int, sel@)) by {
                            assert(attr_lookup(attrs_v, "class"@) is None);
                        }
                    }
                    return false;
                },
            };
            let toks = class_runs(value);
            let ghost tv = toks@.map(|q: int, t: Vec<char>| t@);
            let mut found = false;
            let mut q: usize = 0;
            while q < toks.len() && !found
                invariant
                    q <= toks@.len(),
                    tv.len() == toks@.len(),
                    tv == toks@.map(|w: int, t: Vec<char>| t@),
                    found ==> tv.contains(sel.classes@[k as int]@),
                    !found ==> forall|w: int|
                        0 <= w < q ==> (#[trigger] tv[w]) != sel.classes@[k as int]@,
                decreases toks@.len() - q + (if found {
                    0int
                } else {
                    1int
                }),
            {
                proof {
                    assert(tv[q as int] == toks@[q as int]@);
                }
                if chars_eq(&toks[q], &sel.classes[k]) {
                    found = true;
                    proof {
                        assert(tv.contains(sel.classes@[k as int]@));
                    }
                } else {
                    q = q + 1;
                }
            }
            proof {
                lemma_dedup_mem(clean_tokens(split_runs(value@)), sc[k as int]);
                if !found {
                    if tv.contains(sc[k as int]) {
                        let w = choose|w: int| 0 <= w < tv.len() && tv[w] == sc[k as int];
                        assert(false);
                    }
                }
            }
            if !found {
                proof {
                    assert(!sel_matches(nv, i as int, sel@)) by {
                        assert(!spec_split_classes(value@).contains(sc[k as int]));
                        assert(attr_lookup(attrs_v, "class"@) is Some);
                        assert(value@ == attr_lookup(attrs_v, "class"@)->0);
                    }
                }
                return false;
            }
            proof {
                assert(attr_lookup(attrs_v, "class"@) is Some);
                assert(value@ == attr_lookup(attrs_v, "class"@)->0);
            }
            k = k + 1;
        }
        proof {
            if sel@.classes.len() > 0 {
                assert(attr_lookup(attrs_v, "class"@) is Some);
                assert forall|m: int| 0 <= m < sel@.classes.len() implies spec_split_classes(
                    attr_lookup(attrs_v, "class"@)->0,
                ).contains(#[trigger] sel@.classes[m]) by {
                    assert(sel@.classes[m] == sc[m]);
                }
            }
            assert(sel_matches(nv, i as int, sel@));
        }
        true
    }
}


/// The handles an arena with identifier `id` mints for the rows `xs`.
pub open spec fn handles_of(nodes: Seq<NodeV>, id: ContextId, xs: Seq<usize>) -> Seq<HtmlNode> {
    xs.map(
        |k: int, x: usize| HtmlNode { ctx_id: id, node_id: x, kind: data_kind(nodes[x as int].data) },
    )
}

/// The matching rows of the subtree at `i`, itself included, in document
/// order.
pub open spec fn select_sub(nodes: Seq<NodeV>, i: int, sel: SimpleSelectorV) -> Seq<usize>
    decreases nodes.len() - i, 1int, 0int,
    when 0 <= i < nodes.len() && wf_nodes(nodes)
    via select_sub_decreases
{
    (if sel_matches(nodes, i, sel) {
        seq![i as usize]
    } else {
        Seq::empty()
    }) + select_kids(nodes, i, nodes[i].children.len() as int, sel)
}

/// The matching rows among the first `k` children's subtrees of row `i`.
pub open spec fn select_kids(nodes: Seq<NodeV>, i: int, k: int, sel: SimpleSelectorV) -> Seq<usize>
    decreases nodes.len() - i, 0int, k,
    when 0 <= i < nodes.len() && k <= nodes[i].children.len() && wf_nodes(nodes)
    via select_kids_decreases
{
    if k <= 0 {
        Seq::empty()
    } else {
        select_kids(nodes, i, k - 1, sel) + select_sub(nodes, nodes[i].children[k - 1] as int, sel)
    }
}

#[via_fn]
proof fn select_sub_decreases(nodes: Seq<NodeV>, i: int, sel: SimpleSelectorV) {
    assert(wf_at(nodes, i));
}

#[via_fn]
proof fn select_kids_decreases(nodes: Seq<NodeV>, i: int, k: int, sel: SimpleSelectorV) {
    assert(wf_at(nodes, i));
}

impl HtmlContext {
    /// The handles of all matching elements among the descendants of the
    /// element the handle acts on, in document order.
    pub fn select(&self, node: &HtmlNode, sel: &SimpleSelector) -> (r: Result<
        Vec<HtmlNode>,
        LibError,
    >)
        requires
            self.wf(),
        ensures
            node.ctx_id != self.id() ==> r == Err::<Vec<HtmlNode>, LibError>(
                LibError::ContextMismatch,
            ),
            node.ctx_id == self.id() && !self.owns(*node) ==> r == Err::<Vec<HtmlNode>, LibError>(
                LibError::InvalidHandle,
            ),
            self.owns(*node) ==> match spec_resolve(self.nodes_view(), *node) {
                Ok(i) => (r matches Ok(v) && v@ == handles_of(
                    self.nodes_view(),
                    self.id(),
                    select_kids(
                        self.nodes_view(),
                        i as int,
                        self.nodes_view()[i as int].children.len() as int,
                        sel@,
                    ),
                )),
                Err(e) => r == Err::<Vec<HtmlNode>, LibError>(e),
            },
    {
        if let Err(e) = self.check_handle(node) {
            return Err(e);
        }
        let i = match self.resolve_element(node) {
            Ok(i) => i,
            Err(e) => {
                return Err(e);
            },
        };
        let mut out: Vec<HtmlNode> = Vec::new();
        self.select_children(i, sel, &mut out);
        Ok(out)
    }

    /// Appends the handles of the matching rows of the subtree at `i`.
    #[verifier::loop_isolation(false)]
    fn select_rec(&self, i: usize, sel: &SimpleSelector, out: &mut Vec<HtmlNode>)
        requires
            self.wf(),
            (i as int) < self.nodes_view().len(),
        ensures
            final(out)@ == old(out)@ + handles_of(
                self.nodes_view(),
                self.id(),
                select_sub(self.nodes_view(), i as int, sel@),
            ),
        decreases self.nodes_view().len() - i, 1int, 0int,
    {
        let ghost nv = self.nodes_view();
        proof {
            assert(wf_at(nv, i as int));
        }
        let is_element = match self.node_data(i) {
            NodeData::Element { .. } => true,
            _ => false,
        };
        let matched = if is_element {
            self.matches_at(i, sel)
        } else {
            proof {
                assert(!sel_matches(nv, i as int, sel@));
            }
            false
        };
        if matched {
            let kind = crate::arena::data_kind_exec(self.node_data(i));
            out.push(HtmlNode { ctx_id: self.ctx_id(), node_id: i, kind });
        }
        let ghost mid = out@;
        self.select_children(i, sel, out);
        proof {
            let subs = select_sub(nv, i as int, sel@);
            let kids = select_kids(nv, i as int, nv[i as int].children.len() as int, sel@);
            assert(final(out)@ =~= old(out)@ + handles_of(nv, self.id(), subs)) by {
                assert(final(out)@ == mid + handles_of(nv, self.id(), kids));
            }
        }
    }

    /// Appends the handles of the matching rows of all children of row
    /// `i`.
    #[verifier::loop_isolation(false)]
    fn select_children(&self, i: usize, sel: &SimpleSelector, out: &mut Vec<HtmlNode>)
        requires
            self.wf(),
            (i as int) < self.nodes_view().len(),
        ensures
            final(out)@ == old(out)@ + handles_of(
                self.nodes_view(),
                self.id(),
                select_kids(
                    self.nodes_view(),
                    i as int,
                    self.nodes_view()[i as int].children.len() as int,
                    sel@,
                ),
            ),
        decreases self.nodes_view().len() - i, 0int, 1int,
    {
        let ghost nv = self.nodes_view();
        proof {
            assert(wf_at(nv, i as int));
        }
        let clen = self.child_count_at(i);
        let mut k: usize = 0;
        proof {
            assert(out@ =~= old(out)@ + handles_of(nv, self.id(), select_kids(nv, i as int, 0, sel@)));
        }
        while k < clen
            invariant
                k <= clen,
                out@ == old(out)@ + handles_of(nv, self.id(), select_kids(nv, i as int, k as int, sel@)),
            decreases clen - k,
        {
            let c = self.child_at(i, k);
            proof {
                assert(wf_at(nv, i as int));
            }
            self.select_rec(c, sel, out);
            proof {
                assert(out@ =~= old(out)@ + handles_of(
                    nv,
                    self.id(),
                    select_kids(nv, i as int, k as int + 1, sel@),
                ));
            }
            k = k + 1;
        }
    }
}


impl HtmlContext {
    /// The first matching descendant of the element the handle acts on,
    /// or nothing when no descendant matches.
    pub fn select_one(&self, node: &HtmlNode, sel: &SimpleSelector) -> (r: Result<
        Option<HtmlNode>,
        LibError,
    >)
        requires
            self.wf(),
        ensures
            node.ctx_id != self.id() ==> r == Err::<Option<HtmlNode>, LibError>(
                LibError::ContextMismatch,
            ),
            node.ctx_id == self.id() && !self.owns(*node) ==> r == Err::<Option<HtmlNode>, LibError>(
                LibError::InvalidHandle,
            ),
            self.owns(*node) ==> match spec_resolve(self.nodes_view(), *node) {
                Ok(i) => ({
                    let found = select_kids(
                        self.nodes_view(),
                        i as int,
                        self.nodes_view()[i as int].children.len() as int,
                        sel@,
                    );
                    if found.len() == 0 {
                        r == Ok::<Option<HtmlNode>, LibError>(None)
                    } else {
                        r == Ok::<Option<HtmlNode>, LibError>(
                            Some(handles_of(self.nodes_view(), self.id(), found)[0]),
                        )
                    }
                }),
                Err(e) => r == Err::<Option<HtmlNode>, LibError>(e),
            },
    {
        let all = match self.select(node, sel) {
            Ok(v) => v,
            Err(e) => {
                return Err(e);
            },
        };
        if all.len() == 0 {
            Ok(None)
        } else {
            Ok(Some(all[0]))
        }
    }

    /// The handles of every node strictly under the element the handle
    /// acts on, in document order.
    pub fn descendants(&self, node: &HtmlNode) -> (r: Result<Vec<HtmlNode>, LibError>)
        requires
            self.wf(),
        ensures
            node.ctx_id != self.id() ==> r == Err::<Vec<HtmlNode>, LibError>(
                LibError::ContextMismatch,
            ),
            node.ctx_id == self.id() && !self.owns(*node) ==> r == Err::<Vec<HtmlNode>, LibError>(
                LibError::InvalidHandle,
            ),
            self.owns(*node) ==> match spec_resolve(self.nodes_view(), *node) {
                Ok(i) => (r matches Ok(v) && v@ == handles_of(
                    self.nodes_view(),
                    self.id(),
                    desc_kids(
                        self.nodes_view(),
                        i as int,
                        self.nodes_view()[i as int].children.len() as int,
                    ),
                )),
                Err(e) => r == Err::<Vec<HtmlNode>, LibError>(e),
            },
    {
        if let Err(e) = self.check_handle(node) {
            return Err(e);
        }
        let i = match self.resolve_element(node) {
            Ok(i) => i,
            Err(e) => {
                return Err(e);
            },
        };
        let mut out: Vec<HtmlNode> = Vec::new();
        self.desc_children(i, &mut out);
        Ok(out)
    }

    /// Appends the handles of every row of the subtree at `i`, itself
    /// first.
    #[verifier::loop_isolation(false)]
    fn desc_rec(&self, i: usize, out: &mut Vec<HtmlNode>)
        requires
            self.wf(),
            (i as int) < self.nodes_view().len(),
        ensures
            final(out)@ == old(out)@ + handles_of(
                self.nodes_view(),
                self.id(),
                desc_sub(self.nodes_view(), i as int),
            ),
        decreases self.nodes_view().len() - i, 1int, 0int,
    {
        let ghost nv = self.nodes_view();
        proof {
            assert(wf_at(nv, i as int));
        }
        let kind = crate::arena::data_kind_exec(self.node_data(i));
        out.push(HtmlNode { ctx_id: self.ctx_id(), node_id: i, kind });
        let ghost mid = out@;
        self.desc_children(i, out);
        proof {
            assert(final(out)@ =~= old(out)@ + handles_of(nv, self.id(), desc_sub(nv, i as int)));
        }
    }

    /// Appends the handles of every row under the children of row `i`.
    #[verifier::loop_isolation(false)]
    fn desc_children(&self, i: usize, out: &mut Vec<HtmlNode>)
        requires
            self.wf(),
            (i as int) < self.nodes_view().len(),
        ensures
            final(out)@ == old(out)@ + handles_of(
                self.nodes_view(),
                self.id(),
                desc_kids(
                    self.nodes_view(),
                    i as int,
                    self.nodes_view()[i as int].children.len() as int,
                ),
            ),
        decreases self.nodes_view().len() - i, 0int, 1int,
    {
        let ghost nv = self.nodes_view();
        proof {
            assert(wf_at(nv, i as int));
        }
        let clen = self.child_count_at(i);
        let mut k: usize = 0;
        proof {
            assert(out@ =~= old(out)@ + handles_of(nv, self.id(), desc_kids(nv, i as int, 0)));
        }
        while k < clen
            invariant
                k <= clen,
                out@ == old(out)@ + handles_of(nv, self.id(), desc_kids(nv, i as int, k as int)),
            decreases clen - k,
        {
            let c = self.child_at(i, k);
            proof {
                assert(wf_at(nv, i as int));
            }
            self.desc_rec(c, out);
            proof {
                assert(out@ =~= old(out)@ + handles_of(
                    nv,
                    self.id(),
                    desc_kids(nv, i as int, k as int + 1),
                ));
            }
            k = k + 1;
        }
    }
}

/// The rows of the subtree at `i`, itself included, in document order.
pub open spec fn desc_sub(nodes: Seq<NodeV>, i: int) -> Seq<usize>
    decreases nodes.len() - i, 1int, 0int,
    when 0 <= i < nodes.len() && wf_nodes(nodes)
    via desc_sub_decreases
{
    seq![i as usize] + desc_kids(nodes, i, nodes[i].children.len() as int)
}

/// The rows under the first `k` children of row `i`, in document order.
pub open spec fn desc_kids(nodes: Seq<NodeV>, i: int, k: int) -> Seq<usize>
    decreases nodes.len() - i, 0int, k,
    when 0 <= i < nodes.len() && k <= nodes[i].children.len() && wf_nodes(nodes)
    via desc_kids_decreases
{
    if k <= 0 {
        Seq::empty()
    } else {
        desc_kids(nodes, i, k - 1) + desc_sub(nodes, nodes[i].children[k - 1] as int)
    }
}

#[via_fn]
proof fn desc_sub_decreases(nodes: Seq<NodeV>, i: int) {
    assert(wf_at(nodes, i));
}

#[via_fn]
proof fn desc_kids_decreases(nodes: Seq<NodeV>, i: int, k: int) {
    assert(wf_at(nodes, i));
}


/// Whether the character separates selector parts.
pub open spec fn sel_meta(c: char) -> bool {
    c == '#' || c == '.'
}

/// The length of the leading run of non-separator characters.
pub open spec fn ident_len(s: Seq<char>) -> int
    decreases s.len(),
{
    if s.len() == 0 || sel_meta(s[0]) {
        0
    } else {
        1 + ident_len(s.drop_first())
    }
}

proof fn lemma_ident_len_bounds(s: Seq<char>)
    ensures
        0 <= ident_len(s) <= s.len(),
    decreases s.len(),
{
    if s.len() > 0 && !sel_meta(s[0]) {
        lemma_ident_len_bounds(s.drop_first());
    }
}

proof fn lemma_ident_len_is(s: Seq<char>, k: int)
    requires
        0 <= k <= s.len(),
        forall|m: int| 0 <= m < k ==> !sel_meta(s[m]),
        k == s.len() || sel_meta(s[k]),
    ensures
        ident_len(s) == k,
    decreases k,
{
    if k > 0 {
        lemma_ident_len_is(s.drop_first(), k - 1);
    }
}

/// An identifier character: a letter, digit, dash, underscore, or any
/// character beyond ASCII.
pub open spec fn ident_char(c: char) -> bool {
    ||| (97 <= c as u32 && c as u32 <= 122)
    ||| (65 <= c as u32 && c as u32 <= 90)
    ||| (48 <= c as u32 && c as u32 <= 57)
    ||| c == '-'
    ||| c == '_'
    ||| c as u32 >= 0x80
}

/// Executable identifier-character test.
fn ident_char_exec(c: char) -> (r: bool)
    ensures
        r == ident_char(c),
{
    let v = c as u32;
    (97 <= v && v <= 122) || (65 <= v && v <= 90) || (48 <= v && v <= 57) || c == '-' || c == '_'
        || v >= 0x80
}

/// Whether the token is a lone name: non-empty and made of identifier
/// characters — anything else in that position is selector syntax this
/// grammar does not carry (combinators, attribute tests, pseudo-classes).
pub open spec fn ident_ok(tok: Seq<char>) -> bool {
    tok.len() > 0 && (forall|i: int| 0 <= i < tok.len() ==> ident_char(tok[i]))
}

/// Parses the `#name` and `.name` parts after the tag position onto `acc`;
/// a later identifier wins. Anything else fails the parse.
pub open spec fn parse_parts(s: Seq<char>, acc: SimpleSelectorV) -> Option<SimpleSelectorV>
    decreases s.len(),
    via parse_parts_decreases
{
    if s.len() == 0 {
        Some(acc)
    } else if s[0] == '#' {
        let rest = s.drop_first();
        let tok = rest.take(ident_len(rest));
        if ident_ok(tok) {
            parse_parts(
                rest.skip(ident_len(rest)),
                SimpleSelectorV { tag: acc.tag, id: Some(tok), classes: acc.classes },
            )
        } else {
            None
        }
    } else if s[0] == '.' {
        let rest = s.drop_first();
        let tok = rest.take(ident_len(rest));
        if ident_ok(tok) {
            parse_parts(
                rest.skip(ident_len(rest)),
                SimpleSelectorV { tag: acc.tag, id: acc.id, classes: acc.classes.push(tok) },
            )
        } else {
            None
        }
    } else {
        None
    }
}

#[via_fn]
proof fn parse_parts_decreases(s: Seq<char>, acc: SimpleSelectorV) {
    if s.len() > 0 {
        lemma_ident_len_bounds(s.drop_first());
    }
}

/// The compound selector a piece of selector text denotes: an optional
/// leading tag name or universal marker, then identifier and class parts.
/// Text outside this grammar denotes nothing.
pub open spec fn spec_parse_selector(s: Seq<char>) -> Option<SimpleSelectorV> {
    let empty = SimpleSelectorV { tag: None, id: None, classes: Seq::empty() };
    if s.len() == 0 {
        None
    } else if s[0] == '*' {
        parse_parts(s.drop_first(), empty)
    } else if sel_meta(s[0]) {
        parse_parts(s, empty)
    } else {
        let tok = s.take(ident_len(s));
        if ident_ok(tok) {
            parse_parts(
                s.skip(ident_len(s)),
                SimpleSelectorV { tag: Some(tok), id: None, classes: Seq::empty() },
            )
        } else {
            None
        }
    }
}

/// Reads the leading identifier run starting at `i`; faults when it is
/// empty or holds a non-identifier character.
#[verifier::loop_isolation(false)]
fn read_ident(cv: &Vec<char>, i: usize) -> (r: Result<(Vec<char>, usize), LibError>)
    requires
        i as int <= cv@.len(),
    ensures
        ({
            let suf = cv@.skip(i as int);
            let tok = suf.take(ident_len(suf));
            if ident_ok(tok) {
                r matches Ok((t, j)) && t@ == tok && j as int == i + ident_len(suf)
                    && i < j <= cv@.len()
            } else {
                r == Err::<(Vec<char>, usize), LibError>(LibError::ParseFailed)
            }
        }),
{
    let ghost suf = cv@.skip(i as int);
    let n = cv.len();
    let mut j = i;
    while j < n && cv[j] != '#' && cv[j] != '.'
        invariant
            i <= j <= n,
            forall|m: int| i <= m < j ==> !sel_meta(cv@[m]),
        decreases n - j,
    {
        j = j + 1;
    }
    proof {
        lemma_ident_len_is(suf, j - i);
        assert(suf.take(j - i) =~= cv@.subrange(i as int, j as int));
    }
    if j == i {
        return Err(LibError::ParseFailed);
    }
    let mut tok: Vec<char> = Vec::new();
    let mut m = i;
    while m < j
        invariant
            i <= m <= j <= n,
            tok@ == cv@.subrange(i as int, m as int),
            forall|w: int| i <= w < m ==> ident_char(cv@[w]),
        decreases j - m,
    {
        let c = cv[m];
        if !ident_char_exec(c) {
            proof {
                assert(!ident_ok(cv@.subrange(i as int, j as int))) by {
                    assert(cv@.subrange(i as int, j as int)[m - i] == cv@[m as int]);
                }
            }
            return Err(LibError::ParseFailed);
        }
        tok.push(c);
        proof {
            assert(tok@ =~= cv@.subrange(i as int, m as int + 1));
        }
        m = m + 1;
    }
    proof {
        assert(ident_ok(cv@.subrange(i as int, j as int))) by {
            assert forall|w: int| 0 <= w < j - i implies ident_char(
                #[trigger] cv@.subrange(i as int, j as int)[w],
            ) by {
                assert(cv@.subrange(i as int, j as int)[w] == cv@[i + w]);
            }
        }
    }
    Ok((tok, j))
}

/// Parses a piece of selector text into the structural form: an optional
/// tag or `*`, then `#name` and `.name` parts. Combinators, attribute
/// tests and every other selector form are outside this grammar and fault.
#[verifier::loop_isolation(false)]
pub fn parse_selector(text: &str) -> (r: Result<SimpleSelector, LibError>)
    ensures
        match spec_parse_selector(text@) {
            Some(sv) => r matches Ok(sel) && sel@ == sv,
            None => r == Err::<SimpleSelector, LibError>(LibError::ParseFailed),
        },
{
    let cv = crate::chars::str_to_chars(text);
    let ghost cs = cv@;
    let n = cv.len();
    if n == 0 {
        return Err(LibError::ParseFailed);
    }
    let mut sel = SimpleSelector { tag: None, id: None, classes: Vec::new() };
    let mut i: usize;
    if cv[0] == '*' {
        i = 1;
        proof {
            assert(cs.skip(1) =~= cs.drop_first());
        }
    } else if cv[0] == '#' || cv[0] == '.' {
        i = 0;
        proof {
            assert(cs.skip(0) =~= cs);
        }
    } else {
        let (tok, j) = match read_ident(&cv, 0) {
            Ok(p) => p,
            Err(e) => {
                proof {
                    assert(cs.skip(0) =~= cs);
                    assert(cs.skip(0).take(ident_len(cs.skip(0))) =~= cs.take(ident_len(cs)));
                }
                return Err(e);
            },
        };
        proof {
            assert(cs.skip(0) =~= cs);
            assert(cs.skip(0).take(ident_len(cs.skip(0))) =~= cs.take(ident_len(cs)));
        }
        sel.tag = Some(tok);
        i = j;
    }
    let ghost acc0 = sel@;
    proof {
        assert(sel@.classes =~= Seq::<Seq<char>>::empty());
        assert(spec_parse_selector(cs) == parse_parts(cs.skip(i as int), sel@));
    }
    while i < n
        invariant
            i <= n,
            n as int == cs.len(),
            cs == cv@,
            spec_parse_selector(cs) == parse_parts(cs.skip(i as int), sel@),
        decreases n - i,
    {
        let ghost pre = sel@;
        let ghost suf = cs.skip(i as int);
        let c = cv[i];
        if c == '#' {
            let (tok, j) = match read_ident(&cv, i + 1) {
                Ok(p) => p,
                Err(e) => {
                    proof {
                        assert(suf.drop_first() =~= cs.skip(i as int + 1));
                    }
                    return Err(e);
                },
            };
            proof {
                assert(suf.drop_first() =~= cs.skip(i as int + 1));
                assert(cs.skip(i as int + 1).skip(ident_len(cs.skip(i as int + 1))) =~= cs.skip(
                    j as int,
                ));
            }
            sel.id = Some(tok);
            i = j;
        } else if c == '.' {
            let (tok, j) = match read_ident(&cv, i + 1) {
                Ok(p) => p,
                Err(e) => {
                    proof {
                        assert(suf.drop_first() =~= cs.skip(i as int + 1));
                    }
                    return Err(e);
                },
            };
            proof {
                assert(suf.drop_first() =~= cs.skip(i as int + 1));
                assert(cs.skip(i as int + 1).skip(ident_len(cs.skip(i as int + 1))) =~= cs.skip(
                    j as int,
                ));
            }
            sel.classes.push(tok);
            proof {
                assert(sel@.classes =~= pre.classes.push(
                    cs.skip(i as int + 1).take(ident_len(cs.skip(i as int + 1))),
                ));
            }
            i = j;
        } else {
            proof {
                assert(suf[0] == cs[i as int]);
            }
            return Err(LibError::ParseFailed);
        }
    }
    proof {
        assert(cs.skip(n as int) =~= Seq::<char>::empty());
    }
    Ok(sel)
}


impl HtmlContext {
    /// Whether the element the handle acts on matches the selector text;
    /// text outside the supported grammar faults.
    pub fn match_selector_str(&self, node: &HtmlNode, text: &str) -> (r: Result<bool, LibError>)
        requires
            self.wf(),
        ensures
            match spec_parse_selector(text@) {
                None => r == Err::<bool, LibError>(LibError::ParseFailed),
                Some(sv) => {
                    &&& node.ctx_id != self.id() ==> r == Err::<bool, LibError>(
                        LibError::ContextMismatch,
                    )
                    &&& node.ctx_id == self.id() && !self.owns(*node) ==> r == Err::<
                        bool,
                        LibError,
                    >(LibError::InvalidHandle)
                    &&& self.owns(*node) ==> match spec_resolve(self.nodes_view(), *node) {
                        Ok(i) => r == Ok::<bool, LibError>(
                            sel_matches(self.nodes_view(), i as int, sv),
                        ),
                        Err(e) => r == Err::<bool, LibError>(e),
                    }
                },
            },
    {
        let sel = match parse_selector(text) {
            Ok(s) => s,
            Err(e) => {
                return Err(e);
            },
        };
        self.match_selector(node, &sel)
    }

    /// The handles of all matching descendants of the element the handle
    /// acts on, for a selector given as text; text outside the supported
    /// grammar faults.
    pub fn select_str(&self, node: &HtmlNode, text: &str) -> (r: Result<Vec<HtmlNode>, LibError>)
        requires
            self.wf(),
        ensures
            match spec_parse_selector(text@) {
                None => r == Err::<Vec<HtmlNode>, LibError>(LibError::ParseFailed),
                Some(sv) => {
                    &&& node.ctx_id != self.id() ==> r == Err::<Vec<HtmlNode>, LibError>(
                        LibError::ContextMismatch,
                    )
                    &&& node.ctx_id == self.id() && !self.owns(*node) ==> r == Err::<
                        Vec<HtmlNode>,
                        LibError,
                    >(LibError::InvalidHandle)
                    &&& self.owns(*node) ==> match spec_resolve(self.nodes_view(), *node) {
                        Ok(i) => (r matches Ok(v) && v@ == handles_of(
                            self.nodes_view(),
                            self.id(),
                            select_kids(
                                self.nodes_view(),
                                i as int,
                                self.nodes_view()[i as int].children.len() as int,
                                sv,
                            ),
                        )),
                        Err(e) => r == Err::<Vec<HtmlNode>, LibError>(e),
                    }
                },
            },
    {
        let sel = match parse_selector(text) {
            Ok(s) => s,
            Err(e) => {
                return Err(e);
            },
        };
        self.select(node, &sel)
    }
}

} // verus!
