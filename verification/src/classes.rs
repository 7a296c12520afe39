//! The class surface of elements: reading, testing and rewriting the
//! `class` attribute through the split-and-deduplicate view.

use vstd::prelude::*;
use crate::LibError;
use crate::arena::{attr_lookup, attr_set_from, spec_resolve, HtmlContext, HtmlNode, NodeV};
use crate::events::NodeDataV;
use crate::chars::{chars_eq, str_to_chars};
use crate::textutil::{check_class_name, sel_ws, spec_split_classes, split_classes, unicode_ws};

verus! {

/// The token list without every occurrence of `name`.
pub open spec fn remove_token(toks: Seq<Seq<char>>, name: Seq<char>) -> Seq<Seq<char>>
    decreases toks.len(),
{
    if toks.len() == 0 {
        Seq::empty()
    } else if toks.last() == name {
        remove_token(toks.drop_last(), name)
    } else {
        remove_token(toks.drop_last(), name).push(toks.last())
    }
}

/// The class value after removing `name`: the remaining distinct classes
/// joined by single spaces.
pub open spec fn removed_classes(value: Seq<char>, name: Seq<char>) -> Seq<char> {
    crate::serialize::joined_spaces(remove_token(spec_split_classes(value), name))
}

/// Whether the name is a valid single class: free of the separating
/// whitespace, and equal to its trimmed form — no White_Space character
/// edges it.
pub open spec fn valid_class(name: Seq<char>) -> bool {
    &&& (forall|i: int| 0 <= i < name.len() ==> !sel_ws(name[i]))
    &&& (name.len() > 0 ==> !unicode_ws(name[0]) && !unicode_ws(name[name.len() - 1]))
}

/// Whether `toks` holds a token equal to `name`.
fn tokens_contain(toks: &Vec<String>, name: &Vec<char>) -> (r: bool)
    ensures
        r == toks@.map(|i: int, s: String| s@).contains(name@),
{
    let ghost tv = toks@.map(|i: int, s: String| s@);
    let mut i: usize = 0;
    while i < toks.len()
        invariant
            i <= toks@.len(),
            tv.len() == toks@.len(),
            tv == toks@.map(|q: int, s: String| s@),
            forall|m: int| 0 <= m < i ==> tv[m] != name@,
        decreases toks@.len() - i,
    {
        proof {
            assert(tv[i as int] == toks@[i as int]@);
        }
        let sc = str_to_chars(toks[i].as_str());
        if chars_eq(&sc, name) {
            proof {
                assert(tv.contains(name@));
            }
            return true;
        }
        i = i + 1;
    }
    proof {
        if tv.contains(name@) {
            let m = choose|m: int| 0 <= m < tv.len() && tv[m] == name@;
            assert(false);
        }
    }
    false
}

impl HtmlContext {
    /// The distinct class names of the element the handle acts on, in
    /// order of first occurrence; an element without a `class` attribute
    /// has none.
    pub fn get_classes(&self, node: &HtmlNode) -> (r: Result<Vec<String>, LibError>)
        requires
            self.wf(),
        ensures
            node.ctx_id != self.id() ==> r == Err::<Vec<String>, LibError>(
                LibError::ContextMismatch,
            ),
            node.ctx_id == self.id() && !self.owns(*node) ==> r == Err::<Vec<String>, LibError>(
                LibError::InvalidHandle,
            ),
            self.owns(*node) ==> match spec_resolve(self.nodes_view(), *node) {
                Ok(i) => (r matches Ok(v) && v@.map(|q: int, s: String| s@) == (match attr_lookup(
                    self.nodes_view()[i as int].data->Element_attrs,
                    "class"@,
                ) {
                    Some(value) => spec_split_classes(value),
                    None => Seq::<Seq<char>>::empty(),
                })),
                Err(e) => r == Err::<Vec<String>, LibError>(e),
            },
    {
        let value = match self.get_attribute(node, "class") {
            Ok(v) => v,
            Err(e) => {
                return Err(e);
            },
        };
        match value {
            Some(s) => Ok(split_classes(s.as_str())),
            None => {
                let r: Vec<String> = Vec::new();
                proof {
                    assert(r@.map(|q: int, s: String| s@) =~= Seq::<Seq<char>>::empty());
                }
                Ok(r)
            },
        }
    }

    /// Whether the element carries the class `name`. A name holding
    /// whitespace is rejected when there are classes to compare against.
    pub fn has_class(&self, node: &HtmlNode, name: &str) -> (r: Result<bool, LibError>)
        requires
            self.wf(),
        ensures
            node.ctx_id != self.id() ==> r == Err::<bool, LibError>(LibError::ContextMismatch),
            node.ctx_id == self.id() && !self.owns(*node) ==> r == Err::<bool, LibError>(
                LibError::InvalidHandle,
            ),
            self.owns(*node) ==> match spec_resolve(self.nodes_view(), *node) {
                Ok(i) => match attr_lookup(
                    self.nodes_view()[i as int].data->Element_attrs,
                    "class"@,
                ) {
                    Some(value) => {
                        if valid_class(name@) {
                            r == Ok::<bool, LibError>(spec_split_classes(value).contains(name@))
                        } else {
                            r == Err::<bool, LibError>(LibError::InvalidClassName)
                        }
                    },
                    None => r == Ok::<bool, LibError>(false),
                },
                Err(e) => r == Err::<bool, LibError>(e),
            },
    {
        let value = match self.get_attribute(node, "class") {
            Ok(v) => v,
            Err(e) => {
                return Err(e);
            },
        };
        match value {
            None => Ok(false),
            Some(s) => {
                if let Err(e) = check_class_name(name) {
                    return Err(e);
                }
                let toks = split_classes(s.as_str());
                let nc = str_to_chars(name);
                Ok(tokens_contain(&toks, &nc))
            },
        }
    }

    /// Adds the class `name` to the element: appended to the existing
    /// `class` value when absent, a fresh `class` attribute when there was
    /// none, and left alone when already present.
    pub fn add_class(&mut self, node: &HtmlNode, name: &str) -> (r: Result<(), LibError>)
        requires
            old(self).wf(),
        ensures
            final(self).wf(),
            final(self).id() == old(self).id(),
            r is Err ==> *final(self) == *old(self),
            node.ctx_id != old(self).id() ==> r == Err::<(), LibError>(LibError::ContextMismatch),
            node.ctx_id == old(self).id() && !old(self).owns(*node) ==> r == Err::<(), LibError>(
                LibError::InvalidHandle,
            ),
            old(self).owns(*node) ==> match spec_resolve(old(self).nodes_view(), *node) {
                Ok(i) => {
                    if !valid_class(name@) {
                        r == Err::<(), LibError>(LibError::InvalidClassName)
                    } else {
                        match attr_lookup(
                            old(self).nodes_view()[i as int].data->Element_attrs,
                            "class"@,
                        ) {
                            Some(value) => {
                                if spec_split_classes(value).contains(name@) {
                                    r is Ok && *final(self) == *old(self)
                                } else {
                                    r is Ok && final(self).nodes_view() == class_updated(
                                        old(self).nodes_view(),
                                        i as int,
                                        value + seq![' '] + name@,
                                    )
                                }
                            },
                            None => r is Ok && final(self).nodes_view() == class_updated(
                                old(self).nodes_view(),
                                i as int,
                                name@,
                            ),
                        }
                    }
                },
                Err(e) => r == Err::<(), LibError>(e),
            },
    {
        if let Err(e) = self.check_handle(node) {
            return Err(e);
        }
        let value = match self.get_attribute(node, "class") {
            Ok(v) => v,
            Err(e) => {
                return Err(e);
            },
        };
        if let Err(e) = check_class_name(name) {
            return Err(e);
        }
        match value {
            None => {
                match self.set_attribute(node, "class", name) {
                    Ok(()) => Ok(()),
                    Err(e) => Err(e),
                }
            },
            Some(s) => {
                let toks = split_classes(s.as_str());
                let nc = str_to_chars(name);
                if tokens_contain(&toks, &nc) {
                    return Ok(());
                }
                let mut combined = str_to_chars(s.as_str());
                combined.push(' ');
                crate::chars::append_chars(&mut combined, &nc);
                let combined_s = crate::chars::chars_to_string(&combined);
                proof {
                    assert(combined_s@ =~= s@ + seq![' '] + name@);
                }
                match self.set_attribute(node, "class", combined_s.as_str()) {
                    Ok(()) => Ok(()),
                    Err(e) => Err(e),
                }
            },
        }
    }

    /// Removes the class `name` from the element: the remaining classes
    /// are rejoined; an element without a `class` attribute is left alone.
    pub fn remove_class(&mut self, node: &HtmlNode, name: &str) -> (r: Result<(), LibError>)
        requires
            old(self).wf(),
        ensures
            final(self).wf(),
            final(self).id() == old(self).id(),
            r is Err ==> *final(self) == *old(self),
            node.ctx_id != old(self).id() ==> r == Err::<(), LibError>(LibError::ContextMismatch),
            node.ctx_id == old(self).id() && !old(self).owns(*node) ==> r == Err::<(), LibError>(
                LibError::InvalidHandle,
            ),
            old(self).owns(*node) ==> match spec_resolve(old(self).nodes_view(), *node) {
                Ok(i) => match attr_lookup(
                    old(self).nodes_view()[i as int].data->Element_attrs,
                    "class"@,
                ) {
                    Some(value) => {
                        if valid_class(name@) {
                            r is Ok && final(self).nodes_view() == class_updated(
                                old(self).nodes_view(),
                                i as int,
                                removed_classes(value, name@),
                            )
                        } else {
                            r == Err::<(), LibError>(LibError::InvalidClassName)
                        }
                    },
                    None => r is Ok && *final(self) == *old(self),
                },
                Err(e) => r == Err::<(), LibError>(e),
            },
    {
        if let Err(e) = self.check_handle(node) {
            return Err(e);
        }
        let value = match self.get_attribute(node, "class") {
            Ok(v) => v,
            Err(e) => {
                return Err(e);
            },
        };
        match value {
            None => Ok(()),
            Some(s) => {
                if let Err(e) = check_class_name(name) {
                    return Err(e);
                }
                let toks = split_classes(s.as_str());
                let ghost tv = toks@.map(|q: int, t: String| t@);
                let nc = str_to_chars(name);
                let mut kept: Vec<String> = Vec::new();
                let mut i: usize = 0;
                proof {
                    assert(tv.take(0) =~= Seq::<Seq<char>>::empty());
                    assert(kept@.map(|q: int, t: String| t@) =~= remove_token(tv.take(0), name@));
                }
                while i < toks.len()
                    invariant
                        i <= toks@.len(),
                        tv.len() == toks@.len(),
                        tv == toks@.map(|q: int, t: String| t@),
                        nc@ == name@,
                        kept@.map(|q: int, t: String| t@) == remove_token(tv.take(i as int), name@),
                    decreases toks@.len() - i,
                {
                    proof {
                        assert(tv[i as int] == toks@[i as int]@);
                        assert(tv.take(i as int + 1).drop_last() =~= tv.take(i as int));
                        assert(tv.take(i as int + 1).last() == tv[i as int]);
                    }
                    let sc = str_to_chars(toks[i].as_str());
                    if !chars_eq(&sc, &nc) {
                        let ghost kpre = kept@.map(|q: int, t: String| t@);
                        kept.push(crate::chars::chars_to_string(&sc));
                        proof {
                            assert(kept@.map(|q: int, t: String| t@) =~= kpre.push(tv[i as int]));
                        }
                    }
                    i = i + 1;
                }
                proof {
                    assert(tv.take(tv.len() as int) =~= tv);
                }
                let mut joined: Vec<char> = Vec::new();
                let ghost kv = kept@.map(|q: int, t: String| t@);
                let mut w: usize = 0;
                proof {
                    assert(kv.take(0) =~= Seq::<Seq<char>>::empty());
                }
                while w < kept.len()
                    invariant
                        w <= kept@.len(),
                        kv.len() == kept@.len(),
                        kv == kept@.map(|q: int, t: String| t@),
                        joined@ == crate::serialize::joined_spaces(kv.take(w as int)),
                    decreases kept@.len() - w,
                {
                    proof {
                        assert(kv[w as int] == kept@[w as int]@);
                        assert(kv.take(w as int + 1).drop_last() =~= kv.take(w as int));
                        assert(kv.take(w as int + 1).last() == kv[w as int]);
                    }
                    if w > 0 {
                        joined.push(' ');
                    }
                    let sc = str_to_chars(kept[w].as_str());
                    crate::chars::append_chars(&mut joined, &sc);
                    proof {
                        assert(joined@ =~= crate::serialize::joined_spaces(kv.take(w as int + 1)));
                    }
                    w = w + 1;
                }
                proof {
                    assert(kv.take(kv.len() as int) =~= kv);
                }
                let joined_s = crate::chars::chars_to_string(&joined);
                match self.set_attribute(node, "class", joined_s.as_str()) {
                    Ok(()) => Ok(()),
                    Err(e) => Err(e),
                }
            },
        }
    }
}

/// The store with element `i`'s `class` attribute bound to `value`.
pub open spec fn class_updated(nodes: Seq<NodeV>, i: int, value: Seq<char>) -> Seq<NodeV> {
    nodes.update(
        i,
        NodeV {
            parent: nodes[i].parent,
            children: nodes[i].children,
            data: NodeDataV::Element {
                name: nodes[i].data->Element_name,
                attrs: attr_set_from(nodes[i].data->Element_attrs, "class"@, value, 0),
            },
        },
    )
}

} // verus!
