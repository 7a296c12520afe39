//! The parser boundary: markup text goes out to the HTML parser, and a flat
//! stream of tree-traversal events comes back as plain values.
//!
//! The parser itself is an external collaborator; everything the library
//! proves about document structure is stated over the event stream, which is
//! a function of the input text alone.

use vstd::prelude::*;
use html5ever::tendril::TendrilSink;

verus! {

/// Payload of one parsed node, as plain values.
pub enum NodeData {
    Document,
    Fragment,
    Doctype { name: Vec<char> },
    Comment { text: Vec<char> },
    Text { text: Vec<char> },
    Element { name: Vec<char>, attrs: Vec<(Vec<char>, Vec<char>)> },
    Pi { target: Vec<char>, data: Vec<char> },
}

/// Spec-level payload of one parsed node.
pub enum NodeDataV {
    Document,
    Fragment,
    Doctype { name: Seq<char> },
    Comment { text: Seq<char> },
    Text { text: Seq<char> },
    Element { name: Seq<char>, attrs: Seq<(Seq<char>, Seq<char>)> },
    Pi { target: Seq<char>, data: Seq<char> },
}

impl View for NodeData {
    type V = NodeDataV;

    open spec fn view(&self) -> NodeDataV {
        match self {
            NodeData::Document => NodeDataV::Document,
            NodeData::Fragment => NodeDataV::Fragment,
            NodeData::Doctype { name } => NodeDataV::Doctype { name: name@ },
            NodeData::Comment { text } => NodeDataV::Comment { text: text@ },
            NodeData::Text { text } => NodeDataV::Text { text: text@ },
            NodeData::Element { name, attrs } => NodeDataV::Element {
                name: name@,
                attrs: attrs@.map(|i: int, p: (Vec<char>, Vec<char>)| (p.0@, p.1@)),
            },
            NodeData::Pi { target, data } => NodeDataV::Pi { target: target@, data: data@ },
        }
    }
}

/// A copy of a payload, with the same view.
pub fn clone_data(d: &NodeData) -> (r: NodeData)
    ensures
        r@ == d@,
{
    match d {
        NodeData::Document => NodeData::Document,
        NodeData::Fragment => NodeData::Fragment,
        NodeData::Doctype { name } => NodeData::Doctype {
            name: crate::chars::clone_chars(name),
        },
        NodeData::Comment { text } => NodeData::Comment {
            text: crate::chars::clone_chars(text),
        },
        NodeData::Text { text } => NodeData::Text { text: crate::chars::clone_chars(text) },
        NodeData::Element { name, attrs } => {
            let mut attrs2: Vec<(Vec<char>, Vec<char>)> = Vec::new();
            let ghost av = attrs@.map(|i: int, p: (Vec<char>, Vec<char>)| (p.0@, p.1@));
            let mut i: usize = 0;
            while i < attrs.len()
                invariant
                    i <= attrs.len(),
                    av == attrs@.map(|j: int, p: (Vec<char>, Vec<char>)| (p.0@, p.1@)),
                    av.len() == attrs@.len(),
                    attrs2@.len() == i as int,
                    forall|j: int|
                        0 <= j < i ==> (#[trigger] attrs2@[j]).0@ == av[j].0 && attrs2@[j].1@
                            == av[j].1,
                decreases attrs.len() - i,
            {
                proof {
                    assert(av[i as int] == (attrs@[i as int].0@, attrs@[i as int].1@));
                }
                let k = crate::chars::clone_chars(&attrs[i].0);
                let v = crate::chars::clone_chars(&attrs[i].1);
                attrs2.push((k, v));
                i = i + 1;
            }
            let r = NodeData::Element { name: crate::chars::clone_chars(name), attrs: attrs2 };
            proof {
                let rv = attrs2@.map(|j: int, p: (Vec<char>, Vec<char>)| (p.0@, p.1@));
                assert forall|j: int| 0 <= j < rv.len() implies rv[j] == av[j] by {
                    assert(rv[j] == (attrs2@[j].0@, attrs2@[j].1@));
                }
                assert(rv =~= av);
            }
            r
        },
        NodeData::Pi { target, data } => NodeData::Pi {
            target: crate::chars::clone_chars(target),
            data: crate::chars::clone_chars(data),
        },
    }
}

/// One step of a depth-first walk of a parsed tree: a node is opened (with
/// its payload) or the most recently opened node is closed.
pub enum HtmlEvent {
    Open(NodeData),
    Close,
}

/// Spec-level walk step.
pub enum EventV {
    Open(NodeDataV),
    Close,
}

impl View for HtmlEvent {
    type V = EventV;

    open spec fn view(&self) -> EventV {
        match self {
            HtmlEvent::Open(d) => EventV::Open(d@),
            HtmlEvent::Close => EventV::Close,
        }
    }
}

/// The views of a vector of events.
pub open spec fn events_view(evs: Seq<HtmlEvent>) -> Seq<EventV> {
    evs.map(|i: int, e: HtmlEvent| e@)
}

/// The event stream of parsing `text` in document mode. The parser's output
/// depends on the text alone.
pub uninterp spec fn document_events(text: Seq<char>) -> Seq<EventV>;

/// The event stream of parsing `text` in fragment mode (with a `body`
/// context element). The parser's output depends on the text alone.
pub uninterp spec fn fragment_events(text: Seq<char>) -> Seq<EventV>;

#[verifier::external_type_specification]
#[verifier::external_body]
pub struct ExScraperNode(scraper::Node);

#[verifier::external_type_specification]
#[verifier::external_body]
pub struct ExScraperElement(scraper::node::Element);

#[verifier::external_type_specification]
#[verifier::external_body]
pub struct ExScraperHtml(scraper::Html);

/// Relies on `scraper::node::Element`: the tag name and the attribute
/// pairs, in the element's own (sorted) order, copied out as plain
/// characters.
#[verifier::external_body]
fn convert_element(e: &scraper::node::Element) -> NodeData {
    NodeData::Element {
        name: e.name().chars().collect(),
        attrs: e
            .attrs()
            .map(|(k, v)| (k.chars().collect(), v.chars().collect()))
            .collect(),
    }
}

/// Relies on `scraper::Node`: each variant's text fields are copied out as
/// plain characters, one arm per variant.
#[verifier::external_body]
fn convert_node(node: &scraper::Node) -> NodeData {
    match node {
        scraper::Node::Document => NodeData::Document,
        scraper::Node::Fragment => NodeData::Fragment,
        scraper::Node::Doctype(d) => NodeData::Doctype { name: d.name().chars().collect() },
        scraper::Node::Comment(c) => NodeData::Comment { text: c.chars().collect() },
        scraper::Node::Text(t) => NodeData::Text { text: t.chars().collect() },
        scraper::Node::Element(e) => convert_element(e),
        scraper::Node::ProcessingInstruction(p) => NodeData::Pi {
            target: p.target.chars().collect(),
            data: p.data.chars().collect(),
        },
    }
}

/// Relies on `ego_tree`'s `traverse`: it yields each node of the parsed
/// tree once as `Open` (in document order) and once as `Close`, properly
/// nested, the root first and last.
#[verifier::external_body]
fn events_of_tree(html: &scraper::Html) -> Vec<HtmlEvent> {
    html.tree
        .root()
        .traverse()
        .map(|edge| match edge {
            ego_tree::iter::Edge::Open(n) => HtmlEvent::Open(convert_node(n.value())),
            ego_tree::iter::Edge::Close(_) => HtmlEvent::Close,
        })
        .collect()
}

/// Relies on `scraper::Html::parse_document` (html5ever's document parser):
/// the parsed tree is a function of the input text alone, walked out as
/// its nested open/close events with the document root first and last.
#[verifier::external_body]
pub fn parse_document_events(text: &str) -> (r: Vec<HtmlEvent>)
    ensures
        events_view(r@) == document_events(text@),
        r@.len() >= 2,
        events_view(r@)[0] == EventV::Open(NodeDataV::Document),
{
    let html = scraper::Html::parse_document(text);
    events_of_tree(&html)
}

/// Relies on `scraper::Html::parse_fragment` (html5ever's fragment parser
/// with a `body` context element): the parsed tree is a function of the
/// input text alone, walked out as its nested open/close events with the
/// fragment root first and last.
#[verifier::external_body]
pub fn parse_fragment_events(text: &str) -> (r: Vec<HtmlEvent>)
    ensures
        events_view(r@) == fragment_events(text@),
        r@.len() >= 2,
        events_view(r@)[0] == EventV::Open(NodeDataV::Fragment),
{
    let html = scraper::Html::parse_fragment(text);
    events_of_tree(&html)
}

/// The event stream of parsing `text` in fragment mode under the named
/// context element. The parser's output depends on the context name and
/// the text alone.
pub uninterp spec fn fragment_events_in(context: Seq<char>, text: Seq<char>) -> Seq<EventV>;

/// Relies on `html5ever::driver::parse_fragment` over `scraper`'s tree
/// sink, with the caller's context element in the document namespace: the
/// parsed tree is a function of the context name and the text alone,
/// walked out as its nested open/close events with the fragment root
/// first and last.
#[verifier::external_body]
pub fn parse_fragment_events_in(context: &str, text: &str) -> (r: Vec<HtmlEvent>)
    ensures
        events_view(r@) == fragment_events_in(context@, text@),
        r@.len() >= 2,
        events_view(r@)[0] == EventV::Open(NodeDataV::Fragment),
{
    let name = html5ever::QualName::new(
        None,
        html5ever::Namespace::from("http://www.w3.org/1999/xhtml"),
        html5ever::LocalName::from(context),
    );
    let sink = scraper::HtmlTreeSink::new(scraper::Html::new_fragment());
    let html = html5ever::driver::parse_fragment(sink, Default::default(), name, Vec::new(), false)
        .one(text);
    events_of_tree(&html)
}

/// Whether the event stream opens a doctype node anywhere.
pub open spec fn spec_has_doctype(evs: Seq<EventV>) -> bool {
    exists|i: int|
        0 <= i < evs.len() && (#[trigger] evs[i] matches EventV::Open(NodeDataV::Doctype { .. }))
}

/// Whether the parsed input is a full document: the preliminary structural
/// scan saw a doctype declaration.
pub fn has_doctype(evs: &Vec<HtmlEvent>) -> (r: bool)
    ensures
        r == spec_has_doctype(events_view(evs@)),
{
    let mut i: usize = 0;
    while i < evs.len()
        invariant
            i <= evs.len(),
            forall|j: int|
                0 <= j < i ==> !(#[trigger] events_view(evs@)[j] matches EventV::Open(
                    NodeDataV::Doctype { .. },
                )),
        decreases evs.len() - i,
    {
        match &evs[i] {
            HtmlEvent::Open(NodeData::Doctype { .. }) => {
                proof {
                    assert(events_view(evs@)[i as int] matches EventV::Open(
                        NodeDataV::Doctype { .. },
                    ));
                }
                return true;
            },
            _ => {},
        }
        i = i + 1;
    }
    false
}

} // verus!
