use crabsoup::arena::{HtmlContext, NodeType};
use crabsoup::selectors::SimpleSelector;
use crabsoup::session::SessionCounter;
use crabsoup::LibError;

fn fresh_ctx() -> HtmlContext {
    let mut counter = SessionCounter::new();
    HtmlContext::new(&mut counter)
}

#[test]
fn session_ids_are_sequential_and_distinct() {
    let mut counter = SessionCounter::new();
    let a = HtmlContext::new(&mut counter);
    let b = HtmlContext::new(&mut counter);
    assert_eq!(a.ctx_id().0, 0);
    assert_eq!(b.ctx_id().0, 1);
    assert_ne!(a.ctx_id(), b.ctx_id());
}

#[test]
fn handles_cannot_cross_sessions() {
    let mut counter = SessionCounter::new();
    let mut a1 = HtmlContext::new(&mut counter);
    let a2 = HtmlContext::new(&mut counter);
    let h = a1.parse("<p>A</p>");
    // The handle works against its own arena but always faults against the
    // other, even though the node index coincides numerically.
    assert!(a1.to_html(&h).is_ok());
    assert_eq!(a2.check_node(&h), Err(LibError::ContextMismatch));
    assert_eq!(a2.to_html(&h).unwrap_err(), LibError::ContextMismatch);
    assert_eq!(a2.get_tag_name(&h).unwrap_err(), LibError::ContextMismatch);
}

#[test]
fn doctype_input_parses_to_document_root() {
    let mut ctx = fresh_ctx();
    let h = ctx.parse("<!doctype html><html><body><p>A</p></body></html>");
    assert_eq!(h.kind, NodeType::Document);
    assert!(h.is_document());
}

#[test]
fn plain_input_parses_to_fragment_root() {
    let mut ctx = fresh_ctx();
    let h = ctx.parse("<p>A</p>");
    assert_eq!(h.kind, NodeType::Fragment);
    assert!(h.is_fragment());
    // A fragment root resolves to itself.
    let r = ctx.root_element(&h).unwrap();
    assert!(r.is_same(&h));
}

#[test]
fn document_round_trip_and_children_only_serialization() {
    let mut ctx = fresh_ctx();
    let h = ctx.parse("<!doctype html><html><body><p>A</p></body></html>");
    assert_eq!(h.kind, NodeType::Document);

    let root = ctx.root_element(&h).unwrap();
    assert_eq!(ctx.get_tag_name(&root).unwrap(), "html");

    let whole = ctx.to_html(&h).unwrap();
    assert_eq!(
        whole,
        "<!DOCTYPE html><html><head></head><body><p>A</p></body></html>"
    );

    let kids = ctx.children(&root).unwrap();
    assert_eq!(kids.len(), 2);
    let body = kids[1];
    assert_eq!(ctx.get_tag_name(&body).unwrap(), "body");
    assert_eq!(ctx.to_inner_html(&body).unwrap(), "<p>A</p>");
}

#[test]
fn fragment_serializes_to_its_own_content() {
    let mut ctx = fresh_ctx();
    let h = ctx.parse("<p>A</p><p>B</p>");
    assert_eq!(ctx.to_html(&h).unwrap(), "<p>A</p><p>B</p>");
}

#[test]
fn accretive_parsing_keeps_earlier_handles_intact() {
    let mut ctx = fresh_ctx();
    let h1 = ctx.parse("<p>first</p>");
    let count_after_first = ctx.node_count();
    let before = ctx.to_html(&h1).unwrap();

    let h2 = ctx.parse("<p>second</p>");
    // The new subtree's nodes are disjoint from the first parse's nodes.
    assert!(h2.node_id >= count_after_first);
    assert!(h1.node_id < count_after_first);
    assert_ne!(h1.node_id, h2.node_id);
    // Earlier handles still resolve to unchanged content.
    assert_eq!(ctx.to_html(&h1).unwrap(), before);
    assert_eq!(ctx.to_html(&h2).unwrap(), "<p>second</p>");
}

#[test]
fn clone_subtree_is_independent_of_its_source() {
    let mut ctx = fresh_ctx();
    let doc = ctx.parse("<!doctype html><html><body><p class=\"x\">A</p></body></html>");
    let root = ctx.root_element(&doc).unwrap();
    let kids = ctx.children(&root).unwrap();
    let body = kids[1];
    let p = ctx.children(&body).unwrap()[0];
    assert_eq!(ctx.get_tag_name(&p).unwrap(), "p");

    let p2 = ctx.clone_node(&p).unwrap();
    assert_eq!(ctx.to_html(&p2).unwrap(), "<p class=\"x\">A</p>");

    // Mutating the copy never changes the serialized form of the source.
    ctx.set_tag_name(&p2, "div").unwrap();
    ctx.set_attribute(&p2, "class", "y").unwrap();
    assert_eq!(ctx.to_html(&p).unwrap(), "<p class=\"x\">A</p>");
    assert_eq!(ctx.to_html(&p2).unwrap(), "<div class=\"y\">A</div>");
}

#[test]
fn build_a_tree_by_hand_and_serialize() {
    let mut ctx = fresh_ctx();
    let doc = ctx.create_document();
    let div = ctx.create_element("div");
    let text = ctx.create_text("a<b");
    ctx.append_child(&div, &text).unwrap();
    ctx.append_child(&doc, &div).unwrap();
    assert_eq!(ctx.to_html(&div).unwrap(), "<div>a&lt;b</div>");
    assert_eq!(ctx.child_count(&div).unwrap(), 1);
}

#[test]
fn append_rejects_attached_children_and_backward_links() {
    let mut ctx = fresh_ctx();
    let a = ctx.create_element("a");
    let b = ctx.create_element("b");
    ctx.append_child(&a, &b).unwrap();
    // Already attached elsewhere.
    let c = ctx.create_element("c");
    ctx.append_child(&c, &b).unwrap_err();
    // A node only attaches beneath an earlier-created one.
    assert_eq!(ctx.append_child(&c, &a), Err(LibError::OrderViolation));
}

#[test]
fn remove_from_parent_leaves_an_addressable_orphan() {
    let mut ctx = fresh_ctx();
    let frag = ctx.parse("<p>A</p><span>B</span>");
    assert_eq!(ctx.to_html(&frag).unwrap(), "<p>A</p><span>B</span>");
    let doc = ctx.parse("<!doctype html><html><body><p>C</p></body></html>");
    let body = {
        let root = ctx.root_element(&doc).unwrap();
        ctx.children(&root).unwrap()[1]
    };
    let p = ctx.children(&body).unwrap()[0];
    ctx.remove_from_parent(&p).unwrap();
    assert_eq!(ctx.to_inner_html(&body).unwrap(), "");
    // The orphan stays addressable until the session ends.
    assert_eq!(ctx.to_html(&p).unwrap(), "<p>C</p>");
    // Detaching an orphan again is a no-op.
    ctx.remove_from_parent(&p).unwrap();
}

#[test]
fn attribute_access_and_mutation() {
    let mut ctx = fresh_ctx();
    let doc = ctx.parse("<!doctype html><html><body><a href=\"x\" id=\"k\">t</a></body></html>");
    let root = ctx.root_element(&doc).unwrap();
    let body = ctx.children(&root).unwrap()[1];
    let a = ctx.children(&body).unwrap()[0];
    assert_eq!(ctx.get_attribute(&a, "href").unwrap(), Some("x".to_string()));
    assert_eq!(ctx.get_attribute(&a, "missing").unwrap(), None);
    ctx.set_attribute(&a, "href", "y").unwrap();
    assert_eq!(ctx.get_attribute(&a, "href").unwrap(), Some("y".to_string()));
    ctx.delete_attribute(&a, "id").unwrap();
    assert_eq!(ctx.get_attribute(&a, "id").unwrap(), None);
}

#[test]
fn strip_tags_concatenates_text() {
    let mut ctx = fresh_ctx();
    let h = ctx.parse("<p>A<b>B</b></p><span>C</span>");
    assert_eq!(ctx.strip_tags(&h).unwrap(), "ABC");
}

#[test]
fn parent_navigation_hides_fragment_roots() {
    let mut ctx = fresh_ctx();
    let doc = ctx.parse("<!doctype html><html><body><p>A</p></body></html>");
    let root = ctx.root_element(&doc).unwrap();
    let body = ctx.children(&root).unwrap()[1];
    let up = ctx.parent(&body).unwrap().unwrap();
    assert_eq!(ctx.get_tag_name(&up).unwrap(), "html");
}

#[test]
fn malformed_document_without_root_element_faults() {
    let mut ctx = fresh_ctx();
    let doc = ctx.create_document();
    let t = ctx.create_text("loose");
    ctx.append_child(&doc, &t).unwrap();
    assert_eq!(ctx.root_element(&doc), Err(LibError::NoRootElement));
}

#[test]
fn void_and_raw_elements_serialize_by_their_rules() {
    let mut ctx = fresh_ctx();
    let h = ctx.parse("<br><style>a < b</style>");
    let html = ctx.to_html(&h).unwrap();
    assert_eq!(html, "<br><style>a < b</style>");
}

#[test]
fn invalid_handle_is_rejected() {
    let mut counter = SessionCounter::new();
    let ctx = HtmlContext::new(&mut counter);
    let mut other = HtmlContext::new(&mut counter);
    let h = other.parse("<p>A</p>");
    let forged = crabsoup::arena::HtmlNode { ctx_id: ctx.ctx_id(), node_id: h.node_id, kind: h.kind };
    assert_eq!(ctx.to_html(&forged).unwrap_err(), LibError::InvalidHandle);
}

#[test]
fn class_surface_reads_and_rewrites() {
    let mut counter = SessionCounter::new();
    let mut ctx = HtmlContext::new(&mut counter);
    let doc = ctx.parse("<!doctype html><html><body><p class=\"a b a\">t</p></body></html>");
    let root = ctx.root_element(&doc).unwrap();
    let body = ctx.children(&root).unwrap()[1];
    let p = ctx.children(&body).unwrap()[0];

    assert_eq!(ctx.get_classes(&p).unwrap(), vec!["a", "b"]);
    assert_eq!(ctx.has_class(&p, "a").unwrap(), true);
    assert_eq!(ctx.has_class(&p, "z").unwrap(), false);
    assert!(ctx.has_class(&p, "a b").is_err());

    ctx.add_class(&p, "c").unwrap();
    assert_eq!(ctx.get_attribute(&p, "class").unwrap(), Some("a b a c".to_string()));
    // Adding a class that is already present changes nothing.
    ctx.add_class(&p, "b").unwrap();
    assert_eq!(ctx.get_attribute(&p, "class").unwrap(), Some("a b a c".to_string()));

    ctx.remove_class(&p, "a").unwrap();
    assert_eq!(ctx.get_attribute(&p, "class").unwrap(), Some("b c".to_string()));

    let bare = ctx.create_element("span");
    assert_eq!(ctx.get_classes(&bare).unwrap(), Vec::<String>::new());
    assert_eq!(ctx.has_class(&bare, "x").unwrap(), false);
    ctx.add_class(&bare, "solo").unwrap();
    assert_eq!(ctx.get_attribute(&bare, "class").unwrap(), Some("solo".to_string()));
    ctx.remove_class(&bare, "missing").unwrap();
    assert_eq!(ctx.get_attribute(&bare, "class").unwrap(), Some("solo".to_string()));
}

#[test]
fn inner_text_skips_renamed_metadata_elements_case_blind() {
    let mut counter = SessionCounter::new();
    let mut ctx = HtmlContext::new(&mut counter);
    let doc = ctx.parse("<!doctype html><html><body><p>keep</p><p>drop</p></body></html>");
    let root = ctx.root_element(&doc).unwrap();
    let body = ctx.children(&root).unwrap()[1];
    let second = ctx.children(&body).unwrap()[1];
    ctx.set_tag_name(&second, "SCRIPT").unwrap();
    assert_eq!(ctx.inner_text(&doc).unwrap(), "keep");
}

#[test]
fn inner_text_normalizes_whitespace_and_skips_scripts() {
    let mut counter = SessionCounter::new();
    let mut ctx = HtmlContext::new(&mut counter);
    let doc = ctx.parse(
        "<!doctype html><html><head><title>x</title></head><body><p>  Hello \n world </p><script>var a = 1;</script><p>again</p></body></html>",
    );
    assert_eq!(ctx.inner_text(&doc).unwrap(), "Hello world again");
    let frag = ctx.parse("<b> spaced  out </b>tail");
    assert_eq!(ctx.inner_text(&frag).unwrap(), "spaced out tail");
}

#[test]
fn selectors_match_and_search() {
    let mut counter = SessionCounter::new();
    let mut ctx = HtmlContext::new(&mut counter);
    let doc = ctx.parse(
        "<!doctype html><html><body><p class=\"note hot\" id=\"p1\">A</p><div><p class=\"note\">B</p></div><span>C</span></body></html>",
    );
    let sel_p = SimpleSelector { tag: Some("p".chars().collect()), id: None, classes: vec![] };
    let sel_note = SimpleSelector {
        tag: None,
        id: None,
        classes: vec!["note".chars().collect()],
    };
    let sel_hot_note = SimpleSelector {
        tag: Some("p".chars().collect()),
        id: Some("p1".chars().collect()),
        classes: vec!["note".chars().collect(), "hot".chars().collect()],
    };

    let ps = ctx.select(&doc, &sel_p).unwrap();
    assert_eq!(ps.len(), 2);
    assert_eq!(ctx.to_html(&ps[0]).unwrap(), "<p class=\"note hot\" id=\"p1\">A</p>");
    assert_eq!(ctx.to_html(&ps[1]).unwrap(), "<p class=\"note\">B</p>");

    let notes = ctx.select(&doc, &sel_note).unwrap();
    assert_eq!(notes.len(), 2);

    assert_eq!(ctx.match_selector(&ps[0], &sel_hot_note).unwrap(), true);
    assert_eq!(ctx.match_selector(&ps[1], &sel_hot_note).unwrap(), false);
    assert_eq!(ctx.match_selector(&ps[1], &sel_note).unwrap(), true);

    // A selector with classes never matches an element without any.
    let spans = ctx.select(&doc, &SimpleSelector {
        tag: Some("span".chars().collect()),
        id: None,
        classes: vec!["x".chars().collect()],
    }).unwrap();
    assert_eq!(spans.len(), 0);
}

#[test]
fn byte_level_parse_and_encode_round_the_encoding_boundary() {
    let mut counter = SessionCounter::new();
    let mut ctx = HtmlContext::new(&mut counter);
    let (h, had_errors) = ctx
        .parse_bytes(b"<p>caf\xc3\xa9</p>", b"utf-8")
        .unwrap();
    assert!(!had_errors);
    assert_eq!(ctx.to_html(&h).unwrap(), "<p>caf\u{e9}</p>");

    let (bytes, enc_errors) = ctx.to_html_encoded(&h, b"windows-1252").unwrap();
    assert!(!enc_errors);
    assert_eq!(bytes, b"<p>caf\xe9</p>".to_vec());

    assert!(ctx.parse_bytes(b"<p>x</p>", b"no-such-encoding").is_err());
    assert_eq!(
        ctx.to_html_encoded(&h, b"no-such-encoding").unwrap_err(),
        LibError::ParseFailed
    );
}

#[test]
fn positional_insertion_orders_siblings() {
    let mut ctx = fresh_ctx();
    let root = ctx.create_element("ul");
    let a = ctx.create_element("a");
    ctx.append_child(&root, &a).unwrap();
    let b = ctx.create_element("b");
    ctx.prepend_child(&root, &b).unwrap();
    let c = ctx.create_element("c");
    ctx.insert_before(&a, &c).unwrap();
    let d = ctx.create_element("d");
    ctx.insert_after(&b, &d).unwrap();
    assert_eq!(ctx.to_inner_html(&root).unwrap(), "<b></b><d></d><c></c><a></a>");
    // Siblings need a parent, and the rules match append's.
    let orphan = ctx.create_element("o");
    let younger = ctx.create_element("y");
    assert_eq!(ctx.insert_before(&orphan, &younger), Err(LibError::NoParent));
    assert_eq!(ctx.insert_after(&a, &b), Err(LibError::NotOrphan));
}

#[test]
fn unwrap_splices_children_into_the_parent() {
    let mut ctx = fresh_ctx();
    let doc = ctx.parse("<!doctype html><html><body><div><b>x</b><i>y</i></div><span>z</span></body></html>");
    let root = ctx.root_element(&doc).unwrap();
    let body = ctx.children(&root).unwrap()[1];
    let div = ctx.children(&body).unwrap()[0];
    ctx.unwrap(&div).unwrap();
    assert_eq!(
        ctx.to_inner_html(&body).unwrap(),
        "<div></div><b>x</b><i>y</i><span>z</span>"
    );
    // The dissolved node stays addressable and childless.
    assert_eq!(ctx.child_count(&div).unwrap(), 0);
    let orphan = ctx.create_element("lone");
    assert_eq!(ctx.unwrap(&orphan), Err(LibError::NoParent));
}

#[test]
fn delete_content_orphans_every_child() {
    let mut ctx = fresh_ctx();
    let doc = ctx.parse("<!doctype html><html><body><p>A</p><p>B</p></body></html>");
    let root = ctx.root_element(&doc).unwrap();
    let body = ctx.children(&root).unwrap()[1];
    let ps = ctx.children(&body).unwrap();
    ctx.delete_content(&body).unwrap();
    assert_eq!(ctx.to_inner_html(&body).unwrap(), "");
    // The former children stay addressable as orphans.
    assert_eq!(ctx.to_html(&ps[0]).unwrap(), "<p>A</p>");
    assert_eq!(ctx.parent(&ps[0]).unwrap(), None);
}

#[test]
fn navigation_walks_the_tree() {
    let mut ctx = fresh_ctx();
    let doc = ctx.parse("<!doctype html><html><body><p>A</p><div><b>x</b></div></body></html>");
    let root = ctx.root_element(&doc).unwrap();
    let body = ctx.children(&root).unwrap()[1];
    let p = ctx.children(&body).unwrap()[0];
    let div = ctx.children(&body).unwrap()[1];

    let up = ctx.ancestors(&p).unwrap();
    assert_eq!(up.len(), 3);
    assert_eq!(ctx.get_tag_name(&up[0]).unwrap(), "body");
    assert_eq!(ctx.get_tag_name(&up[1]).unwrap(), "html");
    assert!(up[2].is_document());

    let sibs = ctx.siblings(&p).unwrap();
    assert_eq!(sibs.len(), 1);
    assert_eq!(ctx.get_tag_name(&sibs[0]).unwrap(), "div");
    let lone = ctx.create_element("lone");
    assert_eq!(ctx.siblings(&lone), Err(LibError::NoParent));

    let desc = ctx.descendants(&body).unwrap();
    // p, its text, div, b, b's text.
    assert_eq!(desc.len(), 5);

    assert_eq!(ctx.is_empty(&div).unwrap(), false);
    assert_eq!(ctx.is_empty(&ctx.children(&div).unwrap()[0].clone()).unwrap(), false);

    let sel_b = SimpleSelector { tag: Some("b".chars().collect()), id: None, classes: vec![] };
    let first = ctx.select_one(&doc, &sel_b).unwrap().unwrap();
    assert_eq!(ctx.to_html(&first).unwrap(), "<b>x</b>");
    let sel_none =
        SimpleSelector { tag: Some("em".chars().collect()), id: None, classes: vec![] };
    assert!(ctx.select_one(&doc, &sel_none).unwrap().is_none());

    // Detachment under its surface name.
    ctx.delete_element(&p).unwrap();
    assert_eq!(ctx.to_inner_html(&body).unwrap(), "<div><b>x</b></div>");
}

#[test]
fn forced_parse_modes_skip_detection() {
    let mut ctx = fresh_ctx();
    // Document mode without a doctype still yields a document root.
    let doc = ctx.parse_as_document("<p>A</p>");
    assert_eq!(doc.kind, NodeType::Document);
    assert_eq!(ctx.to_html(&doc).unwrap(), "<html><head></head><body><p>A</p></body></html>");
    // Fragment mode on doctyped input still yields a fragment root.
    let frag = ctx.parse_as_fragment("<p>B</p>");
    assert_eq!(frag.kind, NodeType::Fragment);
    assert_eq!(ctx.to_html(&frag).unwrap(), "<p>B</p>");
}

#[test]
fn fragment_parsing_honors_the_context_element() {
    let mut ctx = fresh_ctx();
    // Table rows survive only under a table-aware context element.
    let in_tr = ctx.parse_fragment_with("<td>x</td>", "tr");
    assert_eq!(ctx.to_html(&in_tr).unwrap(), "<td>x</td>");
    let in_body = ctx.parse_fragment_with("<td>x</td>", "body");
    assert_eq!(ctx.to_html(&in_body).unwrap(), "x");
}

#[test]
fn selector_text_parses_into_the_structural_form() {
    let mut ctx = fresh_ctx();
    let doc = ctx.parse(
        "<!doctype html><html><body><p class=\"note hot\" id=\"p1\">A</p><div><p class=\"note\">B</p></div></body></html>",
    );
    let ps = ctx.select_str(&doc, "p.note").unwrap();
    assert_eq!(ps.len(), 2);
    let hot = ctx.select_str(&doc, "p#p1.note.hot").unwrap();
    assert_eq!(hot.len(), 1);
    assert_eq!(ctx.match_selector_str(&hot[0], "*.hot").unwrap(), true);
    assert_eq!(ctx.match_selector_str(&hot[0], ".cold").unwrap(), false);
    let all = ctx.select_str(&doc, "*").unwrap();
    assert!(all.len() >= 5);
    // Combinators and other selector forms lie outside the grammar.
    assert_eq!(ctx.select_str(&doc, "div p"), Err(LibError::ParseFailed));
    assert_eq!(ctx.select_str(&doc, "p[href]"), Err(LibError::ParseFailed));
    assert_eq!(ctx.select_str(&doc, ""), Err(LibError::ParseFailed));
    assert_eq!(ctx.select_str(&doc, "p."), Err(LibError::ParseFailed));
}
