//! The character-encoding boundary: bytes are decoded before parsing and
//! encoded after serializing, under an encoding named by its label. The
//! codec itself is an external collaborator; every outcome is a function of
//! the label and the bytes alone.

use vstd::prelude::*;
use crate::LibError;
use crate::arena::{HtmlContext, HtmlNode};
use crate::events::{document_events, spec_has_doctype};

verus! {

/// Whether the label names a known encoding.
pub uninterp spec fn enc_label_known(label: Seq<u8>) -> bool;

/// The text the named encoding decodes the bytes to, with replacement
/// characters where the input was malformed.
pub uninterp spec fn enc_decoded(label: Seq<u8>, bytes: Seq<u8>) -> Seq<char>;

/// Whether decoding the bytes under the named encoding saw malformed
/// input.
pub uninterp spec fn enc_decode_errors(label: Seq<u8>, bytes: Seq<u8>) -> bool;

/// The bytes the named encoding encodes the text to, with numeric
/// references where the text was unmappable.
pub uninterp spec fn enc_encoded(label: Seq<u8>, text: Seq<char>) -> Seq<u8>;

/// Whether encoding the text under the named encoding saw unmappable
/// characters.
pub uninterp spec fn enc_encode_errors(label: Seq<u8>, text: Seq<char>) -> bool;

/// Relies on `encoding_rs::Encoding::for_label` and `Encoding::decode`:
/// which labels are known, the decoded text, and whether the input was
/// malformed all depend on the label and the bytes alone.
#[verifier::external_body]
pub fn decode_with_label(label: &[u8], bytes: &[u8]) -> (r: Result<(String, bool), LibError>)
    ensures
        r is Ok <==> enc_label_known(label@),
        r matches Ok(p) ==> p.0@ == enc_decoded(label@, bytes@) && p.1 == enc_decode_errors(
            label@,
            bytes@,
        ),
{
    match encoding_rs::Encoding::for_label(label) {
        None => Err(LibError::ParseFailed),
        Some(enc) => {
            let (text, _, errors) = enc.decode(bytes);
            Ok((text.into_owned(), errors))
        },
    }
}

/// Relies on `encoding_rs::Encoding::for_label` and `Encoding::encode`:
/// which labels are known, the encoded bytes, and whether characters were
/// unmappable all depend on the label and the text alone.
#[verifier::external_body]
pub fn encode_with_label(label: &[u8], text: &str) -> (r: Result<(Vec<u8>, bool), LibError>)
    ensures
        r is Ok <==> enc_label_known(label@),
        r matches Ok(p) ==> p.0@ == enc_encoded(label@, text@) && p.1 == enc_encode_errors(
            label@,
            text@,
        ),
{
    match encoding_rs::Encoding::for_label(label) {
        None => Err(LibError::ParseFailed),
        Some(enc) => {
            let (bytes, _, errors) = enc.encode(text);
            Ok((bytes.into_owned(), errors))
        },
    }
}

impl HtmlContext {
    /// Decodes the bytes under the named encoding and parses the text into
    /// this arena, as `parse` does. An unknown label faults before
    /// anything is parsed; the flag reports whether the input held
    /// malformed sequences.
    pub fn parse_bytes(&mut self, bytes: &[u8], label: &[u8]) -> (r: Result<
        (HtmlNode, bool),
        LibError,
    >)
        requires
            old(self).wf(),
        ensures
            final(self).wf(),
            final(self).id() == old(self).id(),
            r is Ok <==> enc_label_known(label@),
            r is Err ==> *final(self) == *old(self) && r == Err::<(HtmlNode, bool), LibError>(
                LibError::ParseFailed,
            ),
            r matches Ok((h, had_errors)) ==> {
                &&& had_errors == enc_decode_errors(label@, bytes@)
                &&& final(self).owns(h)
                &&& h.node_id as int == old(self).nodes_view().len()
                &&& (forall|j: int|
                    0 <= j < old(self).nodes_view().len() ==> (
                    #[trigger] final(self).nodes_view()[j]) == old(self).nodes_view()[j])
                &&& h.kind == (if spec_has_doctype(
                    document_events(enc_decoded(label@, bytes@)),
                ) {
                    crate::arena::NodeType::Document
                } else {
                    crate::arena::NodeType::Fragment
                })
            },
    {
        let (text, had_errors) = match decode_with_label(label, bytes) {
            Ok(p) => p,
            Err(_) => {
                return Err(LibError::ParseFailed);
            },
        };
        let h = self.parse(text.as_str());
        Ok((h, had_errors))
    }

    /// Serializes the subtree under `node` and encodes it under the named
    /// encoding. The flag reports whether characters were unmappable.
    pub fn to_html_encoded(&self, node: &HtmlNode, label: &[u8]) -> (r: Result<
        (Vec<u8>, bool),
        LibError,
    >)
        requires
            self.wf(),
        ensures
            node.ctx_id != self.id() ==> r == Err::<(Vec<u8>, bool), LibError>(
                LibError::ContextMismatch,
            ),
            node.ctx_id == self.id() && !self.owns(*node) ==> r == Err::<(Vec<u8>, bool), LibError>(
                LibError::InvalidHandle,
            ),
            self.owns(*node) && !enc_label_known(label@) ==> r == Err::<(Vec<u8>, bool), LibError>(
                LibError::ParseFailed,
            ),
            self.owns(*node) && enc_label_known(label@) && node.kind != crate::arena::NodeType::Fragment
                ==> (r matches Ok((b, e)) && {
                let text = crate::serialize::ser_node(self.nodes_view(), node.node_id as int, false);
                b@ == enc_encoded(label@, text) && e == enc_encode_errors(label@, text)
            }),
            self.owns(*node) && enc_label_known(label@) && node.kind == crate::arena::NodeType::Fragment
                ==> (r matches Ok((b, e)) && {
                let text = crate::serialize::ser_kids(
                    self.nodes_view(),
                    node.node_id as int,
                    self.nodes_view()[node.node_id as int].children.len() as int,
                    false,
                );
                b@ == enc_encoded(label@, text) && e == enc_encode_errors(label@, text)
            }),
    {
        let text = match self.to_html(node) {
            Ok(t) => t,
            Err(e) => {
                return Err(e);
            },
        };
        match encode_with_label(label, text.as_str()) {
            Ok(p) => Ok(p),
            Err(_) => Err(LibError::ParseFailed),
        }
    }
}

} // verus!
