//! Host-side core of a scripted HTML post-processing tool: a session-scoped
//! document arena with tagged node handles, a verified model of the tiered
//! sandbox bootstrap, and the plain-value logic behind the script-visible
//! library surfaces.

pub mod analyzelib;
pub mod arena;
pub mod baselib;
pub mod chars;
pub mod classes;
pub mod codeclib;
pub mod digestlib;
pub mod encodings;
pub mod events;
pub mod loglib;
pub mod paths;
pub mod processlib;
pub mod regexlib;
pub mod sandbox;
pub mod selectors;
pub mod serialize;
pub mod session;
pub mod stringlib;
pub mod syslib;
pub mod textutil;

use vstd::prelude::*;

verus! {

/// Identifier of one document-editing session; minted once per session from a
/// monotone counter and never reused.
#[derive(Copy, Clone, PartialEq, Eq, Structural, Debug)]
pub struct ContextId(pub u64);

/// The faults the library raises. Contract violations and policy faults are
/// rejected at the boundary that would otherwise break the trust model; they
/// are never silently ignored.
#[derive(Copy, Clone, PartialEq, Eq, Structural, Debug)]
pub enum LibError {
    /// A handle was presented to an arena of a different session.
    ContextMismatch,
    /// A handle does not name a node of this arena.
    InvalidHandle,
    /// The operation is only defined on element nodes.
    NotAnElement,
    /// A document node has no element child: malformed input, not an empty
    /// result.
    NoRootElement,
    /// The node kind does not admit this operation.
    WrongNodeKind,
    /// Attaching would link a node beneath a later-created one. The
    /// arena's creation order is its acyclicity argument, so such a link
    /// is refused; copying the subtree reaches the same shape under a
    /// fresh handle.
    OrderViolation,
    /// The node to attach is already attached elsewhere.
    NotOrphan,
    /// A class name holding whitespace or outer whitespace was rejected.
    InvalidClassName,
    /// A call on a node without a parent that requires one.
    NoParent,
    /// The input could not be decoded or parsed by the named collaborator.
    ParseFailed,
    /// No command arguments were given.
    EmptyCommand,
    /// A process ended with a non-zero status.
    BadStatus,
    /// A process ended by signal, without a status.
    NoStatus,
    /// An absolute path was rejected: the path space is virtual and
    /// relative.
    AbsolutePath,
    /// The path ends in a relative component rather than a real name.
    BadPathComponent,
    /// The path has no parent directory to give.
    NoParentDir,
    /// A write into a frozen environment: once frozen, no key may be
    /// added, removed or rebound.
    EnvFrozen,
    /// An attempt to place a capability token, or a binding under a
    /// capability's name, into an execution environment.
    CapabilityLeak,
}

impl LibError {
    /// A short description of the fault.
    pub fn message(&self) -> &'static str {
        match self {
            LibError::ContextMismatch => "HTML nodes cannot be shared between contexts.",
            LibError::InvalidHandle => "Handle does not name a node of this arena.",
            LibError::NotAnElement => "This function may only be called on HTML elements.",
            LibError::NoRootElement => "No root element found?",
            LibError::WrongNodeKind => "Node kind does not admit this operation.",
            LibError::OrderViolation => "Cannot attach a node beneath a later-created one.",
            LibError::NotOrphan => "Node is already attached elsewhere.",
            LibError::InvalidClassName => "Invalid class name.",
            LibError::NoParent => "Cannot call this on a node without a parent.",
            LibError::ParseFailed => "Could not parse input.",
            LibError::EmptyCommand => "No command arguments given.",
            LibError::BadStatus => "Process has wrong status code.",
            LibError::NoStatus => "Process terminated by signal.",
            LibError::AbsolutePath => "Absolute paths are not allowed in crabsoup.",
            LibError::BadPathComponent => "Path must not end in a relative path component",
            LibError::NoParentDir => "Path must have a parent directory",
            LibError::EnvFrozen => "Cannot modify a frozen environment.",
            LibError::CapabilityLeak => "Capability tokens never enter an execution environment.",
        }
    }
}

} // verus!
