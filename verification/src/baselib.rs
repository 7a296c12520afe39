//! Host introspection and the reserved bootstrap marker.

use vstd::prelude::*;

verus! {

/// The host's name, as scripts see it.
pub const HOST_NAME: &'static str = "crabsoup";

/// The host's version, as scripts see it.
pub const HOST_VERSION: &'static str = "0.1.0";

/// The host-introspection surface: its version strings.
pub struct CrabSoupLib;

impl CrabSoupLib {
    /// The combined name-and-version string bound to the version key.
    pub fn version_string(&self) -> (r: String)
        ensures
            r@ == HOST_NAME@ + " "@ + HOST_VERSION@,
    {
        let mut v: Vec<char> = Vec::new();
        crate::chars::append_str(&mut v, HOST_NAME);
        crate::chars::append_str(&mut v, " ");
        crate::chars::append_str(&mut v, HOST_VERSION);
        crate::chars::chars_to_string(&v)
    }

    /// The bare version string.
    pub fn version_only(&self) -> (r: &'static str)
        ensures
            r@ == HOST_VERSION@,
    {
        HOST_VERSION
    }
}

/// A control value a plugin hands back to the host: fail the build with a
/// message, or end the plugin early with a message.
pub enum PluginInstruction {
    Fail(String),
    Exit(String),
}

impl PluginInstruction {
    /// The message carried, whichever way the plugin ended.
    pub fn get_message(&self) -> (r: &String)
        ensures
            (self matches PluginInstruction::Fail(m) ==> r == m),
            (self matches PluginInstruction::Exit(m) ==> r == m),
    {
        match self {
            PluginInstruction::Fail(m) => m,
            PluginInstruction::Exit(m) => m,
        }
    }

    /// Whether the plugin failed the build.
    pub fn is_fail(&self) -> (r: bool)
        ensures
            r == (self matches PluginInstruction::Fail(_)),
    {
        match self {
            PluginInstruction::Fail(_) => true,
            PluginInstruction::Exit(_) => false,
        }
    }

    /// Whether the plugin ended early without failing the build.
    pub fn is_exit(&self) -> (r: bool)
        ensures
            r == (self matches PluginInstruction::Exit(_)),
    {
        match self {
            PluginInstruction::Fail(_) => false,
            PluginInstruction::Exit(_) => true,
        }
    }
}

/// The reserved marker stored under the fixed key of the private registry
/// location; scripts can compare against it but never construct one.
pub struct OpaqueKey {
    _reserved: (),
}

impl OpaqueKey {
    /// Mints the marker; only the host's bootstrap path calls this.
    pub fn new() -> OpaqueKey {
        OpaqueKey { _reserved: () }
    }
}

} // verus!
