//! The tiered-environment sandbox: the low-level capability table, the
//! environment builder, and the finalizer.
//!
//! Capability tokens are individually dangerous — arbitrary global-scope
//! replacement, bypassing lexical scoping — and are bundled into exactly one
//! table held by the host's bootstrap state, so that the single act of
//! never distributing that table into a lower tier guarantees those tiers
//! cannot escalate privilege. The builder enforces that act at every
//! install, and the finalizer freezes every environment for good.

use vstd::prelude::*;
use crate::LibError;
use crate::chars::{chars_eq_str, str_to_chars};

verus! {

/// The four nested execution tiers.
#[derive(Copy, Clone, PartialEq, Eq, Structural, Debug)]
pub enum Tier {
    Global,
    SharedBase,
    Standalone,
    Plugin,
}

/// A capability token: one privileged primitive engine operation.
#[derive(Copy, Clone, PartialEq, Eq, Structural, Debug)]
pub enum Capability {
    /// Creates a cooperative thread whose global scope is forcibly
    /// replaced, then irreversibly restricts that thread.
    LoadInNewThread,
    /// Declares a table's shape immutable so the engine may specialize.
    SetSafeenvFlag,
    /// Clears the shape declaration again; diagnostic tooling only.
    DeoptimizeEnv,
    /// Reads the calling thread's global scope wholesale.
    GetGlobals,
    /// Replaces the calling thread's global scope wholesale.
    SetGlobals,
    /// Reads a function value's captured environment, bypassing scoping.
    RawGetfenv,
    /// Rebinds a function value's captured environment, bypassing scoping.
    RawSetfenv,
    /// Applies the engine's immutability-plus-optimization pass to the
    /// current global scope.
    DoSandbox,
    /// Reads a value's metatable without consulting protection.
    RawGetmetatable,
    /// Replaces a value's metatable without consulting protection.
    RawSetmetatable,
    /// Marks a table read-only for good.
    RawFreeze,
}

/// A host value a table slot can hold: an ordinary host function
/// (identified by number) or a capability token.
#[derive(Copy, Clone, PartialEq, Eq, Structural, Debug)]
pub enum LeafValue {
    Function(u64),
    Capability(Capability),
}

/// A nested library table: a named set of leaf values, individually
/// freezable.
pub struct LibTable {
    pub frozen: bool,
    pub items: Vec<(String, LeafValue)>,
}

/// Spec-level image of a library table.
pub struct LibTableV {
    pub frozen: bool,
    pub items: Seq<(Seq<char>, LeafValue)>,
}

impl View for LibTable {
    type V = LibTableV;

    open spec fn view(&self) -> LibTableV {
        LibTableV {
            frozen: self.frozen,
            items: self.items@.map(|i: int, p: (String, LeafValue)| (p.0@, p.1)),
        }
    }
}

/// A binding an environment slot can hold.
pub enum Binding {
    Leaf(LeafValue),
    Table(LibTable),
}

/// Spec-level image of a binding.
pub enum BindingV {
    Leaf(LeafValue),
    Table(LibTableV),
}

impl View for Binding {
    type V = BindingV;

    open spec fn view(&self) -> BindingV {
        match self {
            Binding::Leaf(l) => BindingV::Leaf(*l),
            Binding::Table(t) => BindingV::Table(t@),
        }
    }
}

/// Whether a recursive read of the binding reaches a capability token.
pub open spec fn binding_reaches_cap(b: BindingV) -> bool {
    match b {
        BindingV::Leaf(l) => l is Capability,
        BindingV::Table(t) => exists|i: int|
            0 <= i < t.items.len() && (#[trigger] t.items[i]).1 is Capability,
    }
}

/// Whether `name` is the name of a capability token in the low-level
/// table.
pub open spec fn is_capability_name(name: Seq<char>) -> bool {
    ||| name == "load_in_new_thread"@
    ||| name == "set_safeenv_flag"@
    ||| name == "deoptimize_env"@
    ||| name == "get_globals"@
    ||| name == "set_globals"@
    ||| name == "raw_getfenv"@
    ||| name == "raw_setfenv"@
    ||| name == "do_sandbox"@
    ||| name == "raw_getmetatable"@
    ||| name == "raw_setmetatable"@
    ||| name == "raw_freeze"@
}

/// Executable capability-name test.
pub fn is_capability_name_exec(name: &str) -> (r: bool)
    ensures
        r == is_capability_name(name@),
{
    let c = str_to_chars(name);
    chars_eq_str(&c, "load_in_new_thread") || chars_eq_str(&c, "set_safeenv_flag") || chars_eq_str(
        &c,
        "deoptimize_env",
    ) || chars_eq_str(&c, "get_globals") || chars_eq_str(&c, "set_globals") || chars_eq_str(
        &c,
        "raw_getfenv",
    ) || chars_eq_str(&c, "raw_setfenv") || chars_eq_str(&c, "do_sandbox") || chars_eq_str(
        &c,
        "raw_getmetatable",
    ) || chars_eq_str(&c, "raw_setmetatable") || chars_eq_str(&c, "raw_freeze")
}

/// Executable reachability test on a binding.
#[verifier::loop_isolation(false)]
pub fn binding_reaches_cap_exec(b: &Binding) -> (r: bool)
    ensures
        r == binding_reaches_cap(b@),
{
    match b {
        Binding::Leaf(l) => matches!(l, LeafValue::Capability(_)),
        Binding::Table(t) => {
            let ghost tv = t@;
            let mut i: usize = 0;
            while i < t.items.len()
                invariant
                    i <= t.items.len(),
                    tv == t@,
                    tv.items.len() == t.items@.len(),
                    forall|j: int| 0 <= j < i ==> !((#[trigger] tv.items[j]).1 is Capability),
                decreases t.items.len() - i,
            {
                proof {
                    assert(tv.items[i as int] == (t.items@[i as int].0@, t.items@[i as int].1));
                }
                if matches!(t.items[i].1, LeafValue::Capability(_)) {
                    return true;
                }
                i = i + 1;
            }
            false
        },
    }
}

/// One execution environment: a key-value namespace bound to its tier,
/// with its frozen and optimized flags.
pub struct Env {
    tier: Tier,
    self_ref: Tier,
    frozen: bool,
    optimized: bool,
    entries: Vec<(String, Binding)>,
}

/// The binding `name` resolves to among `entries`: the most recent one.
pub open spec fn env_lookup(entries: Seq<(Seq<char>, BindingV)>, name: Seq<char>) -> Option<
    BindingV,
>
    decreases entries.len(),
{
    if entries.len() == 0 {
        None
    } else if entries.last().0 == name {
        Some(entries.last().1)
    } else {
        env_lookup(entries.drop_last(), name)
    }
}

impl Env {
    /// The spec-level entry list, oldest first.
    pub closed spec fn entries_view(&self) -> Seq<(Seq<char>, BindingV)> {
        self.entries@.map(|i: int, p: (String, Binding)| (p.0@, p.1@))
    }

    /// The environment's tier.
    pub closed spec fn spec_tier(&self) -> Tier {
        self.tier
    }

    /// Which environment the self-reference key resolves to: the name by
    /// which scripts address their own global table.
    pub closed spec fn spec_self_ref(&self) -> Tier {
        self.self_ref
    }

    /// Resolves the self-reference key.
    pub fn self_reference(&self) -> (r: Tier)
        ensures
            r == self.spec_self_ref(),
    {
        self.self_ref
    }

    /// The environment's tier.
    pub fn tier(&self) -> (r: Tier)
        ensures
            r == self.spec_tier(),
    {
        self.tier
    }

    /// Whether the environment's key set is frozen.
    pub closed spec fn spec_frozen(&self) -> bool {
        self.frozen
    }

    /// Whether the environment carries the engine's shape-immutable
    /// optimization hint.
    pub closed spec fn spec_optimized(&self) -> bool {
        self.optimized
    }

    /// The trust invariant: no binding reaches a capability token, and no
    /// binding stands under a capability's name.
    pub open spec fn wf(&self) -> bool {
        forall|i: int|
            0 <= i < self.entries_view().len() ==> !binding_reaches_cap(
                (#[trigger] self.entries_view()[i]).1,
            ) && !is_capability_name(self.entries_view()[i].0)
    }

    /// A fresh, mutable, unoptimized environment of the given tier, its
    /// self-reference bound to itself.
    pub fn new(tier: Tier) -> (r: Env)
        ensures
            r.wf(),
            r.spec_tier() == tier,
            r.spec_self_ref() == tier,
            !r.spec_frozen(),
            !r.spec_optimized(),
            r.entries_view().len() == 0,
    {
        let r = Env { tier, self_ref: tier, frozen: false, optimized: false, entries: Vec::new() };
        proof {
            assert(r.entries_view() =~= Seq::<(Seq<char>, BindingV)>::empty());
        }
        r
    }

    /// Binds `name` in this environment. A frozen environment faults; so
    /// does any attempt to bind a capability token or to use a
    /// capability's name — capability tokens never enter an execution
    /// environment.
    pub fn set_binding(&mut self, name: String, value: Binding) -> (r: Result<(), LibError>)
        ensures
            final(self).spec_tier() == old(self).spec_tier(),
            final(self).spec_self_ref() == old(self).spec_self_ref(),
            final(self).spec_frozen() == old(self).spec_frozen(),
            final(self).spec_optimized() == old(self).spec_optimized(),
            old(self).wf() ==> final(self).wf(),
            old(self).spec_frozen() ==> r == Err::<(), LibError>(LibError::EnvFrozen) && final(self).entries_view() == old(self).entries_view(),
            !old(self).spec_frozen() && (binding_reaches_cap(value@) || is_capability_name(name@))
                ==> r == Err::<(), LibError>(LibError::CapabilityLeak) && final(self).entries_view()
                == old(self).entries_view(),
            !old(self).spec_frozen() && !binding_reaches_cap(value@) && !is_capability_name(name@)
                ==> r == Ok::<(), LibError>(()) && final(self).entries_view() == old(self).entries_view().push((name@, value@)),
    {
        if self.frozen {
            return Err(LibError::EnvFrozen);
        }
        if binding_reaches_cap_exec(&value) || is_capability_name_exec(name.as_str()) {
            return Err(LibError::CapabilityLeak);
        }
        let ghost e1 = self.entries_view();
        self.entries.push((name, value));
        proof {
            assert(self.entries_view() =~= e1.push(
                (self.entries@.last().0@, self.entries@.last().1@),
            ));
        }
        Ok(())
    }

    /// Resolves `name` in this environment: the most recently bound value,
    /// or nothing when the name is absent.
    #[verifier::loop_isolation(false)]
    pub fn lookup(&self, name: &str) -> (r: Option<&Binding>)
        ensures
            match env_lookup(self.entries_view(), name@) {
                None => r is None,
                Some(bv) => r matches Some(b) && b@ == bv,
            },
    {
        let ghost ev = self.entries_view();
        let name_c = str_to_chars(name);
        let mut i: usize = self.entries.len();
        proof {
            assert(ev.take(ev.len() as int) =~= ev);
        }
        while i > 0
            invariant
                i <= self.entries@.len(),
                ev == self.entries_view(),
                ev.len() == self.entries@.len(),
                name_c@ == name@,
                env_lookup(ev, name@) == env_lookup(ev.take(i as int), name@),
            decreases i,
        {
            let k = i - 1;
            proof {
                assert(ev[k as int] == (self.entries@[k as int].0@, self.entries@[k as int].1@));
                assert(ev.take(k as int + 1).last() == ev[k as int]);
                assert(ev.take(k as int + 1).drop_last() =~= ev.take(k as int));
            }
            let key_c = str_to_chars(self.entries[k].0.as_str());
            if crate::chars::chars_eq(&key_c, &name_c) {
                return Some(&self.entries[k].1);
            }
            i = k;
        }
        proof {
            assert(ev.take(0) =~= Seq::<(Seq<char>, BindingV)>::empty());
        }
        None
    }

    /// Clones this environment's bindings into a fresh, mutable,
    /// unoptimized namespace of tier `tier`. The self-reference key is
    /// rebound to the clone itself, never left pointing at the parent.
    pub fn clone_env(&self, tier: Tier) -> (r: Env)
        ensures
            r.spec_tier() == tier,
            r.spec_self_ref() == tier,
            !r.spec_frozen(),
            !r.spec_optimized(),
            r.entries_view() == self.entries_view(),
            self.wf() ==> r.wf(),
    {
        let ghost ev = self.entries_view();
        let mut entries: Vec<(String, Binding)> = Vec::new();
        let mut i: usize = 0;
        while i < self.entries.len()
            invariant
                i <= self.entries@.len(),
                ev == self.entries_view(),
                ev.len() == self.entries@.len(),
                entries@.len() == i as int,
                forall|j: int|
                    0 <= j < i ==> ((#[trigger] entries@[j]).0@, entries@[j].1@) == ev[j],
            decreases self.entries@.len() - i,
        {
            proof {
                assert(ev[i as int] == (self.entries@[i as int].0@, self.entries@[i as int].1@));
            }
            let key = clone_string(&self.entries[i].0);
            let val = clone_binding(&self.entries[i].1);
            entries.push((key, val));
            i = i + 1;
        }
        let r = Env { tier, self_ref: tier, frozen: false, optimized: false, entries };
        proof {
            assert forall|j: int| 0 <= j < r.entries_view().len() implies r.entries_view()[j]
                == ev[j] by {
                assert(r.entries_view()[j] == (r.entries@[j].0@, r.entries@[j].1@));
            }
            assert(r.entries_view() =~= ev);
        }
        r
    }

    /// Marks every nested library table read-only, so scripts cannot
    /// rebind library sub-tables.
    #[verifier::loop_isolation(false)]
    pub fn freeze_nested_tables(&mut self)
        ensures
            final(self).spec_tier() == old(self).spec_tier(),
            final(self).spec_self_ref() == old(self).spec_self_ref(),
            final(self).spec_frozen() == old(self).spec_frozen(),
            final(self).spec_optimized() == old(self).spec_optimized(),
            final(self).entries_view() == freeze_tables(old(self).entries_view()),
            old(self).wf() ==> final(self).wf(),
    {
        let ghost e0 = self.entries_view();
        let n = self.entries.len();
        let mut i: usize = 0;
        while i < n
            invariant
                i <= n,
                n as int == self.entries@.len(),
                e0.len() == n as int,
                forall|j: int|
                    i <= j < n ==> (#[trigger] self.entries_view()[j]) == e0[j],
                forall|j: int|
                    0 <= j < i ==> (#[trigger] self.entries_view()[j]) == freeze_entry(e0[j]),
                self.tier == old(self).tier,
                self.self_ref == old(self).self_ref,
                self.frozen == old(self).frozen,
                self.optimized == old(self).optimized,
            decreases n - i,
        {
            let ghost epre = self.entries_view();
            let ghost rawpre = self.entries@;
            let p = entry_mut(&mut self.entries, i);
            match &mut p.1 {
                Binding::Table(t) => {
                    t.frozen = true;
                },
                Binding::Leaf(_) => {},
            }
            proof {
                assert forall|j: int| 0 <= j < e0.len() implies #[trigger] self.entries_view()[j]
                    == (if j == i as int {
                    freeze_entry(e0[j])
                } else {
                    epre[j]
                }) by {
                    assert(self.entries_view()[j] == (self.entries@[j].0@, self.entries@[j].1@));
                    assert(epre[j] == (rawpre[j].0@, rawpre[j].1@));
                    if j == i as int {
                        assert(epre[j] == e0[j]);
                        assert(self.entries@[j].0 == rawpre[j].0);
                        match rawpre[j].1 {
                            Binding::Table(t0) => {
                                assert(self.entries@[j].1 matches Binding::Table(t1)
                                    && t1.frozen && t1.items == t0.items);
                            },
                            Binding::Leaf(l0) => {
                                assert(self.entries@[j].1 == rawpre[j].1);
                            },
                        }
                    } else {
                        assert(self.entries@[j] == rawpre[j]);
                    }
                }
            }
            i = i + 1;
        }
        proof {
            assert(self.entries_view() =~= freeze_tables(e0));
        }
    }

    /// Sets the engine's shape-immutable optimization hint on this
    /// environment: the narrower declare-immutable step, not the full
    /// immutability-plus-optimization pass.
    pub fn set_safeenv(&mut self)
        ensures
            final(self).spec_tier() == old(self).spec_tier(),
            final(self).spec_self_ref() == old(self).spec_self_ref(),
            final(self).spec_frozen() == old(self).spec_frozen(),
            final(self).spec_optimized(),
            final(self).entries_view() == old(self).entries_view(),
            old(self).wf() ==> final(self).wf(),
    {
        self.optimized = true;
    }

    /// Applies the engine's immutability-plus-optimization pass: the key
    /// set is frozen for the lifetime of the process and the shape hint is
    /// set.
    pub fn do_sandbox(&mut self)
        ensures
            final(self).spec_tier() == old(self).spec_tier(),
            final(self).spec_self_ref() == old(self).spec_self_ref(),
            final(self).spec_frozen(),
            final(self).spec_optimized(),
            final(self).entries_view() == old(self).entries_view(),
            old(self).wf() ==> final(self).wf(),
    {
        self.frozen = true;
        self.optimized = true;
    }
}

/// Assembles the Low-Level Capability Table: the eleven privileged
/// primitives under their fixed names, bundled into exactly one table. It
/// lives in the host's bootstrap state and is never installed into any
/// environment.
pub fn create_low_level_table() -> (t: LibTable)
    ensures
        t@.items.len() == 11,
        forall|i: int| 0 <= i < t@.items.len() ==> (#[trigger] t@.items[i]).1 is Capability,
        forall|i: int|
            0 <= i < t@.items.len() ==> is_capability_name((#[trigger] t@.items[i]).0),
{
    let mut items: Vec<(String, LeafValue)> = Vec::new();
    items.push((to_owned_str("load_in_new_thread"), LeafValue::Capability(Capability::LoadInNewThread)));
    items.push((to_owned_str("set_safeenv_flag"), LeafValue::Capability(Capability::SetSafeenvFlag)));
    items.push((to_owned_str("deoptimize_env"), LeafValue::Capability(Capability::DeoptimizeEnv)));
    items.push((to_owned_str("get_globals"), LeafValue::Capability(Capability::GetGlobals)));
    items.push((to_owned_str("set_globals"), LeafValue::Capability(Capability::SetGlobals)));
    items.push((to_owned_str("raw_getfenv"), LeafValue::Capability(Capability::RawGetfenv)));
    items.push((to_owned_str("raw_setfenv"), LeafValue::Capability(Capability::RawSetfenv)));
    items.push((to_owned_str("do_sandbox"), LeafValue::Capability(Capability::DoSandbox)));
    items.push((to_owned_str("raw_getmetatable"), LeafValue::Capability(Capability::RawGetmetatable)));
    items.push((to_owned_str("raw_setmetatable"), LeafValue::Capability(Capability::RawSetmetatable)));
    items.push((to_owned_str("raw_freeze"), LeafValue::Capability(Capability::RawFreeze)));
    let t = LibTable { frozen: true, items };
    proof {
        assert forall|i: int| 0 <= i < t@.items.len() implies (#[trigger] t@.items[i]).1
            is Capability && is_capability_name(t@.items[i].0) by {
            assert(t@.items[i] == (t.items@[i].0@, t.items@[i].1));
        }
    }
    t
}

/// Relies on `str::to_owned` keeping the characters.
fn to_owned_str(s: &str) -> (r: String)
    ensures
        r@ == s@,
{
    s.to_owned()
}

/// The bootstrap state after the Global tier is built: the capability
/// table, held only here, and the sandboxed Global environment.
pub struct GlobalReady {
    pub low_level: LibTable,
    pub global: Env,
}

/// The bootstrap state after the SharedBase tier is derived.
pub struct SharedReady {
    pub low_level: LibTable,
    pub global: Env,
    pub shared_base: Env,
}

/// The bootstrap state once all four tiers exist, before finalization.
pub struct TiersReady {
    pub low_level: LibTable,
    pub global: Env,
    pub shared_base: Env,
    pub standalone: Env,
    pub plugin: Env,
}

/// The finished host: every environment frozen and optimized, the
/// engine-wide lock applied, and the capability table gone — nothing
/// script-visible can reach a capability token any more.
pub struct SandboxedHost {
    pub global: Env,
    pub shared_base: Env,
    pub standalone: Env,
    pub plugin: Env,
    pub engine_locked: bool,
}

impl SandboxedHost {
    /// What the finalizer guarantees: all four tiers frozen, optimized,
    /// free of capability tokens and of capability names, and the
    /// engine-wide lock applied exactly once.
    pub open spec fn sandboxed(&self) -> bool {
        &&& self.global.wf() && self.global.spec_frozen() && self.global.spec_optimized()
            && self.global.spec_tier() == Tier::Global && self.global.spec_self_ref()
            == Tier::Global
        &&& self.shared_base.wf() && self.shared_base.spec_frozen()
            && self.shared_base.spec_optimized() && self.shared_base.spec_tier()
            == Tier::SharedBase && self.shared_base.spec_self_ref() == Tier::SharedBase
        &&& self.standalone.wf() && self.standalone.spec_frozen()
            && self.standalone.spec_optimized() && self.standalone.spec_tier() == Tier::Standalone
            && self.standalone.spec_self_ref() == Tier::Standalone
        &&& self.plugin.wf() && self.plugin.spec_frozen() && self.plugin.spec_optimized()
            && self.plugin.spec_tier() == Tier::Plugin && self.plugin.spec_self_ref()
            == Tier::Plugin
        &&& self.engine_locked
    }
}

/// Installs each named binding into `env`, aborting the whole
/// initialization on the first fault: the host either starts fully
/// sandboxed or does not start.
#[verifier::loop_isolation(false)]
fn install_all(env: &mut Env, libs: Vec<(String, Binding)>) -> (r: Result<(), LibError>)
    ensures
        final(env).spec_tier() == old(env).spec_tier(),
        final(env).spec_self_ref() == old(env).spec_self_ref(),
        final(env).spec_frozen() == old(env).spec_frozen(),
        final(env).spec_optimized() == old(env).spec_optimized(),
        old(env).wf() ==> final(env).wf(),
        !old(env).spec_frozen() && (forall|i: int|
            0 <= i < libs@.len() ==> !binding_reaches_cap((#[trigger] libs@[i]).1@)
                && !is_capability_name(libs@[i].0@)) ==> r == Ok::<(), LibError>(())
            && final(env).entries_view() == old(env).entries_view() + libs@.map(
            |i: int, p: (String, Binding)| (p.0@, p.1@),
        ),
{
    let ghost libsraw = libs@;
    let ghost libsv = libs@.map(|i: int, p: (String, Binding)| (p.0@, p.1@));
    let ghost e0 = env.entries_view();
    let mut pool = libs;
    let mut i: usize = 0;
    let n = pool.len();
    proof {
        assert(e0 + libsv.take(0) =~= e0);
    }
    while i < n
        invariant
            i <= n,
            n as int == pool@.len(),
            libsv.len() == n as int,
            forall|j: int|
                i <= j < n ==> ((#[trigger] pool@[j]).0@, pool@[j].1@) == libsv[j],
            env.spec_tier() == old(env).spec_tier(),
            env.spec_self_ref() == old(env).spec_self_ref(),
            env.spec_frozen() == old(env).spec_frozen(),
            env.spec_optimized() == old(env).spec_optimized(),
            old(env).wf() ==> env.wf(),
            !old(env).spec_frozen() && (forall|j: int|
                0 <= j < libsv.len() ==> !binding_reaches_cap((#[trigger] libsv[j]).1)
                    && !is_capability_name(libsv[j].0)) ==> env.entries_view() == e0 + libsv.take(
                i as int,
            ),
        decreases n - i,
    {
        // Pull the next pair out of the vector without cloning it.
        let (key, val) = replace_entry(&mut pool, i);
        let ghost keyv = key@;
        let ghost valv = val@;
        proof {
            assert((keyv, valv) == libsv[i as int]);
        }
        match env.set_binding(key, val) {
            Ok(()) => {},
            Err(e) => {
                proof {
                    if !old(env).spec_frozen() && (forall|j: int|
                        0 <= j < libsraw.len() ==> !binding_reaches_cap(
                            (#[trigger] libsraw[j]).1@,
                        ) && !is_capability_name(libsraw[j].0@)) {
                        assert(libsv[i as int] == (libsraw[i as int].0@, libsraw[i as int].1@));
                        assert(!binding_reaches_cap(libsv[i as int].1));
                        assert(!is_capability_name(libsv[i as int].0));
                        assert(false);
                    }
                }
                return Err(e);
            },
        }
        proof {
            if !old(env).spec_frozen() && (forall|j: int|
                0 <= j < libsv.len() ==> !binding_reaches_cap((#[trigger] libsv[j]).1)
                    && !is_capability_name(libsv[j].0)) {
                assert(libsv[i as int].1 == libsv[i as int].1);
                assert(env.entries_view() =~= e0 + libsv.take(i as int + 1));
            }
        }
        i = i + 1;
    }
    proof {
        assert(libsv.take(n as int) =~= libsv);
    }
    Ok(())
}

/// Swaps a placeholder into slot `i` and hands the stored pair out.
fn replace_entry(v: &mut Vec<(String, Binding)>, i: usize) -> (r: (String, Binding))
    requires
        i < old(v).len(),
    ensures
        r == old(v)@[i as int],
        final(v)@.len() == old(v)@.len(),
        forall|j: int| 0 <= j < old(v)@.len() && j != i as int ==> final(v)@[j] == old(v)@[j],
{
    let mut tmp = (String::new(), Binding::Leaf(LeafValue::Function(0)));
    std::mem::swap(&mut tmp, &mut v[i]);
    tmp
}

/// Builds the Global tier: the engine's default top-level scope with the
/// trusted host utilities, then the immutability-plus-optimization pass,
/// intentionally before the remaining environments are populated. The
/// capability table is assembled into the bootstrap state alone.
pub fn build_global(host_utils: Vec<(String, Binding)>) -> (r: Result<GlobalReady, LibError>)
    ensures
        r matches Ok(g) ==> {
            &&& g.global.wf()
            &&& g.global.spec_frozen()
            &&& g.global.spec_optimized()
            &&& g.global.spec_tier() == Tier::Global
            &&& g.global.spec_self_ref() == Tier::Global
        },
{
    let low_level = create_low_level_table();
    let mut global = Env::new(Tier::Global);
    if let Err(e) = install_all(&mut global, host_utils) {
        return Err(e);
    }
    global.do_sandbox();
    Ok(GlobalReady { low_level, global })
}

/// Derives the SharedBase tier: Global's bindings cloned into a fresh
/// namespace, with the library surfaces common to the lower tiers
/// installed.
pub fn derive_shared_base(g: GlobalReady, shared_libs: Vec<(String, Binding)>) -> (r: Result<
    SharedReady,
    LibError,
>)
    requires
        g.global.wf(),
        g.global.spec_frozen(),
        g.global.spec_optimized(),
        g.global.spec_tier() == Tier::Global,
    ensures
        r matches Ok(s) ==> {
            &&& s.global == g.global
            &&& s.shared_base.wf()
            &&& !s.shared_base.spec_frozen()
            &&& s.shared_base.spec_tier() == Tier::SharedBase
            &&& s.shared_base.spec_self_ref() == Tier::SharedBase
        },
{
    let mut shared_base = g.global.clone_env(Tier::SharedBase);
    if let Err(e) = install_all(&mut shared_base, shared_libs) {
        return Err(e);
    }
    Ok(SharedReady { low_level: g.low_level, global: g.global, shared_base })
}

/// Derives the two sandboxed tiers from SharedBase: Standalone gets only
/// currently-supported surfaces, Plugin additionally the legacy shims that
/// re-dispatch to the modern implementations. Every nested library table
/// is then individually frozen, and each tier gets the narrow
/// shape-immutable optimization.
pub fn derive_descendants(
    s: SharedReady,
    standalone_libs: Vec<(String, Binding)>,
    plugin_libs: Vec<(String, Binding)>,
) -> (r: Result<TiersReady, LibError>)
    requires
        s.global.wf(),
        s.global.spec_frozen(),
        s.global.spec_optimized(),
        s.global.spec_tier() == Tier::Global,
        s.shared_base.wf(),
        s.shared_base.spec_tier() == Tier::SharedBase,
    ensures
        r matches Ok(t) ==> {
            &&& t.global == s.global
            &&& t.shared_base.wf() && t.shared_base.spec_tier() == Tier::SharedBase
                && t.shared_base.spec_self_ref() == s.shared_base.spec_self_ref()
            &&& t.standalone.wf() && t.standalone.spec_optimized() && t.standalone.spec_tier()
                == Tier::Standalone && t.standalone.spec_self_ref() == Tier::Standalone
            &&& t.plugin.wf() && t.plugin.spec_optimized() && t.plugin.spec_tier() == Tier::Plugin
                && t.plugin.spec_self_ref() == Tier::Plugin
        },
{
    let mut standalone = s.shared_base.clone_env(Tier::Standalone);
    if let Err(e) = install_all(&mut standalone, standalone_libs) {
        return Err(e);
    }
    let mut plugin = s.shared_base.clone_env(Tier::Plugin);
    if let Err(e) = install_all(&mut plugin, plugin_libs) {
        return Err(e);
    }
    standalone.freeze_nested_tables();
    standalone.set_safeenv();
    plugin.freeze_nested_tables();
    plugin.set_safeenv();
    Ok(TiersReady {
        low_level: s.low_level,
        global: s.global,
        shared_base: s.shared_base,
        standalone,
        plugin,
    })
}

/// The point-of-no-return ending host initialization: every environment's
/// key set is frozen, the engine-wide lock is applied, and the capability
/// table — consumed with the bootstrap state — becomes unreachable from
/// any script-visible code path. The bootstrap state is gone afterwards,
/// so a second invocation cannot be written at all.
pub fn finalize(t: TiersReady) -> (h: SandboxedHost)
    requires
        t.global.wf(),
        t.global.spec_frozen(),
        t.global.spec_optimized(),
        t.global.spec_tier() == Tier::Global,
        t.global.spec_self_ref() == Tier::Global,
        t.shared_base.wf(),
        t.shared_base.spec_tier() == Tier::SharedBase,
        t.shared_base.spec_self_ref() == Tier::SharedBase,
        t.standalone.wf(),
        t.standalone.spec_tier() == Tier::Standalone,
        t.standalone.spec_self_ref() == Tier::Standalone,
        t.plugin.wf(),
        t.plugin.spec_tier() == Tier::Plugin,
        t.plugin.spec_self_ref() == Tier::Plugin,
    ensures
        h.sandboxed(),
        h.global.entries_view() == t.global.entries_view(),
        h.shared_base.entries_view() == t.shared_base.entries_view(),
        h.standalone.entries_view() == t.standalone.entries_view(),
        h.plugin.entries_view() == t.plugin.entries_view(),
{
    let TiersReady { low_level: _, global, mut shared_base, mut standalone, mut plugin } = t;
    shared_base.do_sandbox();
    standalone.do_sandbox();
    plugin.do_sandbox();
    SandboxedHost { global, shared_base, standalone, plugin, engine_locked: true }
}

/// After finalization, writing any key into any produced environment
/// faults, and no value reachable by recursively reading an environment is
/// a capability token.
pub proof fn lemma_sandbox_integrity(h: SandboxedHost)
    requires
        h.sandboxed(),
    ensures
        h.global.spec_frozen() && h.shared_base.spec_frozen() && h.standalone.spec_frozen()
            && h.plugin.spec_frozen(),
        forall|i: int|
            0 <= i < h.global.entries_view().len() ==> !binding_reaches_cap(
                (#[trigger] h.global.entries_view()[i]).1,
            ),
        forall|i: int|
            0 <= i < h.shared_base.entries_view().len() ==> !binding_reaches_cap(
                (#[trigger] h.shared_base.entries_view()[i]).1,
            ),
        forall|i: int|
            0 <= i < h.standalone.entries_view().len() ==> !binding_reaches_cap(
                (#[trigger] h.standalone.entries_view()[i]).1,
            ),
        forall|i: int|
            0 <= i < h.plugin.entries_view().len() ==> !binding_reaches_cap(
                (#[trigger] h.plugin.entries_view()[i]).1,
            ),
{
}

/// In a well-formed environment no binding stands under a capability's
/// name, so resolving such a name finds nothing at all — it does not
/// resolve and then fault.
pub proof fn lemma_capability_lookup_absent(e: Env, name: Seq<char>)
    requires
        e.wf(),
        is_capability_name(name),
    ensures
        env_lookup(e.entries_view(), name) is None,
{
    lemma_lookup_none(e.entries_view(), name);
}

proof fn lemma_lookup_none(entries: Seq<(Seq<char>, BindingV)>, name: Seq<char>)
    requires
        forall|i: int| 0 <= i < entries.len() ==> (#[trigger] entries[i]).0 != name,
    ensures
        env_lookup(entries, name) is None,
    decreases entries.len(),
{
    if entries.len() > 0 {
        assert(entries[entries.len() - 1].0 != name);
        lemma_lookup_none(entries.drop_last(), name);
    }
}

/// Any capability-named operation is absent from the Standalone and Plugin
/// environments of a finalized host: the binding simply does not exist.
pub proof fn lemma_capability_names_unresolvable(h: SandboxedHost, name: Seq<char>)
    requires
        h.sandboxed(),
        is_capability_name(name),
    ensures
        env_lookup(h.standalone.entries_view(), name) is None,
        env_lookup(h.plugin.entries_view(), name) is None,
        env_lookup(h.global.entries_view(), name) is None,
        env_lookup(h.shared_base.entries_view(), name) is None,
{
    lemma_capability_lookup_absent(h.standalone, name);
    lemma_capability_lookup_absent(h.plugin, name);
    lemma_capability_lookup_absent(h.global, name);
    lemma_capability_lookup_absent(h.shared_base, name);
}

/// One entry with any nested table marked read-only.
pub open spec fn freeze_entry(e: (Seq<char>, BindingV)) -> (Seq<char>, BindingV) {
    match e.1 {
        BindingV::Table(t) => (e.0, BindingV::Table(LibTableV { frozen: true, items: t.items })),
        BindingV::Leaf(_) => e,
    }
}

/// The entry list with every nested table marked read-only.
pub open spec fn freeze_tables(entries: Seq<(Seq<char>, BindingV)>) -> Seq<(Seq<char>, BindingV)> {
    entries.map(|i: int, e: (Seq<char>, BindingV)| freeze_entry(e))
}

/// A mutable reference to the entry at `i`.
fn entry_mut(v: &mut Vec<(String, Binding)>, i: usize) -> (r: &mut (String, Binding))
    requires
        i < old(v).len(),
    ensures
        *r == old(v)@[i as int],
        final(v)@ == old(v)@.update(i as int, *final(r)),
{
    &mut v[i]
}

/// A copy of a string, with the same characters.
fn clone_string(s: &String) -> (r: String)
    ensures
        r@ == s@,
{
    s.clone()
}

/// A copy of a binding, with the same view.
fn clone_binding(b: &Binding) -> (r: Binding)
    ensures
        r@ == b@,
{
    match b {
        Binding::Leaf(l) => Binding::Leaf(*l),
        Binding::Table(t) => {
            let ghost tv = t@;
            let mut items: Vec<(String, LeafValue)> = Vec::new();
            let mut i: usize = 0;
            while i < t.items.len()
                invariant
                    i <= t.items@.len(),
                    tv == t@,
                    tv.items.len() == t.items@.len(),
                    items@.len() == i as int,
                    forall|j: int|
                        0 <= j < i ==> ((#[trigger] items@[j]).0@, items@[j].1) == tv.items[j],
                decreases t.items@.len() - i,
            {
                proof {
                    assert(tv.items[i as int] == (t.items@[i as int].0@, t.items@[i as int].1));
                }
                items.push((clone_string(&t.items[i].0), t.items[i].1));
                i = i + 1;
            }
            let r = Binding::Table(LibTable { frozen: t.frozen, items });
            proof {
                let rv = r@;
                assert(rv matches BindingV::Table(t2) && t2.items.len() == tv.items.len());
                assert forall|j: int| 0 <= j < tv.items.len() implies rv->Table_0.items[j]
                    == tv.items[j] by {
                    assert(rv->Table_0.items[j] == (items@[j].0@, items@[j].1));
                }
                assert(rv->Table_0.items =~= tv.items);
            }
            r
        },
    }
}

} // verus!
