use crabsoup::sandbox::{
    build_global, derive_descendants, derive_shared_base, finalize, Binding, Capability, Env,
    LeafValue, LibTable, Tier,
};
use crabsoup::LibError;

fn leaf(id: u64) -> Binding {
    Binding::Leaf(LeafValue::Function(id))
}

fn lib_table(items: Vec<(&str, u64)>) -> Binding {
    Binding::Table(LibTable {
        frozen: false,
        items: items
            .into_iter()
            .map(|(k, v)| (k.to_string(), LeafValue::Function(v)))
            .collect(),
    })
}

fn build_host() -> crabsoup::sandbox::SandboxedHost {
    let g = build_global(vec![
        ("Log".to_string(), lib_table(vec![("info", 1), ("warn", 2)])),
        ("host_version".to_string(), leaf(3)),
    ])
    .unwrap();
    let s = derive_shared_base(
        g,
        vec![("HTML".to_string(), lib_table(vec![("parse", 10), ("to_html", 11)]))],
    )
    .unwrap();
    let t = derive_descendants(
        s,
        vec![("String".to_string(), lib_table(vec![("slugify", 20)]))],
        vec![
            ("String".to_string(), lib_table(vec![("slugify", 20)])),
            ("legacy_api".to_string(), lib_table(vec![("strip_tags_legacy", 30)])),
        ],
    )
    .unwrap();
    finalize(t)
}

#[test]
fn finalized_environments_reject_writes() {
    let mut host = build_host();
    let r = host.standalone.set_binding("anything".to_string(), leaf(99));
    assert_eq!(r, Err(LibError::EnvFrozen));
    let r = host.global.set_binding("anything".to_string(), leaf(99));
    assert_eq!(r, Err(LibError::EnvFrozen));
    let r = host.plugin.set_binding("anything".to_string(), leaf(99));
    assert_eq!(r, Err(LibError::EnvFrozen));
}

#[test]
fn capability_names_do_not_resolve_in_sandboxed_tiers() {
    let host = build_host();
    // The binding is simply absent: resolution finds nothing at all.
    assert!(host.standalone.lookup("set_globals").is_none());
    assert!(host.standalone.lookup("load_in_new_thread").is_none());
    assert!(host.standalone.lookup("raw_setfenv").is_none());
    assert!(host.standalone.lookup("raw_freeze").is_none());
    assert!(host.plugin.lookup("set_globals").is_none());
    assert!(host.plugin.lookup("do_sandbox").is_none());
    assert!(host.global.lookup("set_globals").is_none());
    // Ordinary bindings still resolve.
    assert!(host.standalone.lookup("HTML").is_some());
    assert!(host.plugin.lookup("legacy_api").is_some());
    assert!(host.standalone.lookup("legacy_api").is_none());
}

#[test]
fn capability_tokens_never_enter_an_environment() {
    let mut env = Env::new(Tier::Global);
    let cap = Binding::Leaf(LeafValue::Capability(Capability::SetGlobals));
    assert_eq!(
        env.set_binding("escape_hatch".to_string(), cap),
        Err(LibError::CapabilityLeak)
    );
    let table_with_cap = Binding::Table(LibTable {
        frozen: false,
        items: vec![("inner".to_string(), LeafValue::Capability(Capability::RawSetfenv))],
    });
    assert_eq!(
        env.set_binding("utils".to_string(), table_with_cap),
        Err(LibError::CapabilityLeak)
    );
    // A capability's name is refused even for a harmless value.
    assert_eq!(
        env.set_binding("set_globals".to_string(), leaf(1)),
        Err(LibError::CapabilityLeak)
    );
    assert_eq!(
        env.set_binding("raw_freeze".to_string(), leaf(1)),
        Err(LibError::CapabilityLeak)
    );
    // Ordinary installs succeed.
    assert_eq!(env.set_binding("fine".to_string(), leaf(1)), Ok(()));
}

#[test]
fn lookup_returns_the_most_recent_binding() {
    let mut env = Env::new(Tier::Global);
    env.set_binding("x".to_string(), leaf(1)).unwrap();
    env.set_binding("x".to_string(), leaf(2)).unwrap();
    match env.lookup("x") {
        Some(Binding::Leaf(LeafValue::Function(id))) => assert_eq!(*id, 2),
        _ => panic!("expected the most recent binding"),
    }
    assert!(env.lookup("y").is_none());
}

#[test]
fn cloned_environments_inherit_bindings_but_not_flags() {
    let mut parent = Env::new(Tier::Global);
    parent.set_binding("x".to_string(), leaf(1)).unwrap();
    parent.do_sandbox();
    let mut child = parent.clone_env(Tier::SharedBase);
    assert_eq!(child.tier(), Tier::SharedBase);
    assert!(child.lookup("x").is_some());
    // The clone is mutable again: freezing does not travel.
    assert_eq!(child.set_binding("y".to_string(), leaf(2)), Ok(()));
}

#[test]
fn nested_tables_are_frozen_for_descendants() {
    let host = build_host();
    match host.standalone.lookup("String") {
        Some(Binding::Table(t)) => assert!(t.frozen),
        _ => panic!("expected the library table"),
    }
    match host.standalone.lookup("HTML") {
        Some(Binding::Table(t)) => assert!(t.frozen),
        _ => panic!("expected the library table"),
    }
}
