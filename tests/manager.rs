use bpfman::actor::{handle_request, Request, Response};
use bpfman::errors::BpfmanError;
use bpfman::manager::{AddOutcome, BpfManager, DispatchAction, MAX_DISPATCHER_PROGRAMS};

fn add(m: &mut BpfManager, iface: &str, priority: i32, maps: &[&str]) -> AddOutcome {
    let names: Vec<String> = maps.iter().map(|s| s.to_string()).collect();
    match m.add_resolved(
        iface.to_string(),
        Some(7),
        "/objs/prog.o".to_string(),
        priority,
        "xdp_pass".to_string(),
        Ok(names),
    ) {
        Ok(out) => out,
        Err(e) => panic!("add failed: {:?}", e),
    }
}

fn listed_ids(m: &BpfManager, iface: &str) -> Vec<u64> {
    let name = iface.to_string();
    m.list_programs(Some(&name)).iter().map(|p| p.id).collect()
}

fn chain_of_action(a: &DispatchAction) -> Vec<u64> {
    match a {
        DispatchAction::Attach { chain, .. } => chain.clone(),
        DispatchAction::Replace { chain, .. } => chain.clone(),
        DispatchAction::Detach { .. } => vec![],
    }
}

#[test]
fn lower_priority_runs_first_then_teardown() {
    let mut m = BpfManager::new();
    let first = add(&mut m, "eth0", 10, &[]);
    assert!(matches!(first.action, DispatchAction::Attach { .. }));
    let second = add(&mut m, "eth0", 5, &[]);
    assert!(matches!(second.action, DispatchAction::Replace { .. }));
    assert_eq!(chain_of_action(&second.action), vec![second.id, first.id]);
    assert_eq!(listed_ids(&m, "eth0"), vec![second.id, first.id]);
    assert_eq!(m.compute_chain(&"eth0".to_string()), vec![second.id, first.id]);

    let r = m.remove_program(first.id, &"eth0".to_string()).unwrap_or_else(|_| panic!("remove failed"));
    match &r.action {
        DispatchAction::Replace { iface, chain, .. } => {
            assert_eq!(iface, "eth0");
            assert_eq!(chain, &vec![second.id]);
        }
        _ => panic!("dispatcher should stay attached"),
    }
    assert_eq!(listed_ids(&m, "eth0"), vec![second.id]);

    let r = m.remove_program(second.id, &"eth0".to_string()).unwrap_or_else(|_| panic!("remove failed"));
    match &r.action {
        DispatchAction::Detach { iface, ifindex } => {
            assert_eq!(iface, "eth0");
            assert_eq!(*ifindex, 7);
        }
        _ => panic!("dispatcher should be detached"),
    }
    assert!(listed_ids(&m, "eth0").is_empty());
}

#[test]
fn unknown_interface_is_rejected_and_registry_unchanged() {
    let mut m = BpfManager::new();
    let r = m.add_program(
        "nosuchiface0".to_string(),
        "/objs/prog.o".to_string(),
        1,
        "xdp_pass".to_string(),
        Ok(vec![]),
    );
    assert!(matches!(r, Err(BpfmanError::InvalidInterface)));
    let r = m.add_resolved(
        "nosuchiface0".to_string(),
        None,
        "/objs/prog.o".to_string(),
        1,
        "xdp_pass".to_string(),
        Ok(vec![]),
    );
    assert!(matches!(r, Err(BpfmanError::InvalidInterface)));
    assert!(m.list_programs(None).is_empty());
}

#[test]
fn load_failure_forwards_reason() {
    let mut m = BpfManager::new();
    let r = m.add_resolved(
        "eth0".to_string(),
        Some(2),
        "/objs/bad.o".to_string(),
        1,
        "xdp".to_string(),
        Err("invalid instruction".to_string()),
    );
    match r {
        Err(BpfmanError::LoadFailure(reason)) => assert_eq!(reason, "invalid instruction"),
        _ => panic!("expected a load failure"),
    }
    assert!(m.list_programs(None).is_empty());
}

#[test]
fn chain_capacity_is_enforced() {
    let mut m = BpfManager::new();
    for i in 0..MAX_DISPATCHER_PROGRAMS {
        add(&mut m, "eth0", i as i32, &[]);
    }
    let r = m.add_resolved(
        "eth0".to_string(),
        Some(7),
        "/objs/prog.o".to_string(),
        100,
        "xdp_pass".to_string(),
        Ok(vec![]),
    );
    assert!(matches!(r, Err(BpfmanError::CapacityExceeded)));
    assert_eq!(listed_ids(&m, "eth0").len(), MAX_DISPATCHER_PROGRAMS);
    // Another interface has its own slots.
    let other = add(&mut m, "eth1", 1, &[]);
    assert_eq!(listed_ids(&m, "eth1"), vec![other.id]);
}

#[test]
fn equal_priority_keeps_insertion_order() {
    let mut m = BpfManager::new();
    let a = add(&mut m, "eth0", 50, &[]);
    let b = add(&mut m, "eth0", 50, &[]);
    let c = add(&mut m, "eth0", 50, &[]);
    assert_eq!(listed_ids(&m, "eth0"), vec![a.id, b.id, c.id]);
    let x = add(&mut m, "eth1", 50, &[]);
    let y = add(&mut m, "eth1", 10, &[]);
    assert!(m.remove_program(x.id, &"eth1".to_string()).is_ok());
    assert!(m.remove_program(b.id, &"eth0".to_string()).is_ok());
    assert_eq!(listed_ids(&m, "eth0"), vec![a.id, c.id]);
    assert_eq!(listed_ids(&m, "eth1"), vec![y.id]);
}

#[test]
fn removing_unknown_program_is_not_found() {
    let mut m = BpfManager::new();
    let a = add(&mut m, "eth0", 1, &[]);
    assert!(matches!(m.remove_program(a.id + 100, &"eth0".to_string()), Err(BpfmanError::NotFound)));
    assert!(matches!(m.remove_program(a.id, &"eth1".to_string()), Err(BpfmanError::NotFound)));
    assert_eq!(listed_ids(&m, "eth0"), vec![a.id]);
}

#[test]
fn teardown_after_many_operations() {
    let mut m = BpfManager::new();
    let mut ids = vec![];
    for p in [3, 1, 2, 1] {
        ids.push(add(&mut m, "eth0", p, &[]).id);
    }
    for id in &ids[..3] {
        let r = m.remove_program(*id, &"eth0".to_string()).unwrap_or_else(|_| panic!("remove failed"));
        assert!(matches!(r.action, DispatchAction::Replace { .. }));
    }
    let r = m.remove_program(ids[3], &"eth0".to_string()).unwrap_or_else(|_| panic!("remove failed"));
    assert!(matches!(r.action, DispatchAction::Detach { .. }));
    assert!(m.list_programs(None).is_empty());
    // The interface starts over with a fresh dispatcher.
    let again = add(&mut m, "eth0", 1, &[]);
    assert!(matches!(again.action, DispatchAction::Attach { .. }));
}

#[test]
fn shared_maps_are_pinned_once() {
    let mut m = BpfManager::new();
    let a = add(&mut m, "eth0", 1, &["counters", "stats.bss", ".rodata.config"]);
    assert_eq!(a.maps_to_pin, vec!["counters".to_string()]);
    let b = add(&mut m, "eth1", 1, &["counters", "stats.bss", ".rodata.config"]);
    assert!(b.maps_to_pin.is_empty());
    let r = m.remove_program(a.id, &"eth0".to_string()).unwrap_or_else(|_| panic!("remove failed"));
    assert!(r.maps_to_unpin.is_empty());
    let r = m.remove_program(b.id, &"eth1".to_string()).unwrap_or_else(|_| panic!("remove failed"));
    assert_eq!(r.maps_to_unpin, vec!["counters".to_string()]);
    assert_eq!(r.path, "/objs/prog.o");
}

#[test]
fn get_map_resolves_pinned_maps_only() {
    let mut m = BpfManager::new();
    let a = add(&mut m, "eth0", 1, &["counters", "stats.bss"]);
    let eth0 = "eth0".to_string();
    match m.get_map(&eth0, a.id, &"counters".to_string()) {
        Ok(p) => assert_eq!(p, "/objs/prog.o"),
        Err(_) => panic!("map should resolve"),
    }
    assert!(matches!(m.get_map(&eth0, a.id, &"stats.bss".to_string()), Err(BpfmanError::NotFound)));
    assert!(matches!(m.get_map(&"eth1".to_string(), a.id, &"counters".to_string()), Err(BpfmanError::NotFound)));
    assert!(matches!(m.get_map(&eth0, a.id + 1, &"counters".to_string()), Err(BpfmanError::NotFound)));
}

#[test]
fn list_all_interfaces_in_dispatch_order() {
    let mut m = BpfManager::new();
    let a = add(&mut m, "eth0", 20, &[]);
    let b = add(&mut m, "eth1", 10, &[]);
    let all = m.list_programs(None);
    assert_eq!(all.len(), 2);
    assert_eq!(all[0].id, b.id);
    assert_eq!(all[0].iface, "eth1");
    assert_eq!(all[0].priority, 10);
    assert_eq!(all[0].section_name, "xdp_pass");
    assert_eq!(all[1].id, a.id);
}

#[test]
fn requests_on_two_interfaces_are_handled_one_at_a_time() {
    let mut m = BpfManager::new();
    let load = |iface: &str, priority: i32| Request::Load {
        iface: iface.to_string(),
        ifindex: Some(3),
        path: "/objs/prog.o".to_string(),
        priority,
        section_name: "tc".to_string(),
        loaded: Ok(vec![]),
    };
    let id_of = |r: Response| match r {
        Response::Loaded(Ok(out)) => out.id,
        _ => panic!("load failed"),
    };
    let a = id_of(handle_request(&mut m, load("eth0", 2)));
    let b = id_of(handle_request(&mut m, load("eth1", 2)));
    let c = id_of(handle_request(&mut m, load("eth0", 1)));
    match handle_request(&mut m, Request::Unload { id: b, iface: "eth1".to_string() }) {
        Response::Unloaded(Ok(out)) => assert!(matches!(out.action, DispatchAction::Detach { .. })),
        _ => panic!("unload failed"),
    }
    match handle_request(&mut m, Request::List { iface: Some("eth0".to_string()) }) {
        Response::Listed(v) => assert_eq!(v.iter().map(|p| p.id).collect::<Vec<_>>(), vec![c, a]),
        _ => panic!("list failed"),
    }
    match handle_request(&mut m, Request::List { iface: Some("eth1".to_string()) }) {
        Response::Listed(v) => assert!(v.is_empty()),
        _ => panic!("list failed"),
    }
    match handle_request(&mut m, Request::GetMap { iface: "eth0".to_string(), id: a, map_name: "x".to_string() }) {
        Response::MapPath(Err(BpfmanError::NotFound)) => {}
        _ => panic!("expected not found"),
    }
}
