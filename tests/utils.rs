use bpfman::errors::BpfmanError;
use bpfman::utils::{get_ifindex, ifindex_from_lookup, should_map_be_pinned, SOCK_MODE};

#[test]
fn per_load_sections_are_not_pinned() {
    assert!(!should_map_be_pinned("stats.bss"));
    assert!(!should_map_be_pinned(".rodata.config"));
    assert!(!should_map_be_pinned("my.data"));
    assert!(should_map_be_pinned("counters"));
    assert!(should_map_be_pinned("rodata"));
    assert!(should_map_be_pinned(""));
}

#[test]
fn unknown_interface_name_does_not_resolve() {
    assert!(matches!(get_ifindex("nosuchiface0"), Err(BpfmanError::InvalidInterface)));
}

#[test]
fn lookup_outcome_maps_to_result() {
    assert!(matches!(ifindex_from_lookup(Some(4)), Ok(4)));
    assert!(matches!(ifindex_from_lookup(None), Err(BpfmanError::InvalidInterface)));
}

#[test]
fn socket_mode_is_owner_and_group_rw() {
    assert_eq!(SOCK_MODE, 0o660);
}
