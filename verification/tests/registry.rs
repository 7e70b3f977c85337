use vk_device_reorder::chain::{ChainNode, find_layer_link};
use vk_device_reorder::chain::{LAYER_FUNCTION_LINK_INFO, STRUCTURE_TYPE_LOADER_INSTANCE_CREATE_INFO};
use vk_device_reorder::dispatch::{InterceptKind, Registry, ResolvedSlots, resolve_intercept};
use vk_device_reorder::status::{
    VK_ERROR_INITIALIZATION_FAILED, VK_ERROR_UNKNOWN, VK_INCOMPLETE, VK_SUCCESS, from_vk,
    into_vk_result,
};

fn full_slots(base: usize) -> ResolvedSlots {
    ResolvedSlots {
        get_instance_proc_addr: Some(base),
        destroy_instance: Some(base + 1),
        enumerate_physical_devices: Some(base + 2),
        get_physical_device_properties: Some(base + 3),
        get_physical_device_features: Some(base + 4),
        get_physical_device_display_properties_khr: Some(base + 5),
    }
}

#[test]
fn build_then_get_until_destroy() {
    // After build(K) succeeds, get(K) is non-empty until destroy(K);
    // after destroy(K) it is empty, and a record obtained before the
    // destroy stays usable.
    let mut reg = Registry::new();
    assert!(reg.get(42).is_none());
    assert!(reg.build(42, full_slots(100)));
    assert!(reg.get(42).is_some());

    // Operations on other keys leave the entry alone.
    assert!(reg.build(43, full_slots(200)));
    reg.destroy(44);
    assert!(reg.get(42).is_some());

    let held = reg.get(42).unwrap();
    reg.destroy(42);
    assert!(reg.get(42).is_none());
    assert_eq!(held.get_instance_proc_addr, 100);
    assert_eq!(held.destroy_instance, 101);
    assert!(reg.get(43).is_some());
}

#[test]
fn build_fails_without_mandatory_slot_and_inserts_nothing() {
    let mut reg = Registry::new();
    let mut slots = full_slots(100);
    slots.enumerate_physical_devices = None;
    assert!(!reg.build(7, slots));
    assert!(reg.get(7).is_none());

    let mut slots = full_slots(100);
    slots.get_instance_proc_addr = None;
    assert!(!reg.build(7, slots));
    assert!(reg.get(7).is_none());
}

#[test]
fn optional_slot_may_be_absent() {
    let mut reg = Registry::new();
    let mut slots = full_slots(300);
    slots.get_physical_device_display_properties_khr = None;
    assert!(reg.build(9, slots));
    let rec = reg.get(9).unwrap();
    assert_eq!(rec.get_physical_device_display_properties_khr, None);
    assert_eq!(rec.get_physical_device_features, 304);
}

#[test]
fn rebuild_overwrites_stale_entry() {
    let mut reg = Registry::new();
    assert!(reg.build(5, full_slots(100)));
    assert!(reg.build(5, full_slots(900)));
    let rec = reg.get(5).unwrap();
    assert_eq!(rec.get_instance_proc_addr, 900);
}

#[test]
fn destroy_is_idempotent() {
    let mut reg = Registry::new();
    assert!(reg.build(1, full_slots(10)));
    reg.destroy(1);
    reg.destroy(1);
    assert!(reg.get(1).is_none());
    reg.destroy(2);
}

fn link_node(has_layer_info: bool) -> ChainNode {
    ChainNode {
        s_type: STRUCTURE_TYPE_LOADER_INSTANCE_CREATE_INFO,
        function: LAYER_FUNCTION_LINK_INFO,
        has_layer_info,
    }
}

fn other_node() -> ChainNode {
    ChainNode { s_type: 3, function: 1, has_layer_info: false }
}

#[test]
fn chain_without_link_node_fails_initialization() {
    // A chain with no loader layer-link info node means this layer would
    // be the innermost: initialization fails and nothing is created, so
    // no registry entry is ever built from it.
    let r = find_layer_link(&vec![other_node(), other_node()]);
    assert_eq!(r, Err(VK_ERROR_INITIALIZATION_FAILED));
    let r = find_layer_link(&Vec::new());
    assert_eq!(r, Err(VK_ERROR_INITIALIZATION_FAILED));
}

#[test]
fn link_node_without_layer_info_fails_initialization() {
    let r = find_layer_link(&vec![other_node(), link_node(false), link_node(true)]);
    assert_eq!(r, Err(VK_ERROR_INITIALIZATION_FAILED));
}

#[test]
fn first_link_node_with_layer_info_is_found() {
    let r = find_layer_link(&vec![other_node(), link_node(true), link_node(false)]);
    assert_eq!(r, Ok(1));
    let r = find_layer_link(&vec![link_node(true)]);
    assert_eq!(r, Ok(0));
}

#[test]
fn nodes_need_both_tags_to_count_as_link_info() {
    let wrong_function = ChainNode {
        s_type: STRUCTURE_TYPE_LOADER_INSTANCE_CREATE_INFO,
        function: 1,
        has_layer_info: true,
    };
    let wrong_s_type = ChainNode {
        s_type: 5,
        function: LAYER_FUNCTION_LINK_INFO,
        has_layer_info: true,
    };
    let r = find_layer_link(&vec![wrong_function, wrong_s_type]);
    assert_eq!(r, Err(VK_ERROR_INITIALIZATION_FAILED));
}

#[test]
fn resolver_intercepts_exactly_the_three_entry_points() {
    assert_eq!(resolve_intercept(&"vkCreateInstance".to_string()), InterceptKind::CreateInstance);
    assert_eq!(resolve_intercept(&"vkDestroyInstance".to_string()), InterceptKind::DestroyInstance);
    assert_eq!(
        resolve_intercept(&"vkEnumeratePhysicalDevices".to_string()),
        InterceptKind::EnumerateDevices
    );
    assert_eq!(resolve_intercept(&"vkGetDeviceProcAddr".to_string()), InterceptKind::Forward);
    assert_eq!(resolve_intercept(&"".to_string()), InterceptKind::Forward);
    assert_eq!(resolve_intercept(&"vkcreateinstance".to_string()), InterceptKind::Forward);
}

#[test]
fn status_conversions_round_trip() {
    assert_eq!(into_vk_result(Ok(())), VK_SUCCESS);
    assert_eq!(into_vk_result(Err(VK_ERROR_INITIALIZATION_FAILED)), VK_ERROR_INITIALIZATION_FAILED);
    assert_eq!(into_vk_result(Err(VK_ERROR_UNKNOWN)), VK_ERROR_UNKNOWN);
    assert_eq!(from_vk(VK_SUCCESS), Ok(()));
    assert_eq!(from_vk(VK_INCOMPLETE), Err(VK_INCOMPLETE));
    assert_eq!(from_vk(VK_ERROR_UNKNOWN), Err(VK_ERROR_UNKNOWN));
    assert_eq!(into_vk_result(from_vk(VK_ERROR_INITIALIZATION_FAILED)), VK_ERROR_INITIALIZATION_FAILED);
    assert_eq!(from_vk(into_vk_result(Ok(()))), Ok(()));
}
