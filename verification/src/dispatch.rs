//! The per-instance dispatch registry.
//!
//! A [`DispatchRecord`] holds, as opaque addresses, the resolved
//! function-pointer slots one live instance needs: five mandatory slots and
//! one optional capability. The [`Registry`] maps instance identities to
//! records: insertion only on a fully successful build, lookup by key, and
//! idempotent removal. A record handed out by [`Registry::get`] is an owned
//! copy: it stays usable after the entry is destroyed.

use vstd::prelude::*;
use vstd::std_specs::hash::group_hash_axioms;
use std::collections::HashMap;

verus! {

broadcast use group_hash_axioms;

/// The resolved function addresses of one instance. A record exists only
/// when every mandatory slot resolved; the optional display-query slot may
/// be absent.
#[derive(Clone, Copy, PartialEq, Eq, Debug)]
pub struct DispatchRecord {
    /// Resolver for names this layer does not intercept.
    pub get_instance_proc_addr: usize,
    /// The next layer's instance destruction.
    pub destroy_instance: usize,
    /// The next layer's device enumeration.
    pub enumerate_physical_devices: usize,
    /// The next layer's device-properties query.
    pub get_physical_device_properties: usize,
    /// The next layer's device-features query.
    pub get_physical_device_features: usize,
    /// The next layer's display-properties query; absent when the
    /// capability is missing.
    pub get_physical_device_display_properties_khr: Option<usize>,
}

/// What the proc-address resolver returned for each named slot: `None`
/// where resolution failed or returned a null address.
#[derive(Clone, Copy, PartialEq, Eq, Debug)]
pub struct ResolvedSlots {
    /// Resolver for names this layer does not intercept (mandatory).
    pub get_instance_proc_addr: Option<usize>,
    /// Instance destruction (mandatory).
    pub destroy_instance: Option<usize>,
    /// Device enumeration (mandatory).
    pub enumerate_physical_devices: Option<usize>,
    /// Device-properties query (mandatory).
    pub get_physical_device_properties: Option<usize>,
    /// Device-features query (mandatory).
    pub get_physical_device_features: Option<usize>,
    /// Display-properties query (optional capability).
    pub get_physical_device_display_properties_khr: Option<usize>,
}

/// Whether every mandatory slot resolved.
pub open spec fn slots_complete(s: ResolvedSlots) -> bool {
    &&& s.get_instance_proc_addr is Some
    &&& s.destroy_instance is Some
    &&& s.enumerate_physical_devices is Some
    &&& s.get_physical_device_properties is Some
    &&& s.get_physical_device_features is Some
}

/// The record built from fully resolved slots.
pub open spec fn record_of(s: ResolvedSlots) -> DispatchRecord
    recommends
        slots_complete(s),
{
    DispatchRecord {
        get_instance_proc_addr: s.get_instance_proc_addr->0,
        destroy_instance: s.destroy_instance->0,
        enumerate_physical_devices: s.enumerate_physical_devices->0,
        get_physical_device_properties: s.get_physical_device_properties->0,
        get_physical_device_features: s.get_physical_device_features->0,
        get_physical_device_display_properties_khr: s.get_physical_device_display_properties_khr,
    }
}

/// The mapping from instance identity to dispatch record. At most one
/// record exists per identity at any time.
pub struct Registry {
    table: HashMap<usize, DispatchRecord>,
}

impl View for Registry {
    type V = Map<usize, DispatchRecord>;

    closed spec fn view(&self) -> Map<usize, DispatchRecord> {
        self.table@
    }
}

impl Registry {
    /// An empty registry.
    pub fn new() -> (r: Registry)
        ensures
            r@ == Map::<usize, DispatchRecord>::empty(),
    {
        Registry { table: HashMap::new() }
    }

    /// Builds the record for `key` from the resolved slots and inserts
    /// it, overwriting any stale entry for the same key. When a mandatory
    /// slot is missing the build fails and no entry is inserted: no
    /// partial state is ever visible.
    pub fn build(&mut self, key: usize, slots: ResolvedSlots) -> (ok: bool)
        ensures
            ok == slots_complete(slots),
            ok ==> final(self)@ == old(self)@.insert(key, record_of(slots)),
            !ok ==> final(self)@ == old(self)@,
    {
        let rec = match (
            slots.get_instance_proc_addr,
            slots.destroy_instance,
            slots.enumerate_physical_devices,
            slots.get_physical_device_properties,
            slots.get_physical_device_features,
        ) {
            (Some(gipa), Some(di), Some(epd), Some(gpdp), Some(gpdf)) => DispatchRecord {
                get_instance_proc_addr: gipa,
                destroy_instance: di,
                enumerate_physical_devices: epd,
                get_physical_device_properties: gpdp,
                get_physical_device_features: gpdf,
                get_physical_device_display_properties_khr:
                    slots.get_physical_device_display_properties_khr,
            },
            _ => {
                return false;
            },
        };
        self.table.insert(key, rec);
        true
    }

    /// Looks up the record for `key`: an owned copy that stays usable
    /// however the registry changes afterwards, or nothing when no
    /// instance with that key is registered.
    pub fn get(&self, key: usize) -> (r: Option<DispatchRecord>)
        ensures
            match r {
                Some(rec) => self@.contains_key(key) && rec == self@[key],
                None => !self@.contains_key(key),
            },
    {
        match self.table.get(&key) {
            Some(rec) => Some(*rec),
            None => None,
        }
    }

    /// Removes the entry for `key`. Removing an absent key is a no-op;
    /// records already handed out by [`Registry::get`] are unaffected.
    pub fn destroy(&mut self, key: usize)
        ensures
            final(self)@ == old(self)@.remove(key),
    {
        self.table.remove(&key);
    }
}

/// After a build for key `k` succeeds, a lookup of `k` finds exactly the
/// record that was built.
pub proof fn lemma_build_then_get(m: Map<usize, DispatchRecord>, k: usize, rec: DispatchRecord)
    ensures
        m.insert(k, rec).contains_key(k),
        m.insert(k, rec)[k] == rec,
{
}

/// After the entry for `k` is destroyed, a lookup of `k` finds nothing —
/// destroying twice leaves the registry as destroying once does.
pub proof fn lemma_destroy_then_get(m: Map<usize, DispatchRecord>, k: usize)
    ensures
        !m.remove(k).contains_key(k),
        m.remove(k).remove(k) == m.remove(k),
{
    assert(m.remove(k).remove(k) =~= m.remove(k));
}

/// Builds and destroys for other keys leave the entry for `k` as it is:
/// a lookup of `k` stays non-empty, with the same record, until a destroy
/// of `k` itself.
pub proof fn lemma_other_keys_preserve_entry(
    m: Map<usize, DispatchRecord>,
    k: usize,
    other: usize,
    rec: DispatchRecord,
)
    requires
        m.contains_key(k),
        other != k,
    ensures
        m.insert(other, rec).contains_key(k),
        m.insert(other, rec)[k] == m[k],
        m.remove(other).contains_key(k),
        m.remove(other)[k] == m[k],
{
}

/// What the exported proc-address resolver decides for one function name.
#[derive(Clone, Copy, PartialEq, Eq, Debug)]
pub enum InterceptKind {
    /// The name of the instance-creation intercept.
    CreateInstance,
    /// The name of the instance-destruction intercept.
    DestroyInstance,
    /// The name of the device-enumeration intercept.
    EnumerateDevices,
    /// Every other name: forward to the next layer's resolver.
    Forward,
}

/// The intercept decision for a function name: the three intercepted
/// entry points resolve to this layer's implementations, every other name
/// is forwarded.
pub open spec fn intercept_for(name: Seq<char>) -> InterceptKind {
    if name == "vkCreateInstance"@ {
        InterceptKind::CreateInstance
    } else if name == "vkDestroyInstance"@ {
        InterceptKind::DestroyInstance
    } else if name == "vkEnumeratePhysicalDevices"@ {
        InterceptKind::EnumerateDevices
    } else {
        InterceptKind::Forward
    }
}

/// Decides [`intercept_for`] on a queried function name.
pub fn resolve_intercept(name: &String) -> (k: InterceptKind)
    ensures
        k == intercept_for(name@),
{
    let create: String = "vkCreateInstance".to_owned();
    let destroy: String = "vkDestroyInstance".to_owned();
    let enumerate: String = "vkEnumeratePhysicalDevices".to_owned();
    if *name == create {
        InterceptKind::CreateInstance
    } else if *name == destroy {
        InterceptKind::DestroyInstance
    } else if *name == enumerate {
        InterceptKind::EnumerateDevices
    } else {
        InterceptKind::Forward
    }
}

} // verus!
