use import_resolver::binding::{HostBinding, ImportKey};
use import_resolver::resolver::{
    gpu_get_imports, gpu_syscall_get_imports, release_provider, resolve,
    snapshot_unordered_imports, InterfaceVersion, ModuleInfo, ResolveError, StoreContext,
};
use import_resolver::table::{ImportTable, Provider};

fn key(ns: &str, name: &str) -> ImportKey {
    ImportKey::new(String::from(ns), String::from(name))
}

fn provider_of(offers: &[(&str, &str, HostBinding)]) -> Provider {
    let mut p = Provider::new();
    for (ns, name, b) in offers {
        p.provide(key(ns, name), *b);
    }
    p
}

fn module_of(imports: &[(&str, &str)], version: Option<InterfaceVersion>) -> ModuleInfo {
    ModuleInfo {
        imports: imports.iter().map(|(ns, name)| key(ns, name)).collect(),
        interface_version: version,
    }
}

#[test]
fn superset_table_resolves_all() {
    let mut t = ImportTable::new();
    t.insert(key("a", "one"), HostBinding::Function(1));
    t.insert(key("a", "two"), HostBinding::Memory(2));
    t.insert(key("b", "three"), HostBinding::Global(3));
    let descriptor = vec![key("b", "three"), key("a", "one")];
    let out = resolve(&t, &descriptor).unwrap();
    assert_eq!(out.len(), descriptor.len());
    assert_eq!(out[0], HostBinding::Global(3));
    assert_eq!(out[1], HostBinding::Function(1));
}

#[test]
fn empty_descriptor_resolves_to_empty_output() {
    let t = ImportTable::new();
    let out = resolve(&t, &Vec::new()).unwrap();
    assert!(out.is_empty());
}

#[test]
fn missing_key_fails_and_output_is_untouched() {
    let st = StoreContext::new();
    let gpu = provider_of(&[("gpu", "present", HostBinding::Function(1))]);
    let md = module_of(&[("gpu", "present"), ("gpu", "absent")], None);
    let mut imports = vec![HostBinding::Table(99)];
    let r = gpu_get_imports(Some(&st), Some(&md), Some(&gpu), &mut imports);
    assert_eq!(r, Err(ResolveError::UnresolvedImport(key("gpu", "absent"))));
    assert_eq!(imports, vec![HostBinding::Table(99)]);
}

#[test]
fn only_the_first_miss_is_reported() {
    let t = ImportTable::new();
    let descriptor = vec![key("n", "first"), key("n", "second")];
    let e = resolve(&t, &descriptor).unwrap_err();
    assert_eq!(e, ResolveError::UnresolvedImport(key("n", "first")));
}

#[test]
fn namespaces_resolve_independently() {
    let mut t = ImportTable::new();
    t.insert(key("a", "x"), HostBinding::Function(10));
    t.insert(key("b", "x"), HostBinding::Function(20));
    assert_eq!(t.len(), 2);
    let descriptor = vec![key("a", "x"), key("b", "x")];
    let out = resolve(&t, &descriptor).unwrap();
    assert_eq!(out, vec![HostBinding::Function(10), HostBinding::Function(20)]);
}

#[test]
fn system_calls_then_gpu_resolve_in_declared_order() {
    let st = StoreContext::new();
    let syscall = provider_of(&[("sys", "fd_write", HostBinding::Function(1))]);
    let gpu = provider_of(&[("gpu", "cuMemAlloc", HostBinding::Function(2))]);
    let md = module_of(
        &[("sys", "fd_write"), ("gpu", "cuMemAlloc")],
        Some(InterfaceVersion::Snapshot1),
    );
    let mut imports = Vec::new();
    let r = gpu_syscall_get_imports(Some(&st), Some(&md), Some(&gpu), Some(&syscall), &mut imports);
    assert_eq!(r, Ok(()));
    assert_eq!(imports, vec![HostBinding::Function(1), HostBinding::Function(2)]);
}

#[test]
fn gpu_binding_shadows_system_call_binding() {
    let st = StoreContext::new();
    let syscall = provider_of(&[("env", "shared", HostBinding::Function(1))]);
    let gpu = provider_of(&[("env", "shared", HostBinding::Function(2))]);
    let md = module_of(&[("env", "shared")], Some(InterfaceVersion::Snapshot0));
    let mut imports = Vec::new();
    let r = gpu_syscall_get_imports(Some(&st), Some(&md), Some(&gpu), Some(&syscall), &mut imports);
    assert_eq!(r, Ok(()));
    assert_eq!(imports, vec![HostBinding::Function(2)]);
}

#[test]
fn gpu_provider_without_key_fails_with_that_key() {
    let st = StoreContext::new();
    let gpu = provider_of(&[("gpu", "cuMemAlloc", HostBinding::Function(2))]);
    let md = module_of(&[("gpu", "cuLaunchKernelV2")], None);
    let mut imports = Vec::new();
    let r = gpu_get_imports(Some(&st), Some(&md), Some(&gpu), &mut imports);
    assert_eq!(
        r,
        Err(ResolveError::UnresolvedImport(key("gpu", "cuLaunchKernelV2")))
    );
    assert!(imports.is_empty());
}

#[test]
fn undetected_interface_version_fails_before_lookups() {
    let st = StoreContext::new();
    // Both providers together satisfy every declared key, so only the
    // version gate can make this call fail.
    let syscall = provider_of(&[("sys", "fd_write", HostBinding::Function(1))]);
    let gpu = provider_of(&[("gpu", "cuMemAlloc", HostBinding::Function(2))]);
    let md = module_of(&[("sys", "fd_write"), ("gpu", "cuMemAlloc")], None);
    let mut imports = Vec::new();
    let r = gpu_syscall_get_imports(Some(&st), Some(&md), Some(&gpu), Some(&syscall), &mut imports);
    assert_eq!(r, Err(ResolveError::UnsupportedInterfaceVersion));
    assert!(imports.is_empty());
}

#[test]
fn absent_handles_fail_gpu_resolution() {
    let st = StoreContext::new();
    let gpu = provider_of(&[("gpu", "f", HostBinding::Function(1))]);
    let md = module_of(&[], Some(InterfaceVersion::Snapshot1));
    let mut imports = Vec::new();
    let r = gpu_get_imports(None, Some(&md), Some(&gpu), &mut imports);
    assert_eq!(r, Err(ResolveError::MissingHandle));
    let r = gpu_get_imports(Some(&st), None, Some(&gpu), &mut imports);
    assert_eq!(r, Err(ResolveError::MissingHandle));
    let r = gpu_get_imports(Some(&st), Some(&md), None, &mut imports);
    assert_eq!(r, Err(ResolveError::MissingHandle));
    assert!(imports.is_empty());
}

#[test]
fn absent_handles_fail_merged_resolution() {
    let st = StoreContext::new();
    let gpu = provider_of(&[]);
    let syscall = provider_of(&[]);
    let md = module_of(&[], Some(InterfaceVersion::Snapshot1));
    let mut imports = Vec::new();
    let r = gpu_syscall_get_imports(None, Some(&md), Some(&gpu), Some(&syscall), &mut imports);
    assert_eq!(r, Err(ResolveError::MissingHandle));
    let r = gpu_syscall_get_imports(Some(&st), None, Some(&gpu), Some(&syscall), &mut imports);
    assert_eq!(r, Err(ResolveError::MissingHandle));
    let r = gpu_syscall_get_imports(Some(&st), Some(&md), None, Some(&syscall), &mut imports);
    assert_eq!(r, Err(ResolveError::MissingHandle));
    let r = gpu_syscall_get_imports(Some(&st), Some(&md), Some(&gpu), None, &mut imports);
    assert_eq!(r, Err(ResolveError::MissingHandle));
}

#[test]
fn absent_handles_fail_snapshot() {
    let st = StoreContext::new();
    let gpu = provider_of(&[]);
    assert_eq!(
        snapshot_unordered_imports(None, Some(&gpu)),
        Err(ResolveError::MissingHandle)
    );
    assert_eq!(
        snapshot_unordered_imports(Some(&st), None),
        Err(ResolveError::MissingHandle)
    );
}

#[test]
fn snapshot_of_empty_provider_is_empty() {
    let st = StoreContext::new();
    let gpu = provider_of(&[]);
    let v = snapshot_unordered_imports(Some(&st), Some(&gpu)).unwrap();
    assert!(v.is_empty());
}

#[test]
fn snapshot_covers_the_gpu_table() {
    let st = StoreContext::new();
    let gpu = provider_of(&[
        ("gpu", "a", HostBinding::Function(1)),
        ("gpu", "b", HostBinding::Memory(2)),
    ]);
    let v = snapshot_unordered_imports(Some(&st), Some(&gpu)).unwrap();
    assert_eq!(v.len(), 2);
    assert!(v.contains(&(String::from("gpu"), String::from("a"), HostBinding::Function(1))));
    assert!(v.contains(&(String::from("gpu"), String::from("b"), HostBinding::Memory(2))));
}

#[test]
fn release_accepts_absent_and_present_handles() {
    release_provider(None);
    release_provider(Some(provider_of(&[("gpu", "f", HostBinding::Function(1))])));
}
