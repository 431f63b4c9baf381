//! Ordered resolution of a module's imports against the merged table,
//! and the boundary operations offered to callers.
//!
//! Resolution walks the module's import declarations in their declared
//! order and looks each key up in the table.  It is all-or-nothing: the
//! first declared key without an entry aborts the scan, and no partial
//! output is ever handed back.  Every boundary operation tolerates an
//! absent handle by failing the whole call instead of faulting.

use vstd::prelude::*;

use crate::binding::{HostBinding, ImportKey};
use crate::table::{apply_offers, snapshot_matches, table_of, ImportTable, KeyView, Provider};

verus! {

/// Why a call failed.
#[derive(Clone, PartialEq, Eq, Debug)]
pub enum ResolveError {
    /// A required provider, store or module reference was absent at call
    /// entry; the call aborted before any work.
    MissingHandle,
    /// The module's system-call interface version could not be detected;
    /// the merged resolution path aborted before any key lookup.
    UnsupportedInterfaceVersion,
    /// The named import declaration has no entry in the merged table.
    /// Only the first such key, in declaration order, is reported.
    UnresolvedImport(ImportKey),
}

/// A recognized version of the system-call interface.
#[derive(Clone, Copy, PartialEq, Eq, Structural, Debug)]
pub enum InterfaceVersion {
    Snapshot0,
    Snapshot1,
}

/// What this subsystem reads of a compiled module: its ordered import
/// declarations, and the system-call interface version detected on it,
/// if any.  Both are produced by the runtime's module introspection.
pub struct ModuleInfo {
    /// The import slots the module declares, in the order instantiation
    /// expects them to be filled.
    pub imports: Vec<ImportKey>,
    /// The detected system-call interface version; absent when no
    /// recognized version could be detected on the module.
    pub interface_version: Option<InterfaceVersion>,
}

/// The runtime context in which bindings are materialized.  This
/// subsystem only requires it to be present; it never reads it.
#[derive(Clone, Copy, Debug)]
pub struct StoreContext {
    _private: (),
}

impl StoreContext {
    pub fn new() -> StoreContext {
        StoreContext { _private: () }
    }
}

/// Dispose of a provider handle.  An absent handle is accepted as a
/// no-op; a second release of the same handle cannot happen, because the
/// call consumes it.
pub fn release_provider(provider: Option<Provider>) {
    let _ = provider;
}

/// Every key the declarations `d` name has an entry in `m`.
pub open spec fn covers(m: Map<KeyView, HostBinding>, d: Seq<ImportKey>) -> bool {
    forall|i: int| 0 <= i < d.len() ==> m.contains_key((#[trigger] d[i])@)
}

/// `e` names the first declaration of `d`, in order, whose key has no
/// entry in `m`.
pub open spec fn reports_first_unresolved(
    m: Map<KeyView, HostBinding>,
    d: Seq<ImportKey>,
    e: ResolveError,
) -> bool {
    e matches ResolveError::UnresolvedImport(missing) && exists|j: int|
        {
            &&& 0 <= j < d.len()
            &&& !m.contains_key((#[trigger] d[j])@)
            &&& forall|i: int| 0 <= i < j ==> m.contains_key((#[trigger] d[i])@)
            &&& missing@ == d[j]@
        }
}

/// Resolve the ordered declarations `descriptor` against `table`.
///
/// On success the output is aligned index-for-index with the
/// declarations: position `i` holds the table's binding for the `i`-th
/// declared key.  The scan stops at the first declared key without an
/// entry and reports that key; success is returned exactly when every
/// declared key has an entry.
pub fn resolve(table: &ImportTable, descriptor: &Vec<ImportKey>) -> (r: Result<
    Vec<HostBinding>,
    ResolveError,
>)
    requires
        table.wf(),
    ensures
        r is Ok <==> covers(table@, descriptor@),
        r matches Ok(out) ==> out@.len() == descriptor@.len() && forall|i: int|
            0 <= i < descriptor@.len() ==> out@[i] == table@[(#[trigger] descriptor@[i])@],
        r matches Err(e) ==> reports_first_unresolved(table@, descriptor@, e),
{
    let n = descriptor.len();
    let mut out: Vec<HostBinding> = Vec::new();
    let mut idx: usize = 0;
    while idx < n
        invariant
            idx <= n,
            n == descriptor@.len(),
            table.wf(),
            out@.len() == idx,
            forall|i: int|
                0 <= i < idx ==> table@.contains_key((#[trigger] descriptor@[i])@) && out@[i]
                    == table@[descriptor@[i]@],
        decreases n - idx,
    {
        let key = &descriptor[idx];
        match table.lookup(key) {
            Some(b) => {
                out.push(b);
            },
            None => {
                return Err(ResolveError::UnresolvedImport(key.dup()));
            },
        }
        idx += 1;
    }
    Ok(out)
}

/// The outcome the resolution paths promise once their gates have
/// passed: success exactly when the table `m` covers the declarations,
/// with the output vector rebuilt in declaration order on success and
/// left untouched, the first missing key reported, on failure.
pub open spec fn resolve_outcome(
    m: Map<KeyView, HostBinding>,
    d: Seq<ImportKey>,
    r: Result<(), ResolveError>,
    out_before: Seq<HostBinding>,
    out_after: Seq<HostBinding>,
) -> bool {
    &&& (r is Ok <==> covers(m, d))
    &&& (r is Ok ==> out_after.len() == d.len() && forall|i: int|
        0 <= i < d.len() ==> out_after[i] == m[(#[trigger] d[i])@])
    &&& (r matches Err(e) ==> out_after == out_before && reports_first_unresolved(m, d, e))
}

/// Resolve a module's imports using the GPU environment's provider
/// alone.
///
/// Fails with [`ResolveError::MissingHandle`] before any work when any
/// reference is absent.  Otherwise a fresh table is built from the GPU
/// provider's offers and the module's declarations are resolved against
/// it; `imports` receives the full ordered output on success and is left
/// untouched on failure.
pub fn gpu_get_imports(
    store: Option<&StoreContext>,
    module: Option<&ModuleInfo>,
    gpu_env: Option<&Provider>,
    imports: &mut Vec<HostBinding>,
) -> (r: Result<(), ResolveError>)
    ensures
        (store is None || module is None || gpu_env is None) ==> r == Err::<
            (),
            ResolveError,
        >(ResolveError::MissingHandle) && final (imports)@ == old(imports)@,
        store is Some ==> (module matches Some(md) ==> (gpu_env matches Some(g)
            ==> resolve_outcome(table_of(g@), md.imports@, r, old(imports)@, final (imports)@))),
{
    if store.is_none() {
        return Err(ResolveError::MissingHandle);
    }
    let module = match module {
        Some(m) => m,
        None => {
            return Err(ResolveError::MissingHandle);
        },
    };
    let gpu_env = match gpu_env {
        Some(g) => g,
        None => {
            return Err(ResolveError::MissingHandle);
        },
    };
    let mut table = ImportTable::new();
    table.add_provider(gpu_env);
    match resolve(&table, &module.imports) {
        Ok(resolved) => {
            *imports = resolved;
            Ok(())
        },
        Err(e) => Err(e),
    }
}

/// Resolve a module's imports using both environments: the system-call
/// provider's offers are applied first and the GPU provider's second, so
/// on a key both offer, the GPU binding stands.
///
/// Fails with [`ResolveError::MissingHandle`] before any work when any
/// reference is absent, and with
/// [`ResolveError::UnsupportedInterfaceVersion`] before any key lookup
/// when no system-call interface version was detected on the module.
/// Otherwise as [`gpu_get_imports`], against the merged table.
pub fn gpu_syscall_get_imports(
    store: Option<&StoreContext>,
    module: Option<&ModuleInfo>,
    gpu_env: Option<&Provider>,
    syscall_env: Option<&Provider>,
    imports: &mut Vec<HostBinding>,
) -> (r: Result<(), ResolveError>)
    ensures
        (store is None || module is None || gpu_env is None || syscall_env is None) ==> r == Err::<
            (),
            ResolveError,
        >(ResolveError::MissingHandle) && final (imports)@ == old(imports)@,
        store is Some ==> (module matches Some(md) ==> (gpu_env matches Some(g)
            ==> (syscall_env matches Some(sc) ==> if md.interface_version is None {
            r == Err::<(), ResolveError>(ResolveError::UnsupportedInterfaceVersion) && final (
            imports)@ == old(imports)@
        } else {
            resolve_outcome(
                apply_offers(table_of(sc@), g@),
                md.imports@,
                r,
                old(imports)@,
                final (imports)@,
            )
        }))),
{
    if store.is_none() {
        return Err(ResolveError::MissingHandle);
    }
    let module = match module {
        Some(m) => m,
        None => {
            return Err(ResolveError::MissingHandle);
        },
    };
    let gpu_env = match gpu_env {
        Some(g) => g,
        None => {
            return Err(ResolveError::MissingHandle);
        },
    };
    let syscall_env = match syscall_env {
        Some(s) => s,
        None => {
            return Err(ResolveError::MissingHandle);
        },
    };
    if module.interface_version.is_none() {
        return Err(ResolveError::UnsupportedInterfaceVersion);
    }
    let mut table = ImportTable::new();
    table.add_provider(syscall_env);
    table.add_provider(gpu_env);
    match resolve(&table, &module.imports) {
        Ok(resolved) => {
            *imports = resolved;
            Ok(())
        },
        Err(e) => Err(e),
    }
}

/// Dump the table built from the GPU environment's provider as
/// `(namespace, name, binding)` triples, without reference to any
/// module.  The order is the table's own and carries no meaning.  The
/// call succeeds whenever both references are present, and fails whole
/// with [`ResolveError::MissingHandle`] when either is absent.
pub fn snapshot_unordered_imports(store: Option<&StoreContext>, gpu_env: Option<&Provider>) -> (r:
    Result<Vec<(String, String, HostBinding)>, ResolveError>)
    ensures
        (store is None || gpu_env is None) ==> r == Err::<
            Vec<(String, String, HostBinding)>,
            ResolveError,
        >(ResolveError::MissingHandle),
        store is Some ==> (gpu_env matches Some(g) ==> (r matches Ok(v) && snapshot_matches(
            table_of(g@),
            v@,
        ))),
{
    if store.is_none() {
        return Err(ResolveError::MissingHandle);
    }
    let gpu_env = match gpu_env {
        Some(g) => g,
        None => {
            return Err(ResolveError::MissingHandle);
        },
    };
    let mut table = ImportTable::new();
    table.add_provider(gpu_env);
    Ok(table.snapshot())
}

} // verus!
