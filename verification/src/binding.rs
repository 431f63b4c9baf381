//! Import keys and the opaque host capabilities they name.

use vstd::prelude::*;

verus! {

/// The two-part name of one import slot or offered binding: a namespace
/// grouping related bindings, and the binding's own name.  Two keys are
/// equal exactly when both components are equal.
#[derive(Clone, PartialEq, Eq, Debug)]
pub struct ImportKey {
    pub namespace: String,
    pub name: String,
}

impl View for ImportKey {
    type V = (Seq<char>, Seq<char>);

    open spec fn view(&self) -> (Seq<char>, Seq<char>) {
        (self.namespace@, self.name@)
    }
}

impl ImportKey {
    pub fn new(namespace: String, name: String) -> (r: ImportKey)
        ensures
            r@ == (namespace@, name@),
    {
        ImportKey { namespace, name }
    }

    /// A fresh key with the same two components.
    pub fn dup(&self) -> (r: ImportKey)
        ensures
            r@ == self@,
    {
        ImportKey { namespace: self.namespace.clone(), name: self.name.clone() }
    }

    /// Component-wise equality of two keys.
    pub fn key_eq(&self, other: &ImportKey) -> (r: bool)
        ensures
            r == (self@ == other@),
    {
        self.namespace == other.namespace && self.name == other.name
    }
}

/// One host-provided capability.  The resolver only moves such values
/// around; what a capability does is the business of the runtime that
/// produced it, so each variant carries nothing but the runtime's opaque
/// handle.
#[derive(Clone, Copy, PartialEq, Eq, Structural, Debug)]
pub enum HostBinding {
    Function(u64),
    Memory(u64),
    Table(u64),
    Global(u64),
}

} // verus!
