//! Registry records.
use vstd::prelude::*;

verus! {

/// The declaration that `name @ version` depends on some package with the
/// requirement `req`.
#[derive(Debug, Clone, PartialEq, Eq)]
pub struct ReverseDependency {
    pub name: String,
    pub version: String,
    pub req: String,
}

impl ReverseDependency {
    pub fn new(name: String, version: String, req: String) -> (r: Self)
        ensures
            r.name == name,
            r.version == version,
            r.req == req,
    {
        ReverseDependency { name, version, req }
    }

    /// A field-by-field copy.
    pub fn duplicate(&self) -> (r: Self)
        ensures
            r == *self,
    {
        ReverseDependency { name: self.name.clone(), version: self.version.clone(), req: self.req.clone() }
    }
}

} // verus!
