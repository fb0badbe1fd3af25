use vstd::prelude::*;
use crate::bytes::bytes_eq;

verus! {

/// What a plugin's backend can do.
#[derive(Clone, Copy, Debug, PartialEq, Eq, Structural)]
pub struct Capabilities {
    pub list_remote: bool,
    pub install: bool,
    pub uninstall: bool,
}

/// A plugin definition: a pluggable backend for one runtime.
///
/// `backend_present` records whether the plugin's own backend (its script or
/// executable) was found and is executable; the caller probes the disk and
/// fills it in.
#[derive(Clone, Debug)]
pub struct Plugin {
    pub name: Vec<u8>,
    pub source: Vec<u8>,
    pub capabilities: Capabilities,
    pub backend_present: bool,
}

impl Plugin {
    /// A plugin is installed when its own backend is present, whatever
    /// runtime versions are installed through it.
    pub fn is_installed(&self) -> (r: bool)
        ensures
            r == self.backend_present,
    {
        self.backend_present
    }
}

/// True when some plugin named `name` has its backend present.
pub open spec fn plugin_healthy(plugins: Seq<Plugin>, name: Seq<u8>) -> bool {
    exists|i: int| 0 <= i < plugins.len() && #[trigger] plugins[i].name@ == name
        && plugins[i].backend_present
}

/// The set of known plugins, loaded once per run.
pub struct Registry {
    pub plugins: Vec<Plugin>,
}

impl Registry {
    pub fn new(plugins: Vec<Plugin>) -> (r: Registry)
        ensures
            r.plugins@ == plugins@,
    {
        Registry { plugins }
    }

    /// Every known plugin, broken ones included.
    pub fn list_plugins(&self) -> (r: &Vec<Plugin>)
        ensures
            r@ == self.plugins@,
    {
        &self.plugins
    }

    /// Whether a plugin of this name is known and has its backend present.
    pub fn is_installed(&self, name: &Vec<u8>) -> (r: bool)
        ensures
            r == plugin_healthy(self.plugins@, name@),
    {
        let mut i: usize = 0;
        while i < self.plugins.len()
            invariant
                0 <= i <= self.plugins@.len(),
                forall|k: int| 0 <= k < i ==> !(#[trigger] self.plugins@[k].name@ == name@
                    && self.plugins@[k].backend_present),
            decreases self.plugins@.len() - i,
        {
            if self.plugins[i].backend_present && bytes_eq(&self.plugins[i].name, name) {
                return true;
            }
            i = i + 1;
        }
        false
    }
}

} // verus!
