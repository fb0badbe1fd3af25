use vstd::prelude::*;
use crate::bytes::copy_bytes;
use crate::registry::{Plugin, Registry};

verus! {

/// A problem found by the health check.
#[derive(Clone, Debug)]
pub enum Problem {
    /// The plugin of this name has no backend on disk.
    PluginNotInstalled(Vec<u8>),
    /// The shell hook is not active in this session.
    NotActivated,
}

/// The view of a problem: the plugin name, or `None` for the missing hook.
pub open spec fn problem_view(p: Problem) -> Option<Seq<u8>> {
    match p {
        Problem::PluginNotInstalled(n) => Some(n@),
        Problem::NotActivated => None,
    }
}

/// Plugins whose backend is missing, in order.
pub open spec fn broken_plugins(plugins: Seq<Plugin>) -> Seq<Option<Seq<u8>>>
    decreases plugins.len(),
{
    if plugins.len() == 0 {
        seq![]
    } else {
        let rest = broken_plugins(plugins.drop_last());
        if plugins.last().backend_present { rest } else { rest.push(Some(plugins.last().name@)) }
    }
}

/// The health check of an installation.
#[derive(Clone, Copy, Debug)]
pub struct Doctor {}

impl Doctor {
    /// Lists the problems of an installation: each plugin that is not
    /// installed, then the shell hook if it is not active.
    pub fn checks(&self, plugins: &Vec<Plugin>, activated: bool) -> (r: Vec<Problem>)
        ensures
            r@.map_values(|p: Problem| problem_view(p)) == broken_plugins(plugins@) + (if activated {
                Seq::<Option<Seq<u8>>>::empty()
            } else {
                seq![None]
            }),
    {
        let mut checks: Vec<Problem> = Vec::new();
        let mut i: usize = 0;
        while i < plugins.len()
            invariant
                0 <= i <= plugins@.len(),
                checks@.map_values(|p: Problem| problem_view(p)) == broken_plugins(
                    plugins@.subrange(0, i as int),
                ),
            decreases plugins@.len() - i,
        {
            let ghost before = checks@;
            assert(plugins@.subrange(0, i + 1).drop_last() =~= plugins@.subrange(0, i as int));
            if !plugins[i].is_installed() {
                checks.push(Problem::PluginNotInstalled(copy_bytes(&plugins[i].name)));
                assert(checks@.map_values(|p: Problem| problem_view(p)) =~= before.map_values(
                    |p: Problem| problem_view(p),
                ).push(Some(plugins@[i as int].name@)));
            }
            i = i + 1;
        }
        assert(plugins@.subrange(0, i as int) =~= plugins@);
        let ghost before = checks@;
        if !activated {
            checks.push(Problem::NotActivated);
            assert(checks@.map_values(|p: Problem| problem_view(p)) =~= before.map_values(
                |p: Problem| problem_view(p),
            ).push(None));
        }
        proof {
            let tail = if activated { Seq::<Option<Seq<u8>>>::empty() } else { seq![None] };
            assert(checks@.map_values(|p: Problem| problem_view(p)) =~= broken_plugins(plugins@)
                + tail);
        }
        checks
    }

    /// Runs the health check: `Ok` when nothing is wrong, else the number of
    /// problems found, which is at least one.
    pub fn run(self, registry: &Registry, activated: bool) -> (r: Result<(), usize>)
        ensures
            r is Ok <==> (activated && broken_plugins(registry.plugins@).len() == 0),
            r matches Err(n) ==> n == broken_plugins(registry.plugins@).len() + (if activated {
                0int
            } else {
                1int
            }),
    {
        let checks = self.checks(registry.list_plugins(), activated);
        assert(checks@.map_values(|p: Problem| problem_view(p)).len() == checks@.len());
        if checks.len() == 0 {
            Ok(())
        } else {
            Err(checks.len())
        }
    }
}

} // verus!
