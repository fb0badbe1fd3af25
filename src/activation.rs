use vstd::prelude::*;
use crate::bytes::copy_bytes;
use crate::installer::{install_dir, install_dir_spec, installed_spec, InstallRoot, SlotKey, SlotValue};
use crate::pinfile::{bytes_views, PinEntryV};
use crate::registry::{plugin_healthy, Plugin, Registry};
use crate::resolve::{has_tool, pinned_anywhere, resolve_spec, lemma_resolved_iff_pinned, ResolvedPin};

verus! {

/// The version marker that defers to whatever the search path already holds.
pub open spec fn is_system(v: Seq<u8>) -> bool {
    v == seq![115u8, 121u8, 115u8, 116u8, 101u8, 109u8]
}

/// A version the projector can use for the tool: the `system` marker, or a
/// published version of a plugin whose backend is present. Plugins are named
/// after the tool they provide.
pub open spec fn usable(plugins: Seq<Plugin>, m: Map<SlotKey, SlotValue>, tool: Seq<u8>, v: Seq<u8>) -> bool {
    is_system(v) || (plugin_healthy(plugins, tool) && installed_spec(m, (tool, v)))
}

/// The first usable version of the pin, in order of preference.
pub open spec fn first_usable(
    plugins: Seq<Plugin>,
    m: Map<SlotKey, SlotValue>,
    tool: Seq<u8>,
    vs: Seq<Seq<u8>>,
) -> Option<Seq<u8>>
    decreases vs.len(),
{
    if vs.len() == 0 {
        None
    } else if usable(plugins, m, tool, vs[0]) {
        Some(vs[0])
    } else {
        first_usable(plugins, m, tool, vs.drop_first())
    }
}

/// `<root>/<plugin>/<version>/bin`: the executables of a published version.
pub open spec fn bin_dir_spec(root: Seq<u8>, tool: Seq<u8>, v: Seq<u8>) -> Seq<u8> {
    install_dir_spec(root, tool, v) + seq![47u8, 98u8, 105u8, 110u8]
}

pub type PinV = (Seq<u8>, Seq<Seq<u8>>);

pub open spec fn pins_view(r: Seq<ResolvedPin>) -> Seq<PinV> {
    r.map_values(|p: ResolvedPin| (p.tool@, bytes_views(p.versions@)))
}

/// The tools put on the search path, in the order of the pins: tool, version
/// and executable directory.
pub open spec fn activated_spec(
    pv: Seq<PinV>,
    plugins: Seq<Plugin>,
    m: Map<SlotKey, SlotValue>,
    root: Seq<u8>,
) -> Seq<(Seq<u8>, Seq<u8>, Seq<u8>)>
    decreases pv.len(),
{
    if pv.len() == 0 {
        seq![]
    } else {
        let rest = activated_spec(pv.drop_last(), plugins, m, root);
        let (tool, vs) = pv.last();
        match first_usable(plugins, m, tool, vs) {
            Some(v) => if is_system(v) { rest } else { rest.push((tool, v, bin_dir_spec(root, tool, v))) },
            None => rest,
        }
    }
}

/// The resolved tools that have no usable version, in the order of the pins.
pub open spec fn missing_spec(pv: Seq<PinV>, plugins: Seq<Plugin>, m: Map<SlotKey, SlotValue>) -> Seq<
    Seq<u8>,
>
    decreases pv.len(),
{
    if pv.len() == 0 {
        seq![]
    } else {
        let rest = missing_spec(pv.drop_last(), plugins, m);
        let (tool, vs) = pv.last();
        if first_usable(plugins, m, tool, vs) is None { rest.push(tool) } else { rest }
    }
}

/// A tool put on the search path.
#[derive(Debug)]
pub struct ActivatedTool {
    pub tool: Vec<u8>,
    pub version: Vec<u8>,
    pub bin_dir: Vec<u8>,
}

pub open spec fn activated_view(a: Seq<ActivatedTool>) -> Seq<(Seq<u8>, Seq<u8>, Seq<u8>)> {
    a.map_values(|t: ActivatedTool| (t.tool@, t.version@, t.bin_dir@))
}

/// The environment of a session after activation.
#[derive(Debug)]
pub struct ActivationState {
    /// The tools put on the search path.
    pub activated: Vec<ActivatedTool>,
    /// The resolved tools without a usable version: left for the caller to
    /// report.
    pub missing: Vec<Vec<u8>>,
    /// The new search path: the executable directories of the activated
    /// tools, then the previous entries.
    pub path: Vec<Vec<u8>>,
}

fn is_system_token(v: &Vec<u8>) -> (r: bool)
    ensures
        r == is_system(v@),
{
    let r = v.len() == 6 && v[0] == 115u8 && v[1] == 121u8 && v[2] == 115u8 && v[3] == 116u8 && v[4]
        == 101u8 && v[5] == 109u8;
    if r {
        assert(v@ =~= seq![115u8, 121u8, 115u8, 116u8, 101u8, 109u8]);
    }
    r
}

fn pick_version(registry: &Registry, root: &InstallRoot, tool: &Vec<u8>, vs: &Vec<Vec<u8>>) -> (r:
    Option<usize>)
    requires
        root.wf(),
    ensures
        match r {
            Some(j) => j < vs@.len() && first_usable(registry.plugins@, root@, tool@, bytes_views(vs@))
                == Some(vs@[j as int]@),
            None => first_usable(registry.plugins@, root@, tool@, bytes_views(vs@)) is None,
        },
{
    let healthy = registry.is_installed(tool);
    let ghost bv = bytes_views(vs@);
    assert(bv.subrange(0, bv.len() as int) =~= bv);
    let mut j: usize = 0;
    while j < vs.len()
        invariant
            root.wf(),
            0 <= j <= vs@.len(),
            bv == bytes_views(vs@),
            healthy == plugin_healthy(registry.plugins@, tool@),
            first_usable(registry.plugins@, root@, tool@, bv) == first_usable(
                registry.plugins@,
                root@,
                tool@,
                bv.subrange(j as int, bv.len() as int),
            ),
        decreases vs@.len() - j,
    {
        let ghost rest = bv.subrange(j as int, bv.len() as int);
        assert(rest[0] == vs@[j as int]@);
        assert(rest.drop_first() =~= bv.subrange(j + 1, bv.len() as int));
        if is_system_token(&vs[j]) || (healthy && root.is_installed(tool, &vs[j])) {
            return Some(j);
        }
        j = j + 1;
    }
    None
}

/// The executables directory of a published version.
pub fn bin_dir(root: &Vec<u8>, tool: &Vec<u8>, version: &Vec<u8>) -> (r: Vec<u8>)
    ensures
        r@ == bin_dir_spec(root@, tool@, version@),
{
    let mut out = install_dir(root, tool, version);
    out.push(47u8);
    out.push(98u8);
    out.push(105u8);
    out.push(110u8);
    assert(out@ =~= bin_dir_spec(root@, tool@, version@));
    out
}

/// Projects an effective version map onto the session: each pin is given its
/// first usable version; a tool whose version is a published one is put on
/// the search path ahead of the previous entries, a tool on `system` is left
/// to the previous entries, and a tool with no usable version is reported as
/// missing. Tools that are not pinned are not mentioned.
pub fn project(pins: &Vec<ResolvedPin>, registry: &Registry, root: &InstallRoot, prior_path: &Vec<
    Vec<u8>,
>) -> (r: ActivationState)
    requires
        root.wf(),
    ensures
        activated_view(r.activated@) == activated_spec(pins_view(pins@), registry.plugins@, root@, root.root@),
        bytes_views(r.missing@) == missing_spec(pins_view(pins@), registry.plugins@, root@),
        bytes_views(r.path@) == activated_view(r.activated@).map_values(
            |a: (Seq<u8>, Seq<u8>, Seq<u8>)| a.2,
        ) + bytes_views(prior_path@),
{
    let ghost pv = pins_view(pins@);
    let mut activated: Vec<ActivatedTool> = Vec::new();
    let mut missing: Vec<Vec<u8>> = Vec::new();
    let mut i: usize = 0;
    while i < pins.len()
        invariant
            root.wf(),
            0 <= i <= pins@.len(),
            pv == pins_view(pins@),
            activated_view(activated@) == activated_spec(pv.subrange(0, i as int), registry.plugins@, root@, root.root@),
            bytes_views(missing@) == missing_spec(pv.subrange(0, i as int), registry.plugins@, root@),
        decreases pins@.len() - i,
    {
        let ghost before_a = activated@;
        let ghost before_m = missing@;
        let ghost sub = pv.subrange(0, i + 1);
        assert(sub.drop_last() =~= pv.subrange(0, i as int));
        assert(sub.last() == (pins@[i as int].tool@, bytes_views(pins@[i as int].versions@)));
        let p = &pins[i];
        match pick_version(registry, root, &p.tool, &p.versions) {
            Some(j) => {
                if !is_system_token(&p.versions[j]) {
                    let a = ActivatedTool {
                        tool: copy_bytes(&p.tool),
                        version: copy_bytes(&p.versions[j]),
                        bin_dir: bin_dir(&root.root, &p.tool, &p.versions[j]),
                    };
                    activated.push(a);
                    assert(activated_view(activated@) =~= activated_view(before_a).push(
                        (a.tool@, a.version@, a.bin_dir@),
                    ));
                }
            },
            None => {
                missing.push(copy_bytes(&p.tool));
                assert(bytes_views(missing@) =~= bytes_views(before_m).push(p.tool@));
            },
        }
        i = i + 1;
    }
    assert(pv.subrange(0, i as int) =~= pv);
    let mut path: Vec<Vec<u8>> = Vec::new();
    let mut k: usize = 0;
    while k < activated.len()
        invariant
            0 <= k <= activated@.len(),
            bytes_views(path@) == activated_view(activated@).subrange(0, k as int).map_values(
                |a: (Seq<u8>, Seq<u8>, Seq<u8>)| a.2,
            ),
        decreases activated@.len() - k,
    {
        let ghost before = path@;
        path.push(copy_bytes(&activated[k].bin_dir));
        assert(bytes_views(path@) =~= bytes_views(before).push(activated@[k as int].bin_dir@));
        assert(activated_view(activated@).subrange(0, k + 1) =~= activated_view(activated@).subrange(
            0,
            k as int,
        ).push(activated_view(activated@)[k as int]));
        assert(bytes_views(path@) =~= activated_view(activated@).subrange(0, k + 1).map_values(
            |a: (Seq<u8>, Seq<u8>, Seq<u8>)| a.2,
        ));
        k = k + 1;
    }
    let ghost own = path@;
    let mut k: usize = 0;
    while k < prior_path.len()
        invariant
            0 <= k <= prior_path@.len(),
            bytes_views(path@) == bytes_views(own) + bytes_views(prior_path@.subrange(0, k as int)),
        decreases prior_path@.len() - k,
    {
        let ghost before = path@;
        path.push(copy_bytes(&prior_path[k]));
        assert(bytes_views(path@) =~= bytes_views(before).push(prior_path@[k as int]@));
        assert(bytes_views(prior_path@.subrange(0, k + 1)) =~= bytes_views(prior_path@.subrange(0, k as int)).push(
            prior_path@[k as int]@,
        ));
        assert(bytes_views(path@) =~= bytes_views(own) + bytes_views(prior_path@.subrange(0, k + 1)));
        k = k + 1;
    }
    assert(activated_view(activated@).subrange(0, activated@.len() as int) =~= activated_view(activated@));
    assert(prior_path@.subrange(0, k as int) =~= prior_path@);
    ActivationState { activated, missing, path }
}

proof fn lemma_absent_tool_not_projected(
    pv: Seq<PinV>,
    plugins: Seq<Plugin>,
    m: Map<SlotKey, SlotValue>,
    root: Seq<u8>,
    tool: Seq<u8>,
)
    requires
        forall|i: int| 0 <= i < pv.len() ==> (#[trigger] pv[i]).0 != tool,
    ensures
        forall|i: int| 0 <= i < activated_spec(pv, plugins, m, root).len() ==> (#[trigger] activated_spec(pv, plugins, m, root)[i]).0 != tool,
        forall|i: int| 0 <= i < missing_spec(pv, plugins, m).len() ==> #[trigger] missing_spec(pv, plugins, m)[i] != tool,
    decreases pv.len(),
{
    if pv.len() > 0 {
        let init = pv.drop_last();
        assert forall|i: int| 0 <= i < init.len() implies (#[trigger] init[i]).0 != tool by {
            assert(init[i] == pv[i]);
        }
        assert(pv[pv.len() - 1].0 != tool);
        lemma_absent_tool_not_projected(init, plugins, m, root, tool);
        let act = activated_spec(pv, plugins, m, root);
        let rest = activated_spec(init, plugins, m, root);
        assert forall|i: int| 0 <= i < act.len() implies (#[trigger] act[i]).0 != tool by {
            if i < rest.len() {
                assert(act[i] == rest[i]);
            }
        }
        let mis = missing_spec(pv, plugins, m);
        let mrest = missing_spec(init, plugins, m);
        assert forall|i: int| 0 <= i < mis.len() implies #[trigger] mis[i] != tool by {
            if i < mrest.len() {
                assert(mis[i] == mrest[i]);
            }
        }
    }
}

/// A tool that no pin file names is unresolved, and the projection of the
/// effective version map neither puts it on the search path nor reports it
/// as missing.
pub proof fn lemma_unresolved_not_projected(
    dirs: Seq<Seq<PinEntryV>>,
    global: Seq<PinEntryV>,
    pins: Seq<ResolvedPin>,
    plugins: Seq<Plugin>,
    m: Map<SlotKey, SlotValue>,
    root: Seq<u8>,
    tool: Seq<u8>,
)
    requires
        forall|t: Seq<u8>| #[trigger] pinned_anywhere(dirs, global, t) <==> has_tool(pins, t),
        !pinned_anywhere(dirs, global, tool),
    ensures
        resolve_spec(dirs, global, tool) is None,
        forall|i: int| 0 <= i < activated_spec(pins_view(pins), plugins, m, root).len() ==> (
        #[trigger] activated_spec(pins_view(pins), plugins, m, root)[i]).0 != tool,
        forall|i: int| 0 <= i < missing_spec(pins_view(pins), plugins, m).len() ==> #[trigger] missing_spec(
            pins_view(pins),
            plugins,
            m,
        )[i] != tool,
{
    lemma_resolved_iff_pinned(dirs, global, tool);
    assert(!has_tool(pins, tool));
    let pv = pins_view(pins);
    assert forall|i: int| 0 <= i < pv.len() implies (#[trigger] pv[i]).0 != tool by {
        assert(pins[i].tool@ != tool);
    }
    lemma_absent_tool_not_projected(pv, plugins, m, root, tool);
}

/// A plugin whose backend is missing does not change what any other tool is
/// given: the first usable version of a pin for `tool` is the same whatever
/// the state of the backend of a plugin of another name.
pub proof fn lemma_broken_plugin_isolated(
    plugins: Seq<Plugin>,
    j: int,
    broken: Plugin,
    m: Map<SlotKey, SlotValue>,
    tool: Seq<u8>,
    vs: Seq<Seq<u8>>,
)
    requires
        0 <= j < plugins.len(),
        plugins[j].name@ != tool,
        broken.name@ == plugins[j].name@,
        !broken.backend_present,
    ensures
        first_usable(plugins.update(j, broken), m, tool, vs) == first_usable(plugins, m, tool, vs),
    decreases vs.len(),
{
    let changed = plugins.update(j, broken);
    assert(plugin_healthy(changed, tool) == plugin_healthy(plugins, tool)) by {
        if plugin_healthy(plugins, tool) {
            let i = choose|i: int| 0 <= i < plugins.len() && #[trigger] plugins[i].name@ == tool
                && plugins[i].backend_present;
            assert(changed[i] == plugins[i]);
        }
        if plugin_healthy(changed, tool) {
            let i = choose|i: int| 0 <= i < changed.len() && #[trigger] changed[i].name@ == tool && changed[i].backend_present;
            assert(changed[i] == plugins[i]);
        }
    }
    if vs.len() > 0 {
        lemma_broken_plugin_isolated(plugins, j, broken, m, tool, vs.drop_first());
    }
}

} // verus!
