use vstd::prelude::*;
use crate::bytes::{bytes_eq, copy_bytes};
use crate::pinfile::{
    bytes_views, entries_view, parse_spec, serialize_spec, valid_entry, PinEntry, PinEntryV,
    lemma_pin_file_round_trip,
};

verus! {

/// Where a resolved pin came from: the pin file of the directory at this
/// distance from the working directory (0 is the working directory itself),
/// or the global pin file.
#[derive(Clone, Copy, Debug, PartialEq, Eq, Structural)]
pub enum PinSource {
    Directory(usize),
    Global,
}

/// The pin that wins for one tool.
#[derive(Debug)]
pub struct ResolvedPin {
    pub tool: Vec<u8>,
    pub versions: Vec<Vec<u8>>,
    pub source: PinSource,
}

/// The pin files of a directory and its ancestors, closest first; a
/// directory without a pin file holds no entry.
pub open spec fn files_view(dirs: Seq<Vec<PinEntry>>) -> Seq<Seq<PinEntryV>> {
    dirs.map_values(|f: Vec<PinEntry>| entries_view(f@))
}

/// The versions that a pin file gives a tool: those of its first line for
/// that tool.
pub open spec fn pin_in_file(f: Seq<PinEntryV>, tool: Seq<u8>) -> Option<Seq<Seq<u8>>>
    decreases f.len(),
{
    if f.len() == 0 {
        None
    } else if f[0].tool == tool {
        Some(f[0].versions)
    } else {
        pin_in_file(f.drop_first(), tool)
    }
}

pub open spec fn resolve_from(
    dirs: Seq<Seq<PinEntryV>>,
    global: Seq<PinEntryV>,
    tool: Seq<u8>,
    i: int,
) -> Option<(Seq<Seq<u8>>, PinSource)>
    decreases dirs.len() - i,
{
    if i < 0 || i >= dirs.len() {
        match pin_in_file(global, tool) {
            Some(v) => Some((v, PinSource::Global)),
            None => None,
        }
    } else {
        match pin_in_file(dirs[i], tool) {
            Some(v) => Some((v, PinSource::Directory(i as usize))),
            None => resolve_from(dirs, global, tool, i + 1),
        }
    }
}

/// The pin in effect for `tool`: that of the closest directory whose pin file
/// names it, else that of the global pin file, else none (unresolved).
pub open spec fn resolve_spec(
    dirs: Seq<Seq<PinEntryV>>,
    global: Seq<PinEntryV>,
    tool: Seq<u8>,
) -> Option<(Seq<Seq<u8>>, PinSource)> {
    resolve_from(dirs, global, tool, 0)
}

/// Some line of the file names the tool.
pub open spec fn names_tool(f: Seq<PinEntryV>, tool: Seq<u8>) -> bool {
    exists|k: int| 0 <= k < f.len() && (#[trigger] f[k]).tool == tool
}

/// Some pin file, of a directory or the global one, names the tool.
pub open spec fn pinned_anywhere(
    dirs: Seq<Seq<PinEntryV>>,
    global: Seq<PinEntryV>,
    tool: Seq<u8>,
) -> bool {
    names_tool(global, tool) || exists|d: int| 0 <= d < dirs.len() && names_tool(#[trigger] dirs[d], tool)
}

pub open spec fn has_tool(r: Seq<ResolvedPin>, tool: Seq<u8>) -> bool {
    exists|m: int| 0 <= m < r.len() && (#[trigger] r[m]).tool@ == tool
}

/// Each pin of `r` is the one in effect for its tool, and no tool comes twice.
pub open spec fn effective_pins(
    r: Seq<ResolvedPin>,
    dirs: Seq<Seq<PinEntryV>>,
    global: Seq<PinEntryV>,
) -> bool {
    &&& forall|m: int| 0 <= m < r.len() ==> resolve_spec(dirs, global, (#[trigger] r[m]).tool@)
        == Some((bytes_views(r[m].versions@), r[m].source))
    &&& forall|m1: int, m2: int|
        0 <= m1 < r.len() && 0 <= m2 < r.len() && m1 != m2 ==> (#[trigger] r[m1]).tool@
            != (#[trigger] r[m2]).tool@
}

proof fn lemma_pin_in_file_names(f: Seq<PinEntryV>, tool: Seq<u8>)
    ensures
        pin_in_file(f, tool) is Some <==> names_tool(f, tool),
    decreases f.len(),
{
    if f.len() > 0 {
        lemma_pin_in_file_names(f.drop_first(), tool);
        if names_tool(f, tool) && f[0].tool != tool {
            let k = choose|k: int| 0 <= k < f.len() && (#[trigger] f[k]).tool == tool;
            assert(f.drop_first()[k - 1] == f[k]);
        }
        if names_tool(f.drop_first(), tool) {
            let k = choose|k: int| 0 <= k < f.len() - 1 && (#[trigger] f.drop_first()[k]).tool == tool;
            assert(f[k + 1] == f.drop_first()[k]);
        }
    }
}

proof fn lemma_resolve_from_pinned(
    dirs: Seq<Seq<PinEntryV>>,
    global: Seq<PinEntryV>,
    tool: Seq<u8>,
    i: int,
)
    requires
        0 <= i,
    ensures
        resolve_from(dirs, global, tool, i) is Some <==> (names_tool(global, tool) || exists|d: int|
            i <= d < dirs.len() && names_tool(#[trigger] dirs[d], tool)),
    decreases dirs.len() - i,
{
    lemma_pin_in_file_names(global, tool);
    if i < dirs.len() {
        lemma_pin_in_file_names(dirs[i], tool);
        lemma_resolve_from_pinned(dirs, global, tool, i + 1);
    }
}

/// A tool has a pin in effect exactly when some pin file names it; a tool
/// that no file names is unresolved, which is no error.
pub proof fn lemma_resolved_iff_pinned(
    dirs: Seq<Seq<PinEntryV>>,
    global: Seq<PinEntryV>,
    tool: Seq<u8>,
)
    ensures
        resolve_spec(dirs, global, tool) is Some <==> pinned_anywhere(dirs, global, tool),
{
    lemma_resolve_from_pinned(dirs, global, tool, 0);
}

proof fn lemma_resolve_from_skip(
    dirs: Seq<Seq<PinEntryV>>,
    global: Seq<PinEntryV>,
    tool: Seq<u8>,
    i: int,
    k: int,
)
    requires
        0 <= i <= k < dirs.len(),
        forall|d: int| i <= d < k ==> pin_in_file(#[trigger] dirs[d], tool) is None,
    ensures
        resolve_from(dirs, global, tool, i) == resolve_from(dirs, global, tool, k),
    decreases k - i,
{
    if i < k {
        lemma_resolve_from_skip(dirs, global, tool, i + 1, k);
    }
}

/// A tool pinned in the pin file of the directory at distance `k`, and in no
/// closer one, resolves to the versions of that directory.
pub proof fn lemma_closest_pin_wins(
    dirs: Seq<Seq<PinEntryV>>,
    global: Seq<PinEntryV>,
    tool: Seq<u8>,
    k: int,
)
    requires
        0 <= k < dirs.len(),
        pin_in_file(dirs[k], tool) is Some,
        forall|d: int| 0 <= d < k ==> pin_in_file(#[trigger] dirs[d], tool) is None,
    ensures
        resolve_spec(dirs, global, tool) == Some(
            (pin_in_file(dirs[k], tool)->Some_0, PinSource::Directory(k as usize)),
        ),
{
    lemma_resolve_from_skip(dirs, global, tool, 0, k);
}

/// A pin in a closer directory overrides a pin for the same tool in a farther
/// ancestor: the pin in effect never comes from the farther one.
pub proof fn lemma_descendant_overrides(
    dirs: Seq<Seq<PinEntryV>>,
    global: Seq<PinEntryV>,
    tool: Seq<u8>,
    near: int,
    far: int,
)
    requires
        0 <= near < far < dirs.len(),
        pin_in_file(dirs[near], tool) is Some,
    ensures
        resolve_spec(dirs, global, tool) matches Some((_, PinSource::Directory(d))) && d <= near,
{
    let k = choose_first_below(dirs, tool, near);
    lemma_closest_pin_wins(dirs, global, tool, k);
}

/// The closest directory, at most `near` away, whose pin file names the tool.
proof fn choose_first_below(dirs: Seq<Seq<PinEntryV>>, tool: Seq<u8>, near: int) -> (k: int)
    requires
        0 <= near < dirs.len(),
        pin_in_file(dirs[near], tool) is Some,
    ensures
        0 <= k <= near,
        pin_in_file(dirs[k], tool) is Some,
        forall|d: int| 0 <= d < k ==> pin_in_file(#[trigger] dirs[d], tool) is None,
    decreases near,
{
    if exists|d: int| 0 <= d < near && pin_in_file(#[trigger] dirs[d], tool) is Some {
        let d = choose|d: int| 0 <= d < near && pin_in_file(#[trigger] dirs[d], tool) is Some;
        choose_first_below(dirs, tool, d)
    } else {
        near
    }
}

/// A directory pin wins over the global pin file for the same tool.
pub proof fn lemma_local_over_global(
    dirs: Seq<Seq<PinEntryV>>,
    global: Seq<PinEntryV>,
    tool: Seq<u8>,
    d: int,
)
    requires
        0 <= d < dirs.len(),
        pin_in_file(dirs[d], tool) is Some,
    ensures
        resolve_spec(dirs, global, tool) matches Some((_, PinSource::Directory(_))),
{
    let k = choose_first_below(dirs, tool, d);
    lemma_closest_pin_wins(dirs, global, tool, k);
}

/// Writing every pin file out and reading it back leaves the pin in effect
/// for every tool unchanged, whenever every entry is valid.
pub proof fn lemma_reread_files_resolve_alike(
    dirs: Seq<Seq<PinEntryV>>,
    global: Seq<PinEntryV>,
    tool: Seq<u8>,
)
    requires
        forall|d: int, k: int|
            0 <= d < dirs.len() && 0 <= k < dirs[d].len() ==> valid_entry(#[trigger] dirs[d][k]),
        forall|k: int| 0 <= k < global.len() ==> valid_entry(#[trigger] global[k]),
    ensures
        resolve_spec(
            dirs.map_values(|f: Seq<PinEntryV>| parse_spec(serialize_spec(f)).0),
            parse_spec(serialize_spec(global)).0,
            tool,
        ) == resolve_spec(dirs, global, tool),
{
    let reread = dirs.map_values(|f: Seq<PinEntryV>| parse_spec(serialize_spec(f)).0);
    assert forall|d: int| 0 <= d < dirs.len() implies reread[d] == dirs[d] by {
        assert forall|k: int| 0 <= k < dirs[d].len() implies valid_entry(#[trigger] dirs[d][k]) by {}
        lemma_pin_file_round_trip(dirs[d]);
    }
    assert(reread =~= dirs);
    lemma_pin_file_round_trip(global);
}

fn pin_in_entries(f: &Vec<PinEntry>, tool: &Vec<u8>) -> (r: Option<usize>)
    ensures
        match r {
            Some(k) => k < f@.len() && pin_in_file(entries_view(f@), tool@) == Some(
                bytes_views(f@[k as int].versions@),
            ),
            None => pin_in_file(entries_view(f@), tool@) is None,
        },
{
    let ghost fv = entries_view(f@);
    assert(fv.subrange(0, fv.len() as int) =~= fv);
    let mut i: usize = 0;
    while i < f.len()
        invariant
            0 <= i <= f@.len(),
            fv == entries_view(f@),
            pin_in_file(fv, tool@) == pin_in_file(fv.subrange(i as int, fv.len() as int), tool@),
        decreases f@.len() - i,
    {
        let ghost rest = fv.subrange(i as int, fv.len() as int);
        assert(rest[0] == f@[i as int]@);
        assert(rest.drop_first() =~= fv.subrange(i + 1, fv.len() as int));
        if bytes_eq(&f[i].tool, tool) {
            return Some(i);
        }
        i = i + 1;
    }
    None
}

fn copy_tokens(v: &Vec<Vec<u8>>) -> (r: Vec<Vec<u8>>)
    ensures
        bytes_views(r@) == bytes_views(v@),
{
    let mut r: Vec<Vec<u8>> = Vec::new();
    let mut i: usize = 0;
    while i < v.len()
        invariant
            0 <= i <= v@.len(),
            bytes_views(r@) == bytes_views(v@.subrange(0, i as int)),
        decreases v@.len() - i,
    {
        let ghost before = r@;
        r.push(copy_bytes(&v[i]));
        assert(bytes_views(r@) =~= bytes_views(before).push(v@[i as int]@));
        assert(bytes_views(v@.subrange(0, i + 1)) =~= bytes_views(v@.subrange(0, i as int)).push(
            v@[i as int]@,
        ));
        i = i + 1;
    }
    assert(v@.subrange(0, i as int) =~= v@);
    r
}

/// The pin in effect for one tool, given the pin files of the working
/// directory and its ancestors (closest first) and the global pin file.
/// `None` means the tool is unresolved.
pub fn resolve_tool(dirs: &Vec<Vec<PinEntry>>, global: &Vec<PinEntry>, tool: &Vec<u8>) -> (r:
    Option<ResolvedPin>)
    ensures
        match r {
            Some(p) => p.tool@ == tool@ && resolve_spec(files_view(dirs@), entries_view(global@), tool@)
                == Some((bytes_views(p.versions@), p.source)),
            None => resolve_spec(files_view(dirs@), entries_view(global@), tool@) is None,
        },
{
    let ghost fs = files_view(dirs@);
    let ghost g = entries_view(global@);
    let mut i: usize = 0;
    while i < dirs.len()
        invariant
            0 <= i <= dirs@.len(),
            fs == files_view(dirs@),
            g == entries_view(global@),
            resolve_spec(fs, g, tool@) == resolve_from(fs, g, tool@, i as int),
        decreases dirs@.len() - i,
    {
        assert(fs[i as int] == entries_view(dirs@[i as int]@));
        match pin_in_entries(&dirs[i], tool) {
            Some(k) => {
                return Some(
                    ResolvedPin {
                        tool: copy_bytes(tool),
                        versions: copy_tokens(&dirs[i][k].versions),
                        source: PinSource::Directory(i),
                    },
                );
            },
            None => {},
        }
        i = i + 1;
    }
    match pin_in_entries(global, tool) {
        Some(k) => Some(
            ResolvedPin {
                tool: copy_bytes(tool),
                versions: copy_tokens(&global[k].versions),
                source: PinSource::Global,
            },
        ),
        None => None,
    }
}

fn contains_tool(r: &Vec<ResolvedPin>, tool: &Vec<u8>) -> (b: bool)
    ensures
        b == has_tool(r@, tool@),
{
    let mut i: usize = 0;
    while i < r.len()
        invariant
            0 <= i <= r@.len(),
            forall|m: int| 0 <= m < i ==> (#[trigger] r@[m]).tool@ != tool@,
        decreases r@.len() - i,
    {
        if bytes_eq(&r[i].tool, tool) {
            return true;
        }
        i = i + 1;
    }
    false
}

fn add_file(r: &mut Vec<ResolvedPin>, f: &Vec<PinEntry>, dirs: &Vec<Vec<PinEntry>>, global: &Vec<PinEntry>)
    requires
        effective_pins(old(r)@, files_view(dirs@), entries_view(global@)),
        forall|t: Seq<u8>| names_tool(entries_view(f@), t) ==> pinned_anywhere(
            files_view(dirs@),
            entries_view(global@),
            t,
        ),
    ensures
        effective_pins(final(r)@, files_view(dirs@), entries_view(global@)),
        forall|t: Seq<u8>| has_tool(old(r)@, t) ==> has_tool(final(r)@, t),
        forall|t: Seq<u8>| names_tool(entries_view(f@), t) ==> has_tool(final(r)@, t),
{
    let ghost fv = entries_view(f@);
    let mut k: usize = 0;
    while k < f.len()
        invariant
            0 <= k <= f@.len(),
            fv == entries_view(f@),
            effective_pins(r@, files_view(dirs@), entries_view(global@)),
            forall|t: Seq<u8>| names_tool(fv, t) ==> pinned_anywhere(
                files_view(dirs@),
                entries_view(global@),
                t,
            ),
            forall|t: Seq<u8>| has_tool(old(r)@, t) ==> has_tool(r@, t),
            forall|j: int| 0 <= j < k ==> has_tool(r@, (#[trigger] fv[j]).tool),
        decreases f@.len() - k,
    {
        let ghost before = r@;
        assert(fv[k as int].tool == f@[k as int].tool@);
        if !contains_tool(r, &f[k].tool) {
            assert(names_tool(fv, fv[k as int].tool));
            proof {
                lemma_resolved_iff_pinned(files_view(dirs@), entries_view(global@), fv[k as int].tool);
            }
            match resolve_tool(dirs, global, &f[k].tool) {
                Some(p) => {
                    r.push(p);
                    assert(r@[before.len() as int] == p);
                    assert forall|t: Seq<u8>| has_tool(before, t) implies has_tool(r@, t) by {
                        let m = choose|m: int| 0 <= m < before.len() && (#[trigger] before[m]).tool@ == t;
                        assert(r@[m] == before[m]);
                    }
                },
                None => {},
            }
        }
        assert forall|j: int| 0 <= j < k + 1 implies has_tool(r@, (#[trigger] fv[j]).tool) by {
            if j < k {
                assert(has_tool(before, fv[j].tool));
            }
        }
        k = k + 1;
    }
    assert forall|t: Seq<u8>| names_tool(fv, t) implies has_tool(r@, t) by {
        let j = choose|j: int| 0 <= j < fv.len() && (#[trigger] fv[j]).tool == t;
        assert(has_tool(r@, fv[j].tool));
    }
}

/// The effective version map of a working directory: for every tool that
/// some pin file names, exactly one entry, holding the pin in effect for it.
/// Tools appear in the order in which the walk from the working directory
/// up, then the global pin file, first meets them.
pub fn resolve(dirs: &Vec<Vec<PinEntry>>, global: &Vec<PinEntry>) -> (r: Vec<ResolvedPin>)
    ensures
        effective_pins(r@, files_view(dirs@), entries_view(global@)),
        forall|t: Seq<u8>| #[trigger] pinned_anywhere(files_view(dirs@), entries_view(global@), t)
            <==> has_tool(r@, t),
{
    let ghost fs = files_view(dirs@);
    let ghost g = entries_view(global@);
    let mut r: Vec<ResolvedPin> = Vec::new();
    let mut d: usize = 0;
    while d < dirs.len()
        invariant
            0 <= d <= dirs@.len(),
            fs == files_view(dirs@),
            g == entries_view(global@),
            effective_pins(r@, fs, g),
            forall|e: int, t: Seq<u8>| 0 <= e < d && #[trigger] names_tool(fs[e], t) ==> has_tool(r@, t),
        decreases dirs@.len() - d,
    {
        let ghost before = r@;
        assert(fs[d as int] == entries_view(dirs@[d as int]@));
        assert forall|t: Seq<u8>| names_tool(entries_view(dirs@[d as int]@), t) implies pinned_anywhere(fs, g, t) by {
            assert(names_tool(fs[d as int], t));
        }
        add_file(&mut r, &dirs[d], dirs, global);
        assert forall|e: int, t: Seq<u8>| 0 <= e < d + 1 && #[trigger] names_tool(fs[e], t) implies has_tool(r@, t) by {
            if e < d {
                assert(has_tool(before, t));
            }
        }
        d = d + 1;
    }
    let ghost before = r@;
    add_file(&mut r, global, dirs, global);
    assert forall|t: Seq<u8>| #[trigger] pinned_anywhere(fs, g, t) <==> has_tool(r@, t) by {
        if pinned_anywhere(fs, g, t) {
            if !names_tool(g, t) {
                let e = choose|e: int| 0 <= e < fs.len() && #[trigger] names_tool(fs[e], t);
                assert(has_tool(before, t));
            }
        }
        if has_tool(r@, t) {
            let m = choose|m: int| 0 <= m < r@.len() && (#[trigger] r@[m]).tool@ == t;
            lemma_resolved_iff_pinned(fs, g, t);
        }
    }
    r
}

} // verus!
