//! Reading a packwiz project and resolving its mods to projects: the checks
//! on the project's directories, which mods go to which store, the requests
//! made to the stores, how replies are paired with mods and cached, and the
//! placeholders used when CurseForge cannot be reached.

use vstd::prelude::*;

use crate::cache::Cache;
use crate::error::ValidationError;
use crate::error::EncodeError;
use crate::object::{
    curseforge_page_prefix, duplicate_members, CurseForgeProject, ModrinthProject, ModrinthTeamMember, PackMod, Project,
};
use crate::text::{join, texts_of, chars_end_with, chars_of, decimal, ends_with, parse_u32, parse_u32_spec};

verus! {

/// The checks that `get_mods` makes on the mods directory before reading it:
/// it must exist, then it must be a directory.
pub fn check_mods_dir(path: String, exists: bool, is_dir: bool) -> (r: Result<(), ValidationError>)
    ensures
        !exists ==> r == Err::<(), ValidationError>(ValidationError::DirNotExist(path)),
        exists && !is_dir ==> r == Err::<(), ValidationError>(ValidationError::MustBeDir(path)),
        exists && is_dir ==> r is Ok,
{
    if !exists {
        Err(ValidationError::DirNotExist(path))
    } else if !is_dir {
        Err(ValidationError::MustBeDir(path))
    } else {
        Ok(())
    }
}

/// The checks that `get_data` makes on the project directory: it must exist,
/// be a directory, and hold a `pack.toml` file; the first failing check
/// decides the error, which names the project directory.
pub fn check_pack_dir(path: String, exists: bool, is_dir: bool, pack_is_file: bool) -> (r: Result<
    (),
    ValidationError,
>)
    ensures
        !exists ==> r == Err::<(), ValidationError>(ValidationError::DirNotExist(path)),
        exists && !is_dir ==> r == Err::<(), ValidationError>(ValidationError::MustBeDir(path)),
        exists && is_dir && !pack_is_file ==> r == Err::<(), ValidationError>(
            ValidationError::PackNotFound(path),
        ),
        exists && is_dir && pack_is_file ==> r is Ok,
{
    if !exists {
        Err(ValidationError::DirNotExist(path))
    } else if !is_dir {
        Err(ValidationError::MustBeDir(path))
    } else if !pack_is_file {
        Err(ValidationError::PackNotFound(path))
    } else {
        Ok(())
    }
}

/// The check that `write` makes on the output file: an existing file is only
/// replaced when forced.
pub fn check_output_target(path: String, exists: bool, force: bool) -> (r: Result<(), ValidationError>)
    ensures
        exists && !force ==> r == Err::<(), ValidationError>(ValidationError::OutputAlreadyExits(path)),
        !(exists && !force) ==> r is Ok,
{
    if exists && !force {
        Err(ValidationError::OutputAlreadyExits(path))
    } else {
        Ok(())
    }
}

/// The suffix of packwiz metadata files.
pub open spec fn toml_suffix() -> Seq<char> {
    seq!['.', 't', 'o', 'm', 'l']
}

/// The positions, in order, of the directory entries whose file name ends in
/// `.toml`: the files that hold mod metadata.
pub fn select_metadata_files(names: &Vec<String>) -> (r: Vec<usize>)
    ensures
        forall|k: int| 0 <= k < r.len() ==> #[trigger] r@[k] < names.len(),
        forall|k: int| 0 <= k < r.len() ==> ends_with(names@[#[trigger] r@[k] as int]@, toml_suffix()),
        forall|a: int, b: int| 0 <= a < b < r.len() ==> #[trigger] r@[a] < #[trigger] r@[b],
        forall|j: int|
            0 <= j < names.len() && ends_with(#[trigger] names@[j]@, toml_suffix()) ==> r@.contains(
                j as usize,
            ),
{
    let suffix = vec!['.', 't', 'o', 'm', 'l'];
    assert(suffix@ =~= toml_suffix());
    let mut r: Vec<usize> = Vec::new();
    let mut i: usize = 0;
    while i < names.len()
        invariant
            suffix@ == toml_suffix(),
            i <= names.len(),
            forall|k: int| 0 <= k < r.len() ==> #[trigger] r@[k] < i,
            forall|k: int| 0 <= k < r.len() ==> ends_with(names@[#[trigger] r@[k] as int]@, toml_suffix()),
            forall|a: int, b: int| 0 <= a < b < r.len() ==> #[trigger] r@[a] < #[trigger] r@[b],
            forall|j: int|
                0 <= j < i && ends_with(#[trigger] names@[j]@, toml_suffix()) ==> r@.contains(j as usize),
        decreases names.len() - i,
    {
        let name = chars_of(names[i].as_str());
        if chars_end_with(&name, &suffix) {
            let ghost before = r@;
            r.push(i);
            proof {
                assert forall|j: int|
                    0 <= j < i + 1 && ends_with(#[trigger] names@[j]@, toml_suffix()) implies r@.contains(
                    j as usize,
                ) by {
                    if j < i {
                        let k = choose|k: int| 0 <= k < before.len() && before[k] == j as usize;
                        assert(r@[k] == j as usize);
                    } else {
                        assert(r@[before.len() as int] == i);
                    }
                }
            }
        }
        i = i + 1;
    }
    r
}


/// What to do for the projects of one store: the cache already holds them,
/// or they must be requested by these ids.
#[derive(Debug)]
pub enum Lookup<I> {
    /// The projects, ready to be listed.
    Cached(Vec<Project>),
    /// The ids to request.
    Fetch(Vec<I>),
}

/// The mods that declare a Modrinth source, in order.
pub open spec fn modrinth_mods(mods: Seq<PackMod>) -> Seq<PackMod>
    decreases mods.len(),
{
    if mods.len() == 0 {
        mods
    } else if mods.last().update.modrinth is Some {
        modrinth_mods(mods.drop_last()).push(mods.last())
    } else {
        modrinth_mods(mods.drop_last())
    }
}

/// The mods that declare a CurseForge source, in order.
pub open spec fn curseforge_mods(mods: Seq<PackMod>) -> Seq<PackMod>
    decreases mods.len(),
{
    if mods.len() == 0 {
        mods
    } else if mods.last().update.curseforge is Some {
        curseforge_mods(mods.drop_last()).push(mods.last())
    } else {
        curseforge_mods(mods.drop_last())
    }
}

/// Every selected CurseForge mod declares a CurseForge source.
pub proof fn lemma_curseforge_mods_sourced(mods: Seq<PackMod>)
    ensures
        forall|k: int|
            0 <= k < curseforge_mods(mods).len() ==> (#[trigger] curseforge_mods(mods)[k]).update.curseforge is Some,
    decreases mods.len(),
{
    if mods.len() > 0 {
        lemma_curseforge_mods_sourced(mods.drop_last());
    }
}

/// The file hashes of `mods`.
pub open spec fn hashes_of(mods: Seq<PackMod>) -> Seq<Seq<char>> {
    mods.map_values(|m: PackMod| m.download.hash@)
}

/// The project ids of `mods`.
pub open spec fn ids_of(mods: Seq<PackMod>) -> Seq<Seq<char>> {
    mods.map_values(|m: PackMod| m.id_view())
}

/// The cache holds a project for the file of every one of `mods`.
pub open spec fn all_cached(cache: Map<Seq<char>, Project>, mods: Seq<PackMod>) -> bool {
    forall|k: int| 0 <= k < mods.len() ==> cache.contains_key(#[trigger] mods[k].download.hash@)
}

/// `projects` are copies of the cached projects of `mods`, in order.
pub open spec fn cached_projects(cache: Map<Seq<char>, Project>, mods: Seq<PackMod>, projects: Seq<
    Project,
>) -> bool {
    projects.len() == mods.len() && forall|k: int|
        0 <= k < mods.len() ==> #[trigger] projects[k].equivalent(&cache[mods[k].download.hash@])
}

/// The selected mods of a store, with their hashes and ids.
struct Selection {
    positions: Vec<usize>,
    hashes: Vec<String>,
    ids: Vec<String>,
}

/// The mods that declare a source of the given store, their hashes and ids.
fn select_store(mods: &Vec<PackMod>, modrinth: bool) -> (r: Selection)
    ensures
        ({
            let sel = if modrinth {
                modrinth_mods(mods@)
            } else {
                curseforge_mods(mods@)
            };
            &&& r.positions.len() == sel.len()
            &&& r.hashes.len() == sel.len()
            &&& r.ids.len() == sel.len()
            &&& forall|k: int|
                0 <= k < sel.len() ==> #[trigger] r.positions@[k] < mods.len() && mods@[r.positions@[k] as int] == sel[k]
            &&& texts_of(r.hashes@) == hashes_of(sel)
            &&& texts_of(r.ids@) == ids_of(sel)
        }),
{
    let ghost pick = |ms: Seq<PackMod>| if modrinth {
        modrinth_mods(ms)
    } else {
        curseforge_mods(ms)
    };
    let mut positions: Vec<usize> = Vec::new();
    let mut hashes: Vec<String> = Vec::new();
    let mut ids: Vec<String> = Vec::new();
    let mut i: usize = 0;
    while i < mods.len()
        invariant
            i <= mods.len(),
            pick == (|ms: Seq<PackMod>| if modrinth {
                modrinth_mods(ms)
            } else {
                curseforge_mods(ms)
            }),
            positions.len() == pick(mods@.take(i as int)).len(),
            hashes.len() == pick(mods@.take(i as int)).len(),
            ids.len() == pick(mods@.take(i as int)).len(),
            forall|k: int|
                0 <= k < positions.len() ==> #[trigger] positions@[k] < i && mods@[positions@[k] as int]
                    == pick(mods@.take(i as int))[k],
            texts_of(hashes@) == hashes_of(pick(mods@.take(i as int))),
            texts_of(ids@) == ids_of(pick(mods@.take(i as int))),
        decreases mods.len() - i,
    {
        let m = &mods[i];
        let ghost before = mods@.take(i as int);
        let ghost after = mods@.take(i + 1);
        assert(after.drop_last() =~= before);
        assert(after.last() == *m);
        let chosen = if modrinth {
            m.update.modrinth.is_some()
        } else {
            m.update.curseforge.is_some()
        };
        if chosen {
            let ghost hb = hashes@;
            let ghost ib = ids@;
            positions.push(i);
            hashes.push(m.hash().clone());
            ids.push(m.id());
            assert(pick(after) == pick(before).push(*m));
            proof {
                let n = hb.len();
                assert forall|k: int| 0 <= k < n + 1 implies #[trigger] texts_of(hashes@)[k]
                    == hashes_of(pick(after))[k] by {
                    if k < n {
                        assert(hb.map_values(|h: String| h@)[k] == hashes_of(pick(before))[k]);
                        assert(hashes@[k] == hb[k]);
                    }
                }
                assert forall|k: int| 0 <= k < n + 1 implies #[trigger] texts_of(ids@)[k]
                    == ids_of(pick(after))[k] by {
                    if k < n {
                        assert(ib.map_values(|h: String| h@)[k] == ids_of(pick(before))[k]);
                        assert(ids@[k] == ib[k]);
                    }
                }
            }
            assert(texts_of(hashes@) =~= hashes_of(pick(after)));
            assert(texts_of(ids@) =~= ids_of(pick(after)));
        } else {
            assert(pick(after) == pick(before));
        }
        i = i + 1;
    }
    assert(mods@.take(mods.len() as int) =~= mods@);
    Selection { positions, hashes, ids }
}

/// Decides how the Modrinth projects of `mods` are found: from the cache when
/// it holds a project for every Modrinth mod's file, else by requesting the
/// ids of all Modrinth mods (repeats included).
pub fn modrinth_lookup(cache: &Cache, mods: &Vec<PackMod>) -> (r: Lookup<String>)
    ensures
        ({
            let sel = modrinth_mods(mods@);
            match r {
                Lookup::Cached(ps) => all_cached(cache@, sel) && cached_projects(cache@, sel, ps@),
                Lookup::Fetch(ids) => !all_cached(cache@, sel) && texts_of(ids@)
                    == ids_of(sel),
            }
        }),
        modrinth_mods(mods@).len() == 0 ==> (r matches Lookup::Cached(ps) && ps.len() == 0),
        r matches Lookup::Fetch(ids) ==> texts_of(ids@) == ids_of(
            mods@.filter(|m: PackMod| m.update.modrinth is Some),
        ),
{
    proof {
        law_modrinth_selection(mods@);
    }
    let selection = select_store(mods, true);
    let ghost sel = modrinth_mods(mods@);
    proof {
        assert forall|k: int| 0 <= k < sel.len() implies #[trigger] selection.hashes@[k]@ == sel[k].download.hash@ by {
            assert(texts_of(selection.hashes@)[k] == hashes_of(sel)[k]);
        }
    }
    match cache.get_all(&selection.hashes) {
        Some(ps) => {
            assert(all_cached(cache@, sel)) by {
                assert forall|k: int| 0 <= k < sel.len() implies cache@.contains_key(
                    #[trigger] sel[k].download.hash@,
                ) by {
                    assert(cache@.contains_key(selection.hashes@[k]@));
                }
            }
            assert forall|k: int| 0 <= k < sel.len() implies #[trigger] ps@[k].equivalent(
                &cache@[sel[k].download.hash@],
            ) by {
                assert(ps@[k].equivalent(&cache@[selection.hashes@[k]@]));
            }
            Lookup::Cached(ps)
        },
        None => {
            assert(!all_cached(cache@, sel)) by {
                let k = choose|k: int|
                    0 <= k < selection.hashes.len() && !cache@.contains_key(#[trigger] selection.hashes@[k]@);
                assert(!cache@.contains_key(sel[k].download.hash@));
            }
            Lookup::Fetch(selection.ids)
        },
    }
}


/// `i` is the first position of `x` in `s`.
pub open spec fn is_first_index(s: Seq<Seq<char>>, x: Seq<char>, i: int) -> bool {
    &&& 0 <= i < s.len()
    &&& s[i] == x
    &&& forall|j: int| 0 <= j < i ==> s[j] != x
}

/// The first position of `x` in `s`.
pub open spec fn first_index(s: Seq<Seq<char>>, x: Seq<char>) -> int {
    choose|i: int| is_first_index(s, x, i)
}

/// A first position is the first position.
pub proof fn lemma_first_index(s: Seq<Seq<char>>, x: Seq<char>, i: int)
    requires
        is_first_index(s, x, i),
    ensures
        first_index(s, x) == i,
{
    let j = first_index(s, x);
    assert(is_first_index(s, x, j));
    if j < i {
        assert(s[j] != x);
    } else if i < j {
        assert(s[i] != x);
    }
}

/// The first position of `id` in `ids`, if it occurs.
fn find_first(ids: &Vec<String>, id: &String) -> (r: Option<usize>)
    ensures
        r matches Some(i) ==> is_first_index(texts_of(ids@), id@, i as int),
        r is None ==> !texts_of(ids@).contains(id@),
{
    let mut i: usize = 0;
    while i < ids.len()
        invariant
            i <= ids.len(),
            forall|j: int| 0 <= j < i ==> texts_of(ids@)[j] != id@,
        decreases ids.len() - i,
    {
        if ids[i] == *id {
            return Some(i);
        }
        i = i + 1;
    }
    None
}

/// The cache after remembering each of `projects` in turn, each for the file
/// of the first of `mods` whose project id is the project's id.
pub open spec fn remember_all(cache: Map<Seq<char>, Project>, mods: Seq<PackMod>, projects: Seq<Project>) -> Map<
    Seq<char>,
    Project,
>
    decreases projects.len(),
{
    if projects.len() == 0 {
        cache
    } else {
        let p = projects.last();
        remember_all(cache, mods, projects.drop_last()).insert(
            hashes_of(mods)[first_index(ids_of(mods), p.id_view())],
            p,
        )
    }
}

/// The Modrinth projects as projects of the list.
pub open spec fn as_modrinth(projects: Seq<ModrinthProject>) -> Seq<Project> {
    projects.map_values(|p: ModrinthProject| Project::Modrinth(p))
}

/// The CurseForge projects as projects of the list.
pub open spec fn as_curseforge(projects: Seq<CurseForgeProject>) -> Seq<Project> {
    projects.map_values(|p: CurseForgeProject| Project::CurseForge(p))
}

/// Records the fetched Modrinth projects: each is remembered in the cache for
/// the file of the first Modrinth mod with its id, and all are listed in the
/// order they were received.
pub fn modrinth_finish(cache: &mut Cache, mods: &Vec<PackMod>, fetched: Vec<ModrinthProject>) -> (r: Vec<
    Project,
>)
    requires
        forall|k: int| 0 <= k < fetched.len() ==> ids_of(modrinth_mods(mods@)).contains(#[trigger] fetched@[k].id@),
    ensures
        final(cache)@ == remember_all(old(cache)@, modrinth_mods(mods@), as_modrinth(fetched@)),
        r.len() == fetched.len(),
        forall|k: int| 0 <= k < fetched.len() ==> #[trigger] r@[k].equivalent(&Project::Modrinth(fetched@[k])),
{
    let selection = select_store(mods, true);
    let ghost sel = modrinth_mods(mods@);
    let ghost all = fetched@;
    let mut rest = fetched;
    let mut out: Vec<Project> = Vec::new();
    let ghost start = cache@;
    assert(as_modrinth(all).take(0) =~= Seq::<Project>::empty());
    assert(rest@ =~= all.skip(0));
    while rest.len() > 0
        invariant
            selection.hashes.len() == sel.len(),
            selection.ids.len() == sel.len(),
            texts_of(selection.hashes@) == hashes_of(sel),
            texts_of(selection.ids@) == ids_of(sel),
            forall|k: int| 0 <= k < all.len() ==> ids_of(sel).contains(#[trigger] all[k].id@),
            out.len() <= all.len(),
            rest@ == all.skip(out.len() as int),
            cache@ == remember_all(start, sel, as_modrinth(all).take(out.len() as int)),
            forall|k: int| 0 <= k < out.len() ==> #[trigger] out@[k].equivalent(&Project::Modrinth(all[k])),
        decreases rest.len(),
    {
        let ghost i = out.len() as int;
        let p = rest.remove(0);
        assert(p == all[i]);
        assert(rest@ =~= all.skip(i + 1));
        let pos = find_first(&selection.ids, &p.id);
        let k = match pos {
            Some(k) => k,
            None => {
                assert(ids_of(sel).contains(all[i].id@));
                return out;
            },
        };
        proof {
            lemma_first_index(ids_of(sel), p.id@, k as int);
        }
        let copy = Project::Modrinth(p.duplicate());
        cache.insert(selection.hashes[k].clone(), Project::Modrinth(p));
        out.push(copy);
        proof {
            let ps = as_modrinth(all).take(i + 1);
            assert(ps.drop_last() =~= as_modrinth(all).take(i));
            assert(ps.last() == Project::Modrinth(all[i]));
            assert(texts_of(selection.hashes@)[k as int] == selection.hashes@[k as int]@);
        }
    }
    assert(as_modrinth(all).take(all.len() as int) =~= as_modrinth(all));
    out
}


/// The ids of `mods` that read as numbers, in order (the CurseForge project
/// ids that can be requested).
pub open spec fn numeric_ids(mods: Seq<PackMod>) -> Seq<u32>
    decreases mods.len(),
{
    if mods.len() == 0 {
        Seq::empty()
    } else {
        match parse_u32_spec(mods.last().id_view()) {
            Some(v) => numeric_ids(mods.drop_last()).push(v),
            None => numeric_ids(mods.drop_last()),
        }
    }
}

/// Decides how the CurseForge projects of `mods` are found: from the cache
/// when it holds a project for every CurseForge mod's file; else, when no
/// CurseForge mod has a numeric id, there is nothing to list; else the
/// numeric ids are requested.
pub fn curseforge_lookup(cache: &Cache, mods: &Vec<PackMod>) -> (r: Lookup<u32>)
    ensures
        ({
            let sel = curseforge_mods(mods@);
            match r {
                Lookup::Cached(ps) => (all_cached(cache@, sel) && cached_projects(cache@, sel, ps@)) || (
                !all_cached(cache@, sel) && numeric_ids(sel).len() == 0 && ps.len() == 0),
                Lookup::Fetch(ids) => !all_cached(cache@, sel) && ids@ == numeric_ids(sel) && ids.len() > 0,
            }
        }),
        curseforge_mods(mods@).len() == 0 ==> (r matches Lookup::Cached(ps) && ps.len() == 0),
        r matches Lookup::Fetch(ids) ==> ids@ == mods@.filter_map(
            |m: PackMod|
                if m.update.curseforge is Some {
                    parse_u32_spec(m.id_view())
                } else {
                    None
                },
        ),
{
    proof {
        law_curseforge_requests(mods@);
    }
    let selection = select_store(mods, false);
    let ghost sel = curseforge_mods(mods@);
    proof {
        assert forall|k: int| 0 <= k < sel.len() implies #[trigger] selection.hashes@[k]@
            == sel[k].download.hash@ by {
            assert(texts_of(selection.hashes@)[k] == hashes_of(sel)[k]);
        }
    }
    match cache.get_all(&selection.hashes) {
        Some(ps) => {
            assert(all_cached(cache@, sel)) by {
                assert forall|k: int| 0 <= k < sel.len() implies cache@.contains_key(
                    #[trigger] sel[k].download.hash@,
                ) by {
                    assert(cache@.contains_key(selection.hashes@[k]@));
                }
            }
            assert forall|k: int| 0 <= k < sel.len() implies #[trigger] ps@[k].equivalent(
                &cache@[sel[k].download.hash@],
            ) by {
                assert(ps@[k].equivalent(&cache@[selection.hashes@[k]@]));
            }
            return Lookup::Cached(ps);
        },
        None => {
            assert(!all_cached(cache@, sel)) by {
                let k = choose|k: int|
                    0 <= k < selection.hashes.len() && !cache@.contains_key(#[trigger] selection.hashes@[k]@);
                assert(!cache@.contains_key(sel[k].download.hash@));
            }
        },
    }
    let mut ids: Vec<u32> = Vec::new();
    let mut i: usize = 0;
    while i < selection.ids.len()
        invariant
            i <= selection.ids.len(),
            selection.ids.len() == sel.len(),
            texts_of(selection.ids@) == ids_of(sel),
            ids@ == numeric_ids(sel.take(i as int)),
        decreases selection.ids.len() - i,
    {
        assert(sel.take(i + 1).drop_last() =~= sel.take(i as int));
        assert(sel.take(i + 1).last().id_view() == selection.ids@[i as int]@) by {
            assert(texts_of(selection.ids@)[i as int] == ids_of(sel)[i as int]);
        }
        match parse_u32(selection.ids[i].as_str()) {
            Some(v) => ids.push(v),
            None => {},
        }
        i = i + 1;
    }
    assert(sel.take(sel.len() as int) =~= sel);
    if ids.len() == 0 {
        Lookup::Cached(Vec::new())
    } else {
        Lookup::Fetch(ids)
    }
}

/// The text of a placeholder project.
pub open spec fn placeholder_summary() -> Seq<char> {
    "CurseForge mod — API unavailable, shown as a placeholder. See the CurseForge project page."@
}

/// The CurseForge project id a placeholder for `pack_mod` links to: the
/// mod's CurseForge project id; for a mod without a CurseForge source, its
/// id read as a number, or 0 when it does not read as one.
pub open spec fn placeholder_id(pack_mod: PackMod) -> u32 {
    match pack_mod.update.curseforge {
        Some(c) => c.project_id,
        None => match parse_u32_spec(pack_mod.id_view()) {
            Some(v) => v,
            None => 0u32,
        },
    }
}

/// `project` is the placeholder for `pack_mod`: a CurseForge project named
/// like the mod, whose id is `placeholder_id` and whose slug is that number,
/// so that the page address points at the numeric project id; with the
/// placeholder text, no authors and no logo.
pub open spec fn is_placeholder_for(project: Project, pack_mod: PackMod) -> bool {
    match project {
        Project::CurseForge(p) => {
            &&& p.id == placeholder_id(pack_mod)
            &&& p.slug@ == decimal(p.id as nat)
            &&& p.name == pack_mod.name
            &&& p.summary@ == placeholder_summary()
            &&& p.authors@.len() == 0
            &&& p.logo is None
        },
        Project::Modrinth(_) => false,
    }
}

/// A placeholder for a CurseForge mod that could not be looked up, built from
/// the pack's own metadata.
pub fn placeholder_curseforge(pack_mod: &PackMod) -> (r: Project)
    requires
        pack_mod.has_source(),
    ensures
        is_placeholder_for(r, *pack_mod),
{
    let id_num = match &pack_mod.update.curseforge {
        Some(c) => c.project_id,
        None => {
            let id = pack_mod.id();
            match parse_u32(id.as_str()) {
                Some(v) => v,
                None => 0,
            }
        },
    };
    Project::CurseForge(
        CurseForgeProject {
            id: id_num,
            slug: crate::text::decimal_string(id_num as u64),
            name: pack_mod.name.clone(),
            summary: String::from_str(
                "CurseForge mod — API unavailable, shown as a placeholder. See the CurseForge project page.",
            ),
            authors: Vec::new(),
            logo: None,
        },
    )
}


/// Of the mods sharing a project id, the first one, in order.
pub open spec fn first_of_each_id(mods: Seq<PackMod>) -> Seq<PackMod>
    decreases mods.len(),
{
    if mods.len() == 0 {
        mods
    } else if ids_of(mods.drop_last()).contains(mods.last().id_view()) {
        first_of_each_id(mods.drop_last())
    } else {
        first_of_each_id(mods.drop_last()).push(mods.last())
    }
}

/// One placeholder for each distinct id among the CurseForge mods, made from
/// the first mod with that id.
fn curseforge_placeholders(mods: &Vec<PackMod>) -> (r: Vec<Project>)
    ensures
        ({
            let firsts = first_of_each_id(curseforge_mods(mods@));
            &&& r.len() == firsts.len()
            &&& forall|k: int| 0 <= k < r.len() ==> is_placeholder_for(#[trigger] r@[k], firsts[k])
        }),
{
    let selection = select_store(mods, false);
    let ghost sel = curseforge_mods(mods@);
    let ghost firsts = first_of_each_id(sel);
    proof {
        lemma_curseforge_mods_sourced(mods@);
    }
    let mut out: Vec<Project> = Vec::new();
    let mut i: usize = 0;
    while i < selection.ids.len()
        invariant
            i <= selection.ids.len(),
            selection.ids.len() == sel.len(),
            selection.positions.len() == sel.len(),
            forall|k: int|
                0 <= k < sel.len() ==> #[trigger] selection.positions@[k] < mods.len()
                    && mods@[selection.positions@[k] as int] == sel[k],
            texts_of(selection.ids@) == ids_of(sel),
            forall|k: int| 0 <= k < sel.len() ==> (#[trigger] sel[k]).update.curseforge is Some,
            out.len() == first_of_each_id(sel.take(i as int)).len(),
            forall|k: int|
                0 <= k < out.len() ==> is_placeholder_for(
                    #[trigger] out@[k],
                    first_of_each_id(sel.take(i as int))[k],
                ),
        decreases selection.ids.len() - i,
    {
        let ghost pre = sel.take(i as int);
        let ghost cur = sel.take(i + 1);
        assert(cur.drop_last() =~= pre);
        assert(cur.last() == sel[i as int]);
        assert(ids_of(pre) =~= texts_of(selection.ids@).take(i as int));
        let j = match find_first(&selection.ids, &selection.ids[i]) {
            Some(j) => j,
            None => {
                assert(texts_of(selection.ids@)[i as int] == selection.ids@[i as int]@);
                return out;
            },
        };
        assert(texts_of(selection.ids@)[i as int] == selection.ids@[i as int]@);
        assert(sel[i as int].id_view() == selection.ids@[i as int]@) by {
            assert(ids_of(sel)[i as int] == sel[i as int].id_view());
        }
        if j == i {
            assert(!ids_of(pre).contains(cur.last().id_view())) by {
                if ids_of(pre).contains(cur.last().id_view()) {
                    let q = choose|q: int| 0 <= q < ids_of(pre).len() && ids_of(pre)[q] == cur.last().id_view();
                    assert(texts_of(selection.ids@)[q] == selection.ids@[i as int]@);
                }
            }
            let ghost before = out@;
            let m = &mods[selection.positions[i]];
            out.push(placeholder_curseforge(m));
            assert(first_of_each_id(cur) == first_of_each_id(pre).push(sel[i as int]));
            assert forall|k: int|
                0 <= k < out.len() implies is_placeholder_for(#[trigger] out@[k], first_of_each_id(cur)[k]) by {
                if k < before.len() {
                    assert(out@[k] == before[k]);
                }
            }
        } else {
            assert(ids_of(pre).contains(cur.last().id_view())) by {
                assert(j < i);
                assert(ids_of(pre)[j as int] == texts_of(selection.ids@)[j as int]);
            }
        }
        i = i + 1;
    }
    assert(sel.take(sel.len() as int) =~= sel);
    out
}

/// Records the outcome of a CurseForge request. With the requested projects,
/// each is remembered in the cache for the file of the first CurseForge mod
/// whose id is the project's decimal id, and all are listed in the order
/// received. Without them (the request failed), the cache is left alone and
/// a placeholder is listed for each distinct id among the CurseForge mods;
/// the flag tells that placeholders were used.
pub fn curseforge_finish(cache: &mut Cache, mods: &Vec<PackMod>, fetched: Option<Vec<CurseForgeProject>>) -> (r: (
    Vec<Project>,
    bool,
))
    requires
        fetched matches Some(ps) ==> forall|k: int|
            0 <= k < ps.len() ==> ids_of(curseforge_mods(mods@)).contains(
                decimal(#[trigger] ps@[k].id as nat),
            ),
    ensures
        ({
            let sel = curseforge_mods(mods@);
            match fetched {
                Some(ps) => {
                    &&& final(cache)@ == remember_all(old(cache)@, sel, as_curseforge(ps@))
                    &&& !r.1
                    &&& r.0.len() == ps.len()
                    &&& forall|k: int|
                        0 <= k < ps.len() ==> #[trigger] r.0@[k].equivalent(&Project::CurseForge(ps@[k]))
                },
                None => {
                    let firsts = first_of_each_id(sel);
                    &&& final(cache)@ == old(cache)@
                    &&& r.1
                    &&& r.0.len() == firsts.len()
                    &&& forall|k: int| 0 <= k < r.0.len() ==> is_placeholder_for(#[trigger] r.0@[k], firsts[k])
                },
            }
        }),
{
    let fetched = match fetched {
        Some(ps) => ps,
        None => {
            return (curseforge_placeholders(mods), true);
        },
    };
    let selection = select_store(mods, false);
    let ghost sel = curseforge_mods(mods@);
    let ghost all = fetched@;
    let mut rest = fetched;
    let mut out: Vec<Project> = Vec::new();
    let ghost start = cache@;
    assert(as_curseforge(all).take(0) =~= Seq::<Project>::empty());
    assert(rest@ =~= all.skip(0));
    while rest.len() > 0
        invariant
            selection.hashes.len() == sel.len(),
            selection.ids.len() == sel.len(),
            texts_of(selection.hashes@) == hashes_of(sel),
            texts_of(selection.ids@) == ids_of(sel),
            forall|k: int| 0 <= k < all.len() ==> ids_of(sel).contains(decimal(#[trigger] all[k].id as nat)),
            out.len() <= all.len(),
            rest@ == all.skip(out.len() as int),
            cache@ == remember_all(start, sel, as_curseforge(all).take(out.len() as int)),
            forall|k: int| 0 <= k < out.len() ==> #[trigger] out@[k].equivalent(&Project::CurseForge(all[k])),
        decreases rest.len(),
    {
        let ghost i = out.len() as int;
        let p = rest.remove(0);
        assert(p == all[i]);
        assert(rest@ =~= all.skip(i + 1));
        let id = crate::text::decimal_string(p.id as u64);
        let pos = find_first(&selection.ids, &id);
        let k = match pos {
            Some(k) => k,
            None => {
                assert(ids_of(sel).contains(decimal(all[i].id as nat)));
                return (out, false);
            },
        };
        proof {
            lemma_first_index(ids_of(sel), id@, k as int);
        }
        let copy = Project::CurseForge(p.duplicate());
        cache.insert(selection.hashes[k].clone(), Project::CurseForge(p));
        out.push(copy);
        proof {
            let ps = as_curseforge(all).take(i + 1);
            assert(ps.drop_last() =~= as_curseforge(all).take(i));
            assert(ps.last() == Project::CurseForge(all[i]));
            assert(texts_of(selection.hashes@)[k as int] == selection.hashes@[k as int]@);
        }
    }
    assert(as_curseforge(all).take(all.len() as int) =~= as_curseforge(all));
    (out, false)
}


/// Lets `serde_json::Error` appear in signatures.
#[verifier::external_type_specification]
#[verifier::external_body]
pub struct ExJsonError(serde_json::Error);

/// A lower-case hexadecimal digit, for `d < 16`.
pub open spec fn hex_digit(d: nat) -> char {
    if d < 10 {
        (48 + d) as char
    } else {
        (87 + d) as char
    }
}

/// How serde_json writes one character inside a JSON string: `"` and `\`
/// escaped with a backslash; backspace, tab, line feed, form feed and
/// carriage return as `\b`, `\t`, `\n`, `\f`, `\r`; any other character
/// below U+0020 as `\u00` and two lower-case hex digits; everything else
/// as itself.
pub open spec fn json_escape_char(c: char) -> Seq<char> {
    if c == '"' {
        seq!['\\', '"']
    } else if c == '\\' {
        seq!['\\', '\\']
    } else if c == '\u{8}' {
        seq!['\\', 'b']
    } else if c == '\t' {
        seq!['\\', 't']
    } else if c == '\n' {
        seq!['\\', 'n']
    } else if c == '\u{c}' {
        seq!['\\', 'f']
    } else if c == '\r' {
        seq!['\\', 'r']
    } else if (c as nat) < 32 {
        seq!['\\', 'u', '0', '0', hex_digit((c as nat) / 16), hex_digit((c as nat) % 16)]
    } else {
        seq![c]
    }
}

/// The characters of `s`, each as serde_json writes it inside a string.
pub open spec fn json_escape(s: Seq<char>) -> Seq<char>
    decreases s.len(),
{
    if s.len() == 0 {
        Seq::empty()
    } else {
        json_escape(s.drop_last()) + json_escape_char(s.last())
    }
}

/// `s` as a JSON string: escaped, between double quotes.
pub open spec fn json_string(s: Seq<char>) -> Seq<char> {
    seq!['"'] + json_escape(s) + seq!['"']
}

/// What `serde_json::to_string` writes for a list of strings: the JSON array
/// of the strings, in order, separated by commas, with no white space.
pub open spec fn json_of_texts(items: Seq<Seq<char>>) -> Seq<char> {
    seq!['['] + join(items.map_values(|t: Seq<char>| json_string(t)), seq![',']) + seq![']']
}

/// `serde_json::to_string` on a list of strings.
///
/// Trusted: the call succeeds, and the text is the compact JSON array that
/// `json_of_texts` describes (serde_json's `CompactFormatter` and its escape
/// table). serde_json documents that serialization
/// fails only when a `Serialize` impl decides to fail or a map has non-string
/// keys; the impls for `Vec` and `String` never fail, and the writer that
/// `to_string` serializes into is an in-memory `Vec<u8>`, whose writes do not
/// fail either.
#[verifier::external_body]
fn encode_json_texts(items: &Vec<String>) -> (r: Result<String, serde_json::Error>)
    ensures
        r is Ok,
        r matches Ok(s) ==> s@ == json_of_texts(texts_of(items@)),
{
    serde_json::to_string(items)
}

/// The Modrinth address that returns the projects with the given ids.
pub open spec fn modrinth_projects_prefix() -> Seq<char> {
    "https://api.modrinth.com/v2/projects?ids="@
}

/// The Modrinth address that returns the members of the given teams.
pub open spec fn modrinth_teams_prefix() -> Seq<char> {
    "https://api.modrinth.com/v2/teams?ids="@
}

/// The Modrinth projects request for an already encoded list of ids.
pub fn projects_request(ids_json: &str) -> (r: String)
    ensures
        r@ == modrinth_projects_prefix() + ids_json@,
{
    let mut url = String::from_str("https://api.modrinth.com/v2/projects?ids=");
    url.append(ids_json);
    url
}

/// The Modrinth teams request for an already encoded list of team ids.
pub fn teams_request(ids_json: &str) -> (r: String)
    ensures
        r@ == modrinth_teams_prefix() + ids_json@,
{
    let mut url = String::from_str("https://api.modrinth.com/v2/teams?ids=");
    url.append(ids_json);
    url
}

/// The Modrinth request for the projects with the given ids: the JSON list
/// of the ids after the projects endpoint. Encoding a list of strings always
/// succeeds.
pub fn modrinth_projects_url(ids: &Vec<String>) -> (r: Result<String, EncodeError>)
    ensures
        r is Ok,
        r matches Ok(u) ==> u@ == modrinth_projects_prefix() + json_of_texts(texts_of(ids@)),
{
    match encode_json_texts(ids) {
        Ok(json) => Ok(projects_request(json.as_str())),
        Err(_) => Err(EncodeError),
    }
}

/// The Modrinth request for the members of the given teams: the JSON list of
/// the team ids after the teams endpoint. Encoding a list of strings always
/// succeeds.
pub fn modrinth_teams_url(ids: &Vec<String>) -> (r: Result<String, EncodeError>)
    ensures
        r is Ok,
        r matches Ok(u) ==> u@ == modrinth_teams_prefix() + json_of_texts(texts_of(ids@)),
{
    match encode_json_texts(ids) {
        Ok(json) => Ok(teams_request(json.as_str())),
        Err(_) => Err(EncodeError),
    }
}

/// The teams of the projects, in order.
pub open spec fn teams_of(projects: Seq<ModrinthProject>) -> Seq<Seq<char>> {
    projects.map_values(|p: ModrinthProject| p.team@)
}

/// `s` without repeats: each text where it first occurs.
pub open spec fn dedup(s: Seq<Seq<char>>) -> Seq<Seq<char>>
    decreases s.len(),
{
    if s.len() == 0 {
        s
    } else if dedup(s.drop_last()).contains(s.last()) {
        dedup(s.drop_last())
    } else {
        dedup(s.drop_last()).push(s.last())
    }
}

/// The distinct teams of the projects, in the order they first appear: the
/// teams whose members are requested.
pub fn distinct_teams(projects: &Vec<ModrinthProject>) -> (r: Vec<String>)
    ensures
        texts_of(r@) == dedup(teams_of(projects@)),
{
    let ghost ts = teams_of(projects@);
    let mut r: Vec<String> = Vec::new();
    let mut i: usize = 0;
    while i < projects.len()
        invariant
            i <= projects.len(),
            ts == teams_of(projects@),
            texts_of(r@) == dedup(ts.take(i as int)),
        decreases projects.len() - i,
    {
        let ghost pre = ts.take(i as int);
        let ghost cur = ts.take(i + 1);
        assert(cur.drop_last() =~= pre);
        assert(cur.last() == projects@[i as int].team@);
        match find_first(&r, &projects[i].team) {
            Some(j) => {
                assert(dedup(pre).contains(cur.last())) by {
                    assert(texts_of(r@)[j as int] == cur.last());
                }
            },
            None => {
                let ghost before = r@;
                r.push(projects[i].team.clone());
                assert(texts_of(r@) =~= texts_of(before).push(cur.last()));
            },
        }
        i = i + 1;
    }
    assert(ts.take(projects.len() as int) =~= ts);
    r
}

/// The members of `members` that belong to `team`, in order.
pub open spec fn members_of_team(members: Seq<ModrinthTeamMember>, team: Seq<char>) -> Seq<ModrinthTeamMember>
    decreases members.len(),
{
    if members.len() == 0 {
        members
    } else if members.last().team_id@ == team {
        members_of_team(members.drop_last(), team).push(members.last())
    } else {
        members_of_team(members.drop_last(), team)
    }
}

/// The members of `team` across all member lists, list by list.
pub open spec fn team_members_for(teams: Seq<Seq<ModrinthTeamMember>>, team: Seq<char>) -> Seq<
    ModrinthTeamMember,
>
    decreases teams.len(),
{
    if teams.len() == 0 {
        Seq::empty()
    } else {
        team_members_for(teams.drop_last(), team) + members_of_team(teams.last(), team)
    }
}

/// The member lists of a teams reply.
pub open spec fn member_lists(teams: Seq<Vec<ModrinthTeamMember>>) -> Seq<Seq<ModrinthTeamMember>> {
    teams.map_values(|t: Vec<ModrinthTeamMember>| t@)
}

/// `out` is `project` with the members of its team appended to its team
/// members.
pub open spec fn is_enriched(out: ModrinthProject, project: ModrinthProject, teams: Seq<Seq<ModrinthTeamMember>>) -> bool {
    &&& out.id == project.id
    &&& out.slug == project.slug
    &&& out.team == project.team
    &&& out.team_members@ == project.team_members@ + team_members_for(teams, project.team@)
    &&& out.icon_url == project.icon_url
    &&& out.source_url == project.source_url
    &&& out.title == project.title
    &&& out.description == project.description
}

/// The positions of the projects of `team`, in order.
pub open spec fn team_positions(projects: Seq<ModrinthProject>, team: Seq<char>) -> Seq<int>
    decreases projects.len(),
{
    if projects.len() == 0 {
        Seq::empty()
    } else if projects.last().team@ == team {
        team_positions(projects.drop_last(), team).push(projects.len() - 1)
    } else {
        team_positions(projects.drop_last(), team)
    }
}

/// The positions of the projects grouped by team, the groups in the order of
/// `order`.
pub open spec fn grouped_positions(projects: Seq<ModrinthProject>, order: Seq<Seq<char>>) -> Seq<int>
    decreases order.len(),
{
    if order.len() == 0 {
        Seq::empty()
    } else {
        grouped_positions(projects, order.drop_last()) + team_positions(projects, order.last())
    }
}

/// Every member of the teams reply belongs to the team of some project.
pub open spec fn members_known(projects: Seq<ModrinthProject>, teams: Seq<Seq<ModrinthTeamMember>>) -> bool {
    forall|i: int, j: int|
        0 <= i < teams.len() && 0 <= j < teams[i].len() ==> teams_of(projects).contains(
            #[trigger] teams[i][j].team_id@,
        )
}

/// `project` with the members of its team from `teams` appended.
fn enrich(project: &ModrinthProject, teams: &Vec<Vec<ModrinthTeamMember>>) -> (r: ModrinthProject)
    ensures
        is_enriched(r, *project, member_lists(teams@)),
{
    let ghost lists = member_lists(teams@);
    let ghost team = project.team@;
    let mut members = duplicate_members(&project.team_members);
    let mut t: usize = 0;
    while t < teams.len()
        invariant
            t <= teams.len(),
            lists == member_lists(teams@),
            team == project.team@,
            members@ == project.team_members@ + team_members_for(lists.take(t as int), team),
        decreases teams.len() - t,
    {
        let ghost base = members@;
        let list = &teams[t];
        assert(lists[t as int] == list@);
        let mut m: usize = 0;
        assert(list@.take(0) =~= Seq::<ModrinthTeamMember>::empty());
        while m < list.len()
            invariant
                m <= list.len(),
                team == project.team@,
                members@ == base + members_of_team(list@.take(m as int), team),
            decreases list.len() - m,
        {
            assert(list@.take(m + 1).drop_last() =~= list@.take(m as int));
            assert(list@.take(m + 1).last() == list@[m as int]);
            if list[m].team_id == project.team {
                members.push(list[m].duplicate());
            }
            m = m + 1;
        }
        assert(list@.take(list.len() as int) =~= list@);
        assert(lists.take(t + 1).drop_last() =~= lists.take(t as int));
        assert(lists.take(t + 1).last() == list@);
        t = t + 1;
    }
    assert(lists.take(teams.len() as int) =~= lists);
    ModrinthProject {
        id: project.id.clone(),
        slug: project.slug.clone(),
        team: project.team.clone(),
        team_members: members,
        icon_url: crate::object::duplicate_text(&project.icon_url),
        source_url: crate::object::duplicate_text(&project.source_url),
        title: project.title.clone(),
        description: project.description.clone(),
    }
}

/// Puts the replies of the two Modrinth requests together: each project gets
/// the members of its team appended to its team members, and the projects
/// are grouped by team, the teams in the order they first appear.
pub fn assemble_modrinth_projects(projects: &Vec<ModrinthProject>, teams: &Vec<Vec<ModrinthTeamMember>>) -> (r:
    Vec<ModrinthProject>)
    requires
        members_known(projects@, member_lists(teams@)),
    ensures
        ({
            let g = grouped_positions(projects@, dedup(teams_of(projects@)));
            &&& r.len() == g.len()
            &&& forall|k: int|
                0 <= k < r.len() ==> 0 <= g[k] < projects.len() && is_enriched(
                    #[trigger] r@[k],
                    projects@[g[k]],
                    member_lists(teams@),
                )
            &&& forall|k: int|
                0 <= k < r.len() ==> {
                    &&& (#[trigger] r@[k]).id == projects@[g[k]].id
                    &&& r@[k].slug == projects@[g[k]].slug
                    &&& r@[k].team == projects@[g[k]].team
                    &&& r@[k].title == projects@[g[k]].title
                    &&& r@[k].description == projects@[g[k]].description
                    &&& r@[k].icon_url == projects@[g[k]].icon_url
                    &&& r@[k].source_url == projects@[g[k]].source_url
                }
        }),
{
    let ghost lists = member_lists(teams@);
    let n = projects.len();
    let mut enriched: Vec<ModrinthProject> = Vec::new();
    let mut j: usize = 0;
    while j < n
        invariant
            n == projects.len(),
            j <= n,
            lists == member_lists(teams@),
            enriched.len() == j,
            forall|k: int| 0 <= k < j ==> is_enriched(#[trigger] enriched@[k], projects@[k], lists),
        decreases n - j,
    {
        enriched.push(enrich(&projects[j], teams));
        j = j + 1;
    }
    let order = distinct_teams(projects);
    let ghost ord = dedup(teams_of(projects@));
    let mut out: Vec<ModrinthProject> = Vec::new();
    let mut t: usize = 0;
    while t < order.len()
        invariant
            n == projects.len(),
            t <= order.len(),
            texts_of(order@) == ord,
            lists == member_lists(teams@),
            enriched.len() == n,
            forall|k: int| 0 <= k < n ==> is_enriched(#[trigger] enriched@[k], projects@[k], lists),
            out.len() == grouped_positions(projects@, ord.take(t as int)).len(),
            forall|k: int|
                0 <= k < out.len() ==> 0 <= (#[trigger] grouped_positions(projects@, ord.take(t as int))[k])
                    < n,
            forall|k: int|
                0 <= k < out.len() ==> is_enriched(
                    #[trigger] out@[k],
                    projects@[grouped_positions(projects@, ord.take(t as int))[k]],
                    lists,
                ),
        decreases order.len() - t,
    {
        let ghost done = grouped_positions(projects@, ord.take(t as int));
        let ghost team = ord[t as int];
        assert(texts_of(order@)[t as int] == order@[t as int]@);
        let mut q: usize = 0;
        assert(projects@.take(0) =~= Seq::<ModrinthProject>::empty());
        while q < n
            invariant
                n == projects.len(),
                q <= n,
                t < order.len(),
                team == order@[t as int]@,
                enriched.len() == n,
                forall|k: int| 0 <= k < n ==> is_enriched(#[trigger] enriched@[k], projects@[k], lists),
                out.len() == (done + team_positions(projects@.take(q as int), team)).len(),
                forall|k: int|
                    0 <= k < out.len() ==> 0 <= #[trigger] (done + team_positions(projects@.take(q as int), team))[k] < n,
                forall|k: int|
                    0 <= k < out.len() ==> is_enriched(
                        #[trigger] out@[k],
                        projects@[(done + team_positions(projects@.take(q as int), team))[k]],
                        lists,
                    ),
            decreases n - q,
        {
            let ghost before = out@;
            let ghost pos = done + team_positions(projects@.take(q as int), team);
            assert(projects@.take(q + 1).drop_last() =~= projects@.take(q as int));
            assert(projects@.take(q + 1).last() == projects@[q as int]);
            if projects[q].team == order[t] {
                out.push(enriched[q].duplicate());
                assert(done + team_positions(projects@.take(q + 1), team) =~= pos.push(q as int));
                assert forall|k: int| 0 <= k < out.len() implies is_enriched(
                    #[trigger] out@[k],
                    projects@[(done + team_positions(projects@.take(q + 1), team))[k]],
                    lists,
                ) by {
                    if k < before.len() {
                        assert(out@[k] == before[k]);
                    }
                }
            } else {
                assert(done + team_positions(projects@.take(q + 1), team) =~= pos);
            }
            q = q + 1;
        }
        assert(projects@.take(n as int) =~= projects@);
        assert(ord.take(t + 1).drop_last() =~= ord.take(t as int));
        assert(ord.take(t + 1).last() == team);
        t = t + 1;
    }
    assert(ord.take(order.len() as int) =~= ord);
    proof {
        let g = grouped_positions(projects@, ord);
        assert forall|k: int| 0 <= k < out.len() implies (#[trigger] out@[k]).description == projects@[g[k]].description by {
            law_assembled_project(out@[k], projects@[g[k]], lists);
        }
    }
    out
}


/// The positions of the projects of `team` are increasing, in range, all of
/// that team, and all there are.
proof fn lemma_team_positions(projects: Seq<ModrinthProject>, team: Seq<char>)
    ensures
        forall|k: int|
            0 <= k < team_positions(projects, team).len() ==> 0 <= #[trigger] team_positions(projects, team)[k]
                < projects.len() && projects[team_positions(projects, team)[k]].team@ == team,
        forall|a: int, b: int|
            0 <= a < b < team_positions(projects, team).len() ==> #[trigger] team_positions(projects, team)[a]
                < #[trigger] team_positions(projects, team)[b],
        forall|j: int|
            0 <= j < projects.len() && (#[trigger] projects[j]).team@ == team ==> team_positions(
                projects,
                team,
            ).contains(j),
    decreases projects.len(),
{
    if projects.len() > 0 {
        let dl = projects.drop_last();
        lemma_team_positions(dl, team);
        let tp = team_positions(dl, team);
        assert forall|j: int| 0 <= j < projects.len() && (#[trigger] projects[j]).team@ == team implies team_positions(
            projects,
            team,
        ).contains(j) by {
            if j < dl.len() {
                assert(dl[j] == projects[j]);
                let k = choose|k: int| 0 <= k < tp.len() && tp[k] == j;
                assert(team_positions(projects, team)[k] == j);
            } else {
                assert(team_positions(projects, team) == tp.push(j));
                assert(team_positions(projects, team)[tp.len() as int] == j);
            }
        }
        assert forall|k: int| 0 <= k < tp.len() implies projects[#[trigger] tp[k]].team@ == team by {
            assert(dl[tp[k]] == projects[tp[k]]);
        }
    }
}

/// Each text occurs in its dedup, and the dedup has no repeats.
proof fn lemma_dedup(s: Seq<Seq<char>>)
    ensures
        forall|i: int| 0 <= i < s.len() ==> dedup(s).contains(#[trigger] s[i]),
        dedup(s).no_duplicates(),
    decreases s.len(),
{
    if s.len() > 0 {
        let dl = s.drop_last();
        lemma_dedup(dl);
        let d = dedup(dl);
        assert forall|i: int| 0 <= i < s.len() implies dedup(s).contains(#[trigger] s[i]) by {
            if i < dl.len() {
                assert(dl[i] == s[i]);
                let k = choose|k: int| 0 <= k < d.len() && d[k] == s[i];
                if !d.contains(s.last()) {
                    assert(dedup(s)[k] == s[i]);
                }
            } else if !d.contains(s.last()) {
                assert(dedup(s)[d.len() as int] == s[i]);
            }
        }
    }
}

/// Grouping by an order of teams without repeats puts each position of a
/// project whose team is in the order exactly once.
proof fn lemma_grouped_positions(projects: Seq<ModrinthProject>, order: Seq<Seq<char>>)
    requires
        order.no_duplicates(),
    ensures
        forall|k: int|
            0 <= k < grouped_positions(projects, order).len() ==> 0 <= #[trigger] grouped_positions(projects, order)[k]
                < projects.len() && order.contains(projects[grouped_positions(projects, order)[k]].team@),
        grouped_positions(projects, order).no_duplicates(),
        forall|j: int|
            0 <= j < projects.len() && order.contains((#[trigger] projects[j]).team@) ==> grouped_positions(
                projects,
                order,
            ).contains(j),
    decreases order.len(),
{
    if order.len() > 0 {
        let od = order.drop_last();
        let t = order.last();
        assert(od.no_duplicates());
        lemma_grouped_positions(projects, od);
        lemma_team_positions(projects, t);
        let g = grouped_positions(projects, od);
        let tp = team_positions(projects, t);
        let all = grouped_positions(projects, order);
        assert(all == g + tp);
        assert(!od.contains(t)) by {
            if od.contains(t) {
                let q = choose|q: int| 0 <= q < od.len() && od[q] == t;
                assert(order[q] == order[order.len() - 1]);
            }
        }
        assert forall|k: int| 0 <= k < all.len() implies 0 <= #[trigger] all[k] < projects.len()
            && order.contains(projects[all[k]].team@) by {
            if k < g.len() {
                assert(all[k] == g[k]);
                let q = choose|q: int| 0 <= q < od.len() && od[q] == projects[g[k]].team@;
                assert(order[q] == od[q]);
            } else {
                assert(all[k] == tp[k - g.len()]);
                assert(order[order.len() - 1] == t);
            }
        }
        assert forall|a: int, b: int| 0 <= a < all.len() && 0 <= b < all.len() && a != b implies all[a]
            != all[b] by {
            if a < g.len() && b < g.len() {
                assert(all[a] == g[a] && all[b] == g[b]);
            } else if a >= g.len() && b >= g.len() {
                assert(all[a] == tp[a - g.len()] && all[b] == tp[b - g.len()]);
                if a < b {
                    assert(tp[a - g.len()] < tp[b - g.len()]);
                } else {
                    assert(tp[b - g.len()] < tp[a - g.len()]);
                }
            } else {
                let (x, y) = if a < g.len() {
                    (a, b)
                } else {
                    (b, a)
                };
                assert(all[x] == g[x]);
                assert(all[y] == tp[y - g.len()]);
                assert(projects[tp[y - g.len()]].team@ == t);
                if g[x] == tp[y - g.len()] {
                    assert(od.contains(projects[g[x]].team@));
                }
            }
        }
        assert forall|j: int| 0 <= j < projects.len() && order.contains((#[trigger] projects[j]).team@) implies all.contains(
            j,
        ) by {
            if projects[j].team@ == t {
                let k = choose|k: int| 0 <= k < tp.len() && tp[k] == j;
                assert(all[g.len() + k] == j);
            } else {
                let q = choose|q: int| 0 <= q < order.len() && order[q] == projects[j].team@;
                assert(q < od.len());
                assert(od[q] == order[q]);
                let k = choose|k: int| 0 <= k < g.len() && g[k] == j;
                assert(all[k] == j);
            }
        }
    }
}

/// Assembling the Modrinth reply neither drops nor repeats a project: the
/// positions it lists are each position of the received projects, once.
pub proof fn law_assembly_keeps_every_project(projects: Seq<ModrinthProject>)
    ensures
        ({
            let g = grouped_positions(projects, dedup(teams_of(projects)));
            &&& g.len() == projects.len()
            &&& g.no_duplicates()
            &&& forall|j: int| 0 <= j < projects.len() ==> #[trigger] g.contains(j)
            &&& forall|k: int| 0 <= k < g.len() ==> 0 <= #[trigger] g[k] < projects.len()
        }),
{
    let ts = teams_of(projects);
    let order = dedup(ts);
    lemma_dedup(ts);
    lemma_grouped_positions(projects, order);
    let g = grouped_positions(projects, order);
    let n = projects.len();
    assert forall|j: int| 0 <= j < n implies #[trigger] g.contains(j) by {
        assert(ts[j] == projects[j].team@);
        assert(order.contains(projects[j].team@));
    }
    let ids = Seq::new(n, |i: int| i);
    assert(ids.no_duplicates());
    g.unique_seq_to_set();
    ids.unique_seq_to_set();
    assert(g.to_set() =~= ids.to_set()) by {
        assert forall|x: int| g.to_set().contains(x) implies ids.to_set().contains(x) by {
            let k = choose|k: int| 0 <= k < g.len() && g[k] == x;
            assert(ids[x] == x);
        }
        assert forall|x: int| ids.to_set().contains(x) implies g.to_set().contains(x) by {
            let k = choose|k: int| 0 <= k < ids.len() && ids[k] == x;
            assert(g.contains(x));
        }
    }
}

/// A project remembered at some step is in the cache at the end.
proof fn lemma_remembered(cache: Map<Seq<char>, Project>, mods: Seq<PackMod>, projects: Seq<Project>, k: int)
    requires
        0 <= k < projects.len(),
    ensures
        remember_all(cache, mods, projects).contains_key(
            hashes_of(mods)[first_index(ids_of(mods), projects[k].id_view())],
        ),
    decreases projects.len(),
{
    if k < projects.len() - 1 {
        assert(projects.drop_last()[k] == projects[k]);
        lemma_remembered(cache, mods, projects.drop_last(), k);
    }
}

/// No text occurs twice.
pub open spec fn no_repeats(s: Seq<Seq<char>>) -> bool {
    forall|i: int, j: int| 0 <= i < j < s.len() ==> s[i] != s[j]
}

/// Caching avoids fetching again: once a project has been received for the
/// id of every mod of a store (the mods' ids being distinct), the cache holds
/// a project for every one of those mods' files, so the next lookup of the
/// same mods is served from the cache (see `modrinth_lookup` and
/// `curseforge_lookup`).
pub proof fn law_fetched_mods_are_cached(
    cache: Map<Seq<char>, Project>,
    mods: Seq<PackMod>,
    projects: Seq<Project>,
)
    requires
        no_repeats(ids_of(mods)),
        forall|j: int|
            0 <= j < mods.len() ==> exists|k: int|
                0 <= k < projects.len() && #[trigger] projects[k].id_view() == (#[trigger] mods[j]).id_view(),
    ensures
        all_cached(remember_all(cache, mods, projects), mods),
{
    assert forall|j: int| 0 <= j < mods.len() implies remember_all(cache, mods, projects).contains_key(
        #[trigger] mods[j].download.hash@,
    ) by {
        let k = choose|k: int| 0 <= k < projects.len() && #[trigger] projects[k].id_view() == mods[j].id_view();
        let ids = ids_of(mods);
        assert(ids[j] == mods[j].id_view());
        assert(is_first_index(ids, mods[j].id_view(), j)) by {
            assert forall|i: int| 0 <= i < j implies ids[i] != mods[j].id_view() by {
                assert(ids[i] != ids[j]);
            }
        }
        lemma_first_index(ids, mods[j].id_view(), j);
        lemma_remembered(cache, mods, projects, k);
        assert(hashes_of(mods)[j] == mods[j].download.hash@);
    }
}


/// A placeholder links to the CurseForge page of the mod's numeric
/// CurseForge project id (CurseForge redirects it to the real slug).
pub proof fn law_placeholder_links_numeric_id(project: Project, pack_mod: PackMod)
    requires
        is_placeholder_for(project, pack_mod),
        pack_mod.update.curseforge is Some,
    ensures
        project.title_view() == pack_mod.name@,
        project.id_view() == decimal(pack_mod.update.curseforge->0.project_id as nat),
        project.url_view() == curseforge_page_prefix() + decimal(pack_mod.update.curseforge->0.project_id as nat),
{
}

/// The mods looked up on Modrinth are exactly those that declare a Modrinth
/// source, in the pack's order (a mod with both sources included).
pub proof fn law_modrinth_selection(mods: Seq<PackMod>)
    ensures
        modrinth_mods(mods) == mods.filter(|m: PackMod| m.update.modrinth is Some),
    decreases mods.len(),
{
    reveal(Seq::filter);
    if mods.len() > 0 {
        law_modrinth_selection(mods.drop_last());
    }
}

/// The mods looked up on CurseForge are exactly those that declare a
/// CurseForge source, in the pack's order.
pub proof fn law_curseforge_selection(mods: Seq<PackMod>)
    ensures
        curseforge_mods(mods) == mods.filter(|m: PackMod| m.update.curseforge is Some),
    decreases mods.len(),
{
    reveal(Seq::filter);
    if mods.len() > 0 {
        law_curseforge_selection(mods.drop_last());
    }
}

/// The ids requested from CurseForge are, in the pack's order, the id of
/// every mod with a CurseForge source whose id reads as a `u32`, read as
/// that number; every other mod is left out.
pub proof fn law_curseforge_requests(mods: Seq<PackMod>)
    ensures
        numeric_ids(curseforge_mods(mods)) == mods.filter_map(
            |m: PackMod|
                if m.update.curseforge is Some {
                    parse_u32_spec(m.id_view())
                } else {
                    None
                },
        ),
    decreases mods.len(),
{
    if mods.len() > 0 {
        let dl = mods.drop_last();
        law_curseforge_requests(dl);
        let x = mods.last();
        let c = curseforge_mods(dl);
        if x.update.curseforge is Some {
            assert(curseforge_mods(mods) == c.push(x));
            assert(c.push(x).drop_last() =~= c);
            assert(c.push(x).last() == x);
            match parse_u32_spec(x.id_view()) {
                Some(v) => {
                    assert(numeric_ids(c).push(v) =~= numeric_ids(c) + seq![v]);
                },
                None => {},
            }
        }
    }
}

/// The members of one team among a list of members are its filter by team.
proof fn lemma_members_of_team(members: Seq<ModrinthTeamMember>, team: Seq<char>)
    ensures
        members_of_team(members, team) == members.filter(|m: ModrinthTeamMember| m.team_id@ == team),
    decreases members.len(),
{
    reveal(Seq::filter);
    if members.len() > 0 {
        lemma_members_of_team(members.drop_last(), team);
    }
}

/// The members of a team across the member lists are the flattened lists
/// filtered by team.
proof fn lemma_team_members_for(teams: Seq<Seq<ModrinthTeamMember>>, team: Seq<char>)
    ensures
        team_members_for(teams, team) == teams.flatten().filter(|m: ModrinthTeamMember| m.team_id@ == team),
    decreases teams.len(),
{
    let pred = |m: ModrinthTeamMember| m.team_id@ == team;
    teams.lemma_flatten_and_flatten_alt_are_equivalent();
    if teams.len() == 0 {
        reveal(Seq::filter);
        assert(teams.flatten_alt() =~= Seq::<ModrinthTeamMember>::empty());
        assert(Seq::<ModrinthTeamMember>::empty().filter(pred) =~= Seq::<ModrinthTeamMember>::empty());
    } else {
        let dl = teams.drop_last();
        lemma_team_members_for(dl, team);
        dl.lemma_flatten_and_flatten_alt_are_equivalent();
        lemma_members_of_team(teams.last(), team);
        Seq::filter_distributes_over_add(dl.flatten_alt(), teams.last(), pred);
        assert(teams.flatten_alt() == dl.flatten_alt() + teams.last());
    }
}

/// An assembled Modrinth project is the received project unchanged (id,
/// slug, team, icons, title, description) with, after its own team members,
/// every member of its team from the teams reply, in reply order.
pub proof fn law_assembled_project(out: ModrinthProject, project: ModrinthProject, teams: Seq<Seq<ModrinthTeamMember>>)
    requires
        is_enriched(out, project, teams),
    ensures
        out.id == project.id,
        out.slug == project.slug,
        out.team == project.team,
        out.icon_url == project.icon_url,
        out.source_url == project.source_url,
        out.title == project.title,
        out.description == project.description,
        out.team_members@ == project.team_members@ + teams.flatten().filter(
            |m: ModrinthTeamMember| m.team_id@ == project.team@,
        ),
{
    lemma_team_members_for(teams, project.team@);
    let t = project.team@;
    assert((|m: ModrinthTeamMember| m.team_id@ == t) =~= (|m: ModrinthTeamMember| m.team_id@ == project.team@));
}

/// `mods[j]` is the first mod of the list with its id.
pub open spec fn first_with_id(mods: Seq<PackMod>, j: int) -> bool {
    forall|i: int| 0 <= i < j ==> mods[i].id_view() != mods[j].id_view()
}

/// Each chosen mod is a mod of the list that no earlier mod shares its id
/// with.
proof fn lemma_firsts_are_first(mods: Seq<PackMod>)
    ensures
        forall|k: int|
            0 <= k < first_of_each_id(mods).len() ==> exists|j: int|
                0 <= j < mods.len() && mods[j] == #[trigger] first_of_each_id(mods)[k] && first_with_id(mods, j),
    decreases mods.len(),
{
    if mods.len() > 0 {
        let dl = mods.drop_last();
        lemma_firsts_are_first(dl);
        let f = first_of_each_id(dl);
        let x = mods.last();
        let n = mods.len() - 1;
        let r = first_of_each_id(mods);
        assert forall|k: int| 0 <= k < r.len() implies exists|j: int|
            0 <= j < mods.len() && mods[j] == #[trigger] r[k] && first_with_id(mods, j) by {
            if k < f.len() {
                assert(r[k] == f[k]);
                let j = choose|j: int| 0 <= j < dl.len() && dl[j] == #[trigger] f[k] && first_with_id(dl, j);
                assert(mods[j] == dl[j]);
                assert forall|i: int| 0 <= i < j implies mods[i].id_view() != mods[j].id_view() by {
                    assert(mods[i] == dl[i]);
                }
            } else {
                assert(!ids_of(dl).contains(x.id_view()));
                assert(r[k] == x);
                assert(mods[n] == x);
                assert forall|i: int| 0 <= i < n implies mods[i].id_view() != mods[n].id_view() by {
                    assert(mods[i] == dl[i]);
                    assert(ids_of(dl)[i] == dl[i].id_view());
                }
            }
        }
    }
}

/// Every mod's id is the id of some chosen mod.
proof fn lemma_firsts_cover(mods: Seq<PackMod>)
    ensures
        forall|j: int|
            0 <= j < mods.len() ==> ids_of(first_of_each_id(mods)).contains(#[trigger] mods[j].id_view()),
    decreases mods.len(),
{
    if mods.len() > 0 {
        let dl = mods.drop_last();
        lemma_firsts_cover(dl);
        let f = first_of_each_id(dl);
        let x = mods.last();
        let r = first_of_each_id(mods);
        assert forall|j: int| 0 <= j < mods.len() implies ids_of(r).contains(#[trigger] mods[j].id_view()) by {
            if j < dl.len() {
                assert(mods[j] == dl[j]);
                let k = choose|k: int| 0 <= k < ids_of(f).len() && ids_of(f)[k] == dl[j].id_view();
                assert(ids_of(r)[k] == ids_of(f)[k]) by {
                    assert(r[k] == f[k]);
                }
            } else if ids_of(dl).contains(x.id_view()) {
                let q = choose|q: int| 0 <= q < ids_of(dl).len() && ids_of(dl)[q] == x.id_view();
                assert(dl[q].id_view() == x.id_view());
                let k = choose|k: int| 0 <= k < ids_of(f).len() && ids_of(f)[k] == dl[q].id_view();
                assert(ids_of(r)[k] == ids_of(f)[k]);
            } else {
                assert(ids_of(r)[f.len() as int] == x.id_view());
            }
        }
    }
}

/// No two chosen mods share an id.
proof fn lemma_firsts_distinct(mods: Seq<PackMod>)
    ensures
        forall|a: int, b: int|
            0 <= a < b < first_of_each_id(mods).len() ==> (#[trigger] first_of_each_id(mods)[a]).id_view()
                != (#[trigger] first_of_each_id(mods)[b]).id_view(),
    decreases mods.len(),
{
    if mods.len() > 0 {
        let dl = mods.drop_last();
        lemma_firsts_distinct(dl);
        lemma_firsts_are_first(dl);
        let f = first_of_each_id(dl);
        let x = mods.last();
        let r = first_of_each_id(mods);
        if !ids_of(dl).contains(x.id_view()) {
            assert forall|a: int, b: int| 0 <= a < b < r.len() implies (#[trigger] r[a]).id_view()
                != (#[trigger] r[b]).id_view() by {
                assert(r[a] == f[a]);
                if b < f.len() {
                    assert(r[b] == f[b]);
                } else {
                    let j = choose|j: int| 0 <= j < dl.len() && dl[j] == #[trigger] f[a] && first_with_id(dl, j);
                    assert(ids_of(dl)[j] == dl[j].id_view());
                }
            }
        }
    }
}

/// The placeholder mods: one per distinct project id, each the first mod of
/// the list with its id, and every mod's id among them.
pub proof fn law_first_of_each_id(mods: Seq<PackMod>)
    ensures
        forall|a: int, b: int|
            0 <= a < b < first_of_each_id(mods).len() ==> (#[trigger] first_of_each_id(mods)[a]).id_view()
                != (#[trigger] first_of_each_id(mods)[b]).id_view(),
        forall|j: int|
            0 <= j < mods.len() ==> ids_of(first_of_each_id(mods)).contains(#[trigger] mods[j].id_view()),
        forall|k: int|
            0 <= k < first_of_each_id(mods).len() ==> exists|j: int|
                0 <= j < mods.len() && mods[j] == #[trigger] first_of_each_id(mods)[k] && forall|i: int|
                    0 <= i < j ==> mods[i].id_view() != mods[j].id_view(),
{
    lemma_firsts_distinct(mods);
    lemma_firsts_cover(mods);
    lemma_firsts_are_first(mods);
}

/// A mod's project id is its Modrinth id when it has a Modrinth source, and
/// its decimal CurseForge project id when it has only a CurseForge source.
pub proof fn law_mod_id_prefers_modrinth(pack_mod: PackMod)
    ensures
        pack_mod.update.modrinth matches Some(m) ==> pack_mod.id_view() == m.mod_id@,
        pack_mod.update.modrinth is None && pack_mod.update.curseforge is Some ==> pack_mod.id_view() == decimal(
            pack_mod.update.curseforge->0.project_id as nat,
        ),
{
}

} // verus!
