//! The project cache: resolved projects remembered by the hash of the mod
//! file they were resolved for, so that an unchanged mod is not looked up
//! again.

use vstd::prelude::*;

use crate::object::Project;

verus! {

/// One remembered project.
#[derive(Debug, Clone)]
pub struct CacheEntry {
    /// The hash of the mod file.
    pub hash: String,
    /// The project resolved for it.
    pub project: Project,
}

/// The projects remembered so far, keyed by mod file hash.
#[derive(Debug, Clone)]
pub struct Cache {
    entries: Vec<CacheEntry>,
}

/// The map that a list of entries describes: a later entry for a hash
/// replaces an earlier one.
pub open spec fn entries_map(s: Seq<CacheEntry>) -> Map<Seq<char>, Project>
    decreases s.len(),
{
    if s.len() == 0 {
        Map::empty()
    } else {
        entries_map(s.drop_last()).insert(s.last().hash@, s.last().project)
    }
}

/// Dropping an entry for `h` changes nothing once `h` is written anew.
proof fn lemma_remove_then_insert(s: Seq<CacheEntry>, k: int, h: Seq<char>, p: Project)
    requires
        0 <= k < s.len(),
        s[k].hash@ == h,
    ensures
        entries_map(s.remove(k)).insert(h, p) == entries_map(s).insert(h, p),
    decreases s.len(),
{
    let dl = s.drop_last();
    if k == s.len() - 1 {
        assert(s.remove(k) =~= dl);
        assert(entries_map(dl).insert(h, p) =~= entries_map(dl).insert(h, s.last().project).insert(h, p));
    } else {
        assert(s.remove(k) =~= dl.remove(k).push(s.last()));
        assert(s.remove(k).drop_last() =~= dl.remove(k));
        lemma_remove_then_insert(dl, k, h, p);
        let last = s.last();
        if last.hash@ == h {
            assert(entries_map(dl.remove(k)).insert(h, last.project).insert(h, p) =~= entries_map(
                dl.remove(k),
            ).insert(h, p));
            assert(entries_map(dl).insert(h, last.project).insert(h, p) =~= entries_map(dl).insert(h, p));
        } else {
            assert(entries_map(dl.remove(k)).insert(last.hash@, last.project).insert(h, p) =~= entries_map(
                dl.remove(k),
            ).insert(h, p).insert(last.hash@, last.project));
            assert(entries_map(dl).insert(last.hash@, last.project).insert(h, p) =~= entries_map(dl).insert(
                h,
                p,
            ).insert(last.hash@, last.project));
        }
    }
}

/// The last entry for `h` gives the project remembered for `h`.
proof fn lemma_last_entry_wins(s: Seq<CacheEntry>, k: int, h: Seq<char>)
    requires
        0 <= k < s.len(),
        s[k].hash@ == h,
        forall|j: int| k < j < s.len() ==> #[trigger] s[j].hash@ != h,
    ensures
        entries_map(s).contains_key(h),
        entries_map(s)[h] == s[k].project,
    decreases s.len(),
{
    if k < s.len() - 1 {
        let dl = s.drop_last();
        assert forall|j: int| k < j < dl.len() implies #[trigger] dl[j].hash@ != h by {
            assert(dl[j] == s[j]);
        }
        lemma_last_entry_wins(dl, k, h);
        assert(s.last() == s[s.len() - 1]);
    }
}

/// A hash without an entry is not remembered.
proof fn lemma_absent(s: Seq<CacheEntry>, h: Seq<char>)
    requires
        forall|j: int| 0 <= j < s.len() ==> #[trigger] s[j].hash@ != h,
    ensures
        !entries_map(s).contains_key(h),
    decreases s.len(),
{
    if s.len() > 0 {
        let dl = s.drop_last();
        assert forall|j: int| 0 <= j < dl.len() implies #[trigger] dl[j].hash@ != h by {
            assert(dl[j] == s[j]);
        }
        lemma_absent(dl, h);
        assert(s.last() == s[s.len() - 1]);
    }
}

impl View for Cache {
    type V = Map<Seq<char>, Project>;

    closed spec fn view(&self) -> Map<Seq<char>, Project> {
        entries_map(self.entries@)
    }
}

impl Cache {
    /// An empty cache.
    pub fn new() -> (r: Self)
        ensures
            r@ == Map::<Seq<char>, Project>::empty(),
    {
        Cache { entries: Vec::new() }
    }

    /// A cache holding `entries`, a later entry for a hash replacing an
    /// earlier one.
    pub fn from_entries(entries: Vec<CacheEntry>) -> (r: Self)
        ensures
            r@ == entries_map(entries@),
    {
        Cache { entries }
    }

    /// The entries of the cache; a later entry for a hash replaces an
    /// earlier one.
    pub fn entries(&self) -> (r: &Vec<CacheEntry>)
        ensures
            entries_map(r@) == self@,
    {
        &self.entries
    }

    /// The position of the entry that holds the project remembered for
    /// `hash`, if any.
    fn position(&self, hash: &String) -> (r: Option<usize>)
        ensures
            r is None ==> !self@.contains_key(hash@),
            r matches Some(k) ==> k < self.entries@.len() && self.entries@[k as int].hash@ == hash@
                && self@.contains_key(hash@) && self@[hash@] == self.entries@[k as int].project,
    {
        let mut j = self.entries.len();
        while j > 0
            invariant
                j <= self.entries.len(),
                forall|i: int| j <= i < self.entries@.len() ==> #[trigger] self.entries@[i].hash@ != hash@,
            decreases j,
        {
            if self.entries[j - 1].hash == *hash {
                proof {
                    lemma_last_entry_wins(self.entries@, j - 1, hash@);
                }
                return Some(j - 1);
            }
            j = j - 1;
        }
        proof {
            lemma_absent(self.entries@, hash@);
        }
        None
    }

    /// The project remembered for `hash`, if any.
    pub fn get(&self, hash: &String) -> (r: Option<&Project>)
        ensures
            r is Some == self@.contains_key(hash@),
            r matches Some(p) ==> *p == self@[hash@],
    {
        match self.position(hash) {
            Some(k) => Some(&self.entries[k].project),
            None => None,
        }
    }

    /// Copies of the projects remembered for every hash of `hashes`, in that
    /// order, when all of them are remembered.
    pub fn get_all(&self, hashes: &Vec<String>) -> (r: Option<Vec<Project>>)
        ensures
            r is Some == (forall|k: int| 0 <= k < hashes.len() ==> self@.contains_key(#[trigger] hashes@[k]@)),
            r matches Some(ps) ==> ps.len() == hashes.len() && forall|k: int|
                0 <= k < hashes.len() ==> #[trigger] ps@[k].equivalent(&self@[hashes@[k]@]),
    {
        let mut out: Vec<Project> = Vec::new();
        let mut i: usize = 0;
        while i < hashes.len()
            invariant
                i <= hashes.len(),
                out.len() == i,
                forall|k: int| 0 <= k < i ==> self@.contains_key(#[trigger] hashes@[k]@),
                forall|k: int| 0 <= k < i ==> #[trigger] out@[k].equivalent(&self@[hashes@[k]@]),
            decreases hashes.len() - i,
        {
            match self.get(&hashes[i]) {
                Some(p) => {
                    out.push(p.duplicate());
                },
                None => {
                    return None;
                },
            }
            i = i + 1;
        }
        Some(out)
    }

    /// Remembers `project` for `hash`, replacing what was remembered for it.
    pub fn insert(&mut self, hash: String, project: Project)
        ensures
            final(self)@ == old(self)@.insert(hash@, project),
    {
        let ghost h = hash@;
        match self.position(&hash) {
            Some(k) => {
                let ghost before = self.entries@;
                self.entries.remove(k);
                proof {
                    lemma_remove_then_insert(before, k as int, h, project);
                }
            },
            None => {},
        }
        let ghost mid = self.entries@;
        self.entries.push(CacheEntry { hash, project });
        assert(self.entries@.drop_last() =~= mid);
    }
}

} // verus!
