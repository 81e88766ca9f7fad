//! The packwiz pack model (`pack.toml` and the per-mod metadata files) and
//! the project records that the Modrinth and CurseForge APIs describe.

use vstd::prelude::*;

use crate::text::{decimal, decimal_string, law_decimal_round_trip, parse_u32_spec};

verus! {

/// The `pack.toml` of a packwiz project.
#[derive(Debug, Clone)]
pub struct Pack {
    pub name: String,
    pub author: String,
    pub version: String,
    pub pack_format: String,
    pub versions: PackVersions,
}

/// The loader and game versions a pack targets.
#[derive(Debug, Clone)]
pub struct PackVersions {
    pub fabric: Option<String>,
    pub forge: Option<String>,
    pub minecraft: String,
}

/// The mods of a pack, one per metadata file.
pub type PackMods = Vec<PackMod>;

/// One mod metadata file (`mods/*.toml`) of a packwiz project.
#[derive(Debug, Clone)]
pub struct PackMod {
    pub name: String,
    pub filename: String,
    pub side: String,
    pub download: PackModDownload,
    pub update: PackModUpdate,
}

/// Where the mod file comes from, and the hash it must have.
#[derive(Debug, Clone)]
pub struct PackModDownload {
    pub hash: String,
    pub hash_format: String,
}

/// The update sources a mod declares.
#[derive(Debug, Clone)]
pub struct PackModUpdate {
    pub curseforge: Option<PackModUpdateCurseforge>,
    pub modrinth: Option<PackModUpdateModrinth>,
}

/// The CurseForge file and project of a mod.
#[derive(Debug, Clone)]
pub struct PackModUpdateCurseforge {
    pub file_id: u32,
    pub project_id: u32,
}

/// The Modrinth project and version of a mod.
#[derive(Debug, Clone)]
pub struct PackModUpdateModrinth {
    pub mod_id: String,
    pub version: String,
}

impl PackMod {
    /// The mod declares a Modrinth or a CurseForge source.
    pub open spec fn has_source(&self) -> bool {
        self.update.modrinth is Some || self.update.curseforge is Some
    }

    /// The project id of the mod: the Modrinth id when the mod has a Modrinth
    /// source, else the decimal CurseForge project id.
    pub open spec fn id_view(&self) -> Seq<char> {
        match self.update.modrinth {
            Some(m) => m.mod_id@,
            None => match self.update.curseforge {
                Some(c) => decimal(c.project_id as nat),
                None => Seq::empty(),
            },
        }
    }

    /// The project id of the mod, preferring Modrinth over CurseForge.
    pub fn id(&self) -> (r: String)
        requires
            self.has_source(),
        ensures
            r@ == self.id_view(),
    {
        match &self.update.modrinth {
            Some(m) => m.mod_id.clone(),
            None => match &self.update.curseforge {
                Some(c) => decimal_string(c.project_id as u64),
                None => String::new(),
            },
        }
    }

    /// The hash of the mod file.
    pub fn hash(&self) -> (r: &String)
        ensures
            *r == self.download.hash,
    {
        &self.download.hash
    }
}

/// A CurseForge project as the CurseForge API describes it.
#[derive(Debug, Clone)]
pub struct CurseForgeProject {
    pub id: u32,
    pub slug: String,
    pub name: String,
    pub summary: String,
    pub authors: Vec<CurseForgeAuthor>,
    pub logo: Option<CurseForgeLogo>,
}

/// An author of a CurseForge project.
#[derive(Debug, Clone)]
pub struct CurseForgeAuthor {
    pub id: u32,
    pub name: String,
    pub url: String,
}

/// The logo of a CurseForge project.
#[derive(Debug, Clone)]
pub struct CurseForgeLogo {
    pub id: u32,
    pub mod_id: u32,
    pub title: String,
    pub thumbnail_url: String,
    pub url: String,
}

/// A Modrinth project as the Modrinth API describes it, with the members of
/// its team.
#[derive(Debug, Clone)]
pub struct ModrinthProject {
    pub id: String,
    pub slug: String,
    pub team: String,
    pub team_members: Vec<ModrinthTeamMember>,
    pub icon_url: Option<String>,
    pub source_url: Option<String>,
    pub title: String,
    pub description: String,
}

/// A member of a Modrinth team.
#[derive(Debug, Clone)]
pub struct ModrinthTeamMember {
    pub role: String,
    pub team_id: String,
    pub user: ModrinthTeamMemberUser,
}

/// The user behind a Modrinth team member.
#[derive(Debug, Clone)]
pub struct ModrinthTeamMemberUser {
    pub id: String,
    pub username: String,
    pub avatar_url: Option<String>,
    pub bio: Option<String>,
}

/// The resolved projects of a pack.
pub type Projects = Vec<Project>;

/// A project of either store.
#[derive(Debug, Clone)]
pub enum Project {
    CurseForge(CurseForgeProject),
    Modrinth(ModrinthProject),
}

impl From<CurseForgeProject> for Project {
    fn from(project: CurseForgeProject) -> (r: Self) {
        Project::CurseForge(project)
    }
}

impl vstd::std_specs::convert::FromSpecImpl<CurseForgeProject> for Project {
    open spec fn obeys_from_spec() -> bool {
        true
    }

    open spec fn from_spec(project: CurseForgeProject) -> Self {
        Project::CurseForge(project)
    }
}

impl From<ModrinthProject> for Project {
    fn from(project: ModrinthProject) -> (r: Self) {
        Project::Modrinth(project)
    }
}

impl vstd::std_specs::convert::FromSpecImpl<ModrinthProject> for Project {
    open spec fn obeys_from_spec() -> bool {
        true
    }

    open spec fn from_spec(project: ModrinthProject) -> Self {
        Project::Modrinth(project)
    }
}

/// The address of a CurseForge project page, before the slug.
pub open spec fn curseforge_page_prefix() -> Seq<char> {
    "https://www.curseforge.com/minecraft/mc-mods/"@
}

/// The address of a Modrinth project page, before the id.
pub open spec fn modrinth_page_prefix() -> Seq<char> {
    "https://modrinth.com/mod/"@
}

impl Project {
    /// The project page: CurseForge pages are addressed by slug, Modrinth
    /// pages by project id.
    pub open spec fn url_view(&self) -> Seq<char> {
        match self {
            Project::CurseForge(p) => curseforge_page_prefix() + p.slug@,
            Project::Modrinth(p) => modrinth_page_prefix() + p.id@,
        }
    }

    /// The project id (decimal for CurseForge).
    pub open spec fn id_view(&self) -> Seq<char> {
        match self {
            Project::CurseForge(p) => decimal(p.id as nat),
            Project::Modrinth(p) => p.id@,
        }
    }

    /// The project slug.
    pub open spec fn slug_view(&self) -> Seq<char> {
        match self {
            Project::CurseForge(p) => p.slug@,
            Project::Modrinth(p) => p.slug@,
        }
    }

    /// The project name (`name` on CurseForge, `title` on Modrinth).
    pub open spec fn title_view(&self) -> Seq<char> {
        match self {
            Project::CurseForge(p) => p.name@,
            Project::Modrinth(p) => p.title@,
        }
    }

    /// The project description (`summary` on CurseForge).
    pub open spec fn description_view(&self) -> Seq<char> {
        match self {
            Project::CurseForge(p) => p.summary@,
            Project::Modrinth(p) => p.description@,
        }
    }

    /// The address of the project page.
    pub fn url(&self) -> (r: String)
        ensures
            r@ == self.url_view(),
    {
        match self {
            Project::CurseForge(p) => {
                let mut s = String::from_str("https://www.curseforge.com/minecraft/mc-mods/");
                s.append(p.slug.as_str());
                s
            },
            Project::Modrinth(p) => {
                let mut s = String::from_str("https://modrinth.com/mod/");
                s.append(p.id.as_str());
                s
            },
        }
    }

    /// The project id.
    pub fn id(&self) -> (r: String)
        ensures
            r@ == self.id_view(),
    {
        match self {
            Project::CurseForge(p) => decimal_string(p.id as u64),
            Project::Modrinth(p) => p.id.clone(),
        }
    }

    /// The project slug.
    pub fn slug(&self) -> (r: String)
        ensures
            r@ == self.slug_view(),
    {
        match self {
            Project::CurseForge(p) => p.slug.clone(),
            Project::Modrinth(p) => p.slug.clone(),
        }
    }

    /// The project name.
    pub fn title(&self) -> (r: String)
        ensures
            r@ == self.title_view(),
    {
        match self {
            Project::CurseForge(p) => p.name.clone(),
            Project::Modrinth(p) => p.title.clone(),
        }
    }

    /// The project description.
    pub fn description(&self) -> (r: String)
        ensures
            r@ == self.description_view(),
    {
        match self {
            Project::CurseForge(p) => p.summary.clone(),
            Project::Modrinth(p) => p.description.clone(),
        }
    }
}

/// A CurseForge project's id reads back as its number, and it is the id of a
/// mod whose only source is that CurseForge project.
pub proof fn law_curseforge_ids_agree(project: CurseForgeProject, pack_mod: PackMod)
    requires
        pack_mod.update.modrinth is None,
        pack_mod.update.curseforge matches Some(c) && c.project_id == project.id,
    ensures
        parse_u32_spec(Project::CurseForge(project).id_view()) == Some(project.id),
        Project::CurseForge(project).id_view() == pack_mod.id_view(),
{
    law_decimal_round_trip(project.id);
}

/// Everything the modlist is made from.
#[derive(Debug, Clone)]
pub struct Data {
    pub pack: Pack,
    pub mods: PackMods,
    pub projects: Projects,
}

/// The body of a CurseForge "get mods" request.
#[derive(Debug, Clone)]
pub struct CurseforgeModIds {
    pub mod_ids: Vec<u32>,
}

/// The reply to a CurseForge "get mods" request.
#[derive(Debug, Clone)]
pub struct CurseforgeMods {
    pub data: Vec<CurseForgeProject>,
}


/// A copy of an optional text.
pub fn duplicate_text(s: &Option<String>) -> (r: Option<String>)
    ensures
        r == *s,
{
    match s {
        Some(t) => Some(t.clone()),
        None => None,
    }
}

impl CurseForgeAuthor {
    /// A field-by-field copy.
    pub fn duplicate(&self) -> (r: Self)
        ensures
            r == *self,
    {
        CurseForgeAuthor { id: self.id, name: self.name.clone(), url: self.url.clone() }
    }
}

impl CurseForgeLogo {
    /// A field-by-field copy.
    pub fn duplicate(&self) -> (r: Self)
        ensures
            r == *self,
    {
        CurseForgeLogo {
            id: self.id,
            mod_id: self.mod_id,
            title: self.title.clone(),
            thumbnail_url: self.thumbnail_url.clone(),
            url: self.url.clone(),
        }
    }
}

impl CurseForgeProject {
    /// Both records hold the same values, field by field.
    pub open spec fn equivalent(&self, other: &Self) -> bool {
        &&& self.id == other.id
        &&& self.slug == other.slug
        &&& self.name == other.name
        &&& self.summary == other.summary
        &&& self.authors@ == other.authors@
        &&& self.logo == other.logo
    }

    /// A field-by-field copy.
    pub fn duplicate(&self) -> (r: Self)
        ensures
            r.equivalent(self),
    {
        let mut authors: Vec<CurseForgeAuthor> = Vec::new();
        let mut i: usize = 0;
        while i < self.authors.len()
            invariant
                i <= self.authors.len(),
                authors@ == self.authors@.take(i as int),
            decreases self.authors.len() - i,
        {
            authors.push(self.authors[i].duplicate());
            i = i + 1;
            assert(authors@ =~= self.authors@.take(i as int));
        }
        assert(self.authors@.take(i as int) =~= self.authors@);
        let logo = match &self.logo {
            Some(l) => Some(l.duplicate()),
            None => None,
        };
        CurseForgeProject {
            id: self.id,
            slug: self.slug.clone(),
            name: self.name.clone(),
            summary: self.summary.clone(),
            authors,
            logo,
        }
    }
}

impl ModrinthTeamMemberUser {
    /// A field-by-field copy.
    pub fn duplicate(&self) -> (r: Self)
        ensures
            r == *self,
    {
        ModrinthTeamMemberUser {
            id: self.id.clone(),
            username: self.username.clone(),
            avatar_url: duplicate_text(&self.avatar_url),
            bio: duplicate_text(&self.bio),
        }
    }
}

impl ModrinthTeamMember {
    /// A field-by-field copy.
    pub fn duplicate(&self) -> (r: Self)
        ensures
            r == *self,
    {
        ModrinthTeamMember {
            role: self.role.clone(),
            team_id: self.team_id.clone(),
            user: self.user.duplicate(),
        }
    }
}

/// A copy of a list of team members.
pub fn duplicate_members(members: &Vec<ModrinthTeamMember>) -> (r: Vec<ModrinthTeamMember>)
    ensures
        r@ == members@,
{
    let mut out: Vec<ModrinthTeamMember> = Vec::new();
    let mut i: usize = 0;
    while i < members.len()
        invariant
            i <= members.len(),
            out@ == members@.take(i as int),
        decreases members.len() - i,
    {
        out.push(members[i].duplicate());
        i = i + 1;
        assert(out@ =~= members@.take(i as int));
    }
    assert(members@.take(i as int) =~= members@);
    out
}

impl ModrinthProject {
    /// Both records hold the same values, field by field.
    pub open spec fn equivalent(&self, other: &Self) -> bool {
        &&& self.id == other.id
        &&& self.slug == other.slug
        &&& self.team == other.team
        &&& self.team_members@ == other.team_members@
        &&& self.icon_url == other.icon_url
        &&& self.source_url == other.source_url
        &&& self.title == other.title
        &&& self.description == other.description
    }

    /// A field-by-field copy.
    pub fn duplicate(&self) -> (r: Self)
        ensures
            r.equivalent(self),
    {
        ModrinthProject {
            id: self.id.clone(),
            slug: self.slug.clone(),
            team: self.team.clone(),
            team_members: duplicate_members(&self.team_members),
            icon_url: duplicate_text(&self.icon_url),
            source_url: duplicate_text(&self.source_url),
            title: self.title.clone(),
            description: self.description.clone(),
        }
    }
}

impl Project {
    /// Both projects come from the same store and hold the same values.
    pub open spec fn equivalent(&self, other: &Self) -> bool {
        match (self, other) {
            (Project::CurseForge(a), Project::CurseForge(b)) => a.equivalent(b),
            (Project::Modrinth(a), Project::Modrinth(b)) => a.equivalent(b),
            _ => false,
        }
    }

    /// A field-by-field copy.
    pub fn duplicate(&self) -> (r: Self)
        ensures
            r.equivalent(self),
    {
        match self {
            Project::CurseForge(p) => Project::CurseForge(p.duplicate()),
            Project::Modrinth(p) => Project::Modrinth(p.duplicate()),
        }
    }
}

} // verus!
