use packwiz_modlist::cache::Cache;
use packwiz_modlist::data::{
    assemble_modrinth_projects, check_mods_dir, check_output_target, check_pack_dir,
    curseforge_finish, curseforge_lookup, distinct_teams, modrinth_finish, modrinth_lookup,
    modrinth_projects_url, modrinth_teams_url, placeholder_curseforge, projects_request,
    select_metadata_files, teams_request, Lookup,
};
use packwiz_modlist::error::ValidationError;
use packwiz_modlist::object::{
    CurseForgeProject, ModrinthProject, ModrinthTeamMember, ModrinthTeamMemberUser, PackMod,
    PackModDownload, PackModUpdate, PackModUpdateCurseforge, PackModUpdateModrinth, Project,
};

fn mod_of(name: &str, hash: &str, modrinth: Option<&str>, curseforge: Option<u32>) -> PackMod {
    PackMod {
        name: name.into(),
        filename: format!("{name}.jar"),
        side: "both".into(),
        download: PackModDownload { hash: hash.into(), hash_format: "sha256".into() },
        update: PackModUpdate {
            curseforge: curseforge.map(|id| PackModUpdateCurseforge { file_id: 1, project_id: id }),
            modrinth: modrinth.map(|id| PackModUpdateModrinth { mod_id: id.into(), version: "v".into() }),
        },
    }
}

fn modrinth(id: &str, team: &str) -> ModrinthProject {
    ModrinthProject {
        id: id.into(),
        slug: format!("{id}-slug"),
        team: team.into(),
        team_members: Vec::new(),
        icon_url: None,
        source_url: None,
        title: id.to_uppercase(),
        description: String::new(),
    }
}

fn member(team: &str, user: &str) -> ModrinthTeamMember {
    ModrinthTeamMember {
        role: "Owner".into(),
        team_id: team.into(),
        user: ModrinthTeamMemberUser { id: user.into(), username: user.into(), avatar_url: None, bio: None },
    }
}

fn curseforge(id: u32) -> CurseForgeProject {
    CurseForgeProject {
        id,
        slug: format!("slug{id}"),
        name: format!("Name {id}"),
        summary: String::new(),
        authors: Vec::new(),
        logo: None,
    }
}

#[test]
fn directory_checks_in_order() {
    assert!(matches!(check_mods_dir("m".into(), false, false), Err(ValidationError::DirNotExist(p)) if p == "m"));
    assert!(matches!(check_mods_dir("m".into(), true, false), Err(ValidationError::MustBeDir(p)) if p == "m"));
    assert!(check_mods_dir("m".into(), true, true).is_ok());
    assert!(matches!(check_pack_dir("p".into(), false, true, true), Err(ValidationError::DirNotExist(_))));
    assert!(matches!(check_pack_dir("p".into(), true, false, true), Err(ValidationError::MustBeDir(_))));
    assert!(matches!(check_pack_dir("p".into(), true, true, false), Err(ValidationError::PackNotFound(p)) if p == "p"));
    assert!(check_pack_dir("p".into(), true, true, true).is_ok());
}

#[test]
fn output_is_not_overwritten_unless_forced() {
    assert!(matches!(check_output_target("o.md".into(), true, false), Err(ValidationError::OutputAlreadyExits(p)) if p == "o.md"));
    assert!(check_output_target("o.md".into(), true, true).is_ok());
    assert!(check_output_target("o.md".into(), false, false).is_ok());
}

#[test]
fn metadata_files_are_toml_files() {
    let names = vec!["a.toml".to_string(), "b.jar".to_string(), ".toml".to_string(), "c.TOML".to_string(), "d.toml".to_string()];
    assert_eq!(select_metadata_files(&names), vec![0, 2, 4]);
}

#[test]
fn request_addresses_carry_json_ids() {
    let ids = vec!["AANobbMI".to_string(), "P7dR8mSH".to_string()];
    assert_eq!(
        modrinth_projects_url(&ids).unwrap(),
        "https://api.modrinth.com/v2/projects?ids=[\"AANobbMI\",\"P7dR8mSH\"]"
    );
    assert_eq!(modrinth_teams_url(&vec!["t\"1".to_string()]).unwrap(), "https://api.modrinth.com/v2/teams?ids=[\"t\\\"1\"]");
    assert_eq!(modrinth_teams_url(&Vec::new()).unwrap(), "https://api.modrinth.com/v2/teams?ids=[]");
}

#[test]
fn requests_append_encoded_ids() {
    assert_eq!(projects_request("[\"a\"]"), "https://api.modrinth.com/v2/projects?ids=[\"a\"]");
    assert_eq!(teams_request(""), "https://api.modrinth.com/v2/teams?ids=");
}

#[test]
fn placeholder_uses_numeric_id() {
    let p = placeholder_curseforge(&mod_of("Jei", "h", None, Some(238222)));
    assert_eq!(p.id(), "238222");
    assert_eq!(p.title(), "Jei");
    assert_eq!(p.url(), "https://www.curseforge.com/minecraft/mc-mods/238222");
    assert_eq!(
        p.description(),
        "CurseForge mod — API unavailable, shown as a placeholder. See the CurseForge project page."
    );
    let q = placeholder_curseforge(&mod_of("Both", "h", Some("abc"), Some(5)));
    assert_eq!(q.id(), "5");
    assert_eq!(q.url(), "https://www.curseforge.com/minecraft/mc-mods/5");
    let r = placeholder_curseforge(&mod_of("Modrinth only", "h", Some("abc"), None));
    assert_eq!(r.id(), "0");
}

#[test]
fn modrinth_flow_caches_by_file_hash() {
    let mods = vec![
        mod_of("a", "ha", Some("A"), None),
        mod_of("c", "hc", None, Some(3)),
        mod_of("b", "hb", Some("B"), None),
    ];
    let mut cache = Cache::new();
    let ids = match modrinth_lookup(&cache, &mods) {
        Lookup::Fetch(ids) => ids,
        Lookup::Cached(_) => panic!("empty cache cannot serve"),
    };
    assert_eq!(ids, vec!["A".to_string(), "B".to_string()]);
    let listed = modrinth_finish(&mut cache, &mods, vec![modrinth("B", "t"), modrinth("A", "t")]);
    assert_eq!(listed.iter().map(|p| p.id()).collect::<Vec<_>>(), vec!["B", "A"]);
    assert_eq!(cache.get(&"ha".to_string()).map(|p| p.id()), Some("A".to_string()));
    match modrinth_lookup(&cache, &mods) {
        Lookup::Cached(ps) => assert_eq!(ps.iter().map(|p| p.id()).collect::<Vec<_>>(), vec!["A", "B"]),
        Lookup::Fetch(_) => panic!("should be cached now"),
    }
}

#[test]
fn modrinth_repeated_id_is_cached_for_first_mod() {
    let mods = vec![mod_of("a", "h1", Some("A"), None), mod_of("a2", "h2", Some("A"), None)];
    let mut cache = Cache::new();
    modrinth_finish(&mut cache, &mods, vec![modrinth("A", "t")]);
    assert!(cache.get(&"h1".to_string()).is_some());
    assert!(cache.get(&"h2".to_string()).is_none());
    assert!(matches!(modrinth_lookup(&cache, &mods), Lookup::Fetch(ids) if ids.len() == 2));
}

#[test]
fn curseforge_lookup_requests_numeric_ids() {
    let mods = vec![
        mod_of("x", "hx", None, Some(12)),
        mod_of("y", "hy", Some("abc"), Some(13)),
        mod_of("z", "hz", Some("zz"), None),
    ];
    let cache = Cache::new();
    assert!(matches!(curseforge_lookup(&cache, &mods), Lookup::Fetch(ids) if ids == vec![12]));
    let only_named = vec![mod_of("y", "hy", Some("abc"), Some(13))];
    assert!(matches!(curseforge_lookup(&cache, &only_named), Lookup::Cached(ps) if ps.is_empty()));
}

#[test]
fn curseforge_success_is_cached() {
    let mods = vec![mod_of("x", "hx", None, Some(12)), mod_of("w", "hw", None, Some(40))];
    let mut cache = Cache::new();
    let (listed, fallback) = curseforge_finish(&mut cache, &mods, Some(vec![curseforge(40), curseforge(12)]));
    assert!(!fallback);
    assert_eq!(listed.iter().map(|p| p.id()).collect::<Vec<_>>(), vec!["40", "12"]);
    match curseforge_lookup(&cache, &mods) {
        Lookup::Cached(ps) => assert_eq!(ps.iter().map(|p| p.slug()).collect::<Vec<_>>(), vec!["slug12", "slug40"]),
        Lookup::Fetch(_) => panic!("should be cached"),
    }
}

#[test]
fn curseforge_failure_uses_placeholders() {
    let mods = vec![
        mod_of("x", "hx", None, Some(12)),
        mod_of("x again", "hx2", None, Some(12)),
        mod_of("y", "hy", Some("abc"), Some(13)),
        mod_of("z", "hz", Some("zz"), None),
    ];
    let mut cache = Cache::new();
    let (listed, fallback) = curseforge_finish(&mut cache, &mods, None);
    assert!(fallback);
    assert_eq!(listed.len(), 2);
    assert_eq!(listed[0].title(), "x");
    assert_eq!(listed[0].id(), "12");
    assert_eq!(listed[1].title(), "y");
    assert_eq!(listed[1].id(), "13");
    assert!(cache.entries().is_empty());
}

#[test]
fn teams_are_requested_once_each() {
    let ps = vec![modrinth("a", "t1"), modrinth("b", "t2"), modrinth("c", "t1")];
    assert_eq!(distinct_teams(&ps), vec!["t1".to_string(), "t2".to_string()]);
}

#[test]
fn team_members_are_attached_and_projects_grouped() {
    let ps = vec![modrinth("a", "t1"), modrinth("b", "t2"), modrinth("c", "t1")];
    let teams = vec![vec![member("t2", "bob")], vec![member("t1", "ann"), member("t1", "al")]];
    let out = assemble_modrinth_projects(&ps, &teams);
    assert_eq!(out.iter().map(|p| p.id.clone()).collect::<Vec<_>>(), vec!["a", "c", "b"]);
    let users = |p: &ModrinthProject| p.team_members.iter().map(|m| m.user.username.clone()).collect::<Vec<_>>();
    assert_eq!(users(&out[0]), vec!["ann", "al"]);
    assert_eq!(users(&out[1]), vec!["ann", "al"]);
    assert_eq!(users(&out[2]), vec!["bob"]);
    let as_project: Project = out[2].clone().into();
    assert_eq!(as_project.url(), "https://modrinth.com/mod/b");
}

#[test]
fn store_without_mods_needs_no_request() {
    let only_modrinth = vec![mod_of("z", "hz", Some("zz"), None)];
    let only_curseforge = vec![mod_of("x", "hx", None, Some(12))];
    let cache = Cache::new();
    assert!(matches!(curseforge_lookup(&cache, &only_modrinth), Lookup::Cached(ps) if ps.is_empty()));
    assert!(matches!(modrinth_lookup(&cache, &only_curseforge), Lookup::Cached(ps) if ps.is_empty()));
}

#[test]
fn request_ids_are_escaped_as_json() {
    let ids = vec!["a\u{1}\tb\\é\"".to_string(), "\u{8}\u{c}\n\r\u{1f}\u{7f}".to_string()];
    assert_eq!(
        modrinth_projects_url(&ids).unwrap(),
        "https://api.modrinth.com/v2/projects?ids=[\"a\\u0001\\tb\\\\é\\\"\",\"\\b\\f\\n\\r\\u001f\u{7f}\"]"
    );
}
