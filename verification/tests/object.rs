use packwiz_modlist::object::{
    CurseForgeProject, ModrinthProject, PackMod, PackModDownload, PackModUpdate,
    PackModUpdateCurseforge, PackModUpdateModrinth, Project,
};

fn modrinth_project() -> Project {
    Project::Modrinth(ModrinthProject {
        id: "abc123".into(),
        slug: "sodium".into(),
        team: "team_abc".into(),
        team_members: Vec::new(),
        icon_url: None,
        source_url: None,
        title: "Sodium".into(),
        description: "A modern rendering engine".into(),
    })
}

fn curseforge_project() -> Project {
    Project::CurseForge(CurseForgeProject {
        id: 238222,
        slug: "jei".into(),
        name: "Just Enough Items".into(),
        summary: "Item and recipe viewing mod".into(),
        authors: Vec::new(),
        logo: None,
    })
}

fn pack_mod(modrinth: Option<&str>, curseforge: Option<u32>) -> PackMod {
    PackMod {
        name: "Some Mod".into(),
        filename: "some-mod.jar".into(),
        side: "both".into(),
        download: PackModDownload { hash: "deadbeef".into(), hash_format: "sha1".into() },
        update: PackModUpdate {
            curseforge: curseforge.map(|id| PackModUpdateCurseforge { file_id: 1, project_id: id }),
            modrinth: modrinth.map(|id| PackModUpdateModrinth { mod_id: id.into(), version: "v1".into() }),
        },
    }
}

#[test]
fn modrinth_url_uses_project_id() {
    assert_eq!(modrinth_project().url(), "https://modrinth.com/mod/abc123");
}

#[test]
fn curseforge_url_uses_slug() {
    assert_eq!(
        curseforge_project().url(),
        "https://www.curseforge.com/minecraft/mc-mods/jei"
    );
}

#[test]
fn accessors_return_expected_values() {
    let m = modrinth_project();
    assert_eq!(m.id(), "abc123");
    assert_eq!(m.slug(), "sodium");
    assert_eq!(m.title(), "Sodium");
    assert_eq!(m.description(), "A modern rendering engine");

    let c = curseforge_project();
    assert_eq!(c.id(), "238222");
    assert_eq!(c.slug(), "jei");
    assert_eq!(c.title(), "Just Enough Items");
    assert_eq!(c.description(), "Item and recipe viewing mod");
}

#[test]
fn pack_mod_id_prefers_modrinth() {
    assert_eq!(pack_mod(Some("AANobbMI"), Some(394468)).id(), "AANobbMI");
    assert_eq!(pack_mod(None, Some(394468)).id(), "394468");
    assert_eq!(pack_mod(Some("xyz"), None).id(), "xyz");
}

#[test]
fn pack_mod_id_of_zero_project() {
    assert_eq!(pack_mod(None, Some(0)).id(), "0");
    assert_eq!(pack_mod(None, Some(u32::MAX)).id(), "4294967295");
}

#[test]
fn pack_mod_hash_is_download_hash() {
    assert_eq!(pack_mod(Some("x"), None).hash(), "deadbeef");
}

#[test]
fn project_from_store_records() {
    let p: Project = ModrinthProject {
        id: "id1".into(),
        slug: "s".into(),
        team: "t".into(),
        team_members: Vec::new(),
        icon_url: None,
        source_url: None,
        title: "T".into(),
        description: "D".into(),
    }
    .into();
    assert_eq!(p.url(), "https://modrinth.com/mod/id1");
    let c: Project = CurseForgeProject {
        id: 7,
        slug: "seven".into(),
        name: "Seven".into(),
        summary: "S".into(),
        authors: Vec::new(),
        logo: None,
    }
    .into();
    assert_eq!(c.id(), "7");
    assert_eq!(c.url(), "https://www.curseforge.com/minecraft/mc-mods/seven");
}

#[test]
fn duplicate_keeps_every_field() {
    let c = curseforge_project().duplicate();
    assert_eq!(c.title(), "Just Enough Items");
    assert_eq!(c.id(), "238222");
    let m = modrinth_project().duplicate();
    assert_eq!(m.url(), "https://modrinth.com/mod/abc123");
    assert_eq!(m.description(), "A modern rendering engine");
}

#[test]
fn curseforge_id_reads_back_and_matches_the_mod() {
    for id in [0u32, 7, 10, 238222, u32::MAX] {
        let project = curseforge_project_with_id(id);
        assert_eq!(project.id().parse::<u32>(), Ok(id));
        let pack_mod = PackMod {
            name: "m".into(),
            filename: "m.jar".into(),
            side: "both".into(),
            download: PackModDownload { hash: "h".into(), hash_format: "sha1".into() },
            update: PackModUpdate {
                curseforge: Some(PackModUpdateCurseforge { file_id: 1, project_id: id }),
                modrinth: None,
            },
        };
        assert_eq!(project.id(), pack_mod.id());
    }
}

fn curseforge_project_with_id(id: u32) -> Project {
    Project::CurseForge(CurseForgeProject {
        id,
        slug: "s".into(),
        name: "n".into(),
        summary: String::new(),
        authors: Vec::new(),
        logo: None,
    })
}
