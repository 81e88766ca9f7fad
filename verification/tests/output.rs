use packwiz_modlist::object::{CurseForgeProject, ModrinthProject, Project};
use packwiz_modlist::output::{display_project, modlist_lines, project_order, SortingMode};

fn modrinth_project() -> Project {
    Project::Modrinth(ModrinthProject {
        id: "abc123".into(),
        slug: "sodium".into(),
        team: "team_abc".into(),
        team_members: Vec::new(),
        icon_url: None,
        source_url: None,
        title: "Sodium".into(),
        description: "A modern rendering engine".into(),
    })
}

fn listed(id: &str, slug: &str, title: &str) -> Project {
    Project::Modrinth(ModrinthProject {
        id: id.into(),
        slug: slug.into(),
        team: "t".into(),
        team_members: Vec::new(),
        icon_url: None,
        source_url: None,
        title: title.into(),
        description: String::new(),
    })
}

fn curse(id: u32, name: &str) -> Project {
    Project::CurseForge(CurseForgeProject {
        id,
        slug: name.to_lowercase(),
        name: name.into(),
        summary: String::new(),
        authors: Vec::new(),
        logo: None,
    })
}

#[test]
fn display_replaces_all_placeholders() {
    let project = modrinth_project();
    let out = display_project(
        0,
        "- [{INDEX}] {NAME} - {DESCRIPTION} ({URL}) [id={ID} slug={SLUG}]\n",
        &project,
    );

    assert_eq!(
        out,
        "- [0] Sodium - A modern rendering engine (https://modrinth.com/mod/abc123) [id=abc123 slug=sodium]\n"
    );
}

#[test]
fn display_uses_one_based_index() {
    let project = modrinth_project();
    assert_eq!(display_project(0, "{INDEX}", &project), "0");
    assert_eq!(display_project(1, "{INDEX}", &project), "1");
    assert_eq!(display_project(41, "{INDEX}", &project), "41");
}

#[test]
fn display_title_and_name_are_equivalent() {
    let project = modrinth_project();
    assert_eq!(
        display_project(0, "{NAME}|{TITLE}", &project),
        "Sodium|Sodium"
    );
}

#[test]
fn display_description_and_summary_are_equivalent() {
    let project = modrinth_project();
    assert_eq!(
        display_project(0, "{DESCRIPTION}|{SUMMARY}", &project),
        "A modern rendering engine|A modern rendering engine"
    );
}

#[test]
fn display_untouched_placeholders_remain() {
    let project = modrinth_project();
    assert_eq!(
        display_project(0, "{NAME} {UNKNOWN}", &project),
        "Sodium {UNKNOWN}"
    );
}

#[test]
fn display_expands_literal_backslash_n() {
    let project = modrinth_project();
    assert_eq!(
        display_project(0, "{NAME}\\n{URL}", &project),
        "Sodium\nhttps://modrinth.com/mod/abc123"
    );
}

#[test]
fn display_default_format() {
    let project = modrinth_project();
    assert_eq!(
        display_project(3, "- [{NAME}]({URL}) - {DESCRIPTION}\\n", &project),
        "- [Sodium](https://modrinth.com/mod/abc123) - A modern rendering engine\n"
    );
}

#[test]
fn display_each_placeholder_alone() {
    let project = curse(238222, "JEI");
    assert_eq!(display_project(7, "{INDEX}", &project), "7");
    assert_eq!(display_project(7, "{TITLE}", &project), "JEI");
    assert_eq!(display_project(7, "{ID}", &project), "238222");
    assert_eq!(display_project(7, "{SLUG}", &project), "jei");
    assert_eq!(
        display_project(7, "{URL}", &project),
        "https://www.curseforge.com/minecraft/mc-mods/jei"
    );
    assert_eq!(display_project(7, "\\n", &project), "\n");
    assert_eq!(display_project(7, "", &project), "");
}

#[test]
fn display_repeated_and_adjacent_placeholders() {
    let project = modrinth_project();
    assert_eq!(display_project(12, "{INDEX}{INDEX}-{INDEX", &project), "1212-{INDEX");
}

#[test]
fn display_values_are_expanded_again_by_later_steps() {
    // A title holding a later placeholder is expanded by the later step,
    // as sequential replacement does.
    let project = listed("the-id", "slug", "Has {ID} inside");
    assert_eq!(display_project(0, "{NAME}", &project), "Has the-id inside");
}

#[test]
fn display_large_index() {
    let project = modrinth_project();
    assert_eq!(display_project(1_000_000, "#{INDEX}", &project), "#1000000");
}

#[test]
fn order_without_sorting_keeps_list() {
    let ps = vec![listed("b", "b", "B"), listed("a", "a", "A")];
    assert_eq!(project_order(&ps, None, false), vec![0, 1]);
    assert_eq!(project_order(&ps, None, true), vec![1, 0]);
}

#[test]
fn order_by_name_ignores_case() {
    let ps = vec![listed("1", "x", "beta"), listed("2", "y", "Alpha"), listed("3", "z", "Gamma")];
    assert_eq!(project_order(&ps, Some(SortingMode::Name), false), vec![1, 0, 2]);
    assert_eq!(project_order(&ps, Some(SortingMode::Title), false), vec![1, 0, 2]);
    assert_eq!(project_order(&ps, Some(SortingMode::Name), true), vec![2, 0, 1]);
}

#[test]
fn order_by_slug_is_case_sensitive() {
    let ps = vec![listed("1", "b", "x"), listed("2", "B", "y"), listed("3", "a", "z")];
    assert_eq!(project_order(&ps, Some(SortingMode::Slug), false), vec![1, 2, 0]);
}

#[test]
fn order_by_id_compares_text() {
    let ps = vec![curse(9, "Nine"), curse(10, "Ten"), curse(100, "Hundred")];
    assert_eq!(project_order(&ps, Some(SortingMode::Id), false), vec![1, 2, 0]);
}

#[test]
fn order_is_stable_for_equal_keys() {
    let ps = vec![listed("1", "s", "Same"), listed("2", "t", "same"), listed("3", "u", "A")];
    assert_eq!(project_order(&ps, Some(SortingMode::Name), false), vec![2, 0, 1]);
    assert_eq!(project_order(&ps, Some(SortingMode::Name), true), vec![1, 0, 2]);
}

#[test]
fn modlist_lines_number_in_listing_order() {
    let ps = vec![listed("1", "b", "Beta"), listed("2", "a", "Alpha")];
    let lines = modlist_lines(&ps, "{INDEX}:{NAME}\\n", Some(SortingMode::Slug), false);
    assert_eq!(lines, vec!["0:Alpha\n".to_string(), "1:Beta\n".to_string()]);
    let lines = modlist_lines(&ps, "{INDEX}:{NAME};", None, true);
    assert_eq!(lines, vec!["0:Alpha;".to_string(), "1:Beta;".to_string()]);
}

#[test]
fn modlist_lines_of_nothing() {
    let lines = modlist_lines(&Vec::new(), "{NAME}", Some(SortingMode::Id), true);
    assert!(lines.is_empty());
}

#[test]
fn reverse_listing_is_opposite_order() {
    let ps = vec![
        listed("3", "c", "gamma"),
        listed("1", "a", "Alpha"),
        listed("2", "b", "alpha"),
        listed("4", "d", "Beta"),
    ];
    for mode in [None, Some(SortingMode::Name), Some(SortingMode::Slug), Some(SortingMode::Id)] {
        let forward = project_order(&ps, mode, false);
        let mut backward = project_order(&ps, mode, true);
        backward.reverse();
        assert_eq!(forward, backward);
        let mut seen = forward.clone();
        seen.sort();
        assert_eq!(seen, vec![0, 1, 2, 3]);
    }
}

#[test]
fn format_expands_piece_by_piece() {
    let project = curse(42, "Jei");
    assert_eq!(
        display_project(5, "#{INDEX} {TITLE}/{NAME}\\n{SUMMARY}{DESCRIPTION} <{URL}> {ID}:{SLUG}}", &project),
        format!(
            "#5 Jei/Jei\n{d}{d} <{u}> 42:{s}}}",
            d = project.description(),
            u = project.url(),
            s = project.slug()
        )
    );
}
