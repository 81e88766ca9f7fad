use packwiz_modlist::cache::{Cache, CacheEntry};
use packwiz_modlist::object::{ModrinthProject, Project};

fn project(id: &str) -> Project {
    Project::Modrinth(ModrinthProject {
        id: id.into(),
        slug: format!("{id}-slug"),
        team: "t".into(),
        team_members: Vec::new(),
        icon_url: None,
        source_url: None,
        title: id.to_uppercase(),
        description: String::new(),
    })
}

#[test]
fn read_after_write() {
    let mut cache = Cache::new();
    cache.insert("h1".to_string(), project("a"));
    cache.insert("h2".to_string(), project("b"));
    cache.insert("h1".to_string(), project("c"));
    assert_eq!(cache.get(&"h1".to_string()).map(|p| p.id()), Some("c".to_string()));
    assert_eq!(cache.get(&"h2".to_string()).map(|p| p.id()), Some("b".to_string()));
    assert!(cache.get(&"h3".to_string()).is_none());
    assert_eq!(cache.entries().len(), 2);
}

#[test]
fn get_all_needs_every_hash() {
    let mut cache = Cache::new();
    cache.insert("h1".to_string(), project("a"));
    cache.insert("h2".to_string(), project("b"));
    let got = cache.get_all(&vec!["h2".to_string(), "h1".to_string()]).unwrap();
    assert_eq!(got.iter().map(|p| p.id()).collect::<Vec<_>>(), vec!["b", "a"]);
    assert!(cache.get_all(&vec!["h1".to_string(), "nope".to_string()]).is_none());
    assert_eq!(cache.get_all(&Vec::new()).map(|v| v.len()), Some(0));
}

#[test]
fn later_entries_win_when_loading() {
    let cache = Cache::from_entries(vec![
        CacheEntry { hash: "h".into(), project: project("old") },
        CacheEntry { hash: "h".into(), project: project("new") },
    ]);
    assert_eq!(cache.get(&"h".to_string()).map(|p| p.id()), Some("new".to_string()));
}
