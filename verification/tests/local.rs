use std::io::{Cursor, Write};

use packwiz_modlist::local::{extract_metadata, parse_fabric_json, parse_forge_toml};

fn jar(files: &[(&str, &str)]) -> Vec<u8> {
    let mut writer = zip::ZipWriter::new(Cursor::new(Vec::new()));
    let options = zip::write::SimpleFileOptions::default()
        .compression_method(zip::CompressionMethod::Stored);
    for (name, content) in files {
        writer.start_file(*name, options).unwrap();
        writer.write_all(content.as_bytes()).unwrap();
    }
    writer.finish().unwrap().into_inner()
}

const FORGE: &str = r#"
modLoader = "javafml"
[[mods]]
modId = "examplemod"
displayName = "Example Mod"
version = "1.2.3"
authors = "Someone"
description = '''
  A mod for testing.
'''
[[mods]]
modId = "second"
"#;

const FABRIC: &str = r#"{
  "schemaVersion": 1,
  "id": "fabricmod",
  "name": "Fabric Mod",
  "version": "0.4.0",
  "description": "Does things",
  "authors": ["Ann", {"name": "Obj"}, "Bob"],
  "contact": {"homepage": "https://example.org"}
}"#;

#[test]
fn forge_metadata_is_read() {
    let p = parse_forge_toml(FORGE, "https://dl/x.jar").unwrap();
    assert_eq!(p.name, "Example Mod");
    assert_eq!(p.description, "A mod for testing.");
    assert_eq!(p.authors, "Someone");
    assert_eq!(p.version, "1.2.3");
    assert_eq!(p.url, "https://dl/x.jar");
}

#[test]
fn forge_name_falls_back_to_mod_id() {
    let p = parse_forge_toml("[[mods]]\nmodId = \"only\"\n", "u").unwrap();
    assert_eq!(p.name, "only");
    assert_eq!(p.description, "");
    assert_eq!(p.authors, "");
    assert_eq!(p.version, "");
}

#[test]
fn forge_needs_a_string_name() {
    assert!(parse_forge_toml("[[mods]]\ndisplayName = 3\nmodId = \"x\"\n", "u").is_none());
    assert!(parse_forge_toml("mods = []\n", "u").is_none());
    assert!(parse_forge_toml("mods = [1]\n", "u").is_none());
    assert!(parse_forge_toml("not toml = = =", "u").is_none());
}

#[test]
fn fabric_metadata_is_read() {
    let p = parse_fabric_json(FABRIC, "https://dl/y.jar").unwrap();
    assert_eq!(p.name, "Fabric Mod");
    assert_eq!(p.description, "Does things");
    assert_eq!(p.authors, "Ann, Bob");
    assert_eq!(p.version, "0.4.0");
    assert_eq!(p.url, "https://example.org");
}

#[test]
fn fabric_defaults() {
    let p = parse_fabric_json(r#"{"id": "x", "contact": {"sources": "s"}}"#, "https://dl").unwrap();
    assert_eq!(p.name, "x");
    assert_eq!(p.authors, "");
    assert_eq!(p.url, "https://dl");
    assert!(parse_fabric_json(r#"{"name": 5, "id": "x"}"#, "u").is_none());
    assert!(parse_fabric_json("[]", "u").is_none());
}

#[test]
fn jar_metadata_priority() {
    let both = jar(&[("fabric.mod.json", FABRIC), ("META-INF/mods.toml", FORGE)]);
    assert_eq!(extract_metadata(&both, "u").unwrap().name, "Example Mod");
    let neo = jar(&[
        ("META-INF/mods.toml", FORGE),
        ("META-INF/neoforge.mods.toml", "[[mods]]\nmodId = \"neo\"\n"),
    ]);
    assert_eq!(extract_metadata(&neo, "u").unwrap().name, "neo");
    let broken_forge = jar(&[("META-INF/mods.toml", "mods = 1"), ("fabric.mod.json", FABRIC)]);
    assert_eq!(extract_metadata(&broken_forge, "u").unwrap().name, "Fabric Mod");
    assert!(extract_metadata(&jar(&[("other.txt", "x")]), "u").is_none());
    assert!(extract_metadata(&b"not a zip".to_vec(), "u").is_none());
}

#[test]
fn forge_link_is_the_declared_homepage() {
    let p = parse_forge_toml(
        "[[mods]]\nmodId='examplemod'\ndisplayURL='https://example.org/ex'",
        "https://dl.example.org/ex.jar",
    )
    .unwrap();
    assert_eq!(p.url, "https://example.org/ex");
    let q = parse_forge_toml("[[mods]]\nmodId='m'\ndisplayURL=3", "https://dl/m.jar").unwrap();
    assert_eq!(q.url, "https://dl/m.jar");
}
