use game::registry::{load_registry, BlockDef, BlockId, BlockRegistry, RegistryError, TextureSpec};

fn def(id: u16, name: &str, textures: TextureSpec) -> BlockDef {
    BlockDef { id, name: name.to_string(), textures }
}

fn all(file: &str) -> TextureSpec {
    TextureSpec::All(file.to_string())
}

/// The entries of a shipped-style manifest: air plus a few materials,
/// listed out of id order.
fn shipped_defs() -> Vec<BlockDef> {
    vec![
        def(0, "air", TextureSpec::Untextured),
        def(2, "stone", all("stone.png")),
        def(1, "dirt", all("dirt.png")),
        def(
            3,
            "grass",
            TextureSpec::Faces {
                top: "grass_top.png".to_string(),
                side: "grass_side.png".to_string(),
                bottom: "dirt.png".to_string(),
            },
        ),
    ]
}

#[test]
fn air_id_is_reserved_zero() {
    assert_eq!(BlockId::air(), BlockId(0));
    assert_eq!(BlockId::default(), BlockId::air());
}

#[test]
fn parses_shipped_manifest() {
    let reg = BlockRegistry::from_defs(shipped_defs()).expect("shipped manifest must parse");
    assert_eq!(reg.id_of("air"), Some(BlockId::air()));
    assert!(reg.id_of("dirt").is_some());
    assert!(reg.id_of("stone").is_some());
    assert_eq!(reg.def(BlockId::air()).unwrap().name, "air");
}

#[test]
fn iter_is_ascending_by_id() {
    let reg = BlockRegistry::from_defs(shipped_defs()).unwrap();
    let ids: Vec<u16> = reg.iter().iter().map(|(id, _)| id.0).collect();
    let mut sorted = ids.clone();
    sorted.sort_unstable();
    assert_eq!(ids, sorted, "iter must yield ascending ids");
    assert_eq!(ids, vec![0, 1, 2, 3]);
}

#[test]
fn parses_per_face_textures() {
    let defs = vec![
        def(0, "air", TextureSpec::Untextured),
        def(
            1,
            "grass",
            TextureSpec::Faces {
                top: "t.png".to_string(),
                side: "s.png".to_string(),
                bottom: "b.png".to_string(),
            },
        ),
    ];
    let reg = BlockRegistry::from_defs(defs).unwrap();
    let g = reg.def(reg.id_of("grass").unwrap()).unwrap();
    assert_eq!(
        g.textures,
        TextureSpec::Faces { top: "t.png".into(), side: "s.png".into(), bottom: "b.png".into() }
    );
}

#[test]
fn rejects_duplicate_id() {
    let defs = vec![def(0, "air", TextureSpec::Untextured), def(0, "dup", TextureSpec::Untextured)];
    assert!(matches!(BlockRegistry::from_defs(defs), Err(RegistryError::DuplicateId(0))));
}

#[test]
fn rejects_duplicate_name() {
    let defs = vec![def(0, "air", TextureSpec::Untextured), def(1, "air", all("x.png"))];
    assert!(matches!(BlockRegistry::from_defs(defs), Err(RegistryError::DuplicateName(_))));
}

#[test]
fn requires_air_at_zero() {
    let defs = vec![def(1, "dirt", all("dirt.png"))];
    assert!(matches!(BlockRegistry::from_defs(defs), Err(RegistryError::MissingAir)));
}

#[test]
fn rejects_misdefined_air() {
    let defs = vec![def(0, "stone", all("dirt.png"))];
    assert!(matches!(BlockRegistry::from_defs(defs), Err(RegistryError::BadAir)));
}

#[test]
fn first_clash_decides_the_error() {
    // The duplicate id comes first, the duplicate name later.
    let defs = vec![
        def(0, "air", TextureSpec::Untextured),
        def(5, "a", all("a.png")),
        def(5, "b", all("b.png")),
        def(6, "a", all("c.png")),
    ];
    assert!(matches!(BlockRegistry::from_defs(defs), Err(RegistryError::DuplicateId(5))));
    // An entry reusing both a name and an id reports the name.
    let defs = vec![def(0, "air", TextureSpec::Untextured), def(0, "air", all("x.png"))];
    match BlockRegistry::from_defs(defs) {
        Err(RegistryError::DuplicateName(n)) => assert_eq!(n, "air"),
        _ => panic!("expected a duplicate name"),
    }
}

#[test]
fn air_textured_is_bad_air() {
    let defs = vec![def(0, "air", all("air.png"))];
    assert!(matches!(BlockRegistry::from_defs(defs), Err(RegistryError::BadAir)));
}

#[test]
fn lookups_miss_cleanly() {
    let reg = BlockRegistry::from_defs(shipped_defs()).unwrap();
    assert_eq!(reg.id_of("lava"), None);
    assert!(reg.def(BlockId(9)).is_none());
    assert_eq!(reg.id_of("grass"), Some(BlockId(3)));
    assert_eq!(reg.def(BlockId(2)).unwrap().name, "stone");
    let empty = BlockRegistry::default();
    assert!(empty.iter().is_empty());
    assert_eq!(BlockRegistry::new().id_of("air"), None);
}

#[test]
fn load_registry_keeps_every_entry_in_id_order() {
    let reg = load_registry(shipped_defs());
    let names: Vec<String> = reg.iter().iter().map(|(_, d)| d.name.clone()).collect();
    assert_eq!(names, vec!["air", "dirt", "stone", "grass"]);
}
