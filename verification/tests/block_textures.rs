use game::block_textures::{
    build_layer_table, missing_texture_pixels, texture_paths, BlockTextureLayers,
};
use game::registry::{BlockDef, BlockId, BlockRegistry, TextureSpec};
use std::collections::BTreeMap;

fn def(id: u16, name: &str, textures: TextureSpec) -> BlockDef {
    BlockDef { id, name: name.to_string(), textures }
}

fn registry() -> BlockRegistry {
    BlockRegistry::from_defs(vec![
        def(0, "air", TextureSpec::Untextured),
        def(1, "dirt", TextureSpec::All("dirt.png".to_string())),
        def(
            2,
            "grass",
            TextureSpec::Faces {
                top: "grass_top.png".to_string(),
                side: "grass_side.png".to_string(),
                bottom: "dirt.png".to_string(),
            },
        ),
    ])
    .unwrap()
}

// Loads a distinct 16-pixel texture per known path, nothing otherwise.
fn loader(path: &str) -> Option<u32> {
    match path {
        "dirt.png" | "grass_top.png" | "grass_side.png" => Some(16),
        _ => None,
    }
}

/// The number of array layers (checkerboard plus every loaded file) and the
/// block map, as the renderer builds them.
fn build_layers(reg: &BlockRegistry) -> (usize, BlockTextureLayers) {
    let paths = texture_paths(reg);
    let loaded: Vec<Option<u32>> = paths.iter().map(|p| loader(p)).collect();
    let layers = 1 + loaded.iter().filter(|l| l.is_some()).count();
    let (map, size) = build_layer_table(reg, &loaded);
    assert_eq!(size, 16);
    (layers, map)
}

#[test]
fn layer_zero_is_missing_texture_and_air_is_absent() {
    let reg = registry();
    let (layers, map) = build_layers(&reg);
    assert!(layers >= 1, "must always have the fallback layer");
    assert!(map.get(BlockId::air()).is_none(), "air is never meshed/textured");
}

#[test]
fn all_spec_maps_three_equal_layers() {
    let reg = registry();
    let (_, map) = build_layers(&reg);
    let dirt = map.get(BlockId(1)).unwrap();
    assert_eq!(dirt[0], dirt[1]);
    assert_eq!(dirt[1], dirt[2]);
    assert!(dirt[0] >= 1, "real textures live at layers >= 1");
}

#[test]
fn faces_spec_maps_distinct_top_side_bottom_and_dedups_shared() {
    let reg = registry();
    let (_, map) = build_layers(&reg);
    let grass = map.get(BlockId(2)).unwrap();
    let dirt = map.get(BlockId(1)).unwrap();
    assert_ne!(grass[0], grass[1], "top != side");
    assert_ne!(grass[1], grass[2], "side != bottom");
    assert_eq!(grass[2], dirt[0], "grass bottom shares the dirt.png layer (dedup)");
}

#[test]
fn missing_texture_resolves_to_layer_zero() {
    let reg = BlockRegistry::from_defs(vec![
        def(0, "air", TextureSpec::Untextured),
        def(1, "ghost", TextureSpec::All("nope.png".to_string())),
    ])
    .unwrap();
    let (_, map) = build_layers(&reg);
    assert_eq!(map.get(BlockId(1)).unwrap(), [0, 0, 0], "unloadable texture falls back to layer 0");
}

#[test]
fn empty_registry_still_has_fallback_layer() {
    let reg = BlockRegistry::from_defs(vec![def(0, "air", TextureSpec::Untextured)]).unwrap();
    let (layers, map) = build_layers(&reg);
    assert_eq!(layers, 1, "just the checkerboard");
    assert!(map.0.is_empty());
}

#[test]
fn paths_are_listed_once_in_first_use_order() {
    let reg = registry();
    assert_eq!(texture_paths(&reg), vec!["dirt.png", "grass_top.png", "grass_side.png"]);
}

#[test]
fn layers_number_loaded_files_in_order() {
    let reg = registry();
    // grass_top fails to load: grass_side takes the next layer.
    let (map, size) = build_layer_table(&reg, &vec![Some(32), None, Some(32)]);
    assert_eq!(size, 32);
    assert_eq!(map.0, BTreeMap::from([(1u16, [1, 1, 1]), (2u16, [0, 2, 1])]));
    assert_eq!(map.get(BlockId(2)), Some([0, 2, 1]));
    let (_, size) = build_layer_table(&reg, &vec![None, None, None]);
    assert_eq!(size, 16);
}

#[test]
fn checkerboard_is_magenta_and_black_quarters() {
    let px = missing_texture_pixels(16);
    assert_eq!(px.len(), 256);
    let magenta = [255, 0, 255, 255];
    let black = [0, 0, 0, 255];
    assert_eq!(px[0], magenta);
    assert_eq!(px[3], magenta);
    assert_eq!(px[4], black);
    assert_eq!(px[4 * 16], black);
    assert_eq!(px[4 * 16 + 4], magenta);
    assert_eq!(px[15 * 16 + 15], magenta);
    // Tiny textures use one-pixel cells.
    assert_eq!(missing_texture_pixels(2), vec![magenta, black, black, magenta]);
    assert!(missing_texture_pixels(0).is_empty());
}
