//! Flattening, compositing and metadata: the observable behaviour of
//! the render pipeline.

use kitbash::compose::composite_image;
use kitbash::doc::Document;
use kitbash::flatten::flatten_tree;
use kitbash::fx::{add_fx, dim_px, mul_fx, round_px, FX_ONE};
use kitbash::meta::{derive_metadata, metadata_json};
use kitbash::raster::{Color, Raster};
use kitbash::tree::{LayerGroup, LayerImage, LayerNode, Transform};

fn solid_image(w: u32, h: u32, rgba: [u8; 4]) -> Raster {
    let mut pixels = Vec::new();
    for _ in 0..(w * h) {
        pixels.extend_from_slice(&rgba);
    }
    Raster::from_parts(w, h, pixels).unwrap()
}

fn pixel(img: &Raster, x: u32, y: u32) -> [u8; 4] {
    let base = (4 * (y * img.width + x)) as usize;
    [img.pixels[base], img.pixels[base + 1], img.pixels[base + 2], img.pixels[base + 3]]
}

const TRANSPARENT: Color = Color { r: 0, g: 0, b: 0, a: 0 };

#[test]
fn fixed_point_arithmetic_rounds_half_away_from_zero() {
    assert_eq!(mul_fx(2000, 1500), 3000); // 2.0 × 1.5 == 3.0
    assert_eq!(mul_fx(1, 500), 1); // 0.0005 rounds up to 0.001
    assert_eq!(mul_fx(-1, 500), -1); // −0.0005 rounds away to −0.001
    assert_eq!(add_fx(1000, -250), 750);
    assert_eq!(round_px(1499), 1);
    assert_eq!(round_px(1500), 2);
    assert_eq!(round_px(-1500), -2);
    assert_eq!(dim_px(16, 500), 8);
    assert_eq!(dim_px(3, 100), 0); // 0.3 pixels round to none
}

#[test]
fn transform_composition_two_levels_deep() {
    // Parent group at (10, 10) scale 2.0, child group at (5, 5) scale
    // 1.5, part at (2, 2) scale 1.0: the absolute placement must be
    // (10 + 5·2, 10 + 5·2) + (2·2·1.5, 2·2·1.5) == (26, 26) at scale
    // 2.0 · 1.5 · 1.0 == 3.0.
    let part = LayerNode::Image(LayerImage {
        id: 2,
        name: "part".to_string(),
        image: solid_image(2, 2, [8, 8, 8, 255]),
        transform: Transform { dx: 2 * FX_ONE, dy: 2 * FX_ONE, scale: FX_ONE },
        visible: true,
    });
    let inner = LayerNode::Group(LayerGroup {
        id: 1,
        name: "inner".to_string(),
        children: vec![part],
        transform: Transform { dx: 5 * FX_ONE, dy: 5 * FX_ONE, scale: 1500 },
        visible: true,
    });
    let outer = LayerNode::Group(LayerGroup {
        id: 0,
        name: "outer".to_string(),
        children: vec![inner],
        transform: Transform { dx: 10 * FX_ONE, dy: 10 * FX_ONE, scale: 2 * FX_ONE },
        visible: true,
    });
    let tree = vec![outer];
    let items = flatten_tree(&tree);
    assert_eq!(items.len(), 1);
    assert_eq!(items[0].id, 2);
    assert_eq!(items[0].dx, 26 * FX_ONE);
    assert_eq!(items[0].dy, 26 * FX_ONE);
    assert_eq!(items[0].scale, 3 * FX_ONE);
}

#[test]
fn invisible_ancestor_hides_the_subtree() {
    let mut doc = Document::new();
    let g = doc.add_group("g".to_string()).unwrap();
    doc.select(Some(g));
    let part = doc.add_image("part".to_string(), solid_image(2, 2, [200, 0, 0, 255])).unwrap();
    doc.set_visible(g, false);
    // The part's own flag is still on, yet it must not be flattened.
    let items = flatten_tree(&doc.root_layers);
    assert!(items.iter().all(|it| it.id != part));
    assert_eq!(items.len(), 0);
    // And the composite stays pure background.
    let out = composite_image(4, 4, TRANSPARENT, &doc.root_layers);
    for y in 0..4 {
        for x in 0..4 {
            assert_eq!(pixel(&out, x, y), [0, 0, 0, 0]);
        }
    }
}

#[test]
fn later_opaque_part_occludes_earlier() {
    let mut doc = Document::new();
    let _red = doc.add_image("red".to_string(), solid_image(2, 2, [255, 0, 0, 255])).unwrap();
    let _blue = doc.add_image("blue".to_string(), solid_image(2, 2, [0, 0, 255, 255])).unwrap();
    let out = composite_image(2, 2, TRANSPARENT, &doc.root_layers);
    for y in 0..2 {
        for x in 0..2 {
            assert_eq!(pixel(&out, x, y), [0, 0, 255, 255], "the later part must win");
        }
    }
}

#[test]
fn composite_is_byte_identical_across_calls() {
    let mut doc = Document::new();
    doc.add_image("a".to_string(), solid_image(3, 2, [10, 20, 30, 128])).unwrap();
    let one = composite_image(8, 8, Color { r: 1, g: 2, b: 3, a: 4 }, &doc.root_layers);
    let two = composite_image(8, 8, Color { r: 1, g: 2, b: 3, a: 4 }, &doc.root_layers);
    assert_eq!(one.pixels, two.pixels);
}

#[test]
fn empty_tree_composites_to_background() {
    let doc = Document::new();
    let bg = Color { r: 7, g: 8, b: 9, a: 10 };
    let out = composite_image(3, 3, bg, &doc.root_layers);
    for y in 0..3 {
        for x in 0..3 {
            assert_eq!(pixel(&out, x, y), [7, 8, 9, 10]);
        }
    }
}

#[test]
fn degenerate_scale_is_flattened_but_paints_nothing() {
    let mut doc = Document::new();
    let part = doc.add_image("tiny".to_string(), solid_image(2, 2, [255, 255, 255, 255])).unwrap();
    // 2 pixels × 0.2 == 0.4 pixels, which rounds to zero.
    doc.set_transform(part, Transform { dx: 0, dy: 0, scale: 200 });
    let items = flatten_tree(&doc.root_layers);
    assert_eq!(items.len(), 1, "the part is still in the render list");
    assert_eq!(items[0].id, part);
    let out = composite_image(4, 4, TRANSPARENT, &doc.root_layers);
    for y in 0..4 {
        for x in 0..4 {
            assert_eq!(pixel(&out, x, y), [0, 0, 0, 0], "but it contributes no pixels");
        }
    }
}

#[test]
fn nearest_neighbour_scaling_and_placement() {
    let mut doc = Document::new();
    // A 2×1 image: left pixel red, right pixel green, scaled 2× and
    // placed at (1, 1): nearest-neighbour gives hard 2×2 blocks.
    let img = Raster::from_parts(
        2,
        1,
        vec![255, 0, 0, 255, 0, 255, 0, 255],
    ).unwrap();
    let part = doc.add_image("px".to_string(), img).unwrap();
    doc.set_transform(part, Transform { dx: FX_ONE, dy: FX_ONE, scale: 2 * FX_ONE });
    let out = composite_image(6, 4, TRANSPARENT, &doc.root_layers);
    assert_eq!(pixel(&out, 0, 0), [0, 0, 0, 0]);
    assert_eq!(pixel(&out, 1, 1), [255, 0, 0, 255]);
    assert_eq!(pixel(&out, 2, 2), [255, 0, 0, 255]);
    assert_eq!(pixel(&out, 3, 1), [0, 255, 0, 255]);
    assert_eq!(pixel(&out, 4, 2), [0, 255, 0, 255]);
    assert_eq!(pixel(&out, 5, 1), [0, 0, 0, 0]);
    assert_eq!(pixel(&out, 1, 3), [0, 0, 0, 0]);
}

#[test]
fn alpha_blending_over_background() {
    let mut doc = Document::new();
    // A half-transparent white part over an opaque black background.
    doc.add_image("half".to_string(), solid_image(1, 1, [255, 255, 255, 128])).unwrap();
    let out = composite_image(1, 1, Color { r: 0, g: 0, b: 0, a: 255 }, &doc.root_layers);
    let [r, g, b, a] = pixel(&out, 0, 0);
    assert_eq!(a, 255);
    assert_eq!((r, g, b), (128, 128, 128));
}

#[test]
fn parts_clip_at_the_canvas_edge() {
    let mut doc = Document::new();
    let part = doc.add_image("off".to_string(), solid_image(2, 2, [9, 9, 9, 255])).unwrap();
    doc.set_transform(part, Transform { dx: -FX_ONE, dy: -FX_ONE, scale: FX_ONE });
    let out = composite_image(2, 2, TRANSPARENT, &doc.root_layers);
    assert_eq!(pixel(&out, 0, 0), [9, 9, 9, 255]);
    assert_eq!(pixel(&out, 1, 0), [0, 0, 0, 0]);
    assert_eq!(pixel(&out, 0, 1), [0, 0, 0, 0]);
}

#[test]
fn metadata_matches_flatten_order_and_length() {
    let mut doc = Document::new();
    let g = doc.add_group("g".to_string()).unwrap();
    doc.select(Some(g));
    doc.add_image("deep".to_string(), solid_image(1, 1, [1, 1, 1, 255])).unwrap();
    doc.select(None);
    let hidden = doc.add_image("hidden".to_string(), solid_image(1, 1, [1, 1, 1, 255])).unwrap();
    doc.set_visible(hidden, false);
    doc.add_image("top".to_string(), solid_image(1, 1, [1, 1, 1, 255])).unwrap();
    doc.set_transform(g, Transform { dx: 3 * FX_ONE, dy: 0, scale: 2 * FX_ONE });
    let items = flatten_tree(&doc.root_layers);
    let records = derive_metadata(&doc.root_layers);
    assert_eq!(records.len(), items.len());
    assert_eq!(records.len(), 2, "only effectively visible parts are recorded");
    assert_eq!(records[0].name.as_str(), "deep");
    assert_eq!(records[0].scale, 2 * FX_ONE);
    assert_eq!(records[0].x, 3);
    assert_eq!(records[1].name.as_str(), "top");
    for (r, it) in records.iter().zip(items.iter()) {
        assert_eq!(r.scale, it.scale);
    }
}

#[test]
fn metadata_json_exact_bytes_for_one_record() {
    let mut doc = Document::new();
    let part = doc.add_image("hat".to_string(), solid_image(1, 1, [0, 0, 0, 255])).unwrap();
    doc.set_transform(part, Transform { dx: 2500, dy: -1000, scale: 1500 });
    let records = derive_metadata(&doc.root_layers);
    let json = metadata_json(&records);
    assert_eq!(
        String::from_utf8(json).unwrap(),
        r#"[{"name":"hat","scale":1.500,"offset":{"x":3,"y":-1}}]"#
    );
}

#[test]
fn metadata_json_escapes_names_and_parses_back() {
    let mut doc = Document::new();
    let name = "we\"ird\\name".to_string();
    let part = doc.add_image(name, solid_image(1, 1, [0, 0, 0, 255])).unwrap();
    doc.set_transform(part, Transform { dx: 0, dy: 0, scale: FX_ONE });
    let records = derive_metadata(&doc.root_layers);
    let json = metadata_json(&records);
    let text = String::from_utf8(json).unwrap();
    let parsed: serde_json::Value = serde_json::from_str(&text).unwrap();
    let arr = parsed.as_array().unwrap();
    assert_eq!(arr.len(), 1);
    assert_eq!(arr[0]["name"].as_str().unwrap(), "we\"ird\\name");
    assert_eq!(arr[0]["scale"].as_f64().unwrap(), 1.0);
    assert_eq!(arr[0]["offset"]["x"].as_i64().unwrap(), 0);
    assert_eq!(arr[0]["offset"]["y"].as_i64().unwrap(), 0);
}

#[test]
fn deleting_a_hidden_group_leaves_the_composite_unchanged() {
    let mut doc = Document::new();
    doc.add_image("base".to_string(), solid_image(2, 2, [40, 50, 60, 255])).unwrap();
    let g = doc.add_group("hidden".to_string()).unwrap();
    doc.select(Some(g));
    doc.add_image("inside".to_string(), solid_image(2, 2, [200, 0, 0, 255])).unwrap();
    doc.select(None);
    doc.set_visible(g, false);
    let before = composite_image(4, 4, TRANSPARENT, &doc.root_layers);
    assert!(doc.delete(g));
    let after = composite_image(4, 4, TRANSPARENT, &doc.root_layers);
    assert_eq!(before.pixels, after.pixels);
}

#[test]
fn deleting_a_degenerate_part_leaves_the_composite_unchanged() {
    let mut doc = Document::new();
    doc.add_image("base".to_string(), solid_image(2, 2, [40, 50, 60, 255])).unwrap();
    let tiny = doc.add_image("tiny".to_string(), solid_image(2, 2, [255, 255, 255, 255])).unwrap();
    doc.set_transform(tiny, Transform { dx: 0, dy: 0, scale: 200 });
    let before = composite_image(4, 4, TRANSPARENT, &doc.root_layers);
    assert!(doc.delete(tiny));
    let after = composite_image(4, 4, TRANSPARENT, &doc.root_layers);
    assert_eq!(before.pixels, after.pixels);
}

#[test]
fn add_image_succeeds_while_identifiers_remain() {
    let mut doc = Document::new();
    // The identifier counter is far from spent, so insertion is owed.
    assert!(doc.add_image("a".to_string(), solid_image(1, 1, [0, 0, 0, 0])).is_some());
    assert!(doc.add_group("g".to_string()).is_some());
    assert_eq!(doc.root_layers.len(), 2);
}
