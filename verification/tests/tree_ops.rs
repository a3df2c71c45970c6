//! Tree model: insertion, search, deletion, reorder, identifiers.

use kitbash::doc::Document;
use kitbash::raster::Raster;
use kitbash::tree::{find_layer, LayerNode, Transform};

fn solid_image(w: u32, h: u32, rgba: [u8; 4]) -> Raster {
    let mut pixels = Vec::new();
    for _ in 0..(w * h) {
        pixels.extend_from_slice(&rgba);
    }
    Raster::from_parts(w, h, pixels).unwrap()
}

fn doc_with_three_parts() -> (Document, u64, u64, u64) {
    let mut doc = Document::new();
    let a = doc.add_image("a".to_string(), solid_image(2, 2, [255, 0, 0, 255])).unwrap();
    let b = doc.add_image("b".to_string(), solid_image(2, 2, [0, 255, 0, 255])).unwrap();
    let c = doc.add_image("c".to_string(), solid_image(2, 2, [0, 0, 255, 255])).unwrap();
    (doc, a, b, c)
}

#[test]
fn fresh_document_is_empty() {
    let doc = Document::new();
    assert_eq!(doc.root_layers.len(), 0);
    assert_eq!(doc.canvas_width, 64);
    assert_eq!(doc.canvas_height, 64);
    assert_eq!(doc.next_id, 0);
}

#[test]
fn identifiers_are_minted_in_order() {
    let (doc, a, b, c) = doc_with_three_parts();
    assert_eq!((a, b, c), (0, 1, 2));
    assert_eq!(doc.next_id, 3);
}

#[test]
fn find_returns_first_match_and_none_for_stale_id() {
    let (doc, a, _, _) = doc_with_three_parts();
    let found = find_layer(&doc.root_layers, a).unwrap();
    assert_eq!(found.id(), a);
    assert_eq!(found.name().as_str(), "a");
    assert!(find_layer(&doc.root_layers, 99).is_none());
}

#[test]
fn insert_under_selected_group() {
    let mut doc = Document::new();
    let g = doc.add_group("folder".to_string()).unwrap();
    doc.select(Some(g));
    let p = doc.add_image("part".to_string(), solid_image(1, 1, [1, 2, 3, 4])).unwrap();
    assert_eq!(doc.root_layers.len(), 1);
    match &doc.root_layers[0] {
        LayerNode::Group(grp) => {
            assert_eq!(grp.children.len(), 1);
            assert_eq!(grp.children[0].id(), p);
        },
        LayerNode::Image(_) => panic!("expected a group at the root"),
    }
}

#[test]
fn insert_falls_back_to_root_when_selection_is_a_part() {
    let mut doc = Document::new();
    let a = doc.add_image("a".to_string(), solid_image(1, 1, [0, 0, 0, 0])).unwrap();
    doc.select(Some(a));
    let _b = doc.add_image("b".to_string(), solid_image(1, 1, [0, 0, 0, 0])).unwrap();
    assert_eq!(doc.root_layers.len(), 2);
}

#[test]
fn delete_leaf_reports_and_removes() {
    let (mut doc, a, b, c) = doc_with_three_parts();
    assert!(doc.delete(b));
    assert_eq!(doc.root_layers.len(), 2);
    assert!(find_layer(&doc.root_layers, b).is_none());
    assert!(find_layer(&doc.root_layers, a).is_some());
    assert!(find_layer(&doc.root_layers, c).is_some());
    assert!(!doc.delete(b));
}

#[test]
fn delete_group_removes_subtree() {
    let mut doc = Document::new();
    let g = doc.add_group("g".to_string()).unwrap();
    doc.select(Some(g));
    let p1 = doc.add_image("p1".to_string(), solid_image(1, 1, [9, 9, 9, 9])).unwrap();
    let p2 = doc.add_image("p2".to_string(), solid_image(1, 1, [9, 9, 9, 9])).unwrap();
    doc.select(None);
    let outside = doc.add_image("out".to_string(), solid_image(1, 1, [9, 9, 9, 9])).unwrap();
    assert!(doc.delete(g));
    assert!(find_layer(&doc.root_layers, g).is_none());
    assert!(find_layer(&doc.root_layers, p1).is_none());
    assert!(find_layer(&doc.root_layers, p2).is_none());
    assert!(find_layer(&doc.root_layers, outside).is_some());
    assert_eq!(doc.root_layers.len(), 1);
}

#[test]
fn delete_clears_matching_selection() {
    let (mut doc, a, _, _) = doc_with_three_parts();
    doc.select(Some(a));
    assert!(doc.delete(a));
    assert_eq!(doc.selected_layer_id, None);
}

#[test]
fn reorder_swaps_neighbours_and_rejects_the_ends() {
    let (mut doc, a, b, c) = doc_with_three_parts();
    // Moving the first layer up and the last layer down are no-ops.
    assert!(!doc.reorder_root(0, true));
    assert!(!doc.reorder_root(2, false));
    let order = |d: &Document| d.root_layers.iter().map(|n| n.id()).collect::<Vec<_>>();
    assert_eq!(order(&doc), vec![a, b, c]);
    assert!(doc.reorder_root(1, true));
    assert_eq!(order(&doc), vec![b, a, c]);
    assert!(doc.reorder_root(0, false));
    assert_eq!(order(&doc), vec![a, b, c]);
}

#[test]
fn reorder_inside_group() {
    let mut doc = Document::new();
    let g = doc.add_group("g".to_string()).unwrap();
    doc.select(Some(g));
    let p1 = doc.add_image("p1".to_string(), solid_image(1, 1, [0, 0, 0, 0])).unwrap();
    let p2 = doc.add_image("p2".to_string(), solid_image(1, 1, [0, 0, 0, 0])).unwrap();
    assert!(doc.reorder_in_group(g, 1, true));
    match &doc.root_layers[0] {
        LayerNode::Group(grp) => {
            assert_eq!(grp.children[0].id(), p2);
            assert_eq!(grp.children[1].id(), p1);
        },
        LayerNode::Image(_) => panic!("expected a group at the root"),
    }
}

#[test]
fn unique_ids_survive_an_operation_sequence() {
    let mut doc = Document::new();
    let g = doc.add_group("g".to_string()).unwrap();
    doc.select(Some(g));
    let _p1 = doc.add_image("p1".to_string(), solid_image(1, 1, [0, 0, 0, 0])).unwrap();
    doc.select(None);
    let p2 = doc.add_image("p2".to_string(), solid_image(1, 1, [0, 0, 0, 0])).unwrap();
    doc.reorder_root(1, true);
    doc.delete(p2);
    let _p3 = doc.add_image("p3".to_string(), solid_image(1, 1, [0, 0, 0, 0])).unwrap();
    let mut ids = Vec::new();
    fn collect(nodes: &Vec<LayerNode>, ids: &mut Vec<u64>) {
        for n in nodes {
            ids.push(n.id());
            if let LayerNode::Group(grp) = n {
                collect(&grp.children, ids);
            }
        }
    }
    collect(&doc.root_layers, &mut ids);
    let mut sorted = ids.clone();
    sorted.sort();
    sorted.dedup();
    assert_eq!(sorted.len(), ids.len(), "no identifier may repeat");
}

#[test]
fn visibility_and_transform_edits_land_on_the_right_node() {
    let (mut doc, a, b, _) = doc_with_three_parts();
    assert!(doc.set_visible(b, false));
    assert!(!doc.set_visible(42, false));
    let t = Transform { dx: 5000, dy: -2500, scale: 1500 };
    assert!(doc.set_transform(a, t));
    let node = find_layer(&doc.root_layers, a).unwrap();
    assert_eq!(node.transform(), t);
    let hidden = find_layer(&doc.root_layers, b).unwrap();
    assert!(!hidden.visible());
}

#[test]
fn canvas_size_is_checked() {
    let mut doc = Document::new();
    assert!(doc.set_canvas_size(128, 96));
    assert_eq!((doc.canvas_width, doc.canvas_height), (128, 96));
    assert!(!doc.set_canvas_size(0, 96));
    assert!(!doc.set_canvas_size(128, 40000));
    assert_eq!((doc.canvas_width, doc.canvas_height), (128, 96));
}

#[test]
fn raster_from_parts_checks_the_buffer() {
    assert!(Raster::from_parts(2, 2, vec![0; 16]).is_some());
    assert!(Raster::from_parts(2, 2, vec![0; 15]).is_none());
    assert!(Raster::from_parts(40000, 1, vec![0; 160000]).is_none());
}

#[test]
fn snap_to_pixel_rounds_the_offset_only() {
    let mut doc = Document::new();
    let a = doc.add_image("a".to_string(), solid_image(1, 1, [0, 0, 0, 0])).unwrap();
    doc.set_transform(a, Transform { dx: 2499, dy: -2500, scale: 1300 });
    assert!(doc.snap_to_pixel(a));
    let t = find_layer(&doc.root_layers, a).unwrap().transform();
    assert_eq!(t, Transform { dx: 2000, dy: -3000, scale: 1300 });
    assert!(!doc.snap_to_pixel(77));
}

#[test]
fn reset_transform_restores_the_identity() {
    let mut doc = Document::new();
    let a = doc.add_image("a".to_string(), solid_image(1, 1, [0, 0, 0, 0])).unwrap();
    doc.set_transform(a, Transform { dx: 5000, dy: 6000, scale: 250 });
    assert!(doc.reset_transform(a));
    let t = find_layer(&doc.root_layers, a).unwrap().transform();
    assert_eq!(t, Transform { dx: 0, dy: 0, scale: 1000 });
}

#[test]
fn nudge_shifts_the_offset_by_the_drag_delta() {
    let mut doc = Document::new();
    let a = doc.add_image("a".to_string(), solid_image(1, 1, [0, 0, 0, 0])).unwrap();
    doc.set_transform(a, Transform { dx: 1000, dy: 2000, scale: 1000 });
    assert!(doc.nudge(a, 250, -3000));
    let t = find_layer(&doc.root_layers, a).unwrap().transform();
    assert_eq!(t, Transform { dx: 1250, dy: -1000, scale: 1000 });
    assert!(!doc.nudge(123, 1, 1));
}
