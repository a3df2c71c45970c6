//! Export: PNG encoding of the composite and the packaged byte streams.

use kitbash::doc::Document;
use kitbash::export::{export_pack, export_part_images, export_png};
use kitbash::raster::Raster;
use kitbash::tree::Transform;

fn solid_image(w: u32, h: u32, rgba: [u8; 4]) -> Raster {
    let mut pixels = Vec::new();
    for _ in 0..(w * h) {
        pixels.extend_from_slice(&rgba);
    }
    Raster::from_parts(w, h, pixels).unwrap()
}

#[test]
fn exported_png_is_really_png_encoded() {
    let mut doc = Document::new();
    doc.add_image("dot".to_string(), solid_image(1, 1, [12, 34, 56, 255])).unwrap();
    let bytes = export_png(&doc);
    // The encoder must have produced a PNG stream, not handed the raw
    // buffer back: check the signature and that a decode round-trips.
    assert_eq!(&bytes[..8], &[137, 80, 78, 71, 13, 10, 26, 10]);
    let decoded = image::load_from_memory(&bytes).unwrap().to_rgba8();
    assert_eq!(decoded.width(), 64);
    assert_eq!(decoded.height(), 64);
    assert_eq!(decoded.get_pixel(0, 0).0, [12, 34, 56, 255]);
    assert_eq!(decoded.get_pixel(1, 0).0, [0, 0, 0, 0]);
}

#[test]
fn export_pack_names_its_streams() {
    let mut doc = Document::new();
    doc.add_image("dot".to_string(), solid_image(1, 1, [1, 2, 3, 255])).unwrap();
    let entries = export_pack(&doc);
    assert_eq!(entries.len(), 2);
    assert_eq!(entries[0].name.as_str(), "merged.png");
    assert_eq!(&entries[0].data[..8], &[137, 80, 78, 71, 13, 10, 26, 10]);
    assert_eq!(entries[1].name.as_str(), "data.json");
    let parsed: serde_json::Value =
        serde_json::from_slice(&entries[1].data).unwrap();
    assert_eq!(parsed.as_array().unwrap().len(), 1);
    assert_eq!(parsed[0]["name"].as_str().unwrap(), "dot");
}

#[test]
fn export_png_is_deterministic() {
    let mut doc = Document::new();
    doc.add_image("dot".to_string(), solid_image(2, 2, [5, 6, 7, 200])).unwrap();
    assert_eq!(export_png(&doc), export_png(&doc));
}

#[test]
fn per_part_images_are_isolated_on_transparent_canvases() {
    let mut doc = Document::new();
    doc.add_image("left".to_string(), solid_image(1, 1, [255, 0, 0, 255])).unwrap();
    doc.add_image("right".to_string(), solid_image(1, 1, [0, 255, 0, 255])).unwrap();
    let right_id = 1;
    // Shift the second part so the two parts land on different pixels.
    assert!(doc.set_transform(right_id, Transform { dx: 2000, dy: 0, scale: 1000 }));
    let parts = export_part_images(&doc);
    assert_eq!(parts.len(), 2);
    assert_eq!(parts[0].name.as_str(), "left.png");
    assert_eq!(parts[1].name.as_str(), "right.png");
    let left = image::load_from_memory(&parts[0].data).unwrap().to_rgba8();
    assert_eq!((left.width(), left.height()), (64, 64));
    assert_eq!(left.get_pixel(0, 0).0, [255, 0, 0, 255]);
    assert_eq!(left.get_pixel(2, 0).0, [0, 0, 0, 0], "only its own part is painted");
    let right = image::load_from_memory(&parts[1].data).unwrap().to_rgba8();
    assert_eq!(right.get_pixel(2, 0).0, [0, 255, 0, 255]);
    assert_eq!(right.get_pixel(0, 0).0, [0, 0, 0, 0]);
}
