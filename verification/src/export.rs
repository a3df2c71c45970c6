//! Export: the composited canvas as encoded PNG bytes, and the named
//! byte streams (merged image plus metadata document) that the
//! surrounding application packages for download. No archive format is
//! mandated here: packaging the streams is the application's business.

use vstd::prelude::*;
use crate::compose::{composite_image, composite_spec, paint_item, paint_one};
use crate::doc::Document;
use crate::flatten::{flat_forest, flatten_tree, items_view, lemma_flat_images_wf_from};
use crate::meta::{derive_metadata, metadata_json, metadata_json_of, metadata_spec};
use crate::raster::{fill, filled, Color, Raster};

verus! {

/// The PNG encoding of a raster of the given size and bytes. The
/// encoder is deterministic, so the encoding is a function of the
/// arguments alone; nothing further is assumed about its bytes.
pub uninterp spec fn png_of(width: u32, height: u32, pixels: Seq<u8>) -> Seq<u8>;

/// Relies on `image::RgbaImage::from_raw` and
/// `image::ImageBuffer::write_to` with `ImageFormat::Png`: encoding an
/// RGBA buffer of matching size to an in-memory writer is a pure,
/// deterministic function of the size and the pixel bytes, and cannot
/// fail for a non-empty buffer whose length is exactly
/// `4 · width · height`.
#[verifier::external_body]
fn encode_png(img: &Raster) -> (r: Vec<u8>)
    requires
        img@.wf(),
        1 <= img@.width,
        1 <= img@.height,
    ensures
        r@ == png_of(img.width, img.height, img.pixels@),
{
    let buffer = image::RgbaImage::from_raw(img.width, img.height, img.pixels.clone()).unwrap();
    let mut bytes: Vec<u8> = Vec::new();
    buffer.write_to(&mut std::io::Cursor::new(&mut bytes), image::ImageFormat::Png).unwrap();
    bytes
}

/// Composite the document and encode the canvas as PNG bytes.
pub fn export_png(doc: &Document) -> (r: Vec<u8>)
    requires
        doc.wf(),
    ensures
        r@ == png_of(
            doc.canvas_width,
            doc.canvas_height,
            composite_spec(
                doc.canvas_width as int,
                doc.canvas_height as int,
                doc.bg_color,
                doc.tree(),
            ),
        ),
{
    let merged = composite_image(
        doc.canvas_width,
        doc.canvas_height,
        doc.bg_color,
        &doc.root_layers,
    );
    encode_png(&merged)
}

/// One named byte stream of the export pack.
pub struct PackEntry {
    pub name: String,
    pub data: Vec<u8>,
}

/// Assemble the export pack: the merged canvas as `merged.png` and the
/// placement metadata document as `data.json`, as named byte streams
/// in that order, ready to be archived by the surrounding application.
pub fn export_pack(doc: &Document) -> (r: Vec<PackEntry>)
    requires
        doc.wf(),
    ensures
        r@.len() == 2,
        r@[0].name@ == "merged.png"@,
        r@[0].data@ == png_of(
            doc.canvas_width,
            doc.canvas_height,
            composite_spec(
                doc.canvas_width as int,
                doc.canvas_height as int,
                doc.bg_color,
                doc.tree(),
            ),
        ),
        r@[1].name@ == "data.json"@,
        r@[1].data@ == metadata_json_of(metadata_spec(flat_forest(doc.tree()))),
{
    let png = export_png(doc);
    let records = derive_metadata(&doc.root_layers);
    let json = metadata_json(&records);
    let mut out: Vec<PackEntry> = Vec::new();
    out.push(PackEntry { name: <String as vstd::string::StringExecFns>::from_str("merged.png"), data: png });
    out.push(PackEntry { name: <String as vstd::string::StringExecFns>::from_str("data.json"), data: json });
    out
}

/// One encoded raster per effectively visible part, in paint order:
/// each part drawn alone, at its absolute placement, onto a fully
/// transparent canvas of the document's size, named after the part.
pub fn export_part_images(doc: &Document) -> (r: Vec<PackEntry>)
    requires
        doc.wf(),
    ensures
        r@.len() == flat_forest(doc.tree()).len(),
        forall|k: int|
            0 <= k < r@.len() ==> {
                let it = flat_forest(doc.tree())[k];
                &&& (#[trigger] r@[k]).name@ == it.name + ".png"@
                &&& r@[k].data@ == png_of(
                    doc.canvas_width,
                    doc.canvas_height,
                    paint_item(
                        doc.canvas_width as int,
                        doc.canvas_height as int,
                        filled(
                            doc.canvas_width as int,
                            doc.canvas_height as int,
                            Color { r: 0, g: 0, b: 0, a: 0 },
                        ),
                        it,
                    ),
                )
            },
{
    let ghost fitems = flat_forest(doc.tree());
    let items = flatten_tree(&doc.root_layers);
    proof {
        lemma_flat_images_wf_from(doc.tree(), 0, 0, 0, crate::fx::FX_ONE as int);
    }
    let mut out: Vec<PackEntry> = Vec::new();
    let n = items.len();
    let mut k: usize = 0;
    while k < n
        invariant
            doc.wf(),
            n == items@.len(),
            0 <= k <= n,
            fitems == items_view(items@),
            fitems == flat_forest(doc.tree()),
            forall|j: int| 0 <= j < fitems.len() ==> (#[trigger] fitems[j]).image.wf(),
            out@.len() == k,
            forall|j: int|
                0 <= j < k ==> {
                    let it = fitems[j];
                    &&& (#[trigger] out@[j]).name@ == it.name + ".png"@
                    &&& out@[j].data@ == png_of(
                        doc.canvas_width,
                        doc.canvas_height,
                        paint_item(
                            doc.canvas_width as int,
                            doc.canvas_height as int,
                            filled(
                                doc.canvas_width as int,
                                doc.canvas_height as int,
                                Color { r: 0, g: 0, b: 0, a: 0 },
                            ),
                            it,
                        ),
                    )
                },
        decreases n - k,
    {
        let it = &items[k];
        proof {
            assert(it@ == fitems[k as int]);
        }
        let canvas = fill(doc.canvas_width, doc.canvas_height, Color { r: 0, g: 0, b: 0, a: 0 });
        let painted = paint_one(canvas, it);
        let data = encode_png(&painted);
        let name = vstd::string::StringExecFns::concat(it.name.clone(), ".png");
        out.push(PackEntry { name, data });
        k = k + 1;
    }
    out
}

} // verus!
