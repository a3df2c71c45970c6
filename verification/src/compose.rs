//! Compositing: merge the flattened render list onto one background-
//! filled buffer, in paint order, with pixel-perfect placement.
//!
//! Each render-list entry is resampled to `round(size × scale)` pixels
//! with nearest-neighbour filtering (an extent that rounds to zero
//! skips the entry — a part scaled to invisibility contributes
//! nothing), placed at its absolute offset rounded to whole pixels,
//! clipped at the canvas bounds, and blended with straight alpha-over
//! compositing.

use vstd::prelude::*;
use crate::flatten::{
    flat_forest, flatten_tree, items_view, lemma_flat_images_wf_from, ItemV,
};
use crate::fx::{dim_px, lemma_px_round_bound, px_round, round_px, scaled_dim, MAX_DIM};
use crate::raster::{
    fill, filled, overlaid, overlay, resample, resampled, Color, Raster, RasterV,
};
use crate::tree::{forest_view, forest_wf_images, LayerNode, NodeV};

verus! {

/// One compositing step: the buffer after drawing one render-list
/// entry onto a `w × h` canvas, or the buffer unchanged when either
/// scaled extent rounds to zero.
pub open spec fn paint_item(w: int, h: int, buf: Seq<u8>, it: ItemV) -> Seq<u8> {
    let tw = scaled_dim(it.image.width, it.scale);
    let th = scaled_dim(it.image.height, it.scale);
    if tw == 0 || th == 0 {
        buf
    } else {
        overlaid(
            RasterV { width: w, height: h, pixels: buf },
            RasterV { width: tw, height: th, pixels: resampled(it.image, tw, th) },
            px_round(it.dx),
            px_round(it.dy),
        )
    }
}

/// The canvas after drawing the first `k` render-list entries over the
/// background color.
pub open spec fn composite_upto(w: int, h: int, bg: Color, items: Seq<ItemV>, k: int) -> Seq<u8>
    decreases k,
{
    if k <= 0 {
        filled(w, h, bg)
    } else {
        paint_item(w, h, composite_upto(w, h, bg, items, k - 1), items[k - 1])
    }
}

/// The fully composited canvas of a layer tree: background fill, then
/// every visible part in paint order.
pub open spec fn composite_spec(w: int, h: int, bg: Color, ns: Seq<NodeV>) -> Seq<u8> {
    composite_upto(w, h, bg, flat_forest(ns), flat_forest(ns).len() as int)
}

/// Draw one render-list entry onto the buffer: resample to the scaled
/// extents, place at the rounded absolute offset, blend alpha-over;
/// an entry whose scaled extent rounds to zero leaves the buffer as it
/// was.
pub fn paint_one(buffer: Raster, it: &crate::flatten::RenderItem) -> (r: Raster)
    requires
        buffer@.wf(),
        1 <= buffer@.width,
        1 <= buffer@.height,
        it.image@.wf(),
    ensures
        r@.wf(),
        r@.width == buffer@.width,
        r@.height == buffer@.height,
        r@.pixels == paint_item(buffer@.width, buffer@.height, buffer@.pixels, it@),
{
    let tw = dim_px(it.image.width, it.scale);
    let th = dim_px(it.image.height, it.scale);
    if tw != 0 && th != 0 {
        proof {
            assert(it.image@.width >= 1 && it.image@.height >= 1) by {
                assert(0 * (it.scale as int) == 0) by (nonlinear_arith);
                assert(scaled_dim(0, it.scale as int) == 0);
            }
            lemma_px_round_bound(it.dx as int);
            lemma_px_round_bound(it.dy as int);
        }
        let rs = resample(&it.image, tw, th);
        let px = round_px(it.dx);
        let py = round_px(it.dy);
        let merged = overlay(&buffer, &rs, px, py);
        proof {
            assert(merged@.wf()) by {
                assert(merged@.pixels.len() == buffer@.pixels.len());
            }
        }
        merged
    } else {
        buffer
    }
}

/// Composite the layer tree onto a `width × height` canvas filled with
/// `bg_color`. Total over any well-formed tree: an empty tree yields a
/// canvas of pure background color.
pub fn composite_image(width: u32, height: u32, bg_color: Color, layers: &Vec<LayerNode>) -> (r:
    Raster)
    requires
        1 <= width <= MAX_DIM,
        1 <= height <= MAX_DIM,
        forest_wf_images(forest_view(layers@)),
    ensures
        r@.wf(),
        r@.width == width as int,
        r@.height == height as int,
        r@.pixels == composite_spec(width as int, height as int, bg_color, forest_view(layers@)),
{
    let ghost vs = forest_view(layers@);
    let mut buffer = fill(width, height, bg_color);
    let items = flatten_tree(layers);
    let ghost fitems = items_view(items@);
    proof {
        lemma_flat_images_wf_from(vs, 0, 0, 0, crate::fx::FX_ONE as int);
    }
    let n = items.len();
    let mut k: usize = 0;
    while k < n
        invariant
            n == items@.len(),
            0 <= k <= n,
            fitems == items_view(items@),
            fitems == flat_forest(vs),
            forall|j: int| 0 <= j < fitems.len() ==> (#[trigger] fitems[j]).image.wf(),
            1 <= width <= MAX_DIM,
            1 <= height <= MAX_DIM,
            buffer@.wf(),
            buffer@.width == width as int,
            buffer@.height == height as int,
            buffer@.pixels == composite_upto(
                width as int,
                height as int,
                bg_color,
                fitems,
                k as int,
            ),
        decreases n - k,
    {
        let it = &items[k];
        proof {
            assert(it@ == fitems[k as int]);
        }
        buffer = paint_one(buffer, it);
        proof {
            assert(composite_upto(
                width as int,
                height as int,
                bg_color,
                fitems,
                k as int + 1,
            ) == paint_item(
                width as int,
                height as int,
                composite_upto(width as int, height as int, bg_color, fitems, k as int),
                fitems[k as int],
            ));
        }
        k = k + 1;
    }
    buffer
}

} // verus!

// Laws of the compositor.

verus! {

use crate::raster::{color_of, lemma_over_opaque, lemma_pix_index, over};

/// Compositing is a function of the canvas, the background and the
/// tree alone: two runs over the same inputs yield byte-identical
/// buffers.
pub proof fn lemma_composite_idempotent(
    w: int,
    h: int,
    bg: Color,
    ns: Seq<NodeV>,
    b1: Seq<u8>,
    b2: Seq<u8>,
)
    requires
        b1 == composite_spec(w, h, bg, ns),
        b2 == composite_spec(w, h, bg, ns),
    ensures
        b1 == b2,
{
}

/// The composite sees the tree only through its render list: trees
/// that flatten alike — for instance with and without a subtree that
/// an invisible ancestor hides — composite to the same bytes.
pub proof fn lemma_composite_of_render_list(
    w: int,
    h: int,
    bg: Color,
    ns1: Seq<NodeV>,
    ns2: Seq<NodeV>,
)
    requires
        flat_forest(ns1) == flat_forest(ns2),
    ensures
        composite_spec(w, h, bg, ns1) == composite_spec(w, h, bg, ns2),
{
}

/// A render-list entry whose scaled width or height rounds to zero
/// contributes nothing: the canvas is unchanged by its step.
pub proof fn lemma_degenerate_scale(w: int, h: int, bg: Color, items: Seq<ItemV>, k: int)
    requires
        0 <= k < items.len(),
        scaled_dim(items[k].image.width, items[k].scale) == 0 || scaled_dim(
            items[k].image.height,
            items[k].scale,
        ) == 0,
    ensures
        composite_upto(w, h, bg, items, k + 1) == composite_upto(w, h, bg, items, k),
{
}

/// The composited canvas always holds exactly `4·w·h` bytes.
pub proof fn lemma_composite_len(w: int, h: int, bg: Color, items: Seq<ItemV>, k: int)
    requires
        0 <= w,
        0 <= h,
    ensures
        composite_upto(w, h, bg, items, k).len() == 4 * (w * h),
    decreases k,
{
    assert(0 <= w * h) by (nonlinear_arith)
        requires
            0 <= w,
            0 <= h,
    ;
    if k > 0 {
        lemma_composite_len(w, h, bg, items, k - 1);
    }
}

/// Paint order: where the entry latest in the render list lands a
/// fully opaque pixel inside the canvas, the finished composite shows
/// exactly that pixel, whatever was painted below it.
#[verifier::rlimit(50)]
pub proof fn lemma_opaque_top_pixel(
    w: int,
    h: int,
    bg: Color,
    items: Seq<ItemV>,
    x: int,
    y: int,
)
    requires
        items.len() > 0,
        0 < w <= MAX_DIM as int,
        0 < h <= MAX_DIM as int,
        0 <= x < w,
        0 <= y < h,
        ({
            let it = items.last();
            let tw = scaled_dim(it.image.width, it.scale);
            let th = scaled_dim(it.image.height, it.scale);
            let px = px_round(it.dx);
            let py = px_round(it.dy);
            &&& tw >= 1
            &&& th >= 1
            &&& px <= x < px + tw
            &&& py <= y < py + th
            &&& color_of(
                RasterV { width: tw, height: th, pixels: resampled(it.image, tw, th) },
                x - px,
                y - py,
            ).a == 255
        }),
    ensures
        ({
            let it = items.last();
            let tw = scaled_dim(it.image.width, it.scale);
            let th = scaled_dim(it.image.height, it.scale);
            let rs = RasterV { width: tw, height: th, pixels: resampled(it.image, tw, th) };
            color_of(
                RasterV {
                    width: w,
                    height: h,
                    pixels: composite_upto(w, h, bg, items, items.len() as int),
                },
                x,
                y,
            ) == color_of(rs, x - px_round(it.dx), y - px_round(it.dy))
        }),
{
    let n = items.len() as int;
    let it = items.last();
    let tw = scaled_dim(it.image.width, it.scale);
    let th = scaled_dim(it.image.height, it.scale);
    let px = px_round(it.dx);
    let py = px_round(it.dy);
    let rs = RasterV { width: tw, height: th, pixels: resampled(it.image, tw, th) };
    let prev = composite_upto(w, h, bg, items, n - 1);
    lemma_composite_len(w, h, bg, items, n - 1);
    let dstv = RasterV { width: w, height: h, pixels: prev };
    let fin = composite_upto(w, h, bg, items, n);
    assert(fin == overlaid(dstv, rs, px, py));
    assert(4 * (w * h) == 4 * w * h) by (nonlinear_arith);
    assert(dstv.wf());
    let scol = color_of(rs, x - px, y - py);
    assert forall|c: int| 0 <= c < 4 implies fin[4 * (y * w + x) + c] == crate::raster::color_channel(
        scol,
        c,
    ) by {
        lemma_pix_index(w, x, y, c);
        assert(0 <= 4 * (y * w + x) + c < 4 * (w * h)) by (nonlinear_arith)
            requires
                0 <= x < w,
                0 <= y < h,
                0 <= c < 4,
        ;
        let i = 4 * (y * w + x) + c;
        let dcol = color_of(dstv, x, y);
        crate::raster::lemma_overlaid_inside(dstv, rs, px, py, x, y, c);
        lemma_over_opaque(scol, dcol);
    }
    assert(fin[4 * (y * w + x) + 0] == crate::raster::color_channel(scol, 0));
    assert(fin[4 * (y * w + x) + 1] == crate::raster::color_channel(scol, 1));
    assert(fin[4 * (y * w + x) + 2] == crate::raster::color_channel(scol, 2));
    assert(fin[4 * (y * w + x) + 3] == crate::raster::color_channel(scol, 3));
    assert(color_of(RasterV { width: w, height: h, pixels: fin }, x, y) == scol);
}

} // verus!

// Deleting a hidden or degenerate part never changes the composite.

verus! {

use crate::flatten::{flat_from, flat_node, lemma_delete_splits_flatten};
use crate::tree::{
    delete_forest_v, delete_victim, find_in, lemma_delete_found_iff_has, lemma_find_finds_victim,
    lemma_find_from_has, wf_forest,
};

/// Prefixes shorter than a removed index composite alike.
proof fn lemma_composite_prefix_eq(
    w: int,
    h: int,
    bg: Color,
    items: Seq<ItemV>,
    rm: Seq<ItemV>,
    m: int,
)
    requires
        forall|j: int| 0 <= j < m ==> items[j] == rm[j],
    ensures
        composite_upto(w, h, bg, items, m) == composite_upto(w, h, bg, rm, m),
    decreases m,
{
    if m > 0 {
        lemma_composite_prefix_eq(w, h, bg, items, rm, m - 1);
    }
}

/// Removing a degenerate entry from the render list leaves every later
/// compositing stage byte-identical.
pub proof fn lemma_composite_remove_degenerate(
    w: int,
    h: int,
    bg: Color,
    items: Seq<ItemV>,
    k: int,
    m: int,
)
    requires
        0 <= k < items.len(),
        scaled_dim(items[k].image.width, items[k].scale) == 0 || scaled_dim(
            items[k].image.height,
            items[k].scale,
        ) == 0,
        k < m <= items.len(),
    ensures
        composite_upto(w, h, bg, items, m) == composite_upto(w, h, bg, items.remove(k), m - 1),
    decreases m,
{
    let rm = items.remove(k);
    if m == k + 1 {
        lemma_composite_prefix_eq(w, h, bg, items, rm, k);
        assert(composite_upto(w, h, bg, items, k + 1) == composite_upto(w, h, bg, items, k));
    } else {
        lemma_composite_remove_degenerate(w, h, bg, items, k, m - 1);
        assert(rm[m - 2] == items[m - 1]);
    }
}

/// Deleting a layer whose own visible flag is off — a hidden part, or
/// a hidden group and with it its whole subtree — leaves the render
/// list, and with it the composite, byte-identical.
pub proof fn lemma_delete_hidden_same_composite(
    w: int,
    h: int,
    bg: Color,
    ns: Seq<NodeV>,
    id: u64,
)
    requires
        wf_forest(ns),
        find_in(ns, id) matches Some(n) && !n.visible(),
    ensures
        delete_forest_v(ns, id).1,
        flat_forest(delete_forest_v(ns, id).0) == flat_forest(ns),
        composite_spec(w, h, bg, delete_forest_v(ns, id).0) == composite_spec(w, h, bg, ns),
{
    let one = crate::fx::FX_ONE as int;
    lemma_find_from_has(ns, 0, id);
    lemma_delete_found_iff_has(ns, id);
    lemma_find_finds_victim(ns, id);
    let victim = delete_victim(ns, id);
    assert(!victim.visible());
    let ns2 = delete_forest_v(ns, id).0;
    lemma_delete_splits_flatten(ns, id, 0, 0, one);
    if flat_from(ns2, 0, 0, 0, one) != flat_from(ns, 0, 0, 0, one) {
        let (a, b, wx, wy, ws) = choose|a: Seq<ItemV>, b: Seq<ItemV>, wx: int, wy: int, ws: int|
            #![auto]
            {
                &&& flat_from(ns, 0, 0, 0, one) == a + flat_node(victim, wx, wy, ws) + b
                &&& flat_from(ns2, 0, 0, 0, one) == a + b
            };
        assert(flat_node(victim, wx, wy, ws) =~= Seq::<ItemV>::empty());
        assert(a + flat_node(victim, wx, wy, ws) + b =~= a + b);
    }
    assert(flat_forest(ns2) == flat_forest(ns));
}

/// Deleting an effectively visible image part whose scaled extent
/// rounds to zero — at its place in this tree — leaves the composite
/// byte-identical: a part scaled to invisibility contributes nothing.
pub proof fn lemma_delete_degenerate_same_composite(
    w: int,
    h: int,
    bg: Color,
    ns: Seq<NodeV>,
    id: u64,
)
    requires
        wf_forest(ns),
        find_in(ns, id) matches Some(n) && n is Image,
        forall|k: int|
            0 <= k < flat_forest(ns).len() && (#[trigger] flat_forest(ns)[k]).id == id
                ==> scaled_dim(flat_forest(ns)[k].image.width, flat_forest(ns)[k].scale) == 0
                || scaled_dim(flat_forest(ns)[k].image.height, flat_forest(ns)[k].scale) == 0,
    ensures
        delete_forest_v(ns, id).1,
        composite_spec(w, h, bg, delete_forest_v(ns, id).0) == composite_spec(w, h, bg, ns),
{
    let one = crate::fx::FX_ONE as int;
    lemma_find_from_has(ns, 0, id);
    lemma_delete_found_iff_has(ns, id);
    lemma_find_finds_victim(ns, id);
    let victim = delete_victim(ns, id);
    assert(victim.id() == id);
    let ns2 = delete_forest_v(ns, id).0;
    lemma_delete_splits_flatten(ns, id, 0, 0, one);
    if flat_from(ns2, 0, 0, 0, one) == flat_from(ns, 0, 0, 0, one) {
        assert(composite_spec(w, h, bg, ns2) == composite_spec(w, h, bg, ns));
    } else {
        let (a, b, wx, wy, ws) = choose|a: Seq<ItemV>, b: Seq<ItemV>, wx: int, wy: int, ws: int|
            #![auto]
            {
                &&& flat_from(ns, 0, 0, 0, one) == a + flat_node(victim, wx, wy, ws) + b
                &&& flat_from(ns2, 0, 0, 0, one) == a + b
            };
        let mid = flat_node(victim, wx, wy, ws);
        if !victim.visible() {
            assert(mid =~= Seq::<ItemV>::empty());
            assert(a + mid + b =~= a + b);
            assert(composite_spec(w, h, bg, ns2) == composite_spec(w, h, bg, ns));
        } else {
            let e = mid[0];
            assert(mid =~= seq![e] && e.id == id);
            let items = flat_forest(ns);
            let k = a.len() as int;
            assert(items[k] == e) by {
                assert((a + mid + b)[k] == (a + mid)[k]);
                assert((a + mid)[k] == mid[0]);
            }
            assert(scaled_dim(e.image.width, e.scale) == 0 || scaled_dim(
                e.image.height,
                e.scale,
            ) == 0);
            lemma_composite_remove_degenerate(w, h, bg, items, k, items.len() as int);
            assert(items.remove(k) =~= a + b);
            assert(composite_spec(w, h, bg, ns2) == composite_upto(
                w,
                h,
                bg,
                items.remove(k),
                items.len() - 1,
            ));
        }
    }
}

} // verus!
