//! Flattening: the depth-first, pre-order walk that turns the layer
//! tree into a paint-ordered list of absolutely placed image parts.
//!
//! Transforms accumulate top-down: a node drawn under a parent placed
//! at `(px, py)` with scale `ps` has absolute scale `ps · scale` and
//! absolute offset `(px + dx · ps, py + dy · ps)`, each product rounded
//! back to thousandths; only the final absolute offset is later rounded
//! to whole pixels. A node whose own visible flag is off is skipped
//! with its entire subtree.

use vstd::prelude::*;
use crate::fx::{add_fx, fx_add, fx_mul, mul_fx};
use crate::raster::{Raster, RasterV};
use crate::tree::{forest_view, node_view, LayerNode, NodeV};

verus! {

/// One entry of the render list: an image part with its absolute
/// placement, in paint order (earlier entries are painted first).
pub struct RenderItem<'a> {
    pub id: u64,
    pub name: &'a String,
    pub image: &'a Raster,
    /// Absolute offset, in fixed-point thousandths of a pixel.
    pub dx: i64,
    pub dy: i64,
    /// Absolute scale, in fixed-point thousandths.
    pub scale: i64,
}

/// The mathematical value of a render-list entry.
pub ghost struct ItemV {
    pub id: u64,
    pub name: Seq<char>,
    pub image: RasterV,
    pub dx: int,
    pub dy: int,
    pub scale: int,
}

impl<'a> View for RenderItem<'a> {
    type V = ItemV;

    open spec fn view(&self) -> ItemV {
        ItemV {
            id: self.id,
            name: self.name@,
            image: self.image@,
            dx: self.dx as int,
            dy: self.dy as int,
            scale: self.scale as int,
        }
    }
}

/// The values of a run of render-list entries.
pub open spec fn items_view(s: Seq<RenderItem>) -> Seq<ItemV> {
    Seq::new(s.len(), |k: int| s[k]@)
}

/// The render list contributed by one node placed under a parent at
/// `(px, py)` with accumulated scale `ps`: nothing when the node is
/// hidden, one absolutely placed entry for a visible image part, and
/// the children's entries (under the composed placement) for a visible
/// group.
pub open spec fn flat_node(n: NodeV, px: int, py: int, ps: int) -> Seq<ItemV>
    decreases n, 0int, 0int,
{
    if !n.visible() {
        Seq::empty()
    } else {
        match n {
            NodeV::Image { id, name, image, transform, .. } => seq![
                ItemV {
                    id,
                    name,
                    image,
                    dx: fx_add(px, fx_mul(transform.dx as int, ps)),
                    dy: fx_add(py, fx_mul(transform.dy as int, ps)),
                    scale: fx_mul(ps, transform.scale as int),
                },
            ],
            NodeV::Group { children, transform, .. } => flat_from(
                children,
                0,
                fx_add(px, fx_mul(transform.dx as int, ps)),
                fx_add(py, fx_mul(transform.dy as int, ps)),
                fx_mul(ps, transform.scale as int),
            ),
        }
    }
}

/// The render list contributed by the nodes `ns[i ..]`, in order.
pub open spec fn flat_from(ns: Seq<NodeV>, i: int, px: int, py: int, ps: int) -> Seq<ItemV>
    decreases ns, ns.len() - i, 1int,
{
    if i < 0 || i >= ns.len() {
        Seq::empty()
    } else {
        flat_node(ns[i], px, py, ps) + flat_from(ns, i + 1, px, py, ps)
    }
}

/// The full render list of a forest drawn at the canvas origin with
/// scale 1×.
pub open spec fn flat_forest(ns: Seq<NodeV>) -> Seq<ItemV> {
    flat_from(ns, 0, 0, 0, crate::fx::FX_ONE as int)
}

/// The executable half of [`flat_from`]: append the entries of
/// `nodes[i ..]` to `items`.
fn flatten_from<'a>(
    nodes: &'a Vec<LayerNode>,
    i: usize,
    px: i64,
    py: i64,
    ps: i64,
    items: &mut Vec<RenderItem<'a>>,
)
    requires
        i <= nodes@.len(),
    ensures
        items_view(final(items)@) == items_view(old(items)@) + flat_from(
            forest_view(nodes@),
            i as int,
            px as int,
            py as int,
            ps as int,
        ),
    decreases nodes, nodes@.len() - i, 1int,
{
    proof {
        crate::tree::lemma_forest_view_len(nodes@);
    }
    if i == nodes.len() {
        proof {
            assert(items_view(items@) =~= items_view(items@) + flat_from(
                forest_view(nodes@),
                i as int,
                px as int,
                py as int,
                ps as int,
            ));
        }
        return ;
    }
    proof {
        crate::tree::lemma_forest_view_index(nodes@, i as int);
    }
    let ghost vs = forest_view(nodes@);
    let ghost items0 = items_view(items@);
    let n = &nodes[i];
    if !n.visible() {
        proof {
            assert(flat_node(vs[i as int], px as int, py as int, ps as int)
                =~= Seq::<ItemV>::empty());
            assert(flat_node(vs[i as int], px as int, py as int, ps as int) + flat_from(
                vs,
                i as int + 1,
                px as int,
                py as int,
                ps as int,
            ) =~= flat_from(vs, i as int + 1, px as int, py as int, ps as int));
        }
        flatten_from(nodes, i + 1, px, py, ps, items);
        return ;
    }
    match n {
        LayerNode::Image(im) => {
            let dx = add_fx(px, mul_fx(im.transform.dx, ps));
            let dy = add_fx(py, mul_fx(im.transform.dy, ps));
            let scale = mul_fx(ps, im.transform.scale);
            let item = RenderItem { id: im.id, name: &im.name, image: &im.image, dx, dy, scale };
            let ghost itemv = item@;
            items.push(item);
            proof {
                assert(items_view(items@) =~= items0.push(itemv));
                assert(flat_node(vs[i as int], px as int, py as int, ps as int) =~= seq![itemv]);
            }
            flatten_from(nodes, i + 1, px, py, ps, items);
            proof {
                assert(items0.push(itemv) + flat_from(
                    vs,
                    i as int + 1,
                    px as int,
                    py as int,
                    ps as int,
                ) =~= items0 + flat_from(vs, i as int, px as int, py as int, ps as int));
            }
        },
        LayerNode::Group(g) => {
            let gx = add_fx(px, mul_fx(g.transform.dx, ps));
            let gy = add_fx(py, mul_fx(g.transform.dy, ps));
            let gs = mul_fx(ps, g.transform.scale);
            flatten_from(&g.children, 0, gx, gy, gs, items);
            proof {
                assert(flat_node(vs[i as int], px as int, py as int, ps as int) == flat_from(
                    forest_view(g.children@),
                    0,
                    gx as int,
                    gy as int,
                    gs as int,
                ));
            }
            flatten_from(nodes, i + 1, px, py, ps, items);
            proof {
                assert((items0 + flat_node(vs[i as int], px as int, py as int, ps as int))
                    + flat_from(vs, i as int + 1, px as int, py as int, ps as int) =~= items0
                    + flat_from(vs, i as int, px as int, py as int, ps as int));
            }
        },
    }
}

/// Flatten the layer tree into a render list, accumulating transforms
/// top-down from the placement `(px, py)` at scale `ps`; entries come
/// out in depth-first pre-order, which is also the paint order.
pub fn flatten_layers<'a>(
    nodes: &'a Vec<LayerNode>,
    px: i64,
    py: i64,
    ps: i64,
    items: &mut Vec<RenderItem<'a>>,
)
    ensures
        items_view(final(items)@) == items_view(old(items)@) + flat_from(
            forest_view(nodes@),
            0,
            px as int,
            py as int,
            ps as int,
        ),
{
    flatten_from(nodes, 0, px, py, ps, items);
}

/// The render list of the whole tree at the canvas origin, scale 1×.
pub fn flatten_tree<'a>(nodes: &'a Vec<LayerNode>) -> (items: Vec<RenderItem<'a>>)
    ensures
        items_view(items@) == flat_forest(forest_view(nodes@)),
{
    let mut items: Vec<RenderItem<'a>> = Vec::new();
    proof {
        assert(items_view(Seq::<RenderItem>::empty()) =~= Seq::<ItemV>::empty());
    }
    flatten_layers(nodes, 0, 0, crate::fx::FX_ONE, &mut items);
    proof {
        assert(Seq::<ItemV>::empty() + flat_forest(forest_view(nodes@)) =~= flat_forest(
            forest_view(nodes@),
        ));
    }
    items
}

} // verus!

// Visibility propagation: an invisible ancestor hides its whole subtree.

verus! {

use crate::tree::{
    forest_ids, lemma_forest_ids_decompose, wf_forest,
};

/// Identifiers of the effectively visible image parts under one node,
/// in depth-first pre-order.
pub open spec fn visible_part_ids_node(n: NodeV) -> Seq<u64>
    decreases n, 0int, 0int,
{
    if !n.visible() {
        Seq::empty()
    } else {
        match n {
            NodeV::Image { id, .. } => seq![id],
            NodeV::Group { children, .. } => visible_part_ids_from(children, 0),
        }
    }
}

/// Identifiers of the effectively visible image parts under `ns[i ..]`.
pub open spec fn visible_part_ids_from(ns: Seq<NodeV>, i: int) -> Seq<u64>
    decreases ns, ns.len() - i, 1int,
{
    if i < 0 || i >= ns.len() {
        Seq::empty()
    } else {
        visible_part_ids_node(ns[i]) + visible_part_ids_from(ns, i + 1)
    }
}

/// The identifiers of a render list, in order.
pub open spec fn item_ids(items: Seq<ItemV>) -> Seq<u64> {
    Seq::new(items.len(), |k: int| items[k].id)
}

/// The render list names exactly the effectively visible image parts,
/// in depth-first pre-order — whatever the accumulated placement.
pub proof fn lemma_flat_ids_node(n: NodeV, px: int, py: int, ps: int)
    ensures
        item_ids(flat_node(n, px, py, ps)) == visible_part_ids_node(n),
    decreases n, 0int, 0int,
{
    if !n.visible() {
        assert(item_ids(flat_node(n, px, py, ps)) =~= visible_part_ids_node(n));
    } else {
        match n {
            NodeV::Image { .. } => {
                assert(item_ids(flat_node(n, px, py, ps)) =~= visible_part_ids_node(n));
            },
            NodeV::Group { children, transform, .. } => {
                lemma_flat_ids_from(
                    children,
                    0,
                    fx_add(px, fx_mul(transform.dx as int, ps)),
                    fx_add(py, fx_mul(transform.dy as int, ps)),
                    fx_mul(ps, transform.scale as int),
                );
            },
        }
    }
}

/// Companion of [`lemma_flat_ids_node`] for a run of siblings.
pub proof fn lemma_flat_ids_from(ns: Seq<NodeV>, i: int, px: int, py: int, ps: int)
    ensures
        item_ids(flat_from(ns, i, px, py, ps)) == visible_part_ids_from(ns, i),
    decreases ns, ns.len() - i, 1int,
{
    if i < 0 || i >= ns.len() {
        assert(item_ids(flat_from(ns, i, px, py, ps)) =~= visible_part_ids_from(ns, i));
    } else {
        lemma_flat_ids_node(ns[i], px, py, ps);
        lemma_flat_ids_from(ns, i + 1, px, py, ps);
        assert(item_ids(flat_node(ns[i], px, py, ps) + flat_from(ns, i + 1, px, py, ps))
            =~= item_ids(flat_node(ns[i], px, py, ps)) + item_ids(
            flat_from(ns, i + 1, px, py, ps),
        ));
    }
}

/// A visible part's identifier lies within its node's subtree.
pub proof fn lemma_visible_subset_node(n: NodeV, x: u64)
    ensures
        visible_part_ids_node(n).contains(x) ==> n.subtree_ids().contains(x),
    decreases n, 0int, 0int,
{
    if n.visible() {
        match n {
            NodeV::Image { id, .. } => {
                if visible_part_ids_node(n).contains(x) {
                    assert(visible_part_ids_node(n)[0] == id);
                    assert(x == id);
                    assert(n.subtree_ids()[0] == id);
                }
            },
            NodeV::Group { id, children, .. } => {
                if visible_part_ids_node(n).contains(x) {
                    lemma_visible_from_split(children, 0, x);
                    let j = choose|j: int|
                        0 <= j < children.len() && (#[trigger] visible_part_ids_node(
                            children[j],
                        )).contains(x);
                    lemma_visible_subset_node(children[j], x);
                    crate::tree::lemma_forest_has_from_ids(children, 0, x);
                    assert(crate::tree::forest_has_from(children, 0, x));
                    crate::tree::lemma_forest_has_iff_ids(children, x);
                    assert(forest_ids(children).contains(x));
                    let q = choose|q: int|
                        0 <= q < forest_ids(children).len() && forest_ids(children)[q] == x;
                    assert(n.subtree_ids() == seq![id] + forest_ids(children));
                    assert(n.subtree_ids()[q + 1] == x);
                }
            },
        }
    }
}

/// A member of the visible-part identifiers of a run belongs to some
/// node's visible parts.
pub proof fn lemma_visible_from_split(ns: Seq<NodeV>, i: int, x: u64)
    requires
        0 <= i <= ns.len(),
    ensures
        visible_part_ids_from(ns, i).contains(x) ==> exists|j: int|
            i <= j < ns.len() && (#[trigger] visible_part_ids_node(ns[j])).contains(x),
    decreases ns.len() - i,
{
    if i < ns.len() && visible_part_ids_from(ns, i).contains(x) {
        lemma_visible_from_split(ns, i + 1, x);
        let s = visible_part_ids_node(ns[i]) + visible_part_ids_from(ns, i + 1);
        let k = choose|k: int| 0 <= k < s.len() && s[k] == x;
        if k < visible_part_ids_node(ns[i]).len() {
            assert(visible_part_ids_node(ns[i])[k] == x);
            assert(visible_part_ids_node(ns[i]).contains(x));
        } else {
            assert(visible_part_ids_from(ns, i + 1)[k - visible_part_ids_node(
                ns[i],
            ).len()] == x);
            assert(visible_part_ids_from(ns, i + 1).contains(x));
        }
    }
}

/// Two distinct nodes of a duplicate-free forest have disjoint
/// subtree identifiers.
pub proof fn lemma_distinct_subtrees_disjoint(ns: Seq<NodeV>, a: int, b: int, x: u64)
    requires
        forest_ids(ns).no_duplicates(),
        0 <= a < b < ns.len(),
        ns[a].subtree_ids().contains(x),
    ensures
        !ns[b].subtree_ids().contains(x),
{
    if ns[b].subtree_ids().contains(x) {
        lemma_forest_ids_decompose(ns, a);
        let t = forest_ids(ns.take(a));
        let sa = ns[a].subtree_ids();
        let s = forest_ids(ns.skip(a + 1));
        lemma_forest_ids_decompose(ns.skip(a + 1), b - a - 1);
        assert(ns.skip(a + 1)[b - a - 1] == ns[b]);
        let t2 = forest_ids(ns.skip(a + 1).take(b - a - 1));
        let sb = ns[b].subtree_ids();
        let p = choose|p: int| 0 <= p < sa.len() && sa[p] == x;
        let q = choose|q: int| 0 <= q < sb.len() && sb[q] == x;
        let gi = t.len() + p;
        let gj = t.len() + sa.len() + t2.len() + q;
        assert(forest_ids(ns)[gi] == x);
        assert(forest_ids(ns)[gj] == x);
        assert(gi < gj);
        assert(forest_ids(ns)[gi] != forest_ids(ns)[gj]);
    }
}

/// Visibility propagation: a part that lies under a node whose own
/// visible flag is off — whatever the part's own flag — appears
/// nowhere in the render list of a well-formed tree.
pub proof fn lemma_visibility_propagation(ns: Seq<NodeV>, i: int, pid: u64)
    requires
        wf_forest(ns),
        0 <= i < ns.len(),
        !ns[i].visible(),
        ns[i].subtree_ids().contains(pid),
    ensures
        !item_ids(flat_forest(ns)).contains(pid),
{
    lemma_flat_ids_from(ns, 0, 0, 0, crate::fx::FX_ONE as int);
    if item_ids(flat_forest(ns)).contains(pid) {
        lemma_visible_from_split(ns, 0, pid);
        let j = choose|j: int|
            0 <= j < ns.len() && (#[trigger] visible_part_ids_node(ns[j])).contains(pid);
        assert(visible_part_ids_node(ns[i]) =~= Seq::<u64>::empty());
        assert(j != i);
        lemma_visible_subset_node(ns[j], pid);
        if i < j {
            lemma_distinct_subtrees_disjoint(ns, i, j, pid);
        } else {
            lemma_distinct_subtrees_disjoint(ns, j, i, pid);
        }
    }
}

} // verus!

// Every image carried by the render list is well-formed.

verus! {

use crate::tree::forest_wf_images;

/// Render-list entries of a node with well-formed images carry
/// well-formed images.
pub proof fn lemma_flat_images_wf_node(n: NodeV, px: int, py: int, ps: int)
    requires
        n.wf_images(),
    ensures
        forall|j: int|
            0 <= j < flat_node(n, px, py, ps).len() ==> (#[trigger] flat_node(
                n,
                px,
                py,
                ps,
            )[j]).image.wf(),
    decreases n, 0int, 0int,
{
    if n.visible() {
        match n {
            NodeV::Image { image, .. } => {
                assert(flat_node(n, px, py, ps).len() == 1);
                assert(flat_node(n, px, py, ps)[0].image == image);
            },
            NodeV::Group { children, transform, .. } => {
                let gx = fx_add(px, fx_mul(transform.dx as int, ps));
                let gy = fx_add(py, fx_mul(transform.dy as int, ps));
                let gs = fx_mul(ps, transform.scale as int);
                lemma_flat_images_wf_from(children, 0, gx, gy, gs);
                assert forall|j: int| 0 <= j < flat_node(n, px, py, ps).len() implies (
                #[trigger] flat_node(n, px, py, ps)[j]).image.wf() by {
                    assert(flat_node(n, px, py, ps)[j] == flat_from(children, 0, gx, gy, gs)[j]);
                }
            },
        }
    }
}

/// Companion of [`lemma_flat_images_wf_node`] for a run of siblings.
pub proof fn lemma_flat_images_wf_from(ns: Seq<NodeV>, i: int, px: int, py: int, ps: int)
    requires
        forest_wf_images(ns),
    ensures
        forall|j: int|
            0 <= j < flat_from(ns, i, px, py, ps).len() ==> (#[trigger] flat_from(
                ns,
                i,
                px,
                py,
                ps,
            )[j]).image.wf(),
    decreases ns, ns.len() - i, 1int,
{
    if 0 <= i < ns.len() {
        lemma_flat_images_wf_node(ns[i], px, py, ps);
        lemma_flat_images_wf_from(ns, i + 1, px, py, ps);
        let a = flat_node(ns[i], px, py, ps);
        let b = flat_from(ns, i + 1, px, py, ps);
        assert forall|j: int| 0 <= j < (a + b).len() implies (#[trigger] (a + b)[j]).image.wf() by {
            if j < a.len() {
                assert((a + b)[j] == a[j]);
            } else {
                assert((a + b)[j] == b[j - a.len()]);
            }
        }
    }
}

} // verus!

// Deleting a node changes the render list by exactly that node's own
// contribution.

verus! {

use crate::tree::{
    delete_forest_v, delete_groups_v, delete_victim, delete_victim_groups, level_pos,
    lemma_level_pos,
};

/// The render list contributed by the nodes `ns[i .. j]`, in order.
pub open spec fn flat_range(ns: Seq<NodeV>, i: int, j: int, px: int, py: int, ps: int) -> Seq<
    ItemV,
>
    decreases j - i,
{
    if i >= j {
        Seq::empty()
    } else {
        flat_node(ns[i], px, py, ps) + flat_range(ns, i + 1, j, px, py, ps)
    }
}

/// The tail render list is the range to the end.
pub proof fn lemma_flat_from_is_range(ns: Seq<NodeV>, i: int, px: int, py: int, ps: int)
    requires
        0 <= i,
    ensures
        flat_from(ns, i, px, py, ps) == flat_range(ns, i, ns.len() as int, px, py, ps),
    decreases ns.len() - i,
{
    if i < ns.len() {
        lemma_flat_from_is_range(ns, i + 1, px, py, ps);
    } else {
        assert(flat_from(ns, i, px, py, ps) =~= flat_range(
            ns,
            i,
            ns.len() as int,
            px,
            py,
            ps,
        ));
    }
}

/// A range splits at any interior point.
pub proof fn lemma_flat_range_split(ns: Seq<NodeV>, i: int, k: int, j: int, px: int, py: int, ps: int)
    requires
        i <= k <= j,
    ensures
        flat_range(ns, i, j, px, py, ps) == flat_range(ns, i, k, px, py, ps) + flat_range(
            ns,
            k,
            j,
            px,
            py,
            ps,
        ),
    decreases k - i,
{
    if i < k {
        lemma_flat_range_split(ns, i + 1, k, j, px, py, ps);
        assert(flat_node(ns[i], px, py, ps) + (flat_range(ns, i + 1, k, px, py, ps) + flat_range(
            ns,
            k,
            j,
            px,
            py,
            ps,
        )) =~= (flat_node(ns[i], px, py, ps) + flat_range(ns, i + 1, k, px, py, ps))
            + flat_range(ns, k, j, px, py, ps));
    } else {
        assert(flat_range(ns, i, k, px, py, ps) =~= Seq::<ItemV>::empty());
        assert(Seq::<ItemV>::empty() + flat_range(ns, k, j, px, py, ps) =~= flat_range(
            ns,
            k,
            j,
            px,
            py,
            ps,
        ));
    }
}

/// Ranges over pointwise-equal entries are equal.
pub proof fn lemma_flat_range_eq(
    ns: Seq<NodeV>,
    ms: Seq<NodeV>,
    i: int,
    j: int,
    px: int,
    py: int,
    ps: int,
)
    requires
        forall|k: int| i <= k < j ==> ns[k] == ms[k],
    ensures
        flat_range(ns, i, j, px, py, ps) == flat_range(ms, i, j, px, py, ps),
    decreases j - i,
{
    if i < j {
        lemma_flat_range_eq(ns, ms, i + 1, j, px, py, ps);
    }
}

/// The range after a removed entry equals the original range shifted
/// past it.
pub proof fn lemma_flat_range_shift(ns: Seq<NodeV>, p: int, k: int, px: int, py: int, ps: int)
    requires
        0 <= p < ns.len(),
        p <= k <= ns.len() - 1,
    ensures
        flat_range(ns.remove(p), k, ns.len() - 1, px, py, ps) == flat_range(
            ns,
            k + 1,
            ns.len() as int,
            px,
            py,
            ps,
        ),
    decreases ns.len() - k,
{
    if k < ns.len() - 1 {
        assert(ns.remove(p)[k] == ns[k + 1]);
        lemma_flat_range_shift(ns, p, k + 1, px, py, ps);
    }
}

/// A successful deletion either leaves the render list unchanged (the
/// removed node sat under a hidden ancestor) or removes from it
/// exactly the removed node's own contribution, placed where that node
/// stood.
pub proof fn lemma_delete_splits_flatten(ns: Seq<NodeV>, id: u64, px: int, py: int, ps: int)
    requires
        delete_forest_v(ns, id).1,
    ensures
        flat_from(delete_forest_v(ns, id).0, 0, px, py, ps) == flat_from(ns, 0, px, py, ps)
            || exists|a: Seq<ItemV>, b: Seq<ItemV>, wx: int, wy: int, ws: int|
            #![auto]
            {
                &&& flat_from(ns, 0, px, py, ps) == a + flat_node(
                    delete_victim(ns, id),
                    wx,
                    wy,
                    ws,
                ) + b
                &&& flat_from(delete_forest_v(ns, id).0, 0, px, py, ps) == a + b
            },
    decreases ns, 1int, 0int,
{
    let n = ns.len() as int;
    let p = level_pos(ns, 0, id);
    if p >= 0 {
        lemma_level_pos(ns, 0, id);
        let ns2 = ns.remove(p);
        let a = flat_range(ns, 0, p, px, py, ps);
        let b = flat_range(ns, p + 1, n, px, py, ps);
        lemma_flat_from_is_range(ns, 0, px, py, ps);
        lemma_flat_range_split(ns, 0, p, n, px, py, ps);
        lemma_flat_range_split(ns, p, p + 1, n, px, py, ps);
        assert(flat_range(ns, p, p + 1, px, py, ps) =~= flat_node(ns[p], px, py, ps)
            + Seq::<ItemV>::empty());
        assert(flat_node(ns[p], px, py, ps) + Seq::<ItemV>::empty() =~= flat_node(
            ns[p],
            px,
            py,
            ps,
        ));
        assert(flat_from(ns, 0, px, py, ps) == a + (flat_node(ns[p], px, py, ps) + b));
        lemma_flat_from_is_range(ns2, 0, px, py, ps);
        lemma_flat_range_split(ns2, 0, p, n - 1, px, py, ps);
        assert forall|k: int| 0 <= k < p implies ns2[k] == ns[k] by {}
        lemma_flat_range_eq(ns2, ns, 0, p, px, py, ps);
        lemma_flat_range_shift(ns, p, p, px, py, ps);
        assert(flat_from(ns2, 0, px, py, ps) == a + b);
        assert(flat_from(ns, 0, px, py, ps) == a + flat_node(delete_victim(ns, id), px, py, ps)
            + b) by {
            assert(a + (flat_node(ns[p], px, py, ps) + b) =~= a + flat_node(ns[p], px, py, ps)
                + b);
        }
    } else {
        lemma_delete_splits_flatten_groups(ns, 0, id, px, py, ps);
    }
}

/// Companion of [`lemma_delete_splits_flatten`] for the group scan.
proof fn lemma_delete_splits_flatten_groups(
    ns: Seq<NodeV>,
    i: int,
    id: u64,
    px: int,
    py: int,
    ps: int,
)
    requires
        0 <= i,
        delete_groups_v(ns, i, id).1,
    ensures
        flat_from(delete_groups_v(ns, i, id).0, 0, px, py, ps) == flat_from(ns, 0, px, py, ps)
            || exists|a: Seq<ItemV>, b: Seq<ItemV>, wx: int, wy: int, ws: int|
            #![auto]
            {
                &&& flat_from(ns, 0, px, py, ps) == a + flat_node(
                    delete_victim_groups(ns, i, id),
                    wx,
                    wy,
                    ws,
                ) + b
                &&& flat_from(delete_groups_v(ns, i, id).0, 0, px, py, ps) == a + b
            },
    decreases ns, 0int, ns.len() - i,
{
    let n = ns.len() as int;
    if i < ns.len() {
        match ns[i] {
            NodeV::Group { children, transform, visible, .. } => {
                let (c2, found) = delete_forest_v(children, id);
                if found {
                    let n2 = ns[i].with_children(c2);
                    let ns2 = ns.update(i, n2);
                    let gx = fx_add(px, fx_mul(transform.dx as int, ps));
                    let gy = fx_add(py, fx_mul(transform.dy as int, ps));
                    let gs = fx_mul(ps, transform.scale as int);
                    lemma_flat_from_is_range(ns, 0, px, py, ps);
                    lemma_flat_from_is_range(ns2, 0, px, py, ps);
                    lemma_flat_range_split(ns, 0, i, n, px, py, ps);
                    lemma_flat_range_split(ns, i, i + 1, n, px, py, ps);
                    lemma_flat_range_split(ns2, 0, i, n, px, py, ps);
                    lemma_flat_range_split(ns2, i, i + 1, n, px, py, ps);
                    let pre = flat_range(ns, 0, i, px, py, ps);
                    let post = flat_range(ns, i + 1, n, px, py, ps);
                    assert forall|k: int| 0 <= k < i implies ns2[k] == ns[k] by {}
                    lemma_flat_range_eq(ns2, ns, 0, i, px, py, ps);
                    assert forall|k: int| i + 1 <= k < n implies ns2[k] == ns[k] by {}
                    lemma_flat_range_eq(ns2, ns, i + 1, n, px, py, ps);
                    assert(flat_range(ns, i, i + 1, px, py, ps) =~= flat_node(
                        ns[i],
                        px,
                        py,
                        ps,
                    ));
                    assert(flat_range(ns2, i, i + 1, px, py, ps) =~= flat_node(
                        n2,
                        px,
                        py,
                        ps,
                    ));
                    assert(flat_from(ns, 0, px, py, ps) == pre + flat_node(ns[i], px, py, ps)
                        + post);
                    assert(flat_from(ns2, 0, px, py, ps) == pre + flat_node(n2, px, py, ps)
                        + post);
                    if !visible {
                        assert(flat_node(ns[i], px, py, ps) =~= Seq::<ItemV>::empty());
                        assert(flat_node(n2, px, py, ps) =~= Seq::<ItemV>::empty());
                        assert(flat_from(ns2, 0, px, py, ps) =~= flat_from(ns, 0, px, py, ps));
                    } else {
                        lemma_delete_splits_flatten(children, id, gx, gy, gs);
                        assert(flat_node(ns[i], px, py, ps) == flat_from(children, 0, gx, gy, gs));
                        assert(flat_node(n2, px, py, ps) == flat_from(c2, 0, gx, gy, gs));
                        if flat_from(c2, 0, gx, gy, gs) == flat_from(children, 0, gx, gy, gs) {
                            assert(flat_from(ns2, 0, px, py, ps) == flat_from(ns, 0, px, py, ps));
                        } else {
                            let (ca, cb, wx, wy, ws) = choose|
                                ca: Seq<ItemV>,
                                cb: Seq<ItemV>,
                                wx: int,
                                wy: int,
                                ws: int,
                            |
                                #![auto]
                                {
                                    &&& flat_from(children, 0, gx, gy, gs) == ca + flat_node(
                                        delete_victim(children, id),
                                        wx,
                                        wy,
                                        ws,
                                    ) + cb
                                    &&& flat_from(c2, 0, gx, gy, gs) == ca + cb
                                };
                            let w = delete_victim(children, id);
                            let a = pre + ca;
                            let b = cb + post;
                            assert(flat_from(ns, 0, px, py, ps) == a + flat_node(w, wx, wy, ws)
                                + b) by {
                                assert(pre + (ca + flat_node(w, wx, wy, ws) + cb) + post =~= (pre
                                    + ca) + flat_node(w, wx, wy, ws) + (cb + post));
                            }
                            assert(flat_from(ns2, 0, px, py, ps) == a + b) by {
                                assert(pre + (ca + cb) + post =~= (pre + ca) + (cb + post));
                            }
                            assert(delete_victim_groups(ns, i, id) == w);
                        }
                    }
                } else {
                    lemma_delete_splits_flatten_groups(ns, i + 1, id, px, py, ps);
                }
            },
            NodeV::Image { .. } => {
                lemma_delete_splits_flatten_groups(ns, i + 1, id, px, py, ps);
            },
        }
    }
}

} // verus!
