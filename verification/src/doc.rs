//! The working document: canvas settings, the layer tree, the current
//! selection and the identifier counter, with the invariant that
//! identifiers are unique and never reused.

use vstd::prelude::*;
use crate::fx::{FX_ONE, MAX_DIM};
use crate::raster::{Color, Raster};
use crate::tree::{
    delete_forest_v, delete_layer, edit_forest_v, edit_layer, forest_ids, forest_view, ids_below,
    insert_layer, insert_layer_v, lemma_wf_after_delete, lemma_wf_after_edit,
    lemma_wf_after_insert_fresh, node_view, reorder_layers, reorder_v, wf_forest, LayerGroup,
    LayerImage, LayerNode, NodeEdit, NodeV, Transform,
};

verus! {

/// A document: the canvas, the layer tree, the selection, and the
/// monotone identifier counter.
pub struct Document {
    pub canvas_width: u32,
    pub canvas_height: u32,
    pub bg_color: Color,
    pub root_layers: Vec<LayerNode>,
    pub selected_layer_id: Option<u64>,
    pub next_id: u64,
}

impl Document {
    /// The document's layer tree as a mathematical value.
    pub open spec fn tree(self) -> Seq<NodeV> {
        forest_view(self.root_layers@)
    }

    /// The document invariant: unique identifiers all below the
    /// counter, well-formed image buffers, and a canvas within the
    /// size cap.
    pub open spec fn wf(self) -> bool {
        &&& wf_forest(self.tree())
        &&& ids_below(forest_ids(self.tree()), self.next_id)
        &&& 1 <= self.canvas_width <= MAX_DIM
        &&& 1 <= self.canvas_height <= MAX_DIM
    }

    /// A fresh document: a 64 × 64 fully transparent canvas and an
    /// empty tree.
    pub fn new() -> (d: Document)
        ensures
            d.wf(),
            d.tree() == Seq::<NodeV>::empty(),
            d.canvas_width == 64,
            d.canvas_height == 64,
            d.bg_color == (Color { r: 0, g: 0, b: 0, a: 0 }),
            d.selected_layer_id is None,
            d.next_id == 0,
    {
        Document {
            canvas_width: 64,
            canvas_height: 64,
            bg_color: Color { r: 0, g: 0, b: 0, a: 0 },
            root_layers: Vec::new(),
            selected_layer_id: None,
            next_id: 0,
        }
    }

    /// Change the canvas size, within `1 ..= MAX_DIM` on each side.
    pub fn set_canvas_size(&mut self, width: u32, height: u32) -> (ok: bool)
        requires
            old(self).wf(),
        ensures
            final(self).wf(),
            ok == (1 <= width <= MAX_DIM && 1 <= height <= MAX_DIM),
            ok ==> *final(self) == (Document {
                canvas_width: width,
                canvas_height: height,
                ..*old(self)
            }),
            !ok ==> *final(self) == *old(self),
    {
        if 1 <= width && width <= MAX_DIM && 1 <= height && height <= MAX_DIM {
            self.canvas_width = width;
            self.canvas_height = height;
            true
        } else {
            false
        }
    }

    /// Select a layer, or clear the selection.
    pub fn select(&mut self, id: Option<u64>)
        requires
            old(self).wf(),
        ensures
            final(self).wf(),
            *final(self) == (Document { selected_layer_id: id, ..*old(self) }),
    {
        self.selected_layer_id = id;
    }

    /// Mint the next identifier, or refuse when the counter is spent.
    fn mint_id(&mut self) -> (r: Option<u64>)
        ensures
            match r {
                Some(id) => {
                    &&& id == old(self).next_id
                    &&& *final(self) == (Document {
                        next_id: (old(self).next_id + 1) as u64,
                        ..*old(self)
                    })
                    &&& old(self).next_id < u64::MAX
                },
                None => *final(self) == *old(self) && old(self).next_id == u64::MAX,
            },
    {
        if self.next_id == u64::MAX {
            return None;
        }
        let id = self.next_id;
        self.next_id = self.next_id + 1;
        Some(id)
    }

    /// Add a decoded image as a new visible part at the identity
    /// placement: under the selected group when the selection names a
    /// group, at the end of the root run otherwise. Returns the new
    /// part's identifier, or `None` when the identifier counter is
    /// spent (the tree is then unchanged).
    pub fn add_image(&mut self, name: String, image: Raster) -> (r: Option<u64>)
        requires
            old(self).wf(),
            image@.wf(),
        ensures
            final(self).wf(),
            r is Some <==> old(self).next_id < u64::MAX,
            match r {
                Some(id) => {
                    &&& id == old(self).next_id
                    &&& final(self).tree() == insert_layer_v(
                        old(self).tree(),
                        NodeV::Image {
                            id,
                            name: name@,
                            image: image@,
                            transform: Transform::identity(),
                            visible: true,
                        },
                        old(self).selected_layer_id,
                    )
                    &&& final(self).next_id == old(self).next_id + 1
                },
                None => *final(self) == *old(self),
            },
            final(self).canvas_width == old(self).canvas_width,
            final(self).canvas_height == old(self).canvas_height,
            final(self).bg_color == old(self).bg_color,
            final(self).selected_layer_id == old(self).selected_layer_id,
    {
        let ghost pre = *self;
        let id = match self.mint_id() {
            Some(id) => id,
            None => {
                return None;
            },
        };
        let node = LayerNode::Image(
            LayerImage {
                id,
                name,
                image,
                transform: Transform { dx: 0, dy: 0, scale: FX_ONE },
                visible: true,
            },
        );
        proof {
            assert(node_view(node).subtree_ids() =~= seq![id]);
            lemma_wf_after_insert_fresh(
                pre.tree(),
                node_view(node),
                pre.selected_layer_id,
                pre.next_id,
            );
        }
        let target = self.selected_layer_id;
        insert_layer(&mut self.root_layers, node, target);
        Some(id)
    }

    /// Add an empty, visible group at the identity placement to the
    /// end of the root run. Returns the new group's identifier, or
    /// `None` when the identifier counter is spent.
    pub fn add_group(&mut self, name: String) -> (r: Option<u64>)
        requires
            old(self).wf(),
        ensures
            final(self).wf(),
            r is Some <==> old(self).next_id < u64::MAX,
            match r {
                Some(id) => {
                    &&& id == old(self).next_id
                    &&& final(self).tree() == insert_layer_v(
                        old(self).tree(),
                        NodeV::Group {
                            id,
                            name: name@,
                            children: Seq::empty(),
                            transform: Transform::identity(),
                            visible: true,
                        },
                        None,
                    )
                    &&& final(self).next_id == old(self).next_id + 1
                },
                None => *final(self) == *old(self),
            },
            final(self).canvas_width == old(self).canvas_width,
            final(self).canvas_height == old(self).canvas_height,
            final(self).bg_color == old(self).bg_color,
            final(self).selected_layer_id == old(self).selected_layer_id,
    {
        let ghost pre = *self;
        let id = match self.mint_id() {
            Some(id) => id,
            None => {
                return None;
            },
        };
        let node = LayerNode::Group(
            LayerGroup {
                id,
                name,
                children: Vec::new(),
                transform: Transform { dx: 0, dy: 0, scale: FX_ONE },
                visible: true,
            },
        );
        proof {
            assert(forest_view(Seq::<LayerNode>::empty()) =~= Seq::<NodeV>::empty());
            assert(crate::tree::forest_ids(Seq::<NodeV>::empty()) =~= Seq::<u64>::empty());
            assert(node_view(node).subtree_ids() =~= seq![id]);
            lemma_wf_after_insert_fresh(pre.tree(), node_view(node), None, pre.next_id);
        }
        insert_layer(&mut self.root_layers, node, None);
        Some(id)
    }

    /// Remove the layer carrying `id`, and its whole subtree, from
    /// wherever it lives; clear the selection when it pointed at that
    /// identifier. Reports whether a removal occurred.
    pub fn delete(&mut self, id: u64) -> (deleted: bool)
        requires
            old(self).wf(),
        ensures
            final(self).wf(),
            (final(self).tree(), deleted) == delete_forest_v(old(self).tree(), id),
            final(self).selected_layer_id == if old(self).selected_layer_id == Some(id) {
                None::<u64>
            } else {
                old(self).selected_layer_id
            },
            final(self).next_id == old(self).next_id,
            final(self).canvas_width == old(self).canvas_width,
            final(self).canvas_height == old(self).canvas_height,
            final(self).bg_color == old(self).bg_color,
    {
        let ghost pre = *self;
        let deleted = delete_layer(&mut self.root_layers, id);
        let sel_hit = match self.selected_layer_id {
            Some(sel) => sel == id,
            None => false,
        };
        if sel_hit {
            self.selected_layer_id = None;
        }
        proof {
            lemma_wf_after_delete(pre.tree(), id, pre.next_id);
        }
        deleted
    }

    /// Set the visible flag of the layer carrying `id`.
    pub fn set_visible(&mut self, id: u64, v: bool) -> (found: bool)
        requires
            old(self).wf(),
        ensures
            final(self).wf(),
            (final(self).tree(), found) == edit_forest_v(
                old(self).tree(),
                0,
                id,
                NodeEdit::Visible(v),
            ),
            final(self).next_id == old(self).next_id,
            final(self).selected_layer_id == old(self).selected_layer_id,
            final(self).canvas_width == old(self).canvas_width,
            final(self).canvas_height == old(self).canvas_height,
            final(self).bg_color == old(self).bg_color,
    {
        let ghost pre = *self;
        let found = edit_layer(&mut self.root_layers, id, NodeEdit::Visible(v));
        proof {
            lemma_wf_after_edit(pre.tree(), id, NodeEdit::Visible(v), pre.next_id);
        }
        found
    }

    /// Set the local placement of the layer carrying `id`.
    pub fn set_transform(&mut self, id: u64, t: Transform) -> (found: bool)
        requires
            old(self).wf(),
        ensures
            final(self).wf(),
            (final(self).tree(), found) == edit_forest_v(
                old(self).tree(),
                0,
                id,
                NodeEdit::Place(t),
            ),
            final(self).next_id == old(self).next_id,
            final(self).selected_layer_id == old(self).selected_layer_id,
            final(self).canvas_width == old(self).canvas_width,
            final(self).canvas_height == old(self).canvas_height,
            final(self).bg_color == old(self).bg_color,
    {
        let ghost pre = *self;
        let found = edit_layer(&mut self.root_layers, id, NodeEdit::Place(t));
        proof {
            lemma_wf_after_edit(pre.tree(), id, NodeEdit::Place(t), pre.next_id);
        }
        found
    }

    /// Shift the placement of the layer carrying `id` by a drag delta,
    /// in fixed-point thousandths (saturating at the coordinate range).
    pub fn nudge(&mut self, id: u64, ddx: i64, ddy: i64) -> (found: bool)
        requires
            old(self).wf(),
        ensures
            final(self).wf(),
            (final(self).tree(), found) == edit_forest_v(
                old(self).tree(),
                0,
                id,
                NodeEdit::Nudge { ddx, ddy },
            ),
            final(self).next_id == old(self).next_id,
            final(self).selected_layer_id == old(self).selected_layer_id,
            final(self).canvas_width == old(self).canvas_width,
            final(self).canvas_height == old(self).canvas_height,
            final(self).bg_color == old(self).bg_color,
    {
        let ghost pre = *self;
        let found = edit_layer(&mut self.root_layers, id, NodeEdit::Nudge { ddx, ddy });
        proof {
            lemma_wf_after_edit(pre.tree(), id, NodeEdit::Nudge { ddx, ddy }, pre.next_id);
        }
        found
    }

    /// Snap the placement of the layer carrying `id` to the nearest
    /// whole pixel (the scale is untouched) — the pixel-perfect
    /// alignment convenience.
    pub fn snap_to_pixel(&mut self, id: u64) -> (found: bool)
        requires
            old(self).wf(),
        ensures
            final(self).wf(),
            (final(self).tree(), found) == edit_forest_v(old(self).tree(), 0, id, NodeEdit::Snap),
            final(self).next_id == old(self).next_id,
            final(self).selected_layer_id == old(self).selected_layer_id,
            final(self).canvas_width == old(self).canvas_width,
            final(self).canvas_height == old(self).canvas_height,
            final(self).bg_color == old(self).bg_color,
    {
        let ghost pre = *self;
        let found = edit_layer(&mut self.root_layers, id, NodeEdit::Snap);
        proof {
            lemma_wf_after_edit(pre.tree(), id, NodeEdit::Snap, pre.next_id);
        }
        found
    }

    /// Reset the placement of the layer carrying `id` to the identity.
    pub fn reset_transform(&mut self, id: u64) -> (found: bool)
        requires
            old(self).wf(),
        ensures
            final(self).wf(),
            (final(self).tree(), found) == edit_forest_v(
                old(self).tree(),
                0,
                id,
                NodeEdit::Place(Transform::identity()),
            ),
            final(self).next_id == old(self).next_id,
            final(self).selected_layer_id == old(self).selected_layer_id,
            final(self).canvas_width == old(self).canvas_width,
            final(self).canvas_height == old(self).canvas_height,
            final(self).bg_color == old(self).bg_color,
    {
        let ghost pre = *self;
        let found = edit_layer(
            &mut self.root_layers,
            id,
            NodeEdit::Place(Transform { dx: 0, dy: 0, scale: FX_ONE }),
        );
        proof {
            lemma_wf_after_edit(
                pre.tree(),
                id,
                NodeEdit::Place(Transform { dx: 0, dy: 0, scale: FX_ONE }),
                pre.next_id,
            );
        }
        found
    }

    /// Swap the root-level layer at `index` with its neighbour above
    /// (`up`) or below; refused at the ends of the run.
    pub fn reorder_root(&mut self, index: usize, up: bool) -> (moved: bool)
        requires
            old(self).wf(),
        ensures
            final(self).wf(),
            (final(self).tree(), moved) == reorder_v(old(self).tree(), index as int, up),
            final(self).next_id == old(self).next_id,
            final(self).selected_layer_id == old(self).selected_layer_id,
            final(self).canvas_width == old(self).canvas_width,
            final(self).canvas_height == old(self).canvas_height,
            final(self).bg_color == old(self).bg_color,
    {
        let ghost pre = *self;
        let moved = reorder_layers(&mut self.root_layers, index, up);
        proof {
            crate::tree::lemma_reorder_ids(pre.tree(), index as int, up);
            let vs2 = reorder_v(pre.tree(), index as int, up).0;
            crate::tree::lemma_no_dup_within(forest_ids(vs2), forest_ids(pre.tree()));
            broadcast use vstd::seq_lib::group_to_multiset_ensures;

            assert forall|x: u64| forest_ids(vs2).contains(x) implies x < pre.next_id by {
                assert(forest_ids(vs2).to_multiset().count(x) > 0);
                assert(forest_ids(pre.tree()).to_multiset().count(x) > 0);
                assert(forest_ids(pre.tree()).contains(x));
            }
        }
        moved
    }

    /// Swap the child at `index` of the group carrying `gid` with its
    /// neighbour above or below; refused at the ends of that run.
    /// Reports whether a layer carrying `gid` was found.
    pub fn reorder_in_group(&mut self, gid: u64, index: usize, up: bool) -> (found: bool)
        requires
            old(self).wf(),
        ensures
            final(self).wf(),
            (final(self).tree(), found) == edit_forest_v(
                old(self).tree(),
                0,
                gid,
                NodeEdit::Reorder { index, up },
            ),
            final(self).next_id == old(self).next_id,
            final(self).selected_layer_id == old(self).selected_layer_id,
            final(self).canvas_width == old(self).canvas_width,
            final(self).canvas_height == old(self).canvas_height,
            final(self).bg_color == old(self).bg_color,
    {
        let ghost pre = *self;
        let found = edit_layer(&mut self.root_layers, gid, NodeEdit::Reorder { index, up });
        proof {
            lemma_wf_after_edit(pre.tree(), gid, NodeEdit::Reorder { index, up }, pre.next_id);
        }
        found
    }
}

/// The unique-identifier invariant, spelled out: in a well-formed
/// forest no identifier occurs twice, at any pair of depths.
pub proof fn lemma_wf_unique_ids(vs: Seq<NodeV>)
    requires
        wf_forest(vs),
    ensures
        forall|i: int, j: int|
            0 <= i < j < forest_ids(vs).len() ==> forest_ids(vs)[i] != forest_ids(vs)[j],
{
}

} // verus!
