//! The layer tree: image parts and groups, each with a local transform and
//! a visible flag, in back-to-front paint order.

use vstd::prelude::*;
use crate::fx::FX_ONE;
use crate::raster::{Raster, RasterV};

verus! {

/// A node's placement relative to its parent: an offset and a uniform
/// scale, both in fixed-point thousandths (`1000` is one pixel / 1×).
#[derive(Clone, Copy, Debug, PartialEq, Eq, Structural)]
pub struct Transform {
    pub dx: i64,
    pub dy: i64,
    pub scale: i64,
}

impl Transform {
    /// The identity placement: no offset, scale 1×.
    pub open spec fn identity() -> Transform {
        Transform { dx: 0, dy: 0, scale: FX_ONE }
    }
}

impl Default for Transform {
    /// A fresh node starts at the identity placement.
    fn default() -> (t: Transform)
        ensures
            t == Transform::identity(),
    {
        Transform { dx: 0, dy: 0, scale: FX_ONE }
    }
}

/// A leaf layer: one decoded image and its placement.
pub struct LayerImage {
    pub id: u64,
    pub name: String,
    pub image: Raster,
    pub transform: Transform,
    pub visible: bool,
}

/// A folder layer: an ordered run of child layers and a placement that
/// composes with theirs.
pub struct LayerGroup {
    pub id: u64,
    pub name: String,
    pub children: Vec<LayerNode>,
    pub transform: Transform,
    pub visible: bool,
}

/// A node of the layer tree: either an image part or a group.
pub enum LayerNode {
    Image(LayerImage),
    Group(LayerGroup),
}

/// The mathematical value of a layer node.
pub ghost enum NodeV {
    Image { id: u64, name: Seq<char>, image: RasterV, transform: Transform, visible: bool },
    Group { id: u64, name: Seq<char>, children: Seq<NodeV>, transform: Transform, visible: bool },
}

/// The mathematical value of a layer node, children included.
pub open spec fn node_view(n: LayerNode) -> NodeV
    decreases n,
{
    match n {
        LayerNode::Image(im) => NodeV::Image {
            id: im.id,
            name: im.name@,
            image: im.image@,
            transform: im.transform,
            visible: im.visible,
        },
        LayerNode::Group(g) => NodeV::Group {
            id: g.id,
            name: g.name@,
            children: forest_view(g.children@),
            transform: g.transform,
            visible: g.visible,
        },
    }
}

/// The mathematical value of a run of sibling nodes.
pub open spec fn forest_view(ns: Seq<LayerNode>) -> Seq<NodeV>
    decreases ns,
{
    if ns.len() == 0 {
        Seq::empty()
    } else {
        seq![node_view(ns[0])] + forest_view(ns.drop_first())
    }
}

/// `forest_view` maps `node_view` over the run, index by index.
pub broadcast proof fn lemma_forest_view_len(ns: Seq<LayerNode>)
    ensures
        (#[trigger] forest_view(ns)).len() == ns.len(),
    decreases ns.len(),
{
    if ns.len() > 0 {
        lemma_forest_view_len(ns.drop_first());
    }
}

/// Each element of `forest_view` is the view of the node at that index.
pub broadcast proof fn lemma_forest_view_index(ns: Seq<LayerNode>, i: int)
    requires
        0 <= i < ns.len(),
    ensures
        forest_view(ns).len() == ns.len(),
        #[trigger] forest_view(ns)[i] == node_view(ns[i]),
    decreases ns.len(),
{
    lemma_forest_view_len(ns);
    if i > 0 {
        lemma_forest_view_index(ns.drop_first(), i - 1);
    }
}

impl NodeV {
    /// The node's identifier.
    pub open spec fn id(self) -> u64 {
        match self {
            NodeV::Image { id, .. } => id,
            NodeV::Group { id, .. } => id,
        }
    }

    /// The node's display name.
    pub open spec fn name(self) -> Seq<char> {
        match self {
            NodeV::Image { name, .. } => name,
            NodeV::Group { name, .. } => name,
        }
    }

    /// The node's own visible flag.
    pub open spec fn visible(self) -> bool {
        match self {
            NodeV::Image { visible, .. } => visible,
            NodeV::Group { visible, .. } => visible,
        }
    }

    /// The node's local placement.
    pub open spec fn transform(self) -> Transform {
        match self {
            NodeV::Image { transform, .. } => transform,
            NodeV::Group { transform, .. } => transform,
        }
    }

    /// The same node with the visible flag replaced.
    pub open spec fn with_visible(self, v: bool) -> NodeV {
        match self {
            NodeV::Image { id, name, image, transform, .. } => NodeV::Image {
                id,
                name,
                image,
                transform,
                visible: v,
            },
            NodeV::Group { id, name, children, transform, .. } => NodeV::Group {
                id,
                name,
                children,
                transform,
                visible: v,
            },
        }
    }

    /// The same node with the local placement replaced.
    pub open spec fn with_transform(self, t: Transform) -> NodeV {
        match self {
            NodeV::Image { id, name, image, visible, .. } => NodeV::Image {
                id,
                name,
                image,
                transform: t,
                visible,
            },
            NodeV::Group { id, name, children, visible, .. } => NodeV::Group {
                id,
                name,
                children,
                transform: t,
                visible,
            },
        }
    }

    /// The same group with its children replaced; an image part is left
    /// unchanged.
    pub open spec fn with_children(self, c: Seq<NodeV>) -> NodeV {
        match self {
            NodeV::Image { .. } => self,
            NodeV::Group { id, name, transform, visible, .. } => NodeV::Group {
                id,
                name,
                children: c,
                transform,
                visible,
            },
        }
    }

    /// Every identifier in the node's subtree, the node's own first,
    /// then its descendants' in depth-first pre-order.
    pub open spec fn subtree_ids(self) -> Seq<u64>
        decreases self,
    {
        match self {
            NodeV::Image { id, .. } => seq![id],
            NodeV::Group { id, children, .. } => seq![id] + forest_ids(children),
        }
    }

    /// Every image in the node's subtree satisfies the raster invariant.
    pub open spec fn wf_images(self) -> bool
        decreases self,
    {
        match self {
            NodeV::Image { image, .. } => image.wf(),
            NodeV::Group { children, .. } => forest_wf_images(children),
        }
    }
}

/// Every identifier in a run of subtrees, in depth-first pre-order.
pub open spec fn forest_ids(ns: Seq<NodeV>) -> Seq<u64>
    decreases ns,
{
    if ns.len() == 0 {
        Seq::empty()
    } else {
        ns[0].subtree_ids() + forest_ids(ns.drop_first())
    }
}

/// Every image under a run of subtrees satisfies the raster invariant.
pub open spec fn forest_wf_images(ns: Seq<NodeV>) -> bool
    decreases ns,
{
    forall|i: int| 0 <= i < ns.len() ==> (#[trigger] ns[i]).wf_images()
}

/// A well-formed forest: identifiers are unique across every node at
/// every depth, and every image buffer is well-formed.
pub open spec fn wf_forest(ns: Seq<NodeV>) -> bool {
    forest_ids(ns).no_duplicates() && forest_wf_images(ns)
}

/// Whether some node in `ns[i ..]`, at any depth, carries `id`.
pub open spec fn forest_has_from(ns: Seq<NodeV>, i: int, id: u64) -> bool
    decreases ns, ns.len() - i,
{
    if i < 0 || i >= ns.len() {
        false
    } else {
        ns[i].subtree_ids().contains(id) || forest_has_from(ns, i + 1, id)
    }
}

/// Whether some node of the forest, at any depth, carries `id`.
pub open spec fn forest_has(ns: Seq<NodeV>, id: u64) -> bool {
    forest_has_from(ns, 0, id)
}

/// `forest_has_from` looks exactly at the identifiers of the tail.
pub proof fn lemma_forest_has_from_ids(ns: Seq<NodeV>, i: int, id: u64)
    requires
        0 <= i <= ns.len(),
    ensures
        forest_has_from(ns, i, id) <==> exists|k: int|
            i <= k < ns.len() && (#[trigger] ns[k].subtree_ids()).contains(id),
    decreases ns.len() - i,
{
    if i < ns.len() {
        lemma_forest_has_from_ids(ns, i + 1, id);
    }
}

/// The first node of the subtree run `ns[i ..]`, at any depth and in
/// depth-first pre-order, that carries `id`.
pub open spec fn find_from(ns: Seq<NodeV>, i: int, id: u64) -> Option<NodeV>
    decreases ns, ns.len() - i, 0int,
{
    if i < 0 || i >= ns.len() {
        None
    } else if ns[i].id() == id {
        Some(ns[i])
    } else {
        let deeper = match ns[i] {
            NodeV::Group { children, .. } => find_in(children, id),
            NodeV::Image { .. } => None,
        };
        if deeper is Some {
            deeper
        } else {
            find_from(ns, i + 1, id)
        }
    }
}

/// The first node of the forest, in depth-first pre-order, carrying `id`.
pub open spec fn find_in(ns: Seq<NodeV>, id: u64) -> Option<NodeV>
    decreases ns, ns.len(), 1int,
{
    find_from(ns, 0, id)
}

impl LayerNode {
    /// The node's identifier.
    pub fn id(&self) -> (r: u64)
        ensures
            r == node_view(*self).id(),
    {
        match self {
            LayerNode::Image(im) => im.id,
            LayerNode::Group(g) => g.id,
        }
    }

    /// The node's display name.
    pub fn name(&self) -> (r: &String)
        ensures
            r@ == node_view(*self).name(),
    {
        match self {
            LayerNode::Image(im) => &im.name,
            LayerNode::Group(g) => &g.name,
        }
    }

    /// The node's own visible flag.
    pub fn visible(&self) -> (r: bool)
        ensures
            r == node_view(*self).visible(),
    {
        match self {
            LayerNode::Image(im) => im.visible,
            LayerNode::Group(g) => g.visible,
        }
    }

    /// Whether the node is a group.
    pub fn is_group(&self) -> (r: bool)
        ensures
            r == (node_view(*self) is Group),
    {
        match self {
            LayerNode::Image(_) => false,
            LayerNode::Group(_) => true,
        }
    }

    /// The node's local placement.
    pub fn transform(&self) -> (r: Transform)
        ensures
            r == node_view(*self).transform(),
    {
        match self {
            LayerNode::Image(im) => im.transform,
            LayerNode::Group(g) => g.transform,
        }
    }

    /// Replace the node's own visible flag.
    pub fn set_visible(&mut self, v: bool)
        ensures
            node_view(*final(self)) == node_view(*old(self)).with_visible(v),
    {
        match self {
            LayerNode::Image(im) => im.visible = v,
            LayerNode::Group(g) => g.visible = v,
        }
    }

    /// Replace the node's local placement.
    pub fn set_transform(&mut self, t: Transform)
        ensures
            node_view(*final(self)) == node_view(*old(self)).with_transform(t),
    {
        match self {
            LayerNode::Image(im) => im.transform = t,
            LayerNode::Group(g) => g.transform = t,
        }
    }
}

/// Depth-first pre-order search from index `i`: the executable half of
/// [`find_from`].
fn find_layer_from<'a>(ns: &'a Vec<LayerNode>, i: usize, id: u64) -> (r: Option<&'a LayerNode>)
    requires
        i <= ns@.len(),
    ensures
        match r {
            Some(n) => find_from(forest_view(ns@), i as int, id) == Some(node_view(*n)),
            None => find_from(forest_view(ns@), i as int, id) is None,
        },
    decreases ns, ns@.len() - i,
{
    proof {
        lemma_forest_view_len(ns@);
    }
    if i == ns.len() {
        return None;
    }
    proof {
        lemma_forest_view_index(ns@, i as int);
    }
    let n = &ns[i];
    if n.id() == id {
        return Some(n);
    }
    let deeper: Option<&'a LayerNode> = match n {
        LayerNode::Group(g) => {
            let d = find_layer_from(&g.children, 0, id);
            proof {
                assert(node_view(*n) matches NodeV::Group { children, .. }
                    && children == forest_view(g.children@));
                assert(find_in(forest_view(g.children@), id)
                    == find_from(forest_view(g.children@), 0, id));
            }
            d
        },
        LayerNode::Image(_) => None,
    };
    match deeper {
        Some(found) => Some(found),
        None => find_layer_from(ns, i + 1, id),
    }
}

/// Depth-first pre-order search: the first node, at any depth, whose
/// identifier is `id`, or `None` if the identifier is not in the tree.
/// A missing identifier is an expected outcome, not an error.
pub fn find_layer<'a>(ns: &'a Vec<LayerNode>, id: u64) -> (r: Option<&'a LayerNode>)
    ensures
        match r {
            Some(n) => find_in(forest_view(ns@), id) == Some(node_view(*n)),
            None => find_in(forest_view(ns@), id) is None,
        },
{
    find_layer_from(ns, 0, id)
}

} // verus!

// Field edits addressed by identifier.

verus! {

/// An edit of one node's own fields: its visible flag or its placement.
#[derive(Clone, Copy, Debug, PartialEq, Eq, Structural)]
pub enum NodeEdit {
    Visible(bool),
    Place(Transform),
    Nudge { ddx: i64, ddy: i64 },
    Snap,
    Reorder { index: usize, up: bool },
}

/// A checked swap of the node at `index` with its neighbour above
/// (`up`, toward the back of the paint order) or below. An `index`
/// whose neighbour would fall outside the run leaves it unchanged.
pub open spec fn reorder_v(ns: Seq<NodeV>, index: int, up: bool) -> (Seq<NodeV>, bool) {
    if up && 0 < index < ns.len() {
        (ns.update(index - 1, ns[index]).update(index, ns[index - 1]), true)
    } else if !up && 0 <= index && index + 1 < ns.len() {
        (ns.update(index, ns[index + 1]).update(index + 1, ns[index]), true)
    } else {
        (ns, false)
    }
}

/// The edited node: the identifier and the image are never touched; a
/// reorder permutes a group's children and leaves an image part alone.
pub open spec fn apply_edit_v(e: NodeEdit, n: NodeV) -> NodeV {
    match e {
        NodeEdit::Visible(v) => n.with_visible(v),
        NodeEdit::Place(t) => n.with_transform(t),
        NodeEdit::Nudge { ddx, ddy } => n.with_transform(
            Transform {
                dx: crate::fx::fx_add(n.transform().dx as int, ddx as int) as i64,
                dy: crate::fx::fx_add(n.transform().dy as int, ddy as int) as i64,
                scale: n.transform().scale,
            },
        ),
        NodeEdit::Snap => n.with_transform(
            Transform {
                dx: crate::fx::snap_coord(n.transform().dx as int) as i64,
                dy: crate::fx::snap_coord(n.transform().dy as int) as i64,
                scale: n.transform().scale,
            },
        ),
        NodeEdit::Reorder { index, up } => match n {
            NodeV::Image { .. } => n,
            NodeV::Group { children, .. } => n.with_children(
                reorder_v(children, index as int, up).0,
            ),
        },
    }
}

/// Apply `e` to the first node of the subtree rooted at `n` (the root
/// first, then its descendants in depth-first pre-order) that carries
/// `id`; report whether one was found.
pub open spec fn edit_node_v(n: NodeV, id: u64, e: NodeEdit) -> (NodeV, bool)
    decreases n, 0int,
{
    if n.id() == id {
        (apply_edit_v(e, n), true)
    } else {
        match n {
            NodeV::Image { .. } => (n, false),
            NodeV::Group { children, .. } => {
                let (c2, found) = edit_forest_v(children, 0, id, e);
                if found {
                    (n.with_children(c2), true)
                } else {
                    (n, false)
                }
            },
        }
    }
}

/// Apply `e` to the first node of `ns[i ..]`, at any depth and in
/// depth-first pre-order, that carries `id`.
pub open spec fn edit_forest_v(ns: Seq<NodeV>, i: int, id: u64, e: NodeEdit) -> (Seq<NodeV>, bool)
    decreases ns, ns.len() - i, 1int,
{
    if i < 0 || i >= ns.len() {
        (ns, false)
    } else {
        let (n2, found) = edit_node_v(ns[i], id, e);
        if found {
            (ns.update(i, n2), true)
        } else {
            edit_forest_v(ns, i + 1, id, e)
        }
    }
}

/// An edit that found no carrier of `id` leaves the forest unchanged.
pub proof fn lemma_edit_forest_unfound(ns: Seq<NodeV>, i: int, id: u64, e: NodeEdit)
    ensures
        !edit_forest_v(ns, i, id, e).1 ==> edit_forest_v(ns, i, id, e).0 == ns,
    decreases ns.len() - i,
{
    if 0 <= i < ns.len() {
        lemma_edit_forest_unfound(ns, i + 1, id, e);
    }
}

/// Swap the node at `index` with its neighbour above (`up`) or below,
/// within the one sibling run it lives in; refuse, and leave the run
/// unchanged, when the neighbour would fall outside the run.
pub fn reorder_layers(ns: &mut Vec<LayerNode>, index: usize, up: bool) -> (moved: bool)
    ensures
        (forest_view(final(ns)@), moved) == reorder_v(forest_view(old(ns)@), index as int, up),
{
    proof {
        lemma_forest_view_len(old(ns)@);
    }
    let ghost vs = forest_view(ns@);
    let n_len = ns.len();
    if up && 0 < index && index < n_len {
        let moved_node = ns.remove(index);
        ns.insert(index - 1, moved_node);
        proof {
            assert(ns@ =~= old(ns)@.update(index - 1, old(ns)@[index as int]).update(
                index as int,
                old(ns)@[index - 1],
            ));
            lemma_forest_view_update(old(ns)@, index - 1, ns@[index - 1]);
            lemma_forest_view_update(
                old(ns)@.update(index - 1, ns@[index - 1]),
                index as int,
                ns@[index as int],
            );
            lemma_forest_view_index(old(ns)@, index as int);
            lemma_forest_view_index(old(ns)@, index - 1);
            assert(forest_view(ns@) =~= reorder_v(vs, index as int, up).0);
            assert(reorder_v(vs, index as int, up).1 == true);
        }
        true
    } else if !up && index < n_len && index + 1 < n_len {
        let moved_node = ns.remove(index + 1);
        ns.insert(index, moved_node);
        proof {
            assert(ns@ =~= old(ns)@.update(index as int, old(ns)@[index + 1]).update(
                index + 1,
                old(ns)@[index as int],
            ));
            lemma_forest_view_update(old(ns)@, index as int, ns@[index as int]);
            lemma_forest_view_update(
                old(ns)@.update(index as int, ns@[index as int]),
                index + 1,
                ns@[index + 1],
            );
            lemma_forest_view_index(old(ns)@, index as int);
            lemma_forest_view_index(old(ns)@, index + 1);
            assert(forest_view(ns@) =~= reorder_v(vs, index as int, up).0);
            assert(reorder_v(vs, index as int, up).1 == true);
        }
        true
    } else {
        false
    }
}

impl LayerNode {
    /// Apply an edit to this node's own fields.
    fn apply_edit(&mut self, e: NodeEdit)
        ensures
            node_view(*final(self)) == apply_edit_v(e, node_view(*old(self))),
    {
        match e {
            NodeEdit::Visible(v) => self.set_visible(v),
            NodeEdit::Place(t) => self.set_transform(t),
            NodeEdit::Nudge { ddx, ddy } => {
                let t = self.transform();
                self.set_transform(
                    Transform {
                        dx: crate::fx::add_fx(t.dx, ddx),
                        dy: crate::fx::add_fx(t.dy, ddy),
                        scale: t.scale,
                    },
                );
            },
            NodeEdit::Snap => {
                let t = self.transform();
                self.set_transform(
                    Transform {
                        dx: crate::fx::snap_fx(t.dx),
                        dy: crate::fx::snap_fx(t.dy),
                        scale: t.scale,
                    },
                );
            },
            NodeEdit::Reorder { index, up } => {
                match self {
                    LayerNode::Image(_) => {},
                    LayerNode::Group(g) => {
                        reorder_layers(&mut g.children, index, up);
                    },
                }
            },
        }
    }
}

/// The executable half of [`edit_node_v`]; `nv` is the node's value at
/// entry and serves as the termination measure.
fn edit_layer_node(n: &mut LayerNode, id: u64, e: NodeEdit, Ghost(nv): Ghost<NodeV>) -> (found:
    bool)
    requires
        nv == node_view(*old(n)),
    ensures
        (node_view(*final(n)), found) == edit_node_v(nv, id, e),
    decreases nv, 0int,
{
    if n.id() == id {
        n.apply_edit(e);
        return true;
    }
    match n {
        LayerNode::Image(_) => {
            proof {
                assert(node_view(*n) == nv);
                assert(edit_node_v(nv, id, e) == (nv, false));
            }
            false
        },
        LayerNode::Group(g) => {
            let found = edit_layer_from(
                &mut g.children,
                0,
                id,
                e,
                Ghost(nv->Group_children),
            );
            proof {
                if found {
                    assert(edit_node_v(nv, id, e) == (
                        nv.with_children(edit_forest_v(nv->Group_children, 0, id, e).0),
                        true,
                    ));
                } else {
                    lemma_edit_forest_unfound(nv->Group_children, 0, id, e);
                }
            }
            found
        },
    }
}

/// The executable half of [`edit_forest_v`]; `vs` is the run's value at
/// entry and serves as the termination measure.
fn edit_layer_from(
    ns: &mut Vec<LayerNode>,
    i: usize,
    id: u64,
    e: NodeEdit,
    Ghost(vs): Ghost<Seq<NodeV>>,
) -> (found: bool)
    requires
        i <= old(ns)@.len(),
        vs == forest_view(old(ns)@),
    ensures
        (forest_view(final(ns)@), found) == edit_forest_v(vs, i as int, id, e),
    decreases vs, vs.len() - i, 1int,
{
    proof {
        lemma_forest_view_len(old(ns)@);
    }
    if i == ns.len() {
        return false;
    }
    proof {
        lemma_forest_view_index(old(ns)@, i as int);
    }
    let mut node = ns.remove(i);
    let found = edit_layer_node(&mut node, id, e, Ghost(vs[i as int]));
    ns.insert(i, node);
    proof {
        assert(ns@ =~= old(ns)@.update(i as int, node));
        lemma_forest_view_update(old(ns)@, i as int, node);
        if !found {
            assert(forest_view(ns@) =~= vs);
        }
    }
    if found {
        true
    } else {
        edit_layer_from(ns, i + 1, id, e, Ghost(vs))
    }
}

/// `forest_view` commutes with replacing the node at one index.
pub proof fn lemma_forest_view_update(ns: Seq<LayerNode>, i: int, n: LayerNode)
    requires
        0 <= i < ns.len(),
    ensures
        forest_view(ns.update(i, n)) == forest_view(ns).update(i, node_view(n)),
{
    lemma_forest_view_len(ns);
    lemma_forest_view_len(ns.update(i, n));
    assert forall|k: int| 0 <= k < ns.len() implies forest_view(ns.update(i, n))[k]
        == forest_view(ns).update(i, node_view(n))[k] by {
        lemma_forest_view_index(ns.update(i, n), k);
        lemma_forest_view_index(ns, k);
    }
    assert(forest_view(ns.update(i, n)) =~= forest_view(ns).update(i, node_view(n)));
}

/// Apply an edit to the first node of the tree, at any depth and in
/// depth-first pre-order, that carries `id`; report whether one was
/// found. A missing identifier leaves the tree unchanged.
pub fn edit_layer(ns: &mut Vec<LayerNode>, id: u64, e: NodeEdit) -> (found: bool)
    ensures
        (forest_view(final(ns)@), found) == edit_forest_v(forest_view(old(ns)@), 0, id, e),
{
    let ghost vs = forest_view(ns@);
    edit_layer_from(ns, 0, id, e, Ghost(vs))
}

/// Set the visible flag of the node carrying `id`.
pub fn set_layer_visible(ns: &mut Vec<LayerNode>, id: u64, v: bool) -> (found: bool)
    ensures
        (forest_view(final(ns)@), found) == edit_forest_v(
            forest_view(old(ns)@),
            0,
            id,
            NodeEdit::Visible(v),
        ),
{
    edit_layer(ns, id, NodeEdit::Visible(v))
}

/// Set the local placement of the node carrying `id`.
pub fn set_layer_transform(ns: &mut Vec<LayerNode>, id: u64, t: Transform) -> (found: bool)
    ensures
        (forest_view(final(ns)@), found) == edit_forest_v(
            forest_view(old(ns)@),
            0,
            id,
            NodeEdit::Place(t),
        ),
{
    edit_layer(ns, id, NodeEdit::Place(t))
}

} // verus!

// Deletion by identifier.

verus! {

/// First index at or after `i` whose node itself carries `id`, or `-1`.
pub open spec fn level_pos(ns: Seq<NodeV>, i: int, id: u64) -> int
    decreases ns.len() - i,
{
    if i < 0 || i >= ns.len() {
        -1
    } else if ns[i].id() == id {
        i
    } else {
        level_pos(ns, i + 1, id)
    }
}

/// Remove the node carrying `id`, with its whole subtree, from the
/// forest: the current level is scanned first, then each group's
/// children in order, as deep as needed.
pub open spec fn delete_forest_v(ns: Seq<NodeV>, id: u64) -> (Seq<NodeV>, bool)
    decreases ns, 1int, 0int,
{
    let p = level_pos(ns, 0, id);
    if p >= 0 {
        (ns.remove(p), true)
    } else {
        delete_groups_v(ns, 0, id)
    }
}

/// Remove the node carrying `id` from the children of one of the groups
/// `ns[i ..]`, trying each group in order.
pub open spec fn delete_groups_v(ns: Seq<NodeV>, i: int, id: u64) -> (Seq<NodeV>, bool)
    decreases ns, 0int, ns.len() - i,
{
    if i < 0 || i >= ns.len() {
        (ns, false)
    } else {
        match ns[i] {
            NodeV::Group { children, .. } => {
                let (c2, found) = delete_forest_v(children, id);
                if found {
                    (ns.update(i, ns[i].with_children(c2)), true)
                } else {
                    delete_groups_v(ns, i + 1, id)
                }
            },
            NodeV::Image { .. } => delete_groups_v(ns, i + 1, id),
        }
    }
}

/// A deletion that found no carrier of `id` leaves the forest unchanged.
pub proof fn lemma_delete_forest_unfound(ns: Seq<NodeV>, id: u64)
    ensures
        !delete_forest_v(ns, id).1 ==> delete_forest_v(ns, id).0 == ns,
    decreases ns, 1int, 0int,
{
    if level_pos(ns, 0, id) < 0 {
        lemma_delete_groups_unfound(ns, 0, id);
    }
}

/// Companion of [`lemma_delete_forest_unfound`] for the group scan.
pub proof fn lemma_delete_groups_unfound(ns: Seq<NodeV>, i: int, id: u64)
    ensures
        !delete_groups_v(ns, i, id).1 ==> delete_groups_v(ns, i, id).0 == ns,
    decreases ns, 0int, ns.len() - i,
{
    if 0 <= i < ns.len() {
        match ns[i] {
            NodeV::Group { children, .. } => {
                lemma_delete_forest_unfound(children, id);
                lemma_delete_groups_unfound(ns, i + 1, id);
            },
            NodeV::Image { .. } => {
                lemma_delete_groups_unfound(ns, i + 1, id);
            },
        }
    }
}

/// `forest_view` commutes with removing the node at one index.
pub proof fn lemma_forest_view_remove(ns: Seq<LayerNode>, i: int)
    requires
        0 <= i < ns.len(),
    ensures
        forest_view(ns.remove(i)) == forest_view(ns).remove(i),
{
    lemma_forest_view_len(ns);
    lemma_forest_view_len(ns.remove(i));
    assert forall|k: int| 0 <= k < ns.len() - 1 implies forest_view(ns.remove(i))[k]
        == forest_view(ns).remove(i)[k] by {
        lemma_forest_view_index(ns.remove(i), k);
        if k < i {
            lemma_forest_view_index(ns, k);
        } else {
            lemma_forest_view_index(ns, k + 1);
        }
    }
    assert(forest_view(ns.remove(i)) =~= forest_view(ns).remove(i));
}

/// The executable half of [`delete_forest_v`]; `vs` is the run's value
/// at entry and serves as the termination measure.
fn delete_layer_rec(ns: &mut Vec<LayerNode>, id: u64, Ghost(vs): Ghost<Seq<NodeV>>) -> (deleted:
    bool)
    requires
        vs == forest_view(old(ns)@),
    ensures
        (forest_view(final(ns)@), deleted) == delete_forest_v(vs, id),
    decreases vs, 1int, 0int,
{
    proof {
        lemma_forest_view_len(old(ns)@);
    }
    let n = ns.len();
    let mut i: usize = 0;
    while i < n
        invariant
            n == ns@.len(),
            i <= n,
            vs == forest_view(ns@),
            vs.len() == n,
            level_pos(vs, 0, id) == level_pos(vs, i as int, id),
        decreases n - i,
    {
        proof {
            lemma_forest_view_index(ns@, i as int);
        }
        if ns[i].id() == id {
            let ghost pre = ns@;
            let _removed = ns.remove(i);
            proof {
                lemma_forest_view_remove(pre, i as int);
                assert(level_pos(vs, i as int, id) == i as int);
            }
            return true;
        }
        i += 1;
    }
    assert(level_pos(vs, 0, id) == -1);
    let mut i: usize = 0;
    while i < n
        invariant
            n == ns@.len(),
            i <= n,
            vs == forest_view(ns@),
            vs.len() == n,
            level_pos(vs, 0, id) == -1,
            delete_groups_v(vs, 0, id) == delete_groups_v(vs, i as int, id),
        decreases n - i,
    {
        proof {
            lemma_forest_view_index(ns@, i as int);
        }
        let ghost pre = ns@;
        let mut node = ns.remove(i);
        let deleted = match &mut node {
            LayerNode::Group(g) => {
                let ghost gvs = vs[i as int]->Group_children;
                delete_layer_rec(&mut g.children, id, Ghost(gvs))
            },
            LayerNode::Image(_) => false,
        };
        ns.insert(i, node);
        proof {
            assert(ns@ =~= pre.update(i as int, node));
            lemma_forest_view_update(pre, i as int, node);
            if deleted {
                assert(node_view(node) == vs[i as int].with_children(
                    delete_forest_v(vs[i as int]->Group_children, id).0,
                ));
                assert(delete_groups_v(vs, i as int, id) == (
                    forest_view(ns@),
                    true,
                ));
            } else {
                if vs[i as int] is Group {
                    lemma_delete_forest_unfound(vs[i as int]->Group_children, id);
                }
                assert(forest_view(ns@) =~= vs);
            }
        }
        if deleted {
            return true;
        }
        i += 1;
    }
    false
}

/// Remove the node carrying `id`, and with it its entire subtree, from
/// wherever in the tree it lives; report whether a removal occurred.
/// The current level is searched before any group is descended into.
/// A missing identifier is an expected outcome and leaves the tree
/// unchanged.
pub fn delete_layer(ns: &mut Vec<LayerNode>, id: u64) -> (deleted: bool)
    ensures
        (forest_view(final(ns)@), deleted) == delete_forest_v(forest_view(old(ns)@), id),
{
    let ghost vs = forest_view(ns@);
    delete_layer_rec(ns, id, Ghost(vs))
}

} // verus!

// Insertion, either at the root or under a chosen group.

verus! {

/// Try to append `nv` to the children of the first node of the subtree
/// rooted at `n` (in depth-first pre-order) that carries `gid`:
/// `Some(true)` appended, `Some(false)` the carrier is an image part,
/// `None` no carrier here.
pub open spec fn insert_node_v(n: NodeV, gid: u64, nv: NodeV) -> (NodeV, Option<bool>)
    decreases n, 0int,
{
    if n.id() == gid {
        match n {
            NodeV::Group { children, .. } => (n.with_children(children.push(nv)), Some(true)),
            NodeV::Image { .. } => (n, Some(false)),
        }
    } else {
        match n {
            NodeV::Image { .. } => (n, None),
            NodeV::Group { children, .. } => {
                let (c2, st) = insert_forest_from_v(children, 0, gid, nv);
                if st is Some {
                    (n.with_children(c2), st)
                } else {
                    (n, None)
                }
            },
        }
    }
}

/// Try to append `nv` under the first carrier of `gid` in `ns[i ..]`.
pub open spec fn insert_forest_from_v(ns: Seq<NodeV>, i: int, gid: u64, nv: NodeV) -> (
    Seq<NodeV>,
    Option<bool>,
)
    decreases ns, ns.len() - i, 1int,
{
    if i < 0 || i >= ns.len() {
        (ns, None)
    } else {
        let (n2, st) = insert_node_v(ns[i], gid, nv);
        if st is Some {
            (ns.update(i, n2), st)
        } else {
            insert_forest_from_v(ns, i + 1, gid, nv)
        }
    }
}

/// Where a freshly created node ends up: under the chosen group when
/// one is chosen and its identifier resolves to a group, at the end of
/// the root run otherwise.
pub open spec fn insert_layer_v(ns: Seq<NodeV>, nv: NodeV, target: Option<u64>) -> Seq<NodeV> {
    match target {
        Option::None => ns.push(nv),
        Option::Some(gid) => {
            let (ns2, st) = insert_forest_from_v(ns, 0, gid, nv);
            if st == Some(true) {
                ns2
            } else {
                ns.push(nv)
            }
        },
    }
}

/// An insertion that did not append leaves the node unchanged.
pub proof fn lemma_insert_node_unplaced(n: NodeV, gid: u64, nv: NodeV)
    ensures
        insert_node_v(n, gid, nv).1 != Some(true) ==> insert_node_v(n, gid, nv).0 == n,
    decreases n, 0int, 0int,
{
    if n.id() != gid {
        match n {
            NodeV::Group { children, .. } => {
                lemma_insert_forest_unplaced(children, 0, gid, nv);
            },
            NodeV::Image { .. } => {},
        }
    }
}

/// An insertion that did not append leaves the forest unchanged.
pub proof fn lemma_insert_forest_unplaced(ns: Seq<NodeV>, i: int, gid: u64, nv: NodeV)
    ensures
        insert_forest_from_v(ns, i, gid, nv).1 != Some(true)
            ==> insert_forest_from_v(ns, i, gid, nv).0 == ns,
    decreases ns, ns.len() - i, 1int,
{
    if 0 <= i < ns.len() {
        lemma_insert_forest_unplaced(ns, i + 1, gid, nv);
        lemma_insert_node_unplaced(ns[i], gid, nv);
        let (n2, st) = insert_node_v(ns[i], gid, nv);
        if st == Some(false) {
            assert(n2 == ns[i]);
            assert(ns.update(i, n2) =~= ns);
        }
    }
}

/// `forest_view` commutes with appending a node.
pub proof fn lemma_forest_view_push(ns: Seq<LayerNode>, n: LayerNode)
    ensures
        forest_view(ns.push(n)) == forest_view(ns).push(node_view(n)),
{
    lemma_forest_view_len(ns);
    lemma_forest_view_len(ns.push(n));
    assert forall|k: int| 0 <= k < ns.len() + 1 implies forest_view(ns.push(n))[k]
        == forest_view(ns).push(node_view(n))[k] by {
        lemma_forest_view_index(ns.push(n), k);
        if k < ns.len() {
            lemma_forest_view_index(ns, k);
        }
    }
    assert(forest_view(ns.push(n)) =~= forest_view(ns).push(node_view(n)));
}

/// The executable half of [`insert_node_v`]; hands `node` back when it
/// was not appended.
fn insert_under_node(n: &mut LayerNode, gid: u64, node: LayerNode, Ghost(nv): Ghost<NodeV>) -> (r:
    (Option<LayerNode>, Option<bool>))
    requires
        nv == node_view(*old(n)),
    ensures
        (node_view(*final(n)), r.1) == insert_node_v(nv, gid, node_view(node)),
        r.1 == Some(true) ==> r.0 is None,
        r.1 != Some(true) ==> r.0 == Some(node),
    decreases nv, 0int,
{
    if n.id() == gid {
        match n {
            LayerNode::Group(g) => {
                let ghost pre = g.children@;
                g.children.push(node);
                proof {
                    lemma_forest_view_push(pre, node);
                }
                (None, Some(true))
            },
            LayerNode::Image(_) => (Some(node), Some(false)),
        }
    } else {
        match n {
            LayerNode::Image(_) => (Some(node), None),
            LayerNode::Group(g) => {
                let (back, st) = insert_under_from(
                    &mut g.children,
                    0,
                    gid,
                    node,
                    Ghost(nv->Group_children),
                );
                proof {
                    if st is None {
                        lemma_insert_forest_unplaced(nv->Group_children, 0, gid, node_view(node));
                    }
                }
                match st {
                    Some(b) => (back, Some(b)),
                    None => (back, None),
                }
            },
        }
    }
}

/// The executable half of [`insert_forest_from_v`].
fn insert_under_from(
    ns: &mut Vec<LayerNode>,
    i: usize,
    gid: u64,
    node: LayerNode,
    Ghost(vs): Ghost<Seq<NodeV>>,
) -> (r: (Option<LayerNode>, Option<bool>))
    requires
        i <= old(ns)@.len(),
        vs == forest_view(old(ns)@),
    ensures
        (forest_view(final(ns)@), r.1) == insert_forest_from_v(vs, i as int, gid, node_view(node)),
        r.1 == Some(true) ==> r.0 is None,
        r.1 != Some(true) ==> r.0 == Some(node),
    decreases vs, vs.len() - i, 1int,
{
    proof {
        lemma_forest_view_len(old(ns)@);
    }
    if i == ns.len() {
        return (Some(node), None);
    }
    proof {
        lemma_forest_view_index(old(ns)@, i as int);
    }
    let mut picked = ns.remove(i);
    let (back, st) = insert_under_node(&mut picked, gid, node, Ghost(vs[i as int]));
    ns.insert(i, picked);
    proof {
        assert(ns@ =~= old(ns)@.update(i as int, picked));
        lemma_forest_view_update(old(ns)@, i as int, picked);
        if st is None {
            lemma_insert_forest_unplaced(vs, i as int, gid, node_view(node));
            assert(insert_node_v(vs[i as int], gid, node_view(node)).0 == vs[i as int]);
            assert(forest_view(ns@) =~= vs);
        }
    }
    match st {
        Some(b) => (back, Some(b)),
        None => match back {
            Some(nd) => insert_under_from(ns, i + 1, gid, nd, Ghost(vs)),
            None => (None, None),
        },
    }
}

/// Append `node` to the tree: under the chosen group when `target`
/// names an existing group, at the end of the root run otherwise (also
/// when `target` names an image part or a missing identifier). This is
/// the sole way hierarchy is built.
pub fn insert_layer(ns: &mut Vec<LayerNode>, node: LayerNode, target: Option<u64>)
    ensures
        forest_view(final(ns)@) == insert_layer_v(
            forest_view(old(ns)@),
            node_view(node),
            target,
        ),
{
    let ghost vs = forest_view(ns@);
    match target {
        None => {
            proof {
                lemma_forest_view_push(ns@, node);
            }
            ns.push(node);
        },
        Some(gid) => {
            let (back, st) = insert_under_from(ns, 0, gid, node, Ghost(vs));
            let placed = match st {
                Some(true) => true,
                _ => false,
            };
            if !placed {
                match back {
                    Some(nd) => {
                        proof {
                            lemma_insert_forest_unplaced(vs, 0, gid, node_view(nd));
                            lemma_forest_view_push(ns@, nd);
                        }
                        ns.push(nd);
                    },
                    None => {
                        proof {
                            assert(false);
                        }
                    },
                }
            }
        },
    }
}

} // verus!

// Identifier accounting: how each operation moves the set of identifiers.

verus! {

use vstd::seq_lib::lemma_multiset_commutative;

/// `forest_ids` distributes over concatenation.
pub proof fn lemma_forest_ids_concat(a: Seq<NodeV>, b: Seq<NodeV>)
    ensures
        forest_ids(a + b) == forest_ids(a) + forest_ids(b),
    decreases a.len(),
{
    if a.len() == 0 {
        assert(a + b =~= b);
        assert(forest_ids(a) + forest_ids(b) =~= forest_ids(b));
    } else {
        lemma_forest_ids_concat(a.drop_first(), b);
        assert((a + b).drop_first() =~= a.drop_first() + b);
        assert((a + b)[0] == a[0]);
        assert(forest_ids(a + b) == a[0].subtree_ids() + (forest_ids(a.drop_first()) + forest_ids(
            b,
        )));
        assert(a[0].subtree_ids() + (forest_ids(a.drop_first()) + forest_ids(b)) =~= (
        a[0].subtree_ids() + forest_ids(a.drop_first())) + forest_ids(b));
    }
}

/// `forest_ids` split at one index: the identifiers before, within and
/// after the node at `i`.
pub proof fn lemma_forest_ids_decompose(ns: Seq<NodeV>, i: int)
    requires
        0 <= i < ns.len(),
    ensures
        forest_ids(ns) == forest_ids(ns.take(i)) + ns[i].subtree_ids() + forest_ids(
            ns.skip(i + 1),
        ),
{
    assert(ns =~= ns.take(i) + seq![ns[i]] + ns.skip(i + 1));
    lemma_forest_ids_concat(ns.take(i) + seq![ns[i]], ns.skip(i + 1));
    lemma_forest_ids_concat(ns.take(i), seq![ns[i]]);
    assert(forest_ids(seq![ns[i]]) == ns[i].subtree_ids() + forest_ids(Seq::<NodeV>::empty()))
        by {
        assert(seq![ns[i]].drop_first() =~= Seq::<NodeV>::empty());
    }
    assert(ns[i].subtree_ids() + forest_ids(Seq::<NodeV>::empty()) =~= ns[i].subtree_ids());
}

/// A forest carries `id` exactly when `id` is among its identifiers.
pub proof fn lemma_forest_has_iff_ids(ns: Seq<NodeV>, id: u64)
    ensures
        forest_has(ns, id) <==> forest_ids(ns).contains(id),
{
    lemma_forest_has_from_ids(ns, 0, id);
    if forest_has(ns, id) {
        let k = choose|k: int|
            0 <= k < ns.len() && (#[trigger] ns[k].subtree_ids()).contains(id);
        lemma_forest_ids_decompose(ns, k);
        let j = choose|j: int| 0 <= j < ns[k].subtree_ids().len() && ns[k].subtree_ids()[j] == id;
        assert(forest_ids(ns)[forest_ids(ns.take(k)).len() + j] == id);
    }
    if forest_ids(ns).contains(id) {
        let j = choose|j: int| 0 <= j < forest_ids(ns).len() && forest_ids(ns)[j] == id;
        lemma_forest_has_split(ns, id, j);
    }
}

/// An identifier at position `j` of `forest_ids` lies in some node's
/// subtree.
proof fn lemma_forest_has_split(ns: Seq<NodeV>, id: u64, j: int)
    requires
        0 <= j < forest_ids(ns).len(),
        forest_ids(ns)[j] == id,
    ensures
        exists|k: int| 0 <= k < ns.len() && (#[trigger] ns[k].subtree_ids()).contains(id),
    decreases ns.len(),
{
    if ns.len() > 0 {
        if j < ns[0].subtree_ids().len() {
            assert(ns[0].subtree_ids()[j] == id);
            assert(ns[0].subtree_ids().contains(id));
        } else {
            lemma_forest_has_split(ns.drop_first(), id, j - ns[0].subtree_ids().len());
            let k = choose|k: int|
                0 <= k < ns.drop_first().len() && (#[trigger] ns.drop_first()[k].subtree_ids())
                    .contains(id);
            assert(ns[k + 1].subtree_ids().contains(id));
        }
    }
}

/// The depth-first search finds a node exactly when the forest carries
/// the identifier; the node it finds carries it.
pub proof fn lemma_find_from_has(ns: Seq<NodeV>, i: int, id: u64)
    requires
        0 <= i <= ns.len(),
    ensures
        (find_from(ns, i, id) is Some) <==> forest_has_from(ns, i, id),
        find_from(ns, i, id) matches Some(n) ==> n.id() == id,
    decreases ns, ns.len() - i, 0int,
{
    if i < ns.len() {
        lemma_subtree_has(ns[i], id);
        match ns[i] {
            NodeV::Group { children, .. } => {
                lemma_find_from_has(children, 0, id);
                lemma_find_from_has(ns, i + 1, id);
                assert(find_in(children, id) == find_from(children, 0, id));
            },
            NodeV::Image { .. } => {
                lemma_find_from_has(ns, i + 1, id);
            },
        }
    }
}

/// A node's subtree carries `id` exactly when the node itself does or
/// one of its children's subtrees does.
pub proof fn lemma_subtree_has(n: NodeV, id: u64)
    ensures
        n.subtree_ids().contains(id) <==> (n.id() == id || (n matches NodeV::Group {
            children,
            ..
        } && forest_has(children, id))),
    decreases n, 0int, 1int,
{
    match n {
        NodeV::Image { .. } => {
            assert(n.subtree_ids() =~= seq![n.id()]);
            assert(n.subtree_ids()[0] == n.id());
            if n.subtree_ids().contains(id) {
                let j = choose|j: int|
                    0 <= j < n.subtree_ids().len() && n.subtree_ids()[j] == id;
                assert(j == 0);
            }
            if n.id() == id {
                assert(n.subtree_ids()[0] == id);
            }
        },
        NodeV::Group { children, .. } => {
            lemma_forest_has_iff_ids(children, id);
            assert(n.subtree_ids() == seq![n.id()] + forest_ids(children));
            if n.subtree_ids().contains(id) {
                let j = choose|j: int|
                    0 <= j < n.subtree_ids().len() && n.subtree_ids()[j] == id;
                if j > 0 {
                    assert(forest_ids(children)[j - 1] == id);
                }
            }
            if n.id() == id {
                assert(n.subtree_ids()[0] == id);
            }
            if forest_ids(children).contains(id) {
                let j = choose|j: int|
                    0 <= j < forest_ids(children).len() && forest_ids(children)[j] == id;
                assert(n.subtree_ids()[j + 1] == id);
            }
        },
    }
}

} // verus!

// Edits and reorders keep the identifier population unchanged.

verus! {

/// Identifiers with no duplicates stay duplicate-free in any sequence
/// whose identifier counts do not grow.
pub proof fn lemma_no_dup_within(a: Seq<u64>, b: Seq<u64>)
    requires
        b.no_duplicates(),
        forall|x: u64| #[trigger] a.to_multiset().count(x) <= b.to_multiset().count(x),
    ensures
        a.no_duplicates(),
{
    broadcast use vstd::seq_lib::group_to_multiset_ensures;

    b.lemma_multiset_has_no_duplicates();
    assert forall|x: u64| a.to_multiset().contains(x) implies a.to_multiset().count(x) == 1 by {
        assert(a.to_multiset().count(x) >= 1);
        assert(b.to_multiset().count(x) >= 1);
        assert(b.to_multiset().contains(x));
    }
    a.lemma_multiset_has_no_duplicates_conv();
}

/// A checked sibling swap permutes the identifiers and preserves the
/// image invariants.
pub proof fn lemma_reorder_ids(c: Seq<NodeV>, index: int, up: bool)
    ensures
        forest_ids(reorder_v(c, index, up).0).to_multiset() == forest_ids(c).to_multiset(),
        forest_wf_images(c) ==> forest_wf_images(reorder_v(c, index, up).0),
{
    let (c2, moved) = reorder_v(c, index, up);
    if moved {
        let a = if up {
            index - 1
        } else {
            index
        };
        let b = a + 1;
        assert(c2 =~= c.take(a) + (seq![c[b], c[a]] + c.skip(b + 1)));
        assert(c =~= c.take(a) + (seq![c[a], c[b]] + c.skip(b + 1)));
        lemma_pair_swap_ids(c.take(a), c[a], c[b], c.skip(b + 1));
        assert forall|k: int| 0 <= k < c2.len() && forest_wf_images(c) implies (
        #[trigger] c2[k]).wf_images() by {
            if k != a && k != b {
                assert(c2[k] == c[k]);
            }
        }
    }
}

/// Swapping the two middle nodes of `p + [x, y] + s` permutes the
/// identifier sequence's multiset.
proof fn lemma_pair_swap_ids(p: Seq<NodeV>, x: NodeV, y: NodeV, s: Seq<NodeV>)
    ensures
        forest_ids(p + (seq![x, y] + s)).to_multiset() == forest_ids(
            p + (seq![y, x] + s),
        ).to_multiset(),
{
    broadcast use vstd::seq_lib::lemma_multiset_commutative;

    lemma_forest_ids_concat(p, seq![x, y] + s);
    lemma_forest_ids_concat(p, seq![y, x] + s);
    lemma_forest_ids_concat(seq![x, y], s);
    lemma_forest_ids_concat(seq![y, x], s);
    assert(seq![x, y].drop_first() =~= seq![y]);
    assert(seq![y, x].drop_first() =~= seq![x]);
    assert(seq![y].drop_first() =~= Seq::<NodeV>::empty());
    assert(seq![x].drop_first() =~= Seq::<NodeV>::empty());
    assert(forest_ids(Seq::<NodeV>::empty()) == Seq::<u64>::empty());
    assert(forest_ids(seq![y]) == y.subtree_ids() + Seq::<u64>::empty());
    assert(forest_ids(seq![x]) == x.subtree_ids() + Seq::<u64>::empty());
    assert(seq![x, y][0] == x && seq![x, y].len() == 2);
    assert(seq![y, x][0] == y && seq![y, x].len() == 2);
    assert(forest_ids(seq![x, y]) == x.subtree_ids() + (y.subtree_ids() + Seq::<u64>::empty()));
    assert(forest_ids(seq![y, x]) == y.subtree_ids() + (x.subtree_ids() + Seq::<u64>::empty()));
    assert(forest_ids(p + (seq![x, y] + s)).to_multiset() =~= forest_ids(
        p + (seq![y, x] + s),
    ).to_multiset());
}

/// A field edit never changes a node's identifier, the identifier
/// population of its subtree, or the image invariants.
pub proof fn lemma_apply_edit_ids(e: NodeEdit, n: NodeV)
    ensures
        apply_edit_v(e, n).id() == n.id(),
        apply_edit_v(e, n).subtree_ids().to_multiset() == n.subtree_ids().to_multiset(),
        n.wf_images() ==> apply_edit_v(e, n).wf_images(),
{
    broadcast use vstd::seq_lib::lemma_multiset_commutative;

    match e {
        NodeEdit::Visible(_) => {},
        NodeEdit::Place(_) => {},
        NodeEdit::Nudge { .. } => {},
        NodeEdit::Snap => {},
        NodeEdit::Reorder { index, up } => match n {
            NodeV::Image { .. } => {},
            NodeV::Group { id, children, .. } => {
                lemma_reorder_ids(children, index as int, up);
                let c2 = reorder_v(children, index as int, up).0;
                assert(apply_edit_v(e, n).subtree_ids() == seq![id] + forest_ids(c2));
                assert(n.subtree_ids() == seq![id] + forest_ids(children));
            },
        },
    }
}

/// An edit addressed by identifier preserves the identifier population
/// and the image invariants of the whole forest.
pub proof fn lemma_edit_node_ids(n: NodeV, id: u64, e: NodeEdit)
    ensures
        edit_node_v(n, id, e).0.id() == n.id(),
        edit_node_v(n, id, e).0.subtree_ids().to_multiset() == n.subtree_ids().to_multiset(),
        n.wf_images() ==> edit_node_v(n, id, e).0.wf_images(),
    decreases n, 0int, 0int,
{
    broadcast use vstd::seq_lib::lemma_multiset_commutative;

    if n.id() == id {
        lemma_apply_edit_ids(e, n);
    } else {
        match n {
            NodeV::Image { .. } => {},
            NodeV::Group { id: gid, children, .. } => {
                lemma_edit_forest_ids(children, 0, id, e);
                let c2 = edit_forest_v(children, 0, id, e).0;
                if edit_forest_v(children, 0, id, e).1 {
                    assert(edit_node_v(n, id, e).0.subtree_ids() == seq![gid] + forest_ids(c2));
                    assert(n.subtree_ids() == seq![gid] + forest_ids(children));
                }
            },
        }
    }
}

/// Companion of [`lemma_edit_node_ids`] for a run of siblings.
pub proof fn lemma_edit_forest_ids(ns: Seq<NodeV>, i: int, id: u64, e: NodeEdit)
    ensures
        forest_ids(edit_forest_v(ns, i, id, e).0).to_multiset() == forest_ids(ns).to_multiset(),
        forest_wf_images(ns) ==> forest_wf_images(edit_forest_v(ns, i, id, e).0),
    decreases ns, ns.len() - i, 1int,
{
    broadcast use vstd::seq_lib::lemma_multiset_commutative;

    if 0 <= i < ns.len() {
        lemma_edit_node_ids(ns[i], id, e);
        let (n2, found) = edit_node_v(ns[i], id, e);
        if found {
            let ns2 = ns.update(i, n2);
            lemma_forest_ids_decompose(ns, i);
            lemma_forest_ids_decompose(ns2, i);
            assert(ns2.take(i) =~= ns.take(i));
            assert(ns2.skip(i + 1) =~= ns.skip(i + 1));
            assert forall|k: int| 0 <= k < ns2.len() && forest_wf_images(ns) implies (
            #[trigger] ns2[k]).wf_images() by {
                if k != i {
                    assert(ns2[k] == ns[k]);
                }
            }
        } else {
            lemma_edit_forest_ids(ns, i + 1, id, e);
        }
    }
}

} // verus!

// Deletion removes exactly one subtree; insertion adds exactly one.

verus! {

/// A successful level scan points at a carrier of `id`.
pub proof fn lemma_level_pos(ns: Seq<NodeV>, i: int, id: u64)
    requires
        0 <= i,
    ensures
        level_pos(ns, i, id) >= 0 ==> i <= level_pos(ns, i, id) < ns.len() && ns[level_pos(
            ns,
            i,
            id,
        )].id() == id,
    decreases ns.len() - i,
{
    if i < ns.len() && ns[i].id() != id {
        lemma_level_pos(ns, i + 1, id);
    }
}

/// A successful deletion takes away the identifiers of exactly one
/// subtree, rooted at a carrier of `id`; image invariants survive.
pub proof fn lemma_delete_forest_ids(ns: Seq<NodeV>, id: u64)
    ensures
        delete_forest_v(ns, id).1 ==> exists|n: NodeV|
            #![auto]
            n.id() == id && forest_ids(ns).to_multiset() == forest_ids(
                delete_forest_v(ns, id).0,
            ).to_multiset().add(n.subtree_ids().to_multiset()),
        forest_wf_images(ns) ==> forest_wf_images(delete_forest_v(ns, id).0),
    decreases ns, 1int, 0int,
{
    broadcast use vstd::seq_lib::lemma_multiset_commutative;

    let p = level_pos(ns, 0, id);
    if p >= 0 {
        lemma_level_pos(ns, 0, id);
        let ns2 = ns.remove(p);
        lemma_forest_ids_decompose(ns, p);
        assert(ns2 =~= ns.take(p) + ns.skip(p + 1));
        lemma_forest_ids_concat(ns.take(p), ns.skip(p + 1));
        let t = forest_ids(ns.take(p)).to_multiset();
        let m = ns[p].subtree_ids().to_multiset();
        let s = forest_ids(ns.skip(p + 1)).to_multiset();
        assert(forest_ids(ns).to_multiset() =~= t.add(m).add(s));
        assert(forest_ids(ns2).to_multiset() =~= t.add(s));
        assert(forest_ids(ns).to_multiset() =~= forest_ids(ns2).to_multiset().add(m));
        let witness = ns[p];
        assert(witness.id() == id && forest_ids(ns).to_multiset() == forest_ids(
            delete_forest_v(ns, id).0,
        ).to_multiset().add(witness.subtree_ids().to_multiset()));
        assert forall|k: int| 0 <= k < ns2.len() && forest_wf_images(ns) implies (
        #[trigger] ns2[k]).wf_images() by {
            if k < p {
                assert(ns2[k] == ns[k]);
            } else {
                assert(ns2[k] == ns[k + 1]);
            }
        }
    } else {
        lemma_delete_groups_ids(ns, 0, id);
    }
}

/// Companion of [`lemma_delete_forest_ids`] for the group scan.
pub proof fn lemma_delete_groups_ids(ns: Seq<NodeV>, i: int, id: u64)
    ensures
        delete_groups_v(ns, i, id).1 ==> exists|n: NodeV|
            #![auto]
            n.id() == id && forest_ids(ns).to_multiset() == forest_ids(
                delete_groups_v(ns, i, id).0,
            ).to_multiset().add(n.subtree_ids().to_multiset()),
        forest_wf_images(ns) ==> forest_wf_images(delete_groups_v(ns, i, id).0),
    decreases ns, 0int, ns.len() - i,
{
    broadcast use vstd::seq_lib::lemma_multiset_commutative;

    if 0 <= i < ns.len() {
        match ns[i] {
            NodeV::Group { id: gid, children, .. } => {
                lemma_delete_forest_ids(children, id);
                let (c2, found) = delete_forest_v(children, id);
                if found {
                    let n2 = ns[i].with_children(c2);
                    let ns2 = ns.update(i, n2);
                    lemma_forest_ids_decompose(ns, i);
                    lemma_forest_ids_decompose(ns2, i);
                    assert(ns2.take(i) =~= ns.take(i));
                    assert(ns2.skip(i + 1) =~= ns.skip(i + 1));
                    assert(ns[i].subtree_ids() == seq![gid] + forest_ids(children));
                    assert(n2.subtree_ids() == seq![gid] + forest_ids(c2));
                    let w = choose|n: NodeV|
                        #![auto]
                        n.id() == id && forest_ids(children).to_multiset() == forest_ids(
                            c2,
                        ).to_multiset().add(n.subtree_ids().to_multiset());
                    assert(ns[i].subtree_ids().to_multiset() =~= n2.subtree_ids().to_multiset()
                        .add(w.subtree_ids().to_multiset()));
                    let t = forest_ids(ns.take(i)).to_multiset();
                    let s = forest_ids(ns.skip(i + 1)).to_multiset();
                    assert(forest_ids(ns).to_multiset() =~= t.add(
                        ns[i].subtree_ids().to_multiset(),
                    ).add(s));
                    assert(forest_ids(ns2).to_multiset() =~= t.add(
                        n2.subtree_ids().to_multiset(),
                    ).add(s));
                    assert(forest_ids(ns).to_multiset() =~= forest_ids(ns2).to_multiset().add(
                        w.subtree_ids().to_multiset(),
                    ));
                    assert forall|k: int| 0 <= k < ns2.len() && forest_wf_images(ns) implies (
                    #[trigger] ns2[k]).wf_images() by {
                        if k != i {
                            assert(ns2[k] == ns[k]);
                        }
                    }
                } else {
                    lemma_delete_groups_ids(ns, i + 1, id);
                }
            },
            NodeV::Image { .. } => {
                lemma_delete_groups_ids(ns, i + 1, id);
            },
        }
    }
}

/// An insertion adds exactly the identifiers of the inserted subtree;
/// image invariants survive when the inserted subtree's images are
/// well-formed.
pub proof fn lemma_insert_node_ids(n: NodeV, gid: u64, nv: NodeV)
    ensures
        insert_node_v(n, gid, nv).1 == Some(true) ==> insert_node_v(
            n,
            gid,
            nv,
        ).0.subtree_ids().to_multiset() == n.subtree_ids().to_multiset().add(
            nv.subtree_ids().to_multiset(),
        ),
        insert_node_v(n, gid, nv).0.id() == n.id(),
        n.wf_images() && nv.wf_images() ==> insert_node_v(n, gid, nv).0.wf_images(),
    decreases n, 0int, 0int,
{
    broadcast use vstd::seq_lib::lemma_multiset_commutative;

    lemma_insert_node_unplaced(n, gid, nv);
    if n.id() == gid {
        match n {
            NodeV::Group { id: gi, children, .. } => {
                let c2 = children.push(nv);
                assert(c2 =~= children + seq![nv]);
                lemma_forest_ids_concat(children, seq![nv]);
                assert(seq![nv].drop_first() =~= Seq::<NodeV>::empty());
                assert(forest_ids(Seq::<NodeV>::empty()) == Seq::<u64>::empty());
                assert(seq![nv][0] == nv && seq![nv].len() == 1);
                assert(forest_ids(seq![nv]) == nv.subtree_ids() + Seq::<u64>::empty());
                assert(insert_node_v(n, gid, nv).0.subtree_ids() == seq![gi] + forest_ids(c2));
                assert(n.subtree_ids() == seq![gi] + forest_ids(children));
                assert forall|k: int|
                    0 <= k < c2.len() && n.wf_images() && nv.wf_images() implies (
                #[trigger] c2[k]).wf_images() by {
                    if k < children.len() {
                        assert(c2[k] == children[k]);
                    } else {
                        assert(c2[k] == nv);
                    }
                }
            },
            NodeV::Image { .. } => {},
        }
    } else {
        match n {
            NodeV::Group { id: gi, children, .. } => {
                lemma_insert_forest_ids(children, 0, gid, nv);
                let (c2, st) = insert_forest_from_v(children, 0, gid, nv);
                if st == Some(true) {
                    assert(insert_node_v(n, gid, nv).0.subtree_ids() == seq![gi] + forest_ids(
                        c2,
                    ));
                    assert(n.subtree_ids() == seq![gi] + forest_ids(children));
                } else {
                    lemma_insert_forest_unplaced(children, 0, gid, nv);
                }
            },
            NodeV::Image { .. } => {},
        }
    }
}

/// Companion of [`lemma_insert_node_ids`] for a run of siblings.
pub proof fn lemma_insert_forest_ids(ns: Seq<NodeV>, i: int, gid: u64, nv: NodeV)
    ensures
        insert_forest_from_v(ns, i, gid, nv).1 == Some(true) ==> forest_ids(
            insert_forest_from_v(ns, i, gid, nv).0,
        ).to_multiset() == forest_ids(ns).to_multiset().add(nv.subtree_ids().to_multiset()),
        forest_wf_images(ns) && nv.wf_images() ==> forest_wf_images(
            insert_forest_from_v(ns, i, gid, nv).0,
        ),
    decreases ns, ns.len() - i, 1int,
{
    broadcast use vstd::seq_lib::lemma_multiset_commutative;

    if 0 <= i < ns.len() {
        lemma_insert_node_ids(ns[i], gid, nv);
        lemma_insert_node_unplaced(ns[i], gid, nv);
        let (n2, st) = insert_node_v(ns[i], gid, nv);
        if st is Some {
            let ns2 = ns.update(i, n2);
            lemma_forest_ids_decompose(ns, i);
            lemma_forest_ids_decompose(ns2, i);
            assert(ns2.take(i) =~= ns.take(i));
            assert(ns2.skip(i + 1) =~= ns.skip(i + 1));
            if st == Some(true) {
                let t = forest_ids(ns.take(i)).to_multiset();
                let s = forest_ids(ns.skip(i + 1)).to_multiset();
                assert(forest_ids(ns).to_multiset() =~= t.add(
                    ns[i].subtree_ids().to_multiset(),
                ).add(s));
                assert(forest_ids(ns2).to_multiset() =~= t.add(
                    n2.subtree_ids().to_multiset(),
                ).add(s));
                assert(forest_ids(ns2).to_multiset() =~= forest_ids(ns).to_multiset().add(
                    nv.subtree_ids().to_multiset(),
                ));
            }
            assert forall|k: int|
                0 <= k < ns2.len() && forest_wf_images(ns) && nv.wf_images() implies (
            #[trigger] ns2[k]).wf_images() by {
                if k != i {
                    assert(ns2[k] == ns[k]);
                }
            }
        } else {
            lemma_insert_forest_ids(ns, i + 1, gid, nv);
        }
    }
}

/// The identifiers after [`insert_layer_v`]: the old population plus
/// the inserted subtree's, wherever the node landed.
pub proof fn lemma_insert_layer_ids(ns: Seq<NodeV>, nv: NodeV, target: Option<u64>)
    ensures
        forest_ids(insert_layer_v(ns, nv, target)).to_multiset() == forest_ids(
            ns,
        ).to_multiset().add(nv.subtree_ids().to_multiset()),
        forest_wf_images(ns) && nv.wf_images() ==> forest_wf_images(
            insert_layer_v(ns, nv, target),
        ),
{
    broadcast use vstd::seq_lib::lemma_multiset_commutative;

    let pushed = ns.push(nv);
    assert(pushed =~= ns + seq![nv]);
    lemma_forest_ids_concat(ns, seq![nv]);
    assert(seq![nv].drop_first() =~= Seq::<NodeV>::empty());
    assert(forest_ids(Seq::<NodeV>::empty()) == Seq::<u64>::empty());
    assert(seq![nv][0] == nv && seq![nv].len() == 1);
    assert(forest_ids(seq![nv]) == nv.subtree_ids() + Seq::<u64>::empty());
    assert(forest_ids(pushed).to_multiset() =~= forest_ids(ns).to_multiset().add(
        nv.subtree_ids().to_multiset(),
    ));
    assert forall|k: int|
        0 <= k < pushed.len() && forest_wf_images(ns) && nv.wf_images() implies (
    #[trigger] pushed[k]).wf_images() by {
        if k < ns.len() {
            assert(pushed[k] == ns[k]);
        } else {
            assert(pushed[k] == nv);
        }
    }
    match target {
        Option::None => {},
        Option::Some(gid) => {
            lemma_insert_forest_ids(ns, 0, gid, nv);
        },
    }
}

} // verus!

// Well-formedness carried across whole-tree operations.

verus! {

use vstd::multiset::Multiset;

/// Every identifier of the sequence lies below `bound`.
pub open spec fn ids_below(ids: Seq<u64>, bound: u64) -> bool {
    forall|x: u64| ids.contains(x) ==> x < bound
}

/// Equal multisets have the same members.
proof fn lemma_same_members(a: Seq<u64>, b: Seq<u64>)
    requires
        a.to_multiset() == b.to_multiset(),
    ensures
        forall|x: u64| a.contains(x) <==> b.contains(x),
{
    broadcast use vstd::seq_lib::group_to_multiset_ensures;

    assert forall|x: u64| a.contains(x) <==> b.contains(x) by {
        assert(a.contains(x) <==> a.to_multiset().count(x) > 0);
        assert(b.contains(x) <==> b.to_multiset().count(x) > 0);
    }
}

/// An edit keeps the forest well-formed and its identifiers bounded.
pub proof fn lemma_wf_after_edit(vs: Seq<NodeV>, id: u64, e: NodeEdit, bound: u64)
    requires
        wf_forest(vs),
        ids_below(forest_ids(vs), bound),
    ensures
        wf_forest(edit_forest_v(vs, 0, id, e).0),
        ids_below(forest_ids(edit_forest_v(vs, 0, id, e).0), bound),
{
    lemma_edit_forest_ids(vs, 0, id, e);
    let ids2 = forest_ids(edit_forest_v(vs, 0, id, e).0);
    lemma_no_dup_within(ids2, forest_ids(vs));
    lemma_same_members(ids2, forest_ids(vs));
}

/// A deletion keeps the forest well-formed and its identifiers bounded.
pub proof fn lemma_wf_after_delete(vs: Seq<NodeV>, id: u64, bound: u64)
    requires
        wf_forest(vs),
        ids_below(forest_ids(vs), bound),
    ensures
        wf_forest(delete_forest_v(vs, id).0),
        ids_below(forest_ids(delete_forest_v(vs, id).0), bound),
{
    broadcast use vstd::seq_lib::group_to_multiset_ensures;

    lemma_delete_forest_ids(vs, id);
    lemma_delete_forest_unfound(vs, id);
    let ids2 = forest_ids(delete_forest_v(vs, id).0);
    if delete_forest_v(vs, id).1 {
        assert forall|x: u64| #[trigger] ids2.to_multiset().count(x) <= forest_ids(
            vs,
        ).to_multiset().count(x) by {
            let n = choose|n: NodeV|
                #![auto]
                n.id() == id && forest_ids(vs).to_multiset() == ids2.to_multiset().add(
                    n.subtree_ids().to_multiset(),
                );
        }
        lemma_no_dup_within(ids2, forest_ids(vs));
        assert forall|x: u64| ids2.contains(x) implies x < bound by {
            assert(ids2.to_multiset().count(x) > 0);
            assert(forest_ids(vs).to_multiset().count(x) > 0);
            assert(forest_ids(vs).contains(x));
        }
    }
}

/// Inserting a single fresh node keeps the forest well-formed; the
/// bound moves up past the fresh identifier.
pub proof fn lemma_wf_after_insert_fresh(
    vs: Seq<NodeV>,
    nv: NodeV,
    target: Option<u64>,
    bound: u64,
)
    requires
        wf_forest(vs),
        ids_below(forest_ids(vs), bound),
        nv.subtree_ids() == seq![nv.id()],
        nv.id() == bound,
        bound < u64::MAX,
        nv.wf_images(),
    ensures
        wf_forest(insert_layer_v(vs, nv, target)),
        ids_below(forest_ids(insert_layer_v(vs, nv, target)), (bound + 1) as u64),
{
    broadcast use vstd::seq_lib::group_to_multiset_ensures;

    lemma_insert_layer_ids(vs, nv, target);
    let ids = forest_ids(vs);
    let ids2 = forest_ids(insert_layer_v(vs, nv, target));
    assert(seq![nv.id()].to_multiset() =~= Multiset::<u64>::empty().insert(nv.id())) by {
        assert(seq![nv.id()] =~= Seq::<u64>::empty().push(nv.id()));
        assert(Seq::<u64>::empty().push(nv.id()).to_multiset() =~= Seq::<
            u64,
        >::empty().to_multiset().insert(nv.id()));
    }
    assert(ids2.to_multiset() == ids.to_multiset().add(
        Multiset::<u64>::empty().insert(nv.id()),
    ));
    ids.lemma_multiset_has_no_duplicates();
    assert(ids.to_multiset().count(nv.id()) == 0) by {
        if ids.to_multiset().count(nv.id()) > 0 {
            assert(ids.contains(nv.id()));
        }
    }
    assert forall|x: u64| ids2.to_multiset().contains(x) implies ids2.to_multiset().count(x)
        == 1 by {
        if x == nv.id() {
            assert(ids2.to_multiset().count(x) == 1);
        } else {
            assert(ids2.to_multiset().count(x) == ids.to_multiset().count(x));
            assert(ids.contains(x));
        }
    }
    ids2.lemma_multiset_has_no_duplicates_conv();
    assert forall|x: u64| ids2.contains(x) implies x < bound + 1 by {
        assert(ids2.to_multiset().count(x) > 0);
        if x != nv.id() {
            assert(ids.to_multiset().count(x) > 0);
            assert(ids.contains(x));
        }
    }
}

} // verus!

// Deletion removes exactly the carrier's subtree, and nothing else is
// findable of it afterwards.

verus! {

/// A failed level scan means no node of the tail carries `id` itself.
pub proof fn lemma_level_pos_none(ns: Seq<NodeV>, i: int, id: u64)
    requires
        0 <= i,
        level_pos(ns, i, id) < 0,
    ensures
        forall|k: int| i <= k < ns.len() ==> (#[trigger] ns[k]).id() != id,
    decreases ns.len() - i,
{
    if i < ns.len() {
        lemma_level_pos_none(ns, i + 1, id);
    }
}

/// The deletion finds a carrier exactly when the forest holds one.
pub proof fn lemma_delete_found_iff_has(ns: Seq<NodeV>, id: u64)
    ensures
        delete_forest_v(ns, id).1 <==> forest_has(ns, id),
    decreases ns, 1int, 0int,
{
    let p = level_pos(ns, 0, id);
    if p >= 0 {
        lemma_level_pos(ns, 0, id);
        lemma_subtree_has(ns[p], id);
        lemma_forest_has_from_ids(ns, 0, id);
    } else {
        lemma_level_pos_none(ns, 0, id);
        lemma_delete_groups_found_iff_has(ns, 0, id);
        lemma_forest_has_from_ids(ns, 0, id);
        if forest_has(ns, id) {
            let k = choose|k: int|
                0 <= k < ns.len() && (#[trigger] ns[k].subtree_ids()).contains(id);
            lemma_subtree_has(ns[k], id);
        }
    }
}

/// Companion of [`lemma_delete_found_iff_has`] for the group scan:
/// given that no node of the whole level carries `id` itself, the scan
/// from `i` succeeds exactly when some subtree in `ns[i ..]` holds it.
pub proof fn lemma_delete_groups_found_iff_has(ns: Seq<NodeV>, i: int, id: u64)
    requires
        0 <= i,
        forall|k: int| 0 <= k < ns.len() ==> (#[trigger] ns[k]).id() != id,
    ensures
        delete_groups_v(ns, i, id).1 <==> forest_has_from(ns, i, id),
    decreases ns, 0int, ns.len() - i,
{
    if i < ns.len() {
        lemma_subtree_has(ns[i], id);
        match ns[i] {
            NodeV::Group { children, .. } => {
                lemma_delete_found_iff_has(children, id);
                lemma_delete_groups_found_iff_has(ns, i + 1, id);
            },
            NodeV::Image { .. } => {
                lemma_delete_groups_found_iff_has(ns, i + 1, id);
            },
        }
    }
}

/// Deleting a carrier with `N` descendants removes exactly those
/// `N + 1` nodes: afterwards the identifier count has dropped by the
/// subtree's size and a search for any identifier of the subtree —
/// the carrier's own included — returns not-found.
pub proof fn lemma_delete_removes_subtree(ns: Seq<NodeV>, id: u64)
    requires
        wf_forest(ns),
        forest_has(ns, id),
    ensures
        delete_forest_v(ns, id).1,
        exists|w: NodeV|
            #![auto]
            {
                &&& w.id() == id
                &&& forest_ids(delete_forest_v(ns, id).0).len() + w.subtree_ids().len()
                    == forest_ids(ns).len()
                &&& forall|j: u64|
                    w.subtree_ids().contains(j) ==> find_in(
                        delete_forest_v(ns, id).0,
                        j,
                    ) is None
            },
{
    broadcast use vstd::seq_lib::group_to_multiset_ensures;

    lemma_delete_found_iff_has(ns, id);
    lemma_delete_forest_ids(ns, id);
    let ns2 = delete_forest_v(ns, id).0;
    let w = choose|w: NodeV|
        #![auto]
        w.id() == id && forest_ids(ns).to_multiset() == forest_ids(ns2).to_multiset().add(
            w.subtree_ids().to_multiset(),
        );
    forest_ids(ns).lemma_multiset_has_no_duplicates();
    assert(forest_ids(ns).len() == forest_ids(ns).to_multiset().len());
    assert(forest_ids(ns2).len() == forest_ids(ns2).to_multiset().len());
    assert(w.subtree_ids().len() == w.subtree_ids().to_multiset().len());
    assert(forest_ids(ns).to_multiset().len() == forest_ids(ns2).to_multiset().len()
        + w.subtree_ids().to_multiset().len());
    assert(forest_ids(ns2).len() + w.subtree_ids().len() == forest_ids(ns).len());
    assert forall|j: u64| w.subtree_ids().contains(j) implies find_in(ns2, j) is None by {
        assert(w.subtree_ids().to_multiset().count(j) >= 1);
        assert(forest_ids(ns).to_multiset().count(j) >= 1);
        assert(forest_ids(ns).contains(j));
        assert(forest_ids(ns).to_multiset().count(j) == 1);
        assert(forest_ids(ns2).to_multiset().count(j) == 0);
        assert(!forest_ids(ns2).contains(j));
        lemma_forest_has_iff_ids(ns2, j);
        lemma_find_from_has(ns2, 0, j);
    }
    let wit = w;
    assert(wit.id() == id && forest_ids(ns2).len() + wit.subtree_ids().len() == forest_ids(
        ns,
    ).len() && forall|j: u64|
        wit.subtree_ids().contains(j) ==> find_in(ns2, j) is None);
}

} // verus!

// Which node a successful deletion takes away.

verus! {

use vstd::pervasive::arbitrary;

/// The node a successful deletion removes: the first carrier of `id`
/// on the current level, else the one removed from the children of the
/// first group that holds `id`. Meaningless when the deletion fails.
pub open spec fn delete_victim(ns: Seq<NodeV>, id: u64) -> NodeV
    decreases ns, 1int, 0int,
{
    let p = level_pos(ns, 0, id);
    if p >= 0 {
        ns[p]
    } else {
        delete_victim_groups(ns, 0, id)
    }
}

/// Companion of [`delete_victim`] for the group scan.
pub open spec fn delete_victim_groups(ns: Seq<NodeV>, i: int, id: u64) -> NodeV
    decreases ns, 0int, ns.len() - i,
{
    if i < 0 || i >= ns.len() {
        arbitrary()
    } else {
        match ns[i] {
            NodeV::Group { children, .. } => {
                if delete_forest_v(children, id).1 {
                    delete_victim(children, id)
                } else {
                    delete_victim_groups(ns, i + 1, id)
                }
            },
            NodeV::Image { .. } => delete_victim_groups(ns, i + 1, id),
        }
    }
}

/// No node before a successful level scan's hit carries `id` itself.
pub proof fn lemma_level_pos_first(ns: Seq<NodeV>, i: int, id: u64)
    requires
        0 <= i,
    ensures
        forall|k: int|
            i <= k < level_pos(ns, i, id) ==> (#[trigger] ns[k]).id() != id,
    decreases ns.len() - i,
{
    if i < ns.len() && ns[i].id() != id {
        lemma_level_pos_first(ns, i + 1, id);
    }
}

/// The middle part of a duplicate-free concatenation is duplicate-free.
pub proof fn lemma_no_dup_mid(a: Seq<u64>, b: Seq<u64>, c: Seq<u64>)
    requires
        (a + b + c).no_duplicates(),
    ensures
        b.no_duplicates(),
{
    assert forall|i: int, j: int| 0 <= i < j < b.len() implies b[i] != b[j] by {
        assert((a + b + c)[a.len() + i] == b[i]);
        assert((a + b + c)[a.len() + j] == b[j]);
    }
}

/// A group of a duplicate-free forest has duplicate-free children.
pub proof fn lemma_children_no_dup(ns: Seq<NodeV>, i: int)
    requires
        forest_ids(ns).no_duplicates(),
        0 <= i < ns.len(),
        ns[i] is Group,
    ensures
        forest_ids(ns[i]->Group_children).no_duplicates(),
{
    let fc = forest_ids(ns[i]->Group_children);
    lemma_forest_ids_decompose(ns, i);
    assert(ns[i].subtree_ids() == seq![ns[i].id()] + fc);
    let a = forest_ids(ns.take(i)) + seq![ns[i].id()];
    let c = forest_ids(ns.skip(i + 1));
    assert(forest_ids(ns) =~= a + fc + c);
    lemma_no_dup_mid(a, fc, c);
}

/// In a duplicate-free forest the depth-first search returns exactly
/// the node a successful deletion removes.
pub proof fn lemma_find_finds_victim(ns: Seq<NodeV>, id: u64)
    requires
        forest_ids(ns).no_duplicates(),
        delete_forest_v(ns, id).1,
    ensures
        find_in(ns, id) == Some(delete_victim(ns, id)),
    decreases ns, 1int, 0int,
{
    let p = level_pos(ns, 0, id);
    if p >= 0 {
        lemma_level_pos(ns, 0, id);
        lemma_level_pos_first(ns, 0, id);
        lemma_find_reaches_level_hit(ns, 0, p, id);
    } else {
        lemma_level_pos_none(ns, 0, id);
        lemma_find_finds_victim_groups(ns, 0, id);
    }
}

/// The depth-first search, started at or before a level hit none of
/// whose predecessors' subtrees may carry `id`, returns that hit.
proof fn lemma_find_reaches_level_hit(ns: Seq<NodeV>, i: int, p: int, id: u64)
    requires
        forest_ids(ns).no_duplicates(),
        0 <= i <= p < ns.len(),
        ns[p].id() == id,
        forall|k: int| i <= k < p ==> (#[trigger] ns[k]).id() != id,
    ensures
        find_from(ns, i, id) == Some(ns[p]),
    decreases ns.len() - i,
{
    if i == p {
    } else {
        lemma_subtree_has(ns[i], id);
        match ns[i] {
            NodeV::Group { children, .. } => {
                if forest_has(children, id) {
                    assert(ns[i].subtree_ids().contains(id));
                    assert(ns[p].subtree_ids().contains(id)) by {
                        assert(ns[p].subtree_ids()[0] == id);
                    }
                    crate::flatten::lemma_distinct_subtrees_disjoint(ns, i, p, id);
                    assert(false);
                }
                lemma_find_from_has(children, 0, id);
                assert(find_in(children, id) is None);
            },
            NodeV::Image { .. } => {},
        }
        lemma_find_reaches_level_hit(ns, i + 1, p, id);
    }
}

/// Companion of [`lemma_find_finds_victim`] for the group scan.
proof fn lemma_find_finds_victim_groups(ns: Seq<NodeV>, i: int, id: u64)
    requires
        forest_ids(ns).no_duplicates(),
        0 <= i,
        forall|k: int| 0 <= k < ns.len() ==> (#[trigger] ns[k]).id() != id,
        delete_groups_v(ns, i, id).1,
    ensures
        find_from(ns, i, id) == Some(delete_victim_groups(ns, i, id)),
    decreases ns, 0int, ns.len() - i,
{
    if i < ns.len() {
        match ns[i] {
            NodeV::Group { children, .. } => {
                lemma_children_no_dup(ns, i);
                lemma_delete_found_iff_has(children, id);
                if delete_forest_v(children, id).1 {
                    lemma_find_finds_victim(children, id);
                    assert(find_in(children, id) == find_from(children, 0, id));
                } else {
                    lemma_find_from_has(children, 0, id);
                    assert(find_in(children, id) is None);
                    lemma_find_finds_victim_groups(ns, i + 1, id);
                }
            },
            NodeV::Image { .. } => {
                lemma_find_finds_victim_groups(ns, i + 1, id);
            },
        }
    }
}

} // verus!
