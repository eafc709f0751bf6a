//! The layer/group tree over a flat document. A node wraps a group or
//! layer record together with its depth; children are recomputed on each
//! request by scanning the document for matching parent identifiers, in
//! document order, sub-groups before sub-layers.

use vstd::prelude::*;
use crate::TreeError;
use crate::doc::{ColorMode, Document, GroupRec, LayerRec};
use crate::names::trim_nulls;
use crate::names::trim_null_padding;

verus! {

/// A group or layer record at some position in the tree.
#[derive(Debug)]
pub enum PsdElement {
    Group(GroupRec),
    Layer(LayerRec),
}

impl PsdElement {
    /// The stored display name, possibly null-padded.
    pub open spec fn raw_name(self) -> Seq<char> {
        match self {
            PsdElement::Group(g) => g.name@,
            PsdElement::Layer(l) => l.name@,
        }
    }

    /// The display name with null padding removed.
    pub open spec fn spec_name(self) -> Seq<char> {
        trim_nulls(self.raw_name())
    }

    /// The parent group identifier; `None` places the element at the root.
    pub open spec fn parent_key(self) -> Option<u32> {
        match self {
            PsdElement::Group(g) => g.parent_id,
            PsdElement::Layer(l) => l.parent_id,
        }
    }

    /// The display name, trimmed of null padding.
    pub fn name(&self) -> (r: String)
        ensures
            r@ == self.spec_name(),
    {
        match self {
            PsdElement::Group(g) => trim_null_padding(g.name.as_str()),
            PsdElement::Layer(l) => trim_null_padding(l.name.as_str()),
        }
    }

    /// A copy equal to this element.
    pub fn duplicate(&self) -> (r: PsdElement)
        ensures
            r == *self,
    {
        match self {
            PsdElement::Group(g) => PsdElement::Group(g.duplicate()),
            PsdElement::Layer(l) => PsdElement::Layer(l.duplicate()),
        }
    }
}

/// A position in the tree: an element and its depth. Root children have
/// depth 0.
#[derive(Debug)]
pub struct PsdNode {
    pub element: PsdElement,
    pub depth: usize,
}

/// The kind of a node, as exposed to a host.
#[derive(Clone, Copy, PartialEq, Eq, Structural, Debug)]
pub enum PsdType {
    Group,
    Layer,
}

/// The read-only per-layer fields exposed to a host.
#[derive(Clone, Copy, PartialEq, Eq, Structural, Debug)]
pub struct LayerProperties {
    pub visible: bool,
    pub opacity: u8,
    pub width: u32,
    pub height: u32,
    pub group_id: Option<u32>,
}

impl PsdNode {
    /// Whether this node wraps a group or a layer.
    pub fn node_type(&self) -> (r: PsdType)
        ensures
            r == (match self.element {
                PsdElement::Group(_) => PsdType::Group,
                PsdElement::Layer(_) => PsdType::Layer,
            }),
    {
        match &self.element {
            PsdElement::Group(_) => PsdType::Group,
            PsdElement::Layer(_) => PsdType::Layer,
        }
    }

    /// The layer fields of this node; `None` for a group.
    pub fn properties(&self) -> (r: Option<LayerProperties>)
        ensures
            match self.element {
                PsdElement::Layer(l) => r == Some(
                    LayerProperties {
                        visible: l.visible,
                        opacity: l.opacity,
                        width: l.rect.width,
                        height: l.rect.height,
                        group_id: l.parent_id,
                    },
                ),
                PsdElement::Group(_) => r is None,
            },
    {
        match &self.element {
            PsdElement::Layer(l) => Some(
                LayerProperties {
                    visible: l.visible,
                    opacity: l.opacity,
                    width: l.rect.width,
                    height: l.rect.height,
                    group_id: l.parent_id,
                },
            ),
            PsdElement::Group(_) => None,
        }
    }
}

/// The tree over one document. The document is immutable once the tree is
/// built; nodes are recomputed per traversal call and carry no caches.
#[derive(Debug)]
pub struct PsdTree {
    pub doc: Document,
}

/// The nodes for the groups of `groups` whose parent identifier is `p`, in
/// order, each at depth `depth`.
pub open spec fn group_children(groups: Seq<GroupRec>, p: Option<u32>, depth: int) -> Seq<PsdNode>
    decreases groups.len(),
{
    if groups.len() == 0 {
        Seq::empty()
    } else {
        group_children(groups.drop_last(), p, depth) + if groups.last().parent_id == p {
            seq![PsdNode { element: PsdElement::Group(groups.last()), depth: depth as usize }]
        } else {
            Seq::empty()
        }
    }
}

/// The nodes for the layers of `layers` whose parent identifier is `p`, in
/// order, each at depth `depth`.
pub open spec fn layer_children(layers: Seq<LayerRec>, p: Option<u32>, depth: int) -> Seq<PsdNode>
    decreases layers.len(),
{
    if layers.len() == 0 {
        Seq::empty()
    } else {
        layer_children(layers.drop_last(), p, depth) + if layers.last().parent_id == p {
            seq![PsdNode { element: PsdElement::Layer(layers.last()), depth: depth as usize }]
        } else {
            Seq::empty()
        }
    }
}

/// The children under parent key `p`: all matching groups in document
/// order, then all matching layers in document order, at depth `depth`.
pub open spec fn spec_children(doc: Document, p: Option<u32>, depth: int) -> Seq<PsdNode> {
    group_children(doc.groups@, p, depth) + layer_children(doc.layers@, p, depth)
}

/// Every node produced for parent key `p` carries depth `depth`.
pub proof fn lemma_children_depth(doc: Document, p: Option<u32>, depth: int)
    ensures
        forall|i: int|
            0 <= i < spec_children(doc, p, depth).len() ==> (#[trigger] spec_children(
                doc,
                p,
                depth,
            )[i]).depth == depth as usize,
{
    lemma_group_children_depth(doc.groups@, p, depth);
    lemma_layer_children_depth(doc.layers@, p, depth);
}

pub proof fn lemma_group_children_depth(groups: Seq<GroupRec>, p: Option<u32>, depth: int)
    ensures
        forall|i: int|
            0 <= i < group_children(groups, p, depth).len() ==> (#[trigger] group_children(
                groups,
                p,
                depth,
            )[i]).depth == depth as usize,
    decreases groups.len(),
{
    if groups.len() > 0 {
        lemma_group_children_depth(groups.drop_last(), p, depth);
    }
}

pub proof fn lemma_layer_children_depth(layers: Seq<LayerRec>, p: Option<u32>, depth: int)
    ensures
        forall|i: int|
            0 <= i < layer_children(layers, p, depth).len() ==> (#[trigger] layer_children(
                layers,
                p,
                depth,
            )[i]).depth == depth as usize,
    decreases layers.len(),
{
    if layers.len() > 0 {
        lemma_layer_children_depth(layers.drop_last(), p, depth);
    }
}

/// Two listings of the same group over the same document are identical:
/// the children are a function of the document, the parent key and the
/// depth alone.
pub proof fn lemma_children_idempotent(
    doc: Document,
    p: Option<u32>,
    depth: int,
    r1: Seq<PsdNode>,
    r2: Seq<PsdNode>,
)
    requires
        r1 == spec_children(doc, p, depth),
        r2 == spec_children(doc, p, depth),
    ensures
        r1 == r2,
{
}

/// Collects the nodes of the groups whose parent identifier is `p`.
pub fn group_nodes_with_parent(doc: &Document, p: Option<u32>, depth: usize) -> (r: Vec<PsdNode>)
    ensures
        r@ == group_children(doc.groups@, p, depth as int),
{
    let mut out: Vec<PsdNode> = Vec::new();
    let ng = doc.groups.len();
    let mut i: usize = 0;
    proof {
        assert(doc.groups@.subrange(0, 0) =~= Seq::<GroupRec>::empty());
    }
    while i < ng
        invariant
            0 <= i <= ng,
            ng == doc.groups@.len(),
            out@ == group_children(doc.groups@.subrange(0, i as int), p, depth as int),
        decreases ng - i,
    {
        proof {
            assert(doc.groups@.subrange(0, i + 1).drop_last() =~= doc.groups@.subrange(
                0,
                i as int,
            ));
            assert(doc.groups@.subrange(0, i + 1).last() == doc.groups@[i as int]);
        }
        let matched = match (&doc.groups[i].parent_id, &p) {
            (Some(a), Some(b)) => *a == *b,
            (None, None) => true,
            _ => false,
        };
        if matched {
            out.push(PsdNode { element: PsdElement::Group(doc.groups[i].duplicate()), depth });
        }
        i = i + 1;
    }
    proof {
        assert(doc.groups@.subrange(0, ng as int) =~= doc.groups@);
    }
    out
}

/// Collects the nodes of the layers whose parent identifier is `p`.
pub fn layer_nodes_with_parent(doc: &Document, p: Option<u32>, depth: usize) -> (r: Vec<PsdNode>)
    ensures
        r@ == layer_children(doc.layers@, p, depth as int),
{
    let mut out: Vec<PsdNode> = Vec::new();
    let nl = doc.layers.len();
    let mut j: usize = 0;
    proof {
        assert(doc.layers@.subrange(0, 0) =~= Seq::<LayerRec>::empty());
    }
    while j < nl
        invariant
            0 <= j <= nl,
            nl == doc.layers@.len(),
            out@ == layer_children(doc.layers@.subrange(0, j as int), p, depth as int),
        decreases nl - j,
    {
        proof {
            assert(doc.layers@.subrange(0, j + 1).drop_last() =~= doc.layers@.subrange(
                0,
                j as int,
            ));
            assert(doc.layers@.subrange(0, j + 1).last() == doc.layers@[j as int]);
        }
        let matched = match (&doc.layers[j].parent_id, &p) {
            (Some(a), Some(b)) => *a == *b,
            (None, None) => true,
            _ => false,
        };
        if matched {
            out.push(PsdNode { element: PsdElement::Layer(doc.layers[j].duplicate()), depth });
        }
        j = j + 1;
    }
    proof {
        assert(doc.layers@.subrange(0, nl as int) =~= doc.layers@);
    }
    out
}

/// Collects the children under parent key `p` at depth `depth`: the
/// matching groups, then the matching layers.
pub fn children_with_parent(doc: &Document, p: Option<u32>, depth: usize) -> (r: Vec<PsdNode>)
    ensures
        r@ == spec_children(*doc, p, depth as int),
{
    let mut out = group_nodes_with_parent(doc, p, depth);
    let mut layers = layer_nodes_with_parent(doc, p, depth);
    out.append(&mut layers);
    out
}

impl PsdTree {
    /// Builds the tree over a document. A document whose color mode is not
    /// RGB is rejected before any node is produced.
    pub fn new(doc: Document) -> (r: Result<PsdTree, TreeError>)
        ensures
            match r {
                Ok(t) => doc.color_mode == ColorMode::Rgb && t.doc == doc,
                Err(e) => doc.color_mode != ColorMode::Rgb && e == TreeError::UnsupportedColorMode,
            },
    {
        if doc.color_mode == ColorMode::Rgb {
            Ok(PsdTree { doc })
        } else {
            Err(TreeError::UnsupportedColorMode)
        }
    }

    /// The root children: every group without a parent identifier, in
    /// document order, then every layer without one, in document order,
    /// all at depth 0.
    pub fn get_children(&self) -> (r: Vec<PsdNode>)
        ensures
            r@ == spec_children(self.doc, None::<u32>, 0),
            forall|i: int| 0 <= i < r@.len() ==> (#[trigger] r@[i]).depth == 0,
    {
        proof {
            lemma_children_depth(self.doc, None::<u32>, 0);
        }
        children_with_parent(&self.doc, None, 0)
    }

    /// The root groups alone, in document order, at depth 0.
    pub fn get_groups(&self) -> (r: Vec<PsdNode>)
        ensures
            r@ == group_children(self.doc.groups@, None::<u32>, 0),
    {
        group_nodes_with_parent(&self.doc, None, 0)
    }

    /// The root layers alone, in document order, at depth 0.
    pub fn get_layers(&self) -> (r: Vec<PsdNode>)
        ensures
            r@ == layer_children(self.doc.layers@, None::<u32>, 0),
    {
        layer_nodes_with_parent(&self.doc, None, 0)
    }
}

impl PsdNode {
    /// The children of this node: `None` for a layer; for a group, every
    /// group and then every layer of the document whose parent identifier
    /// equals this group's identifier, in document order, one level deeper.
    pub fn get_children(&self, tree: &PsdTree) -> (r: Option<Vec<PsdNode>>)
        requires
            self.depth < usize::MAX,
        ensures
            match r {
                Some(v) => self.element matches PsdElement::Group(g) && v@ == spec_children(
                    tree.doc,
                    Some(g.id),
                    self.depth + 1,
                ) && forall|i: int|
                    0 <= i < v@.len() ==> (#[trigger] v@[i]).depth == self.depth + 1,
                None => self.element is Layer,
            },
    {
        match &self.element {
            PsdElement::Group(g) => {
                proof {
                    lemma_children_depth(tree.doc, Some(g.id), self.depth + 1);
                }
                Some(children_with_parent(&tree.doc, Some(g.id), self.depth + 1))
            },
            PsdElement::Layer(_) => None,
        }
    }

    /// This group's sub-groups alone, one level deeper; `None` for a
    /// layer.
    pub fn get_groups(&self, tree: &PsdTree) -> (r: Option<Vec<PsdNode>>)
        requires
            self.depth < usize::MAX,
        ensures
            match r {
                Some(v) => self.element matches PsdElement::Group(g) && v@ == group_children(
                    tree.doc.groups@,
                    Some(g.id),
                    self.depth + 1,
                ),
                None => self.element is Layer,
            },
    {
        match &self.element {
            PsdElement::Group(g) => Some(group_nodes_with_parent(&tree.doc, Some(g.id), self.depth + 1)),
            PsdElement::Layer(_) => None,
        }
    }

    /// This group's sub-layers alone, one level deeper; `None` for a
    /// layer.
    pub fn get_layers(&self, tree: &PsdTree) -> (r: Option<Vec<PsdNode>>)
        requires
            self.depth < usize::MAX,
        ensures
            match r {
                Some(v) => self.element matches PsdElement::Group(g) && v@ == layer_children(
                    tree.doc.layers@,
                    Some(g.id),
                    self.depth + 1,
                ),
                None => self.element is Layer,
            },
    {
        match &self.element {
            PsdElement::Group(g) => Some(layer_nodes_with_parent(&tree.doc, Some(g.id), self.depth + 1)),
            PsdElement::Layer(_) => None,
        }
    }
}

} // verus!
