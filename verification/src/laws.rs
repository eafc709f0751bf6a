//! Laws of the tree. The central one: in a well-formed tree, looking a
//! node's own path back up from the root finds that node again.

use vstd::prelude::*;
use crate::doc::{Document, GroupRec, LayerRec, find_group};
use crate::doc::lemma_find_group_is_member;
use crate::names::{no_slash, trim_nulls};
use crate::names::lemma_split_joined;
use crate::lookup::{
    ancestor_segments,
    first_named,
    resolve_segments,
    spec_get_node,
    spec_path,
    spec_segments,
};
use crate::tree::{PsdElement, PsdNode, group_children, layer_children, spec_children};

verus! {

/// Within one level of the tree, trimmed display names are pairwise
/// distinct: among the groups of a parent, among its layers, and between
/// its groups and its layers.
pub open spec fn sibling_names_unique(doc: Document) -> bool {
    &&& forall|i: int, j: int|
        0 <= i < j < doc.groups@.len() && (#[trigger] doc.groups@[i]).parent_id == (
        #[trigger] doc.groups@[j]).parent_id ==> trim_nulls(doc.groups@[i].name@) != trim_nulls(
            doc.groups@[j].name@,
        )
    &&& forall|i: int, j: int|
        0 <= i < j < doc.layers@.len() && (#[trigger] doc.layers@[i]).parent_id == (
        #[trigger] doc.layers@[j]).parent_id ==> trim_nulls(doc.layers@[i].name@) != trim_nulls(
            doc.layers@[j].name@,
        )
    &&& forall|i: int, j: int|
        0 <= i < doc.groups@.len() && 0 <= j < doc.layers@.len() && (
        #[trigger] doc.groups@[i]).parent_id == (#[trigger] doc.layers@[j]).parent_id
            ==> trim_nulls(doc.groups@[i].name@) != trim_nulls(doc.layers@[j].name@)
}

/// No trimmed display name contains a path separator.
pub open spec fn names_slashless(doc: Document) -> bool {
    &&& forall|i: int|
        0 <= i < doc.groups@.len() ==> no_slash(trim_nulls((#[trigger] doc.groups@[i]).name@))
    &&& forall|i: int|
        0 <= i < doc.layers@.len() ==> no_slash(trim_nulls((#[trigger] doc.layers@[i]).name@))
}

/// A document whose tree paths are unambiguous: group identifiers unique,
/// sibling names distinct, and no separator inside a trimmed name.
pub open spec fn tree_wf(doc: Document) -> bool {
    &&& doc.ids_unique()
    &&& sibling_names_unique(doc)
    &&& names_slashless(doc)
}

/// The node's record belongs to the document, its parent chain resolves,
/// and its depth equals the length of that chain.
pub open spec fn node_in_tree(doc: Document, node: PsdNode) -> bool {
    &&& match node.element {
        PsdElement::Group(g) => doc.groups@.contains(g),
        PsdElement::Layer(l) => doc.layers@.contains(l),
    }
    &&& ancestor_segments(doc, node.element.parent_key(), doc.groups@.len()) matches Some(pre)
        && node.depth == pre.len()
}

/// Trimmed names are pairwise distinct along a node list.
pub open spec fn names_distinct(nodes: Seq<PsdNode>) -> bool {
    forall|k: int, l: int|
        0 <= k < l < nodes.len() ==> (#[trigger] nodes[k]).element.spec_name() != (
        #[trigger] nodes[l]).element.spec_name()
}

proof fn lemma_ancestor_segments_len(doc: Document, p: Option<u32>, fuel: nat)
    ensures
        ancestor_segments(doc, p, fuel) matches Some(pre) ==> pre.len() <= fuel,
    decreases fuel,
{
    if p is Some && fuel > 0 {
        match find_group(doc.groups@, p.unwrap()) {
            None => {},
            Some(g) => {
                lemma_ancestor_segments_len(doc, g.parent_id, (fuel - 1) as nat);
            },
        }
    }
}

proof fn lemma_ancestor_segments_slashless(doc: Document, p: Option<u32>, fuel: nat)
    requires
        names_slashless(doc),
    ensures
        ancestor_segments(doc, p, fuel) matches Some(pre) ==> forall|k: int|
            0 <= k < pre.len() ==> no_slash(#[trigger] pre[k]),
    decreases fuel,
{
    if p is Some && fuel > 0 {
        match find_group(doc.groups@, p.unwrap()) {
            None => {},
            Some(g) => {
                lemma_ancestor_segments_slashless(doc, g.parent_id, (fuel - 1) as nat);
                lemma_find_group_is_member(doc.groups@, p.unwrap());
                let gi = choose|gi: int| 0 <= gi < doc.groups@.len() && doc.groups@[gi] == g;
                assert(no_slash(trim_nulls(doc.groups@[gi].name@)));
            },
        }
    }
}

proof fn lemma_group_children_inv(groups: Seq<GroupRec>, p: Option<u32>, depth: int)
    ensures
        forall|k: int|
            0 <= k < group_children(groups, p, depth).len() ==> exists|i: int|
                0 <= i < groups.len() && (#[trigger] group_children(groups, p, depth)[k])
                    == (PsdNode { element: PsdElement::Group(groups[i]), depth: depth as usize })
                    && groups[i].parent_id == p,
    decreases groups.len(),
{
    if groups.len() > 0 {
        lemma_group_children_inv(groups.drop_last(), p, depth);
        let prev = group_children(groups.drop_last(), p, depth);
        assert forall|k: int| 0 <= k < group_children(groups, p, depth).len() implies exists|i: int|
            0 <= i < groups.len() && (#[trigger] group_children(groups, p, depth)[k]) == (PsdNode {
                element: PsdElement::Group(groups[i]),
                depth: depth as usize,
            }) && groups[i].parent_id == p by {
            if k < prev.len() {
                let i = choose|i: int|
                    0 <= i < groups.drop_last().len() && prev[k] == (PsdNode {
                        element: PsdElement::Group(groups.drop_last()[i]),
                        depth: depth as usize,
                    }) && groups.drop_last()[i].parent_id == p;
                assert(groups.drop_last()[i] == groups[i]);
                assert(group_children(groups, p, depth)[k] == prev[k]);
            } else {
                assert(groups.last().parent_id == p);
                let i = groups.len() - 1;
                assert(group_children(groups, p, depth)[k] == (PsdNode {
                    element: PsdElement::Group(groups[i]),
                    depth: depth as usize,
                }));
            }
        }
    }
}

proof fn lemma_layer_children_inv(layers: Seq<LayerRec>, p: Option<u32>, depth: int)
    ensures
        forall|k: int|
            0 <= k < layer_children(layers, p, depth).len() ==> exists|i: int|
                0 <= i < layers.len() && (#[trigger] layer_children(layers, p, depth)[k])
                    == (PsdNode { element: PsdElement::Layer(layers[i]), depth: depth as usize })
                    && layers[i].parent_id == p,
    decreases layers.len(),
{
    if layers.len() > 0 {
        lemma_layer_children_inv(layers.drop_last(), p, depth);
        let prev = layer_children(layers.drop_last(), p, depth);
        assert forall|k: int| 0 <= k < layer_children(layers, p, depth).len() implies exists|i: int|
            0 <= i < layers.len() && (#[trigger] layer_children(layers, p, depth)[k]) == (PsdNode {
                element: PsdElement::Layer(layers[i]),
                depth: depth as usize,
            }) && layers[i].parent_id == p by {
            if k < prev.len() {
                let i = choose|i: int|
                    0 <= i < layers.drop_last().len() && prev[k] == (PsdNode {
                        element: PsdElement::Layer(layers.drop_last()[i]),
                        depth: depth as usize,
                    }) && layers.drop_last()[i].parent_id == p;
                assert(layers.drop_last()[i] == layers[i]);
                assert(layer_children(layers, p, depth)[k] == prev[k]);
            } else {
                assert(layers.last().parent_id == p);
                let i = layers.len() - 1;
                assert(layer_children(layers, p, depth)[k] == (PsdNode {
                    element: PsdElement::Layer(layers[i]),
                    depth: depth as usize,
                }));
            }
        }
    }
}

proof fn lemma_group_children_distinct(groups: Seq<GroupRec>, p: Option<u32>, depth: int)
    requires
        forall|i: int, j: int|
            0 <= i < j < groups.len() && (#[trigger] groups[i]).parent_id == (
            #[trigger] groups[j]).parent_id ==> trim_nulls(groups[i].name@) != trim_nulls(
                groups[j].name@,
            ),
    ensures
        names_distinct(group_children(groups, p, depth)),
    decreases groups.len(),
{
    if groups.len() > 0 {
        lemma_group_children_distinct(groups.drop_last(), p, depth);
        lemma_group_children_inv(groups.drop_last(), p, depth);
        let prev = group_children(groups.drop_last(), p, depth);
        let cur = group_children(groups, p, depth);
        assert forall|k: int, l: int| 0 <= k < l < cur.len() implies (
        #[trigger] cur[k]).element.spec_name() != (#[trigger] cur[l]).element.spec_name() by {
            if l < prev.len() {
                assert(cur[k] == prev[k] && cur[l] == prev[l]);
            } else {
                assert(groups.last().parent_id == p);
                assert(cur[l].element == PsdElement::Group(groups.last()));
                assert(cur[k] == prev[k]);
                let i = choose|i: int|
                    0 <= i < groups.drop_last().len() && prev[k] == (PsdNode {
                        element: PsdElement::Group(groups.drop_last()[i]),
                        depth: depth as usize,
                    }) && groups.drop_last()[i].parent_id == p;
                assert(groups.drop_last()[i] == groups[i]);
                assert(groups[i].parent_id == groups[groups.len() - 1].parent_id);
                assert(trim_nulls(groups[i].name@) != trim_nulls(groups[groups.len() - 1].name@));
            }
        }
    }
}

proof fn lemma_layer_children_distinct(layers: Seq<LayerRec>, p: Option<u32>, depth: int)
    requires
        forall|i: int, j: int|
            0 <= i < j < layers.len() && (#[trigger] layers[i]).parent_id == (
            #[trigger] layers[j]).parent_id ==> trim_nulls(layers[i].name@) != trim_nulls(
                layers[j].name@,
            ),
    ensures
        names_distinct(layer_children(layers, p, depth)),
    decreases layers.len(),
{
    if layers.len() > 0 {
        lemma_layer_children_distinct(layers.drop_last(), p, depth);
        lemma_layer_children_inv(layers.drop_last(), p, depth);
        let prev = layer_children(layers.drop_last(), p, depth);
        let cur = layer_children(layers, p, depth);
        assert forall|k: int, l: int| 0 <= k < l < cur.len() implies (
        #[trigger] cur[k]).element.spec_name() != (#[trigger] cur[l]).element.spec_name() by {
            if l < prev.len() {
                assert(cur[k] == prev[k] && cur[l] == prev[l]);
            } else {
                assert(layers.last().parent_id == p);
                assert(cur[l].element == PsdElement::Layer(layers.last()));
                assert(cur[k] == prev[k]);
                let i = choose|i: int|
                    0 <= i < layers.drop_last().len() && prev[k] == (PsdNode {
                        element: PsdElement::Layer(layers.drop_last()[i]),
                        depth: depth as usize,
                    }) && layers.drop_last()[i].parent_id == p;
                assert(layers.drop_last()[i] == layers[i]);
                assert(layers[i].parent_id == layers[layers.len() - 1].parent_id);
                assert(trim_nulls(layers[i].name@) != trim_nulls(layers[layers.len() - 1].name@));
            }
        }
    }
}

/// In a well-formed document, the children of any parent carry pairwise
/// distinct trimmed names.
pub proof fn lemma_children_names_distinct(doc: Document, p: Option<u32>, depth: int)
    requires
        sibling_names_unique(doc),
    ensures
        names_distinct(spec_children(doc, p, depth)),
{
    lemma_group_children_distinct(doc.groups@, p, depth);
    lemma_layer_children_distinct(doc.layers@, p, depth);
    lemma_group_children_inv(doc.groups@, p, depth);
    lemma_layer_children_inv(doc.layers@, p, depth);
    let gc = group_children(doc.groups@, p, depth);
    let lc = layer_children(doc.layers@, p, depth);
    let cur = spec_children(doc, p, depth);
    assert forall|k: int, l: int| 0 <= k < l < cur.len() implies (
    #[trigger] cur[k]).element.spec_name() != (#[trigger] cur[l]).element.spec_name() by {
        if l < gc.len() {
            assert(cur[k] == gc[k] && cur[l] == gc[l]);
        } else if k >= gc.len() {
            assert(cur[k] == lc[k - gc.len()] && cur[l] == lc[l - gc.len()]);
        } else {
            assert(cur[k] == gc[k] && cur[l] == lc[l - gc.len()]);
            let i = choose|i: int|
                0 <= i < doc.groups@.len() && gc[k] == (PsdNode {
                    element: PsdElement::Group(doc.groups@[i]),
                    depth: depth as usize,
                }) && doc.groups@[i].parent_id == p;
            let j = choose|j: int|
                0 <= j < doc.layers@.len() && lc[l - gc.len()] == (PsdNode {
                    element: PsdElement::Layer(doc.layers@[j]),
                    depth: depth as usize,
                }) && doc.layers@[j].parent_id == p;
            assert(doc.groups@[i].parent_id == doc.layers@[j].parent_id);
            assert(trim_nulls(doc.groups@[i].name@) != trim_nulls(doc.layers@[j].name@));
        }
    }
}

proof fn lemma_group_children_contains(groups: Seq<GroupRec>, p: Option<u32>, depth: int, i: int)
    requires
        0 <= i < groups.len(),
        groups[i].parent_id == p,
    ensures
        group_children(groups, p, depth).contains(
            PsdNode { element: PsdElement::Group(groups[i]), depth: depth as usize },
        ),
    decreases groups.len(),
{
    let node = PsdNode { element: PsdElement::Group(groups[i]), depth: depth as usize };
    let prev = group_children(groups.drop_last(), p, depth);
    if i == groups.len() - 1 {
        assert(group_children(groups, p, depth)[prev.len() as int] == node);
    } else {
        assert(groups.drop_last()[i] == groups[i]);
        lemma_group_children_contains(groups.drop_last(), p, depth, i);
        let k = choose|k: int| 0 <= k < prev.len() && prev[k] == node;
        assert(group_children(groups, p, depth)[k] == node);
    }
}

proof fn lemma_layer_children_contains(layers: Seq<LayerRec>, p: Option<u32>, depth: int, i: int)
    requires
        0 <= i < layers.len(),
        layers[i].parent_id == p,
    ensures
        layer_children(layers, p, depth).contains(
            PsdNode { element: PsdElement::Layer(layers[i]), depth: depth as usize },
        ),
    decreases layers.len(),
{
    let node = PsdNode { element: PsdElement::Layer(layers[i]), depth: depth as usize };
    let prev = layer_children(layers.drop_last(), p, depth);
    if i == layers.len() - 1 {
        assert(layer_children(layers, p, depth)[prev.len() as int] == node);
    } else {
        assert(layers.drop_last()[i] == layers[i]);
        lemma_layer_children_contains(layers.drop_last(), p, depth, i);
        let k = choose|k: int| 0 <= k < prev.len() && prev[k] == node;
        assert(layer_children(layers, p, depth)[k] == node);
    }
}

/// An element of the document with parent key `p` appears among the
/// children of `p`, at the given depth.
pub proof fn lemma_element_in_children(doc: Document, e: PsdElement, depth: int)
    requires
        match e {
            PsdElement::Group(g) => doc.groups@.contains(g),
            PsdElement::Layer(l) => doc.layers@.contains(l),
        },
    ensures
        spec_children(doc, e.parent_key(), depth).contains(
            PsdNode { element: e, depth: depth as usize },
        ),
{
    let p = e.parent_key();
    let gc = group_children(doc.groups@, p, depth);
    let lc = layer_children(doc.layers@, p, depth);
    match e {
        PsdElement::Group(g) => {
            let i = choose|i: int| 0 <= i < doc.groups@.len() && doc.groups@[i] == g;
            lemma_group_children_contains(doc.groups@, p, depth, i);
            let node = PsdNode { element: e, depth: depth as usize };
            let k = choose|k: int| 0 <= k < gc.len() && gc[k] == node;
            assert(spec_children(doc, p, depth)[k] == node);
        },
        PsdElement::Layer(l) => {
            let i = choose|i: int| 0 <= i < doc.layers@.len() && doc.layers@[i] == l;
            lemma_layer_children_contains(doc.layers@, p, depth, i);
            let node = PsdNode { element: e, depth: depth as usize };
            let k = choose|k: int| 0 <= k < lc.len() && lc[k] == node;
            assert(spec_children(doc, p, depth)[gc.len() + k] == node);
        },
    }
}

/// In a list of distinctly named nodes, searching for a member's name
/// finds exactly that member.
pub proof fn lemma_first_named_unique(nodes: Seq<PsdNode>, x: PsdNode)
    requires
        names_distinct(nodes),
        nodes.contains(x),
    ensures
        first_named(nodes, x.element.spec_name()) == Some(x),
    decreases nodes.len(),
{
    let k = choose|k: int| 0 <= k < nodes.len() && nodes[k] == x;
    if nodes[0].element.spec_name() == x.element.spec_name() {
        if k > 0 {
            assert(nodes[0].element.spec_name() != nodes[k].element.spec_name());
            assert(false);
        }
        assert(nodes[0] == x);
    } else {
        assert(k > 0);
        assert(nodes.drop_first()[k - 1] == x);
        assert(nodes.drop_first().contains(x));
        assert forall|a: int, b: int| 0 <= a < b < nodes.drop_first().len() implies (
        #[trigger] nodes.drop_first()[a]).element.spec_name() != (
        #[trigger] nodes.drop_first()[b]).element.spec_name() by {
            assert(nodes.drop_first()[a] == nodes[a + 1]);
            assert(nodes.drop_first()[b] == nodes[b + 1]);
        }
        lemma_first_named_unique(nodes.drop_first(), x);
    }
}

/// Resolving a group's ancestor path from the root, then a tail below it,
/// equals resolving the tail among that group's children.
proof fn lemma_resolve_chain(doc: Document, p: Option<u32>, fuel: nat, tail: Seq<Seq<char>>)
    requires
        tree_wf(doc),
        ancestor_segments(doc, p, fuel) is Some,
        tail.len() >= 1,
    ensures
        resolve_segments(doc, None, 0, ancestor_segments(doc, p, fuel).unwrap() + tail)
            == resolve_segments(
            doc,
            p,
            ancestor_segments(doc, p, fuel).unwrap().len() as int,
            tail,
        ),
    decreases fuel,
{
    let pre = ancestor_segments(doc, p, fuel).unwrap();
    match p {
        None => {
            assert(pre + tail =~= tail);
        },
        Some(id) => {
            let g = find_group(doc.groups@, id).unwrap();
            let pre1 = ancestor_segments(doc, g.parent_id, (fuel - 1) as nat).unwrap();
            let gname = trim_nulls(g.name@);
            assert(pre == pre1.push(gname));
            let tail1 = seq![gname] + tail;
            assert(pre + tail =~= pre1 + tail1);
            lemma_resolve_chain(doc, g.parent_id, (fuel - 1) as nat, tail1);
            let d1 = pre1.len() as int;
            // The child list of g's parent holds g's node under its
            // trimmed name, and no other node shares that name.
            lemma_find_group_is_member(doc.groups@, id);
            lemma_element_in_children(doc, PsdElement::Group(g), d1);
            lemma_children_names_distinct(doc, g.parent_id, d1);
            let gnode = PsdNode { element: PsdElement::Group(g), depth: d1 as usize };
            lemma_first_named_unique(spec_children(doc, g.parent_id, d1), gnode);
            assert(tail1[0] == gname);
            assert(tail1.len() >= 2);
            assert(tail1.drop_first() =~= tail);
            assert(resolve_segments(doc, g.parent_id, d1, tail1) == resolve_segments(
                doc,
                Some(g.id),
                d1 + 1,
                tail,
            ));
            assert(g.id == id);
            assert(pre.len() as int == d1 + 1);
        },
    }
}

/// Round-trip naming: in a well-formed tree, a node's own path leads back
/// to that node. `get_by_path(root, path_of(node))` returns the node with
/// the same underlying record, at the same depth.
pub proof fn lemma_path_round_trip(doc: Document, node: PsdNode)
    requires
        tree_wf(doc),
        node_in_tree(doc, node),
    ensures
        spec_path(doc, node.element) matches Some(path) && spec_get_node(doc, path) == Some(node),
{
    let fuel = doc.groups@.len();
    let p = node.element.parent_key();
    let pre = ancestor_segments(doc, p, fuel).unwrap();
    let own = trim_nulls(node.element.raw_name());
    let segs = pre.push(own);
    assert(spec_segments(doc, node.element) == Some(segs));
    // Every segment is separator-free, so splitting the joined path
    // recovers the segments.
    lemma_ancestor_segments_slashless(doc, p, fuel);
    assert forall|k: int| 0 <= k < segs.len() implies no_slash(#[trigger] segs[k]) by {
        if k < pre.len() {
            assert(segs[k] == pre[k]);
        } else {
            match node.element {
                PsdElement::Group(g) => {
                    let i = choose|i: int| 0 <= i < doc.groups@.len() && doc.groups@[i] == g;
                    assert(no_slash(trim_nulls(doc.groups@[i].name@)));
                },
                PsdElement::Layer(l) => {
                    let i = choose|i: int| 0 <= i < doc.layers@.len() && doc.layers@[i] == l;
                    assert(no_slash(trim_nulls(doc.layers@[i].name@)));
                },
            }
        }
    }
    lemma_split_joined(segs);
    // Walking the ancestor chain down from the root reaches the node's
    // parent; the last segment then selects the node itself.
    lemma_resolve_chain(doc, p, fuel, seq![own]);
    assert(pre + seq![own] =~= segs);
    let d = pre.len() as int;
    lemma_element_in_children(doc, node.element, d);
    lemma_children_names_distinct(doc, p, d);
    lemma_ancestor_segments_len(doc, p, fuel);
    assert(node.depth == d as usize);
    let own_node = PsdNode { element: node.element, depth: d as usize };
    assert(own_node == node);
    lemma_first_named_unique(spec_children(doc, p, d), node);
    assert(resolve_segments(doc, p, d, seq![own]) == Some(node));
}

} // verus!
