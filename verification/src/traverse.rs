//! Whole-subtree export planning. An export visits the tree depth-first,
//! sub-groups before sub-layers at every level, and yields one entry per
//! layer: the layer's position in the document and its absolute path,
//! which mirrors the group nesting. The caller writes each planned layer
//! to `<output root><path>` with the image format extension appended.

use vstd::prelude::*;
use crate::TreeError;
use crate::doc::{Document, LayerRec};
use crate::lookup::spec_path;
use crate::tree::{PsdElement, PsdNode, PsdTree};

verus! {

/// One planned layer export: the layer's index in the document's layer
/// list, and the layer node's absolute path.
#[derive(Debug)]
pub struct ExportEntry {
    pub layer_index: usize,
    pub path: String,
}

/// The indices of the layers of `layers` whose parent identifier is `p`,
/// in document order.
pub open spec fn layer_indices_with_parent(layers: Seq<LayerRec>, p: Option<u32>) -> Seq<int>
    decreases layers.len(),
{
    if layers.len() == 0 {
        Seq::empty()
    } else {
        layer_indices_with_parent(layers.drop_last(), p) + if layers.last().parent_id == p {
            seq![layers.len() - 1]
        } else {
            Seq::empty()
        }
    }
}

/// The layer indices exported for the sub-groups among the first `k`
/// groups whose parent identifier is `p`: each such group's whole subtree,
/// in document order. `None` when nesting exceeds `fuel` levels.
pub open spec fn spec_export_groups(doc: Document, k: int, p: Option<u32>, fuel: nat) -> Option<
    Seq<int>,
>
    decreases fuel, k,
{
    if k <= 0 {
        Some(Seq::empty())
    } else {
        match spec_export_groups(doc, k - 1, p, fuel) {
            None => None,
            Some(pre) => if doc.groups@[k - 1].parent_id == p {
                if fuel == 0 {
                    None
                } else {
                    match spec_export_under(doc, Some(doc.groups@[k - 1].id), (fuel - 1) as nat) {
                        None => None,
                        Some(sub) => Some(pre + sub),
                    }
                }
            } else {
                Some(pre)
            },
        }
    }
}

/// The layer indices exported under parent key `p`, depth-first: every
/// matching sub-group's subtree in document order, then every matching
/// layer in document order. `None` when nesting exceeds `fuel` levels.
pub open spec fn spec_export_under(doc: Document, p: Option<u32>, fuel: nat) -> Option<Seq<int>>
    decreases fuel, doc.groups@.len() + 1,
{
    match spec_export_groups(doc, doc.groups@.len() as int, p, fuel) {
        None => None,
        Some(gs) => Some(gs + layer_indices_with_parent(doc.layers@, p)),
    }
}

proof fn lemma_layer_indices_in_range(layers: Seq<LayerRec>, p: Option<u32>)
    ensures
        forall|j: int|
            0 <= j < layer_indices_with_parent(layers, p).len() ==> 0 <= (
            #[trigger] layer_indices_with_parent(layers, p)[j]) < layers.len(),
    decreases layers.len(),
{
    if layers.len() > 0 {
        lemma_layer_indices_in_range(layers.drop_last(), p);
        assert forall|j: int|
            0 <= j < layer_indices_with_parent(layers, p).len() implies 0 <= (
        #[trigger] layer_indices_with_parent(layers, p)[j]) < layers.len() by {
            let prev = layer_indices_with_parent(layers.drop_last(), p);
            if j < prev.len() {
                assert(layer_indices_with_parent(layers, p)[j] == prev[j]);
                assert(layers.drop_last().len() < layers.len());
            }
        }
    }
}

proof fn lemma_export_groups_in_range(doc: Document, k: int, p: Option<u32>, fuel: nat)
    ensures
        spec_export_groups(doc, k, p, fuel) matches Some(idxs) ==> forall|j: int|
            0 <= j < idxs.len() ==> 0 <= #[trigger] idxs[j] < doc.layers@.len(),
    decreases fuel, k,
{
    if k > 0 {
        lemma_export_groups_in_range(doc, k - 1, p, fuel);
        if doc.groups@[k - 1].parent_id == p && fuel > 0 {
            lemma_export_under_in_range(doc, Some(doc.groups@[k - 1].id), (fuel - 1) as nat);
        }
    }
}

/// Every planned index denotes a layer of the document.
pub proof fn lemma_export_under_in_range(doc: Document, p: Option<u32>, fuel: nat)
    ensures
        spec_export_under(doc, p, fuel) matches Some(idxs) ==> forall|j: int|
            0 <= j < idxs.len() ==> 0 <= #[trigger] idxs[j] < doc.layers@.len(),
    decreases fuel, doc.groups@.len() + 1,
{
    lemma_export_groups_in_range(doc, doc.groups@.len() as int, p, fuel);
    lemma_layer_indices_in_range(doc.layers@, p);
}

proof fn lemma_export_groups_none_mono(doc: Document, k: int, m: int, p: Option<u32>, fuel: nat)
    requires
        0 <= k <= m,
        spec_export_groups(doc, k, p, fuel) is None,
    ensures
        spec_export_groups(doc, m, p, fuel) is None,
    decreases m - k,
{
    if m > k {
        lemma_export_groups_none_mono(doc, k, m - 1, p, fuel);
    }
}

/// The `j`-th planned layer of the whole-tree export has no resolvable
/// path: its parent chain is corrupt.
pub open spec fn export_path_missing(doc: Document, j: int) -> bool {
    match spec_export_under(doc, None::<u32>, doc.groups@.len()) {
        None => false,
        Some(idxs) => 0 <= j < idxs.len() && spec_path(
            doc,
            PsdElement::Layer(doc.layers@[idxs[j]]),
        ) is None,
    }
}

/// Collects, in depth-first order, the indices of every layer under
/// parent key `p`.
fn collect_layers(doc: &Document, p: Option<u32>, fuel: usize, out: &mut Vec<usize>) -> (r: Result<
    (),
    TreeError,
>)
    ensures
        match r {
            Ok(_) => spec_export_under(*doc, p, fuel as nat) matches Some(idxs)
                && final(out)@.len() == old(out)@.len() + idxs.len() && (forall|j: int|
                0 <= j < old(out)@.len() ==> final(out)@[j] == old(out)@[j]) && (forall|j: int|
                0 <= j < idxs.len() ==> (#[trigger] final(out)@[old(out)@.len() + j]) as int
                    == idxs[j]),
            Err(e) => e == TreeError::StructuralCorruption && spec_export_under(
                *doc,
                p,
                fuel as nat,
            ) is None,
        },
    decreases fuel,
{
    let ghost base = out@.len() as int;
    let ng = doc.groups.len();
    let mut k: usize = 0;
    while k < ng
        invariant
            0 <= k <= ng,
            ng == doc.groups@.len(),
            0 <= base <= out@.len(),
            spec_export_groups(*doc, k as int, p, fuel as nat) matches Some(pre) && out@.len()
                == base + pre.len() && (forall|j: int|
                0 <= j < base ==> out@[j] == old(out)@[j]) && (forall|j: int|
                0 <= j < pre.len() ==> (#[trigger] out@[base + j]) as int == pre[j]),
        decreases ng - k,
    {
        let matched = match (&doc.groups[k].parent_id, &p) {
            (Some(a), Some(b)) => *a == *b,
            (None, None) => true,
            _ => false,
        };
        if matched {
            if fuel == 0 {
                proof {
                    assert(spec_export_groups(*doc, k + 1, p, fuel as nat) is None);
                    lemma_export_groups_none_mono(*doc, k + 1, ng as int, p, fuel as nat);
                }
                return Err(TreeError::StructuralCorruption);
            }
            let ghost pre_out = out@;
            match collect_layers(doc, Some(doc.groups[k].id), fuel - 1, out) {
                Err(e) => {
                    proof {
                        assert(spec_export_groups(*doc, k + 1, p, fuel as nat) is None);
                        lemma_export_groups_none_mono(*doc, k + 1, ng as int, p, fuel as nat);
                    }
                    return Err(e);
                },
                Ok(_) => {
                    proof {
                        let pre = spec_export_groups(*doc, k as int, p, fuel as nat).unwrap();
                        let sub = spec_export_under(
                            *doc,
                            Some(doc.groups@[k as int].id),
                            (fuel - 1) as nat,
                        ).unwrap();
                        assert(spec_export_groups(*doc, k + 1, p, fuel as nat) == Some(pre + sub));
                        assert(pre_out.len() == base + pre.len());
                        assert forall|j: int| 0 <= j < (pre + sub).len() implies (
                        #[trigger] out@[base + j]) as int == (pre + sub)[j] by {
                            if j < pre.len() {
                                assert(0 <= base + j < pre_out.len());
                                assert(out@[base + j] == pre_out[base + j]);
                                assert(pre_out[base + j] as int == pre[j]);
                            } else {
                                assert(out@[pre_out.len() as int + (j - pre.len())] as int == sub[j
                                    - pre.len()]);
                            }
                        }
                    }
                },
            }
        } else {
            proof {
                assert(spec_export_groups(*doc, k + 1, p, fuel as nat) == spec_export_groups(
                    *doc,
                    k as int,
                    p,
                    fuel as nat,
                ));
            }
        }
        k = k + 1;
    }
    let nl = doc.layers.len();
    let mut j: usize = 0;
    proof {
        assert(doc.layers@.subrange(0, 0) =~= Seq::<LayerRec>::empty());
    }
    while j < nl
        invariant
            0 <= j <= nl,
            nl == doc.layers@.len(),
            ng == doc.groups@.len(),
            0 <= base <= out@.len(),
            spec_export_groups(*doc, ng as int, p, fuel as nat) matches Some(gs) && out@.len()
                == base + gs.len() + layer_indices_with_parent(
                doc.layers@.subrange(0, j as int),
                p,
            ).len() && (forall|i: int| 0 <= i < base ==> out@[i] == old(out)@[i]) && (forall|i: int|
                0 <= i < gs.len() + layer_indices_with_parent(
                    doc.layers@.subrange(0, j as int),
                    p,
                ).len() ==> (#[trigger] out@[base + i]) as int == (gs + layer_indices_with_parent(
                    doc.layers@.subrange(0, j as int),
                    p,
                ))[i]),
        decreases nl - j,
    {
        proof {
            assert(doc.layers@.subrange(0, j + 1).drop_last() =~= doc.layers@.subrange(0, j as int));
            assert(doc.layers@.subrange(0, j + 1).last() == doc.layers@[j as int]);
            assert(doc.layers@.subrange(0, j + 1).len() == j + 1);
        }
        let matched = match (&doc.layers[j].parent_id, &p) {
            (Some(a), Some(b)) => *a == *b,
            (None, None) => true,
            _ => false,
        };
        let ghost pre_out2 = out@;
        if matched {
            out.push(j);
        }
        proof {
            let gs = spec_export_groups(*doc, ng as int, p, fuel as nat).unwrap();
            let lj = layer_indices_with_parent(doc.layers@.subrange(0, j as int), p);
            let lj1 = layer_indices_with_parent(doc.layers@.subrange(0, j + 1), p);
            if matched {
                assert(lj1 =~= lj + seq![j as int]);
            } else {
                assert(lj1 =~= lj);
            }
            assert forall|i: int| 0 <= i < gs.len() + lj1.len() implies (#[trigger] out@[base + i])
                as int == (gs + lj1)[i] by {
                if i < gs.len() + lj.len() {
                    assert(out@[base + i] == pre_out2[base + i]);
                    assert(pre_out2[base + i] as int == (gs + lj)[i]);
                } else {
                    assert(out@[base + i] == j);
                }
            }
        }
        j = j + 1;
    }
    proof {
        assert(doc.layers@.subrange(0, nl as int) =~= doc.layers@);
    }
    Ok(())
}

impl PsdTree {
    /// Plans the export of every layer of the tree, depth-first from the
    /// root, sub-groups before sub-layers at each level: one entry per
    /// layer, with the layer's document position and its absolute path.
    /// Fails when the document's group nesting or a parent chain is
    /// corrupt.
    pub fn export_all(&self) -> (r: Result<Vec<ExportEntry>, TreeError>)
        ensures
            match r {
                Ok(plan) => spec_export_under(
                    self.doc,
                    None::<u32>,
                    self.doc.groups@.len(),
                ) matches Some(idxs) && plan@.len() == idxs.len() && forall|j: int|
                    0 <= j < idxs.len() ==> (#[trigger] plan@[j]).layer_index as int == idxs[j]
                        && spec_path(
                        self.doc,
                        PsdElement::Layer(self.doc.layers@[idxs[j]]),
                    ) == Some(plan@[j].path@),
                Err(e) => e == TreeError::StructuralCorruption && (spec_export_under(
                    self.doc,
                    None::<u32>,
                    self.doc.groups@.len(),
                ) is None || exists|j: int| #[trigger] export_path_missing(self.doc, j)),
            },
    {
        let fuel = self.doc.groups.len();
        let mut indices: Vec<usize> = Vec::new();
        match collect_layers(&self.doc, None, fuel, &mut indices) {
            Err(e) => {
                return Err(e);
            },
            Ok(_) => {},
        }
        let ghost idxs = spec_export_under(self.doc, None::<u32>, fuel as nat).unwrap();
        proof {
            lemma_export_under_in_range(self.doc, None::<u32>, fuel as nat);
            assert forall|i: int| 0 <= i < idxs.len() implies (#[trigger] indices@[i]) as int
                == idxs[i] by {
                assert(indices@[0 + i] as int == idxs[i]);
            }
        }
        let mut plan: Vec<ExportEntry> = Vec::new();
        let n = indices.len();
        let mut j: usize = 0;
        while j < n
            invariant
                0 <= j <= n,
                n == indices@.len(),
                n == idxs.len(),
                Some(idxs) == spec_export_under(self.doc, None::<u32>, self.doc.groups@.len()),
                forall|i: int| 0 <= i < n ==> (#[trigger] indices@[i]) as int == idxs[i],
                forall|i: int| 0 <= i < n ==> 0 <= #[trigger] idxs[i] < self.doc.layers@.len(),
                plan@.len() == j,
                forall|i: int|
                    0 <= i < j ==> (#[trigger] plan@[i]).layer_index == indices@[i] && spec_path(
                        self.doc,
                        PsdElement::Layer(self.doc.layers@[indices@[i] as int]),
                    ) == Some(plan@[i].path@),
            decreases n - j,
        {
            let li = indices[j];
            let node = PsdNode {
                element: PsdElement::Layer(self.doc.layers[li].duplicate()),
                depth: 0,
            };
            match node.get_path(self) {
                Err(e) => {
                    proof {
                        assert(export_path_missing(self.doc, j as int));
                    }
                    return Err(e);
                },
                Ok(path) => {
                    plan.push(ExportEntry { layer_index: li, path });
                },
            }
            j = j + 1;
        }
        Ok(plan)
    }

    /// Plans the export of every layer of the tree to files: the same
    /// depth-first plan as `export_all`; each entry's path names the
    /// output file relative to the caller's output root.
    pub fn export_all_to_file(&self) -> (r: Result<Vec<ExportEntry>, TreeError>)
        ensures
            match r {
                Ok(plan) => spec_export_under(
                    self.doc,
                    None::<u32>,
                    self.doc.groups@.len(),
                ) matches Some(idxs) && plan@.len() == idxs.len() && forall|j: int|
                    0 <= j < idxs.len() ==> (#[trigger] plan@[j]).layer_index as int == idxs[j]
                        && spec_path(
                        self.doc,
                        PsdElement::Layer(self.doc.layers@[idxs[j]]),
                    ) == Some(plan@[j].path@),
                Err(e) => e == TreeError::StructuralCorruption && (spec_export_under(
                    self.doc,
                    None::<u32>,
                    self.doc.groups@.len(),
                ) is None || exists|j: int| #[trigger] export_path_missing(self.doc, j)),
            },
    {
        self.export_all()
    }
}

} // verus!
