//! Tree listing: one line per node, depth-first, indented with one tab
//! per level, tagged `[G]` for groups and `[L]` for layers, followed by
//! the trimmed display name.

use vstd::prelude::*;
use crate::TreeError;
use crate::doc::{Document, LayerRec};
use crate::names::{trim_nulls, views_of};
use crate::tree::{PsdElement, PsdTree};

verus! {

/// `depth` tab characters.
pub open spec fn tabs(depth: nat) -> Seq<char> {
    Seq::new(depth, |i: int| '\t')
}

/// The listing line of an element at a depth: tabs, a `[G]` or `[L]` tag,
/// and the trimmed name.
pub open spec fn line_for(e: PsdElement, depth: nat) -> Seq<char> {
    tabs(depth) + (match e {
        PsdElement::Group(_) => seq!['[', 'G', ']', ' '],
        PsdElement::Layer(_) => seq!['[', 'L', ']', ' '],
    }) + trim_nulls(e.raw_name())
}

/// The lines of the layers of `layers` whose parent identifier is `p`, in
/// document order, at one depth.
pub open spec fn layer_lines_with_parent(layers: Seq<LayerRec>, p: Option<u32>, depth: nat) -> Seq<
    Seq<char>,
>
    decreases layers.len(),
{
    if layers.len() == 0 {
        Seq::empty()
    } else {
        layer_lines_with_parent(layers.drop_last(), p, depth) + if layers.last().parent_id == p {
            seq![line_for(PsdElement::Layer(layers.last()), depth)]
        } else {
            Seq::empty()
        }
    }
}

/// The lines for the sub-groups among the first `k` groups whose parent
/// identifier is `p`: each group's own line, then its subtree. `None`
/// when nesting exceeds `fuel` levels.
pub open spec fn spec_list_groups(
    doc: Document,
    k: int,
    p: Option<u32>,
    depth: nat,
    fuel: nat,
) -> Option<Seq<Seq<char>>>
    decreases fuel, k,
{
    if k <= 0 {
        Some(Seq::empty())
    } else {
        match spec_list_groups(doc, k - 1, p, depth, fuel) {
            None => None,
            Some(pre) => if doc.groups@[k - 1].parent_id == p {
                if fuel == 0 {
                    None
                } else {
                    match spec_list_under(
                        doc,
                        Some(doc.groups@[k - 1].id),
                        depth + 1,
                        (fuel - 1) as nat,
                    ) {
                        None => None,
                        Some(sub) => Some(
                            pre + seq![line_for(PsdElement::Group(doc.groups@[k - 1]), depth)]
                                + sub,
                        ),
                    }
                }
            } else {
                Some(pre)
            },
        }
    }
}

/// The listing lines under parent key `p` at one depth: every matching
/// sub-group's line and subtree in document order, then every matching
/// layer's line in document order.
pub open spec fn spec_list_under(doc: Document, p: Option<u32>, depth: nat, fuel: nat) -> Option<
    Seq<Seq<char>>,
>
    decreases fuel, doc.groups@.len() + 1,
{
    match spec_list_groups(doc, doc.groups@.len() as int, p, depth, fuel) {
        None => None,
        Some(gs) => Some(gs + layer_lines_with_parent(doc.layers@, p, depth)),
    }
}

proof fn lemma_list_groups_none_mono(
    doc: Document,
    k: int,
    m: int,
    p: Option<u32>,
    depth: nat,
    fuel: nat,
)
    requires
        0 <= k <= m,
        spec_list_groups(doc, k, p, depth, fuel) is None,
    ensures
        spec_list_groups(doc, m, p, depth, fuel) is None,
    decreases m - k,
{
    if m > k {
        lemma_list_groups_none_mono(doc, k, m - 1, p, depth, fuel);
    }
}

/// Builds the listing line of one element at one depth.
fn line_string(e: &PsdElement, depth: usize) -> (r: String)
    ensures
        r@ == line_for(*e, depth as nat),
{
    let mut out = String::new();
    let mut i: usize = 0;
    proof {
        assert(out@ =~= tabs(0));
    }
    while i < depth
        invariant
            0 <= i <= depth,
            out@ == tabs(i as nat),
        decreases depth - i,
    {
        out.append("\t");
        proof {
            reveal_strlit("\t");
            assert(out@ =~= tabs((i + 1) as nat));
        }
        i = i + 1;
    }
    match e {
        PsdElement::Group(_) => {
            out.append("[G] ");
            proof {
                reveal_strlit("[G] ");
                assert("[G] "@ =~= seq!['[', 'G', ']', ' ']);
            }
        },
        PsdElement::Layer(_) => {
            out.append("[L] ");
            proof {
                reveal_strlit("[L] ");
                assert("[L] "@ =~= seq!['[', 'L', ']', ' ']);
            }
        },
    }
    let nm = e.name();
    out.append(nm.as_str());
    out
}

/// Appends, in depth-first order, the listing lines of every node under
/// parent key `p`.
fn list_under(tree: &PsdTree, p: Option<u32>, depth: usize, fuel: usize, out: &mut Vec<String>) -> (r:
    Result<(), TreeError>)
    requires
        depth as int + fuel as int <= usize::MAX as int,
    ensures
        match r {
            Ok(_) => spec_list_under(tree.doc, p, depth as nat, fuel as nat) matches Some(lines)
                && final(out)@.len() == old(out)@.len() + lines.len() && (forall|j: int|
                0 <= j < old(out)@.len() ==> final(out)@[j] == old(out)@[j]) && (forall|j: int|
                0 <= j < lines.len() ==> (#[trigger] final(out)@[old(out)@.len() + j])@
                    == lines[j]),
            Err(e) => e == TreeError::StructuralCorruption && spec_list_under(
                tree.doc,
                p,
                depth as nat,
                fuel as nat,
            ) is None,
        },
    decreases fuel,
{
    let doc = &tree.doc;
    let ghost base = out@.len() as int;
    let ng = doc.groups.len();
    let mut k: usize = 0;
    while k < ng
        invariant
            0 <= k <= ng,
            ng == doc.groups@.len(),
            doc == &tree.doc,
            depth as int + fuel as int <= usize::MAX as int,
            0 <= base <= out@.len(),
            spec_list_groups(tree.doc, k as int, p, depth as nat, fuel as nat) matches Some(pre)
                && out@.len() == base + pre.len() && (forall|j: int|
                0 <= j < base ==> out@[j] == old(out)@[j]) && (forall|j: int|
                0 <= j < pre.len() ==> (#[trigger] out@[base + j])@ == pre[j]),
        decreases ng - k,
    {
        let matched = match (&doc.groups[k].parent_id, &p) {
            (Some(a), Some(b)) => *a == *b,
            (None, None) => true,
            _ => false,
        };
        if matched {
            if fuel == 0 {
                proof {
                    assert(spec_list_groups(tree.doc, k + 1, p, depth as nat, fuel as nat) is None);
                    lemma_list_groups_none_mono(
                        tree.doc,
                        k + 1,
                        ng as int,
                        p,
                        depth as nat,
                        fuel as nat,
                    );
                }
                return Err(TreeError::StructuralCorruption);
            }
            let line = line_string(&PsdElement::Group(doc.groups[k].duplicate()), depth);
            out.push(line);
            let ghost pre_out = out@;
            match list_under(tree, Some(doc.groups[k].id), depth + 1, fuel - 1, out) {
                Err(e) => {
                    proof {
                        assert(spec_list_groups(
                            tree.doc,
                            k + 1,
                            p,
                            depth as nat,
                            fuel as nat,
                        ) is None);
                        lemma_list_groups_none_mono(
                            tree.doc,
                            k + 1,
                            ng as int,
                            p,
                            depth as nat,
                            fuel as nat,
                        );
                    }
                    return Err(e);
                },
                Ok(_) => {
                    proof {
                        let pre = spec_list_groups(
                            tree.doc,
                            k as int,
                            p,
                            depth as nat,
                            fuel as nat,
                        ).unwrap();
                        let gl = seq![line_for(PsdElement::Group(doc.groups@[k as int]), depth as nat)];
                        let sub = spec_list_under(
                            tree.doc,
                            Some(doc.groups@[k as int].id),
                            (depth + 1) as nat,
                            (fuel - 1) as nat,
                        ).unwrap();
                        assert(spec_list_groups(tree.doc, k + 1, p, depth as nat, fuel as nat)
                            == Some(pre + gl + sub));
                        assert(pre_out.len() == base + pre.len() + 1);
                        assert(pre_out[base + pre.len() as int]@ == gl[0]);
                        assert forall|j: int| 0 <= j < (pre + gl + sub).len() implies (
                        #[trigger] out@[base + j])@ == (pre + gl + sub)[j] by {
                            if j < pre.len() + 1 {
                                assert(0 <= base + j < pre_out.len());
                                assert(out@[base + j] == pre_out[base + j]);
                            } else {
                                assert(out@[pre_out.len() as int + (j - pre.len() - 1)]@ == sub[j
                                    - pre.len() - 1]);
                            }
                        }
                    }
                },
            }
        } else {
            proof {
                assert(spec_list_groups(tree.doc, k + 1, p, depth as nat, fuel as nat)
                    == spec_list_groups(tree.doc, k as int, p, depth as nat, fuel as nat));
            }
        }
        k = k + 1;
    }
    let nl = doc.layers.len();
    let mut j: usize = 0;
    proof {
        assert(doc.layers@.subrange(0, 0) =~= Seq::<LayerRec>::empty());
    }
    while j < nl
        invariant
            0 <= j <= nl,
            nl == doc.layers@.len(),
            ng == doc.groups@.len(),
            doc == &tree.doc,
            0 <= base <= out@.len(),
            spec_list_groups(tree.doc, ng as int, p, depth as nat, fuel as nat) matches Some(gs)
                && out@.len() == base + gs.len() + layer_lines_with_parent(
                doc.layers@.subrange(0, j as int),
                p,
                depth as nat,
            ).len() && (forall|i: int| 0 <= i < base ==> out@[i] == old(out)@[i]) && (forall|i: int|
                0 <= i < gs.len() + layer_lines_with_parent(
                    doc.layers@.subrange(0, j as int),
                    p,
                    depth as nat,
                ).len() ==> (#[trigger] out@[base + i])@ == (gs + layer_lines_with_parent(
                    doc.layers@.subrange(0, j as int),
                    p,
                    depth as nat,
                ))[i]),
        decreases nl - j,
    {
        proof {
            assert(doc.layers@.subrange(0, j + 1).drop_last() =~= doc.layers@.subrange(0, j as int));
            assert(doc.layers@.subrange(0, j + 1).last() == doc.layers@[j as int]);
        }
        let matched = match (&doc.layers[j].parent_id, &p) {
            (Some(a), Some(b)) => *a == *b,
            (None, None) => true,
            _ => false,
        };
        let ghost pre_out2 = out@;
        if matched {
            let line = line_string(&PsdElement::Layer(doc.layers[j].duplicate()), depth);
            out.push(line);
        }
        proof {
            let gs = spec_list_groups(tree.doc, ng as int, p, depth as nat, fuel as nat).unwrap();
            let lj = layer_lines_with_parent(doc.layers@.subrange(0, j as int), p, depth as nat);
            let lj1 = layer_lines_with_parent(doc.layers@.subrange(0, j + 1), p, depth as nat);
            if matched {
                assert(lj1 =~= lj + seq![line_for(PsdElement::Layer(doc.layers@[j as int]), depth as nat)]);
            } else {
                assert(lj1 =~= lj);
            }
            assert forall|i: int| 0 <= i < gs.len() + lj1.len() implies (#[trigger] out@[base + i])@
                == (gs + lj1)[i] by {
                if i < gs.len() + lj.len() {
                    assert(out@[base + i] == pre_out2[base + i]);
                    assert(pre_out2[base + i]@ == (gs + lj)[i]);
                } else {
                    assert(out@[base + i]@ == line_for(
                        PsdElement::Layer(doc.layers@[j as int]),
                        depth as nat,
                    ));
                }
            }
        }
        j = j + 1;
    }
    proof {
        assert(doc.layers@.subrange(0, nl as int) =~= doc.layers@);
    }
    Ok(())
}

/// The listing lines of one node's subtree: the node's own line, then,
/// for a group, the lines of its children depth-first.
pub open spec fn spec_list_node(doc: Document, node: crate::tree::PsdNode, fuel: nat) -> Option<
    Seq<Seq<char>>,
> {
    match node.element {
        PsdElement::Layer(_) => Some(seq![line_for(node.element, node.depth as nat)]),
        PsdElement::Group(g) => match spec_list_under(
            doc,
            Some(g.id),
            node.depth as nat + 1,
            fuel,
        ) {
            None => None,
            Some(sub) => Some(seq![line_for(node.element, node.depth as nat)] + sub),
        },
    }
}

impl crate::tree::PsdNode {
    /// The listing of this node's subtree: its own line, then its
    /// children, depth-first. Fails when the group nesting below is
    /// corrupt.
    pub fn list(&self, tree: &PsdTree) -> (r: Result<Vec<String>, TreeError>)
        requires
            self.depth as int + 1 + tree.doc.groups@.len() <= usize::MAX as int,
        ensures
            match r {
                Ok(v) => spec_list_node(tree.doc, *self, tree.doc.groups@.len()) == Some(
                    views_of(v@),
                ),
                Err(e) => e == TreeError::StructuralCorruption && spec_list_node(
                    tree.doc,
                    *self,
                    tree.doc.groups@.len(),
                ) is None,
            },
    {
        let line = line_string(&self.element, self.depth);
        let mut out: Vec<String> = Vec::new();
        out.push(line);
        match &self.element {
            PsdElement::Layer(_) => {
                proof {
                    assert(views_of(out@) =~= seq![line_for(self.element, self.depth as nat)]);
                }
                Ok(out)
            },
            PsdElement::Group(g) => {
                match list_under(tree, Some(g.id), self.depth + 1, tree.doc.groups.len(), &mut out) {
                    Err(e) => Err(e),
                    Ok(_) => {
                        proof {
                            let sub = spec_list_under(
                                tree.doc,
                                Some(g.id),
                                (self.depth + 1) as nat,
                                tree.doc.groups@.len(),
                            ).unwrap();
                            let own = seq![line_for(self.element, self.depth as nat)];
                            assert forall|j: int| 0 <= j < (own + sub).len() implies views_of(
                                out@,
                            )[j] == (own + sub)[j] by {
                                if j >= 1 {
                                    assert(out@[1 + (j - 1)]@ == sub[j - 1]);
                                }
                            }
                            assert(views_of(out@) =~= own + sub);
                        }
                        Ok(out)
                    },
                }
            },
        }
    }
}

/// The text of listing lines joined with newlines.
pub open spec fn joined_lines(lines: Seq<Seq<char>>) -> Seq<char>
    decreases lines.len(),
{
    if lines.len() == 0 {
        Seq::empty()
    } else if lines.len() == 1 {
        lines[0]
    } else {
        lines[0] + seq!['\n'] + joined_lines(lines.drop_first())
    }
}

proof fn lemma_joined_lines_push(lines: Seq<Seq<char>>, e: Seq<char>)
    ensures
        lines.len() == 0 ==> joined_lines(lines.push(e)) == e,
        lines.len() > 0 ==> joined_lines(lines.push(e)) == joined_lines(lines) + seq!['\n'] + e,
    decreases lines.len(),
{
    if lines.len() == 0 {
        assert(lines.push(e)[0] == e);
    } else {
        assert(lines.push(e).drop_first() =~= lines.drop_first().push(e));
        lemma_joined_lines_push(lines.drop_first(), e);
        assert(lines.push(e)[0] == lines[0]);
        if lines.len() == 1 {
            assert(joined_lines(lines.push(e)) == lines[0] + seq!['\n'] + e);
        } else {
            let head = lines[0] + seq!['\n'];
            let tail = joined_lines(lines.drop_first());
            assert(joined_lines(lines.push(e)) == head + (tail + seq!['\n'] + e));
            assert(head + (tail + seq!['\n'] + e) =~= (head + tail) + seq!['\n'] + e);
        }
    }
}

impl PsdTree {
    /// The listing of the whole tree, depth-first from the root: one line
    /// per node. Fails when the document's group nesting is corrupt.
    pub fn list(&self) -> (r: Result<Vec<String>, TreeError>)
        ensures
            match r {
                Ok(v) => spec_list_under(self.doc, None::<u32>, 0, self.doc.groups@.len()) == Some(
                    views_of(v@),
                ),
                Err(e) => e == TreeError::StructuralCorruption && spec_list_under(
                    self.doc,
                    None::<u32>,
                    0,
                    self.doc.groups@.len(),
                ) is None,
            },
    {
        let fuel = self.doc.groups.len();
        let mut out: Vec<String> = Vec::new();
        match list_under(self, None, 0, fuel, &mut out) {
            Err(e) => Err(e),
            Ok(_) => {
                proof {
                    let lines = spec_list_under(
                        self.doc,
                        None::<u32>,
                        0,
                        fuel as nat,
                    ).unwrap();
                    assert forall|j: int| 0 <= j < lines.len() implies views_of(out@)[j]
                        == lines[j] by {
                        assert(out@[0 + j]@ == lines[j]);
                    }
                    assert(views_of(out@) =~= lines);
                }
                Ok(out)
            },
        }
    }

    /// The listing of the whole tree as one text: the lines of `list`
    /// joined with newlines.
    pub fn print(&self) -> (r: Result<String, TreeError>)
        ensures
            match r {
                Ok(s) => spec_list_under(self.doc, None::<u32>, 0, self.doc.groups@.len()) matches
                    Some(lines) && s@ == joined_lines(lines),
                Err(e) => e == TreeError::StructuralCorruption && spec_list_under(
                    self.doc,
                    None::<u32>,
                    0,
                    self.doc.groups@.len(),
                ) is None,
            },
    {
        let lines = match self.list() {
            Err(e) => {
                return Err(e);
            },
            Ok(v) => v,
        };
        let n = lines.len();
        let mut out = String::new();
        let mut k: usize = 0;
        proof {
            assert(views_of(lines@).subrange(0, 0) =~= Seq::<Seq<char>>::empty());
        }
        while k < n
            invariant
                0 <= k <= n,
                n == lines@.len(),
                out@ == joined_lines(views_of(lines@).subrange(0, k as int)),
            decreases n - k,
        {
            if k > 0 {
                out.append("\n");
            }
            out.append(lines[k].as_str());
            proof {
                reveal_strlit("\n");
                assert("\n"@ =~= seq!['\n']);
                lemma_joined_lines_push(
                    views_of(lines@).subrange(0, k as int),
                    views_of(lines@)[k as int],
                );
                assert(views_of(lines@).subrange(0, k + 1) =~= views_of(lines@).subrange(
                    0,
                    k as int,
                ).push(views_of(lines@)[k as int]));
            }
            k = k + 1;
        }
        proof {
            assert(views_of(lines@).subrange(0, n as int) =~= views_of(lines@));
        }
        Ok(out)
    }
}

} // verus!
