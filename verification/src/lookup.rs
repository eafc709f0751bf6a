//! Path resolution. A node's path is the `/`-joined sequence of its
//! trimmed ancestor names, root-most first, ending in the node's own name.
//! Lookup walks a slash-separated path segment by segment from the root,
//! matching each segment against the trimmed names of the children at that
//! level.

use vstd::prelude::*;
use crate::TreeError;
use crate::doc::{Document, find_group};
use crate::names::{joined, split_path, split_path_str, trim_nulls, trim_null_padding, views_of};
use crate::tree::{PsdElement, PsdNode, PsdTree, children_with_parent, spec_children};

verus! {

/// The trimmed names of a group's ancestor chain, root-most first, walked
/// through at most `fuel` parent links; `None` when a link is missing or
/// the chain does not terminate within `fuel` steps.
pub open spec fn ancestor_segments(doc: Document, p: Option<u32>, fuel: nat) -> Option<
    Seq<Seq<char>>,
>
    decreases fuel,
{
    match p {
        None => Some(Seq::empty()),
        Some(id) => if fuel == 0 {
            None
        } else {
            match find_group(doc.groups@, id) {
                None => None,
                Some(g) => match ancestor_segments(doc, g.parent_id, (fuel - 1) as nat) {
                    None => None,
                    Some(pre) => Some(pre.push(trim_nulls(g.name@))),
                },
            }
        },
    }
}

/// The path segments of an element: its ancestors' trimmed names, then its
/// own; `None` when the parent chain is corrupt.
pub open spec fn spec_segments(doc: Document, e: PsdElement) -> Option<Seq<Seq<char>>> {
    match ancestor_segments(doc, e.parent_key(), doc.groups@.len()) {
        None => None,
        Some(pre) => Some(pre.push(trim_nulls(e.raw_name()))),
    }
}

/// The absolute path text of an element, when its chain resolves.
pub open spec fn spec_path(doc: Document, e: PsdElement) -> Option<Seq<char>> {
    match spec_segments(doc, e) {
        None => None,
        Some(segs) => Some(joined(segs)),
    }
}

/// The segments in reverse order.
pub open spec fn rev_segs(s: Seq<Seq<char>>) -> Seq<Seq<char>> {
    Seq::new(s.len(), |i: int| s[s.len() - 1 - i])
}

/// The first node of `nodes` whose trimmed name is `name`.
pub open spec fn first_named(nodes: Seq<PsdNode>, name: Seq<char>) -> Option<PsdNode>
    decreases nodes.len(),
{
    if nodes.len() == 0 {
        None
    } else if nodes[0].element.spec_name() == name {
        Some(nodes[0])
    } else {
        first_named(nodes.drop_first(), name)
    }
}

/// Resolves `segs` starting among the children under parent key `p` at
/// depth `depth`: each segment must match the trimmed name of a child at
/// its level; descending continues through groups only.
pub open spec fn resolve_segments(
    doc: Document,
    p: Option<u32>,
    depth: int,
    segs: Seq<Seq<char>>,
) -> Option<PsdNode>
    decreases segs.len(),
{
    if segs.len() == 0 {
        None
    } else {
        match first_named(spec_children(doc, p, depth), segs[0]) {
            None => None,
            Some(node) => if segs.len() == 1 {
                Some(node)
            } else {
                match node.element {
                    PsdElement::Group(g) => resolve_segments(
                        doc,
                        Some(g.id),
                        depth + 1,
                        segs.drop_first(),
                    ),
                    PsdElement::Layer(_) => None,
                }
            },
        }
    }
}

/// The node an absolute or relative path denotes, starting from the root.
pub open spec fn spec_get_node(doc: Document, path: Seq<char>) -> Option<PsdNode> {
    resolve_segments(doc, None, 0, split_path(path))
}

/// Builds the path text for the given parts in reverse order: the last
/// part is the root-most segment.
fn join_reversed(parts: &Vec<String>) -> (r: String)
    ensures
        r@ == joined(rev_segs(views_of(parts@))),
{
    let segs = Ghost(rev_segs(views_of(parts@)));
    let n = parts.len();
    let mut out = String::new();
    let mut k: usize = 0;
    proof {
        assert(segs@.subrange(0, 0) =~= Seq::<Seq<char>>::empty());
    }
    while k < n
        invariant
            0 <= k <= n,
            n == parts@.len(),
            segs@ == rev_segs(views_of(parts@)),
            out@ == joined(segs@.subrange(0, k as int)),
        decreases n - k,
    {
        out.append("/");
        out.append(parts[n - 1 - k].as_str());
        proof {
            reveal_strlit("/");
            assert("/"@ =~= seq!['/']);
            assert(segs@[k as int] == parts@[n - 1 - k]@);
            crate::names::lemma_joined_push(segs@.subrange(0, k as int), segs@[k as int]);
            assert(segs@.subrange(0, k + 1) =~= segs@.subrange(0, k as int).push(
                segs@[k as int],
            ));
        }
        k = k + 1;
    }
    proof {
        assert(segs@.subrange(0, n as int) =~= segs@);
    }
    out
}

impl PsdNode {
    /// The absolute path of this node: `/` plus its ancestors' trimmed
    /// names and its own, `/`-separated. Fails when a parent identifier
    /// does not resolve or the parent chain does not terminate.
    pub fn get_path(&self, tree: &PsdTree) -> (r: Result<String, TreeError>)
        ensures
            match r {
                Ok(s) => spec_path(tree.doc, self.element) == Some(s@),
                Err(e) => spec_path(tree.doc, self.element) is None && e
                    == TreeError::StructuralCorruption,
            },
    {
        let ghost own = trim_nulls(self.element.raw_name());
        let ghost doc = tree.doc;
        let ghost p0 = self.element.parent_key();
        let ghost target = ancestor_segments(doc, p0, doc.groups@.len());
        let mut parts: Vec<String> = Vec::new();
        parts.push(self.element.name());
        let ghost mut collected: Seq<Seq<char>> = Seq::empty();
        let mut cur: Option<u32> = match &self.element {
            PsdElement::Group(g) => g.parent_id,
            PsdElement::Layer(l) => l.parent_id,
        };
        let mut fuel: usize = tree.doc.groups.len();
        proof {
            assert(views_of(parts@) =~= seq![own] + rev_segs(collected));
            assert(ancestor_segments(doc, cur, fuel as nat) == target);
            assert(collected =~= Seq::<Seq<char>>::empty());
            assert(match ancestor_segments(doc, cur, fuel as nat) {
                None => target is None,
                Some(pre) => target == Some(pre + collected),
            });
        }
        while cur.is_some()
            invariant
                doc == tree.doc,
                p0 == self.element.parent_key(),
                own == trim_nulls(self.element.raw_name()),
                target == ancestor_segments(doc, p0, doc.groups@.len()),
                views_of(parts@) == seq![own] + rev_segs(collected),
                match ancestor_segments(doc, cur, fuel as nat) {
                    None => target is None,
                    Some(pre) => target == Some(pre + collected),
                },
            decreases fuel,
        {
            let id = cur.unwrap();
            if fuel == 0 {
                return Err(TreeError::StructuralCorruption);
            }
            match tree.doc.group_by_id(id) {
                None => {
                    return Err(TreeError::StructuralCorruption);
                },
                Some(g) => {
                    let ghost gname = trim_nulls(g.name@);
                    let ghost pv = views_of(parts@);
                    let ghost oldc = collected;
                    parts.push(trim_null_padding(g.name.as_str()));
                    proof {
                        collected = seq![gname] + collected;
                        assert(views_of(parts@) =~= pv.push(gname));
                        assert forall|i: int|
                            0 <= i < pv.push(gname).len() implies pv.push(gname)[i] == (seq![own]
                            + rev_segs(collected))[i] by {
                            if 1 <= i < pv.len() {
                                assert(pv[i] == (seq![own] + rev_segs(oldc))[i]);
                                assert(rev_segs(oldc)[i - 1] == oldc[oldc.len() - i]);
                                assert(rev_segs(collected)[i - 1] == collected[collected.len()
                                    - i]);
                                assert(collected[collected.len() - i] == oldc[oldc.len() - i]);
                            } else if i == pv.len() {
                                assert(rev_segs(collected)[i - 1] == collected[0]);
                            }
                        }
                        assert(views_of(parts@) =~= seq![own] + rev_segs(collected));
                        let prev_fuel = fuel as nat;
                        assert(ancestor_segments(doc, Some(id), prev_fuel) == match ancestor_segments(
                            doc,
                            g.parent_id,
                            (prev_fuel - 1) as nat,
                        ) {
                            None => None::<Seq<Seq<char>>>,
                            Some(pre) => Some(pre.push(gname)),
                        });
                        if ancestor_segments(doc, g.parent_id, (prev_fuel - 1) as nat) is Some {
                            let pre = ancestor_segments(doc, g.parent_id, (prev_fuel - 1) as nat)
                                .unwrap();
                            assert(pre.push(gname) + (collected.drop_first()) =~= pre + collected);
                        }
                    }
                    cur = g.parent_id;
                    fuel = fuel - 1;
                },
            }
        }
        proof {
            assert(ancestor_segments(doc, cur, fuel as nat) == Some(Seq::<Seq<char>>::empty()));
            assert(Seq::<Seq<char>>::empty() + collected =~= collected);
            assert(target == Some(collected));
            assert(spec_segments(doc, self.element) == Some(collected.push(own)));
            assert(rev_segs(views_of(parts@)) =~= collected.push(own));
        }
        Ok(join_reversed(&parts))
    }
}

/// The index of the first child whose trimmed name equals `name`.
fn find_named(children: &Vec<PsdNode>, name: &String) -> (r: Option<usize>)
    ensures
        match r {
            Some(i) => i < children@.len() && first_named(children@, name@) == Some(
                children@[i as int],
            ),
            None => first_named(children@, name@) is None,
        },
{
    let n = children.len();
    let mut i: usize = 0;
    proof {
        assert(children@.skip(0) =~= children@);
    }
    while i < n
        invariant
            0 <= i <= n,
            n == children@.len(),
            first_named(children@, name@) == first_named(children@.skip(i as int), name@),
        decreases n - i,
    {
        proof {
            assert(children@.skip(i as int).drop_first() =~= children@.skip(i + 1));
            assert(children@.skip(i as int)[0] == children@[i as int]);
        }
        let cname = children[i].element.name();
        if cname.eq(name) {
            return Some(i);
        }
        i = i + 1;
    }
    proof {
        assert(children@.skip(n as int) =~= Seq::<PsdNode>::empty());
    }
    None
}

/// Resolves path segments starting among the children under `p` at
/// `depth`.
fn resolve_from(doc: &Document, p: Option<u32>, depth: usize, segs: &Vec<String>) -> (r: Option<
    PsdNode,
>)
    requires
        depth as int + segs@.len() <= usize::MAX as int + 1,
    ensures
        r == resolve_segments(*doc, p, depth as int, views_of(segs@)),
{
    let n = segs.len();
    if n == 0 {
        return None;
    }
    let mut cp = p;
    let mut cdepth = depth;
    let mut k: usize = 0;
    proof {
        assert(views_of(segs@).skip(0) =~= views_of(segs@));
    }
    while k < n
        invariant
            0 <= k < n,
            n == segs@.len(),
            cdepth as int == depth as int + k,
            cdepth as int + (n - k) <= usize::MAX as int + 1,
            resolve_segments(*doc, p, depth as int, views_of(segs@)) == resolve_segments(
                *doc,
                cp,
                cdepth as int,
                views_of(segs@).skip(k as int),
            ),
        decreases n - k,
    {
        proof {
            assert(views_of(segs@).skip(k as int)[0] == segs@[k as int]@);
            assert(views_of(segs@).skip(k as int).len() == n - k);
        }
        let children = children_with_parent(doc, cp, cdepth);
        match find_named(&children, &segs[k]) {
            None => {
                return None;
            },
            Some(i) => {
                if k == n - 1 {
                    let found = PsdNode {
                        element: children[i].element.duplicate(),
                        depth: children[i].depth,
                    };
                    proof {
                        assert(views_of(segs@).skip(k as int).len() == 1);
                    }
                    return Some(found);
                }
                match &children[i].element {
                    PsdElement::Group(g) => {
                        proof {
                            assert(views_of(segs@).skip(k as int).drop_first() =~= views_of(
                                segs@,
                            ).skip(k + 1));
                        }
                        cp = Some(g.id);
                        cdepth = cdepth + 1;
                        k = k + 1;
                    },
                    PsdElement::Layer(_) => {
                        return None;
                    },
                }
            },
        }
    }
    proof {
        assert(false);
    }
    None
}

impl PsdTree {
    /// The node an absolute or relative slash-separated path denotes. The
    /// leading root segment of an absolute path is skipped; each remaining
    /// segment must exactly match a child's trimmed display name at that
    /// level. An unmatched segment yields `None`, never an error.
    pub fn get_node(&self, path: &str) -> (r: Option<PsdNode>)
        ensures
            r == spec_get_node(self.doc, path@),
    {
        let segs = split_path_str(path);
        let n = segs.len();
        proof {
            assert(segs@.len() == n as int);
        }
        resolve_from(&self.doc, None, 0, &segs)
    }
}

} // verus!
