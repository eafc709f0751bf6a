//! Plain-value model of a parsed layered-image document: an ordered list of
//! groups, an ordered list of layers, canvas dimensions and the declared
//! color mode. Groups and layers carry an optional parent group identifier;
//! `None` means the record sits at the root.

use vstd::prelude::*;

verus! {

/// The color mode a document declares. Only `Rgb` is supported by the tree.
#[derive(Clone, Copy, PartialEq, Eq, Structural, Debug)]
pub enum ColorMode {
    Bitmap,
    Grayscale,
    Indexed,
    Rgb,
    Cmyk,
    Multichannel,
    Duotone,
    Lab,
}

/// A bounding rectangle: top-left corner plus width and height.
#[derive(Clone, Copy, PartialEq, Eq, Structural, Debug)]
pub struct Rect {
    pub left: i32,
    pub top: i32,
    pub width: u32,
    pub height: u32,
}

/// A group record: a container that may hold child groups and layers.
/// The display name is stored raw, possibly padded with null bytes.
#[derive(Debug)]
pub struct GroupRec {
    pub id: u32,
    pub name: String,
    pub parent_id: Option<u32>,
    pub rect: Rect,
}

/// A layer record: a leaf holding visibility, opacity and a bounding
/// rectangle. The display name is stored raw, possibly null-padded.
#[derive(Debug)]
pub struct LayerRec {
    pub name: String,
    pub parent_id: Option<u32>,
    pub visible: bool,
    pub opacity: u8,
    pub rect: Rect,
}

/// The parsed document: groups in document order, layers in document
/// order, canvas dimensions and the declared color mode.
#[derive(Debug)]
pub struct Document {
    pub groups: Vec<GroupRec>,
    pub layers: Vec<LayerRec>,
    pub width: u32,
    pub height: u32,
    pub color_mode: ColorMode,
}

impl GroupRec {
    /// A copy equal to this record.
    pub fn duplicate(&self) -> (r: GroupRec)
        ensures
            r == *self,
    {
        GroupRec {
            id: self.id,
            name: self.name.clone(),
            parent_id: self.parent_id,
            rect: self.rect,
        }
    }
}

impl LayerRec {
    /// A copy equal to this record.
    pub fn duplicate(&self) -> (r: LayerRec)
        ensures
            r == *self,
    {
        LayerRec {
            name: self.name.clone(),
            parent_id: self.parent_id,
            visible: self.visible,
            opacity: self.opacity,
            rect: self.rect,
        }
    }
}

/// The first group in `groups` whose identifier is `id`, if any.
pub open spec fn find_group(groups: Seq<GroupRec>, id: u32) -> Option<GroupRec>
    decreases groups.len(),
{
    if groups.len() == 0 {
        None
    } else if groups[0].id == id {
        Some(groups[0])
    } else {
        find_group(groups.drop_first(), id)
    }
}

impl Document {
    /// Some group in the document carries identifier `id`.
    pub open spec fn has_group(self, id: u32) -> bool {
        find_group(self.groups@, id) is Some
    }

    /// Group identifiers are pairwise distinct.
    pub open spec fn ids_unique(self) -> bool {
        forall|i: int, j: int|
            0 <= i < j < self.groups@.len() ==> self.groups@[i].id != self.groups@[j].id
    }

    /// Looks up a group by identifier, scanning in document order.
    pub fn group_by_id(&self, id: u32) -> (r: Option<&GroupRec>)
        ensures
            match r {
                Some(g) => find_group(self.groups@, id) == Some(*g),
                None => find_group(self.groups@, id) is None,
            },
    {
        let n = self.groups.len();
        let mut i: usize = 0;
        proof {
            assert(self.groups@.skip(0) =~= self.groups@);
        }
        while i < n
            invariant
                0 <= i <= n,
                n == self.groups@.len(),
                find_group(self.groups@, id) == find_group(self.groups@.skip(i as int), id),
                forall|j: int| 0 <= j < i ==> self.groups@[j].id != id,
            decreases n - i,
        {
            proof {
                assert(self.groups@.skip(i as int).drop_first() =~= self.groups@.skip(i + 1));
                assert(self.groups@.skip(i as int)[0] == self.groups@[i as int]);
            }
            if self.groups[i].id == id {
                return Some(&self.groups[i]);
            }
            i = i + 1;
        }
        proof {
            assert(self.groups@.skip(n as int) =~= Seq::<GroupRec>::empty());
        }
        None
    }
}

/// A group found by identifier is a group of the document, under that
/// identifier.
pub proof fn lemma_find_group_is_member(groups: Seq<GroupRec>, id: u32)
    requires
        find_group(groups, id) is Some,
    ensures
        groups.contains(find_group(groups, id).unwrap()),
        find_group(groups, id).unwrap().id == id,
    decreases groups.len(),
{
    if groups.len() > 0 && groups[0].id != id {
        lemma_find_group_is_member(groups.drop_first(), id);
        assert(groups.drop_first().contains(find_group(groups, id).unwrap()));
        let k = choose|k: int|
            0 <= k < groups.drop_first().len() && groups.drop_first()[k] == find_group(
                groups,
                id,
            ).unwrap();
        assert(groups[k + 1] == find_group(groups, id).unwrap());
    }
}

} // verus!
