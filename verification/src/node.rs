//! The nodes of the tree: leaves that hold occupants, and inner nodes that
//! own four children.

use vstd::prelude::*;
use vstd::multiset::Multiset;
use crate::coord::Coord;
use crate::region::{lemma_quadrants_partition, Quadrant, Region};
use crate::slot_map::SlotId;

verus! {

/// An occupant of a leaf: the handle of a stored value and the point it is
/// filed under.
#[derive(Clone, Copy, Debug, PartialEq, Eq, Hash, Structural)]
pub struct Entry {
    pub id: SlotId,
    pub anchor: Coord,
}

/// The four children of an inner node.
#[derive(Debug)]
pub struct Quad {
    pub sw: Node,
    pub se: Node,
    pub nw: Node,
    pub ne: Node,
}

/// A node of the tree. A leaf has no children and holds its occupants; an
/// inner node holds none itself. Traversal is from the top down only.
#[derive(Debug)]
pub struct Node {
    pub region: Region,
    pub depth: usize,
    pub entries: Vec<Entry>,
    pub children: Option<Box<Quad>>,
}

/// Whether a query over `q` that leaves out the handles in `exclude`
/// reports the occupant `e`.
pub open spec fn hit(q: Region, exclude: Seq<SlotId>, e: Entry) -> bool {
    q.spec_contains(e.anchor) && !exclude.contains(e.id)
}

/// `hit` as a predicate on occupants.
pub open spec fn hits(q: Region, exclude: Seq<SlotId>) -> spec_fn(Entry) -> bool {
    |e: Entry| hit(q, exclude, e)
}

/// Whether `id` is among `exclude`.
pub fn listed(exclude: &[SlotId], id: SlotId) -> (r: bool)
    ensures
        r == exclude@.contains(id),
{
    let mut i: usize = 0;
    while i < exclude.len()
        invariant
            i <= exclude@.len(),
            forall|j: int| 0 <= j < i ==> exclude@[j] != id,
        decreases exclude@.len() - i,
    {
        if exclude[i] == id {
            return true;
        }
        i += 1;
    }
    false
}

/// The occupants that a node with `region` files under its quadrant `k`.
pub open spec fn filed_under(region: Region, k: Quadrant) -> spec_fn(Entry) -> bool {
    |e: Entry| region.spec_quadrant_of(e.anchor) == k
}

/// What a subtree is, apart from the order in which a leaf lists its
/// occupants.
pub enum Shape {
    Leaf { region: Region, depth: usize, held: Multiset<Entry> },
    Inner {
        region: Region,
        depth: usize,
        sw: Box<Shape>,
        se: Box<Shape>,
        nw: Box<Shape>,
        ne: Box<Shape>,
    },
}

impl Shape {
    /// The subtree that `held` settles into below a node at `depth` over
    /// `region`: one leaf if `held` is within the split threshold or the
    /// depth limit is reached; otherwise four subtrees, one for each
    /// quadrant, with the occupants filed under it.
    pub open spec fn settled(
        region: Region,
        depth: usize,
        held: Multiset<Entry>,
        cap: usize,
        max_depth: usize,
    ) -> Shape
        decreases max_depth - depth,
    {
        if held.len() <= cap || depth >= max_depth {
            Shape::Leaf { region, depth, held }
        } else {
            let below = (depth + 1) as usize;
            Shape::Inner {
                region,
                depth,
                sw: Box::new(
                    Shape::settled(
                        region.spec_quadrant(Quadrant::SouthWest),
                        below,
                        held.filter(filed_under(region, Quadrant::SouthWest)),
                        cap,
                        max_depth,
                    ),
                ),
                se: Box::new(
                    Shape::settled(
                        region.spec_quadrant(Quadrant::SouthEast),
                        below,
                        held.filter(filed_under(region, Quadrant::SouthEast)),
                        cap,
                        max_depth,
                    ),
                ),
                nw: Box::new(
                    Shape::settled(
                        region.spec_quadrant(Quadrant::NorthWest),
                        below,
                        held.filter(filed_under(region, Quadrant::NorthWest)),
                        cap,
                        max_depth,
                    ),
                ),
                ne: Box::new(
                    Shape::settled(
                        region.spec_quadrant(Quadrant::NorthEast),
                        below,
                        held.filter(filed_under(region, Quadrant::NorthEast)),
                        cap,
                        max_depth,
                    ),
                ),
            }
        }
    }

    /// The subtree after `e` was inserted: the leaf that `e` is filed in
    /// takes it and settles again; nothing else changes.
    pub open spec fn with(self, e: Entry, cap: usize, max_depth: usize) -> Shape
        decreases self,
    {
        match self {
            Shape::Leaf { region, depth, held } => Shape::settled(
                region,
                depth,
                held.insert(e),
                cap,
                max_depth,
            ),
            Shape::Inner { region, depth, sw, se, nw, ne } => {
                let k = region.spec_quadrant_of(e.anchor);
                Shape::Inner {
                    region,
                    depth,
                    sw: if k == Quadrant::SouthWest {
                        Box::new(sw.with(e, cap, max_depth))
                    } else {
                        sw
                    },
                    se: if k == Quadrant::SouthEast {
                        Box::new(se.with(e, cap, max_depth))
                    } else {
                        se
                    },
                    nw: if k == Quadrant::NorthWest {
                        Box::new(nw.with(e, cap, max_depth))
                    } else {
                        nw
                    },
                    ne: if k == Quadrant::NorthEast {
                        Box::new(ne.with(e, cap, max_depth))
                    } else {
                        ne
                    },
                }
            },
        }
    }

    /// The subtree after `e` was removed: the leaf that `e` is filed in
    /// loses one such occupant, if it has one; no node goes away.
    pub open spec fn without(self, e: Entry) -> Shape
        decreases self,
    {
        match self {
            Shape::Leaf { region, depth, held } => Shape::Leaf {
                region,
                depth,
                held: held.remove(e),
            },
            Shape::Inner { region, depth, sw, se, nw, ne } => {
                let k = region.spec_quadrant_of(e.anchor);
                Shape::Inner {
                    region,
                    depth,
                    sw: if k == Quadrant::SouthWest {
                        Box::new(sw.without(e))
                    } else {
                        sw
                    },
                    se: if k == Quadrant::SouthEast {
                        Box::new(se.without(e))
                    } else {
                        se
                    },
                    nw: if k == Quadrant::NorthWest {
                        Box::new(nw.without(e))
                    } else {
                        nw
                    },
                    ne: if k == Quadrant::NorthEast {
                        Box::new(ne.without(e))
                    } else {
                        ne
                    },
                }
            },
        }
    }

    /// The occupants of the leaves of the subtree.
    pub open spec fn contents(self) -> Multiset<Entry>
        decreases self,
    {
        match self {
            Shape::Leaf { held, .. } => held,
            Shape::Inner { sw, se, nw, ne, .. } => sw.contents().add(se.contents()).add(
                nw.contents(),
            ).add(ne.contents()),
        }
    }

    /// The regions of the leaves of the subtree, children taken in the
    /// order south-west, south-east, north-west, north-east.
    pub open spec fn leaf_regions(self) -> Seq<Region>
        decreases self,
    {
        match self {
            Shape::Leaf { region, .. } => seq![region],
            Shape::Inner { sw, se, nw, ne, .. } => sw.leaf_regions() + se.leaf_regions()
                + nw.leaf_regions() + ne.leaf_regions(),
        }
    }

    /// No leaf of the subtree holds more than `cap` occupants, unless it
    /// lies at depth `max_depth`.
    pub open spec fn leaves_within(self, cap: usize, max_depth: usize) -> bool
        decreases self,
    {
        match self {
            Shape::Leaf { depth, held, .. } => held.len() <= cap || depth == max_depth,
            Shape::Inner { sw, se, nw, ne, .. } => sw.leaves_within(cap, max_depth)
                && se.leaves_within(cap, max_depth) && nw.leaves_within(cap, max_depth)
                && ne.leaves_within(cap, max_depth),
        }
    }
}

/// Inserting into a settled subtree gives the subtree that the occupants
/// and the new one settle into together.
pub proof fn lemma_settled_with(
    region: Region,
    depth: usize,
    held: Multiset<Entry>,
    e: Entry,
    cap: usize,
    max_depth: usize,
)
    ensures
        Shape::settled(region, depth, held, cap, max_depth).with(e, cap, max_depth)
            == Shape::settled(region, depth, held.insert(e), cap, max_depth),
    decreases max_depth - depth,
{
    broadcast use vstd::multiset::group_multiset_properties;

    if held.len() <= cap || depth >= max_depth {
    } else {
        let below = (depth + 1) as usize;
        let k = region.spec_quadrant_of(e.anchor);
        let grown = held.insert(e);
        assert(grown.len() > cap);
        lemma_filed_insert(region, held, e, Quadrant::SouthWest);
        lemma_filed_insert(region, held, e, Quadrant::SouthEast);
        lemma_filed_insert(region, held, e, Quadrant::NorthWest);
        lemma_filed_insert(region, held, e, Quadrant::NorthEast);
        lemma_settled_with(
            region.spec_quadrant(k),
            below,
            held.filter(filed_under(region, k)),
            e,
            cap,
            max_depth,
        );
    }
}

/// Filing after an insertion is inserting after filing: the new
/// occupant joins the quadrant it is filed under and no other.
pub proof fn lemma_filed_insert(region: Region, held: Multiset<Entry>, e: Entry, k: Quadrant)
    ensures
        held.insert(e).filter(filed_under(region, k)) == (if region.spec_quadrant_of(e.anchor)
            == k {
            held.filter(filed_under(region, k)).insert(e)
        } else {
            held.filter(filed_under(region, k))
        }),
{
    broadcast use vstd::multiset::group_multiset_properties;

    if region.spec_quadrant_of(e.anchor) == k {
        assert(held.insert(e).filter(filed_under(region, k)) =~= held.filter(
            filed_under(region, k),
        ).insert(e));
    } else {
        assert(held.insert(e).filter(filed_under(region, k)) =~= held.filter(
            filed_under(region, k),
        ));
    }
}

impl Node {
    /// The occupants of the leaves at and below this node.
    pub open spec fn contents(self) -> Multiset<Entry>
        decreases self,
    {
        match self.children {
            None => self.entries@.to_multiset(),
            Some(q) => q.sw.contents().add(q.se.contents()).add(q.nw.contents()).add(
                q.ne.contents(),
            ),
        }
    }

    /// The regions of the leaves at and below this node, children taken
    /// in the order south-west, south-east, north-west, north-east.
    pub open spec fn leaf_regions(self) -> Seq<Region>
        decreases self,
    {
        match self.children {
            None => seq![self.region],
            Some(q) => q.sw.leaf_regions() + q.se.leaf_regions() + q.nw.leaf_regions()
                + q.ne.leaf_regions(),
        }
    }

    /// What this subtree is, apart from the order in which a leaf lists
    /// its occupants.
    pub open spec fn shape(self) -> Shape
        decreases self,
    {
        match self.children {
            None => Shape::Leaf {
                region: self.region,
                depth: self.depth,
                held: self.entries@.to_multiset(),
            },
            Some(q) => Shape::Inner {
                region: self.region,
                depth: self.depth,
                sw: Box::new(q.sw.shape()),
                se: Box::new(q.se.shape()),
                nw: Box::new(q.nw.shape()),
                ne: Box::new(q.ne.shape()),
            },
        }
    }

    /// The occupants and the leaf regions of a subtree are those of its
    /// shape.
    pub proof fn lemma_shape_agrees(self)
        ensures
            self.shape().contents() == self.contents(),
            self.shape().leaf_regions() == self.leaf_regions(),
        decreases self,
    {
        match self.children {
            None => {},
            Some(q) => {
                q.sw.lemma_shape_agrees();
                q.se.lemma_shape_agrees();
                q.nw.lemma_shape_agrees();
                q.ne.lemma_shape_agrees();
            },
        }
    }

    /// Whether `child` is the `k` child of a node with the given region
    /// and depth: it covers that quadrant, lies one level deeper, and holds
    /// only occupants that are filed under `k`.
    pub open spec fn hangs_under(child: Node, region: Region, depth: usize, k: Quadrant) -> bool {
        &&& child.region == region.spec_quadrant(k)
        &&& child.depth == depth + 1
        &&& forall|e: Entry| #[trigger]
            child.contents().count(e) > 0 ==> region.spec_quadrant_of(e.anchor) == k
    }

    /// The invariant of a subtree built with the split threshold `cap` and
    /// the depth limit `max_depth`: every occupant lies in the region of
    /// each node above it, a leaf over the threshold sits at the depth
    /// limit, and the children of an inner node are its four quadrants.
    pub open spec fn wf(self, cap: usize, max_depth: usize) -> bool
        decreases self,
    {
        &&& self.region.wf()
        &&& self.depth <= max_depth
        &&& forall|e: Entry| #[trigger]
            self.contents().count(e) > 0 ==> self.region.spec_contains(e.anchor)
        &&& match self.children {
            None => self.entries@.len() <= cap || self.depth == max_depth,
            Some(q) => {
                &&& self.entries@.len() == 0
                &&& self.depth < max_depth
                &&& Node::hangs_under(q.sw, self.region, self.depth, Quadrant::SouthWest)
                &&& Node::hangs_under(q.se, self.region, self.depth, Quadrant::SouthEast)
                &&& Node::hangs_under(q.nw, self.region, self.depth, Quadrant::NorthWest)
                &&& Node::hangs_under(q.ne, self.region, self.depth, Quadrant::NorthEast)
                &&& q.sw.wf(cap, max_depth)
                &&& q.se.wf(cap, max_depth)
                &&& q.nw.wf(cap, max_depth)
                &&& q.ne.wf(cap, max_depth)
            },
        }
    }

    /// Every occupant lies in the region of each node above it.
    pub open spec fn enclosed(self) -> bool
        decreases self,
    {
        &&& forall|e: Entry| #[trigger]
            self.contents().count(e) > 0 ==> self.region.spec_contains(e.anchor)
        &&& match self.children {
            None => true,
            Some(q) => q.sw.enclosed() && q.se.enclosed() && q.nw.enclosed() && q.ne.enclosed(),
        }
    }

    /// A well-formed subtree keeps its occupants within its regions, and
    /// its leaves within the split threshold.
    pub proof fn lemma_wf_implies(self, cap: usize, max_depth: usize)
        requires
            self.wf(cap, max_depth),
        ensures
            self.enclosed(),
            self.shape().leaves_within(cap, max_depth),
        decreases self,
    {
        broadcast use vstd::seq_lib::group_to_multiset_ensures;

        match self.children {
            None => {
                assert(self.entries@.to_multiset().len() == self.entries@.len());
            },
            Some(q) => {
                q.sw.lemma_wf_implies(cap, max_depth);
                q.se.lemma_wf_implies(cap, max_depth);
                q.nw.lemma_wf_implies(cap, max_depth);
                q.ne.lemma_wf_implies(cap, max_depth);
            },
        }
    }

    /// An empty leaf over `region` at `depth`.
    pub fn leaf(region: Region, depth: usize) -> (n: Node)
        ensures
            n.region == region,
            n.depth == depth,
            n.entries@ == Seq::<Entry>::empty(),
            n.children.is_none(),
            n.contents() == Multiset::<Entry>::empty(),
            n.shape() == (Shape::Leaf { region, depth, held: Multiset::<Entry>::empty() }),
    {
        let n = Node { region, depth, entries: Vec::new(), children: None };
        assert(n.entries@.to_multiset() =~= Multiset::<Entry>::empty()) by {
            broadcast use vstd::seq_lib::group_to_multiset_ensures;

            assert(n.entries@.to_multiset().len() == 0);
        }
        n
    }

    /// The `k` child of `parent` once the first `i` occupants of the
    /// parent are filed in its children.
    spec fn settled_part(parent: Node, i: int, k: Quadrant, cap: usize, max_depth: usize) -> Shape {
        Shape::settled(
            parent.region.spec_quadrant(k),
            (parent.depth + 1) as usize,
            parent.entries@.take(i).to_multiset().filter(filed_under(parent.region, k)),
            cap,
            max_depth,
        )
    }

    /// Files `e` in the leaf that its anchor belongs to, and splits that
    /// leaf if it now holds more than `cap` occupants and lies above
    /// `max_depth`.
    pub fn insert(&mut self, e: Entry, cap: usize, max_depth: usize)
        requires
            old(self).wf(cap, max_depth),
            old(self).region.spec_contains(e.anchor),
        ensures
            final(self).wf(cap, max_depth),
            final(self).region == old(self).region,
            final(self).depth == old(self).depth,
            final(self).contents() == old(self).contents().insert(e),
            final(self).shape() == old(self).shape().with(e, cap, max_depth),
        decreases max_depth - old(self).depth, 1int,
    {
        broadcast use vstd::seq_lib::group_to_multiset_ensures;

        match self.children.take() {
            None => {
                self.entries.push(e);
                assert(self.contents() =~= old(self).contents().insert(e));
                assert(self.entries@.to_multiset() == old(self).entries@.to_multiset().insert(e));
                if self.entries.len() > cap && self.depth < max_depth {
                    assert forall|i: int| 0 <= i < self.entries@.len() implies self.region.spec_contains(
                        (#[trigger] self.entries@[i]).anchor,
                    ) by {
                        if i < old(self).entries@.len() {
                            assert(self.entries@[i] == old(self).entries@[i]);
                            assert(old(self).entries@.contains(old(self).entries@[i]));
                            assert(old(self).contents().count(old(self).entries@[i]) > 0);
                        }
                    }
                    self.subdivide(cap, max_depth);
                }
            },
            Some(mut quad) => {
                let k = self.region.quadrant_of(e.anchor);
                proof {
                    lemma_quadrants_partition(self.region, e.anchor);
                }
                match k {
                    Quadrant::SouthWest => quad.sw.insert(e, cap, max_depth),
                    Quadrant::SouthEast => quad.se.insert(e, cap, max_depth),
                    Quadrant::NorthWest => quad.nw.insert(e, cap, max_depth),
                    Quadrant::NorthEast => quad.ne.insert(e, cap, max_depth),
                }
                self.children = Some(quad);
                assert(self.contents() =~= old(self).contents().insert(e));
            },
        }
    }

    /// Turns a leaf into an inner node: makes the four children and files
    /// every occupant in the one it belongs to.
    fn subdivide(&mut self, cap: usize, max_depth: usize)
        requires
            old(self).children.is_none(),
            old(self).region.wf(),
            old(self).depth < max_depth,
            old(self).entries@.len() > cap,
            forall|i: int|
                0 <= i < old(self).entries@.len() ==> old(self).region.spec_contains(
                    (#[trigger] old(self).entries@[i]).anchor,
                ),
        ensures
            final(self).wf(cap, max_depth),
            final(self).region == old(self).region,
            final(self).depth == old(self).depth,
            final(self).contents() == old(self).contents(),
            final(self).shape() == Shape::settled(
                old(self).region,
                old(self).depth,
                old(self).entries@.to_multiset(),
                cap,
                max_depth,
            ),
        decreases max_depth - old(self).depth, 0int,
    {
        broadcast use vstd::seq_lib::group_to_multiset_ensures;

        let region = self.region;
        let below: usize = self.depth + 1;
        let mut quad = Quad {
            sw: Node::leaf(region.quadrant(Quadrant::SouthWest), below),
            se: Node::leaf(region.quadrant(Quadrant::SouthEast), below),
            nw: Node::leaf(region.quadrant(Quadrant::NorthWest), below),
            ne: Node::leaf(region.quadrant(Quadrant::NorthEast), below),
        };
        let n: usize = self.entries.len();
        let mut i: usize = 0;
        assert(self.entries@.take(0) =~= Seq::<Entry>::empty());
        proof {
            let none = Multiset::<Entry>::empty();
            assert(self.entries@.take(0).to_multiset() == none);
            assert(none.filter(filed_under(region, Quadrant::SouthWest)) =~= none);
            assert(none.filter(filed_under(region, Quadrant::SouthEast)) =~= none);
            assert(none.filter(filed_under(region, Quadrant::NorthWest)) =~= none);
            assert(none.filter(filed_under(region, Quadrant::NorthEast)) =~= none);
        }
        while i < n
            invariant
                i <= n,
                n == self.entries@.len(),
                n > cap,
                *self == *old(self),
                region == self.region,
                region.wf(),
                below == self.depth + 1,
                self.depth < max_depth,
                forall|j: int|
                    0 <= j < self.entries@.len() ==> region.spec_contains(
                        (#[trigger] self.entries@[j]).anchor,
                    ),
                quad.sw.wf(cap, max_depth),
                quad.se.wf(cap, max_depth),
                quad.nw.wf(cap, max_depth),
                quad.ne.wf(cap, max_depth),
                Node::hangs_under(quad.sw, region, self.depth, Quadrant::SouthWest),
                Node::hangs_under(quad.se, region, self.depth, Quadrant::SouthEast),
                Node::hangs_under(quad.nw, region, self.depth, Quadrant::NorthWest),
                Node::hangs_under(quad.ne, region, self.depth, Quadrant::NorthEast),
                quad.sw.contents().add(quad.se.contents()).add(quad.nw.contents()).add(
                    quad.ne.contents(),
                ) =~= self.entries@.take(i as int).to_multiset(),
                quad.sw.shape() == Node::settled_part(*self, i as int, Quadrant::SouthWest, cap, max_depth),
                quad.se.shape() == Node::settled_part(*self, i as int, Quadrant::SouthEast, cap, max_depth),
                quad.nw.shape() == Node::settled_part(*self, i as int, Quadrant::NorthWest, cap, max_depth),
                quad.ne.shape() == Node::settled_part(*self, i as int, Quadrant::NorthEast, cap, max_depth),
            decreases n - i,
        {
            let e = self.entries[i];
            let k = region.quadrant_of(e.anchor);
            let ghost before = quad.sw.contents().add(quad.se.contents()).add(
                quad.nw.contents(),
            ).add(quad.ne.contents());
            proof {
                lemma_quadrants_partition(region, e.anchor);
                assert(self.entries@.take(i + 1) =~= self.entries@.take(i as int).push(e));
                vstd::seq_lib::to_multiset_build(self.entries@.take(i as int), e);
                let so_far = self.entries@.take(i as int).to_multiset();
                assert(self.entries@.take(i + 1).to_multiset() == so_far.insert(e));
                lemma_filed_insert(region, so_far, e, Quadrant::SouthWest);
                lemma_filed_insert(region, so_far, e, Quadrant::SouthEast);
                lemma_filed_insert(region, so_far, e, Quadrant::NorthWest);
                lemma_filed_insert(region, so_far, e, Quadrant::NorthEast);
                lemma_settled_with(
                    region.spec_quadrant(k),
                    below,
                    so_far.filter(filed_under(region, k)),
                    e,
                    cap,
                    max_depth,
                );
            }
            match k {
                Quadrant::SouthWest => quad.sw.insert(e, cap, max_depth),
                Quadrant::SouthEast => quad.se.insert(e, cap, max_depth),
                Quadrant::NorthWest => quad.nw.insert(e, cap, max_depth),
                Quadrant::NorthEast => quad.ne.insert(e, cap, max_depth),
            }
            assert(quad.sw.contents().add(quad.se.contents()).add(quad.nw.contents()).add(
                quad.ne.contents(),
            ) =~= before.insert(e));
            i += 1;
        }
        assert(self.entries@.take(n as int) =~= self.entries@);
        self.entries = Vec::new();
        self.children = Some(Box::new(quad));
        proof {
            assert forall|e: Entry| #[trigger] self.contents().count(e) > 0 implies self.region.spec_contains(
                e.anchor,
            ) by {
                assert(old(self).entries@.contains(e));
            }
        }
    }

    /// Takes the occupant `e` out of the leaf that its anchor belongs to.
    /// Says whether it was there. No node is merged back.
    pub fn remove(&mut self, e: Entry, cap: usize, max_depth: usize) -> (found: bool)
        requires
            old(self).wf(cap, max_depth),
        ensures
            final(self).wf(cap, max_depth),
            final(self).region == old(self).region,
            final(self).depth == old(self).depth,
            found == (old(self).contents().count(e) > 0),
            final(self).contents() == old(self).contents().remove(e),
            final(self).shape() == old(self).shape().without(e),
            final(self).leaf_regions() == old(self).leaf_regions(),
        decreases max_depth - old(self).depth,
    {
        broadcast use vstd::seq_lib::group_to_multiset_ensures;
        broadcast use vstd::multiset::group_multiset_properties;

        match self.children.take() {
            None => {
                let mut i: usize = 0;
                while i < self.entries.len()
                    invariant
                        *self == *old(self),
                        self.children.is_none(),
                        self.wf(cap, max_depth),
                        i <= self.entries@.len(),
                        forall|j: int| 0 <= j < i ==> self.entries@[j] != e,
                    decreases self.entries@.len() - i,
                {
                    if self.entries[i] == e {
                        self.entries.remove(i);
                        proof {
                            vstd::seq_lib::to_multiset_remove(old(self).entries@, i as int);
                            assert(old(self).entries@[i as int] == e);
                            assert(old(self).entries@.contains(e));
                            vstd::seq_lib::to_multiset_contains(old(self).entries@, e);
                            assert(old(self).contents().count(e) > 0);
                            assert(self.contents() =~= old(self).contents().remove(e));
                            assert forall|x: Entry| #[trigger]
                                self.contents().count(x) > 0 implies self.region.spec_contains(
                                x.anchor,
                            ) by {
                                assert(old(self).contents().count(x) > 0);
                            }
                        }
                        return true;
                    }
                    i += 1;
                }
                assert(!self.entries@.contains(e));
                assert(self.contents() =~= old(self).contents().remove(e));
                false
            },
            Some(mut quad) => {
                let k = self.region.quadrant_of(e.anchor);
                let ghost before = *quad;
                proof {
                    assert(old(self).children == Some(quad));
                    assert(k != Quadrant::SouthWest ==> before.sw.contents().count(e) == 0);
                    assert(k != Quadrant::SouthEast ==> before.se.contents().count(e) == 0);
                    assert(k != Quadrant::NorthWest ==> before.nw.contents().count(e) == 0);
                    assert(k != Quadrant::NorthEast ==> before.ne.contents().count(e) == 0);
                }
                let found = match k {
                    Quadrant::SouthWest => quad.sw.remove(e, cap, max_depth),
                    Quadrant::SouthEast => quad.se.remove(e, cap, max_depth),
                    Quadrant::NorthWest => quad.nw.remove(e, cap, max_depth),
                    Quadrant::NorthEast => quad.ne.remove(e, cap, max_depth),
                };
                self.children = Some(quad);
                assert(self.contents() =~= old(self).contents().remove(e));
                found
            },
        }
    }

    /// Appends to `out` the occupants at and below this node whose anchor
    /// lies in `q` and whose handle is not in `exclude`. A child whose
    /// region does not meet `q` is not visited.
    pub fn collect(&self, q: &Region, exclude: &[SlotId], out: &mut Vec<Entry>)
        requires
            self.enclosed(),
        ensures
            old(out)@.is_prefix_of(final(out)@),
            final(out)@.to_multiset() == old(out)@.to_multiset().add(
                self.contents().filter(hits(*q, exclude@)),
            ),
        decreases self, 0int,
    {
        broadcast use vstd::seq_lib::group_to_multiset_ensures;

        match &self.children {
            None => {
                let n: usize = self.entries.len();
                let mut i: usize = 0;
                assert(self.entries@.take(0) =~= Seq::<Entry>::empty());
                while i < n
                    invariant
                        i <= n,
                        n == self.entries@.len(),
                        old(out)@.is_prefix_of(out@),
                        out@.to_multiset() =~= old(out)@.to_multiset().add(
                            self.entries@.take(i as int).to_multiset().filter(hits(*q, exclude@)),
                        ),
                    decreases n - i,
                {
                    let e = self.entries[i];
                    proof {
                        assert(self.entries@.take(i + 1) =~= self.entries@.take(i as int).push(e));
                        vstd::seq_lib::to_multiset_build(self.entries@.take(i as int), e);
                    }
                    if q.contains(e.anchor) && !listed(exclude, e.id) {
                        proof {
                            vstd::seq_lib::to_multiset_build(out@, e);
                        }
                        out.push(e);
                    }
                    i += 1;
                }
                assert(self.entries@.take(n as int) =~= self.entries@);
            },
            Some(quad) => {
                quad.sw.collect_if_met(q, exclude, out);
                quad.se.collect_if_met(q, exclude, out);
                quad.nw.collect_if_met(q, exclude, out);
                quad.ne.collect_if_met(q, exclude, out);
                assert(out@.to_multiset() =~= old(out)@.to_multiset().add(
                    self.contents().filter(hits(*q, exclude@)),
                ));
            },
        }
    }

    /// `collect`, unless the region of this node does not meet `q`: then
    /// nothing at or below it can lie in `q`.
    fn collect_if_met(&self, q: &Region, exclude: &[SlotId], out: &mut Vec<Entry>)
        requires
            self.enclosed(),
        ensures
            old(out)@.is_prefix_of(final(out)@),
            final(out)@.to_multiset() == old(out)@.to_multiset().add(
                self.contents().filter(hits(*q, exclude@)),
            ),
        decreases self, 1int,
    {
        if self.region.intersects(q) {
            self.collect(q, exclude, out);
        } else {
            assert(self.contents().filter(hits(*q, exclude@)) =~= Multiset::<Entry>::empty());
            assert(out@.to_multiset() =~= old(out)@.to_multiset().add(
                self.contents().filter(hits(*q, exclude@)),
            ));
        }
    }

    /// Appends to `out` the regions of the leaves at and below this node.
    pub fn regions(&self, out: &mut Vec<Region>)
        ensures
            final(out)@ == old(out)@ + self.leaf_regions(),
        decreases self,
    {
        match &self.children {
            None => {
                out.push(self.region);
                assert(out@ =~= old(out)@ + self.leaf_regions());
            },
            Some(quad) => {
                quad.sw.regions(out);
                quad.se.regions(out);
                quad.nw.regions(out);
                quad.ne.regions(out);
                assert(out@ =~= old(out)@ + self.leaf_regions());
            },
        }
    }
}

} // verus!
