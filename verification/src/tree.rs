//! The index itself: a quad tree over a fixed world, with its values kept
//! in a slot map.

use vstd::prelude::*;
use vstd::multiset::Multiset;
use crate::coord::Coord;
use crate::node::{hit, hits, Entry, Node, Shape};
use crate::region::{lemma_margin_monotonic, Region};
use crate::slot_map::{SlotId, SlotMap};
use crate::{MAX_CELL_SIZE, MAX_DEPTH};

verus! {

/// A value of the index together with the point it is filed under.
#[derive(Debug)]
pub struct Placed<T> {
    pub anchor: Coord,
    pub value: T,
}

/// One match of a query: a value of the index, lent out, with its handle
/// and its anchor.
#[derive(Debug)]
pub struct Found<'a, T> {
    pub id: SlotId,
    pub anchor: Coord,
    pub value: &'a T,
}

/// Whether a query over `q` that leaves out the handles in `exclude`
/// reports the value under `id`, in an index that holds `items`.
pub open spec fn selects<T>(
    items: Map<SlotId, Placed<T>>,
    q: Region,
    exclude: Seq<SlotId>,
    id: SlotId,
) -> bool {
    items.contains_key(id) && q.spec_contains(items[id].anchor) && !exclude.contains(id)
}

/// Whether the value under `id` is among `found`.
pub open spec fn reports<T>(found: Seq<Found<T>>, id: SlotId) -> bool {
    exists|i: int| 0 <= i < found.len() && (#[trigger] found[i]).id == id
}

/// Whether `found` is an answer to the query over `q` without `exclude`
/// in an index that holds `items`: each match is a value that the query
/// selects, with its own anchor and value; no value is reported twice; and
/// every value that the query selects is reported. The order is free.
pub open spec fn answers<T>(
    items: Map<SlotId, Placed<T>>,
    q: Region,
    exclude: Seq<SlotId>,
    found: Seq<Found<T>>,
) -> bool {
    &&& forall|i: int|
        0 <= i < found.len() ==> selects(items, q, exclude, (#[trigger] found[i]).id)
            && found[i].anchor == items[found[i].id].anchor && *found[i].value
            == items[found[i].id].value
    &&& forall|i: int, j: int|
        0 <= i < j < found.len() ==> (#[trigger] found[i]).id != (#[trigger] found[j]).id
    &&& forall|id: SlotId| #[trigger] selects(items, q, exclude, id) ==> reports(found, id)
}

/// A spatial index over the values of type `T`. Each value is filed under
/// one point, its anchor, and found again by the regions that contain that
/// point.
#[derive(Debug)]
pub struct QuadTree<T> {
    bounds: Region,
    cap: usize,
    max_depth: usize,
    root: Option<Node>,
    slots: SlotMap<Placed<T>>,
}

impl<T> View for QuadTree<T> {
    type V = Map<SlotId, Placed<T>>;

    /// The values held, with their anchors, by their handles.
    open spec fn view(&self) -> Map<SlotId, Placed<T>> {
        self.items()
    }
}

impl<T> QuadTree<T> {
    /// The store that keeps the values and issues the handles.
    pub closed spec fn handles(self) -> SlotMap<Placed<T>> {
        self.slots
    }

    /// The values held, with their anchors, by their handles.
    pub open spec fn items(self) -> Map<SlotId, Placed<T>> {
        self.handles()@
    }

    /// The world that the index was made for.
    pub closed spec fn spec_size(self) -> Region {
        self.bounds
    }

    /// The number of occupants above which a leaf is split.
    pub closed spec fn max_cell_size(self) -> usize {
        self.cap
    }

    /// The depth at which leaves are split no further.
    pub closed spec fn depth_limit(self) -> usize {
        self.max_depth
    }

    /// What the tree is; nothing while the index is empty after it was
    /// made or cleared.
    pub closed spec fn shape(self) -> Option<Shape> {
        match self.root {
            Some(n) => Some(n.shape()),
            None => None,
        }
    }

    /// What the tree is, an index without a tree taken as one empty leaf
    /// over the world.
    pub open spec fn shape_or_bare(self) -> Shape {
        match self.shape() {
            Some(s) => s,
            None => Shape::Leaf {
                region: self.spec_size(),
                depth: 0,
                held: Multiset::<Entry>::empty(),
            },
        }
    }

    /// Whether `h` has been handed out by this index at some time.
    pub open spec fn issued(self, h: SlotId) -> bool {
        self.handles().issued(h)
    }

    /// Whether `h` was handed out once and names nothing any more.
    pub open spec fn stale(self, h: SlotId) -> bool {
        self.issued(h) && !self@.contains_key(h)
    }

    /// The point that a value inserted with `region` is filed under: the
    /// midpoint of the region, or the point of the world nearest to it
    /// where the midpoint lies outside.
    pub open spec fn anchor_of(self, region: Region) -> Coord {
        self.spec_size().spec_nearest(region.spec_midpoint())
    }

    /// The regions of the leaves of the tree.
    pub open spec fn leaf_regions(self) -> Seq<Region> {
        match self.shape() {
            None => Seq::empty(),
            Some(s) => s.leaf_regions(),
        }
    }

    /// The occupants of the tree are the values of the slot map, each
    /// once.
    spec fn linked(n: Node, items: Map<SlotId, Placed<T>>) -> bool {
        forall|e: Entry| #[trigger]
            n.contents().count(e) == (if items.contains_key(e.id) && items[e.id].anchor
                == e.anchor {
                1nat
            } else {
                0nat
            })
    }

    /// The invariant of the index: the tree covers the world, its leaves
    /// hold exactly the values of the index, each once and at its anchor,
    /// and every anchor lies in the world.
    pub closed spec fn wf(self) -> bool {
        &&& self.bounds.wf()
        &&& self.slots.wf()
        &&& match self.root {
            None => self.slots@ =~= Map::<SlotId, Placed<T>>::empty(),
            Some(n) => {
                &&& n.wf(self.cap, self.max_depth)
                &&& n.region == self.bounds
                &&& n.depth == 0
                &&& Self::linked(n, self.slots@)
            },
        }
    }

    /// An empty index over `bounds`, with the usual split threshold and
    /// depth limit.
    pub fn new(bounds: Region) -> (t: Self)
        ensures
            t.wf(),
            t@ == Map::<SlotId, Placed<T>>::empty(),
            t.spec_size() == Region::spec_new(bounds.min, bounds.max),
            t.max_cell_size() == MAX_CELL_SIZE,
            t.depth_limit() == MAX_DEPTH,
            t.shape().is_none(),
            t.handles().slot_count() == 0,
            t.handles().vacant() == Seq::<usize>::empty(),
            forall|h: SlotId| !t.issued(h),
    {
        Self::with_limits(bounds, MAX_CELL_SIZE, MAX_DEPTH)
    }

    /// An empty index over `bounds` whose leaves are split above
    /// `max_cell_size` occupants, down to depth `max_depth`.
    pub fn with_limits(bounds: Region, max_cell_size: usize, max_depth: usize) -> (t: Self)
        ensures
            t.wf(),
            t@ == Map::<SlotId, Placed<T>>::empty(),
            t.spec_size() == Region::spec_new(bounds.min, bounds.max),
            t.max_cell_size() == max_cell_size,
            t.depth_limit() == max_depth,
            t.shape().is_none(),
            t.handles().slot_count() == 0,
            t.handles().vacant() == Seq::<usize>::empty(),
            forall|h: SlotId| !t.issued(h),
    {
        QuadTree {
            bounds: Region::new(bounds.min, bounds.max),
            cap: max_cell_size,
            max_depth,
            root: None,
            slots: SlotMap::new(),
        }
    }

    /// The world that the index was made for, whatever it holds.
    pub fn size(&self) -> (r: Region)
        ensures
            r == self.spec_size(),
    {
        self.bounds
    }

    /// The value that `h` names, or nothing if `h` is stale or was never
    /// issued.
    pub fn get(&self, h: SlotId) -> (r: Option<&T>)
        ensures
            r == (if self@.contains_key(h) {
                Some(&self@[h].value)
            } else {
                None
            }),
    {
        match self.slots.get(h) {
            Some(p) => Some(&p.value),
            None => None,
        }
    }

    /// The regions of the leaves of the tree; none while the index is
    /// empty after it was made or cleared.
    pub fn get_regions(&self) -> (r: Vec<Region>)
        ensures
            r@ == self.leaf_regions(),
    {
        let mut out: Vec<Region> = Vec::new();
        match &self.root {
            None => {},
            Some(n) => {
                n.regions(&mut out);
                proof {
                    n.lemma_shape_agrees();
                }
                assert(out@ =~= n.leaf_regions());
            },
        }
        out
    }

    /// Stores `value` under the anchor of `region` and returns its handle,
    /// one that was never issued before. A region outside the world is
    /// filed at the nearest point of the world, not refused.
    pub fn insert(&mut self, region: Region, value: T) -> (h: SlotId)
        requires
            old(self).wf(),
        ensures
            final(self).wf(),
            !old(self).issued(h),
            final(self).issued(h),
            final(self)@ == old(self)@.insert(
                h,
                (Placed { anchor: old(self).anchor_of(region), value }),
            ),
            SlotMap::took_slot(old(self).handles(), final(self).handles(), h),
            final(self).shape() == Some(
                old(self).shape_or_bare().with(
                    (Entry { id: h, anchor: old(self).anchor_of(region) }),
                    old(self).max_cell_size(),
                    old(self).depth_limit(),
                ),
            ),
            final(self).spec_size() == old(self).spec_size(),
            final(self).max_cell_size() == old(self).max_cell_size(),
            final(self).depth_limit() == old(self).depth_limit(),
            forall|k: SlotId| old(self).issued(k) ==> final(self).issued(k),
            forall|k: SlotId| old(self).stale(k) ==> final(self).stale(k),
    {
        let anchor = self.bounds.nearest(region.midpoint());
        proof {
            assert forall|k: SlotId| self.slots@.contains_key(k) implies self.slots.issued(k) by {
                self.slots.lemma_live_was_issued(k);
            }
        }
        let h = self.slots.insert(Placed { anchor, value });
        let e = Entry { id: h, anchor };
        let mut root = match self.root.take() {
            Some(n) => n,
            None => Node::leaf(self.bounds, 0),
        };
        assert(Self::linked(root, old(self).slots@));
        root.insert(e, self.cap, self.max_depth);
        self.root = Some(root);
        h
    }

    /// Takes the value that `h` names out of the index and returns it. On
    /// a handle that is stale or was never issued nothing happens. The
    /// tree keeps its nodes.
    pub fn remove(&mut self, h: SlotId) -> (r: Option<T>)
        requires
            old(self).wf(),
        ensures
            final(self).wf(),
            r == (if old(self)@.contains_key(h) {
                Some(old(self)@[h].value)
            } else {
                None
            }),
            final(self)@ == old(self)@.remove(h),
            SlotMap::gave_slot(old(self).handles(), final(self).handles(), h),
            final(self).shape() == (match old(self).shape() {
                Some(s) => if old(self)@.contains_key(h) {
                    Some(s.without((Entry { id: h, anchor: old(self)@[h].anchor })))
                } else {
                    Some(s)
                },
                None => None,
            }),
            final(self).leaf_regions() == old(self).leaf_regions(),
            final(self).spec_size() == old(self).spec_size(),
            final(self).max_cell_size() == old(self).max_cell_size(),
            final(self).depth_limit() == old(self).depth_limit(),
            forall|k: SlotId| old(self).issued(k) ==> final(self).issued(k),
            forall|k: SlotId| old(self).stale(k) ==> final(self).stale(k),
    {
        match self.slots.remove(h) {
            None => None,
            Some(p) => {
                let e = Entry { id: h, anchor: p.anchor };
                match self.root.take() {
                    Some(mut n) => {
                        proof {
                            n.lemma_shape_agrees();
                        }
                        n.remove(e, self.cap, self.max_depth);
                        proof {
                            n.lemma_shape_agrees();
                        }
                        self.root = Some(n);
                    },
                    None => {},
                }
                Some(p.value)
            },
        }
    }

    /// Drops every value and the whole tree. Every handle issued so far
    /// is stale from now on.
    pub fn clear(&mut self)
        requires
            old(self).wf(),
        ensures
            final(self).wf(),
            final(self)@ == Map::<SlotId, Placed<T>>::empty(),
            SlotMap::gave_all(old(self).handles(), final(self).handles()),
            final(self).shape().is_none(),
            final(self).spec_size() == old(self).spec_size(),
            final(self).max_cell_size() == old(self).max_cell_size(),
            final(self).depth_limit() == old(self).depth_limit(),
            forall|k: SlotId| old(self).issued(k) ==> final(self).stale(k),
    {
        self.root = None;
        self.slots.clear();
    }

    /// The values whose anchor lies in `q` and whose handle is not in
    /// `exclude`, each once, in no particular order. Parts of the tree
    /// that `q` does not meet are not visited. A region outside the world
    /// finds nothing.
    pub fn query<'a>(&'a self, q: &Region, exclude: &[SlotId]) -> (found: Vec<Found<'a, T>>)
        requires
            self.wf(),
        ensures
            answers(self@, *q, exclude@, found@),
    {
        let mut picked: Vec<Entry> = Vec::new();
        let mut found: Vec<Found<'a, T>> = Vec::new();
        match &self.root {
            None => {},
            Some(n) => {
                proof {
                    n.lemma_wf_implies(self.cap, self.max_depth);
                }
                n.collect(q, exclude, &mut picked);
                proof {
                    let none = Seq::<Entry>::empty();
                    assert(none.to_multiset() =~= Multiset::<Entry>::empty()) by {
                        broadcast use vstd::seq_lib::group_to_multiset_ensures;

                        assert(none.to_multiset().len() == 0);
                    }
                    self.lemma_picked(*n, *q, exclude@, picked@);
                }
            },
        }
        let mut i: usize = 0;
        while i < picked.len()
            invariant
                i <= picked@.len(),
                found@.len() == i,
                picked@.no_duplicates(),
                forall|j: int|
                    0 <= j < picked@.len() ==> hit(*q, exclude@, #[trigger] picked@[j])
                        && self.slots@.contains_key(picked@[j].id)
                        && self.slots@[picked@[j].id].anchor == picked@[j].anchor,
                forall|j: int|
                    0 <= j < i ==> (#[trigger] found@[j]).id == picked@[j].id && found@[j].anchor
                        == picked@[j].anchor && *found@[j].value
                        == self.slots@[picked@[j].id].value,
            decreases picked@.len() - i,
        {
            let e = picked[i];
            match self.slots.get(e.id) {
                Some(p) => {
                    found.push(Found { id: e.id, anchor: e.anchor, value: &p.value });
                },
                None => {},
            }
            i += 1;
        }
        proof {
            assert forall|a: int, b: int| 0 <= a < b < found@.len() implies (#[trigger] found@[a]).id
                != (#[trigger] found@[b]).id by {
                if found@[a].id == found@[b].id {
                    assert(picked@[a] == picked@[b]);
                }
            }
            assert forall|id: SlotId| #[trigger]
                selects(self@, *q, exclude@, id) implies reports(found@, id) by {
                let e = Entry { id, anchor: self.slots@[id].anchor };
                match self.root {
                    None => {},
                    Some(n) => {
                        assert(picked@.contains(e));
                        let j = choose|j: int| 0 <= j < picked@.len() && picked@[j] == e;
                        assert(found@[j].id == id);
                    },
                }
            }
        }
        found
    }

    /// What the tree hands to a query: occupants that the query selects,
    /// none twice, none missing.
    proof fn lemma_picked(self, n: Node, q: Region, exclude: Seq<SlotId>, picked: Seq<Entry>)
        requires
            self.wf(),
            self.root == Some(n),
            picked.to_multiset() == Multiset::<Entry>::empty().add(
                n.contents().filter(hits(q, exclude)),
            ),
        ensures
            picked.no_duplicates(),
            forall|j: int|
                0 <= j < picked.len() ==> hit(q, exclude, #[trigger] picked[j])
                    && self.slots@.contains_key(picked[j].id) && self.slots@[picked[j].id].anchor
                    == picked[j].anchor,
            forall|e: Entry|
                self.slots@.contains_key(e.id) && self.slots@[e.id].anchor == e.anchor && hit(
                    q,
                    exclude,
                    e,
                ) ==> picked.contains(e),
    {
        broadcast use vstd::seq_lib::group_to_multiset_ensures;

        assert forall|e: Entry|
            picked.to_multiset().count(e) == (if hit(q, exclude, e) {
                n.contents().count(e)
            } else {
                0nat
            }) by {}
        assert forall|x: Entry| picked.to_multiset().contains(x) implies picked.to_multiset().count(
            x,
        ) == 1 by {
            assert(n.contents().count(x) <= 1);
        }
        picked.lemma_multiset_has_no_duplicates_conv();
        assert forall|j: int| 0 <= j < picked.len() implies hit(q, exclude, #[trigger] picked[j])
            && self.slots@.contains_key(picked[j].id) && self.slots@[picked[j].id].anchor
            == picked[j].anchor by {
            assert(picked.contains(picked[j]));
            vstd::seq_lib::to_multiset_contains(picked, picked[j]);
            assert(n.contents().count(picked[j]) > 0);
        }
        assert forall|e: Entry|
            self.slots@.contains_key(e.id) && self.slots@[e.id].anchor == e.anchor && hit(
                q,
                exclude,
                e,
            ) implies picked.contains(e) by {
            assert(n.contents().count(e) == 1);
            vstd::seq_lib::to_multiset_contains(picked, e);
        }
    }

    /// The leaves of the tree hold exactly the values of the index: each
    /// value is an occupant of the tree once, under its handle and its
    /// anchor, and the tree has no other occupant. Its anchor lies in the
    /// world.
    pub proof fn lemma_filed_once(self, e: Entry)
        requires
            self.wf(),
        ensures
            self.shape_or_bare().contents().count(e) == (if self@.contains_key(e.id)
                && self@[e.id].anchor == e.anchor {
                1nat
            } else {
                0nat
            }),
            self@.contains_key(e.id) ==> self.spec_size().spec_contains(self@[e.id].anchor),
    {
        match self.root {
            Some(n) => {
                n.lemma_shape_agrees();
                let own = Entry { id: e.id, anchor: self.slots@[e.id].anchor };
                if self@.contains_key(e.id) {
                    assert(n.contents().count(own) == 1);
                }
            },
            None => {},
        }
    }

    /// No leaf of the tree holds more occupants than the split threshold,
    /// unless it lies at the depth limit.
    pub proof fn lemma_split_bound(self)
        requires
            self.wf(),
        ensures
            match self.shape() {
                Some(s) => s.leaves_within(self.max_cell_size(), self.depth_limit()),
                None => true,
            },
    {
        match self.root {
            Some(n) => {
                n.lemma_wf_implies(self.cap, self.max_depth);
            },
            None => {},
        }
    }

    /// A value that was inserted is found, exactly once, by every query
    /// that excludes nothing and whose region contains the anchor of the
    /// region it was inserted with.
    pub proof fn lemma_inserted_is_found(
        before: Self,
        after: Self,
        region: Region,
        value: T,
        h: SlotId,
        q: Region,
        found: Seq<Found<T>>,
    )
        requires
            after@ == before@.insert(h, (Placed { anchor: before.anchor_of(region), value })),
            q.spec_contains(before.anchor_of(region)),
            answers(after@, q, Seq::<SlotId>::empty(), found),
        ensures
            exists|i: int|
                0 <= i < found.len() && (#[trigger] found[i]).id == h && *found[i].value == value
                    && forall|j: int|
                    0 <= j < found.len() && (#[trigger] found[j]).id == h ==> j == i,
    {
        assert(selects(after@, q, Seq::<SlotId>::empty(), h));
        let i = choose|i: int| 0 <= i < found.len() && (#[trigger] found[i]).id == h;
        assert(found[i].id == h && *found[i].value == value);
        assert forall|j: int| 0 <= j < found.len() && (#[trigger] found[j]).id == h implies j
            == i by {
            if j < i {
                assert(found[j].id != found[i].id);
            }
            if i < j {
                assert(found[i].id != found[j].id);
            }
        }
    }
}

/// A handle that names nothing is in no answer. So a value that was
/// removed is never found again: its handle names nothing after the
/// removal, is stale, and stays so under every later operation.
pub proof fn lemma_absent_is_not_found<T>(
    items: Map<SlotId, Placed<T>>,
    h: SlotId,
    q: Region,
    exclude: Seq<SlotId>,
    found: Seq<Found<T>>,
)
    requires
        !items.contains_key(h),
        answers(items, q, exclude, found),
    ensures
        forall|i: int| 0 <= i < found.len() ==> (#[trigger] found[i]).id != h,
{
}

/// After a value was removed no query finds it, and removing it once more
/// changes nothing.
pub proof fn lemma_removed_is_not_found<T>(
    items: Map<SlotId, Placed<T>>,
    h: SlotId,
    q: Region,
    exclude: Seq<SlotId>,
    found: Seq<Found<T>>,
)
    requires
        answers(items.remove(h), q, exclude, found),
    ensures
        forall|i: int| 0 <= i < found.len() ==> (#[trigger] found[i]).id != h,
        items.remove(h).remove(h) == items.remove(h),
{
    assert(items.remove(h).remove(h) =~= items.remove(h));
}

/// A value whose handle is excluded is in no answer, wherever it lies.
pub proof fn lemma_excluded_is_not_found<T>(
    items: Map<SlotId, Placed<T>>,
    h: SlotId,
    q: Region,
    exclude: Seq<SlotId>,
    found: Seq<Found<T>>,
)
    requires
        exclude.contains(h),
        answers(items, q, exclude, found),
    ensures
        forall|i: int| 0 <= i < found.len() ==> (#[trigger] found[i]).id != h,
{
}

/// What a query finds with a margin it finds with every larger margin
/// too, as long as the two margins together do not cut away more than the
/// region's extent on either axis.
pub proof fn lemma_margin_grows_answer<T>(
    items: Map<SlotId, Placed<T>>,
    region: Region,
    m1: i32,
    m2: i32,
    exclude: Seq<SlotId>,
    narrow: Seq<Found<T>>,
    wide: Seq<Found<T>>,
)
    requires
        region.wf(),
        m1 < m2,
        (region.max.x - region.min.x) + m1 + m2 >= 0,
        (region.max.y - region.min.y) + m1 + m2 >= 0,
        answers(items, region.spec_with_margin(m1), exclude, narrow),
        answers(items, region.spec_with_margin(m2), exclude, wide),
    ensures
        forall|i: int| 0 <= i < narrow.len() ==> reports(wide, (#[trigger] narrow[i]).id),
{
    assert forall|i: int| 0 <= i < narrow.len() implies reports(
        wide,
        (#[trigger] narrow[i]).id,
    ) by {
        let id = narrow[i].id;
        assert(selects(items, region.spec_with_margin(m1), exclude, id));
        lemma_margin_monotonic(region, m1, m2, items[id].anchor);
        assert(selects(items, region.spec_with_margin(m2), exclude, id));
    }
}

} // verus!
