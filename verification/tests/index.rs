use quadtree::coord::Coord;
use quadtree::node::{listed, Entry, Node};
use quadtree::region::Region;
use quadtree::slot_map::SlotId;
use quadtree::tree::QuadTree;
use quadtree::{MAX_CELL_SIZE, MAX_DEPTH};

fn region(x0: i32, y0: i32, x1: i32, y1: i32) -> Region {
    Region::new(Coord::new(x0, y0), Coord::new(x1, y1))
}

fn at(x: i32, y: i32) -> Region {
    region(x, y, x, y)
}

fn world() -> Region {
    region(0, 0, 1000, 1000)
}

fn names(tree: &QuadTree<&'static str>, q: &Region, exclude: &[SlotId]) -> Vec<&'static str> {
    let mut out: Vec<&'static str> = tree.query(q, exclude).iter().map(|f| *f.value).collect();
    out.sort();
    out
}

#[test]
fn the_usual_limits() {
    assert_eq!(MAX_CELL_SIZE, 10);
    assert_eq!(MAX_DEPTH, 7);
}

#[test]
fn three_bodies_split_the_root_once() {
    let mut tree = QuadTree::with_limits(world(), 2, 3);
    let a = tree.insert(at(10, 10), "a");
    let b = tree.insert(at(20, 20), "b");
    assert_eq!(tree.get_regions(), vec![world()]);
    let c = tree.insert(at(900, 900), "c");
    assert_eq!(
        tree.get_regions(),
        vec![
            region(0, 0, 500, 500),
            region(500, 0, 1000, 500),
            region(0, 500, 500, 1000),
            region(500, 500, 1000, 1000),
        ]
    );
    let near = region(0, 0, 50, 50);
    assert_eq!(names(&tree, &near, &[]), vec!["a", "b"]);
    assert_eq!(names(&tree, &near, &[a]), vec!["b"]);
    let found = tree.query(&near, &[a]);
    assert_eq!(found.len(), 1);
    assert_eq!(found[0].id, b);
    assert_eq!(found[0].anchor, Coord::new(20, 20));
    assert_eq!(names(&tree, &region(800, 800, 1000, 1000), &[]), vec!["c"]);
    assert_eq!(tree.get(c), Some(&"c"));
}

#[test]
fn an_empty_index_answers_with_nothing() {
    let tree: QuadTree<u8> = QuadTree::new(world());
    assert!(tree.query(&world(), &[]).is_empty());
    assert!(tree.get_regions().is_empty());
    assert_eq!(tree.size(), world());
    assert_eq!(tree.get(SlotId { index: 0, generation: 0 }), None);
}

#[test]
fn size_is_the_world_whatever_the_index_holds() {
    let mut tree = QuadTree::new(Region { min: Coord::new(400, 300), max: Coord::new(-400, -300) });
    assert_eq!(tree.size(), region(-400, -300, 400, 300));
    tree.insert(at(5, 5), 1);
    tree.insert(at(9000, 9000), 2);
    assert_eq!(tree.size(), region(-400, -300, 400, 300));
    tree.clear();
    assert_eq!(tree.size(), region(-400, -300, 400, 300));
}

#[test]
fn an_inserted_value_is_found_exactly_once() {
    let mut tree = QuadTree::new(world());
    let mut handles = Vec::new();
    for i in 0..200 {
        let x = (i * 37) % 1000;
        let y = (i * 91) % 1000;
        handles.push((tree.insert(region(x - 4, y - 4, x + 4, y + 4), i), x, y));
    }
    for (h, x, y) in &handles {
        let anchor = world().nearest(Coord::new(*x, *y));
        for q in [at(anchor.x, anchor.y), region(anchor.x - 30, anchor.y - 30, anchor.x + 30, anchor.y + 30), world()] {
            let found = tree.query(&q, &[]);
            assert_eq!(found.iter().filter(|f| f.id == *h).count(), 1);
        }
    }
    let all = tree.query(&world(), &[]);
    assert_eq!(all.len(), 200);
}

#[test]
fn the_anchor_is_the_midpoint_of_the_region() {
    let mut tree = QuadTree::new(world());
    let h = tree.insert(region(96, 46, 105, 55), 'x');
    let found = tree.query(&at(100, 50), &[]);
    assert_eq!(found.len(), 1);
    assert_eq!(found[0].id, h);
    assert_eq!(found[0].anchor, Coord::new(100, 50));
    assert_eq!(*found[0].value, 'x');
    assert!(tree.query(&region(101, 51, 105, 55), &[]).is_empty());
}

#[test]
fn a_removed_value_is_not_found_again() {
    let mut tree = QuadTree::with_limits(world(), 2, 4);
    let a = tree.insert(at(10, 10), "a");
    let b = tree.insert(at(12, 12), "b");
    let c = tree.insert(at(14, 14), "c");
    let d = tree.insert(at(700, 100), "d");
    let regions = tree.get_regions();
    assert_eq!(tree.remove(b), Some("b"));
    assert_eq!(names(&tree, &world(), &[]), vec!["a", "c", "d"]);
    assert_eq!(tree.remove(b), None);
    assert_eq!(names(&tree, &world(), &[]), vec!["a", "c", "d"]);
    assert_eq!(tree.get(b), None);
    assert_eq!(tree.get_regions(), regions);
    let e = tree.insert(at(12, 12), "e");
    assert_ne!(e, b);
    assert_eq!(names(&tree, &region(11, 11, 13, 13), &[]), vec!["e"]);
    assert_eq!(tree.remove(a), Some("a"));
    assert_eq!(tree.remove(c), Some("c"));
    assert_eq!(tree.remove(d), Some("d"));
    assert_eq!(tree.remove(e), Some("e"));
    assert!(tree.query(&world(), &[]).is_empty());
    assert_eq!(tree.get_regions(), regions);
}

#[test]
fn excluded_handles_are_left_out() {
    let mut tree = QuadTree::new(world());
    let a = tree.insert(at(100, 100), "a");
    let b = tree.insert(at(101, 101), "b");
    let c = tree.insert(at(102, 102), "c");
    let q = region(90, 90, 110, 110);
    assert_eq!(names(&tree, &q, &[]), vec!["a", "b", "c"]);
    assert_eq!(names(&tree, &q, &[b]), vec!["a", "c"]);
    assert_eq!(names(&tree, &q, &[c, a, c]), vec!["b"]);
    assert_eq!(names(&tree, &q, &[a, b, c]), Vec::<&str>::new());
    let stranger = SlotId { index: 77, generation: 3 };
    assert_eq!(names(&tree, &q, &[stranger]), vec!["a", "b", "c"]);
}

#[test]
fn clear_makes_the_handles_of_the_index_stale() {
    let mut tree = QuadTree::with_limits(world(), 2, 3);
    let old: Vec<SlotId> = (0..30).map(|i| tree.insert(at(i * 30, i * 30), i)).collect();
    assert!(tree.get_regions().len() > 1);
    tree.clear();
    assert!(tree.get_regions().is_empty());
    assert!(tree.query(&world(), &[]).is_empty());
    for h in &old {
        assert_eq!(tree.get(*h), None);
        assert_eq!(tree.remove(*h), None);
    }
    let new: Vec<SlotId> = (0..30).map(|i| tree.insert(at(i * 30, i * 30), 100 + i)).collect();
    assert_eq!(tree.query(&world(), &[]).len(), 30);
    for h in &old {
        assert!(!new.contains(h));
        assert_eq!(tree.get(*h), None);
        assert_eq!(tree.remove(*h), None);
    }
    assert_eq!(tree.query(&world(), &[]).len(), 30);
    assert_eq!(tree.query(&world(), &old).len(), 30);
}

#[test]
fn a_larger_margin_finds_at_least_as_much() {
    let mut tree = QuadTree::new(world());
    for i in 0..150 {
        tree.insert(at((i * 53) % 1000, (i * 29) % 1000), i);
    }
    let base = region(480, 480, 520, 520);
    let margins = [-20, -5, 0, 1, 10, 100, 400, 4000];
    let mut last: Vec<SlotId> = Vec::new();
    for m in margins {
        let ids: Vec<SlotId> = tree.query(&base.with_margin(m), &[]).iter().map(|f| f.id).collect();
        for h in &last {
            assert!(ids.contains(h));
        }
        last = ids;
    }
    assert_eq!(last.len(), 150);
}

fn leaf_sizes(node: &Node, out: &mut Vec<(usize, usize)>) {
    match &node.children {
        None => out.push((node.depth, node.entries.len())),
        Some(quad) => {
            assert!(node.entries.is_empty());
            leaf_sizes(&quad.sw, out);
            leaf_sizes(&quad.se, out);
            leaf_sizes(&quad.nw, out);
            leaf_sizes(&quad.ne, out);
        }
    }
}

#[test]
fn a_leaf_over_the_threshold_lies_at_the_depth_limit() {
    let bounds = world();
    let mut root = Node::leaf(bounds, 0);
    for i in 0..300 {
        let anchor = Coord::new((i * 7) % 1000, (i * 131) % 1000);
        root.insert(Entry { id: SlotId { index: i as usize, generation: 0 }, anchor }, 3, 4);
    }
    for i in 0..40 {
        root.insert(Entry { id: SlotId { index: 1000 + i, generation: 0 }, anchor: Coord::new(1, 1) }, 3, 4);
    }
    let mut sizes = Vec::new();
    leaf_sizes(&root, &mut sizes);
    assert_eq!(sizes.iter().map(|s| s.1).sum::<usize>(), 340);
    assert!(sizes.iter().all(|(depth, len)| *len <= 3 || *depth == 4));
    assert!(sizes.iter().all(|(depth, _)| *depth <= 4));
    assert!(sizes.iter().any(|(_, len)| *len > 3));
}

#[test]
fn bodies_on_one_point_stop_splitting_at_the_depth_limit() {
    let mut tree = QuadTree::with_limits(world(), 2, 3);
    for i in 0..50 {
        tree.insert(at(10, 10), i);
    }
    assert_eq!(tree.get_regions().len(), 10);
    assert_eq!(tree.query(&at(10, 10), &[]).len(), 50);
    let mut flat = QuadTree::with_limits(world(), 2, 0);
    for i in 0..50 {
        flat.insert(at(i, i), i);
    }
    assert_eq!(flat.get_regions(), vec![world()]);
    assert_eq!(flat.query(&region(0, 0, 9, 9), &[]).len(), 10);
}

#[test]
fn a_body_outside_the_world_is_filed_at_its_border() {
    let mut tree = QuadTree::with_limits(world(), 1, 3);
    let inside = tree.insert(at(990, 500), "inside");
    let outside = tree.insert(at(1200, 500), "outside");
    let corner = tree.insert(region(-300, -300, -100, -100), "corner");
    assert_eq!(tree.get(outside), Some(&"outside"));
    let east = tree.query(&region(1000, 400, 1000, 600), &[]);
    assert_eq!(east.len(), 1);
    assert_eq!(east[0].id, outside);
    assert_eq!(east[0].anchor, Coord::new(1000, 500));
    assert_eq!(names(&tree, &region(900, 400, 1100, 600), &[]), vec!["inside", "outside"]);
    assert_eq!(names(&tree, &at(0, 0), &[]), vec!["corner"]);
    assert_eq!(names(&tree, &world(), &[]), vec!["corner", "inside", "outside"]);
    assert_eq!(tree.remove(corner), Some("corner"));
    assert_eq!(tree.remove(outside), Some("outside"));
    assert_eq!(names(&tree, &world(), &[]), vec!["inside"]);
    assert_eq!(tree.get(inside), Some(&"inside"));
}

#[test]
fn a_query_outside_the_world_finds_nothing() {
    let mut tree = QuadTree::new(world());
    tree.insert(at(0, 0), 1);
    tree.insert(at(1000, 1000), 2);
    tree.insert(at(2000, 2000), 3);
    assert!(tree.query(&region(1001, 1001, 3000, 3000), &[]).is_empty());
    assert!(tree.query(&region(-50, -50, -1, -1), &[]).is_empty());
    assert!(tree.query(&region(1, 1, 999, 999), &[]).is_empty());
    assert_eq!(tree.query(&region(-50, -50, 0, 0), &[]).len(), 1);
    assert_eq!(tree.query(&region(1000, 1000, 1000, 1000), &[]).len(), 2);
}

#[test]
fn a_body_on_a_split_line_is_filed_on_the_high_side() {
    let mut root = Node::leaf(world(), 0);
    let ids: Vec<SlotId> = (0..4).map(|i| SlotId { index: i, generation: 0 }).collect();
    root.insert(Entry { id: ids[0], anchor: Coord::new(500, 500) }, 3, 2);
    root.insert(Entry { id: ids[1], anchor: Coord::new(499, 500) }, 3, 2);
    root.insert(Entry { id: ids[2], anchor: Coord::new(500, 499) }, 3, 2);
    root.insert(Entry { id: ids[3], anchor: Coord::new(499, 499) }, 3, 2);
    let quad = root.children.as_ref().expect("four occupants are over the threshold");
    assert_eq!(quad.ne.entries, vec![Entry { id: ids[0], anchor: Coord::new(500, 500) }]);
    assert_eq!(quad.nw.entries, vec![Entry { id: ids[1], anchor: Coord::new(499, 500) }]);
    assert_eq!(quad.se.entries, vec![Entry { id: ids[2], anchor: Coord::new(500, 499) }]);
    assert_eq!(quad.sw.entries, vec![Entry { id: ids[3], anchor: Coord::new(499, 499) }]);
    assert_eq!(quad.sw.depth, 1);
    assert_eq!(quad.ne.region, region(500, 500, 1000, 1000));
    let mut out = Vec::new();
    root.collect(&at(500, 500), &[], &mut out);
    assert_eq!(out, vec![Entry { id: ids[0], anchor: Coord::new(500, 500) }]);
}

#[test]
fn node_remove_takes_one_occupant_and_keeps_the_nodes() {
    let mut root = Node::leaf(world(), 0);
    let entries: Vec<Entry> = (0..6)
        .map(|i| Entry { id: SlotId { index: i, generation: 0 }, anchor: Coord::new(100 * i as i32, 900) })
        .collect();
    for e in &entries {
        root.insert(*e, 2, 5);
    }
    let mut before = Vec::new();
    root.regions(&mut before);
    assert!(before.len() > 1);
    assert!(root.remove(entries[3], 2, 5));
    assert!(!root.remove(entries[3], 2, 5));
    assert!(!root.remove(Entry { id: entries[2].id, anchor: Coord::new(1, 1) }, 2, 5));
    let mut after = Vec::new();
    root.regions(&mut after);
    assert_eq!(before, after);
    let mut out = Vec::new();
    root.collect(&world(), &[entries[0].id], &mut out);
    out.sort_by_key(|e| e.id.index);
    assert_eq!(out, vec![entries[1], entries[2], entries[4], entries[5]]);
}

#[test]
fn collect_appends_to_what_is_there() {
    let mut root = Node::leaf(world(), 0);
    let e = Entry { id: SlotId { index: 4, generation: 2 }, anchor: Coord::new(5, 5) };
    let kept = Entry { id: SlotId { index: 0, generation: 0 }, anchor: Coord::new(-1, -1) };
    root.insert(e, 10, 7);
    let mut out = vec![kept];
    root.collect(&region(0, 0, 5, 5), &[], &mut out);
    assert_eq!(out, vec![kept, e]);
    root.collect(&region(6, 6, 9, 9), &[], &mut out);
    assert_eq!(out, vec![kept, e]);
}

#[test]
fn listed_finds_a_handle_among_the_excluded() {
    let a = SlotId { index: 1, generation: 0 };
    let b = SlotId { index: 1, generation: 1 };
    let c = SlotId { index: 2, generation: 0 };
    assert!(listed(&[a, b], a));
    assert!(listed(&[a, b], b));
    assert!(!listed(&[a, b], c));
    assert!(!listed(&[], a));
}

#[test]
fn a_tick_of_clear_insert_query_remove() {
    let mut tree = QuadTree::new(region(-400, -300, 400, 300));
    for tick in 0..5 {
        tree.clear();
        let handles: Vec<SlotId> = (0..100)
            .map(|i| {
                let x = ((i * 17 + tick * 3) % 800) - 400;
                let y = ((i * 23 + tick * 5) % 600) - 300;
                tree.insert(region(x - 4, y - 4, x + 4, y + 4), (tick, i))
            })
            .collect();
        for (i, h) in handles.iter().enumerate() {
            let x = ((i as i32 * 17 + tick * 3) % 800) - 400;
            let y = ((i as i32 * 23 + tick * 5) % 600) - 300;
            let found = tree.query(&region(x - 4, y - 4, x + 4, y + 4).with_margin(20), &[*h]);
            assert!(found.iter().all(|f| f.id != *h));
            assert!(found.iter().all(|f| (f.anchor.x - x).abs() <= 24 && (f.anchor.y - y).abs() <= 24));
            let with_self = tree.query(&region(x - 4, y - 4, x + 4, y + 4).with_margin(20), &[]);
            assert_eq!(with_self.len(), found.len() + 1);
        }
        assert_eq!(tree.remove(handles[7]), Some((tick, 7)));
        assert_eq!(tree.remove(handles[7]), None);
        assert_eq!(tree.query(&tree.size(), &[]).len(), 99);
    }
}

#[test]
fn the_index_issues_the_handles_of_its_slot_map() {
    let mut tree = QuadTree::new(world());
    let a = tree.insert(at(1, 1), 'a');
    let b = tree.insert(at(2, 2), 'b');
    assert_eq!(a, SlotId { index: 0, generation: 0 });
    assert_eq!(b, SlotId { index: 1, generation: 0 });
    assert_eq!(tree.remove(a), Some('a'));
    let c = tree.insert(at(3, 3), 'c');
    assert_eq!(c, SlotId { index: 0, generation: 1 });
    tree.clear();
    let d = tree.insert(at(4, 4), 'd');
    assert_eq!(d, SlotId { index: 1, generation: 1 });
    let e = tree.insert(at(5, 5), 'e');
    assert_eq!(e, SlotId { index: 0, generation: 2 });
    assert_eq!(tree.get(c), None);
    assert_eq!(tree.get(e), Some(&'e'));
}

#[test]
fn a_degenerate_world_still_holds_everything() {
    let mut tree = QuadTree::with_limits(at(7, 7), 1, 5);
    let handles: Vec<SlotId> = (0..9).map(|i| tree.insert(at(i * 100, -i), i)).collect();
    let found = tree.query(&at(7, 7), &[]);
    assert_eq!(found.len(), 9);
    assert!(found.iter().all(|f| f.anchor == Coord::new(7, 7)));
    assert!(tree.query(&at(8, 7), &[]).is_empty());
    for h in handles {
        assert!(tree.remove(h).is_some());
    }
    assert!(tree.query(&at(7, 7), &[]).is_empty());
    assert!(tree.get_regions().iter().all(|r| *r == at(7, 7)));
}

#[test]
fn a_world_at_the_edge_of_the_index_space() {
    let bounds = region(i32::MAX - 3, i32::MIN, i32::MAX, i32::MIN + 3);
    let mut tree = QuadTree::with_limits(bounds, 1, 4);
    for x in 0..4 {
        for y in 0..4 {
            tree.insert(at(i32::MAX - x, i32::MIN + y), (x, y));
        }
    }
    assert_eq!(tree.query(&bounds, &[]).len(), 16);
    let corner = tree.query(&at(i32::MAX, i32::MIN), &[]);
    assert_eq!(corner.len(), 1);
    assert_eq!(*corner[0].value, (0, 0));
    let column = tree.query(&region(i32::MAX - 1, i32::MIN, i32::MAX - 1, i32::MIN + 3), &[]);
    assert_eq!(column.len(), 4);
    assert!(column.iter().all(|f| f.value.0 == 1));
}
