use koce::gom::{Explorer, GOM};
use koce::iterfn::IterRule;
use koce::path::Path;
use koce::symbol::{Description, Implementation, Symbol};

fn sample_tree() -> GOM<u32> {
    // 0 -> (1 -> (3, 4), 2 -> (5))
    let mut g: GOM<u32> = GOM::setup(0);
    let root = g.explore().unwrap();
    let a = root.add_child(&mut g, 1);
    let b = root.add_child(&mut g, 2);
    a.add_child(&mut g, 3);
    a.add_child(&mut g, 4);
    b.add_child(&mut g, 5);
    g
}

#[test]
fn setup_single_root() {
    let g: GOM<u32> = GOM::setup(7);
    let root = g.explore().unwrap();
    assert!(root.is_root(&g));
    assert_eq!(root.inside(&g).data, 7);
    assert!(root.inside(&g).children.is_empty());
}

#[test]
fn empty_tree_has_no_cursor() {
    let g: GOM<u32> = GOM::new(None);
    assert!(g.explore().is_none());
}

#[test]
fn add_child_navigation() {
    let g = sample_tree();
    let root = g.explore().unwrap();
    let a = root.child(&g, 0).unwrap();
    let b = root.child(&g, 1).unwrap();
    assert_eq!(a.inside(&g).data, 1);
    assert_eq!(b.inside(&g).data, 2);
    assert!(root.child(&g, 2).is_err());
    // navigation failure hands the original cursor back
    let failed = b.child(&g, 5).unwrap_err();
    assert_eq!(failed.at, b.at);
}

#[test]
fn parent_contains_child_exactly_once() {
    let g = sample_tree();
    let root = g.explore().unwrap();
    let a = root.child(&g, 0).unwrap();
    let c3 = a.child(&g, 0).unwrap();
    let p = c3.parent(&g).unwrap();
    assert_eq!(p.at, a.at);
    let hits = p
        .inside(&g)
        .children
        .iter()
        .filter(|k| **k == c3.at)
        .count();
    assert_eq!(hits, 1);
}

#[test]
fn navigation_symmetry() {
    let g = sample_tree();
    let root = g.explore().unwrap();
    let b = root.child(&g, 1).unwrap();
    let c5 = b.child(&g, 0).unwrap();
    // index of c5 in its parent, then back down
    let p = c5.parent(&g).unwrap();
    let idx = p
        .inside(&g)
        .children
        .iter()
        .position(|k| *k == c5.at)
        .unwrap();
    let again = p.child(&g, idx).unwrap();
    assert_eq!(again.at, c5.at);
}

#[test]
fn root_and_depth() {
    let g = sample_tree();
    let root = g.explore().unwrap();
    let a = root.child(&g, 0).unwrap();
    let c4 = a.child(&g, 1).unwrap();
    assert_eq!(c4.root(&g).at, root.at);
    assert_eq!(root.depth(&g), 0);
    assert_eq!(a.depth(&g), 1);
    assert_eq!(c4.depth(&g), 2);
    assert_eq!(Explorer::util_depth(&g, c4.at), 2);
}

#[test]
fn next_sibling_order() {
    let g = sample_tree();
    let root = g.explore().unwrap();
    let a = root.child(&g, 0).unwrap();
    let b = a.next_sibling(&g).unwrap();
    assert_eq!(b.inside(&g).data, 2);
    assert!(b.next_sibling(&g).is_err());
    assert!(root.next_sibling(&g).is_err());
}

#[test]
fn find_child_first_match() {
    let g = sample_tree();
    let root = g.explore().unwrap();
    let hit = root.find_child(&g, |d: &u32| *d > 0).unwrap();
    assert_eq!(hit.inside(&g).data, 1);
    assert!(root.find_child(&g, |d: &u32| *d == 9).is_err());
}

#[test]
fn walk_yields_every_node_once_parents_first() {
    let g = sample_tree();
    let root = g.explore().unwrap();
    let mut it = root.iter(&g, IterRule::Walk);
    let mut seen: Vec<usize> = Vec::new();
    while let Some(e) = it.next() {
        seen.push(e.at);
    }
    // exactly N cursors, each exactly once
    assert_eq!(seen.len(), 6);
    let mut sorted = seen.clone();
    sorted.sort();
    assert_eq!(sorted, vec![0, 1, 2, 3, 4, 5]);
    // pre-order: parents before their children
    assert_eq!(seen, vec![0, 1, 3, 4, 2, 5]);
}

#[test]
fn hierarchy_parents_children_siblings() {
    let g = sample_tree();
    let root = g.explore().unwrap();
    let a = root.child(&g, 0).unwrap();
    let c3 = a.child(&g, 0).unwrap();

    let mut it = c3.iter(&g, IterRule::Hierarchy);
    let mut seen: Vec<usize> = Vec::new();
    while let Some(e) = it.next() {
        seen.push(e.at);
    }
    assert_eq!(seen, vec![c3.at, a.at, root.at]);

    let mut it = c3.iter(&g, IterRule::Parents);
    let mut seen: Vec<usize> = Vec::new();
    while let Some(e) = it.next() {
        seen.push(e.at);
    }
    assert_eq!(seen, vec![a.at, root.at]);

    let mut it = root.iter(&g, IterRule::Children);
    let mut seen: Vec<usize> = Vec::new();
    while let Some(e) = it.next() {
        seen.push(e.at);
    }
    assert_eq!(seen, vec![1, 2]);

    let mut it = c3.iter(&g, IterRule::Siblings);
    let mut seen: Vec<usize> = Vec::new();
    while let Some(e) = it.next() {
        seen.push(e.at);
    }
    assert_eq!(seen.len(), 2);

    // siblings of the root: nothing
    let mut it = root.iter(&g, IterRule::Siblings);
    assert!(it.next().is_none());
}

#[test]
fn iter_rule_is_reported() {
    let g = sample_tree();
    let root = g.explore().unwrap();
    let it = root.iter(&g, IterRule::Children);
    assert_eq!(it.rule(), IterRule::Children);
}

#[test]
fn mutate_payload_through_cursor() {
    let mut g: GOM<u32> = GOM::setup(1);
    let root = g.explore().unwrap();
    let d = root.inside_mut(&mut g);
    *d = 42;
    assert_eq!(root.inside(&g).data, 42);
}

#[test]
fn follow_resolves_paths() {
    let mut g: GOM<Symbol> = GOM::setup(Symbol::Unnamed(
        Description::Virtual,
        Implementation::Empty,
    ));
    let root = g.explore().unwrap();
    let a = root.add_child(
        &mut g,
        Symbol::Named(
            "alpha".to_string(),
            Description::Layer,
            Implementation::Empty,
        ),
    );
    let b = a.add_child(
        &mut g,
        Symbol::Named(
            "beta".to_string(),
            Description::Layer,
            Implementation::Empty,
        ),
    );
    let p = Path::Current.next("alpha").next("beta");
    let hit = root.follow(&g, &p).unwrap();
    assert_eq!(hit.at, b.at);
    // an unresolvable path fails with the original cursor, all-or-nothing
    let bad = Path::Current.next("alpha").next("gamma");
    let back = root.follow(&g, &bad).unwrap_err();
    assert_eq!(back.at, root.at);
    // absolute suffix restarts at the root
    let abs = Path::Root.next("alpha");
    assert_eq!(b.follow(&g, &abs).unwrap().at, a.at);
    // parent step climbs
    let up = Path::Current.parent_step();
    assert_eq!(b.follow(&g, &up).unwrap().at, a.at);
}

#[test]
fn walk_from_inner_cursor_yields_its_subtree_start_first() {
    let g = sample_tree();
    let root = g.explore().unwrap();
    let a = root.child(&g, 0).unwrap();
    let mut it = a.iter(&g, IterRule::Walk);
    let mut seen: Vec<usize> = Vec::new();
    while let Some(e) = it.next() {
        seen.push(e.at);
    }
    // the start node comes first, then its subtree in pre-order, nothing else
    assert_eq!(seen, vec![a.at, 3, 4]);
}
