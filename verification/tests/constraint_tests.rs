use seat_planner::constraint::{ConstraintGraph, LinkType};

#[test]
fn variants_in_order() {
    assert_eq!(
        LinkType::variants(),
        &[LinkType::Must, LinkType::Should, LinkType::Could, LinkType::Wont]
    );
}

#[test]
fn labels() {
    assert_eq!(LinkType::Must.label(), "Must");
    assert_eq!(LinkType::Should.label(), "Should");
    assert_eq!(LinkType::Could.label(), "Could");
    assert_eq!(LinkType::Wont.label(), "Wont");
}

#[test]
fn new_graph_has_nothing() {
    let g = ConstraintGraph::new();
    assert!(g.all_constraints().is_empty());
    assert_eq!(g.get(0, 1), None);
    assert!(g.neighbors(0).is_empty());
    assert!(g.must_components().is_empty());
}

#[test]
fn add_then_get_both_ways() {
    let mut g = ConstraintGraph::new();
    g.add(1, 2, LinkType::Should);
    assert_eq!(g.get(1, 2), Some(LinkType::Should));
    assert_eq!(g.get(2, 1), Some(LinkType::Should));
    assert_eq!(g.get(1, 3), None);
}

#[test]
fn add_replaces_earlier_link_of_the_pair() {
    let mut g = ConstraintGraph::new();
    g.add(1, 2, LinkType::Must);
    g.add(3, 1, LinkType::Could);
    g.add(2, 1, LinkType::Wont);
    assert_eq!(g.get(1, 2), Some(LinkType::Wont));
    assert_eq!(g.get(1, 3), Some(LinkType::Could));
    let cs = g.all_constraints();
    assert_eq!(cs.len(), 2);
    assert_eq!((cs[0].a, cs[0].b, cs[0].kind), (3, 1, LinkType::Could));
    assert_eq!((cs[1].a, cs[1].b, cs[1].kind), (2, 1, LinkType::Wont));
    assert_eq!(g.neighbors(1), vec![(3, LinkType::Could), (2, LinkType::Wont)]);
}

#[test]
fn self_link_is_ignored() {
    let mut g = ConstraintGraph::new();
    g.add(4, 4, LinkType::Must);
    assert_eq!(g.get(4, 4), None);
    assert!(g.all_constraints().is_empty());
}

#[test]
fn remove_then_get() {
    let mut g = ConstraintGraph::new();
    g.add(1, 2, LinkType::Must);
    g.add(2, 3, LinkType::Should);
    g.remove(2, 1);
    assert_eq!(g.get(1, 2), None);
    assert_eq!(g.get(2, 1), None);
    assert_eq!(g.get(2, 3), Some(LinkType::Should));
    assert_eq!(g.all_constraints().len(), 1);
    g.remove(7, 8);
    assert_eq!(g.all_constraints().len(), 1);
}

#[test]
fn remove_guest_drops_all_its_links() {
    let mut g = ConstraintGraph::new();
    g.add(1, 2, LinkType::Must);
    g.add(2, 3, LinkType::Wont);
    g.add(3, 4, LinkType::Could);
    g.remove_guest(2);
    assert_eq!(g.get(1, 2), None);
    assert_eq!(g.get(3, 2), None);
    assert!(g.neighbors(2).is_empty());
    assert!(g.neighbors(1).is_empty());
    assert_eq!(g.neighbors(3), vec![(4, LinkType::Could)]);
    assert_eq!(g.get(4, 3), Some(LinkType::Could));
    assert_eq!(g.all_constraints().len(), 1);
}

#[test]
fn neighbors_in_link_order() {
    let mut g = ConstraintGraph::new();
    g.add(5, 1, LinkType::Must);
    g.add(2, 5, LinkType::Wont);
    assert_eq!(g.neighbors(5), vec![(1, LinkType::Must), (2, LinkType::Wont)]);
    assert_eq!(g.neighbors(2), vec![(5, LinkType::Wont)]);
}

#[test]
fn rebuild_edges_keeps_answers() {
    let mut g = ConstraintGraph::new();
    g.add(1, 2, LinkType::Must);
    g.add(2, 3, LinkType::Should);
    g.add(1, 3, LinkType::Wont);
    g.rebuild_edges();
    assert_eq!(g.get(2, 1), Some(LinkType::Must));
    assert_eq!(g.get(3, 2), Some(LinkType::Should));
    assert_eq!(g.get(1, 3), Some(LinkType::Wont));
    assert_eq!(g.neighbors(1), vec![(2, LinkType::Must), (3, LinkType::Wont)]);
}

#[test]
fn must_components_group_must_chains() {
    let mut g = ConstraintGraph::new();
    g.add(1, 2, LinkType::Must);
    g.add(2, 3, LinkType::Must);
    g.add(3, 4, LinkType::Should);
    g.add(5, 6, LinkType::Must);
    g.add(7, 1, LinkType::Wont);
    let mut comps: Vec<Vec<usize>> = g
        .must_components()
        .into_iter()
        .map(|mut c| {
            c.sort();
            c
        })
        .collect();
    comps.sort();
    assert_eq!(comps, vec![vec![1, 2, 3], vec![4], vec![5, 6], vec![7]]);
}

#[test]
fn must_components_list_each_guest_once() {
    let mut g = ConstraintGraph::new();
    for i in 0..10 {
        g.add(i, i + 1, if i % 3 == 0 { LinkType::Should } else { LinkType::Must });
    }
    let comps = g.must_components();
    let mut all: Vec<usize> = comps.iter().flatten().copied().collect();
    all.sort();
    assert_eq!(all, (0..=10).collect::<Vec<usize>>());
    assert!(comps.iter().all(|c| !c.is_empty()));
}

#[test]
fn removed_guest_leaves_no_component() {
    let mut g = ConstraintGraph::new();
    g.add(1, 2, LinkType::Must);
    g.remove_guest(1);
    let comps = g.must_components();
    assert_eq!(comps, vec![vec![2]]);
}

#[test]
fn neighbors_name_each_guest_once() {
    let mut g = ConstraintGraph::new();
    g.add(1, 2, LinkType::Must);
    g.add(2, 1, LinkType::Could);
    g.add(1, 3, LinkType::Wont);
    g.add(3, 1, LinkType::Should);
    let n = g.neighbors(1);
    assert_eq!(n, vec![(2, LinkType::Could), (3, LinkType::Should)]);
    assert!(g.neighbors(42).is_empty());
}

#[test]
fn must_chain_joins_a_component() {
    let mut g = ConstraintGraph::new();
    g.add(1, 2, LinkType::Must);
    g.add(3, 2, LinkType::Must);
    g.add(3, 4, LinkType::Should);
    let comps = g.must_components();
    let c1 = comps.iter().position(|c| c.contains(&1)).unwrap();
    assert!(comps[c1].contains(&3));
    assert!(!comps[c1].contains(&4));
}

#[test]
fn clone_keeps_every_answer() {
    let mut g = ConstraintGraph::new();
    g.add(1, 2, LinkType::Must);
    g.add(2, 3, LinkType::Wont);
    let h = g.clone();
    assert_eq!(h.get(2, 1), Some(LinkType::Must));
    assert_eq!(h.get(3, 2), Some(LinkType::Wont));
    assert_eq!(h.neighbors(2), g.neighbors(2));
    assert_eq!(h.all_constraints().len(), 2);
}

#[test]
fn must_group_lists_depth_first_order() {
    let mut g = ConstraintGraph::new();
    g.add(1, 2, LinkType::Must);
    g.add(1, 3, LinkType::Must);
    g.add(2, 4, LinkType::Must);
    let comps = g.must_components();
    assert_eq!(comps.len(), 1);
    let c = &comps[0];
    // whichever guest leads, the rest follow a depth-first walk over the link lists
    let expected: Vec<usize> = match c[0] {
        1 => vec![1, 3, 2, 4],
        2 => vec![2, 4, 1, 3],
        3 => vec![3, 1, 2, 4],
        _ => vec![4, 2, 1, 3],
    };
    assert_eq!(*c, expected);
}
