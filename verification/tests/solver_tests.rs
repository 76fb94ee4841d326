use seat_planner::constraint::{ConstraintGraph, LinkType};
use seat_planner::solver::{solve, SolveError};
use seat_planner::table::SeatingArrangement;

fn table_of(arr: &SeatingArrangement, id: usize) -> usize {
    arr.guest_table(id).expect("guest should be seated").0
}

fn seated_once(arr: &SeatingArrangement, ids: &[usize]) {
    for &id in ids {
        let n: usize = arr
            .tables
            .iter()
            .map(|t| t.seats.iter().filter(|s| **s == Some(id)).count())
            .sum();
        assert!(n <= 1, "guest {} seated {} times", id, n);
    }
}

#[test]
fn no_tables_is_an_error() {
    let g = ConstraintGraph::new();
    match solve(&[0, 1], &g, &[]) {
        Err(SolveError::NoTables) => {}
        other => panic!("unexpected {:?}", other),
    }
    assert_eq!(SolveError::NoTables.to_string(), "No tables defined");
}

#[test]
fn too_few_seats_is_an_error() {
    let g = ConstraintGraph::new();
    match solve(&[0, 1, 2], &g, &[1, 1]) {
        Err(SolveError::InsufficientCapacity { total, needed }) => {
            assert_eq!(total, 2);
            assert_eq!(needed, 3);
        }
        other => panic!("unexpected {:?}", other),
    }
    let e = SolveError::InsufficientCapacity { total: 2, needed: 3 };
    assert_eq!(e.to_string(), "Total capacity (2) is less than guest count (3)");
}

#[test]
fn oversized_must_group_is_an_error() {
    let mut g = ConstraintGraph::new();
    g.add(0, 1, LinkType::Must);
    g.add(1, 2, LinkType::Must);
    match solve(&[0, 1, 2, 3], &g, &[2, 2]) {
        Err(SolveError::UnsatisfiableMust { component, max_table }) => {
            assert_eq!(max_table, 2);
            let mut c = component.clone();
            c.sort();
            assert_eq!(c, vec![0, 1, 2]);
        }
        other => panic!("unexpected {:?}", other),
    }
    let e = SolveError::UnsatisfiableMust { component: vec![0, 1, 2], max_table: 2 };
    assert_eq!(e.to_string(), "Must-component of size 3 exceeds largest table capacity (2)");
}

#[test]
fn wont_pair_at_the_only_table_is_an_error() {
    let mut g = ConstraintGraph::new();
    g.add(0, 1, LinkType::Wont);
    match solve(&[0, 1], &g, &[2]) {
        Err(SolveError::UnsatisfiableWont { a, b }) => {
            assert_eq!((a, b), (0, 1));
        }
        other => panic!("unexpected {:?}", other),
    }
    let e = SolveError::UnsatisfiableWont { a: 0, b: 1 };
    assert_eq!(e.to_string(), "Cannot satisfy Wont constraint between guest 0 and 1");
}

#[test]
fn error_text_with_large_numbers() {
    let e = SolveError::InsufficientCapacity { total: 1009, needed: 20450 };
    assert_eq!(e.to_string(), "Total capacity (1009) is less than guest count (20450)");
}

#[test]
fn everybody_seated_when_room() {
    let g = ConstraintGraph::new();
    let ids = [0, 1, 2, 3, 4];
    let arr = solve(&ids, &g, &[3, 3]).unwrap();
    assert!(arr.is_feasible());
    assert_eq!(arr.seat_count(), 5);
    assert_eq!(arr.tables.len(), 2);
    assert_eq!(arr.tables[0].id, 0);
    assert_eq!(arr.tables[1].id, 1);
    assert_eq!(arr.tables[0].capacity, 3);
    seated_once(&arr, &ids);
}

#[test]
fn must_group_sits_together() {
    let mut g = ConstraintGraph::new();
    g.add(0, 1, LinkType::Must);
    g.add(1, 2, LinkType::Must);
    let ids = [0, 1, 2, 3, 4, 5];
    let arr = solve(&ids, &g, &[3, 3]).unwrap();
    assert!(arr.is_feasible());
    let t = table_of(&arr, 0);
    assert_eq!(table_of(&arr, 1), t);
    assert_eq!(table_of(&arr, 2), t);
    seated_once(&arr, &ids);
}

#[test]
fn wont_pair_is_separated() {
    let mut g = ConstraintGraph::new();
    g.add(0, 1, LinkType::Wont);
    let ids = [0, 1, 2];
    let arr = solve(&ids, &g, &[2, 2]).unwrap();
    assert!(arr.is_feasible());
    assert_ne!(table_of(&arr, 0), table_of(&arr, 1));
    seated_once(&arr, &ids);
}

#[test]
fn should_pair_ends_up_side_by_side() {
    let mut g = ConstraintGraph::new();
    g.add(0, 1, LinkType::Should);
    let arr = solve(&[0, 1], &g, &[4]).unwrap();
    let (t0, s0) = arr.guest_table(0).unwrap();
    let (t1, s1) = arr.guest_table(1).unwrap();
    assert_eq!(t0, t1);
    assert!(arr.tables[t0].adjacent_seats(s0).contains(&s1));
}

#[test]
fn guests_named_only_in_constraints_take_seats() {
    let mut g = ConstraintGraph::new();
    g.add(5, 6, LinkType::Must);
    let arr = solve(&[0, 1], &g, &[2]).unwrap();
    assert!(!arr.is_feasible());
    let mut unseated = arr.unseated.clone();
    unseated.sort();
    assert_eq!(unseated, vec![0, 1]);
    assert!(arr.guest_table(5).is_some());
    assert!(arr.guest_table(6).is_some());
    assert_eq!(arr.seat_count(), 2);
    assert!(arr.tables[0].is_full());
}

#[test]
fn group_with_room_sits_at_one_table() {
    let mut g = ConstraintGraph::new();
    g.add(1, 2, LinkType::Must);
    g.add(2, 3, LinkType::Must);
    g.add(3, 4, LinkType::Must);
    let ids = [0, 1, 2, 3, 4, 5, 6];
    let arr = solve(&ids, &g, &[2, 4, 4]).unwrap();
    assert!(arr.is_feasible());
    let t = table_of(&arr, 1);
    assert_eq!(arr.tables[t].capacity, 4);
    for id in [2, 3, 4] {
        assert_eq!(table_of(&arr, id), t);
    }
}

#[test]
fn duplicate_guest_numbers_are_seated_once() {
    let g = ConstraintGraph::new();
    let arr = solve(&[3, 3, 4], &g, &[3]).unwrap();
    assert!(arr.is_feasible());
    assert_eq!(arr.seat_count(), 2);
}

#[test]
fn no_guests_gives_empty_tables() {
    let g = ConstraintGraph::new();
    let arr = solve(&[], &g, &[2, 1]).unwrap();
    assert!(arr.is_feasible());
    assert_eq!(arr.seat_count(), 0);
    assert_eq!(arr.tables.len(), 2);
}

#[test]
fn mixed_constraints_keep_every_promise() {
    let mut g = ConstraintGraph::new();
    g.add(0, 1, LinkType::Must);
    g.add(2, 3, LinkType::Must);
    g.add(0, 2, LinkType::Wont);
    let ids: Vec<usize> = (0..4).collect();
    let arr = solve(&ids, &g, &[2, 2]).unwrap();
    assert!(arr.is_feasible());
    seated_once(&arr, &ids);
    assert_eq!(table_of(&arr, 0), table_of(&arr, 1));
    assert_eq!(table_of(&arr, 2), table_of(&arr, 3));
    assert_ne!(table_of(&arr, 0), table_of(&arr, 2));
}

#[test]
fn must_groups_that_cannot_sit_together_fail() {
    let mut g = ConstraintGraph::new();
    g.add(0, 1, LinkType::Must);
    g.add(2, 3, LinkType::Must);
    g.add(4, 5, LinkType::Must);
    let ids: Vec<usize> = (0..6).collect();
    match solve(&ids, &g, &[3, 3]) {
        Err(SolveError::MustSeparated { a, b }) => {
            assert!([(0, 1), (2, 3), (4, 5)].contains(&(a, b)));
        }
        other => panic!("unexpected {:?}", other),
    }
}

#[test]
fn moving_a_wont_guest_away_from_its_must_partner_fails() {
    let mut g = ConstraintGraph::new();
    g.add(1, 2, LinkType::Must);
    g.add(0, 1, LinkType::Wont);
    match solve(&[0, 1, 2], &g, &[3, 3]) {
        Err(SolveError::MustSeparated { a, b }) => assert_eq!((a, b), (1, 2)),
        other => panic!("unexpected {:?}", other),
    }
    let e = SolveError::MustSeparated { a: 1, b: 2 };
    assert_eq!(e.to_string(), "Cannot seat Must constraint between guest 1 and 2 at one table");
}

#[test]
fn unconstrained_guest_goes_to_first_table_with_room() {
    let mut g = ConstraintGraph::new();
    g.add(0, 1, LinkType::Wont);
    let arr = solve(&[0, 1, 9], &g, &[3, 3]).unwrap();
    assert_eq!(table_of(&arr, 9), 0);
    assert_ne!(table_of(&arr, 0), table_of(&arr, 1));
}

#[test]
fn must_group_at_empty_table_sits_side_by_side() {
    let mut g = ConstraintGraph::new();
    g.add(0, 1, LinkType::Must);
    g.add(1, 2, LinkType::Must);
    let arr = solve(&[0, 1, 2], &g, &[5]).unwrap();
    let mut seats: Vec<usize> = [0, 1, 2].iter().map(|&id| arr.guest_table(id).unwrap().1).collect();
    seats.sort();
    assert_eq!(seats, vec![0, 1, 2]);
}

#[test]
fn guest_without_partners_takes_seat_next_to_somebody() {
    let mut g = ConstraintGraph::new();
    g.add(2, 3, LinkType::Must);
    let arr = solve(&[1, 2, 3], &g, &[1, 4]).unwrap();
    assert_eq!(arr.guest_table(1), Some((1, 2)));
    assert_eq!(table_of(&arr, 2), 1);
    assert_eq!(table_of(&arr, 3), 1);
}
