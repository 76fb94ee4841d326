use seat_planner::table::{SeatingArrangement, Table, TableConfig};

#[test]
fn table_config_total() {
    let c = TableConfig::new(8, 3);
    assert_eq!(c.capacity, 8);
    assert_eq!(c.count, 3);
    assert_eq!(c.total_capacity(), 24);
    assert_eq!(TableConfig::new(5, 0).total_capacity(), 0);
}

#[test]
fn new_table_is_empty() {
    let t = Table::new(3, 4);
    assert_eq!(t.id, 3);
    assert_eq!(t.capacity, 4);
    assert_eq!(t.seats, vec![None, None, None, None]);
    assert_eq!(t.num_occupied(), 0);
    assert_eq!(t.free_seats(), 4);
    assert!(!t.is_full());
    assert_eq!(t.free_seat_indices(), vec![0, 1, 2, 3]);
}

#[test]
fn occupancy_counts() {
    let mut t = Table::new(0, 3);
    t.seats[1] = Some(7);
    assert_eq!(t.num_occupied(), 1);
    assert_eq!(t.free_seats(), 2);
    assert_eq!(t.free_seat_indices(), vec![0, 2]);
    t.seats[0] = Some(8);
    t.seats[2] = Some(9);
    assert!(t.is_full());
    assert!(t.free_seat_indices().is_empty());
}

#[test]
fn zero_size_table_is_full() {
    let t = Table::new(0, 0);
    assert!(t.is_full());
    assert!(t.free_seat_indices().is_empty());
}

#[test]
fn adjacent_seats_wrap_around() {
    let t = Table::new(0, 5);
    assert_eq!(t.adjacent_seats(0), vec![4, 1]);
    assert_eq!(t.adjacent_seats(2), vec![1, 3]);
    assert_eq!(t.adjacent_seats(4), vec![3, 0]);
}

#[test]
fn adjacent_seats_small_tables() {
    assert_eq!(Table::new(0, 2).adjacent_seats(0), vec![1]);
    assert_eq!(Table::new(0, 2).adjacent_seats(1), vec![0]);
    assert!(Table::new(0, 1).adjacent_seats(0).is_empty());
    assert_eq!(Table::new(0, 3).adjacent_seats(0), vec![2, 1]);
}

#[test]
fn neighbors_are_the_occupants_beside() {
    let mut t = Table::new(0, 4);
    t.seats[0] = Some(10);
    t.seats[1] = Some(11);
    t.seats[3] = Some(13);
    assert_eq!(t.neighbors(0), vec![13, 11]);
    assert_eq!(t.neighbors(2), vec![11, 13]);
    assert_eq!(t.neighbors(1), vec![10]);
}

#[test]
fn arrangement_queries() {
    let mut a = SeatingArrangement::new();
    assert!(a.is_feasible());
    assert_eq!(a.seat_count(), 0);
    let mut t0 = Table::new(0, 2);
    t0.seats[1] = Some(5);
    let mut t1 = Table::new(1, 3);
    t1.seats[0] = Some(6);
    t1.seats[2] = Some(7);
    a.tables = vec![t0, t1];
    assert_eq!(a.seat_count(), 3);
    assert_eq!(a.guest_table(5), Some((0, 1)));
    assert_eq!(a.guest_table(7), Some((1, 2)));
    assert_eq!(a.guest_table(9), None);
    a.unseated = vec![9];
    assert!(!a.is_feasible());
}
