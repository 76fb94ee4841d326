use seat_planner::constraint::{ConstraintGraph, LinkType};
use seat_planner::guest::GuestList;
use seat_planner::table::{SeatingArrangement, TableConfig};
use seat_planner::text::decimal_text;
use seat_planner::ui::{find_exact, linked_of_kind, name_matches, seat_mark, strong_link_count, total_seats, AppUi, SeatMark};

fn three_guests() -> GuestList {
    let mut list = GuestList::new();
    for n in ["Ann", "Bob", "Cy"] {
        list.add(n.to_string());
    }
    list
}

#[test]
fn new_screen_defaults() {
    let ui = AppUi::new();
    assert!(ui.new_guest_name.is_empty());
    assert!(ui.selected_guest.is_none());
    assert!(ui.constraint_search_must.is_empty());
    assert!(ui.constraint_search_should.is_empty());
    assert!(ui.constraint_search_could.is_empty());
    assert!(ui.constraint_search_wont.is_empty());
    assert!(ui.needs_solve);
    assert!(ui.solve_error.is_none());
    assert_eq!(ui.new_table_capacity, 8);
    assert_eq!(ui.new_table_count, 1);
    assert!(!ui.export_requested);
    assert!(!ui.import_requested);
}

#[test]
fn run_solver_without_tables_says_so() {
    let mut ui = AppUi::new();
    let guests = three_guests();
    let g = ConstraintGraph::new();
    let mut arr: Option<SeatingArrangement> = Some(SeatingArrangement::new());
    ui.run_solver(&guests, &g, &[], &mut arr);
    assert_eq!(ui.solve_error.as_deref(), Some("Add at least one table first"));
    assert!(arr.is_some());
}

#[test]
fn run_solver_without_guests_clears() {
    let mut ui = AppUi::new();
    ui.solve_error = Some("old".to_string());
    let guests = GuestList::new();
    let g = ConstraintGraph::new();
    let mut arr: Option<SeatingArrangement> = Some(SeatingArrangement::new());
    ui.run_solver(&guests, &g, &[TableConfig::new(4, 1)], &mut arr);
    assert!(ui.solve_error.is_none());
    assert!(arr.is_none());
}

#[test]
fn run_solver_expands_table_kinds() {
    let mut ui = AppUi::new();
    ui.solve_error = Some("old".to_string());
    let guests = three_guests();
    let g = ConstraintGraph::new();
    let mut arr: Option<SeatingArrangement> = None;
    ui.run_solver(&guests, &g, &[TableConfig::new(2, 2), TableConfig::new(5, 1)], &mut arr);
    assert!(ui.solve_error.is_none());
    let arr = arr.unwrap();
    let caps: Vec<usize> = arr.tables.iter().map(|t| t.capacity).collect();
    assert_eq!(caps, vec![2, 2, 5]);
    assert!(arr.is_feasible());
}

#[test]
fn run_solver_reports_errors_in_words() {
    let mut ui = AppUi::new();
    let guests = three_guests();
    let g = ConstraintGraph::new();
    let mut arr: Option<SeatingArrangement> = Some(SeatingArrangement::new());
    ui.run_solver(&guests, &g, &[TableConfig::new(1, 2)], &mut arr);
    assert_eq!(
        ui.solve_error.as_deref(),
        Some("Total capacity (2) is less than guest count (3)")
    );
    assert!(arr.is_none());
}

#[test]
fn solve_if_needed_only_when_due() {
    let mut ui = AppUi::new();
    let guests = three_guests();
    let g = ConstraintGraph::new();
    let tables = vec![TableConfig::new(4, 1)];
    let mut arr: Option<SeatingArrangement> = None;
    ui.needs_solve = false;
    ui.solve_if_needed(&guests, &g, &tables, &mut arr);
    assert!(arr.is_none());
    ui.needs_solve = true;
    ui.solve_if_needed(&guests, &g, &vec![], &mut arr);
    assert!(arr.is_none());
    assert!(ui.needs_solve);
    ui.solve_if_needed(&guests, &g, &tables, &mut arr);
    assert!(arr.is_some());
    assert!(!ui.needs_solve);
}

#[test]
fn submit_guest_name_adds_trimmed_name() {
    let mut ui = AppUi::new();
    let mut guests = GuestList::new();
    ui.needs_solve = false;
    ui.new_guest_name = "  Dora ".to_string();
    ui.submit_guest_name(&mut guests);
    assert_eq!(guests.len(), 1);
    assert_eq!(guests.guests[0].name, "Dora");
    assert!(ui.new_guest_name.is_empty());
    assert!(ui.needs_solve);
}

#[test]
fn submit_blank_guest_name_does_nothing() {
    let mut ui = AppUi::new();
    let mut guests = GuestList::new();
    ui.needs_solve = false;
    ui.new_guest_name = "   ".to_string();
    ui.submit_guest_name(&mut guests);
    assert!(guests.is_empty());
    assert_eq!(ui.new_guest_name, "   ");
    assert!(!ui.needs_solve);
}

#[test]
fn linked_of_kind_filters_links() {
    let mut g = ConstraintGraph::new();
    g.add(0, 1, LinkType::Must);
    g.add(2, 0, LinkType::Wont);
    g.add(0, 3, LinkType::Must);
    assert_eq!(linked_of_kind(&g, 0, LinkType::Must), vec![1, 3]);
    assert_eq!(linked_of_kind(&g, 0, LinkType::Wont), vec![2]);
    assert!(linked_of_kind(&g, 0, LinkType::Could).is_empty());
}

#[test]
fn name_matches_ignores_case() {
    assert!(name_matches("", "Bob"));
    assert!(name_matches("BO", "bob"));
    assert!(name_matches("ob", "BOB"));
    assert!(!name_matches("x", "Bob"));
    assert!(!name_matches("bobby", "Bob"));
}

#[test]
fn find_exact_takes_the_first_full_match() {
    let cands = vec![(4, "Bobby".to_string()), (7, "bob".to_string()), (9, "BOB".to_string())];
    assert_eq!(find_exact(&cands, "Bob"), Some(7));
    assert_eq!(find_exact(&cands, "bo"), None);
    assert_eq!(find_exact(&cands, "BOBBY"), Some(4));
}

#[test]
fn strong_link_count_counts_must_and_should() {
    let mut g = ConstraintGraph::new();
    g.add(0, 1, LinkType::Must);
    g.add(0, 2, LinkType::Should);
    g.add(0, 3, LinkType::Could);
    g.add(0, 4, LinkType::Wont);
    assert_eq!(strong_link_count(&g, 0, &vec![1, 2, 3, 4, 5]), 2);
    assert_eq!(strong_link_count(&g, 0, &vec![3, 4]), 0);
    assert_eq!(strong_link_count(&g, 1, &vec![0, 0]), 2);
}

#[test]
fn total_seats_sums_kinds() {
    assert_eq!(total_seats(&vec![TableConfig::new(2, 3), TableConfig::new(4, 1)]), 10);
    assert_eq!(total_seats(&vec![]), 0);
}

#[test]
fn decimal_text_writes_digits() {
    assert_eq!(decimal_text(0), "0");
    assert_eq!(decimal_text(7), "7");
    assert_eq!(decimal_text(1234), "1234");
    assert_eq!(decimal_text(usize::MAX), usize::MAX.to_string());
}

#[test]
fn seat_marks_by_strong_neighbours() {
    assert_eq!(seat_mark(0), SeatMark::Red);
    assert_eq!(seat_mark(1), SeatMark::Yellow);
    assert_eq!(seat_mark(2), SeatMark::Green);
    assert_eq!(seat_mark(5), SeatMark::Green);
}

#[test]
fn stale_selection_is_dropped() {
    let mut ui = AppUi::new();
    let mut guests = three_guests();
    ui.selected_guest = Some(1);
    ui.drop_stale_selection(&guests);
    assert_eq!(ui.selected_guest, Some(1));
    guests.remove(1);
    ui.drop_stale_selection(&guests);
    assert_eq!(ui.selected_guest, None);
    ui.drop_stale_selection(&guests);
    assert_eq!(ui.selected_guest, None);
}

#[test]
fn table_kinds_added_and_removed() {
    let mut ui = AppUi::new();
    let mut tables: Vec<TableConfig> = Vec::new();
    ui.needs_solve = false;
    ui.new_table_capacity = 6;
    ui.new_table_count = 2;
    ui.add_table_kind(&mut tables);
    assert_eq!(tables.len(), 1);
    assert_eq!((tables[0].capacity, tables[0].count), (6, 2));
    assert!(ui.needs_solve);
    ui.needs_solve = false;
    ui.remove_table_kind(&mut tables, 0);
    assert!(tables.is_empty());
    assert!(ui.needs_solve);
}

#[test]
fn import_export_requests() {
    let mut ui = AppUi::new();
    ui.request_export();
    assert!(ui.export_requested);
    assert!(!ui.import_requested);
    ui.request_import();
    assert!(ui.import_requested);
}

#[test]
fn link_clicks_change_the_graph() {
    let mut g = ConstraintGraph::new();
    let mut search = "bo".to_string();
    let mut due = false;
    seat_planner::ui::add_link(&mut g, 1, 2, LinkType::Should, &mut search, &mut due);
    assert_eq!(g.get(2, 1), Some(LinkType::Should));
    assert!(search.is_empty());
    assert!(due);
    due = false;
    seat_planner::ui::drop_link(&mut g, 2, 1, &mut due);
    assert_eq!(g.get(1, 2), None);
    assert!(due);
}
