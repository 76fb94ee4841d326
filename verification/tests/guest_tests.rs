use seat_planner::guest::{Guest, GuestList};

fn names(list: &GuestList) -> Vec<String> {
    list.guests.iter().map(|g| g.name.clone()).collect()
}

#[test]
fn new_list_is_empty() {
    let list = GuestList::new();
    assert!(list.is_empty());
    assert_eq!(list.len(), 0);
    assert!(list.filtered().is_empty());
}

#[test]
fn add_trims_and_numbers_guests() {
    let mut list = GuestList::new();
    list.add("  Alice ".to_string());
    list.add("Bob".to_string());
    list.add("\tCarol\n".to_string());
    assert_eq!(names(&list), vec!["Alice", "Bob", "Carol"]);
    let ids: Vec<usize> = list.guests.iter().map(|g| g.id).collect();
    assert_eq!(ids, vec![0, 1, 2]);
    assert_eq!(list.len(), 3);
    assert!(!list.is_empty());
}

#[test]
fn add_ignores_blank_names() {
    let mut list = GuestList::new();
    list.add("   ".to_string());
    list.add(String::new());
    assert!(list.is_empty());
    list.add("Dan".to_string());
    assert_eq!(list.guests[0].id, 0);
}

#[test]
fn add_ignores_names_already_listed() {
    let mut list = GuestList::new();
    list.add("Alice".to_string());
    list.add(" Alice  ".to_string());
    list.add("Alice".to_string());
    assert_eq!(list.len(), 1);
    list.add("Bob".to_string());
    assert_eq!(list.get(1).map(|g| g.name.clone()), Some("Bob".to_string()));
}

#[test]
fn names_differing_in_case_are_different_guests() {
    let mut list = GuestList::new();
    list.add("alice".to_string());
    list.add("Alice".to_string());
    assert_eq!(list.len(), 2);
}

#[test]
fn remove_drops_the_guest_and_keeps_order() {
    let mut list = GuestList::new();
    for n in ["A", "B", "C", "D"] {
        list.add(n.to_string());
    }
    list.remove(1);
    assert_eq!(names(&list), vec!["A", "C", "D"]);
    assert!(list.get(1).is_none());
    list.remove(42);
    assert_eq!(list.len(), 3);
}

#[test]
fn numbers_are_not_reused_after_remove() {
    let mut list = GuestList::new();
    list.add("A".to_string());
    list.add("B".to_string());
    list.remove(1);
    list.add("C".to_string());
    assert_eq!(list.get(2).map(|g| g.name.clone()), Some("C".to_string()));
    assert!(list.get(1).is_none());
}

#[test]
fn removed_name_can_be_added_again() {
    let mut list = GuestList::new();
    list.add("A".to_string());
    list.remove(0);
    list.add("A".to_string());
    assert_eq!(list.len(), 1);
    assert_eq!(list.guests[0].id, 1);
}

#[test]
fn get_finds_by_number() {
    let mut list = GuestList::new();
    list.add("Ann".to_string());
    list.add("Ben".to_string());
    let g: &Guest = list.get(1).unwrap();
    assert_eq!(g.name, "Ben");
    assert_eq!(g.id, 1);
    assert!(list.get(7).is_none());
}

#[test]
fn added_guest_is_found_under_its_new_number() {
    let mut list = GuestList::new();
    list.add("Ann".to_string());
    list.remove(0);
    list.add("Ben".to_string());
    let found = list.get(1).unwrap();
    assert_eq!(found.name, "Ben");
}

#[test]
fn filtered_without_filter_shows_everybody() {
    let mut list = GuestList::new();
    list.add("Ann".to_string());
    list.add("Ben".to_string());
    let shown: Vec<String> = list.filtered().iter().map(|g| g.name.clone()).collect();
    assert_eq!(shown, vec!["Ann", "Ben"]);
}

#[test]
fn filtered_matches_case_insensitively() {
    let mut list = GuestList::new();
    list.add("Alice".to_string());
    list.add("Bob".to_string());
    list.add("MALIK".to_string());
    list.filter = "aLi".to_string();
    let shown: Vec<String> = list.filtered().iter().map(|g| g.name.clone()).collect();
    assert_eq!(shown, vec!["Alice", "MALIK"]);
    list.filter = "zzz".to_string();
    assert!(list.filtered().is_empty());
}

#[test]
fn guest_ids_in_list_order() {
    let mut list = GuestList::new();
    for n in ["A", "B", "C"] {
        list.add(n.to_string());
    }
    list.remove(0);
    assert_eq!(list.guest_ids(), vec![1, 2]);
}

#[test]
fn candidates_leave_out_selected_and_current() {
    let mut list = GuestList::new();
    for n in ["A", "B", "C", "D"] {
        list.add(n.to_string());
    }
    let c = list.candidates(1, &vec![3]);
    assert_eq!(c, vec![(0, "A".to_string()), (2, "C".to_string())]);
    assert_eq!(list.candidates(9, &vec![]).len(), 4);
}

#[test]
fn next_number_counts_up() {
    let mut list = GuestList::new();
    assert_eq!(list.next_number(), 0);
    list.add("A".to_string());
    list.add("A".to_string());
    list.add("  ".to_string());
    assert_eq!(list.next_number(), 1);
    list.remove(0);
    assert_eq!(list.next_number(), 1);
}

#[test]
fn set_filter_then_filtered() {
    let mut list = GuestList::new();
    list.add("Alice".to_string());
    list.add("Bob".to_string());
    list.set_filter("BO".to_string());
    let shown: Vec<String> = list.filtered().iter().map(|g| g.name.clone()).collect();
    assert_eq!(shown, vec!["Bob"]);
    assert_eq!(list.filter, "BO");
}

#[test]
fn accepts_name_matches_add() {
    let mut list = GuestList::new();
    assert!(list.accepts_name(" Ann "));
    assert!(!list.accepts_name("   "));
    list.add("Ann".to_string());
    assert!(!list.accepts_name("Ann"));
    assert!(!list.accepts_name("  Ann"));
    assert!(list.accepts_name("ann"));
}

#[test]
fn guest_at_reads_in_list_order() {
    let mut list = GuestList::new();
    list.add("A".to_string());
    list.add("B".to_string());
    assert_eq!(list.guest_at(1).name, "B");
    assert_eq!(list.guest_at(0).id, 0);
}
