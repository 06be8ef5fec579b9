use cpd::{normalize_name, pick_by_name, Menu, MenuAction, MenuDirection, MenuItem};

#[derive(Clone)]
enum Entry {
    Leaf(String, u32),
    Sub(String, Vec<Entry>),
}

impl MenuItem<(), u32> for Entry {
    fn label(&self, _state: &()) -> String {
        match self {
            Entry::Leaf(l, _) => l.clone(),
            Entry::Sub(l, _) => l.clone(),
        }
    }

    fn action(&self, _state: &()) -> MenuAction<Entry, u32> {
        match self {
            Entry::Leaf(_, v) => MenuAction::Done(*v),
            Entry::Sub(_, items) => MenuAction::MenuItem(items.clone()),
        }
    }
}

fn sample() -> Menu<Entry> {
    Menu::new(vec![
        Entry::Leaf("Attack".to_string(), 1),
        Entry::Sub("More".to_string(), vec![Entry::Leaf("Heal".to_string(), 2), Entry::Leaf("Hide".to_string(), 3)]),
        Entry::Leaf("Pass".to_string(), 4),
    ])
}

#[test]
fn focus_moves_and_stops_at_the_ends() {
    let mut menu = sample();
    assert_eq!(menu.selected(), None);
    menu.move_focus(MenuDirection::Down);
    assert_eq!(menu.selected(), Some(0));
    menu.move_focus(MenuDirection::Up);
    assert_eq!(menu.selected(), Some(0));
    menu.move_focus(MenuDirection::Down);
    menu.move_focus(MenuDirection::Down);
    menu.move_focus(MenuDirection::Down);
    assert_eq!(menu.selected(), Some(2));
    let mut fresh = sample();
    fresh.move_focus(MenuDirection::Up);
    assert_eq!(fresh.selected(), Some(2));
}

#[test]
fn submenus_and_back() {
    let mut menu = sample();
    assert_eq!(menu.select_current_selection(&()), None);
    menu.move_focus(MenuDirection::Down);
    menu.move_focus(MenuDirection::Down);
    assert_eq!(menu.select_current_selection(&()), None);
    assert!(menu.has_back());
    assert_eq!(menu.entry_count(), 2);
    assert_eq!(menu.selected(), None);
    menu.move_focus(MenuDirection::Up);
    assert_eq!(menu.selected(), Some(2));
    assert_eq!(menu.select_current_selection(&()), None);
    assert!(!menu.has_back());
    assert_eq!(menu.entry_count(), 3);
    menu.move_focus(MenuDirection::Down);
    assert_eq!(menu.select_current_selection(&()), Some(1));
}

#[test]
fn select_by_name_matches_normalized_prefixes() {
    let mut menu = sample();
    assert_eq!(menu.select_by_name("   ", &()), None);
    assert_eq!(menu.selected(), None);
    assert_eq!(menu.select_by_name("  PA ", &()), Some(4));
    assert_eq!(menu.select_by_name("more", &()), None);
    assert_eq!(menu.select_by_name("hi", &()), Some(3));
    assert_eq!(normalize_name("  MiXed "), "mixed");
}

#[test]
fn pick_by_name_scans_in_order() {
    let labels = vec!["heal".to_string(), "hide".to_string(), "pass".to_string()];
    assert_eq!(pick_by_name(&labels, "h", false), Some(1));
    assert_eq!(pick_by_name(&labels, "x", false), None);
    assert_eq!(pick_by_name(&labels, "b", true), Some(3));
    assert_eq!(pick_by_name(&labels, "he", true), Some(3));
}
