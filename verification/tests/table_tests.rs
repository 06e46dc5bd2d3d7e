use disko::table::StatefulTable;

#[test]
fn a_new_table_has_no_focus_and_no_selection() {
    let table = StatefulTable::with_items(vec!["a", "b", "c"]);
    assert_eq!(table.focused_index(), None);
    assert_eq!(table.focused(), None);
    assert!(table.selected().is_empty());
    assert!(!table.is_selected(0));
    assert!(!table.is_focused(0));
    let table = StatefulTable::with_focused(vec!["a", "b", "c"], Some(1));
    assert_eq!(table.focused_index(), Some(1));
    assert_eq!(table.focused(), Some(&"b"));
    assert!(table.is_focused(1));
    assert!(!table.is_focused(2));
    // A focus beyond the rows is kept, and is on no row.
    let table = StatefulTable::with_focused(vec!["a"], Some(4));
    assert_eq!(table.focused_index(), Some(4));
    assert_eq!(table.focused(), None);
}

#[test]
fn the_focus_goes_round() {
    let mut table = StatefulTable::with_items(vec!["a", "b", "c"]);
    table.focus_next();
    assert_eq!(table.focused_index(), Some(0));
    table.focus_next();
    assert_eq!(table.focused_index(), Some(1));
    table.focus_next();
    table.focus_next();
    assert_eq!(table.focused_index(), Some(0));
    table.focus_previous();
    assert_eq!(table.focused_index(), Some(2));
    table.focus_previous();
    assert_eq!(table.focused_index(), Some(1));
    table.focus_first();
    assert_eq!(table.focused_index(), Some(0));
    table.focus_last();
    assert_eq!(table.focused_index(), Some(2));
    assert_eq!(table.focused(), Some(&"c"));
    let mut fresh = StatefulTable::with_items(vec![1, 2]);
    fresh.focus_previous();
    assert_eq!(fresh.focused_index(), Some(0));
    // From a focus beyond the rows.
    let mut far = StatefulTable::with_focused(vec![1, 2, 3], Some(7));
    far.focus_next();
    assert_eq!(far.focused_index(), Some(2));
    let mut far = StatefulTable::with_focused(vec![1, 2, 3], Some(usize::MAX));
    far.focus_next();
    assert_eq!(far.focused_index(), Some(1));
    let mut far = StatefulTable::with_focused(vec![1, 2, 3], Some(7));
    far.focus_previous();
    assert_eq!(far.focused_index(), Some(0));
}

#[test]
fn a_table_without_rows_keeps_its_focus() {
    let mut table: StatefulTable<u8> = StatefulTable::with_items(vec![]);
    table.focus_next();
    table.focus_previous();
    table.focus_first();
    table.focus_last();
    assert_eq!(table.focused_index(), None);
    let mut table: StatefulTable<u8> = StatefulTable::with_focused(vec![], Some(3));
    table.focus_next();
    table.focus_last();
    assert_eq!(table.focused_index(), Some(3));
}

#[test]
fn rows_are_selected_and_unselected() {
    let mut table = StatefulTable::with_items(vec!["a", "b", "c", "d"]);
    table.toggle_selection(2);
    table.toggle_selection(0);
    table.toggle_selection(3);
    assert!(table.is_selected(0));
    assert!(!table.is_selected(1));
    assert_eq!(table.selected(), vec![&"a", &"c", &"d"]);
    table.toggle_selection(0);
    assert_eq!(table.selected(), vec![&"c", &"d"]);
    // One beyond the last row can be selected, and selects no row.
    table.toggle_selection(4);
    assert!(table.is_selected(4));
    assert_eq!(table.selected(), vec![&"c", &"d"]);
    table.toggle_selection(5);
    assert!(!table.is_selected(5));
    table.clear_selected();
    assert!(table.selected().is_empty());
    assert!(!table.is_selected(2));
    assert_eq!(table.items.len(), 4);
}
