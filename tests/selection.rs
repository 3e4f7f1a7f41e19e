use session_ui_core::selection::SelectionModel;

fn sorted(v: &Vec<i32>) -> Vec<i32> {
    let mut s = v.clone();
    s.sort();
    s
}

/// A model whose selection is `rows`, settled, reached as a widget with
/// additive selection would deliver it.
fn model_with(rows: &[i32]) -> SelectionModel {
    let mut m = SelectionModel::new();
    let mut shown: Vec<i32> = Vec::new();
    for &r in rows {
        assert!(!m.on_activation(r));
        shown.push(r);
        let rec = m.on_selection_changed(&shown);
        assert!(rec.reselect.is_empty());
        assert!(rec.settled);
    }
    m
}

#[test]
fn new_model_is_empty() {
    let m = SelectionModel::new();
    assert_eq!(m.selected_count(), 0);
    assert_eq!(m.pending_activation(), None);
    assert_eq!(m.pending_corrections(), 0);
}

#[test]
fn scenario_toggle_off_single_row() {
    let mut m = model_with(&[3]);
    assert!(m.is_selected(3));
    // activate(3): unselectRow(3) is asked for and 3 leaves the selection at once.
    assert!(m.on_activation(3));
    assert!(m.selected_rows().is_empty());
    assert_eq!(m.pending_activation(), Some(3));
    // The widget reports an empty selection: settles at once, no corrections.
    let rec = m.on_selection_changed(&vec![]);
    assert!(rec.reselect.is_empty());
    assert!(rec.settled);
    assert_eq!(m.pending_corrections(), 0);
    assert_eq!(m.pending_activation(), None);
    assert_eq!(m.selected_count(), 0);
}

#[test]
fn scenario_widget_clears_others_on_click() {
    let mut m = model_with(&[2, 5]);
    assert_eq!(sorted(m.selected_rows()), vec![2, 5]);
    // activate(7) on an unselected row: nothing to unselect, 7 is pending.
    assert!(!m.on_activation(7));
    assert_eq!(m.pending_activation(), Some(7));
    assert_eq!(sorted(m.selected_rows()), vec![2, 5]);
    // The widget cleared 2 and 5: both are selected again.
    let rec = m.on_selection_changed(&vec![7]);
    assert_eq!(rec.reselect, vec![2, 5]);
    assert!(!rec.settled);
    assert_eq!(m.pending_corrections(), 2);
    assert_eq!(sorted(m.selected_rows()), vec![2, 5, 7]);
    // Echo of selectRow(2).
    assert!(!m.on_activation(2));
    assert_eq!(m.pending_corrections(), 1);
    let rec = m.on_selection_changed(&vec![7, 2]);
    assert!(rec.reselect.is_empty());
    assert!(!rec.settled);
    // Echo of selectRow(5): the counter reaches zero and the selection settles.
    assert!(!m.on_activation(5));
    assert_eq!(m.pending_corrections(), 0);
    let rec = m.on_selection_changed(&vec![7, 2, 5]);
    assert!(rec.reselect.is_empty());
    assert!(rec.settled);
    assert_eq!(sorted(m.selected_rows()), vec![2, 5, 7]);
}

#[test]
fn toggle_twice_restores_selection() {
    let mut m = model_with(&[1, 4]);
    assert!(!m.on_activation(9));
    let rec = m.on_selection_changed(&vec![1, 4, 9]);
    assert!(rec.settled);
    assert_eq!(m.pending_corrections(), 0);
    assert_eq!(sorted(m.selected_rows()), vec![1, 4, 9]);
    assert!(m.on_activation(9));
    let rec = m.on_selection_changed(&vec![1, 4]);
    assert!(rec.settled);
    assert_eq!(m.pending_corrections(), 0);
    assert_eq!(sorted(m.selected_rows()), vec![1, 4]);
}

#[test]
fn dropped_row_is_restored_and_echo_absorbed() {
    let mut m = model_with(&[2, 6]);
    assert!(!m.on_activation(8));
    let rec = m.on_selection_changed(&vec![8, 6]);
    assert_eq!(rec.reselect, vec![2]);
    assert!(!rec.settled);
    assert_eq!(m.pending_corrections(), 1);
    // The echo of the correction does not toggle row 2 off.
    assert!(!m.on_activation(2));
    assert_eq!(m.pending_corrections(), 0);
    assert!(m.is_selected(2));
    assert_eq!(sorted(m.selected_rows()), vec![2, 6, 8]);
}

#[test]
fn counter_never_goes_below_zero() {
    let mut m = model_with(&[1]);
    assert!(!m.on_activation(2));
    let rec = m.on_selection_changed(&vec![2]);
    assert_eq!(rec.reselect, vec![1]);
    assert!(!m.on_activation(1));
    assert_eq!(m.pending_corrections(), 0);
    // A duplicate echo is taken as a genuine activation, not a negative count.
    assert!(m.on_activation(1));
    assert_eq!(m.pending_corrections(), 0);
    assert_eq!(m.pending_activation(), Some(1));
}

#[test]
fn widget_rows_are_taken_once_each() {
    let mut m = SelectionModel::new();
    let rec = m.on_selection_changed(&vec![4, 4, 2, 4]);
    assert!(rec.reselect.is_empty());
    assert!(rec.settled);
    assert_eq!(m.selected_count(), 2);
    assert_eq!(sorted(m.selected_rows()), vec![2, 4]);
}

#[test]
fn change_without_activation_rechecks_nothing() {
    let mut m = model_with(&[3, 5]);
    let rec = m.on_selection_changed(&vec![5]);
    assert!(rec.reselect.is_empty());
    assert!(rec.settled);
    assert_eq!(sorted(m.selected_rows()), vec![5]);
}

#[test]
fn reconcile_room_is_reported() {
    let m = model_with(&[1, 2, 3]);
    assert!(m.can_reconcile());
}
