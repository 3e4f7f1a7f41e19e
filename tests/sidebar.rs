use session_ui_core::loading::{next_load_step, LoadStage, LoadWork};
use session_ui_core::sidebar::{selected_groups, sidebar_rows, SidebarRow, TabGroup};

fn group(name: &str, index: usize) -> TabGroup {
    TabGroup { name: name.to_string(), index }
}

fn rows() -> Vec<SidebarRow> {
    sidebar_rows(&vec![group("a", 0), group("b", 1)], &vec![group("c", 0)])
}

#[test]
fn sidebar_layout_blocks() {
    let r = rows();
    assert_eq!(r.len(), 6);
    assert!(matches!(&r[0], SidebarRow::Heading(s) if s == "Open Windows:"));
    assert!(matches!(&r[1], SidebarRow::Group { open: true, index: 0, name } if name == "a"));
    assert!(matches!(&r[2], SidebarRow::Group { open: true, index: 1, name } if name == "b"));
    assert!(matches!(&r[3], SidebarRow::Spacer));
    assert!(matches!(&r[4], SidebarRow::Heading(s) if s == "Closed Windows:"));
    assert!(matches!(&r[5], SidebarRow::Group { open: false, index: 0, name } if name == "c"));
    assert!(!r[0].is_selectable());
    assert!(r[1].is_selectable());
    assert!(!r[3].is_selectable());
}

#[test]
fn sidebar_without_groups() {
    let r = sidebar_rows(&vec![], &vec![]);
    assert_eq!(r.len(), 3);
}

#[test]
fn nothing_selected_means_every_open_window() {
    let sel = selected_groups(&rows(), &vec![]);
    assert!(sel.open.is_none());
    assert!(sel.closed.is_empty());
}

#[test]
fn selected_rows_split_by_kind() {
    let sel = selected_groups(&rows(), &vec![2, 5, 1]);
    assert_eq!(sel.open, Some(vec![1, 0]));
    assert_eq!(sel.closed, vec![0]);
}

#[test]
fn only_closed_selected_gives_empty_open_list() {
    let sel = selected_groups(&rows(), &vec![5]);
    assert_eq!(sel.open, Some(vec![]));
    assert_eq!(sel.closed, vec![0]);
}

#[test]
fn headings_and_out_of_range_are_skipped() {
    let sel = selected_groups(&rows(), &vec![0, 3, 4, 17, -1]);
    assert!(sel.open.is_none());
    assert!(sel.closed.is_empty());
}

#[test]
fn load_steps_follow_stage() {
    let s = next_load_step(LoadStage::Compressed);
    assert_eq!(s.status, "Decompressing data");
    assert_eq!(s.work, LoadWork::Decompress);
    let s = next_load_step(LoadStage::Uncompressed);
    assert_eq!(s.status, "Parsing session data");
    assert_eq!(s.work, LoadWork::Parse);
    let s = next_load_step(LoadStage::Parsed);
    assert_eq!(s.status, "Searching for tab groups");
    assert_eq!(s.work, LoadWork::ListGroups);
}
