use vstd::prelude::*;

verus! {

/// A window or tab group found in the session data: its display name and
/// its position among the groups of its kind.
pub struct TabGroup {
    pub name: String,
    pub index: usize,
}

impl View for TabGroup {
    type V = (Seq<char>, usize);

    open spec fn view(&self) -> (Seq<char>, usize) {
        (self.name@, self.index)
    }
}

/// One row of the sidebar list.
pub enum SidebarRow {
    /// A caption above a block of groups; neither selectable nor activatable.
    Heading(String),
    /// Empty space between two blocks; neither selectable nor activatable.
    Spacer,
    /// A group that the user can select; `open` tells open windows from
    /// closed ones.
    Group { open: bool, index: usize, name: String },
}

/// What a sidebar row shows and stands for.
pub enum RowView {
    Heading(Seq<char>),
    Spacer,
    Group { open: bool, index: usize, name: Seq<char> },
}

impl View for SidebarRow {
    type V = RowView;

    open spec fn view(&self) -> RowView {
        match self {
            SidebarRow::Heading(s) => RowView::Heading(s@),
            SidebarRow::Spacer => RowView::Spacer,
            SidebarRow::Group { open, index, name } => RowView::Group {
                open: *open,
                index: *index,
                name: name@,
            },
        }
    }
}

impl SidebarRow {
    /// Whether the user can select and activate the row.
    pub fn is_selectable(&self) -> (r: bool)
        ensures
            r == (self@ is Group),
    {
        match self {
            SidebarRow::Group { .. } => true,
            _ => false,
        }
    }
}

/// The row of group `g`.
pub open spec fn group_row(open: bool, g: (Seq<char>, usize)) -> RowView {
    RowView::Group { open, index: g.1, name: g.0 }
}

/// The sidebar: a heading, the open windows, a spacer, a heading, the
/// closed windows.
pub open spec fn sidebar_layout(open: Seq<(Seq<char>, usize)>, closed: Seq<(Seq<char>, usize)>) -> Seq<
    RowView,
> {
    seq![RowView::Heading("Open Windows:"@)] + open.map_values(|g: (Seq<char>, usize)| group_row(true, g))
        + seq![RowView::Spacer, RowView::Heading("Closed Windows:"@)] + closed.map_values(
        |g: (Seq<char>, usize)| group_row(false, g),
    )
}

/// The views of a list of rows.
pub open spec fn rows_view(rows: Seq<SidebarRow>) -> Seq<RowView> {
    rows.map_values(|r: SidebarRow| r@)
}

/// The views of a list of groups.
pub open spec fn groups_view(groups: Seq<TabGroup>) -> Seq<(Seq<char>, usize)> {
    groups.map_values(|g: TabGroup| g@)
}

/// Appends one row for each group of `groups`.
fn push_groups(rows: &mut Vec<SidebarRow>, groups: &Vec<TabGroup>, open: bool)
    requires
        old(rows).len() + groups.len() <= usize::MAX,
    ensures
        rows_view(final(rows)@) == rows_view(old(rows)@) + groups_view(groups@).map_values(
            |g: (Seq<char>, usize)| group_row(open, g),
        ),
{
    let ghost start = rows_view(rows@);
    let ghost want = groups_view(groups@).map_values(|g: (Seq<char>, usize)| group_row(open, g));
    let mut i: usize = 0;
    while i < groups.len()
        invariant
            0 <= i <= groups.len(),
            rows.len() == start.len() + i,
            start.len() + groups.len() <= usize::MAX,
            start == rows_view(old(rows)@),
            want == groups_view(groups@).map_values(|g: (Seq<char>, usize)| group_row(open, g)),
            rows_view(rows@) == start + want.subrange(0, i as int),
        decreases groups.len() - i,
    {
        let g = &groups[i];
        let row = SidebarRow::Group { open, index: g.index, name: g.name.clone() };
        let ghost before = rows@;
        rows.push(row);
        proof {
            assert(rows@ == before.push(row));
            assert(rows_view(rows@) =~= rows_view(before).push(row@));
            assert(want[i as int] == row@);
            assert(want.subrange(0, i + 1) =~= want.subrange(0, i as int).push(row@));
        }
        i += 1;
    }
    proof {
        assert(want.subrange(0, groups.len() as int) =~= want);
    }
}

/// The rows of the sidebar for the given open and closed windows.
pub fn sidebar_rows(open: &Vec<TabGroup>, closed: &Vec<TabGroup>) -> (r: Vec<SidebarRow>)
    requires
        open.len() + closed.len() + 3 <= usize::MAX,
    ensures
        rows_view(r@) == sidebar_layout(groups_view(open@), groups_view(closed@)),
{
    let mut rows: Vec<SidebarRow> = Vec::new();
    rows.push(SidebarRow::Heading("Open Windows:".to_owned()));
    push_groups(&mut rows, open, true);
    let ghost mid = rows_view(rows@);
    rows.push(SidebarRow::Spacer);
    rows.push(SidebarRow::Heading("Closed Windows:".to_owned()));
    let ghost tail_start = rows_view(rows@);
    proof {
        assert(tail_start =~= mid + seq![RowView::Spacer, RowView::Heading("Closed Windows:"@)]);
    }
    push_groups(&mut rows, closed, false);
    proof {
        assert(rows_view(rows@) =~= sidebar_layout(groups_view(open@), groups_view(closed@)));
    }
    rows
}

/// Whether position `i` of `rows` holds a group row.
pub open spec fn is_group_at(rows: Seq<RowView>, i: i32) -> bool {
    0 <= i < rows.len() && rows[i as int] is Group
}

/// Whether any of the selected positions `sel` holds a group row.
pub open spec fn selects_group(rows: Seq<RowView>, sel: Seq<i32>) -> bool {
    exists|k: int| 0 <= k < sel.len() && is_group_at(rows, #[trigger] sel[k])
}

/// The indexes of the open (or closed) groups at the selected positions
/// `sel`, in the order of `sel`; positions without a group row are skipped.
pub open spec fn group_indexes(rows: Seq<RowView>, sel: Seq<i32>, open: bool) -> Seq<usize>
    decreases sel.len(),
{
    if sel.len() == 0 {
        Seq::empty()
    } else {
        let prev = group_indexes(rows, sel.drop_last(), open);
        let i = sel.last();
        if is_group_at(rows, i) && rows[i as int]->open == open {
            prev.push(rows[i as int]->index)
        } else {
            prev
        }
    }
}

/// The groups that the selected sidebar rows stand for.
pub struct GroupSelection {
    /// Indexes of the selected open windows; `None` when no group row is
    /// selected at all, in which case every open window is meant.
    pub open: Option<Vec<usize>>,
    /// Indexes of the selected closed windows.
    pub closed: Vec<usize>,
}

/// The groups picked by the selected positions `selected` of `rows`, in the
/// order of `selected`. Positions that hold no group row are skipped.
pub fn selected_groups(rows: &Vec<SidebarRow>, selected: &Vec<i32>) -> (r: GroupSelection)
    ensures
        r.open is Some <==> selects_group(rows_view(rows@), selected@),
        r.open is Some ==> r.open->0@ == group_indexes(rows_view(rows@), selected@, true),
        r.closed@ == group_indexes(rows_view(rows@), selected@, false),
{
    let ghost rv = rows_view(rows@);
    let mut open: Vec<usize> = Vec::new();
    let mut closed: Vec<usize> = Vec::new();
    let mut any = false;
    let mut k: usize = 0;
    while k < selected.len()
        invariant
            0 <= k <= selected.len(),
            rv == rows_view(rows@),
            open@ == group_indexes(rv, selected@.subrange(0, k as int), true),
            closed@ == group_indexes(rv, selected@.subrange(0, k as int), false),
            any == selects_group(rv, selected@.subrange(0, k as int)),
        decreases selected.len() - k,
    {
        let i = selected[k];
        let ghost prefix = selected@.subrange(0, k + 1);
        proof {
            assert(prefix.drop_last() =~= selected@.subrange(0, k as int));
            assert(prefix.last() == i);
        }
        if 0 <= i && (i as usize) < rows.len() {
            match &rows[i as usize] {
                SidebarRow::Group { open: is_open, index, .. } => {
                    proof {
                        assert(rv[i as int] == rows[i as int]@);
                        assert(is_group_at(rv, prefix[k as int]));
                    }
                    if *is_open {
                        open.push(*index);
                    } else {
                        closed.push(*index);
                    }
                    any = true;
                },
                _ => {
                    proof {
                        assert(rv[i as int] == rows[i as int]@);
                    }
                },
            }
        }
        proof {
            assert(any == selects_group(rv, prefix)) by {
                if selects_group(rv, selected@.subrange(0, k as int)) {
                    let m = choose|m: int| 0 <= m < k && is_group_at(rv, #[trigger] selected@.subrange(0, k as int)[m]);
                    assert(prefix[m] == selected@.subrange(0, k as int)[m]);
                }
                if selects_group(rv, prefix) {
                    let m = choose|m: int| 0 <= m < k + 1 && is_group_at(rv, #[trigger] prefix[m]);
                    if m < k {
                        assert(prefix[m] == selected@.subrange(0, k as int)[m]);
                    }
                }
            }
        }
        k += 1;
    }
    proof {
        assert(selected@.subrange(0, selected.len() as int) =~= selected@);
    }
    GroupSelection { open: if any { Some(open) } else { None }, closed }
}

} // verus!
