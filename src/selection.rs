use vstd::prelude::*;

verus! {

broadcast use vstd::seq_lib::group_seq_lib_default;

/// Abstract state of the toggle-selection reconciler.
///
/// `selected` is the logical selection, `pending_activation` the row of the
/// last genuine activation not yet consumed by a selection-changed event, and
/// `pending_corrections` the number of programmatic re-selections whose echo
/// activations have not been observed yet.
pub struct SelectionState {
    pub selected: Set<i32>,
    pub pending_activation: Option<i32>,
    pub pending_corrections: int,
}

/// The state of a freshly created list: nothing selected, nothing pending.
pub open spec fn initial_state() -> SelectionState {
    SelectionState { selected: Set::empty(), pending_activation: None, pending_corrections: 0 }
}

/// Effect of a row activation: the state afterwards, and whether the row must
/// be unselected in the widget.
///
/// While corrections are outstanding the activation is an echo of one of them
/// and only consumes it. Otherwise it is user intent: an already selected row
/// is toggled off at once, and the row is remembered as the one the next
/// selection-changed event must leave alone.
pub open spec fn activation_step(s: SelectionState, index: i32) -> (SelectionState, bool) {
    if s.pending_corrections > 0 {
        (
            SelectionState {
                selected: s.selected,
                pending_activation: s.pending_activation,
                pending_corrections: s.pending_corrections - 1,
            },
            false,
        )
    } else {
        (
            SelectionState {
                selected: s.selected.remove(index),
                pending_activation: Some(index),
                pending_corrections: s.pending_corrections,
            },
            s.selected.contains(index),
        )
    }
}

/// Rows selected before the event other than the one just activated; empty
/// when no activation is pending.
pub open spec fn rows_to_recheck(s: SelectionState) -> Set<i32> {
    match s.pending_activation {
        Some(a) => s.selected.remove(a),
        None => Set::empty(),
    }
}

/// Rows that the widget dropped although they should have stayed selected:
/// these are selected again.
pub open spec fn rows_to_restore(s: SelectionState, widget: Set<i32>) -> Set<i32> {
    rows_to_recheck(s).difference(widget)
}

/// Effect of a selection-changed event, given the set of rows the widget
/// reports as selected.
pub open spec fn change_step(s: SelectionState, widget: Set<i32>) -> SelectionState {
    let restore = rows_to_restore(s, widget);
    SelectionState {
        selected: widget.union(restore),
        pending_activation: None,
        pending_corrections: s.pending_corrections + restore.len(),
    }
}

/// The selection has settled: no correction echo is outstanding.
pub open spec fn settled(s: SelectionState) -> bool {
    s.pending_corrections == 0
}

/// An event delivered by the list widget.
pub enum SelectionEvent {
    Activated(i32),
    Changed(Set<i32>),
}

/// The state after a sequence of widget events.
pub open spec fn run_events(s: SelectionState, events: Seq<SelectionEvent>) -> SelectionState
    decreases events.len(),
{
    if events.len() == 0 {
        s
    } else {
        let next = match events[0] {
            SelectionEvent::Activated(i) => activation_step(s, i).0,
            SelectionEvent::Changed(w) => change_step(s, w),
        };
        run_events(next, events.drop_first())
    }
}

/// What a selection-changed event asks of the widget.
pub struct Reconciliation {
    /// Rows to select again, each once.
    pub reselect: Vec<i32>,
    /// No correction is outstanding: dependent output may be recomputed.
    pub settled: bool,
}

/// Toggle-style multi-select on top of a widget with exclusive-click
/// semantics.
pub struct SelectionModel {
    selected: Vec<i32>,
    pending_activation: Option<i32>,
    pending_corrections: u64,
}

impl View for SelectionModel {
    type V = SelectionState;

    closed spec fn view(&self) -> SelectionState {
        SelectionState {
            selected: self.selected@.to_set(),
            pending_activation: self.pending_activation,
            pending_corrections: self.pending_corrections as int,
        }
    }
}

/// Whether `x` occurs in `v`.
fn contains_row(v: &Vec<i32>, x: i32) -> (r: bool)
    ensures
        r == v@.contains(x),
{
    let mut i: usize = 0;
    while i < v.len()
        invariant
            0 <= i <= v.len(),
            forall|k: int| 0 <= k < i ==> v@[k] != x,
        decreases v.len() - i,
    {
        if v[i] == x {
            return true;
        }
        i += 1;
    }
    false
}

/// Membership in a sequence extended by one element.
proof fn lemma_push_contains(s: Seq<i32>, x: i32)
    ensures
        forall|y: i32| #[trigger] s.push(x).contains(y) <==> (s.contains(y) || y == x),
{
    assert forall|y: i32| #[trigger] s.push(x).contains(y) <==> (s.contains(y) || y == x) by {
        if s.contains(y) {
            let k = choose|k: int| 0 <= k < s.len() && s[k] == y;
            assert(s.push(x)[k] == y);
        }
        if y == x {
            assert(s.push(x)[s.len() as int] == y);
        }
        if s.push(x).contains(y) {
            let k = choose|k: int| 0 <= k < s.len() + 1 && s.push(x)[k] == y;
            if k < s.len() {
                assert(s[k] == y);
            }
        }
    }
}

/// Appending an element not yet present keeps a sequence free of repeats.
proof fn lemma_push_unique(s: Seq<i32>, x: i32)
    requires
        s.no_duplicates(),
        !s.contains(x),
    ensures
        s.push(x).no_duplicates(),
        forall|y: i32| #[trigger] s.push(x).contains(y) <==> (s.contains(y) || y == x),
{
    lemma_push_contains(s, x);
    assert forall|i: int, j: int| 0 <= i < s.len() + 1 && 0 <= j < s.len() + 1 && i != j implies s.push(x)[i] != s.push(x)[j] by {
        if i < s.len() && j < s.len() {
            assert(s[i] != s[j]);
        } else if i == s.len() && j < s.len() {
            assert(s[j] == s.push(x)[j]);
        } else if j == s.len() && i < s.len() {
            assert(s[i] == s.push(x)[i]);
        }
    }
}

/// The correction counter never becomes negative, whatever widget events
/// arrive and in whatever order, duplicated echoes included.
pub proof fn lemma_counter_floor(s: SelectionState, events: Seq<SelectionEvent>)
    requires
        s.pending_corrections >= 0,
    ensures
        run_events(s, events).pending_corrections >= 0,
    decreases events.len(),
{
    if events.len() > 0 {
        let next = match events[0] {
            SelectionEvent::Activated(i) => activation_step(s, i).0,
            SelectionEvent::Changed(w) => change_step(s, w),
        };
        lemma_counter_floor(next, events.drop_first());
    }
}

/// Activating an unselected row, with no correction outstanding, toggles
/// nothing off; once the widget reports the row selected (and drops at most
/// rows that were selected before), the selection is the old one plus the
/// row, and one correction is counted for each dropped row. When the widget
/// drops nothing, the selection settles at once.
pub proof fn lemma_toggle_on(s: SelectionState, r: i32, widget: Set<i32>)
    requires
        s.selected.finite(),
        s.pending_corrections == 0,
        !s.selected.contains(r),
        widget.contains(r),
        widget.subset_of(s.selected.insert(r)),
    ensures
        !activation_step(s, r).1,
        change_step(activation_step(s, r).0, widget).selected == s.selected.insert(r),
        change_step(activation_step(s, r).0, widget).pending_corrections == s.selected.difference(widget).len(),
        widget == s.selected.insert(r) ==> settled(change_step(activation_step(s, r).0, widget)),
{
    let a = activation_step(s, r).0;
    assert(a.selected.remove(r) =~= s.selected);
    assert(rows_to_restore(a, widget) =~= s.selected.difference(widget));
    assert(change_step(a, widget).selected =~= s.selected.insert(r));
    if widget == s.selected.insert(r) {
        assert(s.selected.difference(widget) =~= Set::empty());
    }
}

/// Activating a selected row, with no correction outstanding, unselects it
/// at once; once the widget reports a selection without it (and drops at most
/// rows that were selected before), the selection is the old one without the
/// row, and one correction is counted for each other dropped row. When the
/// widget drops nothing else, the selection settles at once.
pub proof fn lemma_toggle_off(s: SelectionState, r: i32, widget: Set<i32>)
    requires
        s.selected.finite(),
        s.pending_corrections == 0,
        s.selected.contains(r),
        widget.subset_of(s.selected.remove(r)),
    ensures
        activation_step(s, r).1,
        activation_step(s, r).0.selected == s.selected.remove(r),
        change_step(activation_step(s, r).0, widget).selected == s.selected.remove(r),
        change_step(activation_step(s, r).0, widget).pending_corrections == s.selected.remove(r).difference(widget).len(),
        widget == s.selected.remove(r) ==> settled(change_step(activation_step(s, r).0, widget)),
{
    let a = activation_step(s, r).0;
    assert(a.selected.remove(r) =~= s.selected.remove(r));
    assert(change_step(a, widget).selected =~= s.selected.remove(r));
    if widget == s.selected.remove(r) {
        assert(s.selected.remove(r).difference(widget) =~= Set::empty());
    }
}

/// Two activations of the same row, each confirmed by a widget that reports
/// what the machine asked for, give back the selection from before the first
/// one, and both cycles settle without corrections.
pub proof fn lemma_toggle_round_trip(s: SelectionState, r: i32)
    requires
        s.selected.finite(),
        s.pending_corrections == 0,
        !s.selected.contains(r),
    ensures
        ({
            let s1 = change_step(activation_step(s, r).0, s.selected.insert(r));
            let s2 = change_step(activation_step(s1, r).0, s.selected);
            &&& s1.selected == s.selected.insert(r)
            &&& settled(s1)
            &&& activation_step(s1, r).1
            &&& s2.selected == s.selected
            &&& settled(s2)
        }),
{
    lemma_toggle_on(s, r, s.selected.insert(r));
    let s1 = change_step(activation_step(s, r).0, s.selected.insert(r));
    assert(s1.selected.remove(r) =~= s.selected);
    lemma_toggle_off(s1, r, s.selected);
}

/// When a selection-changed event shows that the widget dropped a row that
/// was selected before, other than the row just activated, the row is
/// selected again and a correction is counted for it. Its echo activation
/// then consumes one correction, leaves the selection as it is and toggles
/// nothing off. With no correction outstanding before and no other row
/// dropped, the counter goes to one and back to zero.
pub proof fn lemma_correction_absorbed(s: SelectionState, widget: Set<i32>, r: i32)
    requires
        s.selected.finite(),
        s.pending_corrections >= 0,
        s.pending_activation is Some,
        s.pending_activation != Some(r),
        s.selected.contains(r),
        !widget.contains(r),
    ensures
        rows_to_restore(s, widget).contains(r),
        change_step(s, widget).selected.contains(r),
        change_step(s, widget).pending_corrections >= s.pending_corrections + 1,
        !activation_step(change_step(s, widget), r).1,
        activation_step(change_step(s, widget), r).0.selected == change_step(s, widget).selected,
        activation_step(change_step(s, widget), r).0.pending_corrections == change_step(s, widget).pending_corrections - 1,
        s.pending_corrections == 0 && rows_to_restore(s, widget) == set![r] ==> {
            &&& change_step(s, widget).pending_corrections == 1
            &&& activation_step(change_step(s, widget), r).0.pending_corrections == 0
        },
{
    let restore = rows_to_restore(s, widget);
    assert(restore.contains(r));
    assert(restore.subset_of(s.selected));
    vstd::set_lib::lemma_len_subset(restore, s.selected);
    assert(restore.remove(r).len() + 1 == restore.len());
    if rows_to_restore(s, widget) == set![r] {
        assert(set![r].remove(r) =~= Set::<i32>::empty());
    }
}

/// `v` without the row `x`, in the same order.
fn without_row(v: &Vec<i32>, x: i32) -> (r: Vec<i32>)
    requires
        v@.no_duplicates(),
    ensures
        r@.no_duplicates(),
        r@.to_set() == v@.to_set().remove(x),
        r.len() <= v.len(),
{
    let mut kept: Vec<i32> = Vec::new();
    let mut i: usize = 0;
    while i < v.len()
        invariant
            0 <= i <= v.len(),
            v@.no_duplicates(),
            kept@.no_duplicates(),
            kept.len() <= i,
            forall|y: i32| kept@.contains(y) <==> (v@.subrange(0, i as int).contains(y) && y != x),
        decreases v.len() - i,
    {
        let y = v[i];
        proof {
            assert(v@.subrange(0, i + 1) =~= v@.subrange(0, i as int).push(y));
            lemma_push_contains(v@.subrange(0, i as int), y);
        }
        if y != x {
            proof {
                assert(!v@.subrange(0, i as int).contains(y)) by {
                    if v@.subrange(0, i as int).contains(y) {
                        let k = choose|k: int| 0 <= k < i && v@[k] == y;
                        assert(v@[k] == v@[i as int]);
                    }
                }
                lemma_push_unique(kept@, y);
            }
            kept.push(y);
        }
        i += 1;
    }
    proof {
        assert(v@.subrange(0, v.len() as int) =~= v@);
        assert(kept@.to_set() =~= v@.to_set().remove(x));
    }
    kept
}

impl SelectionModel {
    /// The selection is held without repeated rows.
    pub closed spec fn inv(&self) -> bool {
        self.selected@.no_duplicates()
    }

    /// A model with nothing selected and nothing pending.
    pub fn new() -> (r: Self)
        ensures
            r.inv(),
            r@ == initial_state(),
    {
        let r = SelectionModel { selected: Vec::new(), pending_activation: None, pending_corrections: 0 };
        assert(r@.selected =~= Set::empty());
        r
    }

    /// The selected rows, each once.
    pub fn selected_rows(&self) -> (r: &Vec<i32>)
        requires
            self.inv(),
        ensures
            r@.no_duplicates(),
            r@.to_set() == self@.selected,
    {
        &self.selected
    }

    /// Whether row `index` is selected.
    pub fn is_selected(&self, index: i32) -> (r: bool)
        ensures
            r == self@.selected.contains(index),
    {
        contains_row(&self.selected, index)
    }

    /// Number of selected rows.
    pub fn selected_count(&self) -> (r: usize)
        requires
            self.inv(),
        ensures
            r == self@.selected.len(),
    {
        proof {
            self.selected@.unique_seq_to_set();
        }
        self.selected.len()
    }

    /// The row of the genuine activation awaiting its selection-changed event.
    pub fn pending_activation(&self) -> (r: Option<i32>)
        ensures
            r == self@.pending_activation,
    {
        self.pending_activation
    }

    /// Number of corrections whose echo has not been observed yet.
    pub fn pending_corrections(&self) -> (r: u64)
        ensures
            r == self@.pending_corrections,
    {
        self.pending_corrections
    }

    /// Whether the counter can take one correction for every selected row,
    /// which a selection-changed event may ask for.
    pub fn can_reconcile(&self) -> (r: bool)
        requires
            self.inv(),
        ensures
            r == (self@.pending_corrections + self@.selected.len() <= u64::MAX),
    {
        proof {
            self.selected@.unique_seq_to_set();
        }
        self.selected.len() as u64 <= u64::MAX - self.pending_corrections
    }

    /// Handles the widget's activation of row `index`; returns whether the
    /// row must now be unselected in the widget.
    pub fn on_activation(&mut self, index: i32) -> (unselect: bool)
        requires
            old(self).inv(),
        ensures
            final(self).inv(),
            (final(self)@, unselect) == activation_step(old(self)@, index),
    {
        if self.pending_corrections > 0 {
            self.pending_corrections = self.pending_corrections - 1;
            return false;
        }
        let was_selected = contains_row(&self.selected, index);
        self.selected = without_row(&self.selected, index);
        self.pending_activation = Some(index);
        was_selected
    }

    /// Handles a selection-changed event; `widget_rows` is the set of rows
    /// the widget now reports as selected. Returns the rows to select again
    /// and whether the selection has settled.
    pub fn on_selection_changed(&mut self, widget_rows: &Vec<i32>) -> (r: Reconciliation)
        requires
            old(self).inv(),
            old(self)@.pending_corrections + old(self)@.selected.len() <= u64::MAX,
        ensures
            final(self).inv(),
            final(self)@ == change_step(old(self)@, widget_rows@.to_set()),
            r.reselect@.no_duplicates(),
            r.reselect@.to_set() == rows_to_restore(old(self)@, widget_rows@.to_set()),
            r.settled == settled(final(self)@),
    {
        let ghost s0 = self@;
        let ghost before = self.selected@;
        proof {
            before.unique_seq_to_set();
        }
        let ghost widget = widget_rows@.to_set();
        let recheck: Vec<i32> = match self.pending_activation {
            Some(a) => without_row(&self.selected, a),
            None => Vec::new(),
        };
        proof {
            assert(recheck@.to_set() =~= rows_to_recheck(s0));
        }
        self.pending_activation = None;

        // Take over the widget's selection, each row once.
        let mut now: Vec<i32> = Vec::new();
        let mut j: usize = 0;
        while j < widget_rows.len()
            invariant
                0 <= j <= widget_rows.len(),
                now@.no_duplicates(),
                forall|y: i32| now@.contains(y) <==> widget_rows@.subrange(0, j as int).contains(y),
            decreases widget_rows.len() - j,
        {
            let x = widget_rows[j];
            proof {
                assert(widget_rows@.subrange(0, j + 1) =~= widget_rows@.subrange(0, j as int).push(x));
                lemma_push_contains(widget_rows@.subrange(0, j as int), x);
            }
            if !contains_row(&now, x) {
                proof {
                    lemma_push_unique(now@, x);
                }
                now.push(x);
            }
            j += 1;
        }
        proof {
            assert(widget_rows@.subrange(0, widget_rows.len() as int) =~= widget_rows@);
        }

        // Select again what the widget dropped.
        let mut reselect: Vec<i32> = Vec::new();
        let mut k: usize = 0;
        while k < recheck.len()
            invariant
                0 <= k <= recheck.len(),
                recheck@.no_duplicates(),
                recheck@.to_set() == rows_to_recheck(s0),
                widget == widget_rows@.to_set(),
                self.pending_activation == None::<i32>,
                recheck.len() <= before.len(),
                now@.no_duplicates(),
                reselect@.no_duplicates(),
                reselect.len() <= k,
                self.pending_corrections as int == s0.pending_corrections + reselect.len(),
                s0.pending_corrections + before.len() <= u64::MAX,
                forall|y: i32| #[trigger] reselect@.contains(y) <==> (recheck@.subrange(0, k as int).contains(y) && !widget.contains(y)),
                forall|y: i32| #[trigger] now@.contains(y) <==> (widget.contains(y) || reselect@.contains(y)),
            decreases recheck.len() - k,
        {
            let x = recheck[k];
            proof {
                assert(recheck@.subrange(0, k + 1) =~= recheck@.subrange(0, k as int).push(x));
                assert(!recheck@.subrange(0, k as int).contains(x)) by {
                    if recheck@.subrange(0, k as int).contains(x) {
                        let m = choose|m: int| 0 <= m < k && recheck@[m] == x;
                        assert(recheck@[m] == recheck@[k as int]);
                    }
                }
                lemma_push_contains(recheck@.subrange(0, k as int), x);
            }
            let ghost prev = reselect@;
            if !contains_row(widget_rows, x) {
                proof {
                    assert(!widget.contains(x));
                    lemma_push_unique(now@, x);
                    lemma_push_unique(reselect@, x);
                }
                now.push(x);
                reselect.push(x);
                self.pending_corrections = self.pending_corrections + 1;
            } else {
                proof {
                    assert(widget.contains(x));
                }
            }
            proof {
                assert forall|y: i32| #[trigger] reselect@.contains(y) <==> (recheck@.subrange(0, k + 1).contains(y) && !widget.contains(y)) by {
                    if y == x {
                        assert(recheck@.subrange(0, k + 1).contains(y));
                    } else {
                        assert(reselect@.contains(y) <==> prev.contains(y));
                        assert(prev.contains(y) <==> (recheck@.subrange(0, k as int).contains(y) && !widget.contains(y)));
                        assert(recheck@.subrange(0, k + 1).contains(y) <==> recheck@.subrange(0, k as int).contains(y));
                    }
                }
            }
            k += 1;
        }
        proof {
            assert(recheck@.subrange(0, recheck.len() as int) =~= recheck@);
            assert(forall|y: i32| recheck@.contains(y) <==> #[trigger] rows_to_recheck(s0).contains(y));
            assert(reselect@.to_set() =~= rows_to_restore(s0, widget));
            reselect@.unique_seq_to_set();
            assert(now@.to_set() =~= widget.union(rows_to_restore(s0, widget)));
        }
        self.selected = now;
        let settled = self.pending_corrections == 0;
        Reconciliation { reselect, settled }
    }
}

} // verus!
