//! The game: the current state with its undo and redo stacks, and the
//! decisions taken on each input event.
use vstd::prelude::*;

use super::moves::{move_allowed, moved_to, push_cell, step_cell, unit_step};
use crate::grid::first_at;
use super::{GameState, GameStateView};
use crate::input::InputEvent;
use crate::rendering::FrontEnd;

verus! {

/// The current state and the two stacks of snapshots, most recent last.
pub struct HistoryView {
    pub current: GameStateView,
    pub past: Seq<GameStateView>,
    pub future: Seq<GameStateView>,
}

/// A game that has just started on `s`.
pub open spec fn fresh(s: GameStateView) -> HistoryView {
    HistoryView { current: s, past: Seq::empty(), future: Seq::empty() }
}

/// An accepted move to `next`: the current state goes onto `past` and
/// `future` is dropped.
pub open spec fn record_view(h: HistoryView, next: GameStateView) -> HistoryView {
    HistoryView { current: next, past: h.past.push(h.current), future: Seq::empty() }
}

/// Undo: back to the top of `past`, the current state onto `future`.
pub open spec fn undo_view(h: HistoryView) -> HistoryView {
    if h.past.len() > 0 {
        HistoryView { current: h.past.last(), past: h.past.drop_last(), future: h.future.push(h.current) }
    } else {
        h
    }
}

/// Redo: forward to the top of `future`, the current state onto `past`.
pub open spec fn redo_view(h: HistoryView) -> HistoryView {
    if h.future.len() > 0 {
        HistoryView { current: h.future.last(), past: h.past.push(h.current), future: h.future.drop_last() }
    } else {
        h
    }
}

/// Restart: back to the oldest snapshot, both stacks emptied.
pub open spec fn restart_view(h: HistoryView) -> HistoryView {
    if h.past.len() > 0 {
        fresh(h.past[0])
    } else {
        h
    }
}

/// What a move event by `(dr, dc)` makes of `h`: `h2` when the move is
/// accepted records the old state and holds the moved one; else nothing
/// changes.
pub open spec fn move_effect(h: HistoryView, dr: int, dc: int, h2: HistoryView) -> bool {
    if move_allowed(h.current, dr, dc) {
        &&& moved_to(h.current, dr, dc, h2.current)
        &&& h2.past == h.past.push(h.current)
        &&& h2.future == Seq::<GameStateView>::empty()
    } else {
        h2 == h
    }
}

/// The step of a move event, `None` for the others.
pub open spec fn event_offset(e: InputEvent) -> Option<(int, int)> {
    match e {
        InputEvent::MoveUp => Some((-1, 0)),
        InputEvent::MoveDown => Some((1, 0)),
        InputEvent::MoveLeft => Some((0, -1)),
        InputEvent::MoveRight => Some((0, 1)),
        _ => None,
    }
}

/// What acting on `e` makes of `h`.
pub open spec fn event_effect(h: HistoryView, e: InputEvent, h2: HistoryView) -> bool {
    match e {
        InputEvent::Undo => h2 == undo_view(h),
        InputEvent::Redo => h2 == redo_view(h),
        InputEvent::Restart => h2 == restart_view(h),
        InputEvent::Quit => h2 == h,
        _ => move_effect(h, event_offset(e).unwrap().0, event_offset(e).unwrap().1, h2),
    }
}

/// Every state of the history is a well-formed level.
pub open spec fn history_wf(h: HistoryView) -> bool {
    &&& h.current.wf()
    &&& forall|k: int| 0 <= k < h.past.len() ==> (#[trigger] h.past[k]).wf()
    &&& forall|k: int| 0 <= k < h.future.len() ==> (#[trigger] h.future[k]).wf()
}

/// A game that started on `s0` and then took the moves to each state of
/// `steps` in turn.
pub open spec fn after_moves(s0: GameStateView, steps: Seq<GameStateView>) -> HistoryView
    decreases steps.len(),
{
    if steps.len() == 0 {
        fresh(s0)
    } else {
        record_view(after_moves(s0, steps.drop_last()), steps.last())
    }
}

/// An undo at once followed by a redo gives back the history as it was,
/// whenever there was something to undo.
pub proof fn lemma_undo_then_redo(h: HistoryView)
    requires
        h.past.len() > 0,
    ensures
        redo_view(undo_view(h)) == h,
{
    assert(h.past.drop_last().push(h.past.last()) =~= h.past);
    assert(h.future.push(h.current).drop_last() =~= h.future);
}

proof fn lemma_after_moves_past(s0: GameStateView, steps: Seq<GameStateView>)
    ensures
        after_moves(s0, steps).past.len() == steps.len(),
        steps.len() > 0 ==> after_moves(s0, steps).past[0] == s0,
    decreases steps.len(),
{
    if steps.len() > 0 {
        lemma_after_moves_past(s0, steps.drop_last());
        if steps.len() == 1 {
            assert(after_moves(s0, steps.drop_last()) == fresh(s0));
        }
    }
}

/// However many moves were made since the start, a restart gives back the
/// starting state with both stacks empty.
pub proof fn lemma_restart_after_moves(s0: GameStateView, steps: Seq<GameStateView>)
    ensures
        restart_view(after_moves(s0, steps)) == fresh(s0),
{
    lemma_after_moves_past(s0, steps);
}

/// A run that began on `s0`: `hs[0]` is the fresh game and each next
/// history is what acting on `es[i]` makes of the one before.
pub open spec fn is_run(s0: GameStateView, hs: Seq<HistoryView>, es: Seq<InputEvent>) -> bool {
    &&& hs.len() == es.len() + 1
    &&& hs[0] == fresh(s0)
    &&& forall|i: int| 0 <= i < es.len() ==> #[trigger] event_effect(hs[i], es[i], hs[i + 1])
}

/// The history goes back to `s0`: the current state when nothing is on
/// the undo stack, else the oldest state on it.
pub open spec fn rooted_at(h: HistoryView, s0: GameStateView) -> bool {
    if h.past.len() == 0 {
        h.current == s0
    } else {
        h.past[0] == s0
    }
}

proof fn lemma_rooted_kept(h: HistoryView, e: InputEvent, h2: HistoryView, s0: GameStateView)
    requires
        rooted_at(h, s0),
        event_effect(h, e, h2),
    ensures
        rooted_at(h2, s0),
{
    if h.past.len() > 0 {
        assert(h.past.push(h.current)[0] == h.past[0]);
        if h.past.len() > 1 {
            assert(h.past.drop_last()[0] == h.past[0]);
        }
    }
}

proof fn lemma_run_rooted(s0: GameStateView, hs: Seq<HistoryView>, es: Seq<InputEvent>, i: int)
    requires
        is_run(s0, hs, es),
        0 <= i < hs.len(),
    ensures
        rooted_at(hs[i], s0),
    decreases i,
{
    if i > 0 {
        lemma_run_rooted(s0, hs, es, i - 1);
        let j = i - 1;
        assert(event_effect(hs[j], es[j], hs[j + 1]));
        lemma_rooted_kept(hs[j], es[j], hs[j + 1], s0);
    }
}

/// Whatever events a game that began on `s0` has taken, a restart while
/// the undo stack holds anything gives back `s0` with both stacks empty.
pub proof fn lemma_restart_in_any_run(s0: GameStateView, hs: Seq<HistoryView>, es: Seq<InputEvent>, i: int)
    requires
        is_run(s0, hs, es),
        0 <= i < hs.len(),
        hs[i].past.len() > 0,
    ensures
        restart_view(hs[i]) == fresh(s0),
{
    lemma_run_rooted(s0, hs, es, i);
}

/// Every state of the history has its boxes on distinct cells.
pub open spec fn boxes_distinct(h: HistoryView) -> bool {
    &&& h.current.boxes.no_duplicates()
    &&& forall|k: int| 0 <= k < h.past.len() ==> (#[trigger] h.past[k]).boxes.no_duplicates()
    &&& forall|k: int| 0 <= k < h.future.len() ==> (#[trigger] h.future[k]).boxes.no_duplicates()
}

proof fn lemma_distinct_kept(h: HistoryView, e: InputEvent, h2: HistoryView)
    requires
        boxes_distinct(h),
        event_effect(h, e, h2),
    ensures
        boxes_distinct(h2),
{
    match e {
        InputEvent::Undo | InputEvent::Redo | InputEvent::Restart | InputEvent::Quit => {
            if h.past.len() > 0 {
                assert(h.past[0].boxes.no_duplicates());
                assert(h.past[h.past.len() - 1].boxes.no_duplicates());
            }
            if h.future.len() > 0 {
                assert(h.future[h.future.len() - 1].boxes.no_duplicates());
            }
            assert forall|k: int| 0 <= k < h2.past.len() implies (#[trigger] h2.past[k]).boxes.no_duplicates() by {
                if k < h.past.len() {
                    assert(h.past[k].boxes.no_duplicates());
                }
            }
            assert forall|k: int| 0 <= k < h2.future.len() implies (#[trigger] h2.future[k]).boxes.no_duplicates() by {
                if k < h.future.len() {
                    assert(h.future[k].boxes.no_duplicates());
                }
            }
        },
        _ => {
            let (dr, dc) = event_offset(e).unwrap();
            if move_allowed(h.current, dr, dc) {
                let v = h.current;
                let p = step_cell(v, dr, dc);
                let q = push_cell(v, dr, dc);
                if v.boxes.contains(p) {
                    let i = choose|i: int| first_at(v.boxes, p, i) && h2.current.boxes == v.boxes.update(i, q);
                    let nb = h2.current.boxes;
                    assert forall|a: int, b: int| 0 <= a < nb.len() && 0 <= b < nb.len() && a != b implies nb[a] != nb[b] by {
                        if a == i {
                            assert(v.boxes.contains(v.boxes[b]));
                        } else if b == i {
                            assert(v.boxes.contains(v.boxes[a]));
                        }
                    }
                }
                assert forall|k: int| 0 <= k < h2.past.len() implies (#[trigger] h2.past[k]).boxes.no_duplicates() by {
                    if k < h.past.len() {
                        assert(h.past[k].boxes.no_duplicates());
                    }
                }
            }
        },
    }
}

/// In a game that began with its boxes on distinct cells, no run of
/// events ever gives a state, current or stacked, with two boxes on one
/// cell.
pub proof fn lemma_boxes_distinct_in_any_run(s0: GameStateView, hs: Seq<HistoryView>, es: Seq<InputEvent>, i: int)
    requires
        is_run(s0, hs, es),
        s0.boxes.no_duplicates(),
        0 <= i < hs.len(),
    ensures
        boxes_distinct(hs[i]),
    decreases i,
{
    if i > 0 {
        lemma_boxes_distinct_in_any_run(s0, hs, es, i - 1);
        let j = i - 1;
        assert(event_effect(hs[j], es[j], hs[j + 1]));
        lemma_distinct_kept(hs[j], es[j], hs[j + 1]);
    }
}

/// A game: the state on screen, the front end that shows it, and the
/// snapshots for undo and redo.
pub struct Game<F: FrontEnd> {
    pub state: GameState,
    pub front_end: F,
    prev_states: Vec<GameState>,
    after_states: Vec<GameState>,
}

impl<F: FrontEnd> Game<F> {
    /// The state and both stacks, as values.
    pub closed spec fn history(&self) -> HistoryView {
        HistoryView {
            current: self.state@,
            past: self.prev_states@.map_values(|s: GameState| s@),
            future: self.after_states@.map_values(|s: GameState| s@),
        }
    }

    pub open spec fn wf(&self) -> bool {
        history_wf(self.history())
    }

    /// A game on `state` with empty history and a front end of its kind's
    /// default.
    pub fn new(state: GameState) -> (r: Self)
        requires
            state@.wf(),
        ensures
            r.history() == fresh(state@),
            r.wf(),
    {
        let r = Game { state, front_end: F::default(), prev_states: Vec::new(), after_states: Vec::new() };
        assert(r.history().past =~= Seq::<GameStateView>::empty());
        assert(r.history().future =~= Seq::<GameStateView>::empty());
        r
    }

    /// Goes back one state, if there is one to go back to.
    pub fn undo(&mut self)
        requires
            old(self).wf(),
        ensures
            final(self).history() == undo_view(old(self).history()),
            final(self).wf(),
    {
        let ghost h = self.history();
        if let Some(last) = self.prev_states.pop() {
            let cur = self.state.snapshot();
            self.after_states.push(cur);
            self.state = last;
            assert(self.history().past =~= h.past.drop_last());
            assert(self.history().future =~= h.future.push(h.current));
        }
    }

    /// Goes forward one undone state, if there is one.
    pub fn redo(&mut self)
        requires
            old(self).wf(),
        ensures
            final(self).history() == redo_view(old(self).history()),
            final(self).wf(),
    {
        let ghost h = self.history();
        if let Some(next) = self.after_states.pop() {
            let cur = self.state.snapshot();
            self.prev_states.push(cur);
            self.state = next;
            assert(self.history().future =~= h.future.drop_last());
            assert(self.history().past =~= h.past.push(h.current));
        }
    }

    /// Goes back to the oldest state and forgets both stacks, if any move
    /// was made.
    pub fn restart(&mut self)
        requires
            old(self).wf(),
        ensures
            final(self).history() == restart_view(old(self).history()),
            final(self).wf(),
    {
        let ghost h = self.history();
        if self.prev_states.len() > 0 {
            self.state = self.prev_states[0].snapshot();
            self.prev_states.clear();
            self.after_states.clear();
            assert(self.history().past =~= Seq::<GameStateView>::empty());
            assert(self.history().future =~= Seq::<GameStateView>::empty());
        }
    }

    /// Tries a move by `(dr, dc)`; when accepted, the old state goes onto
    /// the undo stack and the redo stack is emptied.
    pub fn apply_move(&mut self, dr: i32, dc: i32)
        requires
            old(self).wf(),
            unit_step(dr as int, dc as int),
        ensures
            move_effect(old(self).history(), dr as int, dc as int, final(self).history()),
            final(self).wf(),
            old(self).history().current.boxes.no_duplicates() ==> final(self).history().current.boxes.no_duplicates(),
            old(self).history().current.route_fits() ==> final(self).history().current.route_fits(),
    {
        let ghost h = self.history();
        if let Some(next) = self.state.resolve_move(dr, dc) {
            let cur = self.state.snapshot();
            self.prev_states.push(cur);
            self.after_states.clear();
            self.state = next;
            assert(self.history().past =~= h.past.push(h.current));
            assert(self.history().future =~= Seq::<GameStateView>::empty());
        }
    }

    /// Acts on one event; `false` when the event asks to quit.
    pub fn handle_event(&mut self, event: InputEvent) -> (go_on: bool)
        requires
            old(self).wf(),
        ensures
            go_on == (event != InputEvent::Quit),
            final(self).wf(),
            event_effect(old(self).history(), event, final(self).history()),
    {
        match event {
            InputEvent::MoveUp => self.apply_move(-1, 0),
            InputEvent::MoveDown => self.apply_move(1, 0),
            InputEvent::MoveLeft => self.apply_move(0, -1),
            InputEvent::MoveRight => self.apply_move(0, 1),
            InputEvent::Undo => self.undo(),
            InputEvent::Redo => self.redo(),
            InputEvent::Restart => self.restart(),
            InputEvent::Quit => {
                return false;
            },
        }
        true
    }

    /// One turn of the game: draw the state, poll the front end for an
    /// event and act on it. `false` when the player quits.
    pub fn step(&mut self) -> (go_on: bool)
        requires
            old(self).wf(),
        ensures
            final(self).wf(),
            final(self).history() == old(self).history()
                || exists|e: InputEvent| #[trigger] event_effect(old(self).history(), e, final(self).history()),
            !go_on ==> final(self).history() == old(self).history(),
    {
        self.front_end.render(&self.state);
        match self.front_end.get_input() {
            Some(event) => self.handle_event(event),
            None => true,
        }
    }
}

} // verus!
