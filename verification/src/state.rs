//! A container for the current generation, advanced by dispatched actions.

use vstd::prelude::*;

use crate::cell::{all_wf, cell_views, Cell};
use crate::game::{positions_of, run_generation};
use crate::position::{pos_views, Position};
use crate::rules::{all_deep_interior, next_gen};

verus! {

/// What a caller can ask of the state.
pub enum Action {
    Update,
}

/// The current generation's cells.
pub struct State {
    cells: Vec<Cell>,
}

impl View for State {
    type V = Seq<(int, int)>;

    closed spec fn view(&self) -> Seq<(int, int)> {
        cell_views(self.cells@)
    }
}

impl State {
    /// The held cells are well formed and list no position twice.
    pub closed spec fn wf(&self) -> bool {
        all_wf(self.cells@) && cell_views(self.cells@).no_duplicates()
    }

    pub fn new(cells: Vec<Cell>) -> (s: State)
        requires
            all_wf(cells@),
            cell_views(cells@).no_duplicates(),
        ensures
            s.wf(),
            s@ == cell_views(cells@),
    {
        State { cells }
    }

    /// The positions of the held cells, in order.
    pub fn positions(&self) -> (r: Vec<Position>)
        ensures
            pos_views(r@) == self@,
    {
        positions_of(&self.cells)
    }

    /// Dispatch an action: `Update` replaces the held generation with
    /// exactly the next one.
    pub fn reduce(self, action: Action) -> (s: State)
        requires
            self.wf(),
            all_deep_interior(self@),
        ensures
            s.wf(),
            match action {
                Action::Update => s@.to_set() == next_gen(self@.to_set()),
            },
    {
        match action {
            Action::Update => {
                let new_cells = run_generation(&self.cells);
                State { cells: new_cells }
            },
        }
    }
}

} // verus!
