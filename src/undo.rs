use vstd::prelude::*;
use crate::acyclic::relinked;
use crate::cell::{CellReference, Expr, Spreadsheet, Status};
use crate::engine::{closes_cycle, copy_refs, install_formula, installed, same_cells};
use crate::expr::{check_in_bounds, copy_expr, expr_in_bounds};
use crate::engine::{all_downstream_consistent, consistent};
use crate::graph::{acyclic, downstream, edge, sheet_wf};

verus! {

/// Largest number of records each history keeps.
pub const MAX_UNDO: usize = 17;

/// What a cell held before a change: enough to put it back.
pub struct CellState {
    pub row: i32,
    pub column: i32,
    pub formula: Expr,
    pub is_error: bool,
    pub precedents: Vec<CellReference>,
}

/// Two bounded histories of cell states: changes that can be undone, and
/// undone changes that can be redone. When a history is full its oldest
/// record is dropped.
pub struct UndoRedoStack {
    pub undo_stack: Vec<CellState>,
    pub redo_stack: Vec<CellState>,
}

/// `v` with `x` pushed on top, its oldest record dropped beyond `MAX_UNDO`.
pub open spec fn pushed_bounded(v: Seq<CellState>, x: CellState) -> Seq<CellState> {
    if v.len() + 1 > MAX_UNDO {
        v.push(x).drop_first()
    } else {
        v.push(x)
    }
}

impl UndoRedoStack {
    pub open spec fn wf(&self) -> bool {
        self.undo_stack@.len() <= MAX_UNDO && self.redo_stack@.len() <= MAX_UNDO
    }

    /// Empty histories.
    pub fn new() -> (r: Self)
        ensures
            r.undo_stack@.len() == 0,
            r.redo_stack@.len() == 0,
            r.wf(),
    {
        UndoRedoStack { undo_stack: Vec::new(), redo_stack: Vec::new() }
    }

    /// Records a state that can be undone.
    pub fn push_state(&mut self, state: CellState)
        requires
            old(self).wf(),
        ensures
            final(self).wf(),
            final(self).undo_stack@ == pushed_bounded(old(self).undo_stack@, state),
            final(self).redo_stack@ == old(self).redo_stack@,
    {
        self.undo_stack.push(state);
        if self.undo_stack.len() > MAX_UNDO {
            self.undo_stack.remove(0);
        }
    }

    pub fn can_undo(&self) -> (r: bool)
        ensures
            r == (self.undo_stack@.len() > 0),
    {
        self.undo_stack.len() > 0
    }

    pub fn can_redo(&self) -> (r: bool)
        ensures
            r == (self.redo_stack@.len() > 0),
    {
        self.redo_stack.len() > 0
    }

    /// Takes the latest undoable state.
    pub fn pop_undo(&mut self) -> (r: Option<CellState>)
        requires
            old(self).wf(),
        ensures
            final(self).wf(),
            final(self).redo_stack@ == old(self).redo_stack@,
            old(self).undo_stack@.len() == 0 ==> r.is_none() && final(self).undo_stack@ == old(self).undo_stack@,
            old(self).undo_stack@.len() > 0 ==> r == Some(old(self).undo_stack@.last())
                && final(self).undo_stack@ == old(self).undo_stack@.drop_last(),
    {
        self.undo_stack.pop()
    }

    /// Records a state that can be redone.
    pub fn push_redo(&mut self, state: CellState)
        requires
            old(self).wf(),
        ensures
            final(self).wf(),
            final(self).redo_stack@ == pushed_bounded(old(self).redo_stack@, state),
            final(self).undo_stack@ == old(self).undo_stack@,
    {
        self.redo_stack.push(state);
        if self.redo_stack.len() > MAX_UNDO {
            self.redo_stack.remove(0);
        }
    }

    /// Takes the latest redoable state.
    pub fn pop_redo(&mut self) -> (r: Option<CellState>)
        requires
            old(self).wf(),
        ensures
            final(self).wf(),
            final(self).undo_stack@ == old(self).undo_stack@,
            old(self).redo_stack@.len() == 0 ==> r.is_none() && final(self).redo_stack@ == old(self).redo_stack@,
            old(self).redo_stack@.len() > 0 ==> r == Some(old(self).redo_stack@.last())
                && final(self).redo_stack@ == old(self).redo_stack@.drop_last(),
    {
        self.redo_stack.pop()
    }
}


/// A history record that names a cell of the grid and a formula over it.
pub open spec fn record_fits(s: Spreadsheet, state: CellState) -> bool {
    &&& s.in_bounds(CellReference { row: state.row, column: state.column })
    &&& expr_in_bounds(state.formula, s.rows, s.columns)
}

/// Puts the formula of `state` back into its cell, relinks the cell and
/// recomputes it and what lies downstream. Returns the status and the
/// formula that left the cell: the cell's former one, or the record's own
/// when the record does not fit the grid (`InvalidInput`) or would close a
/// cycle (`CyclicDependency`; nothing changes then).
pub fn restore_cell_state(sheet: &mut Spreadsheet, state: CellState) -> (r: (Status, Expr))
    requires
        sheet_wf(*old(sheet)),
        acyclic(*old(sheet)),
    ensures
        sheet_wf(*final(sheet)),
        acyclic(*final(sheet)),
        final(sheet).rows == old(sheet).rows,
        final(sheet).columns == old(sheet).columns,
        (r.0 == Status::InvalidInput) == !record_fits(*old(sheet), state),
        r.0 == Status::InvalidInput ==> *final(sheet) == *old(sheet) && r.1 == state.formula,
        record_fits(*old(sheet), state) ==> {
            let t = CellReference { row: state.row, column: state.column };
            &&& (r.0 == Status::CyclicDependency) == closes_cycle(*old(sheet), t, state.formula)
            &&& r.0 == Status::CyclicDependency ==> same_cells(*old(sheet), *final(sheet)) && r.1 == state.formula
            &&& r.0 != Status::CyclicDependency ==> installed(*old(sheet), *final(sheet), t, state.formula, r.0)
                && r.1 == old(sheet).cell(t).formula
            &&& forall|x: CellReference| old(sheet).in_bounds(x) && x != t
                ==> #[trigger] final(sheet).cell(x).formula == old(sheet).cell(x).formula
        },
{
    let row = state.row;
    let column = state.column;
    if row < 0 || row >= sheet.rows || column < 0 || column >= sheet.columns
        || !check_in_bounds(&state.formula, sheet.rows, sheet.columns) {
        return (Status::InvalidInput, state.formula);
    }
    install_formula(sheet, row, column, state.formula)
}

/// The effect of an undo or a redo that went through: the record `rec` was
/// taken from the top of one history, its formula now stands in its cell,
/// and a record of what the cell held went on top of the other history.
pub open spec fn replayed(
    s0: Spreadsheet,
    s1: Spreadsheet,
    rec: CellState,
    pushed: CellState,
    status: Status,
) -> bool {
    let t = CellReference { row: rec.row, column: rec.column };
    &&& record_fits(s0, rec)
    &&& status != Status::CyclicDependency
    &&& installed(s0, s1, t, rec.formula, status)
    &&& forall|x: CellReference| s0.in_bounds(x) && x != t ==> #[trigger] s1.cell(x).formula == s0.cell(x).formula
    &&& pushed.row == rec.row
    &&& pushed.column == rec.column
    &&& pushed.formula == s0.cell(t).formula
    &&& pushed.is_error == s0.cell(t).is_error
    &&& pushed.precedents@ == s0.cell(t).precedents@
}

/// When restoring the record `top` is refused: `InvalidInput` exactly when
/// it does not fit the grid, `CyclicDependency` exactly when its formula
/// would close a cycle through its cell.
pub open spec fn refusal_rules(s: Spreadsheet, top: CellState, r: Option<Status>) -> bool {
    let t = CellReference { row: top.row, column: top.column };
    &&& (r == Some(Status::InvalidInput)) == !record_fits(s, top)
    &&& (r == Some(Status::CyclicDependency)) == (record_fits(s, top) && closes_cycle(s, t, top.formula))
    &&& r is Some
}

/// Takes the latest record off `from`, restores it, and on success puts a
/// record of what the cell held on `to`. A record that does not fit or
/// would close a cycle goes back on `from`.
fn replay(sheet: &mut Spreadsheet, from: &mut Vec<CellState>, to: &mut Vec<CellState>) -> (r: Option<Status>)
    requires
        sheet_wf(*old(sheet)),
        acyclic(*old(sheet)),
        old(from)@.len() <= MAX_UNDO,
        old(to)@.len() <= MAX_UNDO,
    ensures
        sheet_wf(*final(sheet)),
        acyclic(*final(sheet)),
        final(sheet).rows == old(sheet).rows,
        final(sheet).columns == old(sheet).columns,
        final(from)@.len() <= MAX_UNDO,
        final(to)@.len() <= MAX_UNDO,
        r.is_none() == (old(from)@.len() == 0),
        r.is_none() ==> *final(sheet) == *old(sheet) && final(from)@ == old(from)@ && final(to)@ == old(to)@,
        old(from)@.len() > 0 ==> refusal_rules(*old(sheet), old(from)@.last(), r),
        r == Some(Status::InvalidInput) || r == Some(Status::CyclicDependency) ==> {
            &&& same_cells(*old(sheet), *final(sheet))
            &&& final(to)@ == old(to)@
            &&& final(from)@ == old(from)@
        },
        r == Some(Status::Success) || r == Some(Status::ComputationError) ==> {
            &&& final(from)@ == old(from)@.drop_last()
            &&& final(to)@ == pushed_bounded(old(to)@, final(to)@.last())
            &&& replayed(*old(sheet), *final(sheet), old(from)@.last(), final(to)@.last(), r->Some_0)
        },
{
    let popped = from.pop();
    match popped {
        None => None,
        Some(state) => {
            let row = state.row;
            let column = state.column;
            let is_error = state.is_error;
            let precedents = state.precedents;
            let fits = 0 <= row && row < sheet.rows && 0 <= column && column < sheet.columns;
            let (cur_precs, cur_error) = if fits {
                (copy_refs(&sheet.all_cells[row as usize][column as usize].precedents),
                 sheet.all_cells[row as usize][column as usize].is_error)
            } else {
                (Vec::new(), false)
            };
            let ghost rec = state;
            let (status, other) = restore_cell_state(sheet, CellState { row, column, formula: state.formula, is_error, precedents: Vec::new() });
            if status == Status::InvalidInput || status == Status::CyclicDependency {
                proof {
                    if status == Status::InvalidInput {
                        assert(same_cells(*old(sheet), *sheet));
                    }
                }
                from.push(CellState { row, column, formula: other, is_error, precedents });
                assert(from@ =~= old(from)@);
                return Some(status);
            }
            let record = CellState { row, column, formula: other, is_error: cur_error, precedents: cur_precs };
            to.push(record);
            if to.len() > MAX_UNDO {
                to.remove(0);
            }
            Some(status)
        },
    }
}

/// Undoes the latest recorded change. `None` when there is nothing to undo.
pub fn perform_undo(sheet: &mut Spreadsheet, undo_manager: &mut UndoRedoStack) -> (r: Option<Status>)
    requires
        sheet_wf(*old(sheet)),
        acyclic(*old(sheet)),
        old(undo_manager).wf(),
    ensures
        sheet_wf(*final(sheet)),
        acyclic(*final(sheet)),
        final(undo_manager).wf(),
        final(sheet).rows == old(sheet).rows,
        final(sheet).columns == old(sheet).columns,
        r.is_none() == (old(undo_manager).undo_stack@.len() == 0),
        r.is_none() ==> *final(sheet) == *old(sheet) && final(undo_manager).undo_stack@ == old(undo_manager).undo_stack@
            && final(undo_manager).redo_stack@ == old(undo_manager).redo_stack@,
        old(undo_manager).undo_stack@.len() > 0 ==> refusal_rules(*old(sheet), old(undo_manager).undo_stack@.last(), r),
        r == Some(Status::InvalidInput) || r == Some(Status::CyclicDependency) ==> same_cells(*old(sheet), *final(sheet))
            && final(undo_manager).undo_stack@ == old(undo_manager).undo_stack@
            && final(undo_manager).redo_stack@ == old(undo_manager).redo_stack@,
        r == Some(Status::Success) || r == Some(Status::ComputationError) ==> {
            &&& final(undo_manager).undo_stack@ == old(undo_manager).undo_stack@.drop_last()
            &&& final(undo_manager).redo_stack@ == pushed_bounded(old(undo_manager).redo_stack@, final(undo_manager).redo_stack@.last())
            &&& replayed(*old(sheet), *final(sheet), old(undo_manager).undo_stack@.last(), final(undo_manager).redo_stack@.last(), r->Some_0)
        },
{
    replay(sheet, &mut undo_manager.undo_stack, &mut undo_manager.redo_stack)
}

/// Redoes the latest undone change. `None` when there is nothing to redo.
pub fn perform_redo(sheet: &mut Spreadsheet, undo_manager: &mut UndoRedoStack) -> (r: Option<Status>)
    requires
        sheet_wf(*old(sheet)),
        acyclic(*old(sheet)),
        old(undo_manager).wf(),
    ensures
        sheet_wf(*final(sheet)),
        acyclic(*final(sheet)),
        final(undo_manager).wf(),
        final(sheet).rows == old(sheet).rows,
        final(sheet).columns == old(sheet).columns,
        r.is_none() == (old(undo_manager).redo_stack@.len() == 0),
        r.is_none() ==> *final(sheet) == *old(sheet) && final(undo_manager).undo_stack@ == old(undo_manager).undo_stack@
            && final(undo_manager).redo_stack@ == old(undo_manager).redo_stack@,
        old(undo_manager).redo_stack@.len() > 0 ==> refusal_rules(*old(sheet), old(undo_manager).redo_stack@.last(), r),
        r == Some(Status::InvalidInput) || r == Some(Status::CyclicDependency) ==> same_cells(*old(sheet), *final(sheet))
            && final(undo_manager).undo_stack@ == old(undo_manager).undo_stack@
            && final(undo_manager).redo_stack@ == old(undo_manager).redo_stack@,
        r == Some(Status::Success) || r == Some(Status::ComputationError) ==> {
            &&& final(undo_manager).redo_stack@ == old(undo_manager).redo_stack@.drop_last()
            &&& final(undo_manager).undo_stack@ == pushed_bounded(old(undo_manager).undo_stack@, final(undo_manager).undo_stack@.last())
            &&& replayed(*old(sheet), *final(sheet), old(undo_manager).redo_stack@.last(), final(undo_manager).undo_stack@.last(), r->Some_0)
        },
{
    replay(sheet, &mut undo_manager.redo_stack, &mut undo_manager.undo_stack)
}


/// Undoing a change and redoing it at once puts back every formula and
/// every edge of the dependency graph that stood before the undo; the
/// cell and everything downstream of it hold what their formulas give.
pub proof fn lemma_undo_then_redo(
    s0: Spreadsheet,
    s1: Spreadsheet,
    s2: Spreadsheet,
    undone: CellState,
    saved: CellState,
    resaved: CellState,
    status1: Status,
    status2: Status,
)
    requires
        sheet_wf(s0),
        replayed(s0, s1, undone, saved, status1),
        replayed(s1, s2, saved, resaved, status2),
    ensures
        s2.rows == s0.rows && s2.columns == s0.columns,
        forall|x: CellReference| s0.in_bounds(x) ==> #[trigger] s2.cell(x).formula == s0.cell(x).formula,
        forall|x: CellReference, y: CellReference| s0.in_bounds(x) ==> #[trigger] edge(s2, x, y) == edge(s0, x, y),
        consistent(s2, CellReference { row: undone.row, column: undone.column }),
        all_downstream_consistent(s2, CellReference { row: undone.row, column: undone.column }),
{
    let t = CellReference { row: undone.row, column: undone.column };
    assert(all_downstream_consistent(s2, t)) by {
        assert forall|x: CellReference| s2.in_bounds(x) && #[trigger] downstream(s2, t, x) implies consistent(s2, x) by {
            assert(s1.in_bounds(x));
        }
    }
    assert forall|x: CellReference| s0.in_bounds(x) implies #[trigger] s2.cell(x).formula == s0.cell(x).formula by {
        if x != t {
            assert(s1.cell(x).formula == s0.cell(x).formula);
        }
    }
    assert forall|x: CellReference, y: CellReference| s0.in_bounds(x) implies #[trigger] edge(s2, x, y) == edge(s0, x, y) by {
        assert(relinked(s1, s2, t, crate::expr::refs_of(saved.formula).to_set()));
        assert(relinked(s0, s1, t, crate::expr::refs_of(undone.formula).to_set()));
        if y == t {
            assert(s0.cell(t).precedents@.contains(x) <==> crate::expr::refs_of(s0.cell(t).formula).contains(x));
            assert(s0.cell(x).dependents@.contains(t) <==> s0.cell(t).precedents@.contains(x));
        }
    }
}

} // verus!
