use vstd::prelude::*;

verus! {

/// Largest number of rows a sheet may have.
pub const MAX_ROWS: i32 = 999;

/// Largest number of columns a sheet may have (column `ZZZ`).
pub const MAX_COLS: i32 = 18278;

/// A cell address: zero-based row and column.
#[derive(Clone, Copy, Debug, PartialEq, Eq, Hash, Structural)]
pub struct CellReference {
    pub row: i32,
    pub column: i32,
}

/// Either a constant or a reference to a cell.
#[derive(Clone, Copy, Debug, PartialEq, Eq, Structural)]
pub enum Operand {
    Constant(i32),
    CellOperand(CellReference),
}

/// The functions a formula may call.
#[derive(Clone, Copy, Debug, PartialEq, Eq, Structural)]
pub enum FunctionName {
    Sum,
    Max,
    Min,
    Avg,
    Stdev,
    Sleep,
}

/// A formula as a tree.
#[derive(Debug, PartialEq, Eq)]
pub enum Expr {
    /// An integer literal.
    Number(i32),
    /// The value of a cell.
    Cell(CellReference),
    /// `left op right` with `op` one of `+ - * /`.
    BinaryOp(Box<Expr>, char, Box<Expr>),
    /// A function applied to its arguments.
    Function(FunctionName, Vec<Expr>),
    /// The inclusive rectangle between two corners; only stands as a function argument.
    Range(CellReference, CellReference),
}

/// The result of an operation on the sheet, as reported to the user.
#[derive(Clone, Copy, Debug, PartialEq, Eq, Structural)]
pub enum Status {
    Success,
    InvalidInput,
    ComputationError,
    CyclicDependency,
}

/// A cell of the grid.
pub struct Cell {
    pub value: i32,
    pub formula: Expr,
    pub is_error: bool,
    /// Cells whose formula reads this one.
    pub dependents: Vec<CellReference>,
    /// Cells that this cell's formula reads.
    pub precedents: Vec<CellReference>,
    pub is_bold: bool,
    pub is_italics: bool,
}

/// A fixed-size grid of cells, indexed `all_cells[row][column]`.
pub struct Spreadsheet {
    pub rows: i32,
    pub columns: i32,
    pub all_cells: Vec<Vec<Cell>>,
}

pub open spec fn cref(r: int, c: int) -> CellReference {
    CellReference { row: r as i32, column: c as i32 }
}

impl Status {
    /// The numeric code shown to the user.
    pub fn code(&self) -> (r: i32)
        ensures
            *self == Status::Success ==> r == 0,
            *self == Status::InvalidInput ==> r == 1,
            *self == Status::ComputationError ==> r == 2,
            *self == Status::CyclicDependency ==> r == 3,
    {
        match self {
            Status::Success => 0,
            Status::InvalidInput => 1,
            Status::ComputationError => 2,
            Status::CyclicDependency => 3,
        }
    }
}

impl Spreadsheet {
    pub open spec fn cell(&self, r: CellReference) -> Cell {
        self.all_cells@[r.row as int]@[r.column as int]
    }

    pub open spec fn in_bounds(&self, r: CellReference) -> bool {
        0 <= r.row < self.rows && 0 <= r.column < self.columns
    }

    /// The grid has the dimensions it claims.
    pub open spec fn shape_ok(&self) -> bool {
        &&& 1 <= self.rows <= MAX_ROWS
        &&& 1 <= self.columns <= MAX_COLS
        &&& self.all_cells@.len() == self.rows
        &&& forall|i: int| 0 <= i < self.rows ==> #[trigger] self.all_cells@[i]@.len() == self.columns
    }
}

} // verus!
