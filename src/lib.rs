//! A reactive spreadsheet engine: a grid of integer cells, formulas over
//! them, a dependency graph with cycle detection, recomputation of
//! dependents, undo/redo of assignments, delayed `SLEEP` writes and CSV
//! import.

/// Acyclicity of the dependency graph across relinking a cell.
pub mod acyclic;
/// Sum, extremes, mean and standard deviation of cell values.
pub mod aggregate;
/// Cells, the grid, formulas and statuses.
pub mod cell;
/// Cell names, column labels and integer text.
pub mod cellname;
/// Loading CSV text through assignments.
pub mod csv_import;
/// Recomputation and the assignment of formulas.
pub mod engine;
/// Evaluation of formulas and detection of errors.
pub mod expr;
/// The dependency graph: edges, reachability and cycles.
pub mod graph;
/// Reading formulas and assignment commands.
pub mod parser;
/// Writing formulas back as text.
pub mod printer;
/// Why recomputation settles on an acyclic graph.
pub mod settle;
/// Delayed writes asked for by `SLEEP`.
pub mod sleep;
/// Bounded undo and redo histories.
pub mod undo;
