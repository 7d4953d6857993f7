use vstd::prelude::*;
use crate::acyclic::{lemma_relink_acyclic, lemma_relink_cycle, lemma_same_edges, relinked};
use crate::cell::{Cell, CellReference, Expr, Spreadsheet, Status};
use crate::expr::{
    cell_error, check_division_by_zero, check_in_bounds, copy_expr, eval, eval_expr, expr_has_error,
    expr_in_bounds, extract_precedents, lemma_eval_frame, lemma_refs_in_bounds, refs_of, same_values,
};
use crate::graph::{
    acyclic, clear_precedents, dependents_closure, downstream, edge, edges_symmetric, has_cycle,
    link_precedents,
    on_cycle, precedents_match, refs_in_bounds, same_payload, sheet_wf,
};
use crate::settle::{in_tier, tier};
use crate::undo::{pushed_bounded, CellState, UndoRedoStack};

verus! {

/// Two cells that differ at most in value and error flag.
pub open spec fn same_structure(a: Cell, b: Cell) -> bool {
    &&& a.formula == b.formula
    &&& a.dependents == b.dependents
    &&& a.precedents == b.precedents
    &&& a.is_bold == b.is_bold
    &&& a.is_italics == b.is_italics
}

/// The cell `x` holds what its formula gives on `s`: the error flag when
/// the formula meets an error, else the formula's value and no flag.
pub open spec fn consistent(s: Spreadsheet, x: CellReference) -> bool {
    if cell_error(s.cell(x).formula, s) {
        s.cell(x).is_error
    } else {
        !s.cell(x).is_error && s.cell(x).value == eval(s.cell(x).formula, s)
    }
}

/// `b` is `a` recomputed on `s`: same structure, and the value and flag
/// its formula gives on `s` (an error keeps the old value).
pub open spec fn recomputed(a: Cell, b: Cell, s: Spreadsheet) -> bool {
    &&& same_structure(a, b)
    &&& if cell_error(a.formula, s) {
        b.is_error && b.value == a.value
    } else {
        !b.is_error && b.value == eval(a.formula, s)
    }
}

/// `b` differs from `a` only in values and error flags.
pub open spec fn values_only(a: Spreadsheet, b: Spreadsheet) -> bool {
    &&& b.rows == a.rows
    &&& b.columns == a.columns
    &&& b.shape_ok() == a.shape_ok()
    &&& forall|x: CellReference| a.in_bounds(x) ==> same_structure(#[trigger] b.cell(x), a.cell(x))
}

pub proof fn lemma_values_only(a: Spreadsheet, b: Spreadsheet)
    requires
        a.shape_ok(),
        values_only(a, b),
    ensures
        refs_in_bounds(a) ==> refs_in_bounds(b),
        edges_symmetric(a) ==> edges_symmetric(b),
        precedents_match(a) ==> precedents_match(b),
        sheet_wf(a) ==> sheet_wf(b),
        forall|o: CellReference, x: CellReference| #[trigger] downstream(b, o, x) == downstream(a, o, x),
{
    assert forall|o: CellReference, x: CellReference| #[trigger] downstream(b, o, x) == downstream(a, o, x) by {
        assert forall|v: Set<CellReference>| #[trigger] crate::graph::closed_from(b, o, v) == crate::graph::closed_from(a, o, v) by {
            assert forall|p: CellReference, q: CellReference| a.in_bounds(p) implies crate::graph::edge(b, p, q) == crate::graph::edge(a, p, q) by {
                if a.in_bounds(p) {
                    assert(same_structure(b.cell(p), a.cell(p)));
                }
            }
        }
        if downstream(a, o, x) {
            assert forall|v: Set<CellReference>| #[trigger] crate::graph::closed_from(b, o, v) implies v.contains(x) by {
                assert(crate::graph::closed_from(a, o, v));
            }
        }
        if downstream(b, o, x) {
            assert forall|v: Set<CellReference>| #[trigger] crate::graph::closed_from(a, o, v) implies v.contains(x) by {
                assert(crate::graph::closed_from(b, o, v));
            }
        }
    }
}


/// The value and error flag that the formula of the cell `x` gives on the
/// current grid; an error keeps the cell's value.
fn computed_state(sheet: &Spreadsheet, x: CellReference) -> (r: (i32, bool))
    requires
        sheet.shape_ok(),
        sheet.in_bounds(x),
        expr_in_bounds(sheet.cell(x).formula, sheet.rows, sheet.columns),
    ensures
        r.1 == cell_error(sheet.cell(x).formula, *sheet),
        r.1 ==> r.0 == sheet.cell(x).value,
        !r.1 ==> r.0 == eval(sheet.cell(x).formula, *sheet),
{
    let cell = &sheet.all_cells[x.row as usize][x.column as usize];
    if expr_has_error(&cell.formula, sheet) || check_division_by_zero(&cell.formula, sheet) {
        (cell.value, true)
    } else {
        (eval_expr(&cell.formula, sheet), false)
    }
}

/// Writes a value and an error flag into the cell `x`.
fn set_cell_state(sheet: &mut Spreadsheet, x: CellReference, value: i32, is_error: bool)
    requires
        old(sheet).shape_ok(),
        old(sheet).in_bounds(x),
    ensures
        values_only(*old(sheet), *final(sheet)),
        final(sheet).shape_ok(),
        forall|y: CellReference| old(sheet).in_bounds(y) && y != x ==> #[trigger] final(sheet).cell(y) == old(sheet).cell(y),
        final(sheet).cell(x).value == value,
        final(sheet).cell(x).is_error == is_error,
{
    sheet.all_cells[x.row as usize][x.column as usize].value = value;
    sheet.all_cells[x.row as usize][x.column as usize].is_error = is_error;
    proof {
        assert forall|y: CellReference| old(sheet).in_bounds(y) && y != x implies #[trigger] sheet.cell(y) == old(sheet).cell(y) by {
            if y.row != x.row {
                assert(sheet.all_cells@[y.row as int] == old(sheet).all_cells@[y.row as int]);
            }
        }
        assert forall|y: CellReference| old(sheet).in_bounds(y) implies same_structure(#[trigger] sheet.cell(y), old(sheet).cell(y)) by {
            if y.row != x.row {
                assert(sheet.all_cells@[y.row as int] == old(sheet).all_cells@[y.row as int]);
            }
        }
    }
}

/// Recomputes the value and error flag of the cell `(rt, ct)` from its
/// formula and the current grid.
pub fn calculate_cell_value(sheet: &mut Spreadsheet, rt: i32, ct: i32)
    requires
        old(sheet).shape_ok(),
        old(sheet).in_bounds((CellReference { row: rt, column: ct })),
        expr_in_bounds(old(sheet).cell((CellReference { row: rt, column: ct })).formula, old(sheet).rows, old(sheet).columns),
    ensures
        values_only(*old(sheet), *final(sheet)),
        final(sheet).shape_ok(),
        forall|x: CellReference| old(sheet).in_bounds(x) && x != (CellReference { row: rt, column: ct })
            ==> #[trigger] final(sheet).cell(x) == old(sheet).cell(x),
        recomputed(
            old(sheet).cell((CellReference { row: rt, column: ct })),
            final(sheet).cell((CellReference { row: rt, column: ct })),
            *old(sheet),
        ),
{
    let x = CellReference { row: rt, column: ct };
    let (value, is_error) = computed_state(sheet, x);
    set_cell_state(sheet, x, value, is_error);
}

/// The cells a formula reads are its cell's precedents: edges into it.
pub proof fn lemma_reads_edges(s: Spreadsheet, x: CellReference, r: CellReference)
    requires
        sheet_wf(s),
        s.in_bounds(x),
        refs_of(s.cell(x).formula).contains(r),
    ensures
        s.in_bounds(r),
        edge(s, r, x),
{
    assert(s.cell(x).precedents@.contains(r));
}

/// On an acyclic grid no formula reads its own cell.
pub proof fn lemma_no_self_read(s: Spreadsheet, x: CellReference)
    requires
        sheet_wf(s),
        acyclic(s),
        s.in_bounds(x),
    ensures
        !refs_of(s.cell(x).formula).contains(x),
{
    if refs_of(s.cell(x).formula).contains(x) {
        lemma_reads_edges(s, x, x);
        assert forall|v: Set<CellReference>| #[trigger] crate::graph::closed_from(s, x, v) implies v.contains(x) by {}
        assert(on_cycle(s, x));
    }
}

/// Whether a cell is consistent depends only on it and the cells it reads.
pub proof fn lemma_consistent_frame(s: Spreadsheet, s2: Spreadsheet, x: CellReference)
    requires
        s.rows == s2.rows,
        s.columns == s2.columns,
        s.in_bounds(x),
        s2.cell(x) == s.cell(x),
        expr_in_bounds(s.cell(x).formula, s.rows, s.columns),
        crate::expr::agree_on_reads(s.cell(x).formula, s, s2),
    ensures
        consistent(s2, x) == consistent(s, x),
{
    crate::expr::lemma_eval_reads(s.cell(x).formula, s, s2);
}

/// Every cell downstream of `o` holds what its formula gives on `s`.
pub open spec fn all_downstream_consistent(s: Spreadsheet, o: CellReference) -> bool {
    forall|x: CellReference| s.in_bounds(x) && #[trigger] downstream(s, o, x) ==> consistent(s, x)
}

/// Recomputes every cell downstream of `(rs, cs)`, pass after pass in
/// breadth-first order, until a pass changes nothing; at most one pass
/// more than there are such cells, which suffices on an acyclic grid.
/// Returns whether that point was reached: then every downstream cell
/// holds what its formula gives on the final grid. Nothing else changes.
pub fn recalculate_dependents(sheet: &mut Spreadsheet, rs: i32, cs: i32) -> (settled: bool)
    requires
        sheet_wf(*old(sheet)),
        old(sheet).in_bounds((CellReference { row: rs, column: cs })),
    ensures
        values_only(*old(sheet), *final(sheet)),
        sheet_wf(*final(sheet)),
        forall|x: CellReference| old(sheet).in_bounds(x) && !downstream(*old(sheet), (CellReference { row: rs, column: cs }), x)
            ==> #[trigger] final(sheet).cell(x) == old(sheet).cell(x),
        settled ==> forall|x: CellReference| old(sheet).in_bounds(x) && #[trigger] downstream(*old(sheet), (CellReference { row: rs, column: cs }), x)
            ==> consistent(*final(sheet), x),
        acyclic(*old(sheet)) ==> settled,
        all_downstream_consistent(*old(sheet), (CellReference { row: rs, column: cs })) ==> *final(sheet) == *old(sheet),
{
    let o = CellReference { row: rs, column: cs };
    let ghost s0 = *sheet;
    let list = dependents_closure(sheet, o);
    let ghost d = list@.to_set();
    proof {
        list@.lemma_cardinality_of_set();
        vstd::seq_lib::seq_to_set_is_finite(list@);
        assert forall|x: CellReference| #[trigger] d.contains(x) implies s0.in_bounds(x) by {
            let k = choose|k: int| 0 <= k < list@.len() && list@[k] == x;
            assert(s0.in_bounds(list@[k]));
        }
        assert(list@.len() <= 999 * 18278) by (nonlinear_arith)
            requires list@.len() <= s0.rows * s0.columns, 1 <= s0.rows <= 999, 1 <= s0.columns <= 18278;
    }
    let passes: usize = list.len() + 1;
    let mut pass: usize = 0;
    while pass < passes
        invariant
            s0 == *old(sheet),
            o == (CellReference { row: rs, column: cs }),
            sheet_wf(s0),
            s0.in_bounds(o),
            values_only(s0, *sheet),
            sheet_wf(*sheet),
            forall|i: int| 0 <= i < list@.len() ==> s0.in_bounds(#[trigger] list@[i]),
            forall|x: CellReference| s0.in_bounds(x) ==> (#[trigger] list@.contains(x) <==> downstream(s0, o, x)),
            forall|x: CellReference| s0.in_bounds(x) && !downstream(s0, o, x) ==> #[trigger] sheet.cell(x) == s0.cell(x),
            passes == list@.len() + 1,
            d == list@.to_set(),
            d.finite(),
            d.len() <= list@.len(),
            forall|x: CellReference| #[trigger] d.contains(x) ==> s0.in_bounds(x),
            acyclic(s0) ==> pass <= list@.len(),
            acyclic(s0) ==> forall|x: CellReference| #[trigger] in_tier(s0, d, pass as int, x) ==> consistent(*sheet, x),
            all_downstream_consistent(s0, o) ==> pass == 0 && *sheet == s0,
        decreases passes - pass,
    {
        let ghost start = *sheet;
        let mut changed = false;
        let mut i: usize = 0;
        while i < list.len()
            invariant
                s0 == *old(sheet),
                o == (CellReference { row: rs, column: cs }),
                sheet_wf(s0),
                s0.in_bounds(o),
                values_only(s0, *sheet),
                values_only(start, *sheet),
                sheet_wf(*sheet),
                i <= list@.len(),
                forall|k: int| 0 <= k < list@.len() ==> s0.in_bounds(#[trigger] list@[k]),
                forall|x: CellReference| s0.in_bounds(x) ==> (#[trigger] list@.contains(x) <==> downstream(s0, o, x)),
                forall|x: CellReference| s0.in_bounds(x) && !downstream(s0, o, x) ==> #[trigger] sheet.cell(x) == s0.cell(x),
                !changed ==> *sheet == start,
                !changed ==> forall|k: int| 0 <= k < i ==> consistent(*sheet, #[trigger] list@[k]),
                d == list@.to_set(),
                forall|x: CellReference| #[trigger] d.contains(x) ==> s0.in_bounds(x),
                acyclic(s0) ==> forall|x: CellReference| #[trigger] in_tier(s0, d, pass as int, x) ==> consistent(*sheet, x)
                    && sheet.cell(x) == start.cell(x),
                acyclic(s0) ==> forall|k: int| 0 <= k < i && #[trigger] in_tier(s0, d, pass + 1, list@[k])
                    ==> consistent(*sheet, list@[k]),
                acyclic(s0) && (d =~= tier(s0, d, pass as int)) ==> !changed,
                all_downstream_consistent(s0, o) ==> pass == 0 && start == s0 && !changed,
            decreases list@.len() - i,
        {
            let x = list[i];
            assert(s0.in_bounds(x));
            assert(expr_in_bounds(sheet.cell(x).formula, sheet.rows, sheet.columns));
            assert(d.contains(x)) by {
                assert(list@[i as int] == x);
            }
            let (value, is_error) = computed_state(sheet, x);
            proof {
                if all_downstream_consistent(s0, o) {
                    assert(list@.contains(x)) by {
                        assert(list@[i as int] == x);
                    }
                    assert(consistent(s0, x));
                }
            }
            if value != sheet.all_cells[x.row as usize][x.column as usize].value
                || is_error != sheet.all_cells[x.row as usize][x.column as usize].is_error {
                let ghost cur = *sheet;
                set_cell_state(sheet, x, value, is_error);
                changed = true;
                proof {
                    assert(values_only(s0, *sheet)) by {
                        assert forall|y: CellReference| s0.in_bounds(y) implies same_structure(#[trigger] sheet.cell(y), s0.cell(y)) by {
                            assert(same_structure(sheet.cell(y), cur.cell(y)));
                            assert(same_structure(cur.cell(y), s0.cell(y)));
                        }
                    }
                    assert(values_only(start, *sheet)) by {
                        assert forall|y: CellReference| start.in_bounds(y) implies same_structure(#[trigger] sheet.cell(y), start.cell(y)) by {
                            assert(same_structure(sheet.cell(y), cur.cell(y)));
                            assert(same_structure(cur.cell(y), start.cell(y)));
                        }
                    }
                    lemma_values_only(s0, *sheet);
                    lemma_values_only(s0, cur);
                    assert forall|y: CellReference| s0.in_bounds(y) && !downstream(s0, o, y) implies #[trigger] sheet.cell(y) == s0.cell(y) by {
                        if y == x {
                            assert(list@[i as int] == x);
                            assert(list@.contains(x));
                        }
                        assert(cur.cell(y) == s0.cell(y));
                    }
                    if acyclic(s0) {
                        assert forall|p: CellReference, y: CellReference| s0.in_bounds(p) implies #[trigger] edge(cur, p, y) == edge(s0, p, y) by {
                            assert(same_structure(cur.cell(p), s0.cell(p)));
                        }
                        crate::acyclic::lemma_same_edges(s0, cur);
                        assert(!in_tier(s0, d, pass as int, x)) by {
                            if in_tier(s0, d, pass as int, x) {
                                assert(consistent(cur, x));
                            }
                        }
                        lemma_no_self_read(cur, x);
                        assert(crate::expr::agree_on_reads(cur.cell(x).formula, cur, *sheet)) by {
                            assert forall|r: CellReference| #[trigger] refs_of(cur.cell(x).formula).contains(r) implies cur.cell(r).value
                                == sheet.cell(r).value && cur.cell(r).is_error == sheet.cell(r).is_error by {
                                lemma_reads_edges(cur, x, r);
                            }
                        }
                        crate::expr::lemma_eval_reads(cur.cell(x).formula, cur, *sheet);
                        assert(consistent(*sheet, x));
                        assert forall|y: CellReference| y != x && s0.in_bounds(y) && !(in_tier(s0, d, pass as int, x)) && (
                            in_tier(s0, d, pass as int, y) || in_tier(s0, d, pass + 1, y)) implies consistent(*sheet, y) == consistent(cur, y)
                            && sheet.cell(y) == cur.cell(y) by {
                            assert(crate::expr::agree_on_reads(cur.cell(y).formula, cur, *sheet)) by {
                                assert forall|r: CellReference| #[trigger] refs_of(cur.cell(y).formula).contains(r) implies cur.cell(r).value
                                    == sheet.cell(r).value && cur.cell(r).is_error == sheet.cell(r).is_error by {
                                    lemma_reads_edges(cur, y, r);
                                    if r == x {
                                        assert(edge(s0, x, y));
                                        if in_tier(s0, d, pass as int, y) {
                                            assert(in_tier(s0, d, pass - 1, x));
                                            crate::settle::lemma_tier_mono(s0, d, pass - 1, x);
                                        } else {
                                            assert(in_tier(s0, d, pass as int, x));
                                        }
                                    }
                                }
                            }
                            lemma_consistent_frame(cur, *sheet, y);
                        }
                        assert forall|y: CellReference| #[trigger] in_tier(s0, d, pass as int, y) implies consistent(*sheet, y)
                            && sheet.cell(y) == start.cell(y) by {
                            assert(d.contains(y));
                        }
                        assert forall|k: int| 0 <= k < i + 1 && #[trigger] in_tier(s0, d, pass + 1, list@[k]) implies consistent(*sheet, list@[k]) by {
                            if list@[k] != x {
                                assert(s0.in_bounds(list@[k]));
                            }
                        }
                        assert(!(d =~= tier(s0, d, pass as int))) by {
                            assert(!tier(s0, d, pass as int).contains(x));
                        }
                    }
                }
            } else {
                assert(consistent(*sheet, x));
                proof {
                    if acyclic(s0) {
                        assert forall|k: int| 0 <= k < i + 1 && #[trigger] in_tier(s0, d, pass + 1, list@[k]) implies consistent(*sheet, list@[k]) by {
                            if k == i {
                                assert(list@[k] == x);
                            }
                        }
                        if d =~= tier(s0, d, pass as int) {
                            assert(tier(s0, d, pass as int).contains(x));
                        }
                    }
                }
            }
            i = i + 1;
        }
        if !changed {
            proof {
                assert forall|x: CellReference| s0.in_bounds(x) && #[trigger] downstream(s0, o, x) implies consistent(*sheet, x) by {
                    assert(list@.contains(x));
                    let k = choose|k: int| 0 <= k < list@.len() && list@[k] == x;
                    assert(consistent(*sheet, list@[k]));
                }
            }
            return true;
        }
        proof {
            if acyclic(s0) {
                assert(!(d =~= tier(s0, d, pass as int)));
                crate::settle::lemma_tier_full(s0, d, pass as int);
                assert forall|x: CellReference| #[trigger] in_tier(s0, d, pass + 1, x) implies consistent(*sheet, x) by {
                    assert(d.contains(x));
                    let k = choose|k: int| 0 <= k < list@.len() && list@[k] == x;
                    assert(in_tier(s0, d, pass + 1, list@[k]));
                }
            }
        }
        pass = pass + 1;
    }
    false
}

/// A copy of a list of cells.
pub fn copy_refs(v: &Vec<CellReference>) -> (r: Vec<CellReference>)
    ensures
        r@ == v@,
{
    let mut r: Vec<CellReference> = Vec::new();
    let mut i: usize = 0;
    while i < v.len()
        invariant
            i <= v@.len(),
            r@ == v@.subrange(0, i as int),
        decreases v@.len() - i,
    {
        r.push(v[i]);
        assert(r@ =~= v@.subrange(0, i + 1));
        i = i + 1;
    }
    assert(r@ =~= v@);
    r
}

/// Puts `f` in place of the formula of the cell `t` and returns the formula
/// it held.
fn swap_formula(sheet: &mut Spreadsheet, t: CellReference, f: Expr) -> (old_formula: Expr)
    requires
        old(sheet).shape_ok(),
        old(sheet).in_bounds(t),
    ensures
        old_formula == old(sheet).cell(t).formula,
        final(sheet).rows == old(sheet).rows,
        final(sheet).columns == old(sheet).columns,
        final(sheet).shape_ok(),
        final(sheet).cell(t).formula == f,
        forall|x: CellReference| old(sheet).in_bounds(x) && x != t ==> #[trigger] final(sheet).cell(x) == old(sheet).cell(x),
        final(sheet).cell(t).value == old(sheet).cell(t).value,
        final(sheet).cell(t).is_error == old(sheet).cell(t).is_error,
        final(sheet).cell(t).dependents == old(sheet).cell(t).dependents,
        final(sheet).cell(t).precedents == old(sheet).cell(t).precedents,
        final(sheet).cell(t).is_bold == old(sheet).cell(t).is_bold,
        final(sheet).cell(t).is_italics == old(sheet).cell(t).is_italics,
{
    let mut f = f;
    std::mem::swap(&mut sheet.all_cells[t.row as usize][t.column as usize].formula, &mut f);
    proof {
        assert forall|x: CellReference| old(sheet).in_bounds(x) && x != t implies #[trigger] sheet.cell(x) == old(sheet).cell(x) by {
            if x.row != t.row {
                assert(sheet.all_cells@[x.row as int] == old(sheet).all_cells@[x.row as int]);
            }
        }
    }
    f
}

/// The new formula reads `t` itself or a cell downstream of `t`.
pub open spec fn closes_cycle(s: Spreadsheet, t: CellReference, formula: Expr) -> bool {
    exists|z: CellReference| #[trigger] refs_of(formula).contains(z) && (z == t || downstream(s, t, z))
}

/// Every cell holds the same formula, value, flags and edges in `a` and `b`.
pub open spec fn same_cells(a: Spreadsheet, b: Spreadsheet) -> bool {
    &&& a.rows == b.rows
    &&& a.columns == b.columns
    &&& forall|x: CellReference| a.in_bounds(x) ==> same_payload(#[trigger] b.cell(x), a.cell(x))
    &&& forall|x: CellReference, y: CellReference| a.in_bounds(x) ==> (#[trigger] b.cell(x).dependents@.contains(y) <==> a.cell(x).dependents@.contains(y))
    &&& forall|x: CellReference, y: CellReference| a.in_bounds(x) ==> (#[trigger] b.cell(x).precedents@.contains(y) <==> a.cell(x).precedents@.contains(y))
}

/// Some cell downstream of `o` is flagged as an error.
pub open spec fn downstream_flagged(s: Spreadsheet, o: CellReference) -> bool {
    exists|x: CellReference| s.in_bounds(x) && #[trigger] downstream(s, o, x) && s.cell(x).is_error
}

/// Whether some cell downstream of `o` is flagged as an error.
pub fn downstream_has_error(sheet: &Spreadsheet, o: CellReference) -> (r: bool)
    requires
        sheet.shape_ok(),
        refs_in_bounds(*sheet),
        sheet.in_bounds(o),
    ensures
        r == downstream_flagged(*sheet, o),
{
    let list = dependents_closure(sheet, o);
    let mut i: usize = 0;
    while i < list.len()
        invariant
            sheet.shape_ok(),
            forall|k: int| 0 <= k < list@.len() ==> sheet.in_bounds(#[trigger] list@[k]),
            forall|x: CellReference| sheet.in_bounds(x) ==> (#[trigger] list@.contains(x) <==> downstream(*sheet, o, x)),
            i <= list@.len(),
            forall|k: int| 0 <= k < i ==> !sheet.cell(#[trigger] list@[k]).is_error,
        decreases list@.len() - i,
    {
        let x = list[i];
        assert(sheet.in_bounds(list@[i as int]));
        if sheet.all_cells[x.row as usize][x.column as usize].is_error {
            assert(list@.contains(x));
            assert(downstream(*sheet, o, x));
            return true;
        }
        i = i + 1;
    }
    assert forall|x: CellReference| sheet.in_bounds(x) && #[trigger] downstream(*sheet, o, x) implies !sheet.cell(x).is_error by {
        assert(list@.contains(x));
        let k = choose|k: int| 0 <= k < list@.len() && list@[k] == x;
        assert(!sheet.cell(list@[k]).is_error);
    }
    false
}

/// `b` is `a` after `formula` was bound to the cell `t` without closing a
/// cycle: the edges into `t` come from the cells the formula reads, `t`
/// holds what the formula gives on `a` (and on `b`), every cell downstream
/// of `t` holds what its formula gives on `b`, and the other cells keep
/// their values.
pub open spec fn installed(a: Spreadsheet, b: Spreadsheet, t: CellReference, formula: Expr, status: Status) -> bool {
    &&& b.cell(t).formula == formula
    &&& relinked(a, b, t, refs_of(formula).to_set())
    &&& (status == Status::ComputationError) == (cell_error(formula, a) || downstream_flagged(b, t))
    &&& (status == Status::Success) == !(cell_error(formula, a) || downstream_flagged(b, t))
    &&& b.cell(t).is_error == cell_error(formula, a)
    &&& !cell_error(formula, a) ==> b.cell(t).value == eval(formula, a)
    &&& cell_error(formula, a) ==> b.cell(t).value == a.cell(t).value
    &&& forall|x: CellReference| a.in_bounds(x) && x != t && !downstream(b, t, x)
        ==> #[trigger] b.cell(x).value == a.cell(x).value && b.cell(x).is_error == a.cell(x).is_error
    &&& consistent(b, t)
    &&& forall|x: CellReference| a.in_bounds(x) && #[trigger] downstream(b, t, x) ==> consistent(b, x)
    &&& (a.cell(t).formula == formula && consistent(a, t) && all_downstream_consistent(a, t)) ==> forall|x: CellReference|
        a.in_bounds(x) ==> #[trigger] b.cell(x).value == a.cell(x).value && b.cell(x).is_error == a.cell(x).is_error
}

/// Binds `formula` to the cell `(rt, ct)`: the cell's old edges are
/// removed, its new precedents linked, and the cell and everything
/// downstream recomputed. The status is `ComputationError` when the cell
/// or a cell downstream of it ends flagged. Returns the status and the
/// formula the cell gave up: its old one, or `formula` itself when binding
/// it would close a cycle, in which case everything is rolled back.
pub fn install_formula(sheet: &mut Spreadsheet, rt: i32, ct: i32, formula: Expr) -> (r: (Status, Expr))
    requires
        sheet_wf(*old(sheet)),
        acyclic(*old(sheet)),
        old(sheet).in_bounds((CellReference { row: rt, column: ct })),
        expr_in_bounds(formula, old(sheet).rows, old(sheet).columns),
    ensures
        sheet_wf(*final(sheet)),
        acyclic(*final(sheet)),
        final(sheet).rows == old(sheet).rows,
        final(sheet).columns == old(sheet).columns,
        r.0 != Status::InvalidInput,
        (r.0 == Status::CyclicDependency) == closes_cycle(*old(sheet), (CellReference { row: rt, column: ct }), formula),
        r.0 == Status::CyclicDependency ==> same_cells(*old(sheet), *final(sheet)) && r.1 == formula,
        forall|x: CellReference| old(sheet).in_bounds(x) && x != (CellReference { row: rt, column: ct })
            ==> #[trigger] final(sheet).cell(x).formula == old(sheet).cell(x).formula,
        r.0 != Status::CyclicDependency ==> installed(*old(sheet), *final(sheet), (CellReference { row: rt, column: ct }), formula, r.0)
            && r.1 == old(sheet).cell((CellReference { row: rt, column: ct })).formula,
{
    let t = CellReference { row: rt, column: ct };
    let ghost g0 = *sheet;
    let old_precs = copy_refs(&sheet.all_cells[rt as usize][ct as usize].precedents);

    clear_precedents(sheet, rt, ct);
    let ghost g1 = *sheet;
    proof {
        lemma_refs_in_bounds(formula, g0.rows, g0.columns);
    }
    let old_formula = swap_formula(sheet, t, formula);
    let ghost g1b = *sheet;
    proof {
        assert forall|x: CellReference| g1.in_bounds(x) implies #[trigger] g1b.cell(x).dependents == g1.cell(x).dependents
            && g1b.cell(x).precedents == g1.cell(x).precedents by {
            if x != t {
                assert(g1b.cell(x) == g1.cell(x));
            }
        }
        assert(refs_in_bounds(g1b)) by {
            assert forall|a: CellReference| g1b.in_bounds(a) implies expr_in_bounds(#[trigger] g1b.cell(a).formula, g1b.rows, g1b.columns) by {
                if a != t {
                    assert(g1b.cell(a) == g1.cell(a));
                }
            }
        }
    }
    let new_precs = extract_precedents(&sheet.all_cells[rt as usize][ct as usize].formula);
    assert forall|i: int| 0 <= i < new_precs@.len() implies g1b.in_bounds(#[trigger] new_precs@[i]) by {
        assert(refs_of(formula).contains(new_precs@[i]));
    }
    link_precedents(sheet, t, &new_precs);
    let ghost g2 = *sheet;
    let ghost q = refs_of(formula).to_set();
    proof {
        assert forall|x: CellReference, y: CellReference| g0.in_bounds(x) implies (#[trigger] edge(g2, x, y) <==> if y == t {
            q.contains(x)
        } else {
            edge(g0, x, y)
        }) by {
            assert(g1b.cell(x).dependents == g1.cell(x).dependents);
        }
        assert forall|x: CellReference| #[trigger] q.contains(x) implies g0.in_bounds(x) by {
            assert(refs_of(formula).contains(x));
        }
        assert(relinked(g0, g2, t, q));
        assert(!on_cycle(g0, t));
        lemma_relink_cycle(g0, g2, t, q);
        assert(closes_cycle(g0, t, formula) == on_cycle(g2, t)) by {
            if closes_cycle(g0, t, formula) {
                let z = choose|z: CellReference| #[trigger] refs_of(formula).contains(z) && (z == t || downstream(g0, t, z));
                assert(q.contains(z));
            }
            if on_cycle(g2, t) {
                let z = choose|z: CellReference| #[trigger] q.contains(z) && (z == t || downstream(g0, t, z));
                assert(refs_of(formula).contains(z));
            }
        }
        assert(precedents_match(g2)) by {
            assert forall|a: CellReference, x: CellReference| g2.in_bounds(a) implies (#[trigger] g2.cell(a).precedents@.contains(x)
                <==> #[trigger] refs_of(g2.cell(a).formula).contains(x)) by {
                assert(g1b.cell(a).precedents == g1.cell(a).precedents);
                if a != t {
                    assert(g1b.cell(a) == g1.cell(a));
                    assert(same_payload(g2.cell(a), g1b.cell(a)));
                    assert(same_payload(g1.cell(a), g0.cell(a)));
                    assert(g0.cell(a).precedents@.contains(x) <==> refs_of(g0.cell(a).formula).contains(x));
                } else {
                    assert(same_payload(g2.cell(a), g1b.cell(a)));
                }
            }
        }
        assert(sheet_wf(g2));
    }
    if has_cycle(sheet, rt, ct) {
        clear_precedents(sheet, rt, ct);
        let ghost g3 = *sheet;
        let _rejected = swap_formula(sheet, t, old_formula);
        let ghost g3b = *sheet;
        proof {
            assert forall|x: CellReference| g3.in_bounds(x) implies #[trigger] g3b.cell(x).dependents == g3.cell(x).dependents
                && g3b.cell(x).precedents == g3.cell(x).precedents by {
                if x != t {
                    assert(g3b.cell(x) == g3.cell(x));
                }
            }
            assert(refs_in_bounds(g3b)) by {
                assert forall|a: CellReference| g3b.in_bounds(a) implies expr_in_bounds(#[trigger] g3b.cell(a).formula, g3b.rows, g3b.columns) by {
                    if a != t {
                        assert(g3b.cell(a) == g3.cell(a));
                    } else {
                        assert(same_payload(g1.cell(t), g0.cell(t)));
                    }
                }
            }
            assert forall|i: int| 0 <= i < old_precs@.len() implies g3b.in_bounds(#[trigger] old_precs@[i]) by {
                assert(g0.cell(t).precedents@.contains(old_precs@[i]));
            }
        }
        link_precedents(sheet, t, &old_precs);
        proof {
            let g4 = *sheet;
            assert forall|x: CellReference| g0.in_bounds(x) implies same_payload(#[trigger] g4.cell(x), g0.cell(x)) by {
                assert(same_payload(g4.cell(x), g3b.cell(x)));
                assert(same_payload(g3.cell(x), g2.cell(x)));
                assert(same_payload(g2.cell(x), g1b.cell(x)));
                assert(same_payload(g1.cell(x), g0.cell(x)));
                if x != t {
                    assert(g3b.cell(x) == g3.cell(x));
                    assert(g1b.cell(x) == g1.cell(x));
                }
            }
            assert forall|x: CellReference, y: CellReference| g0.in_bounds(x) implies (#[trigger] g4.cell(x).dependents@.contains(y)
                <==> g0.cell(x).dependents@.contains(y)) by {
                assert(g3b.cell(x).dependents == g3.cell(x).dependents);
                assert(g1b.cell(x).dependents == g1.cell(x).dependents);
                if y == t {
                    assert(g0.cell(x).dependents@.contains(t) <==> g0.cell(t).precedents@.contains(x));
                }
            }
            assert forall|x: CellReference, y: CellReference| g0.in_bounds(x) implies (#[trigger] g4.cell(x).precedents@.contains(y)
                <==> g0.cell(x).precedents@.contains(y)) by {
                assert(g3b.cell(x).precedents == g3.cell(x).precedents);
                assert(g1b.cell(x).precedents == g1.cell(x).precedents);
            }
            assert(same_cells(g0, g4));
            assert(precedents_match(g4)) by {
                assert forall|a: CellReference, x: CellReference| g4.in_bounds(a) implies (#[trigger] g4.cell(a).precedents@.contains(x)
                    <==> #[trigger] refs_of(g4.cell(a).formula).contains(x)) by {
                    assert(same_payload(g4.cell(a), g0.cell(a)));
                    assert(g0.cell(a).precedents@.contains(x) <==> refs_of(g0.cell(a).formula).contains(x));
                }
            }
            lemma_same_edges(g0, g4);
            assert forall|x: CellReference| g0.in_bounds(x) && x != t implies #[trigger] g4.cell(x).formula == g0.cell(x).formula by {
                assert(same_payload(g4.cell(x), g0.cell(x)));
            }
        }
        return (Status::CyclicDependency, _rejected);
    }
    proof {
        lemma_relink_acyclic(g0, g2, t, q);
    }
    calculate_cell_value(sheet, rt, ct);
    let ghost g5 = *sheet;
    proof {
        lemma_values_only(g2, g5);
        assert forall|x: CellReference, y: CellReference| g2.in_bounds(x) implies #[trigger] edge(g2, x, y) == edge(g5, x, y) by {
            assert(same_structure(g5.cell(x), g2.cell(x)));
        }
        lemma_same_edges(g2, g5);
    }
    let settled = recalculate_dependents(sheet, rt, ct);
    let ghost g6 = *sheet;
    proof {
        lemma_values_only(g5, g6);
        assert forall|x: CellReference, y: CellReference| g5.in_bounds(x) implies #[trigger] edge(g5, x, y) == edge(g6, x, y) by {
            assert(same_structure(g6.cell(x), g5.cell(x)));
        }
        lemma_same_edges(g5, g6);
        assert(values_only(g2, g6)) by {
            assert forall|x: CellReference| g2.in_bounds(x) implies same_structure(#[trigger] g6.cell(x), g2.cell(x)) by {
                assert(same_structure(g6.cell(x), g5.cell(x)));
                assert(same_structure(g5.cell(x), g2.cell(x)));
            }
        }
        lemma_same_edges(g2, g6);
        assert(!downstream(g5, t, t));
        assert(g6.cell(t) == g5.cell(t));
        assert(same_values(g2, g0)) by {
            assert forall|x: CellReference| g2.in_bounds(x) implies #[trigger] g2.cell(x).value == g0.cell(x).value
                && g2.cell(x).is_error == g0.cell(x).is_error by {
                assert(same_payload(g2.cell(x), g1b.cell(x)));
                assert(same_payload(g1.cell(x), g0.cell(x)));
                if x != t {
                    assert(g1b.cell(x) == g1.cell(x));
                }
            }
        }
        assert(g2.cell(t).formula == formula);
        lemma_eval_frame(formula, g2, g0);
        assert forall|x: CellReference| g0.in_bounds(x) && x != t && !downstream(g6, t, x) implies #[trigger] g6.cell(x).value == g0.cell(x).value
            && g6.cell(x).is_error == g0.cell(x).is_error by {
            assert(g2.cell(x).value == g0.cell(x).value);
            assert(g5.cell(x) == g2.cell(x));
            assert(!downstream(g5, t, x));
            assert(g6.cell(x) == g5.cell(x));
        }
        assert(settled);
        assert forall|x: CellReference| g0.in_bounds(x) && #[trigger] downstream(g6, t, x) implies consistent(g6, x) by {
            assert(downstream(g5, t, x));
        }
        lemma_no_self_read(g2, t);
        assert(crate::expr::agree_on_reads(formula, g2, g5)) by {
            assert forall|r: CellReference| #[trigger] refs_of(formula).contains(r) implies g2.cell(r).value == g5.cell(r).value
                && g2.cell(r).is_error == g5.cell(r).is_error by {
                lemma_reads_edges(g2, t, r);
            }
        }
        crate::expr::lemma_eval_reads(formula, g2, g5);
        assert(consistent(g5, t));
        assert(crate::expr::agree_on_reads(formula, g5, g6)) by {
            assert forall|r: CellReference| #[trigger] refs_of(formula).contains(r) implies g5.cell(r).value == g6.cell(r).value
                && g5.cell(r).is_error == g6.cell(r).is_error by {
                lemma_reads_edges(g2, t, r);
                assert(edge(g5, r, t));
                if downstream(g5, t, r) {
                    crate::settle::lemma_path_back_is_cycle(g5, t, r);
                    assert(on_cycle(g5, t));
                }
            }
        }
        lemma_consistent_frame(g5, g6, t);
        assert(consistent(g6, t));
        if g0.cell(t).formula == formula && consistent(g0, t) && all_downstream_consistent(g0, t) {
            assert forall|x: CellReference, y: CellReference| g0.in_bounds(x) implies #[trigger] edge(g2, x, y) == edge(g0, x, y) by {
                if y == t {
                    assert(g0.cell(t).precedents@.contains(x) <==> refs_of(g0.cell(t).formula).contains(x));
                    assert(g0.cell(x).dependents@.contains(t) <==> g0.cell(t).precedents@.contains(x));
                }
            }
            lemma_same_edges(g0, g2);
            assert(g5.cell(t).value == g0.cell(t).value && g5.cell(t).is_error == g0.cell(t).is_error);
            assert(same_values(g5, g0)) by {
                assert forall|x: CellReference| g5.in_bounds(x) implies #[trigger] g5.cell(x).value == g0.cell(x).value
                    && g5.cell(x).is_error == g0.cell(x).is_error by {
                    if x != t {
                        assert(g5.cell(x) == g2.cell(x));
                        assert(g2.cell(x).value == g0.cell(x).value);
                    }
                }
            }
            assert forall|x: CellReference| g5.in_bounds(x) && #[trigger] downstream(g5, t, x) implies consistent(g5, x) by {
                assert(downstream(g0, t, x));
                assert(consistent(g0, x));
                assert(x != t);
                assert(g5.cell(x) == g2.cell(x));
                assert(g2.cell(x).formula == g0.cell(x).formula) by {
                    assert(same_payload(g2.cell(x), g1b.cell(x)));
                    assert(g1b.cell(x) == g1.cell(x));
                    assert(same_payload(g1.cell(x), g0.cell(x)));
                }
                assert(expr_in_bounds(g0.cell(x).formula, g0.rows, g0.columns));
                lemma_eval_frame(g0.cell(x).formula, g5, g0);
            }
            assert(all_downstream_consistent(g5, t));
            assert(g6 == g5);
        }
        assert forall|x: CellReference, y: CellReference| g0.in_bounds(x) implies (#[trigger] edge(g6, x, y) <==> if y == t {
            q.contains(x)
        } else {
            edge(g0, x, y)
        }) by {
            assert(edge(g2, x, y) == edge(g6, x, y));
        }
    }
    proof {
        assert forall|x: CellReference| g0.in_bounds(x) && x != t implies #[trigger] g6.cell(x).formula == g0.cell(x).formula by {
            assert(same_structure(g6.cell(x), g2.cell(x)));
            assert(same_payload(g2.cell(x), g1b.cell(x)));
            assert(g1b.cell(x) == g1.cell(x));
            assert(same_payload(g1.cell(x), g0.cell(x)));
        }
    }
    let flagged = downstream_has_error(sheet, t);
    if sheet.all_cells[rt as usize][ct as usize].is_error || flagged {
        (Status::ComputationError, old_formula)
    } else {
        (Status::Success, old_formula)
    }
}

/// Binds `formula` to the cell `(rt, ct)` as `install_formula` does, after
/// checking that the cell and every cell the formula names lie in the grid.
/// The cell's prior state is recorded for undo, also when the assignment
/// is rolled back because it would close a cycle.
pub fn assign_cell(
    sheet: &mut Spreadsheet,
    undo_manager: &mut UndoRedoStack,
    rt: i32,
    ct: i32,
    formula: Expr,
) -> (status: Status)
    requires
        sheet_wf(*old(sheet)),
        acyclic(*old(sheet)),
        old(undo_manager).wf(),
    ensures
        sheet_wf(*final(sheet)),
        acyclic(*final(sheet)),
        final(undo_manager).wf(),
        final(sheet).rows == old(sheet).rows,
        final(sheet).columns == old(sheet).columns,
        (status == Status::InvalidInput) == !(old(sheet).in_bounds((CellReference { row: rt, column: ct }))
            && expr_in_bounds(formula, old(sheet).rows, old(sheet).columns)),
        status == Status::InvalidInput ==> *final(sheet) == *old(sheet) && *final(undo_manager) == *old(undo_manager),
        status != Status::InvalidInput ==> {
            let t = CellReference { row: rt, column: ct };
            &&& bound(*old(sheet), *final(sheet), t, formula, status)
            &&& (status == Status::CyclicDependency) == closes_cycle(*old(sheet), t, formula)
            &&& final(undo_manager).redo_stack@ == old(undo_manager).redo_stack@
            &&& final(undo_manager).undo_stack@ == pushed_bounded(old(undo_manager).undo_stack@, final(undo_manager).undo_stack@.last())
            &&& final(undo_manager).undo_stack@.last().row == rt
            &&& final(undo_manager).undo_stack@.last().column == ct
            &&& final(undo_manager).undo_stack@.last().is_error == old(sheet).cell(t).is_error
            &&& final(undo_manager).undo_stack@.last().precedents@ == old(sheet).cell(t).precedents@
            &&& crate::parser::deep_eq(final(undo_manager).undo_stack@.last().formula, old(sheet).cell(t).formula)
            &&& forall|x: CellReference| old(sheet).in_bounds(x) && x != t
                ==> #[trigger] final(sheet).cell(x).formula == old(sheet).cell(x).formula
        },
        status == Status::CyclicDependency ==> same_cells(*old(sheet), *final(sheet)),
        (status == Status::Success || status == Status::ComputationError) ==> {
            let t = CellReference { row: rt, column: ct };
            &&& installed(*old(sheet), *final(sheet), t, formula, status)
            &&& final(undo_manager).undo_stack@.last().formula == old(sheet).cell(t).formula
        },
{
    if rt < 0 || rt >= sheet.rows || ct < 0 || ct >= sheet.columns || !check_in_bounds(&formula, sheet.rows, sheet.columns) {
        return Status::InvalidInput;
    }
    let old_precs = copy_refs(&sheet.all_cells[rt as usize][ct as usize].precedents);
    let old_error = sheet.all_cells[rt as usize][ct as usize].is_error;
    let (status, other) = install_formula(sheet, rt, ct, formula);
    let record_formula = if status == Status::CyclicDependency {
        let c = copy_expr(&sheet.all_cells[rt as usize][ct as usize].formula);
        proof {
            let t = CellReference { row: rt, column: ct };
            assert(same_payload(sheet.cell(t), old(sheet).cell(t)));
        }
        c
    } else {
        proof {
            crate::parser::lemma_deep_eq_refl(other);
        }
        other
    };
    let snapshot = CellState {
        row: rt,
        column: ct,
        formula: record_formula,
        is_error: old_error,
        precedents: old_precs,
    };
    undo_manager.push_state(snapshot);
    status
}


/// Whether the formula of the cell `(rt, ct)` divides by a divisor that
/// evaluates to 0, or reads a flagged cell outside a range.
pub fn zero_div_err(sheet: &Spreadsheet, rt: i32, ct: i32) -> (r: bool)
    requires
        sheet_wf(*sheet),
        sheet.in_bounds((CellReference { row: rt, column: ct })),
    ensures
        r == crate::expr::div_zero(sheet.cell((CellReference { row: rt, column: ct })).formula, *sheet),
{
    let t = CellReference { row: rt, column: ct };
    assert(expr_in_bounds(sheet.cell(t).formula, sheet.rows, sheet.columns));
    check_division_by_zero(&sheet.all_cells[rt as usize][ct as usize].formula, sheet)
}

/// Whether some precedent of the cell `(rt, ct)` is flagged as an error.
pub fn precedent_has_error(sheet: &Spreadsheet, rt: i32, ct: i32) -> (r: bool)
    requires
        sheet.shape_ok(),
        refs_in_bounds(*sheet),
        sheet.in_bounds((CellReference { row: rt, column: ct })),
    ensures
        r == exists|x: CellReference| #[trigger] sheet.cell((CellReference { row: rt, column: ct })).precedents@.contains(x)
            && sheet.cell(x).is_error,
{
    let t = CellReference { row: rt, column: ct };
    let precs = &sheet.all_cells[rt as usize][ct as usize].precedents;
    let mut i: usize = 0;
    while i < precs.len()
        invariant
            t == (CellReference { row: rt, column: ct }),
            *precs == sheet.cell(t).precedents,
            sheet.shape_ok(),
            refs_in_bounds(*sheet),
            sheet.in_bounds(t),
            i <= precs@.len(),
            forall|j: int| 0 <= j < i ==> !sheet.cell(#[trigger] precs@[j]).is_error,
        decreases precs@.len() - i,
    {
        let p = precs[i];
        assert(sheet.cell(t).precedents@.contains(p));
        assert(sheet.in_bounds(p));
        if sheet.all_cells[p.row as usize][p.column as usize].is_error {
            assert(sheet.cell(t).precedents@.contains(p) && sheet.cell(p).is_error);
            return true;
        }
        i = i + 1;
    }
    assert forall|x: CellReference| #[trigger] sheet.cell(t).precedents@.contains(x) implies !sheet.cell(x).is_error by {
        let j = choose|j: int| 0 <= j < precs@.len() && precs@[j] == x;
        assert(!sheet.cell(precs@[j]).is_error);
    }
    false
}


/// What binding `formula` to the cell `t` did to the grid, as
/// `install_formula` and `assign_cell` state it for an assignment whose
/// cell and formula lie in the grid.
pub open spec fn bound(s0: Spreadsheet, s1: Spreadsheet, t: CellReference, formula: Expr, status: Status) -> bool {
    &&& sheet_wf(s1)
    &&& acyclic(s1)
    &&& s1.rows == s0.rows
    &&& s1.columns == s0.columns
    &&& (status == Status::CyclicDependency) == closes_cycle(s0, t, formula)
    &&& status == Status::CyclicDependency ==> same_cells(s0, s1)
    &&& status != Status::CyclicDependency ==> installed(s0, s1, t, formula, status)
    &&& forall|x: CellReference| s0.in_bounds(x) && x != t ==> #[trigger] s1.cell(x).formula == s0.cell(x).formula
}

/// A cell that no formula reads, in a well-formed grid, lies downstream of
/// no cell.
pub proof fn lemma_unread_not_downstream(s: Spreadsheet, o: CellReference, x: CellReference)
    requires
        sheet_wf(s),
        s.in_bounds(x),
        s.cell(x).precedents@.len() == 0,
    ensures
        !downstream(s, o, x),
{
    let v = Set::new(|y: CellReference| y != x);
    assert forall|p: CellReference, y: CellReference| #[trigger] v.contains(p) && s.in_bounds(p) && #[trigger] edge(s, p, y)
        implies v.contains(y) by {
        if y == x {
            assert(s.cell(x).precedents@.contains(p));
        }
    }
    assert forall|y: CellReference| s.in_bounds(o) && #[trigger] edge(s, o, y) implies v.contains(y) by {
        if y == x {
            assert(s.cell(x).precedents@.contains(o));
        }
    }
    assert(crate::graph::closed_from(s, o, v));
}

/// A binding leaves alone every other cell that holds a number.
pub proof fn lemma_number_cell_kept(s0: Spreadsheet, s1: Spreadsheet, t: CellReference, f: Expr, st: Status, x: CellReference)
    requires
        sheet_wf(s0),
        bound(s0, s1, t, f, st),
        s0.in_bounds(x),
        x != t,
        s0.cell(x).formula is Number,
    ensures
        s1.cell(x).formula == s0.cell(x).formula,
        s1.cell(x).value == s0.cell(x).value,
        s1.cell(x).is_error == s0.cell(x).is_error,
{
    if st == Status::CyclicDependency {
        assert(same_payload(s1.cell(x), s0.cell(x)));
    } else {
        assert(s1.cell(x).formula == s0.cell(x).formula);
        assert(s1.cell(x).precedents@.len() == 0) by {
            assert(refs_of(s1.cell(x).formula) =~= Seq::<CellReference>::empty());
            assert(s1.in_bounds(x));
            if s1.cell(x).precedents@.len() > 0 {
                let p = s1.cell(x).precedents@[0];
                assert(s1.cell(x).precedents@.contains(p));
                assert(refs_of(s1.cell(x).formula).contains(p));
            }
        }
        lemma_unread_not_downstream(s1, t, x);
    }
}

/// Assigning a formula to a cell a second time, right after it was
/// accepted, is accepted again and changes no formula, no edge of the
/// dependency graph, no value and no error flag.
pub proof fn lemma_assign_twice(
    s0: Spreadsheet,
    s1: Spreadsheet,
    s2: Spreadsheet,
    t: CellReference,
    formula: Expr,
    status1: Status,
    status2: Status,
)
    requires
        sheet_wf(s0),
        acyclic(s0),
        s0.in_bounds(t),
        expr_in_bounds(formula, s0.rows, s0.columns),
        bound(s0, s1, t, formula, status1),
        status1 != Status::CyclicDependency,
        bound(s1, s2, t, formula, status2),
    ensures
        status2 != Status::CyclicDependency,
        forall|x: CellReference| s0.in_bounds(x) ==> #[trigger] s2.cell(x).formula == s1.cell(x).formula,
        forall|x: CellReference, y: CellReference| s0.in_bounds(x) ==> #[trigger] edge(s2, x, y) == edge(s1, x, y),
        s2.cell(t).value == s1.cell(t).value,
        s2.cell(t).is_error == s1.cell(t).is_error,
        forall|x: CellReference| s0.in_bounds(x) ==> #[trigger] s2.cell(x).value == s1.cell(x).value && s2.cell(x).is_error
            == s1.cell(x).is_error,
{
    let q = refs_of(formula).to_set();
    crate::expr::lemma_refs_in_bounds(formula, s0.rows, s0.columns);
    assert(!on_cycle(s1, t));
    assert forall|z: CellReference| #[trigger] refs_of(formula).contains(z) implies z != t && !downstream(s1, t, z) by {
        if downstream(s1, t, z) {
            assert(q.contains(z));
            assert(edge(s1, z, t));
            assert forall|v: Set<CellReference>| #[trigger] crate::graph::closed_from(s1, t, v) implies v.contains(t) by {
                assert(v.contains(z));
            }
        }
    }
    assert(!closes_cycle(s1, t, formula));
    assert(crate::expr::agree_on_reads(formula, s0, s1)) by {
        assert forall|x: CellReference| #[trigger] refs_of(formula).contains(x) implies s0.cell(x).value == s1.cell(x).value
            && s0.cell(x).is_error == s1.cell(x).is_error by {
            assert(s0.in_bounds(x));
        }
    }
    crate::expr::lemma_eval_reads(formula, s0, s1);
    assert forall|x: CellReference| s0.in_bounds(x) implies #[trigger] s2.cell(x).formula == s1.cell(x).formula by {}
    assert forall|x: CellReference, y: CellReference| s0.in_bounds(x) implies #[trigger] edge(s2, x, y) == edge(s1, x, y) by {
        assert(relinked(s1, s2, t, q));
        assert(relinked(s0, s1, t, q));
    }
    assert(crate::engine::all_downstream_consistent(s1, t)) by {
        assert forall|x: CellReference| s1.in_bounds(x) && #[trigger] downstream(s1, t, x) implies consistent(s1, x) by {
            assert(s0.in_bounds(x));
        }
    }
    assert forall|x: CellReference| s0.in_bounds(x) implies #[trigger] s2.cell(x).value == s1.cell(x).value && s2.cell(x).is_error
        == s1.cell(x).is_error by {
        assert(s1.in_bounds(x));
    }
}

} // verus!
