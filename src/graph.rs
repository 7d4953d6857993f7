use vstd::prelude::*;
use crate::cell::{cref, Cell, CellReference, Expr, Spreadsheet, MAX_COLS, MAX_ROWS};
use crate::expr::{expr_in_bounds, refs_of};

verus! {

/// `b` reads `a`: the edge `a -> b` of the dependency graph.
pub open spec fn edge(s: Spreadsheet, a: CellReference, b: CellReference) -> bool {
    s.cell(a).dependents@.contains(b)
}

/// Every edge leaving a cell of `v` inside the grid ends in `v`.
pub open spec fn closed(s: Spreadsheet, v: Set<CellReference>) -> bool {
    forall|a: CellReference, b: CellReference|
        #[trigger] v.contains(a) && s.in_bounds(a) && #[trigger] edge(s, a, b) ==> v.contains(b)
}

/// `v` holds the direct dependents of `o` and is closed under edges.
pub open spec fn closed_from(s: Spreadsheet, o: CellReference, v: Set<CellReference>) -> bool {
    &&& forall|b: CellReference| s.in_bounds(o) && #[trigger] edge(s, o, b) ==> v.contains(b)
    &&& closed(s, v)
}

/// `x` is reachable from `o` by one or more edges: it lies in every set
/// that holds the dependents of `o` and is closed under edges.
pub open spec fn downstream(s: Spreadsheet, o: CellReference, x: CellReference) -> bool {
    forall|v: Set<CellReference>| #[trigger] closed_from(s, o, v) ==> v.contains(x)
}

/// `o` lies on a cycle of the dependency graph.
pub open spec fn on_cycle(s: Spreadsheet, o: CellReference) -> bool {
    downstream(s, o, o)
}

/// No cell lies on a cycle.
pub open spec fn acyclic(s: Spreadsheet) -> bool {
    forall|a: CellReference| s.in_bounds(a) ==> !#[trigger] on_cycle(s, a)
}

/// Edges are recorded on both ends: `b` is a dependent of `a` exactly
/// when `a` is a precedent of `b`.
pub open spec fn edges_symmetric(s: Spreadsheet) -> bool {
    forall|a: CellReference, b: CellReference|
        s.in_bounds(a) && s.in_bounds(b) ==> (#[trigger] s.cell(a).dependents@.contains(b)
            <==> #[trigger] s.cell(b).precedents@.contains(a))
}

/// Every recorded edge and every reference of a formula lies in the grid.
pub open spec fn refs_in_bounds(s: Spreadsheet) -> bool {
    &&& forall|a: CellReference, y: CellReference|
        s.in_bounds(a) && #[trigger] s.cell(a).dependents@.contains(y) ==> s.in_bounds(y)
    &&& forall|a: CellReference, y: CellReference|
        s.in_bounds(a) && #[trigger] s.cell(a).precedents@.contains(y) ==> s.in_bounds(y)
    &&& forall|a: CellReference|
        s.in_bounds(a) ==> expr_in_bounds(#[trigger] s.cell(a).formula, s.rows, s.columns)
}

/// A cell's precedents are exactly the cells its formula reads.
pub open spec fn precedents_match(s: Spreadsheet) -> bool {
    forall|a: CellReference, x: CellReference| s.in_bounds(a) ==> (#[trigger] s.cell(a).precedents@.contains(x)
        <==> #[trigger] refs_of(s.cell(a).formula).contains(x))
}

/// The invariants of a sheet between operations.
pub open spec fn sheet_wf(s: Spreadsheet) -> bool {
    &&& s.shape_ok()
    &&& refs_in_bounds(s)
    &&& edges_symmetric(s)
    &&& precedents_match(s)
}

/// Cells `x` other than those in `changed` are untouched.
pub open spec fn others_unchanged(a: Spreadsheet, b: Spreadsheet, changed: Set<CellReference>) -> bool {
    forall|x: CellReference| a.in_bounds(x) && !changed.contains(x) ==> #[trigger] b.cell(x) == a.cell(x)
}

/// Adds `x` to the set held in `v`.
fn set_insert(v: &mut Vec<CellReference>, x: CellReference)
    ensures
        forall|y: CellReference| #[trigger] final(v)@.contains(y) <==> old(v)@.contains(y) || y == x,
        forall|i: int| 0 <= i < old(v)@.len() ==> final(v)@[i] == old(v)@[i],
        final(v)@.len() <= old(v)@.len() + 1,
        final(v)@.len() == old(v)@.len() || final(v)@.last() == x,
{
    let mut i: usize = 0;
    while i < v.len()
        invariant
            i <= v@.len(),
            forall|j: int| 0 <= j < i ==> v@[j] != x,
        decreases v@.len() - i,
    {
        if v[i] == x {
            assert(v@.contains(x));
            return;
        }
        i = i + 1;
    }
    v.push(x);
    assert(v@[v@.len() - 1] == x);
    assert forall|y: CellReference| #[trigger] v@.contains(y) <==> old(v)@.contains(y) || y == x by {
        if old(v)@.contains(y) {
            let k = choose|k: int| 0 <= k < old(v)@.len() && old(v)@[k] == y;
            assert(v@[k] == y);
        }
        if v@.contains(y) && y != x {
            let k = choose|k: int| 0 <= k < v@.len() && v@[k] == y;
            assert(old(v)@[k] == y);
        }
    }
}

/// Removes every occurrence of `x` from the set held in `v`.
fn set_remove(v: &mut Vec<CellReference>, x: CellReference)
    ensures
        forall|y: CellReference| #[trigger] final(v)@.contains(y) <==> old(v)@.contains(y) && y != x,
{
    let mut kept: Vec<CellReference> = Vec::new();
    let mut i: usize = 0;
    while i < v.len()
        invariant
            i <= v@.len(),
            forall|y: CellReference| #[trigger] kept@.contains(y) ==> v@.contains(y) && y != x,
            forall|j: int| 0 <= j < i && v@[j] != x ==> kept@.contains(#[trigger] v@[j]),
        decreases v@.len() - i,
    {
        let y = v[i];
        let ghost before = kept@;
        if y != x {
            kept.push(y);
            assert(kept@[before.len() as int] == y);
        }
        assert forall|j: int| 0 <= j < i + 1 && v@[j] != x implies kept@.contains(#[trigger] v@[j]) by {
            if j < i {
                let k = choose|k: int| 0 <= k < before.len() && before[k] == v@[j];
                assert(kept@[k] == v@[j]);
            }
        }
        assert forall|z: CellReference| #[trigger] kept@.contains(z) implies v@.contains(z) && z != x by {
            if !before.contains(z) {
                assert(z == y);
                assert(v@[i as int] == z);
            }
        }
        i = i + 1;
    }
    assert forall|y: CellReference| #[trigger] v@.contains(y) && y != x implies kept@.contains(y) by {
        let k = choose|k: int| 0 <= k < v@.len() && v@[k] == y;
        assert(kept@.contains(v@[k]));
    }
    *v = kept;
}


/// Two cells agree on everything but their edge sets.
pub open spec fn same_payload(a: Cell, b: Cell) -> bool {
    &&& a.value == b.value
    &&& a.formula == b.formula
    &&& a.is_error == b.is_error
    &&& a.is_bold == b.is_bold
    &&& a.is_italics == b.is_italics
}

/// The edge `f -> t` is added to (`add`) or removed from the graph between
/// `a` and `b`, and nothing else changes.
pub open spec fn edge_updated(
    a: Spreadsheet,
    b: Spreadsheet,
    f: CellReference,
    t: CellReference,
    add: bool,
) -> bool {
    &&& b.rows == a.rows
    &&& b.columns == a.columns
    &&& b.shape_ok()
    &&& others_unchanged(a, b, set![f, t])
    &&& same_payload(b.cell(f), a.cell(f))
    &&& same_payload(b.cell(t), a.cell(t))
    &&& forall|y: CellReference| #[trigger] b.cell(f).dependents@.contains(y) <==> if y == t {
        add
    } else {
        a.cell(f).dependents@.contains(y)
    }
    &&& forall|y: CellReference| #[trigger] b.cell(t).precedents@.contains(y) <==> if y == f {
        add
    } else {
        a.cell(t).precedents@.contains(y)
    }
    &&& f != t ==> b.cell(f).precedents == a.cell(f).precedents
    &&& f != t ==> b.cell(t).dependents == a.cell(t).dependents
}

/// Records that the cell `(rt, ct)` reads the cell `(rf, cf)`.
pub fn add_dependency(sheet: &mut Spreadsheet, rf: i32, cf: i32, rt: i32, ct: i32)
    requires
        old(sheet).shape_ok(),
        old(sheet).in_bounds(CellReference { row: rf, column: cf }),
        old(sheet).in_bounds(CellReference { row: rt, column: ct }),
    ensures
        edge_updated(
            *old(sheet),
            *final(sheet),
            (CellReference { row: rf, column: cf }),
            (CellReference { row: rt, column: ct }),
            true,
        ),
{
    let dependent_cell = (CellReference { row: rt, column: ct });
    let precedent_cell = (CellReference { row: rf, column: cf });
    set_insert(&mut sheet.all_cells[rf as usize][cf as usize].dependents, dependent_cell);
    set_insert(&mut sheet.all_cells[rt as usize][ct as usize].precedents, precedent_cell);
}

/// Forgets that the cell `(rt, ct)` reads the cell `(rf, cf)`.
pub fn delete_dependency(sheet: &mut Spreadsheet, rf: i32, cf: i32, rt: i32, ct: i32)
    requires
        old(sheet).shape_ok(),
        old(sheet).in_bounds(CellReference { row: rf, column: cf }),
        old(sheet).in_bounds(CellReference { row: rt, column: ct }),
    ensures
        edge_updated(
            *old(sheet),
            *final(sheet),
            (CellReference { row: rf, column: cf }),
            (CellReference { row: rt, column: ct }),
            false,
        ),
{
    let dependent_cell = (CellReference { row: rt, column: ct });
    let precedent_cell = (CellReference { row: rf, column: cf });
    set_remove(&mut sheet.all_cells[rf as usize][cf as usize].dependents, dependent_cell);
    set_remove(&mut sheet.all_cells[rt as usize][ct as usize].precedents, precedent_cell);
}


/// What an edge update does to the whole graph.
proof fn lemma_edge_updated(a: Spreadsheet, b: Spreadsheet, f: CellReference, t: CellReference, add: bool)
    requires
        a.shape_ok(),
        a.in_bounds(f),
        a.in_bounds(t),
        edge_updated(a, b, f, t, add),
    ensures
        forall|x: CellReference, y: CellReference| a.in_bounds(x) ==> (#[trigger] b.cell(x).dependents@.contains(y)
            <==> if x == f && y == t { add } else { a.cell(x).dependents@.contains(y) }),
        forall|x: CellReference, y: CellReference| a.in_bounds(y) ==> (#[trigger] b.cell(y).precedents@.contains(x)
            <==> if x == f && y == t { add } else { a.cell(y).precedents@.contains(x) }),
        forall|x: CellReference| a.in_bounds(x) ==> same_payload(#[trigger] b.cell(x), a.cell(x)),
        edges_symmetric(a) ==> edges_symmetric(b),
        refs_in_bounds(a) ==> refs_in_bounds(b),
{
    assert forall|x: CellReference, y: CellReference| a.in_bounds(x) implies (#[trigger] b.cell(x).dependents@.contains(y)
        <==> if x == f && y == t { add } else { a.cell(x).dependents@.contains(y) }) by {
        if x != f && x != t {
            assert(!set![f, t].contains(x));
        }
    }
    assert forall|x: CellReference, y: CellReference| a.in_bounds(y) implies (#[trigger] b.cell(y).precedents@.contains(x)
        <==> if x == f && y == t { add } else { a.cell(y).precedents@.contains(x) }) by {
        if y != f && y != t {
            assert(!set![f, t].contains(y));
        }
    }
    assert forall|x: CellReference| a.in_bounds(x) implies same_payload(#[trigger] b.cell(x), a.cell(x)) by {
        if x != f && x != t {
            assert(!set![f, t].contains(x));
        }
    }
}

/// `x` is among the first `n` items of `v`.
pub open spec fn in_prefix(v: Seq<CellReference>, n: int, x: CellReference) -> bool {
    exists|j: int| 0 <= j < n && #[trigger] v[j] == x
}

/// Removes every edge into the cell `(rt, ct)` and empties its precedents.
pub fn clear_precedents(sheet: &mut Spreadsheet, rt: i32, ct: i32)
    requires
        old(sheet).shape_ok(),
        refs_in_bounds(*old(sheet)),
        edges_symmetric(*old(sheet)),
        old(sheet).in_bounds(CellReference { row: rt, column: ct }),
    ensures
        final(sheet).rows == old(sheet).rows,
        final(sheet).columns == old(sheet).columns,
        final(sheet).shape_ok(),
        refs_in_bounds(*final(sheet)),
        edges_symmetric(*final(sheet)),
        final(sheet).cell(CellReference { row: rt, column: ct }).precedents@.len() == 0,
        forall|x: CellReference| old(sheet).in_bounds(x) ==> same_payload(#[trigger] final(sheet).cell(x), old(sheet).cell(x)),
        forall|x: CellReference, y: CellReference| old(sheet).in_bounds(x) ==> (#[trigger] final(sheet).cell(x).dependents@.contains(y)
            <==> old(sheet).cell(x).dependents@.contains(y) && y != CellReference { row: rt, column: ct }),
        forall|x: CellReference, y: CellReference| old(sheet).in_bounds(y) ==> (#[trigger] final(sheet).cell(y).precedents@.contains(x)
            <==> old(sheet).cell(y).precedents@.contains(x) && y != CellReference { row: rt, column: ct }),
{
    let t = (CellReference { row: rt, column: ct });
    let ghost s0 = *sheet;
    let mut preds: Vec<CellReference> = Vec::new();
    let n = sheet.all_cells[rt as usize][ct as usize].precedents.len();
    let mut k: usize = 0;
    while k < n
        invariant
            *sheet == s0,
            s0.shape_ok(),
            t == (CellReference { row: rt, column: ct }),
            s0.in_bounds(t),
            n == s0.cell(t).precedents@.len(),
            k <= n,
            preds@ == s0.cell(t).precedents@.subrange(0, k as int),
        decreases n - k,
    {
        preds.push(sheet.all_cells[rt as usize][ct as usize].precedents[k]);
        assert(preds@ =~= s0.cell(t).precedents@.subrange(0, k + 1));
        k = k + 1;
    }
    assert(preds@ =~= s0.cell(t).precedents@);
    let mut i: usize = 0;
    while i < preds.len()
        invariant
            s0.shape_ok(),
            t == (CellReference { row: rt, column: ct }),
            s0.in_bounds(t),
            refs_in_bounds(s0),
            preds@ == s0.cell(t).precedents@,
            i <= preds@.len(),
            sheet.rows == s0.rows,
            sheet.columns == s0.columns,
            sheet.shape_ok(),
            refs_in_bounds(*sheet),
            edges_symmetric(*sheet),
            forall|x: CellReference| s0.in_bounds(x) ==> same_payload(#[trigger] sheet.cell(x), s0.cell(x)),
            forall|x: CellReference, y: CellReference| s0.in_bounds(x) ==> (#[trigger] sheet.cell(x).dependents@.contains(y)
                <==> s0.cell(x).dependents@.contains(y) && !(y == t && in_prefix(preds@, i as int, x))),
            forall|x: CellReference, y: CellReference| s0.in_bounds(y) ==> (#[trigger] sheet.cell(y).precedents@.contains(x)
                <==> s0.cell(y).precedents@.contains(x) && !(y == t && in_prefix(preds@, i as int, x))),
        decreases preds@.len() - i,
    {
        let p = preds[i];
        assert(s0.cell(t).precedents@.contains(p)) by {
            assert(s0.cell(t).precedents@[i as int] == p);
        }
        assert(s0.in_bounds(p));
        let ghost cur = *sheet;
        delete_dependency(sheet, p.row, p.column, rt, ct);
        proof {
            lemma_edge_updated(cur, *sheet, p, t, false);
            assert forall|x: CellReference| #[trigger] in_prefix(preds@, i + 1, x)
                <==> in_prefix(preds@, i as int, x) || x == p by {
                if in_prefix(preds@, i + 1, x) && !in_prefix(preds@, i as int, x) {
                    let j = choose|j: int| 0 <= j < i + 1 && #[trigger] preds@[j] == x;
                    assert(j == i);
                }
                if x == p {
                    assert(preds@[i as int] == x);
                }
            }
        }
        i = i + 1;
    }
    proof {
        assert forall|x: CellReference| #[trigger] s0.cell(t).precedents@.contains(x) implies in_prefix(preds@, i as int, x) by {
            let j = choose|j: int| 0 <= j < preds@.len() && preds@[j] == x;
            assert(preds@[j] == x);
        }
    }
    let ghost s1 = *sheet;
    assert(forall|x: CellReference| !s1.cell(t).precedents@.contains(x));
    sheet.all_cells[rt as usize][ct as usize].precedents = Vec::new();
    proof {
        assert forall|x: CellReference| s1.in_bounds(x) implies #[trigger] sheet.cell(x).dependents == s1.cell(x).dependents
            && same_payload(sheet.cell(x), s1.cell(x))
            && (x != t ==> sheet.cell(x).precedents == s1.cell(x).precedents)
            && (x == t ==> sheet.cell(x).precedents@ == Seq::<CellReference>::empty()) by {
            if x.row != rt {
                assert(sheet.all_cells@[x.row as int] == s1.all_cells@[x.row as int]);
            }
        }
        assert forall|a: CellReference, b: CellReference| sheet.in_bounds(a) && sheet.in_bounds(b) implies
            (#[trigger] sheet.cell(a).dependents@.contains(b) <==> #[trigger] sheet.cell(b).precedents@.contains(a)) by {
            assert(sheet.cell(a).dependents == s1.cell(a).dependents);
            assert(sheet.cell(b).dependents == s1.cell(b).dependents);
            assert(s1.cell(a).dependents@.contains(b) <==> s1.cell(b).precedents@.contains(a));
        }
        assert forall|a: CellReference, y: CellReference| sheet.in_bounds(a) && #[trigger] sheet.cell(a).dependents@.contains(y) implies sheet.in_bounds(y) by {
            assert(sheet.cell(a).dependents == s1.cell(a).dependents);
        }
        assert forall|a: CellReference, y: CellReference| sheet.in_bounds(a) && #[trigger] sheet.cell(a).precedents@.contains(y) implies sheet.in_bounds(y) by {
            assert(sheet.cell(a).dependents == s1.cell(a).dependents);
        }
        assert forall|a: CellReference| sheet.in_bounds(a) implies expr_in_bounds(#[trigger] sheet.cell(a).formula, sheet.rows, sheet.columns) by {
            assert(sheet.cell(a).dependents == s1.cell(a).dependents);
        }
        assert forall|x: CellReference| s0.in_bounds(x) implies same_payload(#[trigger] sheet.cell(x), s0.cell(x)) by {
            assert(sheet.cell(x).dependents == s1.cell(x).dependents);
            assert(same_payload(s1.cell(x), s0.cell(x)));
        }
        assert forall|x: CellReference, y: CellReference| s0.in_bounds(x) implies (#[trigger] sheet.cell(x).dependents@.contains(y)
            <==> s0.cell(x).dependents@.contains(y) && y != t) by {
            assert(sheet.cell(x).dependents == s1.cell(x).dependents);
            if y == t && s0.cell(x).dependents@.contains(y) {
                assert(s0.cell(t).precedents@.contains(x));
                assert(in_prefix(preds@, i as int, x));
            }
        }
        assert forall|x: CellReference, y: CellReference| s0.in_bounds(y) implies (#[trigger] sheet.cell(y).precedents@.contains(x)
            <==> s0.cell(y).precedents@.contains(x) && y != t) by {
            assert(sheet.cell(y).dependents == s1.cell(y).dependents);
            if y != t {
                assert(sheet.cell(y).precedents == s1.cell(y).precedents);
            } else {
                assert(!sheet.cell(y).precedents@.contains(x));
            }
        }
    }
}


/// Adds the edge `q -> t` for every `q` in `refs`.
pub(crate) fn link_precedents(sheet: &mut Spreadsheet, t: CellReference, refs: &Vec<CellReference>)
    requires
        old(sheet).shape_ok(),
        refs_in_bounds(*old(sheet)),
        edges_symmetric(*old(sheet)),
        old(sheet).in_bounds(t),
        forall|i: int| 0 <= i < refs@.len() ==> old(sheet).in_bounds(#[trigger] refs@[i]),
    ensures
        final(sheet).rows == old(sheet).rows,
        final(sheet).columns == old(sheet).columns,
        final(sheet).shape_ok(),
        refs_in_bounds(*final(sheet)),
        edges_symmetric(*final(sheet)),
        forall|x: CellReference| old(sheet).in_bounds(x) ==> same_payload(#[trigger] final(sheet).cell(x), old(sheet).cell(x)),
        forall|x: CellReference, y: CellReference| old(sheet).in_bounds(x) ==> (#[trigger] final(sheet).cell(x).dependents@.contains(y)
            <==> old(sheet).cell(x).dependents@.contains(y) || (y == t && refs@.contains(x))),
        forall|x: CellReference, y: CellReference| old(sheet).in_bounds(y) ==> (#[trigger] final(sheet).cell(y).precedents@.contains(x)
            <==> old(sheet).cell(y).precedents@.contains(x) || (y == t && refs@.contains(x))),
{
    let ghost s0 = *sheet;
    let mut i: usize = 0;
    while i < refs.len()
        invariant
            s0.shape_ok(),
            s0.in_bounds(t),
            forall|j: int| 0 <= j < refs@.len() ==> s0.in_bounds(#[trigger] refs@[j]),
            i <= refs@.len(),
            sheet.rows == s0.rows,
            sheet.columns == s0.columns,
            sheet.shape_ok(),
            refs_in_bounds(*sheet),
            edges_symmetric(*sheet),
            forall|x: CellReference| s0.in_bounds(x) ==> same_payload(#[trigger] sheet.cell(x), s0.cell(x)),
            forall|x: CellReference, y: CellReference| s0.in_bounds(x) ==> (#[trigger] sheet.cell(x).dependents@.contains(y)
                <==> s0.cell(x).dependents@.contains(y) || (y == t && in_prefix(refs@, i as int, x))),
            forall|x: CellReference, y: CellReference| s0.in_bounds(y) ==> (#[trigger] sheet.cell(y).precedents@.contains(x)
                <==> s0.cell(y).precedents@.contains(x) || (y == t && in_prefix(refs@, i as int, x))),
        decreases refs@.len() - i,
    {
        let q = refs[i];
        assert(s0.in_bounds(refs@[i as int]));
        let ghost cur = *sheet;
        add_dependency(sheet, q.row, q.column, t.row, t.column);
        proof {
            lemma_edge_updated(cur, *sheet, q, t, true);
            assert forall|x: CellReference| #[trigger] in_prefix(refs@, i + 1, x)
                <==> in_prefix(refs@, i as int, x) || x == q by {
                if in_prefix(refs@, i + 1, x) && !in_prefix(refs@, i as int, x) {
                    let j = choose|j: int| 0 <= j < i + 1 && #[trigger] refs@[j] == x;
                    assert(j == i);
                }
                if x == q {
                    assert(refs@[i as int] == x);
                }
            }
        }
        i = i + 1;
    }
    proof {
        assert forall|x: CellReference| #[trigger] refs@.contains(x) <==> in_prefix(refs@, i as int, x) by {
            if refs@.contains(x) {
                let j = choose|j: int| 0 <= j < refs@.len() && refs@[j] == x;
                assert(refs@[j] == x);
            }
            if in_prefix(refs@, i as int, x) {
                let j = choose|j: int| 0 <= j < i && #[trigger] refs@[j] == x;
                assert(refs@[j] == x);
            }
        }
    }
}


/// A cell as it stands before anything is assigned to it.
pub open spec fn is_blank(c: Cell) -> bool {
    &&& c.value == 0
    &&& c.formula == Expr::Number(0)
    &&& !c.is_error
    &&& c.dependents@.len() == 0
    &&& c.precedents@.len() == 0
    &&& !c.is_bold
    &&& !c.is_italics
}

fn blank_cell() -> (c: Cell)
    ensures
        is_blank(c),
{
    Cell {
        value: 0,
        formula: Expr::Number(0),
        is_error: false,
        dependents: Vec::new(),
        precedents: Vec::new(),
        is_bold: false,
        is_italics: false,
    }
}

/// A `rows` x `columns` sheet of blank cells.
pub fn initialise(rows: i32, columns: i32) -> (s: Spreadsheet)
    requires
        1 <= rows <= MAX_ROWS,
        1 <= columns <= MAX_COLS,
    ensures
        s.rows == rows,
        s.columns == columns,
        sheet_wf(s),
        acyclic(s),
        forall|x: CellReference| s.in_bounds(x) ==> is_blank(#[trigger] s.cell(x)),
{
    let mut all_cells: Vec<Vec<Cell>> = Vec::new();
    let mut r: i32 = 0;
    while r < rows
        invariant
            0 <= r <= rows,
            1 <= columns,
            all_cells@.len() == r,
            forall|i: int| 0 <= i < r ==> #[trigger] all_cells@[i]@.len() == columns,
            forall|i: int, j: int| 0 <= i < r && 0 <= j < columns ==> is_blank(#[trigger] all_cells@[i]@[j]),
        decreases rows - r,
    {
        let mut row: Vec<Cell> = Vec::new();
        let mut c: i32 = 0;
        while c < columns
            invariant
                0 <= c <= columns,
                row@.len() == c,
                forall|j: int| 0 <= j < c ==> is_blank(#[trigger] row@[j]),
            decreases columns - c,
        {
            row.push(blank_cell());
            c = c + 1;
        }
        all_cells.push(row);
        r = r + 1;
    }
    let s = Spreadsheet { rows, columns, all_cells };
    assert forall|x: CellReference| s.in_bounds(x) implies is_blank(#[trigger] s.cell(x)) by {
        assert(is_blank(s.all_cells@[x.row as int]@[x.column as int]));
    }
    assert forall|a: CellReference| s.in_bounds(a) implies !#[trigger] on_cycle(s, a) by {
        let v = Set::<CellReference>::empty();
        assert(closed_from(s, a, v));
    }
    s
}


/// Position of a cell in row-major order.
pub open spec fn flat_index(s: Spreadsheet, x: CellReference) -> int {
    x.row * s.columns + x.column
}

proof fn lemma_flat_index(s: Spreadsheet, x: CellReference, y: CellReference)
    requires
        s.shape_ok(),
        s.in_bounds(x),
        s.in_bounds(y),
    ensures
        0 <= flat_index(s, x) < s.rows * s.columns,
        s.rows * s.columns <= MAX_ROWS * MAX_COLS,
        flat_index(s, x) == flat_index(s, y) ==> x == y,
{
    let c = s.columns as int;
    assert(0 <= x.row * c + x.column < s.rows * c) by (nonlinear_arith)
        requires 0 <= x.row < s.rows, 0 <= x.column < c;
    assert(s.rows * c <= MAX_ROWS * MAX_COLS) by (nonlinear_arith)
        requires 1 <= s.rows <= MAX_ROWS, 1 <= c <= MAX_COLS;
    if x.row * c + x.column == y.row * c + y.column {
        if x.row < y.row {
            assert(x.row * c + x.column < y.row * c + y.column) by (nonlinear_arith)
                requires x.row + 1 <= y.row, 0 <= x.column < c, 0 <= y.column;
        } else if y.row < x.row {
            assert(y.row * c + y.column < x.row * c + x.column) by (nonlinear_arith)
                requires y.row + 1 <= x.row, 0 <= y.column < c, 0 <= x.column;
        }
    }
}

fn flat_index_exec(s: &Spreadsheet, x: CellReference) -> (k: usize)
    requires
        s.shape_ok(),
        s.in_bounds(x),
    ensures
        k == flat_index(*s, x),
        k < s.rows * s.columns,
{
    proof {
        lemma_flat_index(*s, x, x);
    }
    assert(x.row * s.columns <= MAX_ROWS * MAX_COLS) by (nonlinear_arith)
        requires 0 <= x.row < s.rows, 1 <= s.rows <= MAX_ROWS, 1 <= s.columns <= MAX_COLS;
    (x.row as usize) * (s.columns as usize) + (x.column as usize)
}

/// The marks `seen` and the list `list` describe the same cells, each once.
pub open spec fn search_state(s: Spreadsheet, seen: Seq<bool>, list: Seq<CellReference>, vs: Set<int>) -> bool {
    &&& seen.len() == s.rows * s.columns
    &&& vs.finite()
    &&& vs.len() == list.len()
    &&& forall|k: int| #[trigger] vs.contains(k) <==> 0 <= k < seen.len() && seen[k]
    &&& forall|i: int| 0 <= i < list.len() ==> s.in_bounds(#[trigger] list[i]) && seen[flat_index(s, list[i])]
    &&& forall|y: CellReference| s.in_bounds(y) && #[trigger] seen[flat_index(s, y)] ==> list.contains(y)
}

/// Marks and lists the dependents of `x` not seen before.
fn push_successors(
    s: &Spreadsheet,
    o: CellReference,
    x: CellReference,
    seen: &mut Vec<bool>,
    list: &mut Vec<CellReference>,
    Ghost(vs0): Ghost<Set<int>>,
) -> (vs: Ghost<Set<int>>)
    requires
        s.shape_ok(),
        refs_in_bounds(*s),
        s.in_bounds(o),
        s.in_bounds(x),
        x == o || downstream(*s, o, x),
        search_state(*s, old(seen)@, old(list)@, vs0),
        forall|i: int| 0 <= i < old(list)@.len() ==> downstream(*s, o, #[trigger] old(list)@[i]),
    ensures
        search_state(*s, final(seen)@, final(list)@, vs@),
        forall|i: int| 0 <= i < final(list)@.len() ==> downstream(*s, o, #[trigger] final(list)@[i]),
        forall|i: int| 0 <= i < old(list)@.len() ==> final(list)@[i] == old(list)@[i],
        old(list)@.len() <= final(list)@.len(),
        forall|k: int| 0 <= k < old(seen)@.len() && old(seen)@[k] ==> final(seen)@[k],
        forall|y: CellReference| #[trigger] edge(*s, x, y) ==> final(seen)@[flat_index(*s, y)],
{
    let deps = &s.all_cells[x.row as usize][x.column as usize].dependents;
    let ghost mut vs = vs0;
    let mut j: usize = 0;
    while j < deps.len()
        invariant
            *deps == s.cell(x).dependents,
            s.shape_ok(),
            refs_in_bounds(*s),
            s.in_bounds(o),
            s.in_bounds(x),
            x == o || downstream(*s, o, x),
            j <= deps@.len(),
            search_state(*s, seen@, list@, vs),
            old(seen)@.len() == s.rows * s.columns,
            forall|i: int| 0 <= i < list@.len() ==> downstream(*s, o, #[trigger] list@[i]),
            forall|i: int| 0 <= i < old(list)@.len() ==> list@[i] == old(list)@[i],
            old(list)@.len() <= list@.len(),
            forall|k: int| 0 <= k < old(seen)@.len() && old(seen)@[k] ==> seen@[k],
            forall|i: int| 0 <= i < j ==> seen@[flat_index(*s, #[trigger] deps@[i])],
        decreases deps@.len() - j,
    {
        let d = deps[j];
        let ghost seen_before = seen@;
        assert(s.cell(x).dependents@.contains(d));
        assert(s.in_bounds(d));
        let k = flat_index_exec(s, d);
        if !seen[k] {
            proof {
                assert forall|v: Set<CellReference>| #[trigger] closed_from(*s, o, v) implies v.contains(d) by {
                    assert(edge(*s, x, d));
                    if x != o {
                        assert(v.contains(x));
                    }
                }
                assert(!vs.contains(k as int));
            }
            let ghost old_list = list@;
            let ghost old_seen = seen@;
            let ghost old_vs = vs;
            proof {
                vs = vs.insert(k as int);
            }
            seen.set(k, true);
            list.push(d);
            proof {
                assert(seen@ =~= old_seen.update(k as int, true));
                assert(forall|m: int| 0 <= m < old_seen.len() && old_seen[m] ==> #[trigger] seen@[m]);
                assert(vs.len() == old_vs.len() + 1);
                assert forall|m: int| #[trigger] vs.contains(m) <==> 0 <= m < seen@.len() && seen@[m] by {
                    if m != k {
                        assert(old_vs.contains(m) <==> 0 <= m < old_seen.len() && old_seen[m]);
                    }
                }
                assert forall|i: int| 0 <= i < list@.len() implies s.in_bounds(#[trigger] list@[i]) && seen@[flat_index(*s, list@[i])] by {
                    if i < old_list.len() {
                        assert(list@[i] == old_list[i]);
                        assert(old_seen[flat_index(*s, old_list[i])]);
                        lemma_flat_index(*s, old_list[i], d);
                    }
                }
                assert forall|y: CellReference| s.in_bounds(y) && #[trigger] seen@[flat_index(*s, y)] implies list@.contains(y) by {
                    lemma_flat_index(*s, y, d);
                    if y == d {
                        assert(list@[list@.len() - 1] == d);
                    } else {
                        assert(old_seen[flat_index(*s, y)]);
                        assert(old_list.contains(y));
                        let m = choose|m: int| 0 <= m < old_list.len() && old_list[m] == y;
                        assert(list@[m] == y);
                    }
                }
                assert forall|i: int| 0 <= i < list@.len() implies downstream(*s, o, #[trigger] list@[i]) by {
                    if i < old_list.len() {
                        assert(list@[i] == old_list[i]);
                    }
                }
            }
        }
        assert(seen@[k as int]);
        assert(seen@ =~= seen_before.update(k as int, true));
        assert forall|m: int| 0 <= m < old(seen)@.len() && old(seen)@[m] implies seen@[m] by {
            assert(seen_before[m]);
            assert(seen@.len() == seen_before.len());
            assert(old(seen)@.len() == seen_before.len());
            if m != k as int {
                assert(seen_before.update(k as int, true)[m] == seen_before[m]);
            }
        }
        assert forall|i: int| 0 <= i < j + 1 implies seen@[flat_index(*s, #[trigger] deps@[i])] by {
            assert(s.cell(x).dependents@.contains(deps@[i]));
            lemma_flat_index(*s, deps@[i], d);
            if i < j {
                assert(seen_before[flat_index(*s, deps@[i])]);
            }
        }
        j = j + 1;
    }
    assert forall|y: CellReference| #[trigger] edge(*s, x, y) implies seen@[flat_index(*s, y)] by {
        let i = choose|i: int| 0 <= i < deps@.len() && deps@[i] == y;
        assert(seen@[flat_index(*s, deps@[i])]);
    }
    Ghost(vs)
}


proof fn lemma_search_bound(s: Spreadsheet, seen: Seq<bool>, list: Seq<CellReference>, vs: Set<int>)
    requires
        search_state(s, seen, list, vs),
    ensures
        list.len() <= seen.len(),
{
    vstd::set_lib::lemma_int_range(0, seen.len() as int);
    assert(vs.subset_of(vstd::set_lib::set_int_range(0, seen.len() as int)));
    vstd::set_lib::lemma_len_subset(vs, vstd::set_lib::set_int_range(0, seen.len() as int));
}

/// Every cell reachable from `o` by one or more edges, each listed once.
pub fn dependents_closure(s: &Spreadsheet, o: CellReference) -> (list: Vec<CellReference>)
    requires
        s.shape_ok(),
        refs_in_bounds(*s),
        s.in_bounds(o),
    ensures
        forall|i: int| 0 <= i < list@.len() ==> s.in_bounds(#[trigger] list@[i]),
        forall|x: CellReference| s.in_bounds(x) ==> (#[trigger] list@.contains(x) <==> downstream(*s, o, x)),
        list@.len() <= s.rows * s.columns,
{
    proof {
        lemma_flat_index(*s, o, o);
    }
    let total: usize = (s.rows as usize) * (s.columns as usize);
    let mut seen: Vec<bool> = vec![false; total];
    let mut list: Vec<CellReference> = Vec::new();
    let ghost vs0 = Set::<int>::empty();
    assert forall|y: CellReference| s.in_bounds(y) && #[trigger] seen@[flat_index(*s, y)] implies list@.contains(y) by {
        lemma_flat_index(*s, y, y);
    }
    let Ghost(vs1) = push_successors(s, o, o, &mut seen, &mut list, Ghost(vs0));
    let ghost mut vs = vs1;
    let mut head: usize = 0;
    while head < list.len()
        invariant
            s.shape_ok(),
            refs_in_bounds(*s),
            s.in_bounds(o),
            total == s.rows * s.columns,
            head <= list@.len(),
            search_state(*s, seen@, list@, vs),
            forall|i: int| 0 <= i < list@.len() ==> downstream(*s, o, #[trigger] list@[i]),
            forall|y: CellReference| #[trigger] edge(*s, o, y) ==> seen@[flat_index(*s, y)],
            forall|i: int, y: CellReference| 0 <= i < head && #[trigger] edge(*s, list@[i], y) ==> seen@[flat_index(*s, y)],
        decreases total - head,
    {
        proof {
            lemma_search_bound(*s, seen@, list@, vs);
        }
        let x = list[head];
        let ghost list_before = list@;
        let ghost seen_before = seen@;
        let Ghost(vs2) = push_successors(s, o, x, &mut seen, &mut list, Ghost(vs));
        proof {
            vs = vs2;
            assert forall|y: CellReference| #[trigger] edge(*s, o, y) implies seen@[flat_index(*s, y)] by {
                assert(seen_before[flat_index(*s, y)]);
                assert(s.cell(o).dependents@.contains(y));
                lemma_flat_index(*s, y, y);
            }
            assert forall|i: int, y: CellReference| 0 <= i < head + 1 && #[trigger] edge(*s, list@[i], y) implies seen@[flat_index(*s, y)] by {
                assert(list@[i] == list_before[i]);
                if i < head {
                    assert(seen_before[flat_index(*s, y)]);
                    assert(s.in_bounds(list@[i]));
                    assert(s.cell(list@[i]).dependents@.contains(y));
                    lemma_flat_index(*s, y, y);
                }
            }
        }
        head = head + 1;
    }
    proof {
        lemma_search_bound(*s, seen@, list@, vs);
        let v = list@.to_set();
        assert forall|a: CellReference, b: CellReference| #[trigger] v.contains(a) && s.in_bounds(a) && #[trigger] edge(*s, a, b) implies v.contains(b) by {
            let i = choose|i: int| 0 <= i < list@.len() && list@[i] == a;
            assert(edge(*s, list@[i], b));
            assert(s.in_bounds(a));
            assert(s.cell(a).dependents@.contains(b));
            assert(s.in_bounds(b));
            assert(list@.contains(b));
        }
        assert forall|b: CellReference| s.in_bounds(o) && #[trigger] edge(*s, o, b) implies v.contains(b) by {
            assert(s.cell(o).dependents@.contains(b));
            assert(s.in_bounds(b));
            assert(list@.contains(b));
        }
        assert(closed_from(*s, o, v));
        assert forall|x: CellReference| s.in_bounds(x) implies (#[trigger] list@.contains(x) <==> downstream(*s, o, x)) by {
            if downstream(*s, o, x) {
                assert(v.contains(x));
            }
            if list@.contains(x) {
                let i = choose|i: int| 0 <= i < list@.len() && list@[i] == x;
                assert(downstream(*s, o, list@[i]));
            }
        }
    }
    list
}

/// Whether the cell `(row, col)` lies on a cycle of the dependency graph.
pub fn has_cycle(sheet: &Spreadsheet, row: i32, col: i32) -> (r: bool)
    requires
        sheet.shape_ok(),
        refs_in_bounds(*sheet),
        sheet.in_bounds(CellReference { row, column: col }),
    ensures
        r == on_cycle(*sheet, CellReference { row, column: col }),
{
    let o = CellReference { row, column: col };
    let list = dependents_closure(sheet, o);
    let mut i: usize = 0;
    while i < list.len()
        invariant
            o == (CellReference { row, column: col }),
            sheet.in_bounds(o),
            forall|x: CellReference| sheet.in_bounds(x) ==> (#[trigger] list@.contains(x) <==> downstream(*sheet, o, x)),
            i <= list@.len(),
            forall|j: int| 0 <= j < i ==> list@[j] != o,
        decreases list@.len() - i,
    {
        if list[i] == o {
            assert(list@.contains(o));
            return true;
        }
        i = i + 1;
    }
    assert(!list@.contains(o));
    false
}

} // verus!
