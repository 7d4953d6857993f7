use vstd::prelude::*;
use crate::cell::{CellReference, Spreadsheet};
use crate::graph::{acyclic, closed_from, downstream, edge, on_cycle};

verus! {

/// `x` is settled after `j` passes over `d`: it lies in `d`, and every edge
/// into it from `d` comes from a cell settled after `j - 1` passes.
pub open spec fn in_tier(s: Spreadsheet, d: Set<CellReference>, j: int, x: CellReference) -> bool
    decreases j,
{
    if j <= 0 {
        false
    } else {
        d.contains(x) && forall|p: CellReference| d.contains(p) && #[trigger] edge(s, p, x) ==> in_tier(s, d, j - 1, p)
    }
}

pub open spec fn tier(s: Spreadsheet, d: Set<CellReference>, j: int) -> Set<CellReference> {
    Set::new(|x: CellReference| in_tier(s, d, j, x))
}

pub proof fn lemma_tier_mono(s: Spreadsheet, d: Set<CellReference>, j: int, x: CellReference)
    requires
        in_tier(s, d, j, x),
    ensures
        in_tier(s, d, j + 1, x),
    decreases j,
{
    assert forall|p: CellReference| d.contains(p) && #[trigger] edge(s, p, x) implies in_tier(s, d, j, p) by {
        if j > 1 {
            lemma_tier_mono(s, d, j - 1, p);
        }
    }
}

/// A path from `y` to `z` closes a cycle through `y` when `z` has an
/// edge to `y`.
pub proof fn lemma_path_back_is_cycle(s: Spreadsheet, y: CellReference, z: CellReference)
    requires
        s.in_bounds(y),
        s.in_bounds(z),
        downstream(s, y, z),
        edge(s, z, y),
    ensures
        on_cycle(s, y),
{
    assert forall|v: Set<CellReference>| #[trigger] closed_from(s, y, v) implies v.contains(y) by {
        assert(v.contains(z));
    }
}

/// `b` is reachable from `a` by one or more edges.
#[verifier::opaque]
pub open spec fn reaches(s: Spreadsheet, a: CellReference, b: CellReference) -> bool {
    downstream(s, a, b)
}

/// An edge followed by a path is a path.
proof fn lemma_edge_then_reaches(s: Spreadsheet, p: CellReference, y: CellReference, z: CellReference)
    requires
        s.in_bounds(p),
        s.in_bounds(y),
        edge(s, p, y),
        reaches(s, y, z),
    ensures
        reaches(s, p, z),
{
    reveal(reaches);
    assert forall|v: Set<CellReference>| #[trigger] closed_from(s, p, v) implies v.contains(z) by {
        assert(v.contains(y));
        assert(closed_from(s, y, v));
    }
}

proof fn lemma_edge_reaches(s: Spreadsheet, p: CellReference, y: CellReference)
    requires
        s.in_bounds(p),
        edge(s, p, y),
    ensures
        reaches(s, p, y),
{
    reveal(reaches);
    assert forall|v: Set<CellReference>| #[trigger] closed_from(s, p, v) implies v.contains(y) by {}
}

/// The cells of `r` from which `x0` is reachable.
pub open spec fn reaching(s: Spreadsheet, r: Set<CellReference>, x0: CellReference) -> Set<CellReference> {
    r.filter(|y: CellReference| reaches(s, y, x0))
}

proof fn lemma_reaching_closed(s: Spreadsheet, r: Set<CellReference>, x0: CellReference)
    requires
        forall|x: CellReference| #[trigger] r.contains(x) ==> s.in_bounds(x),
        forall|x: CellReference| #[trigger] r.contains(x) ==> exists|p: CellReference| r.contains(p) && edge(s, p, x),
    ensures
        forall|y: CellReference| #[trigger] reaching(s, r, x0).contains(y) ==> exists|p: CellReference|
            reaching(s, r, x0).contains(p) && edge(s, p, y),
{
    let b = reaching(s, r, x0);
    assert forall|y: CellReference| #[trigger] b.contains(y) implies exists|p: CellReference| b.contains(p) && edge(s, p, y) by {
        assert(r.contains(y));
        let p = choose|p: CellReference| r.contains(p) && edge(s, p, y);
        lemma_edge_then_reaches(s, p, y, x0);
        assert(b.contains(p));
    }
}

/// A finite set of cells in which every cell has an edge coming from the
/// set holds a cell from which it is reachable again.
pub proof fn lemma_pred_cycle(s: Spreadsheet, r: Set<CellReference>)
    requires
        r.finite(),
        r.len() > 0,
        forall|x: CellReference| #[trigger] r.contains(x) ==> s.in_bounds(x),
        forall|x: CellReference| #[trigger] r.contains(x) ==> exists|p: CellReference| r.contains(p) && edge(s, p, x),
    ensures
        exists|x: CellReference| r.contains(x) && #[trigger] reaches(s, x, x),
    decreases r.len(),
{
    let x0 = r.choose();
    assert(r.contains(x0));
    let b = reaching(s, r, x0);
    if b.contains(x0) {
        assert(reaches(s, x0, x0));
    } else {
        let p1 = choose|p: CellReference| r.contains(p) && edge(s, p, x0);
        lemma_edge_reaches(s, p1, x0);
        assert(b.contains(p1));
        assert(b.subset_of(r.remove(x0)));
        vstd::set_lib::lemma_len_subset(b, r.remove(x0));
        assert(b.len() > 0) by {
            if b.len() == 0 {
                assert(b =~= Set::<CellReference>::empty());
            }
        }
        lemma_reaching_closed(s, r, x0);
        lemma_pred_cycle(s, b);
        let x = choose|x: CellReference| b.contains(x) && #[trigger] reaches(s, x, x);
        assert(r.contains(x));
    }
}

/// Each pass settles a cell more until all of `d` is settled.
pub proof fn lemma_tier_grows(s: Spreadsheet, d: Set<CellReference>, j: int)
    requires
        j >= 0,
        acyclic(s),
        d.finite(),
        forall|x: CellReference| #[trigger] d.contains(x) ==> s.in_bounds(x),
        !(d =~= tier(s, d, j)),
    ensures
        tier(s, d, j).subset_of(tier(s, d, j + 1)),
        tier(s, d, j + 1).subset_of(d),
        tier(s, d, j).len() < tier(s, d, j + 1).len(),
{
    let t0 = tier(s, d, j);
    let t1 = tier(s, d, j + 1);
    assert forall|x: CellReference| #[trigger] t0.contains(x) implies t1.contains(x) by {
        lemma_tier_mono(s, d, j, x);
    }
    assert(t0.subset_of(d));
    assert(t1.subset_of(d));
    vstd::set_lib::lemma_len_subset(t0, d);
    vstd::set_lib::lemma_len_subset(t1, d);
    if t1.len() <= t0.len() {
        vstd::set_lib::lemma_len_subset(t0, t1);
        vstd::set_lib::lemma_subset_equality(t0, t1);
        let r = d.difference(t0);
        assert(r.finite());
        let w = choose|w: CellReference| !(d.contains(w) <==> t0.contains(w));
        assert(r.contains(w));
        assert(r.len() > 0) by {
            if r.len() == 0 {
                assert(r =~= Set::<CellReference>::empty());
            }
        }
        assert forall|x: CellReference| #[trigger] r.contains(x) implies exists|p: CellReference| r.contains(p) && edge(s, p, x) by {
            assert(!t1.contains(x));
            assert(!in_tier(s, d, j + 1, x));
            let p = choose|p: CellReference| d.contains(p) && #[trigger] edge(s, p, x) && !in_tier(s, d, j, p);
            assert(r.contains(p));
        }
        lemma_pred_cycle(s, r);
        let x = choose|x: CellReference| r.contains(x) && #[trigger] reaches(s, x, x);
        reveal(reaches);
        assert(on_cycle(s, x));
        assert(!on_cycle(s, x));
    }
}

/// After as many passes as `d` has cells, all of `d` is settled.
pub proof fn lemma_tier_full(s: Spreadsheet, d: Set<CellReference>, j: int)
    requires
        j >= 0,
        acyclic(s),
        d.finite(),
        forall|x: CellReference| #[trigger] d.contains(x) ==> s.in_bounds(x),
        !(d =~= tier(s, d, j)),
    ensures
        j < d.len(),
{
    lemma_tier_size(s, d, j);
}

pub proof fn lemma_tier_size(s: Spreadsheet, d: Set<CellReference>, j: int)
    requires
        j >= 0,
        acyclic(s),
        d.finite(),
        forall|x: CellReference| #[trigger] d.contains(x) ==> s.in_bounds(x),
        !(d =~= tier(s, d, j)),
    ensures
        tier(s, d, j).len() >= j,
        tier(s, d, j).len() < d.len(),
    decreases j,
{
    let t = tier(s, d, j);
    assert(t.subset_of(d));
    vstd::set_lib::lemma_len_subset(t, d);
    if t.len() == d.len() {
        vstd::set_lib::lemma_subset_equality(t, d);
    }
    if j > 0 {
        let t0 = tier(s, d, j - 1);
        if d =~= t0 {
            assert forall|x: CellReference| #[trigger] d.contains(x) implies t.contains(x) by {
                assert(t0.contains(x));
                lemma_tier_mono(s, d, j - 1, x);
            }
            assert(d =~= t);
        } else {
            lemma_tier_size(s, d, j - 1);
            lemma_tier_grows(s, d, j - 1);
        }
    }
}

} // verus!
