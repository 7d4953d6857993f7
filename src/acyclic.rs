use vstd::prelude::*;
use crate::cell::{CellReference, Spreadsheet};
use crate::graph::{acyclic, closed_from, downstream, edge, on_cycle};

verus! {

/// The cells downstream of `o`: the least set that holds the dependents of
/// `o` and is closed under edges.
pub open spec fn downstream_set(s: Spreadsheet, o: CellReference) -> Set<CellReference> {
    Set::new(|x: CellReference| downstream(s, o, x))
}

pub proof fn lemma_downstream_set_closed(s: Spreadsheet, o: CellReference)
    ensures
        closed_from(s, o, downstream_set(s, o)),
{
    let d = downstream_set(s, o);
    assert forall|b: CellReference| s.in_bounds(o) && #[trigger] edge(s, o, b) implies d.contains(b) by {
        assert forall|v: Set<CellReference>| #[trigger] closed_from(s, o, v) implies v.contains(b) by {}
    }
    assert forall|a: CellReference, b: CellReference| #[trigger] d.contains(a) && s.in_bounds(a) && #[trigger] edge(s, a, b) implies d.contains(b) by {
        assert forall|v: Set<CellReference>| #[trigger] closed_from(s, o, v) implies v.contains(b) by {
            assert(v.contains(a));
        }
    }
}

/// Two sheets of the same dimensions with the same edges have the same
/// downstream cells and the same cycles.
pub proof fn lemma_same_edges(a: Spreadsheet, b: Spreadsheet)
    requires
        a.rows == b.rows,
        a.columns == b.columns,
        forall|x: CellReference, y: CellReference| a.in_bounds(x) ==> #[trigger] edge(a, x, y) == edge(b, x, y),
    ensures
        forall|o: CellReference, x: CellReference| #[trigger] downstream(b, o, x) == downstream(a, o, x),
        acyclic(a) == acyclic(b),
{
    assert forall|o: CellReference, x: CellReference| #[trigger] downstream(b, o, x) == downstream(a, o, x) by {
        assert forall|v: Set<CellReference>| #[trigger] closed_from(b, o, v) == closed_from(a, o, v) by {
            if closed_from(a, o, v) {
                assert forall|x: CellReference, y: CellReference| #[trigger] v.contains(x) && b.in_bounds(x) && #[trigger] edge(b, x, y) implies v.contains(y) by {
                    assert(edge(a, x, y));
                }
                assert forall|y: CellReference| b.in_bounds(o) && #[trigger] edge(b, o, y) implies v.contains(y) by {
                    assert(edge(a, o, y));
                }
            }
            if closed_from(b, o, v) {
                assert forall|x: CellReference, y: CellReference| #[trigger] v.contains(x) && a.in_bounds(x) && #[trigger] edge(a, x, y) implies v.contains(y) by {
                    assert(edge(b, x, y));
                }
                assert forall|y: CellReference| a.in_bounds(o) && #[trigger] edge(a, o, y) implies v.contains(y) by {
                    assert(edge(b, o, y));
                }
            }
        }
        if downstream(a, o, x) {
            assert forall|v: Set<CellReference>| #[trigger] closed_from(b, o, v) implies v.contains(x) by {
                assert(closed_from(a, o, v));
            }
        }
        if downstream(b, o, x) {
            assert forall|v: Set<CellReference>| #[trigger] closed_from(a, o, v) implies v.contains(x) by {
                assert(closed_from(b, o, v));
            }
        }
    }
    assert forall|o: CellReference| a.in_bounds(o) implies #[trigger] on_cycle(a, o) == on_cycle(b, o) by {
        assert(downstream(b, o, o) == downstream(a, o, o));
    }
    if acyclic(a) {
        assert forall|o: CellReference| b.in_bounds(o) implies !#[trigger] on_cycle(b, o) by {
            assert(on_cycle(a, o) == on_cycle(b, o));
        }
    }
    if acyclic(b) {
        assert forall|o: CellReference| a.in_bounds(o) implies !#[trigger] on_cycle(a, o) by {
            assert(on_cycle(a, o) == on_cycle(b, o));
        }
    }
}

/// `g2` is `g0` with the edges into `t` replaced by an edge from each cell
/// of `q`.
pub open spec fn relinked(g0: Spreadsheet, g2: Spreadsheet, t: CellReference, q: Set<CellReference>) -> bool {
    &&& g0.rows == g2.rows
    &&& g0.columns == g2.columns
    &&& g0.in_bounds(t)
    &&& forall|x: CellReference| #[trigger] q.contains(x) ==> g0.in_bounds(x)
    &&& forall|x: CellReference, y: CellReference| g0.in_bounds(x) ==> (#[trigger] edge(g2, x, y) <==> if y == t {
        q.contains(x)
    } else {
        edge(g0, x, y)
    })
}

/// Relinking `t` closes a cycle exactly when one of its new precedents is
/// `t` itself or lies downstream of `t`.
pub proof fn lemma_relink_cycle(g0: Spreadsheet, g2: Spreadsheet, t: CellReference, q: Set<CellReference>)
    requires
        relinked(g0, g2, t, q),
        !on_cycle(g0, t),
    ensures
        on_cycle(g2, t) <==> exists|z: CellReference| #[trigger] q.contains(z) && (z == t || downstream(g0, t, z)),
{
    if exists|z: CellReference| #[trigger] q.contains(z) && (z == t || downstream(g0, t, z)) {
        let z = choose|z: CellReference| #[trigger] q.contains(z) && (z == t || downstream(g0, t, z));
        assert forall|v: Set<CellReference>| #[trigger] closed_from(g2, t, v) implies v.contains(t) by {
            if z == t {
                assert(edge(g2, t, t));
            } else {
                let w = v.insert(t);
                assert forall|b: CellReference| g0.in_bounds(t) && #[trigger] edge(g0, t, b) implies w.contains(b) by {
                    if b != t {
                        assert(edge(g2, t, b));
                    }
                }
                assert forall|a: CellReference, b: CellReference| #[trigger] w.contains(a) && g0.in_bounds(a) && #[trigger] edge(g0, a, b) implies w.contains(b) by {
                    if b != t {
                        assert(edge(g2, a, b));
                        if a == t {
                            assert(v.contains(b));
                        } else {
                            assert(v.contains(a));
                        }
                    }
                }
                assert(closed_from(g0, t, w));
                assert(w.contains(z));
                assert(v.contains(z));
                assert(edge(g2, z, t));
            }
        }
    } else {
        let d = downstream_set(g0, t);
        lemma_downstream_set_closed(g0, t);
        assert(!d.contains(t));
        assert forall|b: CellReference| g2.in_bounds(t) && #[trigger] edge(g2, t, b) implies d.contains(b) by {
            if b == t {
                assert(q.contains(t));
            } else {
                assert(edge(g0, t, b));
            }
        }
        assert forall|a: CellReference, b: CellReference| #[trigger] d.contains(a) && g2.in_bounds(a) && #[trigger] edge(g2, a, b) implies d.contains(b) by {
            if b == t {
                assert(q.contains(a));
                assert(downstream(g0, t, a));
            } else {
                assert(edge(g0, a, b));
            }
        }
        assert(closed_from(g2, t, d));
    }
}

/// Relinking `t` without closing a cycle through `t` keeps an acyclic
/// graph acyclic.
pub proof fn lemma_relink_acyclic(g0: Spreadsheet, g2: Spreadsheet, t: CellReference, q: Set<CellReference>)
    requires
        relinked(g0, g2, t, q),
        acyclic(g0),
        !on_cycle(g2, t),
    ensures
        acyclic(g2),
{
    assert forall|a: CellReference| g2.in_bounds(a) implies !#[trigger] on_cycle(g2, a) by {
        if a != t {
            assert(!on_cycle(g0, a));
            assert(!on_cycle(g0, t));
            let d0 = downstream_set(g0, a);
            lemma_downstream_set_closed(g0, a);
            assert(!d0.contains(a));
            if !exists|z: CellReference| #[trigger] q.contains(z) && (z == a || d0.contains(z)) {
                let v = d0.remove(t);
                assert forall|b: CellReference| g2.in_bounds(a) && #[trigger] edge(g2, a, b) implies v.contains(b) by {
                    if b == t {
                        assert(q.contains(a));
                    } else {
                        assert(edge(g0, a, b));
                    }
                }
                assert forall|x: CellReference, b: CellReference| #[trigger] v.contains(x) && g2.in_bounds(x) && #[trigger] edge(g2, x, b) implies v.contains(b) by {
                    if b == t {
                        assert(q.contains(x));
                    } else {
                        assert(edge(g0, x, b));
                    }
                }
                assert(closed_from(g2, a, v));
            } else {
                let z = choose|z: CellReference| #[trigger] q.contains(z) && (z == a || d0.contains(z));
                let w = downstream_set(g2, t);
                lemma_downstream_set_closed(g2, t);
                assert(!w.contains(t));
                if w.contains(a) {
                    assert forall|v: Set<CellReference>| #[trigger] closed_from(g2, t, v) implies v.contains(t) by {
                        assert(v.contains(a));
                        if z != a {
                            let v2 = v.insert(t);
                            assert forall|b: CellReference| g0.in_bounds(a) && #[trigger] edge(g0, a, b) implies v2.contains(b) by {
                                if b != t {
                                    assert(edge(g2, a, b));
                                }
                            }
                            assert forall|x: CellReference, b: CellReference| #[trigger] v2.contains(x) && g0.in_bounds(x) && #[trigger] edge(g0, x, b) implies v2.contains(b) by {
                                if b != t {
                                    if x == t {
                                        assert(edge(g0, t, b));
                                        assert(edge(g2, t, b));
                                    } else {
                                        assert(edge(g2, x, b));
                                    }
                                }
                            }
                            assert(closed_from(g0, a, v2));
                            assert(downstream(g0, a, z));
                            assert(v2.contains(z));
                        }
                        if z == t {
                            assert(edge(g2, t, t));
                        } else {
                            assert(v.contains(z));
                            assert(edge(g2, z, t));
                        }
                    }
                    assert(on_cycle(g2, t));
                } else {
                    let v = d0.union(w).insert(t);
                    assert forall|b: CellReference| g2.in_bounds(a) && #[trigger] edge(g2, a, b) implies v.contains(b) by {
                        if b != t {
                            assert(edge(g0, a, b));
                        }
                    }
                    assert forall|x: CellReference, b: CellReference| #[trigger] v.contains(x) && g2.in_bounds(x) && #[trigger] edge(g2, x, b) implies v.contains(b) by {
                        if b != t {
                            if x == t {
                                assert(w.contains(b));
                            } else if w.contains(x) {
                                assert(w.contains(b));
                            } else {
                                assert(d0.contains(x));
                                assert(edge(g0, x, b));
                                assert(d0.contains(b));
                            }
                        }
                    }
                    assert(closed_from(g2, a, v));
                    assert(!v.contains(a));
                }
            }
        }
    }
}

} // verus!
