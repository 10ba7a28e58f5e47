//! The engine's cross-cutting guarantees, stated on their own.

use vstd::prelude::*;

use crate::engine::Runtime;

verus! {

/// Law: a live computation's dependency set after any run equals exactly the
/// cells it read during that run — its latest subscriptions are neither stale
/// nor missing. This holds of every well-formed runtime state.
pub proof fn lemma_deps_match_latest_run(rt: Runtime, comp: usize, cell: usize)
    requires
        rt.wf(),
        comp < rt.n_comps(),
        !rt.disposed@[comp as int],
    ensures
        rt.has_edge(cell, comp) <==> rt.read_logged(comp, cell),
{
}

/// `k` is a descendant of `p` through at most `depth + 1` ownership links of
/// the given state: its child, or a child of a descendant.
pub open spec fn descends(o: Runtime, p: usize, k: usize, depth: nat) -> bool
    decreases depth,
{
    o.has_link(p, k) || (depth > 0 && exists|m: usize|
        o.has_link(p, m) && descends(o, m, k, (depth - 1) as nat))
}

/// Law: disposal cascades. After `dispose`, every computation that the
/// disposed handle owned transitively (through the ownership links of the
/// state before the call) is disposed as well. The hypothesis below is
/// exactly what `dispose` ensures.
pub proof fn lemma_dispose_cascades(o: Runtime, f: Runtime, p: usize, k: usize, depth: nat)
    requires
        f.disposed@[p as int],
        forall|a: usize, b: usize|
            o.has_link(a, b) && f.disposed@[a as int] ==> f.disposed@[b as int],
        descends(o, p, k, depth),
    ensures
        f.disposed@[k as int],
    decreases depth,
{
    if !o.has_link(p, k) {
        let m = choose|m: usize| o.has_link(p, m) && descends(o, m, k, (depth - 1) as nat);
        assert(f.disposed@[m as int]);
        lemma_dispose_cascades(o, f, m, k, (depth - 1) as nat);
    }
}

/// Law: a disposed computation is subscribed to no cell at all, so no write
/// can ever make it pending again.
pub proof fn lemma_disposed_is_detached(rt: Runtime, comp: usize, cell: usize)
    requires
        rt.wf(),
        comp < rt.n_comps(),
        rt.disposed@[comp as int],
    ensures
        !rt.has_edge(cell, comp),
{
    assert forall|i: int| 0 <= i < rt.edges@.len() implies (#[trigger] rt.edges@[i]).comp
        != comp by {
        assert(!rt.disposed@[rt.edges@[i].comp as int]);
    }
}

} // verus!
