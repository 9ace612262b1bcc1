//! A mathematical model of parent-pointer forests, used by the union-find
//! structure. A forest is a parent array together with a ghost `level`
//! measure that strictly decreases along parent chains; the measure both
//! witnesses acyclicity and serves as the termination metric for walking
//! a chain to its root.

use vstd::prelude::*;

verus! {

/// The parent array stays in range, and the `level` measure strictly
/// decreases from child to parent, which rules out cycles.
pub open spec fn forest_ok(p: Seq<usize>, lv: Seq<nat>) -> bool {
    &&& p.len() == lv.len()
    &&& forall|i: int| 0 <= i < p.len() ==> (#[trigger] p[i]) < p.len()
    &&& forall|i: int|
        0 <= i < p.len() && (#[trigger] p[i]) != i ==> lv[p[i] as int] < lv[i]
}

/// The representative of `x`: the fixed point reached by following parents.
pub open spec fn chain_root(p: Seq<usize>, lv: Seq<nat>, x: int) -> int
    decreases lv[x]
        when 0 <= x < p.len() && forest_ok(p, lv)
{
    if p[x] == x {
        x
    } else {
        chain_root(p, lv, p[x] as int)
    }
}

/// The root of a chain is in range, is a fixed point of the parent array,
/// and sits at a level no higher than the start of the chain (strictly
/// lower when the chain is not already at its root).
pub proof fn lemma_chain_root_props(p: Seq<usize>, lv: Seq<nat>, x: int)
    requires
        forest_ok(p, lv),
        0 <= x < p.len(),
    ensures
        0 <= chain_root(p, lv, x) < p.len(),
        p[chain_root(p, lv, x)] == chain_root(p, lv, x),
        lv[chain_root(p, lv, x)] <= lv[x],
        p[x] != x ==> lv[chain_root(p, lv, x)] < lv[x],
    decreases lv[x],
{
    if p[x] != x {
        lemma_chain_root_props(p, lv, p[x] as int);
    }
}

/// A root is its own representative.
pub proof fn lemma_chain_root_fixed(p: Seq<usize>, lv: Seq<nat>, r: int)
    requires
        forest_ok(p, lv),
        0 <= r < p.len(),
        p[r] == r,
    ensures
        chain_root(p, lv, r) == r,
{
}

/// Repointing `x` directly at its own root keeps the structure a forest.
pub proof fn lemma_compress_ok(p: Seq<usize>, lv: Seq<nat>, x: int)
    requires
        forest_ok(p, lv),
        0 <= x < p.len(),
    ensures
        forest_ok(p.update(x, chain_root(p, lv, x) as usize), lv),
{
    lemma_chain_root_props(p, lv, x);
    let r = chain_root(p, lv, x);
    let p2 = p.update(x, r as usize);
    assert forall|i: int|
        0 <= i < p2.len() && (#[trigger] p2[i]) != i implies lv[p2[i] as int] < lv[i] by {
        if i != x {
            assert(p2[i] == p[i]);
        }
    }
}

/// Repointing `x` directly at its own root changes no representative.
pub proof fn lemma_compress_same_root(p: Seq<usize>, lv: Seq<nat>, x: int, i: int)
    requires
        forest_ok(p, lv),
        0 <= x < p.len(),
        0 <= i < p.len(),
    ensures
        chain_root(p.update(x, chain_root(p, lv, x) as usize), lv, i) == chain_root(p, lv, i),
    decreases lv[i],
{
    lemma_chain_root_props(p, lv, x);
    lemma_compress_ok(p, lv, x);
    let r = chain_root(p, lv, x);
    let p2 = p.update(x, r as usize);
    if p[x] == x {
        assert(p2 =~= p);
    } else if i == x {
        lemma_chain_root_props(p, lv, i);
        assert(p2[x] == r as usize);
        assert(chain_root(p2, lv, x) == chain_root(p2, lv, r));
        lemma_chain_root_fixed(p2, lv, r);
    } else {
        if p[i] != i {
            lemma_compress_same_root(p, lv, x, p[i] as int);
        }
    }
}

/// The level sequence used after attaching root `ry` beneath root `rx`:
/// every node of `ry`'s class is lifted by a constant offset so that the
/// new parent edge, and all old edges, still descend in level.
pub open spec fn union_levels(p: Seq<usize>, lv: Seq<nat>, rx: int, ry: int) -> Seq<nat> {
    Seq::new(lv.len(), |i: int| if chain_root(p, lv, i) == ry {
        lv[i] + lv[rx] + 1
    } else {
        lv[i]
    })
}

/// Attaching root `ry` beneath root `rx` (with the lifted levels) keeps
/// the structure a forest.
pub proof fn lemma_union_ok(p: Seq<usize>, lv: Seq<nat>, rx: int, ry: int)
    requires
        forest_ok(p, lv),
        0 <= rx < p.len(),
        0 <= ry < p.len(),
        p[rx] == rx,
        p[ry] == ry,
        rx != ry,
    ensures
        forest_ok(p.update(ry, rx as usize), union_levels(p, lv, rx, ry)),
{
    let p2 = p.update(ry, rx as usize);
    let lv2 = union_levels(p, lv, rx, ry);
    lemma_chain_root_fixed(p, lv, rx);
    lemma_chain_root_fixed(p, lv, ry);
    assert forall|i: int|
        0 <= i < p2.len() && (#[trigger] p2[i]) != i implies lv2[p2[i] as int] < lv2[i] by {
        if i == ry {
            assert(lv2[rx] == lv[rx]);
            assert(lv2[ry] == lv[ry] + lv[rx] + 1);
        } else {
            assert(p2[i] == p[i]);
            assert(chain_root(p, lv, p[i] as int) == chain_root(p, lv, i));
        }
    }
}

/// After attaching root `ry` beneath root `rx`, exactly the members of
/// `ry`'s class change representative, and they all move to `rx`.
pub proof fn lemma_union_root(p: Seq<usize>, lv: Seq<nat>, rx: int, ry: int, i: int)
    requires
        forest_ok(p, lv),
        0 <= rx < p.len(),
        0 <= ry < p.len(),
        p[rx] == rx,
        p[ry] == ry,
        rx != ry,
        0 <= i < p.len(),
    ensures
        chain_root(p.update(ry, rx as usize), union_levels(p, lv, rx, ry), i) == (
        if chain_root(p, lv, i) == ry {
            rx
        } else {
            chain_root(p, lv, i)
        }),
    decreases lv[i],
{
    let p2 = p.update(ry, rx as usize);
    let lv2 = union_levels(p, lv, rx, ry);
    lemma_union_ok(p, lv, rx, ry);
    lemma_chain_root_fixed(p, lv, rx);
    lemma_chain_root_fixed(p, lv, ry);
    if i == ry {
        assert(p2[ry] == rx as usize);
        lemma_chain_root_fixed(p2, lv2, rx);
    } else if p[i] == i {
        assert(chain_root(p2, lv2, i) == i);
    } else {
        lemma_union_root(p, lv, rx, ry, p[i] as int);
        assert(chain_root(p, lv, p[i] as int) == chain_root(p, lv, i));
        assert(chain_root(p2, lv2, i) == chain_root(p2, lv2, p[i] as int));
    }
}

} // verus!
