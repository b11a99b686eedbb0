//! Occupancy tracker: a boolean flag per cell, set once the cell's 5-cell
//! footprint (itself plus its four toroidal neighbors) has been claimed by
//! the walk. Claimed flags are never reset, so a cell whose footprint was
//! claimed can never be accepted as a later write target.

use vstd::prelude::*;
use crate::grid::{
    cell_index, footprint, step_coord, surrounding_coords, valid_coord, valid_dims,
    wrapping_coords, crd_to_ind1, lemma_cell_index_bound, lemma_footprint_valid,
};

verus! {

/// A well-formed occupancy grid: one flag per cell.
pub open spec fn occupancy_wf(b: Seq<bool>, dims: (usize, usize)) -> bool {
    b.len() == dims.0 * dims.1
}

/// No cell of the footprint of `crd` is claimed.
pub open spec fn footprint_free(b: Seq<bool>, dims: (usize, usize), crd: (usize, usize)) -> bool {
    forall|i: int|
        0 <= i < 5 ==> !b[cell_index(#[trigger] footprint(crd, dims)[i], dims.0)]
}

/// The occupancy grid with the whole footprint of `crd` claimed.
pub open spec fn claim_footprint(b: Seq<bool>, dims: (usize, usize), crd: (usize, usize)) -> Seq<
    bool,
> {
    b.update(cell_index(footprint(crd, dims)[0], dims.0), true).update(
        cell_index(footprint(crd, dims)[1], dims.0),
        true,
    ).update(cell_index(footprint(crd, dims)[2], dims.0), true).update(
        cell_index(footprint(crd, dims)[3], dims.0),
        true,
    ).update(cell_index(footprint(crd, dims)[4], dims.0), true)
}

/// Claimed flags only ever grow from `b1` to `b2`.
pub open spec fn claims_monotone(b1: Seq<bool>, b2: Seq<bool>) -> bool {
    b1.len() == b2.len() && forall|i: int| 0 <= i < b1.len() && #[trigger] b1[i] ==> b2[i]
}

/// Claiming a footprint grows the claims, keeps the grid well-formed, and
/// sets the flag of the claimed cell itself.
pub proof fn lemma_claim_footprint_claims(b: Seq<bool>, dims: (usize, usize), crd: (usize, usize))
    requires
        occupancy_wf(b, dims),
        valid_dims(dims),
        valid_coord(crd, dims),
    ensures
        occupancy_wf(claim_footprint(b, dims, crd), dims),
        claims_monotone(b, claim_footprint(b, dims, crd)),
        claim_footprint(b, dims, crd)[cell_index(crd, dims.0)],
{
    lemma_footprint_valid(crd, dims);
    lemma_cell_index_bound(crd, dims);
    assert(footprint(crd, dims)[0] == crd);
    let b2 = claim_footprint(b, dims, crd);
    assert forall|i: int| 0 <= i < b.len() && #[trigger] b[i] implies b2[i] by {
        assert forall|k: int| 0 <= k < 5 implies 0 <= cell_index(
            #[trigger] footprint(crd, dims)[k],
            dims.0,
        ) < b.len() by {
            lemma_cell_index_bound(footprint(crd, dims)[k], dims);
        }
    }
    assert forall|k: int| 0 <= k < 5 implies 0 <= cell_index(
        #[trigger] footprint(crd, dims)[k],
        dims.0,
    ) < b.len() by {
        lemma_cell_index_bound(footprint(crd, dims)[k], dims);
    }
    assert(b2[cell_index(crd, dims.0)]) by {
        let c0 = cell_index(footprint(crd, dims)[0], dims.0);
        let c1 = cell_index(footprint(crd, dims)[1], dims.0);
        let c2 = cell_index(footprint(crd, dims)[2], dims.0);
        let c3 = cell_index(footprint(crd, dims)[3], dims.0);
        let c4 = cell_index(footprint(crd, dims)[4], dims.0);
        assert(b.update(c0, true)[c0]);
        assert(b.update(c0, true).update(c1, true)[c1]);
        assert(b2[c4]);
        assert(b2[c3] || c3 == c4);
        assert(b2[c0] || c0 == c1 || c0 == c2 || c0 == c3 || c0 == c4);
        assert(b2[c1] || c1 == c2 || c1 == c3 || c1 == c4);
        assert(b2[c2] || c2 == c3 || c2 == c4);
        assert(b2[c0]);
    }
}

/// Occupancy monotonicity: once a cell's footprint has been claimed during
/// an encode pass (which sets the cell's own flag), no later occupancy
/// state that has only grown can show the cell's footprint as free, so the
/// cell is never again accepted as a write target.
pub proof fn lemma_claimed_never_reselected(
    b1: Seq<bool>,
    b2: Seq<bool>,
    dims: (usize, usize),
    crd: (usize, usize),
)
    requires
        occupancy_wf(b1, dims),
        valid_dims(dims),
        valid_coord(crd, dims),
        claims_monotone(b1, b2),
        b1[cell_index(crd, dims.0)],
    ensures
        !footprint_free(b2, dims, crd),
{
    lemma_cell_index_bound(crd, dims);
    assert(footprint(crd, dims)[0] == crd);
    assert(b2[cell_index(crd, dims.0)]);
    assert(footprint_free(b2, dims, crd) ==> !b2[cell_index(
        footprint(crd, dims)[0],
        dims.0,
    )]);
}

/// Steps from `pos` by twice the signed offsets, then tests whether the
/// footprint of the cell reached is entirely unclaimed; if it is, claims
/// all five footprint cells. Returns whether the step target was free.
pub fn check_diff_validity(
    pos: (usize, usize),
    dims: (usize, usize),
    diff: (i32, i32),
    xs: usize,
    blocked: &mut Vec<bool>,
) -> (ok: bool)
    requires
        valid_dims(dims),
        valid_coord(pos, dims),
        xs == dims.0,
        occupancy_wf(old(blocked)@, dims),
    ensures
        occupancy_wf(final(blocked)@, dims),
        ok == footprint_free(
            old(blocked)@,
            dims,
            step_coord(pos, dims, (diff.0 as int, diff.1 as int)),
        ),
        final(blocked)@ == if ok {
            claim_footprint(
                old(blocked)@,
                dims,
                step_coord(pos, dims, (diff.0 as int, diff.1 as int)),
            )
        } else {
            old(blocked)@
        },
        claims_monotone(old(blocked)@, final(blocked)@),
{
    let n = blocked.len();
    let crd = wrapping_coords(pos, dims, diff);
    let ghost fp = footprint(crd, dims);
    proof {
        lemma_footprint_valid(crd, dims);
        assert forall|k: int| 0 <= k < 5 implies (#[trigger] fp[k].1 + 1) * dims.0
            <= usize::MAX && 0 <= cell_index(fp[k], dims.0) < blocked@.len() by {
            lemma_cell_index_bound(fp[k], dims);
            assert((fp[k].1 + 1) * dims.0 <= dims.0 * dims.1) by (nonlinear_arith)
                requires
                    fp[k].1 < dims.1,
                    dims.0 >= 1,
            ;
        }
    }
    let scrds = surrounding_coords(dims, crd);
    let ind0 = crd_to_ind1(scrds[0].0, scrds[0].1, xs);
    let ind1 = crd_to_ind1(scrds[1].0, scrds[1].1, xs);
    let ind2 = crd_to_ind1(scrds[2].0, scrds[2].1, xs);
    let ind3 = crd_to_ind1(scrds[3].0, scrds[3].1, xs);
    let ind4 = crd_to_ind1(scrds[4].0, scrds[4].1, xs);
    let is_blocked = blocked[ind0] || blocked[ind1] || blocked[ind2] || blocked[ind3]
        || blocked[ind4];
    proof {
        assert(ind0 == cell_index(fp[0], dims.0));
        assert(ind1 == cell_index(fp[1], dims.0));
        assert(ind2 == cell_index(fp[2], dims.0));
        assert(ind3 == cell_index(fp[3], dims.0));
        assert(ind4 == cell_index(fp[4], dims.0));
        if !is_blocked {
            assert forall|i: int| 0 <= i < 5 implies !blocked@[cell_index(
                #[trigger] fp[i],
                dims.0,
            )] by {
                if i == 0 {
                } else if i == 1 {
                } else if i == 2 {
                } else if i == 3 {
                } else {
                }
            }
        } else {
            assert(!footprint_free(blocked@, dims, crd)) by {
                if blocked@[ind0 as int] {
                    assert(footprint_free(blocked@, dims, crd) ==> !blocked@[cell_index(
                        fp[0],
                        dims.0,
                    )]);
                } else if blocked@[ind1 as int] {
                    assert(footprint_free(blocked@, dims, crd) ==> !blocked@[cell_index(
                        fp[1],
                        dims.0,
                    )]);
                } else if blocked@[ind2 as int] {
                    assert(footprint_free(blocked@, dims, crd) ==> !blocked@[cell_index(
                        fp[2],
                        dims.0,
                    )]);
                } else if blocked@[ind3 as int] {
                    assert(footprint_free(blocked@, dims, crd) ==> !blocked@[cell_index(
                        fp[3],
                        dims.0,
                    )]);
                } else {
                    assert(footprint_free(blocked@, dims, crd) ==> !blocked@[cell_index(
                        fp[4],
                        dims.0,
                    )]);
                }
            }
        }
    }
    if !is_blocked {
        blocked[ind0] = true;
        blocked[ind1] = true;
        blocked[ind2] = true;
        blocked[ind3] = true;
        blocked[ind4] = true;
        proof {
            assert(blocked@ =~= claim_footprint(old(blocked)@, dims, crd));
            lemma_claim_footprint_claims(old(blocked)@, dims, crd);
        }
    }
    !is_blocked
}

} // verus!
