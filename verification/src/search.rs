use vstd::prelude::*;

use crate::geometry::{
    cell_at, direction_by_index, further, is_unit_dir, spec_abbrev, spec_axis_coord, spec_dir,
    spec_dir_index, spec_dot, spec_opp, Direction, Position,
};
use crate::occupancy::in_cube_range;
use crate::state::{
    chain_ok, committed, end_pos, inv, inv_s, lemma_candidate_in_range, lemma_commit,
    lemma_concat_contains, lemma_dir_axis, lemma_end_in_range, lemma_path_len,
    lemma_ray_cells_distinct, lemma_ray_contains, lengths, move_dir, noncollinear, origin3,
    path_seq, ray_seq, spec_extent, start_of, sum_of, AttemptParams, SolutionStep,
};

verus! {

/// A coordinate triple as a cell value, for triples inside the reachable
/// range.
pub open spec fn pos_from(t: (int, int, int)) -> Position {
    Position { x: t.0 as i8, y: t.1 as i8, z: t.2 as i8 }
}

/// The joint filter: the candidate direction shares its axis with the
/// previous move, which the puzzle's joints forbid.
pub open spec fn spec_collinear_skip(sol: Seq<SolutionStep>, i: int) -> bool {
    &&& sol.len() > 0
    &&& {
        let dp = spec_dot(spec_dir(i), move_dir(sol, sol.len() - 1));
        dp == 1 || dp == -1
    }
}

/// The extent pruning test: the candidate endpoint would put the path's
/// span along this axis at the cube side or beyond.
pub open spec fn spec_bound_reject(
    sol: Seq<SolutionStep>,
    i: int,
    len: int,
    size: int,
) -> bool {
    let c = spec_axis_coord(i, cell_at(end_pos(sol), spec_dir(i), len));
    let ob = spec_extent(spec_opp(i), path_seq(sol));
    c - ob >= size || ob - c >= size
}

/// The cell-level test: some cell of the candidate move is the origin or
/// already part of the path.
pub open spec fn spec_blocked(sol: Seq<SolutionStep>, i: int, len: int) -> bool {
    exists|k: int|
        1 <= k <= len && (#[trigger] cell_at(end_pos(sol), spec_dir(i), k) == origin3()
            || path_seq(sol).contains(cell_at(end_pos(sol), spec_dir(i), k)))
}

/// The search outcome from a context that still has `queue` to place and
/// has committed `sol`: the first complete solution under the fixed
/// direction order, or nothing if every fold sequence fails.
pub open spec fn spec_search(queue: Seq<u8>, sol: Seq<SolutionStep>, size: int) -> Option<
    Seq<SolutionStep>,
>
    decreases queue.len(), 0int,
{
    if queue.len() == 0 {
        Some(sol)
    } else {
        spec_try(queue.drop_last(), queue.last(), sol, size, 0)
    }
}

/// One expansion step: try the directions from table index `i` on for the
/// next segment of length `element`, in the fixed order.
pub open spec fn spec_try(
    queue: Seq<u8>,
    element: u8,
    sol: Seq<SolutionStep>,
    size: int,
    i: int,
) -> Option<Seq<SolutionStep>>
    decreases queue.len(), 6 - i,
{
    if i < 0 || i >= 6 {
        None
    } else if spec_collinear_skip(sol, i) || spec_bound_reject(sol, i, element as int, size)
        || spec_blocked(sol, i, element as int) {
        spec_try(queue, element, sol, size, i + 1)
    } else {
        let npos = pos_from(cell_at(end_pos(sol), spec_dir(i), element as int));
        match spec_search(queue, committed(sol, i, element, npos), size) {
            Some(r) => Some(r),
            None => spec_try(queue, element, sol, size, i + 1),
        }
    }
}

/// The cell `k` steps from `p` along `d` is the origin or already in the
/// occupancy set `occ`.
pub open spec fn blocked_cell(
    p: (int, int, int),
    d: Direction,
    k: int,
    occ: Set<(int, int, int)>,
) -> bool {
    cell_at(p, d, k) == origin3() || occ.contains(cell_at(p, d, k))
}

/// Whether some cell of a move from `p` is the origin or in the set `occ`,
/// stated against an occupancy set rather than a path.
pub open spec fn spec_blocked_in(
    p: (int, int, int),
    d: Direction,
    len: int,
    occ: Set<(int, int, int)>,
) -> bool {
    exists|k: int| 1 <= k <= len && #[trigger] blocked_cell(p, d, k, occ)
}

/// An independent copy of a committed move list.
fn clone_solution(v: &Vec<SolutionStep>) -> (r: Vec<SolutionStep>)
    ensures
        r@ == v@,
{
    let mut r: Vec<SolutionStep> = Vec::new();
    let mut i: usize = 0;
    while i < v.len()
        invariant
            i <= v@.len(),
            r@ =~= v@.subrange(0, i as int),
        decreases v@.len() - i,
    {
        r.push(v[i]);
        i = i + 1;
    }
    proof {
        assert(r@ =~= v@);
    }
    r
}

/// Walks the candidate move cell by cell: aborts at the first cell that is
/// the origin or already occupied, otherwise marks every cell and appends
/// the move to the solution list. On abort exactly the cells before the
/// blocked step stay marked; the caller's snapshot restore is the
/// transaction boundary.
fn check_and_apply_moves(
    params: &mut AttemptParams,
    dir: Direction,
    element: u8,
    new_pos: Position,
) -> (ok: bool)
    requires
        old(params).state.wf(),
        is_unit_dir(dir),
        1 <= element <= 63,
        forall|k: int|
            1 <= k <= element ==> in_cube_range(
                old(params).state.spec_size(),
                #[trigger] cell_at(old(params).position@, dir, k),
            ),
        new_pos@ == cell_at(old(params).position@, dir, element as int),
    ensures
        final(params).input_queue == old(params).input_queue,
        final(params).bounds == old(params).bounds,
        final(params).position == old(params).position,
        final(params).direction == old(params).direction,
        final(params).state.wf(),
        final(params).state.spec_size() == old(params).state.spec_size(),
        final(params).state.words().len() == old(params).state.words().len(),
        ok == !spec_blocked_in(old(params).position@, dir, element as int, old(params).state@),
        ok ==> forall|t: (int, int, int)| #[trigger]
            final(params).state@.contains(t) == (old(params).state@.contains(t) || ray_seq(
                old(params).position@,
                dir,
                element as int,
            ).contains(t)),
        ok ==> final(params).solution@ == old(params).solution@.push(
            (spec_abbrev(dir), element, new_pos),
        ),
        !ok ==> final(params).solution@ == old(params).solution@,
        // on abort, exactly the cells before the first blocked step remain
        // marked; the caller's snapshot restore is the transaction boundary
        !ok ==> exists|k: int|
            {
                &&& 1 <= k <= element
                &&& #[trigger] blocked_cell(old(params).position@, dir, k, old(params).state@)
                &&& forall|j: int|
                    1 <= j < k ==> !blocked_cell(old(params).position@, dir, j, old(params).state@)
                &&& forall|t: (int, int, int)| #[trigger]
                    final(params).state@.contains(t) == (old(params).state@.contains(t) || ray_seq(
                        old(params).position@,
                        dir,
                        k - 1,
                    ).contains(t))
            },
{
    let ghost p = old(params).position@;
    let ghost occ_in = old(params).state@;
    let mut step: u8 = 1;
    while step <= element
        invariant
            1 <= step <= element + 1,
            1 <= element <= 63,
            is_unit_dir(dir),
            params.state.wf(),
            params.state.spec_size() == old(params).state.spec_size(),
            params.state.words().len() == old(params).state.words().len(),
            params.input_queue == old(params).input_queue,
            params.bounds == old(params).bounds,
            params.position == old(params).position,
            params.direction == old(params).direction,
            params.solution == old(params).solution,
            p == old(params).position@,
            occ_in == old(params).state@,
            forall|k: int|
                1 <= k <= element ==> in_cube_range(
                    params.state.spec_size(),
                    #[trigger] cell_at(p, dir, k),
                ),
            forall|t: (int, int, int)| #[trigger]
                params.state@.contains(t) == (occ_in.contains(t) || exists|k: int|
                    1 <= k < step && t == #[trigger] cell_at(p, dir, k)),
            forall|k: int|
                1 <= k < step ==> #[trigger] cell_at(p, dir, k) != origin3() && !occ_in.contains(
                    cell_at(p, dir, k),
                ),
        decreases element + 1 - step,
    {
        proof {
            assert(-1 <= dir.x <= 1 && -1 <= dir.y <= 1 && -1 <= dir.z <= 1);
            assert(-63 <= dir.x * (step as i8) <= 63 && -63 <= dir.y * (step as i8) <= 63 && -63
                <= dir.z * (step as i8) <= 63) by (nonlinear_arith)
                requires
                    -1 <= dir.x <= 1,
                    -1 <= dir.y <= 1,
                    -1 <= dir.z <= 1,
                    1 <= step <= 63,
            ;
            assert(in_cube_range(params.state.spec_size(), cell_at(p, dir, step as int)));
        }
        let offset = dir.scale(step as i8);
        let candidate = params.position.add(offset);
        proof {
            assert(candidate@ == cell_at(p, dir, step as int));
        }
        let zero = Position { x: 0, y: 0, z: 0 };
        if candidate == zero {
            proof {
                assert(cell_at(p, dir, step as int) == origin3());
                assert(blocked_cell(p, dir, step as int, occ_in));
                assert(spec_blocked_in(p, dir, element as int, occ_in));
                let k0 = step as int;
                assert forall|j: int| 1 <= j < k0 implies !blocked_cell(p, dir, j, occ_in) by {}
                assert forall|t: (int, int, int)| #[trigger]
                    params.state@.contains(t) == (occ_in.contains(t) || ray_seq(
                        p,
                        dir,
                        k0 - 1,
                    ).contains(t)) by {
                    lemma_ray_contains(p, dir, k0 - 1, t);
                }
            }
            return false;
        }
        if params.state.is_visited(candidate) {
            proof {
                let k0 = step as int;
                if !occ_in.contains(candidate@) {
                    // the hit must be one of this very move's earlier cells,
                    // but those all sit at other step counts
                    let k = choose|k: int| 1 <= k < step && candidate@ == cell_at(p, dir, k);
                    lemma_ray_cells_distinct(p, dir, k, k0);
                    assert(false);
                }
                assert(blocked_cell(p, dir, k0, occ_in));
                assert(spec_blocked_in(p, dir, element as int, occ_in));
                assert forall|j: int| 1 <= j < k0 implies !blocked_cell(p, dir, j, occ_in) by {}
                assert forall|t: (int, int, int)| #[trigger]
                    params.state@.contains(t) == (occ_in.contains(t) || ray_seq(
                        p,
                        dir,
                        k0 - 1,
                    ).contains(t)) by {
                    lemma_ray_contains(p, dir, k0 - 1, t);
                }
            }
            return false;
        }
        params.state.mark_visited(candidate);
        proof {
            assert forall|t: (int, int, int)| #[trigger]
                params.state@.contains(t) == (occ_in.contains(t) || exists|k: int|
                    1 <= k < step + 1 && t == #[trigger] cell_at(p, dir, k)) by {
                if t == candidate@ {
                    assert(t == cell_at(p, dir, step as int));
                }
            }
        }
        step = step + 1;
    }
    proof {
        assert(!spec_blocked_in(p, dir, element as int, occ_in));
        lemma_ray_contains(p, dir, element as int, origin3());
        assert forall|t: (int, int, int)| #[trigger]
            params.state@.contains(t) == (occ_in.contains(t) || ray_seq(
                p,
                dir,
                element as int,
            ).contains(t)) by {
            lemma_ray_contains(p, dir, element as int, t);
        }
    }
    let abbrev = dir.abbreviation();
    params.solution.push((abbrev, element, new_pos));
    true
}

/// Tries one candidate direction for the next segment: applies the joint
/// filter, the extent pruning test and the cell-by-cell occupancy check,
/// and on a full commit recurses on the shorter queue. When the candidate
/// fails at any stage, every mutation is undone exactly and the context is
/// back in its entry state.
#[verifier::rlimit(100)]
fn try_direction(
    params: &mut AttemptParams,
    size: usize,
    dir_idx: usize,
    element: u8,
    depth: usize,
) -> (r: Option<Vec<SolutionStep>>)
    requires
        inv(*old(params), size as int),
        dir_idx < 6,
        1 <= element < size,
    ensures
        inv(*final(params), size as int),
        match r {
            Some(v) => {
                &&& spec_try(
                    old(params).input_queue@,
                    element,
                    old(params).solution@,
                    size as int,
                    dir_idx as int,
                ) == Some(v@)
                &&& final(params).solution@ == v@
                &&& final(params).input_queue@.len() == 0
            },
            None => {
                &&& spec_try(
                    old(params).input_queue@,
                    element,
                    old(params).solution@,
                    size as int,
                    dir_idx as int,
                ) == spec_try(
                    old(params).input_queue@,
                    element,
                    old(params).solution@,
                    size as int,
                    dir_idx as int + 1,
                )
                &&& final(params).input_queue@ == old(params).input_queue@
                &&& final(params).solution@ == old(params).solution@
                &&& final(params).position == old(params).position
                &&& final(params).direction == old(params).direction
                &&& final(params).bounds == old(params).bounds
                &&& final(params).state@ == old(params).state@
                &&& final(params).state.words() == old(params).state.words()
                &&& final(params).state.spec_size() == old(params).state.spec_size()
            },
        },
    decreases old(params).input_queue@.len(), 1int,
{
    let ghost sz = size as int;
    let ghost queue1 = old(params).input_queue@;
    let ghost sol0 = old(params).solution@;
    let ghost st0 = old(params).state;
    let ghost bounds0 = old(params).bounds;
    let ghost i = dir_idx as int;

    let dir_vector = direction_by_index(dir_idx);
    proof {
        lemma_dir_axis(i);
    }

    // Only check directions that are not on the same axis as the
    // previously used one. Check all directions for the first move.
    let collinear = match params.direction {
        Some(pd) => {
            proof {
                assert(chain_ok(sol0, sz));
                assert(crate::state::move_ok(sol0, sol0.len() - 1, sz));
                assert(pd == move_dir(sol0, sol0.len() - 1));
                assert(is_unit_dir(pd));
            }
            let dp = dir_vector.dot(pd);
            dp == 1 || dp == -1
        },
        None => false,
    };
    if collinear {
        proof {
            assert(spec_collinear_skip(sol0, i));
        }
        return None;
    }

    proof {
        assert(!spec_collinear_skip(sol0, i));
        lemma_end_in_range(queue1, sol0, sz);
        assert(-1 <= dir_vector.x <= 1 && -1 <= dir_vector.y <= 1 && -1 <= dir_vector.z <= 1);
        assert(-63 <= dir_vector.x * (element as i8) <= 63 && -63 <= dir_vector.y * (element
            as i8) <= 63 && -63 <= dir_vector.z * (element as i8) <= 63) by (nonlinear_arith)
            requires
                -1 <= dir_vector.x <= 1,
                -1 <= dir_vector.y <= 1,
                -1 <= dir_vector.z <= 1,
                1 <= element <= 63,
        ;
    }
    // Movement vector as the direction scaled by the segment length,
    // e.g. (2, 0, 0) for a move right by 2.
    let offset = dir_vector.scale(element as i8);
    let new_pos = params.position.add(offset);
    proof {
        assert(new_pos@ == cell_at(end_pos(sol0), spec_dir(i), element as int));
    }

    // The coordinate that this move changes.
    let relevant_coord = new_pos.coord_by_dir_idx(dir_idx);

    // The sign of the direction we are going in.
    let dir_sign = dir_vector.sign();

    // The table pairs each direction with its opposite: the direction's
    // own sign is the index offset to its opposite.
    let opposing_dir_idx = if dir_sign == 1 {
        dir_idx + 1
    } else {
        proof {
            assert(i % 2 == 1);
        }
        dir_idx - 1
    };
    proof {
        assert(opposing_dir_idx as int == spec_opp(i));
    }

    // Reject the candidate if it is further away than the cube side from
    // the furthest cell in the opposite direction.
    let opposing_bound = params.bounds.get_by_index(opposing_dir_idx);
    let diff = relevant_coord as i16 - opposing_bound as i16;
    let sz16 = size as i16;
    proof {
        assert(relevant_coord as int == spec_axis_coord(
            i,
            cell_at(end_pos(sol0), spec_dir(i), element as int),
        ));
        assert(opposing_bound as int == spec_extent(spec_opp(i), path_seq(sol0)));
    }
    if diff >= sz16 || diff <= -sz16 {
        proof {
            assert(spec_bound_reject(sol0, i, element as int, sz));
        }
        return None;
    }

    proof {
        assert(!spec_bound_reject(sol0, i, element as int, sz));
        lemma_candidate_in_range(queue1, sol0, sz, i, element as int);
    }

    // Back the bounds up, then offer the candidate's far coordinate as the
    // new extent; the tracker accepts it only if it reaches strictly
    // further.
    let original_bounds = params.bounds;
    params.bounds.update_by_index(dir_idx, relevant_coord);

    // Walk the candidate's cells one by one; marks are transactional per
    // candidate, so take a snapshot first.
    let original_state = params.state.snapshot();
    let ghost st_entry = params.state;
    if !check_and_apply_moves(params, dir_vector, element, new_pos) {
        params.state.backtrack(original_state);
        params.bounds = original_bounds;
        proof {
            st_entry.lemma_view_from_words(params.state);
            assert(params.state@ == st0@);
            assert(spec_blocked(sol0, i, element as int) == spec_blocked_in(
                end_pos(sol0),
                spec_dir(i),
                element as int,
                st0@,
            ));
            assert(spec_blocked(sol0, i, element as int));
            assert(inv(*params, sz));
        }
        return None;
    }

    let ghost sol2 = committed(sol0, i, element, new_pos);
    proof {
        assert(!spec_blocked_in(end_pos(sol0), spec_dir(i), element as int, st0@));
        assert forall|k: int|
            1 <= k <= element implies !(#[trigger] cell_at(end_pos(sol0), spec_dir(i), k)
            == origin3() || path_seq(sol0).contains(cell_at(end_pos(sol0), spec_dir(i), k))) by {
            assert(!blocked_cell(end_pos(sol0), spec_dir(i), k, st0@));
        }
        assert(!spec_blocked(sol0, i, element as int));
        if sol0.len() > 0 {
            assert(crate::state::move_ok(sol0, sol0.len() - 1, sz));
            let pd = move_dir(sol0, sol0.len() - 1);
            crate::geometry::lemma_direction_algebra(spec_dir(i), pd);
            crate::geometry::lemma_direction_algebra(pd, spec_dir(i));
            assert(spec_dot(pd, spec_dir(i)) == 0);
        }
        lemma_commit(queue1, sol0, sz, i, element, new_pos);
        assert(params.solution@ == sol2);
    }

    // Back up and update position and direction.
    let original_pos = params.position;
    let original_dir = params.direction;
    params.position = new_pos;
    params.direction = Some(dir_vector);

    proof {
        // the context now realises the committed path exactly
        assert forall|t: (int, int, int)| #[trigger]
            params.state@.contains(t) == path_seq(sol2).contains(t) by {
            lemma_concat_contains(
                path_seq(sol0),
                ray_seq(end_pos(sol0), spec_dir(i), element as int),
                t,
            );
        }
        assert forall|j: int|
            0 <= j < 6 implies #[trigger] params.bounds@[j] as int == spec_extent(
            j,
            path_seq(sol2),
        ) by {
            if j != i {
                assert(spec_extent(j, path_seq(sol2)) == spec_extent(j, path_seq(sol0)));
                assert(params.bounds@[j] == bounds0@[j]);
            } else {
                assert(spec_extent(j, path_seq(sol2)) == further(
                    j,
                    spec_extent(j, path_seq(sol0)),
                    spec_axis_coord(j, new_pos@),
                ));
            }
        }
        assert(inv(*params, sz));
        assert(pos_from(cell_at(end_pos(sol0), spec_dir(i), element as int)) == new_pos);
    }

    // Recursion.
    let next_depth = if depth < usize::MAX {
        depth + 1
    } else {
        depth
    };
    let recursed = search(params, size, next_depth);
    if let Some(attempt) = recursed {
        proof {
            assert(spec_search(queue1, sol2, sz) == Some(attempt@));
            assert(spec_try(queue1, element, sol0, sz, i) == Some(attempt@));
        }
        return Some(attempt);
    }

    backtrack(params, original_state, original_pos, original_dir, original_bounds);
    proof {
        assert(spec_search(queue1, sol2, sz) is None);
        assert(params.solution@ == sol2.drop_last());
        assert(sol2.drop_last() =~= sol0);
        st_entry.lemma_view_from_words(params.state);
        assert(params.state@ == st0@);
        assert(inv(*params, sz));
    }
    None
}

/// The recursive depth-first backtracking search. It consumes the segment
/// queue from the back, tries the six directions in the fixed table order
/// for each segment, prunes candidates through the extent bounds and the
/// occupancy set, and undoes every mutation of a failed branch exactly, so
/// the outcome is precisely the one `spec_search` defines: the first
/// complete fold sequence under the fixed order, or nothing. On failure the
/// whole context is back in its pre-call state; on success it holds the
/// committed solution.
pub fn search(params: &mut AttemptParams, size: usize, depth: usize) -> (r: Option<
    Vec<SolutionStep>,
>)
    requires
        inv(*old(params), size as int),
    ensures
        inv(*final(params), size as int),
        match r {
            Some(v) => {
                &&& spec_search(old(params).input_queue@, old(params).solution@, size as int)
                    == Some(v@)
                &&& final(params).solution@ == v@
                &&& final(params).input_queue@.len() == 0
            },
            None => {
                &&& spec_search(old(params).input_queue@, old(params).solution@, size as int)
                    is None
                &&& final(params).input_queue@ == old(params).input_queue@
                &&& final(params).solution@ == old(params).solution@
                &&& final(params).position == old(params).position
                &&& final(params).direction == old(params).direction
                &&& final(params).bounds == old(params).bounds
                &&& final(params).state@ == old(params).state@
                &&& final(params).state.words() == old(params).state.words()
                &&& final(params).state.spec_size() == old(params).state.spec_size()
            },
        },
    decreases old(params).input_queue@.len(), 0int,
{
    // If the input queue is empty, we have found a solution.
    if params.input_queue.len() == 0 {
        let sol = clone_solution(&params.solution);
        return Some(sol);
    }

    let element = match params.input_queue.pop() {
        Some(e) => e,
        None => {
            proof {
                assert(false);
            }
            return None;
        },
    };

    let ghost sz = size as int;
    let ghost queue1 = params.input_queue@;
    let ghost sol0 = params.solution@;
    let ghost pos0 = params.position;
    let ghost dir0 = params.direction;
    let ghost bounds0 = params.bounds;
    let ghost st0 = params.state;

    proof {
        assert(old(params).input_queue@.drop_last() =~= queue1);
        assert(element == old(params).input_queue@.last());
        assert(1 <= element < size);
        assert(inv(*params, sz));
    }

    let mut dir_idx: usize = 0;
    while dir_idx < 6
        invariant
            inv(*params, sz),
            sz == size as int,
            params.input_queue@ == queue1,
            params.solution@ == sol0,
            params.position == pos0,
            params.direction == dir0,
            params.bounds == bounds0,
            params.state@ == st0@,
            params.state.words() == st0.words(),
            params.state.spec_size() == st0.spec_size(),
            dir_idx <= 6,
            1 <= element < size,
            size <= 64,
            old(params).input_queue@ == queue1.push(element),
            old(params).solution@ == sol0,
            spec_try(queue1, element, sol0, sz, dir_idx as int) == spec_try(
                queue1,
                element,
                sol0,
                sz,
                0,
            ),
        decreases 6 - dir_idx,
    {
        let attempted = try_direction(params, size, dir_idx, element, depth);
        if let Some(attempt) = attempted {
            proof {
                assert(spec_try(queue1, element, sol0, sz, 0) == Some(attempt@));
                assert(old(params).input_queue@.len() > 0);
                assert(old(params).input_queue@.drop_last() == queue1);
                assert(spec_search(old(params).input_queue@, sol0, sz) == Some(attempt@));
            }
            return Some(attempt);
        }
        dir_idx = dir_idx + 1;
    }

    // No direction worked: put the segment back and report the dead end.
    params.input_queue.push(element);
    proof {
        assert(spec_try(queue1, element, sol0, sz, 6) is None);
        assert(params.input_queue@ =~= old(params).input_queue@);
        assert(spec_search(old(params).input_queue@, sol0, sz) is None);
        assert(inv(*params, sz));
    }
    None
}

/// Undoes one committed candidate: pops its move, restores the occupancy
/// snapshot and puts position, heading and bounds back to their saved
/// values.
fn backtrack(
    params: &mut AttemptParams,
    original_state: Vec<u64>,
    original_pos: Position,
    original_dir: Option<Direction>,
    original_bounds: crate::bounds::Bounds,
) -> (popped: Option<SolutionStep>)
    requires
        original_state@.len() == old(params).state.words().len(),
    ensures
        final(params).input_queue == old(params).input_queue,
        final(params).solution@ == if old(params).solution@.len() > 0 {
            old(params).solution@.drop_last()
        } else {
            old(params).solution@
        },
        final(params).state.spec_size() == old(params).state.spec_size(),
        final(params).state.words() == original_state@,
        final(params).position == original_pos,
        final(params).direction == original_dir,
        final(params).bounds == original_bounds,
{
    let popped = params.solution.pop();
    params.state.backtrack(original_state);
    params.position = original_pos;
    params.direction = original_dir;
    params.bounds = original_bounds;
    popped
}


/// A complete, valid fold sequence for the given queue and cube side: one
/// well-formed move per segment in consumption order (the queue is consumed
/// from the back), turning at every joint, covering pairwise-distinct cells
/// that avoid the origin, with the realised bounding box narrower than the
/// cube side on every axis.
pub open spec fn valid_solution(queue: Seq<u8>, res: Seq<SolutionStep>, size: int) -> bool {
    &&& chain_ok(res, size)
    &&& noncollinear(res)
    &&& path_seq(res).no_duplicates()
    &&& !path_seq(res).contains(origin3())
    &&& lengths(res) == queue.reverse()
    &&& forall|j: int|
        0 <= j < 6 && j % 2 == 0 ==> #[trigger] spec_extent(j, path_seq(res)) - spec_extent(
            j + 1,
            path_seq(res),
        ) < size
}

/// When one expansion step fails as a whole, every direction at or past the
/// starting index was either filtered out or led to an exhausted subtree.
proof fn lemma_try_none_at(
    queue: Seq<u8>,
    element: u8,
    sol: Seq<SolutionStep>,
    size: int,
    a: int,
    i0: int,
)
    requires
        0 <= a <= i0 < 6,
        spec_try(queue, element, sol, size, a) is None,
    ensures
        spec_collinear_skip(sol, i0) || spec_bound_reject(sol, i0, element as int, size)
            || spec_blocked(sol, i0, element as int) || spec_search(
            queue,
            committed(
                sol,
                i0,
                element,
                pos_from(cell_at(end_pos(sol), spec_dir(i0), element as int)),
            ),
            size,
        ) is None,
    decreases i0 - a,
{
    if a < i0 {
        assert(spec_try(queue, element, sol, size, a + 1) is None);
        lemma_try_none_at(queue, element, sol, size, a + 1, i0);
    }
}

/// Determinism of the search: the specified outcome is a function of the
/// cube side, the remaining queue and the committed path alone, so two
/// invocations on identical inputs return identical solutions or both
/// report that none exists.
pub proof fn lemma_search_deterministic(
    q1: Seq<u8>,
    s1: Seq<SolutionStep>,
    q2: Seq<u8>,
    s2: Seq<SolutionStep>,
    size: int,
)
    requires
        q1 == q2,
        s1 == s2,
    ensures
        spec_search(q1, s1, size) == spec_search(q2, s2, size),
{
}

/// Soundness of one expansion step, mutually with `lemma_search_sound`.
pub proof fn lemma_try_sound(
    queue: Seq<u8>,
    element: u8,
    sol: Seq<SolutionStep>,
    size: int,
    i: int,
    res: Seq<SolutionStep>,
)
    requires
        inv_s(queue, sol, size),
        1 <= element < size,
        0 <= i,
        spec_try(queue, element, sol, size, i) == Some(res),
    ensures
        inv_s(Seq::<u8>::empty(), res, size),
        res.len() == sol.len() + 1 + queue.len(),
        forall|idx: int| 0 <= idx < sol.len() ==> res[idx] == sol[idx],
        lengths(res) == lengths(sol).push(element) + queue.reverse(),
    decreases queue.len(), 6 - i,
{
    assert(i < 6);
    if spec_collinear_skip(sol, i) || spec_bound_reject(sol, i, element as int, size)
        || spec_blocked(sol, i, element as int) {
        lemma_try_sound(queue, element, sol, size, i + 1, res);
    } else {
        let npos = pos_from(cell_at(end_pos(sol), spec_dir(i), element as int));
        lemma_candidate_in_range(queue, sol, size, i, element as int);
        assert(npos@ == cell_at(end_pos(sol), spec_dir(i), element as int));
        lemma_dir_axis(i);
        if sol.len() > 0 {
            assert(crate::state::move_ok(sol, sol.len() - 1, size));
            let pd = move_dir(sol, sol.len() - 1);
            crate::geometry::lemma_direction_algebra(spec_dir(i), pd);
            crate::geometry::lemma_direction_algebra(pd, spec_dir(i));
            assert(spec_dot(pd, spec_dir(i)) == 0);
        }
        lemma_commit(queue, sol, size, i, element, npos);
        let sol2 = committed(sol, i, element, npos);
        if spec_search(queue, sol2, size) is Some {
            lemma_search_sound(queue, sol2, size, res);
            assert(lengths(sol2) =~= lengths(sol).push(element));
            assert forall|idx: int| 0 <= idx < sol.len() implies res[idx] == sol[idx] by {
                assert(res[idx] == sol2[idx]);
            }
        } else {
            lemma_try_sound(queue, element, sol, size, i + 1, res);
        }
    }
}

/// Soundness of the search: any solution the specification returns extends
/// the already-committed path by one well-formed, non-colliding move per
/// remaining segment, in consumption order.
#[verifier::rlimit(50)]
pub proof fn lemma_search_sound(
    queue: Seq<u8>,
    sol: Seq<SolutionStep>,
    size: int,
    res: Seq<SolutionStep>,
)
    requires
        inv_s(queue, sol, size),
        spec_search(queue, sol, size) == Some(res),
    ensures
        inv_s(Seq::<u8>::empty(), res, size),
        res.len() == sol.len() + queue.len(),
        forall|idx: int| 0 <= idx < sol.len() ==> res[idx] == sol[idx],
        lengths(res) == lengths(sol) + queue.reverse(),
    decreases queue.len(), 0int,
{
    if queue.len() == 0 {
        assert(res == sol);
        assert(queue.reverse() =~= Seq::<u8>::empty());
        assert(lengths(res) =~= lengths(sol) + queue.reverse());
    } else {
        let q1 = queue.drop_last();
        let e = queue.last();
        assert(1 <= e < size);
        assert(inv_s(q1, sol, size)) by {
            assert forall|k: int| 0 <= k < q1.len() implies 1 <= #[trigger] q1[k] < size by {
                assert(q1[k] == queue[k]);
            }
        }
        lemma_try_sound(q1, e, sol, size, 0, res);
        assert(queue.reverse() =~= seq![e] + q1.reverse());
        assert(lengths(sol).push(e) + q1.reverse() =~= lengths(sol) + queue.reverse());
    }
}

/// End-to-end validity of a returned solution, from a fresh context: the
/// move lengths are the queue in consumption order (the queue is consumed
/// from the back); no two consecutive moves are collinear; the cells the
/// moves cover are pairwise distinct, all distinct from the origin, and
/// number exactly the sum of the segment lengths; and every covered cell
/// lies within the reachable range, with the path's bounding box narrower
/// than the cube side on every axis.
pub proof fn lemma_solution_valid(queue: Seq<u8>, size: int, res: Seq<SolutionStep>)
    requires
        1 <= size <= 64,
        forall|k: int| 0 <= k < queue.len() ==> 1 <= #[trigger] queue[k] < size,
        spec_search(queue, Seq::<SolutionStep>::empty(), size) == Some(res),
    ensures
        lengths(res) == queue.reverse(),
        chain_ok(res, size),
        noncollinear(res),
        path_seq(res).no_duplicates(),
        !path_seq(res).contains(origin3()),
        path_seq(res).len() == sum_of(queue),
        forall|idx: int| 0 <= idx < path_seq(res).len() ==> in_cube_range(size, path_seq(res)[idx]),
        forall|j: int|
            0 <= j < 6 && j % 2 == 0 ==> #[trigger] spec_extent(j, path_seq(res)) - spec_extent(
                j + 1,
                path_seq(res),
            ) < size,
        sum_of(queue) + 1 == size * size * size ==> path_seq(res).len() + 1 == size * size * size,
        valid_solution(queue, res, size),
{
    let empty_sol = Seq::<SolutionStep>::empty();
    assert(path_seq(empty_sol) =~= Seq::<(int, int, int)>::empty());
    assert(inv_s(queue, empty_sol, size));
    lemma_search_sound(queue, empty_sol, size, res);
    assert(lengths(res) =~= lengths(empty_sol) + queue.reverse());
    lemma_path_len(res);
    crate::state::lemma_sum_reverse(queue);
    assert forall|idx: int| 0 <= idx < path_seq(res).len() implies in_cube_range(
        size,
        path_seq(res)[idx],
    ) by {
        crate::state::lemma_cells_in_range(size, path_seq(res), idx);
    }
}

/// A valid continuation: `res` extends the committed path `sol` by one
/// well-formed move per remaining segment, in consumption order, and is
/// valid as a whole.
spec fn extends_valid(queue: Seq<u8>, sol: Seq<SolutionStep>, size: int, res: Seq<SolutionStep>) -> bool {
    &&& res.len() == sol.len() + queue.len()
    &&& forall|idx: int| 0 <= idx < sol.len() ==> res[idx] == sol[idx]
    &&& lengths(res) == lengths(sol) + queue.reverse()
    &&& chain_ok(res, size)
    &&& noncollinear(res)
    &&& path_seq(res).no_duplicates()
    &&& !path_seq(res).contains(origin3())
    &&& forall|j: int|
        0 <= j < 6 && j % 2 == 0 ==> #[trigger] spec_extent(j, path_seq(res)) - spec_extent(
            j + 1,
            path_seq(res),
        ) < size
}

/// Shared geometry of a valid continuation's next move: it places the
/// consumed segment along a table direction from the current position, and
/// its cells sit in the whole path right after the committed prefix's.
proof fn lemma_step_facts(queue: Seq<u8>, sol: Seq<SolutionStep>, size: int, res: Seq<SolutionStep>)
    requires
        inv_s(queue, sol, size),
        queue.len() > 0,
        extends_valid(queue, sol, size, res),
    ensures
        0 <= spec_dir_index(move_dir(res, sol.len() as int)) < 6,
        spec_dir(spec_dir_index(move_dir(res, sol.len() as int))) == move_dir(
            res,
            sol.len() as int,
        ),
        res[sol.len() as int].1 == queue.last(),
        res[sol.len() as int].2@ == cell_at(
            end_pos(sol),
            move_dir(res, sol.len() as int),
            queue.last() as int,
        ),
        path_seq(res).len() >= path_seq(sol).len() + queue.last(),
        forall|x: int|
            0 <= x < path_seq(sol).len() ==> #[trigger] path_seq(res)[x] == path_seq(sol)[x],
        forall|k: int|
            1 <= k <= queue.last() ==> path_seq(res)[path_seq(sol).len() + k - 1]
                == #[trigger] cell_at(end_pos(sol), move_dir(res, sol.len() as int), k),
{
    let n = sol.len() as int;
    let e = queue.last();
    assert(lengths(res)[n] == res[n].1);
    assert((lengths(sol) + queue.reverse())[n] == queue.reverse()[0]);
    assert(queue.reverse()[0] == e);
    assert(crate::state::move_ok(res, n, size));
    let d = move_dir(res, n);
    assert(is_unit_dir(d));
    if n > 0 {
        assert(res[n - 1] == sol[n - 1]);
    }
    assert(start_of(res, n) == end_pos(sol));
    // the continuation's first `e` new cells are the move's ray
    crate::state::lemma_path_take_prefix(res, n);
    crate::state::lemma_path_take_prefix(res, n + 1);
    assert(res.take(n) =~= sol);
    assert(path_seq(res.take(n)) == path_seq(sol));
    let step = res.take(n + 1);
    assert(step.drop_last() =~= sol);
    assert(step.last() == res[n]);
    assert(move_dir(step, n) == d) by {
        assert(step[n] == res[n]);
        if n > 0 {
            assert(step[n - 1] == res[n - 1]);
        }
    }
    assert(start_of(step, n) == end_pos(sol));
    assert(path_seq(step) == path_seq(sol) + ray_seq(end_pos(sol), d, e as int));
    assert forall|k: int|
        1 <= k <= e implies path_seq(res)[path_seq(sol).len() + k - 1] == #[trigger] cell_at(
        end_pos(sol),
        d,
        k,
    ) by {
        assert(path_seq(step)[path_seq(sol).len() + k - 1] == cell_at(end_pos(sol), d, k));
    }
}

/// The joint filter never discards the move a valid continuation makes.
proof fn lemma_valid_not_collinear(
    queue: Seq<u8>,
    sol: Seq<SolutionStep>,
    size: int,
    res: Seq<SolutionStep>,
)
    requires
        inv_s(queue, sol, size),
        queue.len() > 0,
        extends_valid(queue, sol, size, res),
    ensures
        !spec_collinear_skip(sol, spec_dir_index(move_dir(res, sol.len() as int))),
{
    let n = sol.len() as int;
    lemma_step_facts(queue, sol, size, res);
    let d = move_dir(res, n);
    let i0 = spec_dir_index(d);
    if spec_collinear_skip(sol, i0) {
        assert(n >= 1);
        assert(crate::state::move_ok(sol, n - 1, size));
        let pd = move_dir(sol, n - 1);
        assert(is_unit_dir(pd));
        assert(move_dir(res, n - 1) == pd) by {
            assert(res[n - 1] == sol[n - 1]);
            if n > 1 {
                assert(res[n - 2] == sol[n - 2]);
            }
        }
        assert(spec_dot(move_dir(res, n - 1), move_dir(res, n)) == 0);
        crate::geometry::lemma_direction_algebra(spec_dir(i0), pd);
        crate::geometry::lemma_direction_algebra(pd, spec_dir(i0));
        assert(false);
    }
}

/// The extent pruning test never discards the move a valid continuation
/// makes: committing it would stretch the realised bounding box to the
/// cube side or beyond, and extents only grow outward along the path.
proof fn lemma_valid_not_rejected(
    queue: Seq<u8>,
    sol: Seq<SolutionStep>,
    size: int,
    res: Seq<SolutionStep>,
)
    requires
        inv_s(queue, sol, size),
        queue.len() > 0,
        extends_valid(queue, sol, size, res),
    ensures
        !spec_bound_reject(
            sol,
            spec_dir_index(move_dir(res, sol.len() as int)),
            queue.last() as int,
            size,
        ),
{
    let n = sol.len() as int;
    let e = queue.last();
    lemma_step_facts(queue, sol, size, res);
    let d = move_dir(res, n);
    let i0 = spec_dir_index(d);
    lemma_dir_axis(i0);
    let io = spec_opp(i0);
    if spec_bound_reject(sol, i0, e as int, size) {
        let cells = path_seq(sol);
        let pl = cells.len() as int;
        let full = path_seq(res);
        let rest = full.subrange(pl, full.len() as int);
        assert(full =~= cells + rest);
        let c = spec_axis_coord(i0, cell_at(end_pos(sol), spec_dir(i0), e as int));
        let ob = spec_extent(io, cells);
        let c_idx = pl + e - 1;
        assert(full[c_idx] == cell_at(end_pos(sol), d, e as int));
        assert(spec_axis_coord(i0, full[c_idx]) == c);
        crate::state::lemma_axis_pair(i0, full[c_idx]);
        crate::state::lemma_extent_covers(i0, full, c_idx);
        crate::state::lemma_extent_covers(io, full, c_idx);
        crate::state::lemma_extent_concat_monotone(io, cells, rest);
        crate::state::lemma_extent_sign(io, cells);
        crate::state::lemma_extent_sign(i0, full);
        if i0 % 2 == 0 {
            assert(io == i0 + 1);
            assert(spec_extent(i0, full) - spec_extent(io, full) < size);
            assert(spec_extent(io, full) <= ob);
            assert(c <= spec_extent(i0, full));
            assert(spec_extent(io, full) <= c);
            assert(ob <= 0);
            assert(spec_extent(i0, full) >= 0);
            if c - ob >= size {
                assert(spec_extent(i0, full) - spec_extent(io, full) >= c - ob);
            } else {
                assert(ob - c >= size);
                assert(spec_extent(i0, full) - spec_extent(io, full) >= 0 - c);
                assert(0 - c >= size - ob);
            }
            assert(false);
        } else {
            assert(io == i0 - 1);
            assert(spec_extent(io, full) - spec_extent(i0, full) < size);
            assert(spec_extent(io, full) >= ob);
            assert(c >= spec_extent(i0, full));
            assert(spec_extent(io, full) >= c);
            assert(ob >= 0);
            assert(spec_extent(i0, full) <= 0);
            if c - ob >= size {
                assert(spec_extent(io, full) - spec_extent(i0, full) >= c - 0);
            } else {
                assert(ob - c >= size);
                assert(spec_extent(io, full) - spec_extent(i0, full) >= ob - c);
            }
            assert(false);
        }
    }
}

/// The cell test never discards the move a valid continuation makes: a hit
/// on the origin or a covered cell would make the continuation revisit it.
proof fn lemma_valid_not_blocked(
    queue: Seq<u8>,
    sol: Seq<SolutionStep>,
    size: int,
    res: Seq<SolutionStep>,
)
    requires
        inv_s(queue, sol, size),
        queue.len() > 0,
        extends_valid(queue, sol, size, res),
    ensures
        !spec_blocked(sol, spec_dir_index(move_dir(res, sol.len() as int)), queue.last() as int),
{
    let n = sol.len() as int;
    let e = queue.last();
    lemma_step_facts(queue, sol, size, res);
    let d = move_dir(res, n);
    let i0 = spec_dir_index(d);
    if spec_blocked(sol, i0, e as int) {
        let cells = path_seq(sol);
        let pl = cells.len() as int;
        let full = path_seq(res);
        let k = choose|k: int|
            1 <= k <= e as int && (#[trigger] cell_at(end_pos(sol), spec_dir(i0), k) == origin3()
                || path_seq(sol).contains(cell_at(end_pos(sol), spec_dir(i0), k)));
        let cellk = cell_at(end_pos(sol), spec_dir(i0), k);
        assert(full[pl + k - 1] == cellk);
        if cellk == origin3() {
            assert(full.contains(origin3()));
        } else {
            let a_idx = choose|a_idx: int| 0 <= a_idx < cells.len() && cells[a_idx] == cellk;
            assert(full[a_idx] == cellk);
            assert(a_idx != pl + k - 1);
        }
        assert(false);
    }
}

/// Completeness of one expansion level: from a well-formed context whose
/// specified search fails, no valid continuation of the committed path
/// exists that consumes the remaining queue.
proof fn lemma_search_complete_rec(
    queue: Seq<u8>,
    sol: Seq<SolutionStep>,
    size: int,
    res: Seq<SolutionStep>,
)
    requires
        inv_s(queue, sol, size),
        spec_search(queue, sol, size) is None,
    ensures
        !extends_valid(queue, sol, size, res),
    decreases queue.len(),
{
    if !extends_valid(queue, sol, size, res) {
        return;
    }
    let n = sol.len() as int;
    if queue.len() == 0 {
        assert(spec_search(queue, sol, size) == Some(sol));
        assert(false);
    } else {
        let queue1 = queue.drop_last();
        let e = queue.last();
        assert(1 <= e < size);
        lemma_step_facts(queue, sol, size, res);
        let d = move_dir(res, n);
        let i0 = spec_dir_index(d);
        lemma_dir_axis(i0);
        let npos = pos_from(cell_at(end_pos(sol), spec_dir(i0), e as int));
        assert(npos == res[n].2);
        let sol2 = committed(sol, i0, e, npos);
        assert(crate::state::move_ok(res, n, size));
        assert forall|idx: int| 0 <= idx < n + 1 implies res.take(n + 1)[idx] == sol2[idx] by {
            if idx < n {
                assert(res[idx] == sol[idx]);
            } else {
                assert(res[n].0 == spec_abbrev(d));
            }
        }
        assert(res.take(n + 1) =~= sol2);

        assert(spec_try(queue1, e, sol, size, 0) is None);
        lemma_try_none_at(queue1, e, sol, size, 0, i0);
        lemma_valid_not_collinear(queue, sol, size, res);
        lemma_valid_not_rejected(queue, sol, size, res);
        lemma_valid_not_blocked(queue, sol, size, res);
        assert(spec_search(queue1, sol2, size) is None);

        // the direction was fully explored: induct on the shorter queue
        assert(inv_s(queue1, sol, size)) by {
            assert forall|x: int| 0 <= x < queue1.len() implies 1 <= #[trigger] queue1[x]
                < size by {
                assert(queue1[x] == queue[x]);
            }
        }
        if n > 0 {
            assert(crate::state::move_ok(sol, n - 1, size));
            let pd = move_dir(sol, n - 1);
            assert(move_dir(res, n - 1) == pd) by {
                assert(res[n - 1] == sol[n - 1]);
                if n > 1 {
                    assert(res[n - 2] == sol[n - 2]);
                }
            }
            assert(spec_dot(move_dir(res, n - 1), move_dir(res, n)) == 0);
            crate::geometry::lemma_direction_algebra(spec_dir(i0), pd);
            crate::geometry::lemma_direction_algebra(pd, spec_dir(i0));
            assert(spec_dot(pd, spec_dir(i0)) == 0);
        }
        lemma_commit(queue1, sol, size, i0, e, npos);
        assert(lengths(sol2) =~= lengths(sol).push(e));
        assert(queue.reverse() =~= seq![e] + queue1.reverse());
        assert(lengths(res) =~= lengths(sol2) + queue1.reverse());
        lemma_search_complete_rec(queue1, sol2, size, res);
        assert(extends_valid(queue1, sol2, size, res));
        assert(false);
    }
}

/// Completeness of the search, from a fresh context: when the specified
/// search reports no solution, no valid fold sequence for the queue exists
/// at all, so the report is an exhaustive negative proof, not an error.
pub proof fn lemma_search_complete(queue: Seq<u8>, size: int, res: Seq<SolutionStep>)
    requires
        1 <= size <= 64,
        forall|k: int| 0 <= k < queue.len() ==> 1 <= #[trigger] queue[k] < size,
        spec_search(queue, Seq::<SolutionStep>::empty(), size) is None,
    ensures
        !valid_solution(queue, res, size),
{
    let empty_sol = Seq::<SolutionStep>::empty();
    if valid_solution(queue, res, size) {
        assert(path_seq(empty_sol) =~= Seq::<(int, int, int)>::empty());
        assert(inv_s(queue, empty_sol, size));
        assert(lengths(res).len() == res.len());
        assert(res.len() == queue.len());
        assert(lengths(res) =~= lengths(empty_sol) + queue.reverse());
        lemma_search_complete_rec(queue, empty_sol, size, res);
        assert(extends_valid(queue, empty_sol, size, res));
        assert(false);
    }
}

} // verus!
