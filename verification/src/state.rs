use vstd::prelude::*;

use crate::bounds::Bounds;
use crate::geometry::{
    cell_at, further, is_unit_dir, spec_abbrev, spec_axis_coord, spec_dir, spec_dot, spec_opp,
    Direction, Position,
};
use crate::occupancy::{in_cube_range, Bitmask};

verus! {

/// One committed fold: the direction's one-letter name, the segment length,
/// and the cell the move ends on.
pub type SolutionStep = (char, u8, Position);

/// The fixed starting cell of the chain.
pub open spec fn origin3() -> (int, int, int) {
    (0, 0, 0)
}

/// Sign of an integer, as a component of a derived unit vector.
pub open spec fn spec_sgn(v: int) -> i8 {
    if v > 0 {
        1
    } else if v < 0 {
        -1i8
    } else {
        0
    }
}

/// The cell move `i` starts from: the previous move's end, or the origin.
pub open spec fn start_of(sol: Seq<SolutionStep>, i: int) -> (int, int, int) {
    if i == 0 {
        origin3()
    } else {
        sol[i - 1].2@
    }
}

/// The cell the whole committed path ends on.
pub open spec fn end_pos(sol: Seq<SolutionStep>) -> (int, int, int) {
    start_of(sol, sol.len() as int)
}

/// The unit direction of move `i`, recovered from its endpoints.
pub open spec fn move_dir(sol: Seq<SolutionStep>, i: int) -> Direction {
    let st = start_of(sol, i);
    let en = sol[i].2@;
    Direction { x: spec_sgn(en.0 - st.0), y: spec_sgn(en.1 - st.1), z: spec_sgn(en.2 - st.2) }
}

/// The cells a move covers, in step order, starting one cell past `p`.
pub open spec fn ray_seq(p: (int, int, int), d: Direction, len: int) -> Seq<(int, int, int)> {
    Seq::new(len as nat, |k: int| cell_at(p, d, k + 1))
}

/// Every cell the committed path covers, in the order the moves placed
/// them; the origin is not part of this sequence.
pub open spec fn path_seq(sol: Seq<SolutionStep>) -> Seq<(int, int, int)>
    decreases sol.len(),
{
    if sol.len() == 0 {
        Seq::empty()
    } else {
        path_seq(sol.drop_last()) + ray_seq(
            start_of(sol, sol.len() - 1),
            move_dir(sol, sol.len() - 1),
            sol.last().1 as int,
        )
    }
}

/// Move `i` is a well-formed fold for a cube of side `size`: a positive
/// length shorter than the side, along a unit direction, ending where its
/// start plus the whole offset lands, and labelled with that direction's
/// fixed abbreviation.
pub open spec fn move_ok(sol: Seq<SolutionStep>, i: int, size: int) -> bool {
    let d = move_dir(sol, i);
    &&& 1 <= sol[i].1 < size
    &&& is_unit_dir(d)
    &&& sol[i].2@ == cell_at(start_of(sol, i), d, sol[i].1 as int)
    &&& sol[i].0 == spec_abbrev(d)
}

/// Every committed move is well-formed.
pub open spec fn chain_ok(sol: Seq<SolutionStep>, size: int) -> bool {
    forall|i: int| 0 <= i < sol.len() ==> move_ok(sol, i, size)
}

/// No two consecutive moves share an axis: each joint turns.
pub open spec fn noncollinear(sol: Seq<SolutionStep>) -> bool {
    forall|i: int|
        1 <= i < sol.len() ==> spec_dot(move_dir(sol, i - 1), #[trigger] move_dir(sol, i)) == 0
}

/// The furthest coordinate reached along the direction at table index `j`
/// by the given cells, starting from the origin's extent 0.
pub open spec fn spec_extent(j: int, cells: Seq<(int, int, int)>) -> int
    decreases cells.len(),
{
    if cells.len() == 0 {
        0
    } else {
        further(j, spec_extent(j, cells.drop_last()), spec_axis_coord(j, cells.last()))
    }
}

/// Sum of a sequence of segment lengths.
pub open spec fn sum_of(s: Seq<u8>) -> int
    decreases s.len(),
{
    if s.len() == 0 {
        0
    } else {
        sum_of(s.drop_last()) + s.last()
    }
}

/// The lengths of the committed moves, in order.
pub open spec fn lengths(sol: Seq<SolutionStep>) -> Seq<u8> {
    sol.map_values(|m: SolutionStep| m.1)
}

/// The invariant tying a segment queue and a committed path together, for
/// a cube of side `size`. Everything else the search tracks (occupancy,
/// extents, current position and heading) is a function of these two.
pub open spec fn inv_s(queue: Seq<u8>, sol: Seq<SolutionStep>, size: int) -> bool {
    &&& 1 <= size <= 64
    &&& forall|i: int| 0 <= i < queue.len() ==> 1 <= #[trigger] queue[i] < size
    &&& chain_ok(sol, size)
    &&& noncollinear(sol)
    &&& path_seq(sol).no_duplicates()
    &&& !path_seq(sol).contains(origin3())
    &&& forall|j: int|
        0 <= j < 6 && j % 2 == 0 ==> #[trigger] spec_extent(j, path_seq(sol)) - spec_extent(
            j + 1,
            path_seq(sol),
        ) < size
}

/// The extent along any direction starts at the origin's 0 and only ever
/// moves outward, so positive directions never record a negative extent
/// and negative directions never a positive one.
pub proof fn lemma_extent_sign(j: int, cells: Seq<(int, int, int)>)
    ensures
        j % 2 == 0 ==> spec_extent(j, cells) >= 0,
        j % 2 != 0 ==> spec_extent(j, cells) <= 0,
    decreases cells.len(),
{
    if cells.len() > 0 {
        lemma_extent_sign(j, cells.drop_last());
    }
}

/// Every recorded cell lies within the extent along every direction.
pub proof fn lemma_extent_covers(j: int, cells: Seq<(int, int, int)>, i: int)
    requires
        0 <= i < cells.len(),
    ensures
        j % 2 == 0 ==> spec_axis_coord(j, cells[i]) <= spec_extent(j, cells),
        j % 2 != 0 ==> spec_axis_coord(j, cells[i]) >= spec_extent(j, cells),
    decreases cells.len(),
{
    if i < cells.len() - 1 {
        lemma_extent_covers(j, cells.drop_last(), i);
    }
}

/// When the spans are all smaller than the cube side, every recorded cell
/// lies in the reachable coordinate range.
pub proof fn lemma_cells_in_range(size: int, cells: Seq<(int, int, int)>, i: int)
    requires
        0 <= i < cells.len(),
        1 <= size,
        forall|j: int|
            0 <= j < 6 && j % 2 == 0 ==> #[trigger] spec_extent(j, cells) - spec_extent(
                j + 1,
                cells,
            ) < size,
    ensures
        in_cube_range(size, cells[i]),
{
    let t = cells[i];
    lemma_extent_sign(0, cells);
    lemma_extent_sign(1, cells);
    lemma_extent_covers(0, cells, i);
    lemma_extent_covers(1, cells, i);
    assert(spec_extent(0, cells) - spec_extent(1, cells) < size);
    lemma_extent_sign(2, cells);
    lemma_extent_sign(3, cells);
    lemma_extent_covers(2, cells, i);
    lemma_extent_covers(3, cells, i);
    assert(spec_extent(2, cells) - spec_extent(3, cells) < size);
    lemma_extent_sign(4, cells);
    lemma_extent_sign(5, cells);
    lemma_extent_covers(4, cells, i);
    lemma_extent_covers(5, cells, i);
    assert(spec_extent(4, cells) - spec_extent(5, cells) < size);
}

/// Appending the cells of one straight move updates the extent along every
/// direction to what the move's far end dictates: the far end is the only
/// new cell that can extend anything.
pub proof fn lemma_extent_append_ray(
    j: int,
    cells: Seq<(int, int, int)>,
    p: (int, int, int),
    d: Direction,
    len: int,
)
    requires
        0 <= j < 6,
        is_unit_dir(d),
        1 <= len,
        j % 2 == 0 ==> spec_axis_coord(j, p) <= spec_extent(j, cells),
        j % 2 != 0 ==> spec_axis_coord(j, p) >= spec_extent(j, cells),
    ensures
        spec_extent(j, cells + ray_seq(p, d, len)) == further(
            j,
            spec_extent(j, cells),
            spec_axis_coord(j, cell_at(p, d, len)),
        ),
    decreases len,
{
    let cj = spec_axis_coord(j, d@);
    assert(cj == -1 || cj == 0 || cj == 1);
    assert(spec_axis_coord(j, cell_at(p, d, len)) == spec_axis_coord(j, p) + cj * len);
    if len == 1 {
        assert(cells + ray_seq(p, d, 1) =~= cells.push(cell_at(p, d, 1)));
        assert((cells.push(cell_at(p, d, 1))).drop_last() =~= cells);
    } else {
        lemma_extent_append_ray(j, cells, p, d, len - 1);
        assert(cells + ray_seq(p, d, len) =~= (cells + ray_seq(p, d, len - 1)).push(
            cell_at(p, d, len),
        ));
        assert(((cells + ray_seq(p, d, len - 1)).push(cell_at(p, d, len))).drop_last() =~= cells
            + ray_seq(p, d, len - 1));
        assert(spec_axis_coord(j, cell_at(p, d, len - 1)) == spec_axis_coord(j, p) + cj * (len
            - 1));
    }
}

/// Extending the committed path by one move appends exactly that move's
/// cells to the covered-cell sequence.
pub proof fn lemma_path_seq_push(sol: Seq<SolutionStep>, m: SolutionStep)
    ensures
        path_seq(sol.push(m)) == path_seq(sol) + ray_seq(
            end_pos(sol),
            move_dir(sol.push(m), sol.len() as int),
            m.1 as int,
        ),
{
    let sol2 = sol.push(m);
    assert(sol2.drop_last() =~= sol);
    assert(sol2.last() == m);
    assert(start_of(sol2, sol2.len() - 1) == end_pos(sol));
}

/// The committed path ends on the last cell the move sequence covers.
pub proof fn lemma_end_pos_in_path(sol: Seq<SolutionStep>, size: int)
    requires
        chain_ok(sol, size),
        sol.len() > 0,
    ensures
        path_seq(sol).len() > 0,
        path_seq(sol).last() == end_pos(sol),
{
    let pre = path_seq(sol.drop_last());
    let st = start_of(sol, sol.len() - 1);
    let d = move_dir(sol, sol.len() - 1);
    let len = sol.last().1 as int;
    assert(move_ok(sol, sol.len() - 1, size));
    assert(path_seq(sol) == pre + ray_seq(st, d, len));
    assert(ray_seq(st, d, len)[len - 1] == cell_at(st, d, len));
    assert(path_seq(sol).last() == cell_at(st, d, len));
}

/// The number of cells the path covers is the sum of the move lengths.
pub proof fn lemma_path_len(sol: Seq<SolutionStep>)
    ensures
        path_seq(sol).len() == sum_of(lengths(sol)),
    decreases sol.len(),
{
    if sol.len() == 0 {
        assert(lengths(sol) =~= Seq::<u8>::empty());
    } else {
        lemma_path_len(sol.drop_last());
        assert(lengths(sol).drop_last() =~= lengths(sol.drop_last()));
        assert(lengths(sol).last() == sol.last().1);
    }
}

/// The direction at index `i` moves by +1 along its own axis when `i` is
/// even and by -1 when `i` is odd, and not at all along the other axes.
pub proof fn lemma_dir_axis(i: int)
    requires
        0 <= i < 6,
    ensures
        spec_axis_coord(i, spec_dir(i)@) == if i % 2 == 0 {
            1int
        } else {
            -1int
        },
        spec_axis_coord(spec_opp(i), spec_dir(i)@) == spec_axis_coord(i, spec_dir(i)@),
        forall|j: int|
            0 <= j < 6 && j != i && j != spec_opp(i) ==> #[trigger] spec_axis_coord(
                j,
                spec_dir(i)@,
            ) == 0,
        is_unit_dir(spec_dir(i)),
        0 <= spec_opp(i) < 6,
        spec_opp(i) % 2 != i % 2,
{
}

/// Opposite directions read the same axis of a coordinate triple.
pub proof fn lemma_axis_pair(i: int, t: (int, int, int))
    requires
        0 <= i < 6,
    ensures
        spec_axis_coord(spec_opp(i), t) == spec_axis_coord(i, t),
{
}

/// The current position never lies beyond any recorded extent.
pub proof fn lemma_end_within_extents(sol: Seq<SolutionStep>, size: int, j: int)
    requires
        chain_ok(sol, size),
    ensures
        j % 2 == 0 ==> spec_axis_coord(j, end_pos(sol)) <= spec_extent(j, path_seq(sol)),
        j % 2 != 0 ==> spec_axis_coord(j, end_pos(sol)) >= spec_extent(j, path_seq(sol)),
{
    if sol.len() == 0 {
        lemma_extent_sign(j, path_seq(sol));
    } else {
        lemma_end_pos_in_path(sol, size);
        lemma_extent_covers(j, path_seq(sol), path_seq(sol).len() - 1);
    }
}

/// A candidate move that passes the extent pruning test only touches cells
/// inside the reachable coordinate range.
pub proof fn lemma_candidate_in_range(
    queue: Seq<u8>,
    sol: Seq<SolutionStep>,
    size: int,
    i: int,
    len: int,
)
    requires
        inv_s(queue, sol, size),
        0 <= i < 6,
        1 <= len < size,
        -size < spec_axis_coord(i, cell_at(end_pos(sol), spec_dir(i), len)) - spec_extent(
            spec_opp(i),
            path_seq(sol),
        ) < size,
    ensures
        forall|k: int|
            1 <= k <= len ==> in_cube_range(
                size,
                #[trigger] cell_at(end_pos(sol), spec_dir(i), k),
            ),
        in_cube_range(size, end_pos(sol)),
{
    let p = end_pos(sol);
    let d = spec_dir(i);
    let cells = path_seq(sol);
    lemma_dir_axis(i);
    assert forall|j: int| 0 <= j < 6 implies (j % 2 == 0 ==> #[trigger] spec_axis_coord(j, p)
        <= spec_extent(j, cells)) && (j % 2 != 0 ==> spec_axis_coord(j, p) >= spec_extent(
        j,
        cells,
    )) by {
        lemma_end_within_extents(sol, size, j);
    }
    assert forall|j: int| #![trigger spec_extent(j, cells)] 0 <= j < 6 && j % 2 == 0 implies
        spec_extent(j, cells) <= size - 1 && spec_extent(j + 1, cells) >= -(size - 1) by {
        lemma_extent_sign(j, cells);
        lemma_extent_sign(j + 1, cells);
        assert(spec_extent(j, cells) - spec_extent(j + 1, cells) < size);
    }
    let io = spec_opp(i);
    assert(spec_axis_coord(1, p) == spec_axis_coord(0, p));
    assert(spec_axis_coord(3, p) == spec_axis_coord(2, p));
    assert(spec_axis_coord(5, p) == spec_axis_coord(4, p));
    assert(-(size - 1) <= spec_axis_coord(0, p) <= size - 1);
    assert(-(size - 1) <= spec_axis_coord(2, p) <= size - 1);
    assert(-(size - 1) <= spec_axis_coord(4, p) <= size - 1);
    assert(in_cube_range(size, p));
    assert forall|k: int| 1 <= k <= len implies in_cube_range(
        size,
        #[trigger] cell_at(p, d, k),
    ) by {
        let t = cell_at(p, d, k);
        let c = spec_axis_coord(i, cell_at(p, d, len));
        assert(spec_axis_coord(i, t) == spec_axis_coord(i, p) + spec_axis_coord(i, d@) * k);
        assert(c == spec_axis_coord(i, p) + spec_axis_coord(i, d@) * len);
        assert(spec_axis_coord(io, p) == spec_axis_coord(i, p));
        if i % 2 == 0 {
            // moving toward the positive extent: coordinates climb from the
            // current position up to the checked endpoint
            assert(spec_axis_coord(i, t) == spec_axis_coord(i, p) + k);
            assert(spec_axis_coord(i, t) <= c);
            assert(c - spec_extent(io, cells) < size);
            assert(spec_extent(io, cells) <= 0) by { lemma_extent_sign(io, cells); }
            assert(spec_axis_coord(i, t) <= size - 1);
            assert(spec_axis_coord(i, t) > spec_axis_coord(i, p));
            assert(spec_axis_coord(io, p) >= spec_extent(io, cells));
            assert(spec_extent(io, cells) >= -(size - 1)) by {
                lemma_extent_sign(i, cells);
                assert(spec_extent(i, cells) - spec_extent(i + 1, cells) < size);
            }
            assert(spec_axis_coord(i, t) >= -(size - 1));
        } else {
            assert(spec_axis_coord(i, t) == spec_axis_coord(i, p) - k);
            assert(spec_axis_coord(i, t) >= c);
            assert(spec_extent(io, cells) - c < size);
            assert(spec_extent(io, cells) >= 0) by { lemma_extent_sign(io, cells); }
            assert(spec_axis_coord(i, t) >= -(size - 1));
            assert(spec_axis_coord(i, t) < spec_axis_coord(i, p));
            assert(spec_axis_coord(io, p) <= spec_extent(io, cells));
            assert(spec_extent(io, cells) <= size - 1) by {
                lemma_extent_sign(i, cells);
                assert(spec_extent(io, cells) - spec_extent(io + 1, cells) < size);
            }
            assert(spec_axis_coord(i, t) <= size - 1);
        }
        assert forall|j: int| 0 <= j < 6 && j != i && j != io implies spec_axis_coord(j, t)
            == spec_axis_coord(j, p) by {
            assert(spec_axis_coord(j, t) == spec_axis_coord(j, p) + spec_axis_coord(j, d@) * k);
        }
        if i == 0 || i == 1 {
            assert(spec_axis_coord(0, t) == spec_axis_coord(i, t));
            assert(spec_axis_coord(2, t) == spec_axis_coord(2, p));
            assert(spec_axis_coord(4, t) == spec_axis_coord(4, p));
        } else if i == 2 || i == 3 {
            assert(spec_axis_coord(2, t) == spec_axis_coord(i, t));
            assert(spec_axis_coord(0, t) == spec_axis_coord(0, p));
            assert(spec_axis_coord(4, t) == spec_axis_coord(4, p));
        } else {
            assert(spec_axis_coord(4, t) == spec_axis_coord(i, t));
            assert(spec_axis_coord(0, t) == spec_axis_coord(0, p));
            assert(spec_axis_coord(2, t) == spec_axis_coord(2, p));
        }
        assert(-(size - 1) <= spec_axis_coord(0, t) <= size - 1);
        assert(-(size - 1) <= spec_axis_coord(2, t) <= size - 1);
        assert(-(size - 1) <= spec_axis_coord(4, t) <= size - 1);
    }
}

/// Scaling a component in {-1, 0, 1} by a positive length keeps its sign.
pub proof fn lemma_sgn_scale(c: i8, k: int)
    by (nonlinear_arith)
    requires
        -1 <= c <= 1,
        1 <= k,
    ensures
        spec_sgn(c * k) == c,
{
}

/// Two distinct step counts along one unit direction land on two distinct
/// cells.
pub proof fn lemma_ray_cells_distinct(p: (int, int, int), d: Direction, ka: int, kb: int)
    requires
        is_unit_dir(d),
        ka != kb,
    ensures
        cell_at(p, d, ka) != cell_at(p, d, kb),
{
    if cell_at(p, d, ka) == cell_at(p, d, kb) {
        assert(d.x * ka == d.x * kb && d.y * ka == d.y * kb && d.z * ka == d.z * kb);
        assert(d.x != 0 || d.y != 0 || d.z != 0);
        assert(false) by (nonlinear_arith)
            requires
                d.x * ka == d.x * kb,
                d.y * ka == d.y * kb,
                d.z * ka == d.z * kb,
                ka != kb,
                d.x != 0 || d.y != 0 || d.z != 0,
        ;
    }
}

/// A concatenation holds a value exactly when one of its parts does.
pub proof fn lemma_concat_contains(a: Seq<(int, int, int)>, b: Seq<(int, int, int)>, t: (int, int, int))
    ensures
        (a + b).contains(t) == (a.contains(t) || b.contains(t)),
{
    if a.contains(t) {
        let idx = choose|idx: int| 0 <= idx < a.len() && a[idx] == t;
        assert((a + b)[idx] == t);
    }
    if b.contains(t) {
        let idx = choose|idx: int| 0 <= idx < b.len() && b[idx] == t;
        assert((a + b)[a.len() + idx] == t);
    }
    if (a + b).contains(t) {
        let idx = choose|idx: int| 0 <= idx < (a + b).len() && (a + b)[idx] == t;
        if idx < a.len() {
            assert(a[idx] == t);
        } else {
            assert(b[idx - a.len()] == t);
        }
    }
}

/// The cells of one straight move are exactly the cells some step count
/// within it reaches.
pub proof fn lemma_ray_contains(p: (int, int, int), d: Direction, len: int, t: (int, int, int))
    requires
        0 <= len,
    ensures
        ray_seq(p, d, len).contains(t) == exists|k: int|
            1 <= k <= len && t == #[trigger] cell_at(p, d, k),
{
    if ray_seq(p, d, len).contains(t) {
        let idx = choose|idx: int| 0 <= idx < len && ray_seq(p, d, len)[idx] == t;
        assert(t == cell_at(p, d, idx + 1));
    }
    if exists|k: int| 1 <= k <= len && t == #[trigger] cell_at(p, d, k) {
        let k = choose|k: int| 1 <= k <= len && t == #[trigger] cell_at(p, d, k);
        assert(ray_seq(p, d, len)[k - 1] == t);
    }
}

/// The current position lies in the reachable coordinate range.
pub proof fn lemma_end_in_range(queue: Seq<u8>, sol: Seq<SolutionStep>, size: int)
    requires
        inv_s(queue, sol, size),
    ensures
        in_cube_range(size, end_pos(sol)),
{
    if sol.len() == 0 {
    } else {
        lemma_end_pos_in_path(sol, size);
        lemma_cells_in_range(size, path_seq(sol), path_seq(sol).len() - 1);
    }
}

/// The committed path after accepting a move of length `len` along the
/// direction at table index `i`, ending on `npos`.
pub open spec fn committed(sol: Seq<SolutionStep>, i: int, len: u8, npos: Position) -> Seq<
    SolutionStep,
> {
    sol.push((spec_abbrev(spec_dir(i)), len, npos))
}

/// Committing a candidate move that passed every check preserves the whole
/// queue/path invariant, appends exactly the move's cells to the path, and
/// moves each extent to what the move's far end dictates.
#[verifier::rlimit(50)]
pub proof fn lemma_commit(
    queue: Seq<u8>,
    sol: Seq<SolutionStep>,
    size: int,
    i: int,
    len: u8,
    npos: Position,
)
    requires
        inv_s(queue, sol, size),
        0 <= i < 6,
        1 <= len < size,
        npos@ == cell_at(end_pos(sol), spec_dir(i), len as int),
        sol.len() > 0 ==> spec_dot(move_dir(sol, sol.len() - 1), spec_dir(i)) == 0,
        -size < spec_axis_coord(i, npos@) - spec_extent(spec_opp(i), path_seq(sol)) < size,
        forall|k: int|
            1 <= k <= len ==> #[trigger] cell_at(end_pos(sol), spec_dir(i), k) != origin3(),
        forall|k: int|
            1 <= k <= len ==> !path_seq(sol).contains(
                #[trigger] cell_at(end_pos(sol), spec_dir(i), k),
            ),
    ensures
        move_dir(committed(sol, i, len, npos), sol.len() as int) == spec_dir(i),
        path_seq(committed(sol, i, len, npos)) == path_seq(sol) + ray_seq(
            end_pos(sol),
            spec_dir(i),
            len as int,
        ),
        end_pos(committed(sol, i, len, npos)) == npos@,
        inv_s(queue, committed(sol, i, len, npos), size),
        forall|j: int|
            0 <= j < 6 ==> #[trigger] spec_extent(j, path_seq(committed(sol, i, len, npos)))
                == further(j, spec_extent(j, path_seq(sol)), spec_axis_coord(j, npos@)),
        forall|j: int|
            0 <= j < 6 && j != i ==> #[trigger] spec_extent(
                j,
                path_seq(committed(sol, i, len, npos)),
            ) == spec_extent(j, path_seq(sol)),
{
    let d = spec_dir(i);
    let p = end_pos(sol);
    let m = (spec_abbrev(d), len, npos);
    let sol2 = committed(sol, i, len, npos);
    let ray = ray_seq(p, d, len as int);
    let cells = path_seq(sol);
    let io = spec_opp(i);
    let n = sol.len() as int;
    lemma_dir_axis(i);

    assert(sol2.drop_last() =~= sol);
    assert(sol2.last() == m);
    assert(start_of(sol2, n) == p);
    assert(npos@.0 - p.0 == d.x * len);
    assert(npos@.1 - p.1 == d.y * len);
    assert(npos@.2 - p.2 == d.z * len);
    assert(-1 <= d.x <= 1 && -1 <= d.y <= 1 && -1 <= d.z <= 1);
    lemma_sgn_scale(d.x, len as int);
    lemma_sgn_scale(d.y, len as int);
    lemma_sgn_scale(d.z, len as int);
    assert(move_dir(sol2, n) == d);
    lemma_path_seq_push(sol, m);
    assert(path_seq(sol2) == cells + ray);

    // every earlier move reads the same entries in the longer sequence
    assert forall|idx: int| 0 <= idx < n implies move_dir(sol2, idx) == move_dir(sol, idx)
        && start_of(sol2, idx) == start_of(sol, idx) && sol2[idx] == sol[idx] by {
        assert(sol2[idx] == sol[idx]);
        if idx > 0 {
            assert(sol2[idx - 1] == sol[idx - 1]);
        }
    }

    assert(chain_ok(sol2, size)) by {
        assert forall|idx: int| 0 <= idx < sol2.len() implies move_ok(sol2, idx, size) by {
            if idx < n {
                assert(move_ok(sol, idx, size));
            } else {
                assert(move_ok(sol2, n, size));
            }
        }
    }

    assert(noncollinear(sol2)) by {
        assert forall|idx: int|
            1 <= idx < sol2.len() implies spec_dot(
            move_dir(sol2, idx - 1),
            #[trigger] move_dir(sol2, idx),
        ) == 0 by {
            if idx < n {
                assert(move_dir(sol2, idx - 1) == move_dir(sol, idx - 1));
                assert(move_dir(sol2, idx) == move_dir(sol, idx));
            } else {
                assert(move_dir(sol2, n - 1) == move_dir(sol, n - 1));
                assert(move_dir(sol2, n) == d);
            }
        }
    }

    // the ray's cells are pairwise distinct: they differ along the moving
    // axis
    assert forall|ka: int, kb: int| 1 <= ka <= len && 1 <= kb <= len && ka != kb implies cell_at(
        p,
        d,
        ka,
    ) != cell_at(p, d, kb) by {
        let cj = spec_axis_coord(i, d@);
        assert(spec_axis_coord(i, cell_at(p, d, ka)) == spec_axis_coord(i, p) + cj * ka);
        assert(spec_axis_coord(i, cell_at(p, d, kb)) == spec_axis_coord(i, p) + cj * kb);
        assert(cj == 1 || cj == -1);
        assert(cj * ka != cj * kb) by (nonlinear_arith)
            requires
                cj == 1 || cj == -1,
                ka != kb,
        ;
    }

    assert(path_seq(sol2).no_duplicates()) by {
        assert forall|a: int, b: int|
            0 <= a < path_seq(sol2).len() && 0 <= b < path_seq(sol2).len() && a
                != b implies path_seq(sol2)[a] != path_seq(sol2)[b] by {
            let cl = cells.len() as int;
            if a < cl && b < cl {
                assert(cells[a] != cells[b]);
            } else if a >= cl && b >= cl {
                assert(path_seq(sol2)[a] == cell_at(p, d, a - cl + 1));
                assert(path_seq(sol2)[b] == cell_at(p, d, b - cl + 1));
            } else if a < cl {
                assert(path_seq(sol2)[b] == cell_at(p, d, b - cl + 1));
                assert(cells.contains(cells[a]));
                assert(!cells.contains(cell_at(p, d, b - cl + 1)));
            } else {
                assert(path_seq(sol2)[a] == cell_at(p, d, a - cl + 1));
                assert(cells.contains(cells[b]));
                assert(!cells.contains(cell_at(p, d, a - cl + 1)));
            }
        }
    }

    assert(!path_seq(sol2).contains(origin3())) by {
        if path_seq(sol2).contains(origin3()) {
            let a = choose|a: int|
                0 <= a < path_seq(sol2).len() && path_seq(sol2)[a] == origin3();
            let cl = cells.len() as int;
            if a < cl {
                assert(cells.contains(origin3()));
            } else {
                assert(path_seq(sol2)[a] == cell_at(p, d, a - cl + 1));
            }
        }
    }

    // each extent moves to what the far end dictates
    assert forall|j: int|
        0 <= j < 6 implies #[trigger] spec_extent(j, path_seq(sol2)) == further(
        j,
        spec_extent(j, cells),
        spec_axis_coord(j, npos@),
    ) by {
        lemma_end_within_extents(sol, size, j);
        lemma_extent_append_ray(j, cells, p, d, len as int);
    }

    // and only the extent of the move's own direction can change
    assert forall|j: int|
        0 <= j < 6 && j != i implies #[trigger] spec_extent(j, path_seq(sol2)) == spec_extent(
        j,
        cells,
    ) by {
        lemma_end_within_extents(sol, size, j);
        if j == io {
            assert(spec_axis_coord(j, npos@) == spec_axis_coord(i, p) + spec_axis_coord(i, d@)
                * len);
            assert(spec_axis_coord(j, p) == spec_axis_coord(i, p));
        } else {
            assert(spec_axis_coord(j, npos@) == spec_axis_coord(j, p) + spec_axis_coord(j, d@)
                * len);
            assert(spec_axis_coord(j, d@) == 0);
        }
    }

    // the spans stay below the cube side
    assert forall|j: int|
        0 <= j < 6 && j % 2 == 0 implies #[trigger] spec_extent(j, path_seq(sol2)) - spec_extent(
        j + 1,
        path_seq(sol2),
    ) < size by {
        lemma_extent_sign(j, cells);
        lemma_extent_sign(j + 1, cells);
        assert(spec_extent(j, cells) - spec_extent(j + 1, cells) < size);
        if i == j {
            assert(spec_extent(j + 1, path_seq(sol2)) == spec_extent(j + 1, cells));
            assert(spec_extent(j, path_seq(sol2)) == further(
                j,
                spec_extent(j, cells),
                spec_axis_coord(j, npos@),
            ));
        } else if i == j + 1 {
            assert(spec_extent(j, path_seq(sol2)) == spec_extent(j, cells));
            assert(spec_extent(j + 1, path_seq(sol2)) == further(
                j + 1,
                spec_extent(j + 1, cells),
                spec_axis_coord(j + 1, npos@),
            ));
            assert(spec_axis_coord(j + 1, npos@) == spec_axis_coord(i, npos@));
        } else {
            assert(spec_extent(j, path_seq(sol2)) == spec_extent(j, cells));
            assert(spec_extent(j + 1, path_seq(sol2)) == spec_extent(j + 1, cells));
        }
    }

    assert(inv_s(queue, sol2, size));
}

/// Sums distribute over concatenation.
pub proof fn lemma_sum_concat(a: Seq<u8>, b: Seq<u8>)
    ensures
        sum_of(a + b) == sum_of(a) + sum_of(b),
    decreases b.len(),
{
    if b.len() == 0 {
        assert(a + b =~= a);
    } else {
        assert((a + b).drop_last() =~= a + b.drop_last());
        assert((a + b).last() == b.last());
        lemma_sum_concat(a, b.drop_last());
    }
}

/// Reversing a sequence of lengths does not change their sum.
pub proof fn lemma_sum_reverse(s: Seq<u8>)
    ensures
        sum_of(s.reverse()) == sum_of(s),
    decreases s.len(),
{
    if s.len() > 0 {
        assert(s.reverse() =~= seq![s.last()] + s.drop_last().reverse());
        lemma_sum_concat(seq![s.last()], s.drop_last().reverse());
        lemma_sum_reverse(s.drop_last());
        assert(seq![s.last()].len() == 1);
        assert(seq![s.last()].last() == s.last());
        assert(seq![s.last()].drop_last() =~= Seq::<u8>::empty());
        assert(sum_of(Seq::<u8>::empty()) == 0);
        assert(sum_of(seq![s.last()]) == s.last());
    }
}

/// Extents only ever move outward as cells are appended: a prefix's extent
/// never lies beyond the whole sequence's.
pub proof fn lemma_extent_concat_monotone(j: int, a: Seq<(int, int, int)>, b: Seq<(int, int, int)>)
    ensures
        j % 2 == 0 ==> spec_extent(j, a + b) >= spec_extent(j, a),
        j % 2 != 0 ==> spec_extent(j, a + b) <= spec_extent(j, a),
    decreases b.len(),
{
    if b.len() == 0 {
        assert(a + b =~= a);
    } else {
        assert((a + b).drop_last() =~= a + b.drop_last());
        lemma_extent_concat_monotone(j, a, b.drop_last());
    }
}

/// The cells covered by a prefix of the moves sit at the front of the
/// whole path, in the same order.
pub proof fn lemma_path_take_prefix(sol: Seq<SolutionStep>, k: int)
    requires
        0 <= k <= sol.len(),
    ensures
        path_seq(sol.take(k)).len() <= path_seq(sol).len(),
        forall|x: int|
            0 <= x < path_seq(sol.take(k)).len() ==> path_seq(sol.take(k))[x]
                == #[trigger] path_seq(sol)[x],
    decreases sol.len(),
{
    if k == sol.len() {
        assert(sol.take(k) =~= sol);
    } else {
        lemma_path_take_prefix(sol.drop_last(), k);
        assert(sol.drop_last().take(k) =~= sol.take(k));
    }
}

/// The mutable context threaded through the whole search: the remaining
/// segment queue (consumed from the back), the occupancy set, the six
/// extents, the last heading, the current cell and the committed moves.
pub struct AttemptParams {
    pub input_queue: Vec<u8>,
    pub bounds: Bounds,
    pub state: Bitmask,
    pub direction: Option<Direction>,
    pub position: Position,
    pub solution: Vec<SolutionStep>,
}

/// Full well-formedness of a search context for a cube of side `size`:
/// the queue/path invariant, and every derived component holding exactly
/// the value the committed path dictates.
pub open spec fn inv(p: AttemptParams, size: int) -> bool {
    &&& inv_s(p.input_queue@, p.solution@, size)
    &&& p.state.wf()
    &&& p.state.spec_size() == size
    &&& forall|t: (int, int, int)| #[trigger]
        p.state@.contains(t) == path_seq(p.solution@).contains(t)
    &&& p.position@ == end_pos(p.solution@)
    &&& match p.direction {
        None => p.solution@.len() == 0,
        Some(d) => p.solution@.len() > 0 && d == move_dir(p.solution@, p.solution@.len() - 1),
    }
    &&& p.bounds@.len() == 6
    &&& forall|j: int|
        0 <= j < 6 ==> #[trigger] p.bounds@[j] as int == spec_extent(j, path_seq(p.solution@))
}

impl AttemptParams {
    /// A fresh context: the whole queue still to place, nothing occupied,
    /// all extents 0, no heading, standing on the origin.
    pub fn new(input_queue: &[u8], size: usize) -> (r: Self)
        requires
            1 <= size <= 64,
            forall|i: int| 0 <= i < input_queue@.len() ==> 1 <= #[trigger] input_queue@[i] < size,
        ensures
            r.input_queue@ == input_queue@,
            r.solution@.len() == 0,
            inv(r, size as int),
    {
        let bounds = Bounds::default();
        let state = Bitmask::new(size);
        let direction = None;
        let position = Position { x: 0, y: 0, z: 0 };
        let solution = Vec::new();
        let r = Self { input_queue: vstd::slice::slice_to_vec(input_queue), bounds, state, direction, position, solution };
        proof {
            assert(path_seq(r.solution@) =~= Seq::<(int, int, int)>::empty());
            assert(inv(r, size as int));
        }
        r
    }
}

} // verus!
