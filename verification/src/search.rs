//! The weighted search engine: a best-first search over the implicit
//! 8-connected graph of a grid, with per-node best-cost tracking, a
//! deterministic min-priority frontier, and backward-pointer path
//! reconstruction.
//!
//! Walls are crossed at a high step cost rather than excluded: the engine
//! models "prefer floor, allow wall as a last resort". With that policy
//! every in-bounds cell can be entered, so the weighted searches report
//! `Unreachable` only through path reconstruction on foreign predecessor
//! maps, never for their own in-bounds queries.

use vstd::prelude::*;

use crate::grid::{GridError, MapData, MapPos, Tile};

verus! {

/// x-offset of compass direction `d` (directions are numbered 0..8 and
/// cover each of the 8 distinct unit offsets exactly once).
pub open spec fn dir_dx(d: int) -> int {
    if d == 0 || d == 1 || d == 2 {
        -1
    } else if d == 3 || d == 4 {
        0
    } else {
        1
    }
}

/// y-offset of compass direction `d`.
pub open spec fn dir_dy(d: int) -> int {
    if d == 0 || d == 3 || d == 5 {
        -1
    } else if d == 1 || d == 6 {
        0
    } else {
        1
    }
}

/// The x coordinate of a linear position.
pub open spec fn pos_x(w: int, p: int) -> int {
    p % w
}

/// The y coordinate of a linear position.
pub open spec fn pos_y(w: int, p: int) -> int {
    p / w
}

/// Whether stepping from `p` in direction `d` stays on the grid. The step
/// is taken in 2D coordinates, so there is no wrapping around a row edge.
pub open spec fn step_ok(w: int, h: int, p: int, d: int) -> bool {
    &&& 0 <= pos_x(w, p) + dir_dx(d) < w
    &&& 0 <= pos_y(w, p) + dir_dy(d) < h
}

/// The linear position reached by stepping from `p` in direction `d`.
pub open spec fn step_to(w: int, p: int, d: int) -> int {
    (pos_x(w, p) + dir_dx(d)) + (pos_y(w, p) + dir_dy(d)) * w
}

/// `q` is one of the up-to-8 neighbors of `p`.
pub open spec fn adjacent(w: int, h: int, p: int, q: int) -> bool {
    exists|d: int| 0 <= d < 8 && step_ok(w, h, p, d) && q == #[trigger] step_to(w, p, d)
}

/// Cost of stepping onto the cell `q`: 1 for floor, the configured
/// penalty for a wall.
pub open spec fn step_cost(tiles: Seq<Tile>, wall_cost: int, q: int) -> int {
    if tiles[q] == Tile::Wall {
        wall_cost
    } else {
        1
    }
}

/// Cumulative cost of a path given in end-to-start order: the sum of the
/// costs of entering every cell except the last (the walk's origin).
pub open spec fn path_cost(tiles: Seq<Tile>, wall_cost: int, p: Seq<MapPos>) -> int
    decreases p.len(),
{
    if p.len() <= 1 {
        0
    } else {
        step_cost(tiles, wall_cost, p[0] as int) + path_cost(tiles, wall_cost, p.drop_first())
    }
}

/// A well-formed reconstructed walk, stored in end-to-start order: it
/// begins at `end`, finishes at `start`, stays in bounds, and every hop
/// moves between 8-neighbors.
pub open spec fn path_connects(w: int, h: int, p: Seq<MapPos>, start: int, end: int) -> bool {
    &&& p.len() >= 1
    &&& p[0] == end
    &&& p.last() == start
    &&& forall|i: int| 0 <= i < p.len() ==> #[trigger] p[i] < w * h
    &&& forall|i: int| 0 <= i < p.len() - 1 ==> adjacent(w, h, #[trigger] p[i + 1] as int, p[i] as int)
}

/// What a finished search run guarantees of its predecessor and cost maps:
/// the start is recorded at cost 0 with the "no predecessor" sentinel, and
/// every other recorded position points back to an adjacent recorded
/// predecessor whose recorded cost precedes it by at least one step cost.
/// Walking the pointers therefore strictly lowers the recorded cost, so
/// every chain is acyclic and ends at the start.
pub open spec fn search_post(
    w: int,
    h: int,
    tiles: Seq<Tile>,
    wall_cost: int,
    start: int,
    cf: Seq<Option<MapPos>>,
    cost: Seq<Option<usize>>,
) -> bool {
    &&& cf.len() == w * h
    &&& cost.len() == w * h
    &&& 0 <= start < w * h
    &&& cost[start] == Some(0usize)
    &&& cf[start] is None
    &&& forall|p: int| 0 <= p < w * h && cost[p] is None ==> #[trigger] cf[p] is None
    &&& forall|p: int|
        0 <= p < w * h && p != start && #[trigger] cost[p] is Some ==> {
            &&& cf[p] is Some
            &&& cf[p]->0 < w * h
            &&& cost[cf[p]->0 as int] is Some
            &&& adjacent(w, h, cf[p]->0 as int, p)
            &&& cost[p]->0 >= cost[cf[p]->0 as int]->0 + step_cost(tiles, wall_cost, p)
        }
}

/// Strengthening of [`search_post`] that the uninformed search achieves:
/// every recorded link is exact — a cell's recorded cost equals its
/// predecessor's record plus the step cost. (The informed variant can
/// leave a link behind when a later improvement lowers the predecessor's
/// record, so there the relation is only an upper bound on the chain.)
pub open spec fn search_exact(
    w: int,
    h: int,
    tiles: Seq<Tile>,
    wall_cost: int,
    start: int,
    cf: Seq<Option<MapPos>>,
    cost: Seq<Option<usize>>,
) -> bool {
    forall|p: int|
        0 <= p < w * h && p != start && #[trigger] cost[p] is Some ==> cost[p]->0
            == cost[cf[p]->0 as int]->0 + step_cost(tiles, wall_cost, p)
}

/// The discipline that keeps the uninformed search's links exact:
/// priorities are the plain costs, no frontier entry is cheaper than the
/// last settled cost, settled cells are recorded within that bound, and
/// every link points at a settled predecessor. A settled record can then
/// never improve again, so links set against it stay exact.
pub open spec fn exact_mode(
    w: int,
    h: int,
    tiles: Seq<Tile>,
    wall_cost: int,
    start: int,
    cf: Seq<Option<MapPos>>,
    cost: Seq<Option<usize>>,
    fr: Seq<State>,
    settled: Set<int>,
    bound: int,
) -> bool {
    &&& 0 <= bound
    &&& forall|j: int|
        0 <= j < fr.len() ==> (#[trigger] fr[j]).priority == fr[j].cost && fr[j].cost >= bound
    &&& forall|s: int|
        #[trigger] settled.contains(s) ==> 0 <= s < w * h && cost[s] is Some && cost[s]->0
            <= bound
    &&& forall|p: int|
        0 <= p < w * h && p != start && #[trigger] cost[p] is Some ==> settled.contains(
            cf[p]->0 as int,
        )
    &&& search_exact(w, h, tiles, wall_cost, start, cf, cost)
}

/// How many positions a cost map has recorded.
#[verifier::opaque]
pub open spec fn count_some(s: Seq<Option<usize>>) -> nat
    decreases s.len(),
{
    if s.len() == 0 {
        0
    } else {
        count_some(s.drop_last()) + if s.last() is Some {
            1nat
        } else {
            0nat
        }
    }
}

/// Remaining work in a cost map, used as part of the loop's termination
/// measure: unrecorded cells count as `cap`, recorded cells as their
/// current cost, and every frontier push strictly lowers the total.
#[verifier::opaque]
pub open spec fn potential(s: Seq<Option<usize>>, cap: int) -> int
    decreases s.len(),
{
    if s.len() == 0 {
        0
    } else {
        potential(s.drop_last(), cap) + if s.last() is Some {
            s.last()->0 as int
        } else {
            cap
        }
    }
}

pub proof fn lemma_count_some_le_len(s: Seq<Option<usize>>)
    ensures
        count_some(s) <= s.len(),
    decreases s.len(),
{
    reveal(count_some);
    if s.len() > 0 {
        lemma_count_some_le_len(s.drop_last());
    }
}

pub proof fn lemma_count_some_update(s: Seq<Option<usize>>, i: int, v: usize)
    requires
        0 <= i < s.len(),
    ensures
        count_some(s.update(i, Some(v))) == count_some(s) + if s[i] is Some {
            0nat
        } else {
            1nat
        },
    decreases s.len(),
{
    reveal(count_some);
    let t = s.update(i, Some(v));
    if i == s.len() - 1 {
        assert(t.drop_last() =~= s.drop_last());
    } else {
        assert(t.drop_last() =~= s.drop_last().update(i, Some(v)));
        lemma_count_some_update(s.drop_last(), i, v);
    }
}

/// A map with an unrecorded cell has strictly fewer records than cells.
pub proof fn lemma_count_some_missing(s: Seq<Option<usize>>, i: int)
    requires
        0 <= i < s.len(),
        s[i] is None,
    ensures
        count_some(s) <= s.len() - 1,
    decreases s.len(),
{
    reveal(count_some);
    if i == s.len() - 1 {
        lemma_count_some_le_len(s.drop_last());
    } else {
        lemma_count_some_missing(s.drop_last(), i);
    }
}

pub proof fn lemma_potential_nonneg(s: Seq<Option<usize>>, cap: int)
    requires
        cap >= 0,
    ensures
        potential(s, cap) >= 0,
    decreases s.len(),
{
    reveal(potential);
    if s.len() > 0 {
        lemma_potential_nonneg(s.drop_last(), cap);
    }
}

pub proof fn lemma_potential_update(s: Seq<Option<usize>>, cap: int, i: int, v: usize)
    requires
        0 <= i < s.len(),
    ensures
        potential(s.update(i, Some(v)), cap) == potential(s, cap) + v - if s[i] is Some {
            s[i]->0 as int
        } else {
            cap
        },
    decreases s.len(),
{
    reveal(potential);
    let t = s.update(i, Some(v));
    if i == s.len() - 1 {
        assert(t.drop_last() =~= s.drop_last());
    } else {
        assert(t.drop_last() =~= s.drop_last().update(i, Some(v)));
        lemma_potential_update(s.drop_last(), cap, i, v);
    }
}

/// Appending a node to an end-to-start walk adds the cost of the step
/// taken out of the old terminal node.
pub proof fn lemma_path_cost_push(tiles: Seq<Tile>, wall_cost: int, p: Seq<MapPos>, x: MapPos)
    requires
        p.len() >= 1,
    ensures
        path_cost(tiles, wall_cost, p.push(x)) == path_cost(tiles, wall_cost, p) + step_cost(
            tiles,
            wall_cost,
            p.last() as int,
        ),
    decreases p.len(),
{
    let q = p.push(x);
    assert(q[0] == p[0]);
    assert(q.len() == p.len() + 1);
    if p.len() == 1 {
        assert(q.drop_first() =~= seq![x]);
        assert(path_cost(tiles, wall_cost, q.drop_first()) == 0);
        assert(path_cost(tiles, wall_cost, q) == step_cost(tiles, wall_cost, q[0] as int));
        assert(p.last() == p[0]);
    } else {
        assert(q.drop_first() =~= p.drop_first().push(x));
        lemma_path_cost_push(tiles, wall_cost, p.drop_first(), x);
        assert(p.drop_first().last() == p.last());
        assert(path_cost(tiles, wall_cost, q) == step_cost(tiles, wall_cost, q[0] as int)
            + path_cost(tiles, wall_cost, q.drop_first()));
        assert(path_cost(tiles, wall_cost, p) == step_cost(tiles, wall_cost, p[0] as int)
            + path_cost(tiles, wall_cost, p.drop_first()));
    }
}

/// One frontier entry: the estimated total cost the entry is ordered by,
/// the cumulative cost it was pushed with, and its position.
#[derive(Clone, Copy, PartialEq, Eq, Structural)]
pub struct State {
    pub priority: usize,
    pub cost: usize,
    pub pos: MapPos,
}

/// Frontier ordering: ascending priority, ties broken by ascending
/// position, so runs with identical inputs explore in identical order.
pub open spec fn state_le(a: State, b: State) -> bool {
    a.priority < b.priority || (a.priority == b.priority && a.pos <= b.pos)
}

/// Every frontier entry points at a recorded position whose best known
/// cost is no worse than the cost the entry was pushed with.
pub open spec fn frontier_ok(n: int, cost: Seq<Option<usize>>, fr: Seq<State>) -> bool {
    forall|j: int|
        0 <= j < fr.len() ==> {
            &&& (#[trigger] fr[j]).pos < n
            &&& cost[fr[j].pos as int] is Some
            &&& cost[fr[j].pos as int]->0 <= fr[j].cost
        }
}

/// The unit offsets of the 8 compass directions, indexed 0..8.
pub fn dir_delta(d: usize) -> (r: (isize, isize))
    requires
        d < 8,
    ensures
        r.0 == dir_dx(d as int),
        r.1 == dir_dy(d as int),
{
    if d == 0 {
        (-1, -1)
    } else if d == 1 {
        (-1, 0)
    } else if d == 2 {
        (-1, 1)
    } else if d == 3 {
        (0, -1)
    } else if d == 4 {
        (0, 1)
    } else if d == 5 {
        (1, -1)
    } else if d == 6 {
        (1, 0)
    } else {
        (1, 1)
    }
}

/// A vector of `n` empty slots.
fn none_vec<T>(n: usize) -> (r: Vec<Option<T>>)
    ensures
        r@.len() == n,
        forall|i: int| 0 <= i < n ==> r@[i] is None,
{
    let mut r: Vec<Option<T>> = Vec::new();
    let mut k: usize = 0;
    while k < n
        invariant
            k <= n,
            r@.len() == k,
            forall|i: int| 0 <= i < k ==> r@[i] is None,
        decreases n - k,
    {
        r.push(None);
        k = k + 1;
    }
    r
}

/// For in-range coordinates, linear indexing and the div/mod conversion
/// are mutually inverse.
pub proof fn lemma_coords(w: int, x: int, y: int)
    requires
        w > 0,
        0 <= x < w,
        0 <= y,
    ensures
        (x + y * w) % w == x,
        (x + y * w) / w == y,
{
    vstd::arithmetic::div_mod::lemma_fundamental_div_mod_converse(x + y * w, w, y, x);
}

/// A linear index below `w * h` has coordinates inside the grid.
pub proof fn lemma_pos_in_grid(w: int, h: int, p: int)
    requires
        w > 0,
        h > 0,
        0 <= p < w * h,
    ensures
        0 <= pos_x(w, p) < w,
        0 <= pos_y(w, p) < h,
        p == pos_x(w, p) + pos_y(w, p) * w,
{
    vstd::arithmetic::div_mod::lemma_fundamental_div_mod(p, w);
    vstd::arithmetic::div_mod::lemma_mod_bound(p, w);
    assert(p / w < h) by (nonlinear_arith)
        requires
            w > 0,
            h > 0,
            0 <= p < w * h,
            p == w * (p / w) + p % w,
            0 <= p % w < w,
    ;
    assert(p / w >= 0) by (nonlinear_arith)
        requires
            w > 0,
            p >= 0,
            p == w * (p / w) + p % w,
            0 <= p % w < w,
    ;
    assert(w * (p / w) == (p / w) * w) by (nonlinear_arith);
}

/// Coordinates inside the grid give a linear index below `w * h`.
pub proof fn lemma_grid_index(w: int, h: int, x: int, y: int)
    requires
        w > 0,
        h > 0,
        0 <= x < w,
        0 <= y < h,
    ensures
        0 <= x + y * w < w * h,
        pos_x(w, x + y * w) == x,
        pos_y(w, x + y * w) == y,
{
    lemma_coords(w, x, y);
    assert(0 <= x + y * w < w * h) by (nonlinear_arith)
        requires
            w > 0,
            h > 0,
            0 <= x < w,
            0 <= y < h,
    ;
}

/// |x| over the mathematical integers.
pub open spec fn absi(x: int) -> int {
    if x < 0 {
        -x
    } else {
        x
    }
}

/// Manhattan distance between two linear positions of a grid of width `w`.
pub open spec fn manhattan(w: int, a: int, b: int) -> int {
    absi(a % w - b % w) + absi(a / w - b / w)
}

/// The Manhattan-distance heuristic of the informed search, in the same
/// integer unit as the step costs.
pub fn heuristic(a: MapPos, b: MapPos, width: usize) -> (r: isize)
    requires
        0 < width <= usize::MAX / 4,
        a <= usize::MAX / 4,
        b <= usize::MAX / 4,
    ensures
        r == manhattan(width as int, a as int, b as int),
        r >= 0,
{
    proof {
        assert(a / width <= a) by (nonlinear_arith)
            requires
                width >= 1,
                a >= 0,
        ;
        assert(b / width <= b) by (nonlinear_arith)
            requires
                width >= 1,
                b >= 0,
        ;
    }
    let a_x = (a % width) as isize;
    let a_y = (a / width) as isize;

    let b_x = (b % width) as isize;
    let b_y = (b / width) as isize;

    let dx = if a_x >= b_x {
        a_x - b_x
    } else {
        b_x - a_x
    };
    let dy = if a_y >= b_y {
        a_y - b_y
    } else {
        b_y - a_y
    };
    dx + dy
}

/// Row-major index of the cell one `(offset_x, offset_y)` step away from
/// `current`, as a signed number so that callers can reject steps that
/// leave the grid. The step is one cell at most in either axis.
pub fn offset_position(offset_x: isize, offset_y: isize, current: MapPos, width: usize) -> (r:
    isize)
    requires
        width > 0,
        width <= usize::MAX / 4,
        current <= usize::MAX / 4,
        -1 <= offset_x <= 1,
        -1 <= offset_y <= 1,
        (current / width + offset_y + 1) * width <= usize::MAX / 4,
    ensures
        r == (current % width + offset_x) + (current / width + offset_y) * (width as int),
{
    let c_x = (current % width) as isize;
    let c_y = (current / width) as isize;

    let n_x = c_x + offset_x;
    let n_y = c_y + offset_y;

    proof {
        assert(n_y * width <= (current / width + offset_y + 1) * width) by (nonlinear_arith)
            requires
                width > 0,
                n_y == current / width + offset_y,
        ;
        assert(n_y * width >= -1 * width) by (nonlinear_arith)
            requires
                width > 0,
                n_y >= -1,
        ;
    }
    n_x + (n_y * width as isize)
}

/// The generalized weighted search. Starting from `start`, it repeatedly
/// pops the frontier entry with the least priority (ties broken by the
/// lower position), skips entries made stale by a later improvement, and
/// relaxes the popped cell's 8 neighbors, until `end` is popped or the
/// frontier runs dry. With `use_heuristic` the priority adds the Manhattan
/// distance to `end`; otherwise it is the plain cumulative cost.
///
/// Returns the predecessor and best-cost maps, which satisfy
/// [`search_post`]; in particular every recorded chain walks back to
/// `start` with strictly decreasing recorded cost.
#[verifier::loop_isolation(false)]
#[verifier::rlimit(100)]
pub fn run_search(
    map: &MapData,
    start: MapPos,
    end: MapPos,
    wall_cost: usize,
    use_heuristic: bool,
) -> (r: (Vec<Option<MapPos>>, Vec<Option<usize>>))
    requires
        map.wf(),
        start < map.area(),
        end < map.area(),
        1 <= wall_cost,
        (wall_cost + 3) * (map.area() + 1) <= usize::MAX,
    ensures
        search_post(
            map.map_width as int,
            map.map_height as int,
            map.map@,
            wall_cost as int,
            start as int,
            r.0@,
            r.1@,
        ),
        r.1@[end as int] is Some,
        !use_heuristic ==> search_exact(
            map.map_width as int,
            map.map_height as int,
            map.map@,
            wall_cost as int,
            start as int,
            r.0@,
            r.1@,
        ),
{
    let w = map.map_width;
    let hgt = map.map_height;
    let n = map.map.len();
    proof {
        assert(w > 0 && hgt > 0) by (nonlinear_arith)
            requires
                n == w * hgt,
                n > 0,
        ;
        assert(wall_cost * n + wall_cost <= (wall_cost + 3) * (n + 1)) by (nonlinear_arith);
        assert(0 <= wall_cost * n) by (nonlinear_arith)
            requires
                wall_cost >= 1,
                n > 0,
        ;
        assert(w <= n && hgt <= n) by (nonlinear_arith)
            requires
                n == w * hgt,
                w >= 1,
                hgt >= 1,
        ;
        assert(4 * (n + 1) <= (wall_cost + 3) * (n + 1)) by (nonlinear_arith)
            requires
                wall_cost >= 1,
                n >= 0,
        ;
    }
    let ghost tiles = map.map@;
    let ghost wi = w as int;
    let ghost hi = hgt as int;
    let ghost wc = wall_cost as int;
    let ghost cap: int = wc * n + 1;

    let mut cf: Vec<Option<MapPos>> = none_vec(n);
    let mut cost: Vec<Option<usize>> = none_vec(n);
    let mut frontier: Vec<State> = Vec::new();

    cost.set(start, Some(0));
    frontier.push(State { priority: 0, cost: 0, pos: start });
    proof {
        assert(forall|p: int|
            0 <= p < n && #[trigger] cost@[p] is Some ==> cost@[p]->0 <= wc * count_some(cost@))
            by {
            assert(forall|p: int| 0 <= p < n && #[trigger] cost@[p] is Some ==> p == start);
            assert(count_some(cost@) >= 0);
            assert(0 <= wc * count_some(cost@)) by (nonlinear_arith)
                requires
                    wc >= 1,
                    count_some(cost@) >= 0,
            ;
        }
        assert forall|p: int| 0 <= p < n && #[trigger] cost@[p] is Some implies closed_or_queued(
            wi,
            hi,
            tiles,
            wc,
            frontier@,
            cost@,
            p,
        ) by {
            assert(p == start);
            assert((frontier@[0]).pos == p && frontier@[0].cost == cost@[p]->0);
        }
    }
    let ghost mut settled: Set<int> = Set::empty();
    let ghost mut exact_bound: int = 0;
    proof {
        assert(exact_mode(wi, hi, tiles, wc, start as int, cf@, cost@, frontier@, settled,
            exact_bound)) by {
            assert(forall|p: int| 0 <= p < n && #[trigger] cost@[p] is Some ==> p == start);
            assert((frontier@[0]).priority == 0 && frontier@[0].cost == 0);
        }
    }
    let mut done = false;

    while !done && frontier.len() != 0
        invariant
            cf@.len() == n,
            cost@.len() == n,
            search_post(wi, hi, tiles, wc, start as int, cf@, cost@),
            frontier_ok(n as int, cost@, frontier@),
            forall|p: int|
                0 <= p < n && #[trigger] cost@[p] is Some ==> cost@[p]->0 <= wc * count_some(
                    cost@,
                ),
            !done ==> forall|p: int|
                0 <= p < n && #[trigger] cost@[p] is Some ==> closed_or_queued(
                    wi,
                    hi,
                    tiles,
                    wc,
                    frontier@,
                    cost@,
                    p,
                ),
            done ==> cost@[end as int] is Some,
            !use_heuristic ==> exact_mode(
                wi,
                hi,
                tiles,
                wc,
                start as int,
                cf@,
                cost@,
                frontier@,
                settled,
                exact_bound,
            ),
        decreases frontier@.len() + potential(cost@, cap),
    {
        proof {
            lemma_potential_nonneg(cost@, cap);
        }
        let step = search_step(
            map,
            start,
            end,
            wall_cost,
            use_heuristic,
            &mut cf,
            &mut cost,
            &mut frontier,
            Ghost(settled),
            Ghost(exact_bound),
        );
        done = step.0;
        proof {
            settled = step.1@;
            exact_bound = step.2@;
            lemma_potential_nonneg(cost@, cap);
        }
    }
    proof {
        if !done {
            lemma_empty_frontier_complete(
                wi,
                hi,
                tiles,
                wc,
                frontier@,
                cost@,
                start as int,
                end as int,
            );
        }
    }
    (cf, cost)
}

/// One round of the search: pop the least frontier entry; stop if it is
/// the goal, skip it if stale, otherwise settle it and relax its
/// neighbors. Returns whether the goal was popped, together with the
/// updated ghost settling state.
#[verifier::loop_isolation(false)]
#[verifier::rlimit(100)]
fn search_step(
    map: &MapData,
    start: MapPos,
    end: MapPos,
    wall_cost: usize,
    use_heuristic: bool,
    cf: &mut Vec<Option<MapPos>>,
    cost: &mut Vec<Option<usize>>,
    frontier: &mut Vec<State>,
    Ghost(settled): Ghost<Set<int>>,
    Ghost(exact_bound): Ghost<int>,
) -> (r: (bool, Ghost<Set<int>>, Ghost<int>))
    requires
        map.wf(),
        start < map.area(),
        end < map.area(),
        1 <= wall_cost,
        (wall_cost + 3) * (map.area() + 1) <= usize::MAX,
        old(cf)@.len() == map.area(),
        old(cost)@.len() == map.area(),
        old(frontier)@.len() > 0,
        search_post(
            map.map_width as int,
            map.map_height as int,
            map.map@,
            wall_cost as int,
            start as int,
            old(cf)@,
            old(cost)@,
        ),
        frontier_ok(map.area(), old(cost)@, old(frontier)@),
        forall|p: int|
            0 <= p < map.area() && #[trigger] old(cost)@[p] is Some ==> old(cost)@[p]->0
                <= wall_cost * count_some(old(cost)@),
        forall|p: int|
            0 <= p < map.area() && #[trigger] old(cost)@[p] is Some ==> closed_or_queued(
                map.map_width as int,
                map.map_height as int,
                map.map@,
                wall_cost as int,
                old(frontier)@,
                old(cost)@,
                p,
            ),
        !use_heuristic ==> exact_mode(
            map.map_width as int,
            map.map_height as int,
            map.map@,
            wall_cost as int,
            start as int,
            old(cf)@,
            old(cost)@,
            old(frontier)@,
            settled,
            exact_bound,
        ),
    ensures
        final(cf)@.len() == map.area(),
        final(cost)@.len() == map.area(),
        search_post(
            map.map_width as int,
            map.map_height as int,
            map.map@,
            wall_cost as int,
            start as int,
            final(cf)@,
            final(cost)@,
        ),
        frontier_ok(map.area(), final(cost)@, final(frontier)@),
        forall|p: int|
            0 <= p < map.area() && #[trigger] final(cost)@[p] is Some ==> final(cost)@[p]->0
                <= wall_cost * count_some(final(cost)@),
        !r.0 ==> forall|p: int|
            0 <= p < map.area() && #[trigger] final(cost)@[p] is Some ==> closed_or_queued(
                map.map_width as int,
                map.map_height as int,
                map.map@,
                wall_cost as int,
                final(frontier)@,
                final(cost)@,
                p,
            ),
        r.0 ==> final(cost)@[end as int] is Some,
        !use_heuristic ==> exact_mode(
            map.map_width as int,
            map.map_height as int,
            map.map@,
            wall_cost as int,
            start as int,
            final(cf)@,
            final(cost)@,
            final(frontier)@,
            r.1@,
            r.2@,
        ),
        final(frontier)@.len() + potential(final(cost)@, wall_cost * map.area() + 1)
            < old(frontier)@.len() + potential(old(cost)@, wall_cost * map.area() + 1),
{
    let w = map.map_width;
    let hgt = map.map_height;
    let n = map.map.len();
    let ghost tiles = map.map@;
    let ghost wi = w as int;
    let ghost hi = hgt as int;
    let ghost wc = wall_cost as int;
    let ghost cap: int = wc * n + 1;
    let ghost mut settled2: Set<int> = settled;
    let ghost mut bound2: int = exact_bound;

    let ghost fr0 = frontier@;
    let cur = pop_best(frontier);
    let ghost best = choose|j: int|
        0 <= j < fr0.len() && cur == fr0[j] && frontier@ == fr0.update(j, fr0.last()).drop_last();
    let ghost fr1 = frontier@;

    let mut now_done = false;
    if cur.pos == end {
        now_done = true;
        proof {
            if !use_heuristic {
                lemma_exact_after_pop(wi, hi, tiles, wc, start as int, best, fr0, fr1, cf@,
                    cost@, settled2, bound2);
            }
        }
    } else {
        let g = match cost[cur.pos] {
            Some(c) => c,
            None => 0,  // unreachable: every frontier entry is recorded
        };
        if g == cur.cost {
            let ghost cost1 = cost@;
            proof {
                if !use_heuristic {
                    // Settle the popped cell: by minimality of the pop, no
                    // surviving entry — hence no future record — is
                    // cheaper, so its record is final.
                    lemma_settle_pop(wi, hi, tiles, wc, start as int, cur, best, fr0, fr1, cf@,
                        cost@, settled2, bound2);
                    settled2 = settled2.insert(cur.pos as int);
                    bound2 = cur.cost as int;
                }
            }
            expand_node(
                map,
                start,
                end,
                wall_cost,
                use_heuristic,
                cur.pos,
                g,
                cf,
                cost,
                frontier,
                Ghost(settled2),
                Ghost(bound2),
            );
            proof {
                lemma_cl_after_expand(
                    wi,
                    hi,
                    tiles,
                    wc,
                    cur.pos as int,
                    best,
                    fr0,
                    fr1,
                    frontier@,
                    cost1,
                    cost@,
                );
            }
        } else {
            proof {
                assert(cost@[cur.pos as int]->0 == g);
                lemma_cl_after_stale(wi, hi, tiles, wc, cur, best, fr0, fr1, cost@);
                if !use_heuristic {
                    lemma_exact_after_pop(wi, hi, tiles, wc, start as int, best, fr0, fr1, cf@,
                        cost@, settled2, bound2);
                }
            }
        }
    }
    (now_done, Ghost(settled2), Ghost(bound2))
}

/// Once the frontier runs dry, every recorded cell has had all of its
/// neighbors relaxed, so the records spread over the whole grid: in
/// particular the queried `end` cell is recorded.
proof fn lemma_empty_frontier_complete(
    wi: int,
    hi: int,
    tiles: Seq<Tile>,
    wc: int,
    fr: Seq<State>,
    cost: Seq<Option<usize>>,
    start: int,
    end: int,
)
    requires
        wi > 0,
        hi > 0,
        cost.len() == wi * hi,
        0 <= start < wi * hi,
        0 <= end < wi * hi,
        cost[start] is Some,
        fr.len() == 0,
        forall|p: int|
            0 <= p < wi * hi && #[trigger] cost[p] is Some ==> closed_or_queued(
                wi,
                hi,
                tiles,
                wc,
                fr,
                cost,
                p,
            ),
    ensures
        cost[end] is Some,
{
    let n = wi * hi;
    assert forall|p: int, d: int|
        0 <= p < n && cost[p] is Some && 0 <= d < 8 && step_ok(wi, hi, p, d) implies cost[
        #[trigger] step_to(wi, p, d)] is Some by {
        assert(closed_or_queued(wi, hi, tiles, wc, fr, cost, p));
        assert(relaxed_all(wi, hi, tiles, wc, cost, p));
    }
    lemma_closure_reaches(wi, hi, cost, start, end);
}

/// Remove and return the least frontier entry: ascending priority, ties
/// broken by the lower position, so identical runs pop in identical
/// order.
#[verifier::loop_isolation(false)]
fn pop_best(frontier: &mut Vec<State>) -> (cur: State)
    requires
        old(frontier)@.len() > 0,
    ensures
        exists|j: int|
            0 <= j < old(frontier)@.len() && cur == old(frontier)@[j] && final(frontier)@
                == old(frontier)@.update(j, old(frontier)@.last()).drop_last(),
        forall|k: int| 0 <= k < old(frontier)@.len() ==> state_le(cur, old(frontier)@[k]),
        final(frontier)@.len() == old(frontier)@.len() - 1,
{
    let mut best: usize = 0;
    let mut j: usize = 1;
    while j < frontier.len()
        invariant
            best < frontier@.len(),
            1 <= j <= frontier@.len(),
            forall|k: int| 0 <= k < j ==> state_le(frontier@[best as int], frontier@[k]),
        decreases frontier@.len() - j,
    {
        let a = frontier[j];
        let b = frontier[best];
        if a.priority < b.priority || (a.priority == b.priority && a.pos < b.pos) {
            best = j;
        }
        j = j + 1;
    }
    let ghost fr0 = frontier@;
    let cur = frontier.swap_remove(best);
    proof {
        assert(cur == fr0[best as int] && frontier@ == fr0.update(
            best as int,
            fr0.last(),
        ).drop_last());
    }
    cur
}

/// Neighbors of `p` that have all been relaxed against `p`'s recorded
/// cost: each is recorded, at a cost no worse than one step beyond `p`'s.
pub open spec fn relaxed_all(
    w: int,
    h: int,
    tiles: Seq<Tile>,
    wall_cost: int,
    cost: Seq<Option<usize>>,
    p: int,
) -> bool {
    forall|d: int|
        0 <= d < 8 && step_ok(w, h, p, d) ==> {
            &&& cost[#[trigger] step_to(w, p, d)] is Some
            &&& cost[step_to(w, p, d)]->0 <= cost[p]->0 + step_cost(tiles, wall_cost, step_to(w, p, d))
        }
}

/// Relax all 8 neighbors of the freshly popped cell `cur_pos`, whose
/// recorded cost is `g`: any neighbor the step from `cur_pos` improves is
/// re-recorded and pushed onto the frontier.
#[verifier::loop_isolation(false)]
#[verifier::rlimit(100)]
fn expand_node(
    map: &MapData,
    start: MapPos,
    end: MapPos,
    wall_cost: usize,
    use_heuristic: bool,
    cur_pos: MapPos,
    g: usize,
    cf: &mut Vec<Option<MapPos>>,
    cost: &mut Vec<Option<usize>>,
    frontier: &mut Vec<State>,
    Ghost(settled): Ghost<Set<int>>,
    Ghost(bound): Ghost<int>,
)
    requires
        map.wf(),
        start < map.area(),
        end < map.area(),
        1 <= wall_cost,
        (wall_cost + 3) * (map.area() + 1) <= usize::MAX,
        cur_pos < map.area(),
        old(cost)@[cur_pos as int] == Some(g),
        old(cf)@.len() == map.area(),
        old(cost)@.len() == map.area(),
        search_post(
            map.map_width as int,
            map.map_height as int,
            map.map@,
            wall_cost as int,
            start as int,
            old(cf)@,
            old(cost)@,
        ),
        frontier_ok(map.area(), old(cost)@, old(frontier)@),
        forall|p: int|
            0 <= p < map.area() && #[trigger] old(cost)@[p] is Some ==> old(cost)@[p]->0
                <= wall_cost * count_some(old(cost)@),
        !use_heuristic ==> {
            &&& settled.contains(cur_pos as int)
            &&& bound <= g
            &&& exact_mode(
                map.map_width as int,
                map.map_height as int,
                map.map@,
                wall_cost as int,
                start as int,
                old(cf)@,
                old(cost)@,
                old(frontier)@,
                settled,
                bound,
            )
        },
    ensures
        final(cf)@.len() == map.area(),
        final(cost)@.len() == map.area(),
        search_post(
            map.map_width as int,
            map.map_height as int,
            map.map@,
            wall_cost as int,
            start as int,
            final(cf)@,
            final(cost)@,
        ),
        frontier_ok(map.area(), final(cost)@, final(frontier)@),
        forall|p: int|
            0 <= p < map.area() && #[trigger] final(cost)@[p] is Some ==> final(cost)@[p]->0
                <= wall_cost * count_some(final(cost)@),
        final(cost)@[cur_pos as int] == Some(g),
        // Recorded cells stay recorded and only improve.
        forall|p: int|
            0 <= p < map.area() && #[trigger] old(cost)@[p] is Some ==> final(cost)@[p] is Some
                && final(cost)@[p]->0 <= old(cost)@[p]->0,
        // The frontier only grows, keeping every earlier entry in place.
        old(frontier)@.is_prefix_of(final(frontier)@),
        // Every re-recorded cell owns a fresh matching frontier entry.
        forall|p: int|
            0 <= p < map.area() && #[trigger] final(cost)@[p] != old(cost)@[p] ==> exists|j: int|
                0 <= j < final(frontier)@.len() && (#[trigger] final(frontier)@[j]).pos == p
                    && final(frontier)@[j].cost == final(cost)@[p]->0,
        !use_heuristic ==> exact_mode(
            map.map_width as int,
            map.map_height as int,
            map.map@,
            wall_cost as int,
            start as int,
            final(cf)@,
            final(cost)@,
            final(frontier)@,
            settled,
            bound,
        ),
        relaxed_all(
            map.map_width as int,
            map.map_height as int,
            map.map@,
            wall_cost as int,
            final(cost)@,
            cur_pos as int,
        ),
        // Work measure: each push pays for itself by lowering a record.
        final(frontier)@.len() + potential(final(cost)@, wall_cost * map.area() + 1)
            <= old(frontier)@.len() + potential(old(cost)@, wall_cost * map.area() + 1),
{
    let w = map.map_width;
    let hgt = map.map_height;
    let n = map.map.len();
    proof {
        assert(w > 0 && hgt > 0) by (nonlinear_arith)
            requires
                n == w * hgt,
                n > 0,
        ;
        assert(wall_cost * n + wall_cost <= (wall_cost + 3) * (n + 1)) by (nonlinear_arith);
        assert(w <= n && hgt <= n) by (nonlinear_arith)
            requires
                n == w * hgt,
                w >= 1,
                hgt >= 1,
        ;
        assert(4 * (n + 1) <= (wall_cost + 3) * (n + 1)) by (nonlinear_arith)
            requires
                wall_cost >= 1,
                n >= 0,
        ;
    }
    let ghost tiles = map.map@;
    let ghost wi = w as int;
    let ghost hi = hgt as int;
    let ghost wc = wall_cost as int;
    let ghost cap: int = wc * n + 1;
    let ghost cost_in = cost@;
    let ghost fr_in = frontier@;

    let cx = cur_pos % w;
    let cy = cur_pos / w;
    proof {
        lemma_pos_in_grid(wi, hi, cur_pos as int);
    }
    let mut d: usize = 0;
    while d < 8
        invariant
            cf@.len() == n,
            cost@.len() == n,
            d <= 8,
            cost@[cur_pos as int] == Some(g),
            search_post(wi, hi, tiles, wc, start as int, cf@, cost@),
            frontier_ok(n as int, cost@, frontier@),
            forall|p: int|
                0 <= p < n && #[trigger] cost@[p] is Some ==> cost@[p]->0 <= wc * count_some(
                    cost@,
                ),
            forall|p: int|
                0 <= p < n && #[trigger] cost_in[p] is Some ==> cost@[p] is Some && cost@[p]->0
                    <= cost_in[p]->0,
            fr_in.is_prefix_of(frontier@),
            forall|p: int|
                0 <= p < n && #[trigger] cost@[p] != cost_in[p] ==> exists|j: int|
                    0 <= j < frontier@.len() && (#[trigger] frontier@[j]).pos == p
                        && frontier@[j].cost == cost@[p]->0,
            forall|dd: int|
                0 <= dd < d && step_ok(wi, hi, cur_pos as int, dd) ==> {
                    &&& cost@[#[trigger] step_to(wi, cur_pos as int, dd)] is Some
                    &&& cost@[step_to(wi, cur_pos as int, dd)]->0 <= g + step_cost(
                        tiles,
                        wc,
                        step_to(wi, cur_pos as int, dd),
                    )
                },
            frontier@.len() + potential(cost@, cap) <= fr_in.len() + potential(cost_in, cap),
            !use_heuristic ==> exact_mode(
                wi,
                hi,
                tiles,
                wc,
                start as int,
                cf@,
                cost@,
                frontier@,
                settled,
                bound,
            ),
        decreases 8 - d,
    {
        let (ox, oy) = dir_delta(d);
        let nx = cx as isize + ox;
        let ny = cy as isize + oy;
        if 0 <= nx && nx < w as isize && ny >= 0 && ny < hgt as isize {
            proof {
                assert((ny as int) * wi + wi <= n) by (nonlinear_arith)
                    requires
                        0 <= ny as int,
                        (ny as int) < hi,
                        n == wi * hi,
                        wi > 0,
                ;
            }
            let q = (nx as usize) + (ny as usize) * w;
            proof {
                lemma_grid_index(wi, hi, nx as int, ny as int);
                assert(step_ok(wi, hi, cur_pos as int, d as int));
                assert(q == step_to(wi, cur_pos as int, d as int));
                assert(q < n);
            }
            let ghost cost_before = cost@;
            relax_edge(
                map,
                start,
                end,
                wall_cost,
                use_heuristic,
                cur_pos,
                g,
                q,
                Ghost(d as int),
                cf,
                cost,
                frontier,
                Ghost(cost_in),
                Ghost(fr_in),
                Ghost(settled),
                Ghost(bound),
            );
            proof {
                assert forall|dd: int|
                    0 <= dd < d + 1 && step_ok(wi, hi, cur_pos as int, dd) implies {
                    &&& cost@[#[trigger] step_to(wi, cur_pos as int, dd)] is Some
                    &&& cost@[step_to(wi, cur_pos as int, dd)]->0 <= g + step_cost(
                        tiles,
                        wc,
                        step_to(wi, cur_pos as int, dd),
                    )
                } by {
                    let s = step_to(wi, cur_pos as int, dd);
                    lemma_grid_index(
                        wi,
                        hi,
                        pos_x(wi, cur_pos as int) + dir_dx(dd),
                        pos_y(wi, cur_pos as int) + dir_dy(dd),
                    );
                    assert(0 <= s < n);
                    if dd < d {
                        assert(cost_before[s] is Some);
                        assert(cost_before[s]->0 <= g + step_cost(tiles, wc, s));
                        assert(cost@[s] is Some && cost@[s]->0 <= cost_before[s]->0);
                    } else {
                        assert(s == q);
                    }
                }
            }
        } else {
            proof {
                assert(!step_ok(wi, hi, cur_pos as int, d as int));
            }
        }
        d = d + 1;
    }
}

/// The frontier discipline: a recorded position either still owns a
/// frontier entry pushed with its current cost, or has already had all of
/// its neighbors relaxed against that cost.
pub open spec fn closed_or_queued(
    w: int,
    h: int,
    tiles: Seq<Tile>,
    wall_cost: int,
    fr: Seq<State>,
    cost: Seq<Option<usize>>,
    p: int,
) -> bool {
    ||| exists|j: int|
        0 <= j < fr.len() && (#[trigger] fr[j]).pos == p && fr[j].cost == cost[p]->0
    ||| relaxed_all(w, h, tiles, wall_cost, cost, p)
}

/// A matching frontier entry at an index other than the removed one
/// survives a `swap_remove`.
proof fn lemma_witness_after_swap_remove(fr: Seq<State>, best: int, p: int, c: usize)
    requires
        0 <= best < fr.len(),
        exists|j: int|
            0 <= j < fr.len() && j != best && (#[trigger] fr[j]).pos == p && fr[j].cost == c,
    ensures
        exists|j: int|
            0 <= j < fr.update(best, fr.last()).drop_last().len() && (#[trigger] fr.update(
                best,
                fr.last(),
            ).drop_last()[j]).pos == p && fr.update(best, fr.last()).drop_last()[j].cost == c,
{
    let fr2 = fr.update(best, fr.last()).drop_last();
    let j = choose|j: int|
        0 <= j < fr.len() && j != best && (#[trigger] fr[j]).pos == p && fr[j].cost == c;
    if j == fr.len() - 1 {
        assert(fr2[best] == fr[j]);
    } else {
        assert(fr2[j] == fr[j]);
    }
}

/// The direction index carrying a given unit offset.
pub open spec fn dir_index(dx: int, dy: int) -> int {
    if dx == -1 && dy == -1 {
        0
    } else if dx == -1 && dy == 0 {
        1
    } else if dx == -1 {
        2
    } else if dx == 0 && dy == -1 {
        3
    } else if dx == 0 && dy == 1 {
        4
    } else if dy == -1 {
        5
    } else if dy == 0 {
        6
    } else {
        7
    }
}

/// If every recorded cell has all of its neighbors recorded, then a record
/// anywhere spreads to every cell of the grid: walk one step at a time
/// toward the target, shrinking the coordinate distance.
proof fn lemma_closure_reaches(w: int, h: int, cost: Seq<Option<usize>>, from: int, to: int)
    requires
        w > 0,
        h > 0,
        cost.len() == w * h,
        0 <= from < w * h,
        0 <= to < w * h,
        cost[from] is Some,
        forall|p: int, d: int|
            0 <= p < w * h && cost[p] is Some && 0 <= d < 8 && step_ok(w, h, p, d) ==> cost[
                #[trigger] step_to(w, p, d)] is Some,
    ensures
        cost[to] is Some,
    decreases absi(pos_x(w, from) - pos_x(w, to)) + absi(pos_y(w, from) - pos_y(w, to)),
{
    lemma_pos_in_grid(w, h, from);
    lemma_pos_in_grid(w, h, to);
    let fx = pos_x(w, from);
    let fy = pos_y(w, from);
    let tx = pos_x(w, to);
    let ty = pos_y(w, to);
    if fx == tx && fy == ty {
        assert(from == to);
    } else {
        let dx: int = if tx > fx {
            1
        } else if tx < fx {
            -1
        } else {
            0
        };
        let dy: int = if ty > fy {
            1
        } else if ty < fy {
            -1
        } else {
            0
        };
        let d = dir_index(dx, dy);
        assert(0 <= d < 8 && dir_dx(d) == dx && dir_dy(d) == dy);
        assert(step_ok(w, h, from, d));
        let q = step_to(w, from, d);
        lemma_grid_index(w, h, fx + dx, fy + dy);
        assert(cost[q] is Some);
        lemma_closure_reaches(w, h, cost, q, to);
    }
}

/// After a fresh pop of `cur_pos` and the relaxation of all of its
/// neighbors, every recorded cell still obeys the frontier discipline.
proof fn lemma_cl_after_expand(
    wi: int,
    hi: int,
    tiles: Seq<Tile>,
    wc: int,
    cur_pos: int,
    best: int,
    fr0: Seq<State>,
    fr1: Seq<State>,
    fr2: Seq<State>,
    cost1: Seq<Option<usize>>,
    cost2: Seq<Option<usize>>,
)
    requires
        wi > 0,
        hi > 0,
        cost1.len() == wi * hi,
        cost2.len() == wi * hi,
        0 <= best < fr0.len(),
        fr1 == fr0.update(best, fr0.last()).drop_last(),
        fr0[best].pos == cur_pos,
        0 <= cur_pos < wi * hi,
        forall|p: int|
            0 <= p < wi * hi && #[trigger] cost1[p] is Some ==> closed_or_queued(
                wi,
                hi,
                tiles,
                wc,
                fr0,
                cost1,
                p,
            ),
        fr1.is_prefix_of(fr2),
        forall|p: int|
            0 <= p < wi * hi && #[trigger] cost1[p] is Some ==> cost2[p] is Some && cost2[p]->0
                <= cost1[p]->0,
        forall|p: int|
            0 <= p < wi * hi && #[trigger] cost2[p] != cost1[p] ==> exists|j: int|
                0 <= j < fr2.len() && (#[trigger] fr2[j]).pos == p && fr2[j].cost == cost2[p]->0,
        relaxed_all(wi, hi, tiles, wc, cost2, cur_pos),
    ensures
        forall|p: int|
            0 <= p < wi * hi && #[trigger] cost2[p] is Some ==> closed_or_queued(
                wi,
                hi,
                tiles,
                wc,
                fr2,
                cost2,
                p,
            ),
{
    let n = wi * hi;
    assert forall|p: int| 0 <= p < n && #[trigger] cost2[p] is Some implies closed_or_queued(
        wi,
        hi,
        tiles,
        wc,
        fr2,
        cost2,
        p,
    ) by {
        if p == cur_pos {
            assert(relaxed_all(wi, hi, tiles, wc, cost2, p));
        } else if cost2[p] != cost1[p] {
            assert(exists|j: int|
                0 <= j < fr2.len() && (#[trigger] fr2[j]).pos == p
                    && fr2[j].cost == cost2[p]->0);
        } else {
            assert(cost1[p] is Some);
            assert(closed_or_queued(wi, hi, tiles, wc, fr0, cost1, p));
            if exists|j: int|
                0 <= j < fr0.len() && (#[trigger] fr0[j]).pos == p && fr0[j].cost == cost1[p]->0 {
                let c = cost1[p]->0;
                assert(exists|j: int|
                    0 <= j < fr0.len() && j != best && (#[trigger] fr0[j]).pos == p && fr0[j].cost
                        == c) by {
                    let j = choose|j: int|
                        0 <= j < fr0.len() && (#[trigger] fr0[j]).pos == p && fr0[j].cost == c;
                    assert(j != best);
                }
                lemma_witness_after_swap_remove(fr0, best, p, c);
                let j2 = choose|j: int|
                    0 <= j < fr1.len() && (#[trigger] fr1[j]).pos == p && fr1[j].cost == c;
                assert(fr2[j2] == fr1[j2]);
                assert((fr2[j2]).pos == p && fr2[j2].cost == cost2[p]->0);
            } else {
                assert(relaxed_all(wi, hi, tiles, wc, cost1, p));
                assert forall|d: int| 0 <= d < 8 && step_ok(wi, hi, p, d) implies {
                    &&& cost2[#[trigger] step_to(wi, p, d)] is Some
                    &&& cost2[step_to(wi, p, d)]->0 <= cost2[p]->0 + step_cost(
                        tiles,
                        wc,
                        step_to(wi, p, d),
                    )
                } by {
                    lemma_pos_in_grid(wi, hi, p);
                    lemma_grid_index(wi, hi, pos_x(wi, p) + dir_dx(d), pos_y(wi, p) + dir_dy(d));
                    let s = step_to(wi, p, d);
                    assert(0 <= s < n);
                    assert(cost1[s] is Some);
                    assert(cost2[s] is Some && cost2[s]->0 <= cost1[s]->0);
                }
                assert(relaxed_all(wi, hi, tiles, wc, cost2, p));
            }
        }
    }
}

/// Skipping a stale entry keeps the frontier discipline: the consumed
/// entry carried an outdated cost, so it never was any cell's witness.
proof fn lemma_cl_after_stale(
    wi: int,
    hi: int,
    tiles: Seq<Tile>,
    wc: int,
    cur: State,
    best: int,
    fr0: Seq<State>,
    fr1: Seq<State>,
    cost: Seq<Option<usize>>,
)
    requires
        wi > 0,
        hi > 0,
        cost.len() == wi * hi,
        0 <= best < fr0.len(),
        fr1 == fr0.update(best, fr0.last()).drop_last(),
        fr0[best] == cur,
        0 <= cur.pos < wi * hi,
        cost[cur.pos as int] is Some,
        cost[cur.pos as int]->0 != cur.cost,
        forall|p: int|
            0 <= p < wi * hi && #[trigger] cost[p] is Some ==> closed_or_queued(
                wi,
                hi,
                tiles,
                wc,
                fr0,
                cost,
                p,
            ),
    ensures
        forall|p: int|
            0 <= p < wi * hi && #[trigger] cost[p] is Some ==> closed_or_queued(
                wi,
                hi,
                tiles,
                wc,
                fr1,
                cost,
                p,
            ),
{
    let n = wi * hi;
    assert forall|p: int| 0 <= p < n && #[trigger] cost[p] is Some implies closed_or_queued(
        wi,
        hi,
        tiles,
        wc,
        fr1,
        cost,
        p,
    ) by {
        assert(closed_or_queued(wi, hi, tiles, wc, fr0, cost, p));
        if exists|j: int|
            0 <= j < fr0.len() && (#[trigger] fr0[j]).pos == p && fr0[j].cost == cost[p]->0 {
            let c = cost[p]->0;
            assert(exists|j: int|
                0 <= j < fr0.len() && j != best && (#[trigger] fr0[j]).pos == p && fr0[j].cost
                    == c) by {
                let j = choose|j: int|
                    0 <= j < fr0.len() && (#[trigger] fr0[j]).pos == p && fr0[j].cost == c;
                if p == cur.pos as int {
                    assert(fr0[best].cost == cur.cost);
                    assert(j != best);
                } else {
                    assert(fr0[best].pos == cur.pos && cur.pos != p);
                    assert(j != best);
                }
            }
            lemma_witness_after_swap_remove(fr0, best, p, c);
        }
    }
}

/// Popping any entry keeps the exact-mode discipline: the surviving
/// entries are a subset of the old ones and nothing else changes.
proof fn lemma_exact_after_pop(
    wi: int,
    hi: int,
    tiles: Seq<Tile>,
    wc: int,
    start: int,
    best: int,
    fr0: Seq<State>,
    fr1: Seq<State>,
    cf: Seq<Option<MapPos>>,
    cost: Seq<Option<usize>>,
    settled: Set<int>,
    bound: int,
)
    requires
        0 <= best < fr0.len(),
        fr1 == fr0.update(best, fr0.last()).drop_last(),
        exact_mode(wi, hi, tiles, wc, start, cf, cost, fr0, settled, bound),
    ensures
        exact_mode(wi, hi, tiles, wc, start, cf, cost, fr1, settled, bound),
{
    assert forall|j: int| 0 <= j < fr1.len() implies (#[trigger] fr1[j]).priority == fr1[j].cost
        && fr1[j].cost >= bound by {
        if j == best {
            assert(fr1[j] == fr0[fr0.len() - 1]);
        } else {
            assert(fr1[j] == fr0[j]);
        }
    }
}

/// Settling a freshly popped least entry keeps the exact-mode
/// discipline with the settled set grown by its cell and the bound
/// raised to its cost: by minimality of the pop, no surviving entry is
/// cheaper.
proof fn lemma_settle_pop(
    wi: int,
    hi: int,
    tiles: Seq<Tile>,
    wc: int,
    start: int,
    cur: State,
    best: int,
    fr0: Seq<State>,
    fr1: Seq<State>,
    cf: Seq<Option<MapPos>>,
    cost: Seq<Option<usize>>,
    settled: Set<int>,
    bound: int,
)
    requires
        wi > 0,
        hi > 0,
        cost.len() == wi * hi,
        0 <= best < fr0.len(),
        fr1 == fr0.update(best, fr0.last()).drop_last(),
        cur == fr0[best],
        cur.pos < wi * hi,
        cost[cur.pos as int] == Some(cur.cost),
        exact_mode(wi, hi, tiles, wc, start, cf, cost, fr0, settled, bound),
        forall|k: int| 0 <= k < fr0.len() ==> state_le(cur, fr0[k]),
    ensures
        exact_mode(
            wi,
            hi,
            tiles,
            wc,
            start,
            cf,
            cost,
            fr1,
            settled.insert(cur.pos as int),
            cur.cost as int,
        ),
{
    let settled2 = settled.insert(cur.pos as int);
    let bound2 = cur.cost as int;
    assert(bound2 >= bound) by {
        assert(fr0[best].cost >= bound);
    }
    assert forall|j: int| 0 <= j < fr1.len() implies (#[trigger] fr1[j]).priority == fr1[j].cost
        && fr1[j].cost >= bound2 by {
        if j == best {
            assert(fr1[j] == fr0[fr0.len() - 1]);
            assert(state_le(cur, fr0[fr0.len() - 1]));
        } else {
            assert(fr1[j] == fr0[j]);
            assert(state_le(cur, fr0[j]));
        }
    }
    assert forall|s: int| #[trigger] settled2.contains(s) implies 0 <= s < wi * hi
        && cost[s] is Some && cost[s]->0 <= bound2 by {
        if s != cur.pos as int {
            assert(settled.contains(s));
        }
    }
    assert forall|p: int|
        0 <= p < wi * hi && p != start && #[trigger] cost[p] is Some implies settled2.contains(
        cf[p]->0 as int,
    ) by {
        assert(settled.contains(cf[p]->0 as int));
    }
}

/// Relax the single edge from the popped cell `cur_pos` (recorded at cost
/// `g`) to its neighbor `q`: if stepping there improves on `q`'s record,
/// re-record it and push a fresh frontier entry for it.
#[verifier::loop_isolation(false)]
#[verifier::rlimit(100)]
fn relax_edge(
    map: &MapData,
    start: MapPos,
    end: MapPos,
    wall_cost: usize,
    use_heuristic: bool,
    cur_pos: MapPos,
    g: usize,
    q: MapPos,
    Ghost(d): Ghost<int>,
    cf: &mut Vec<Option<MapPos>>,
    cost: &mut Vec<Option<usize>>,
    frontier: &mut Vec<State>,
    Ghost(cost_in): Ghost<Seq<Option<usize>>>,
    Ghost(fr_in): Ghost<Seq<State>>,
    Ghost(settled): Ghost<Set<int>>,
    Ghost(bound): Ghost<int>,
)
    requires
        map.wf(),
        start < map.area(),
        end < map.area(),
        1 <= wall_cost,
        (wall_cost + 3) * (map.area() + 1) <= usize::MAX,
        cur_pos < map.area(),
        q < map.area(),
        0 <= d < 8,
        step_ok(map.map_width as int, map.map_height as int, cur_pos as int, d),
        q == step_to(map.map_width as int, cur_pos as int, d),
        old(cost)@[cur_pos as int] == Some(g),
        old(cf)@.len() == map.area(),
        old(cost)@.len() == map.area(),
        search_post(
            map.map_width as int,
            map.map_height as int,
            map.map@,
            wall_cost as int,
            start as int,
            old(cf)@,
            old(cost)@,
        ),
        frontier_ok(map.area(), old(cost)@, old(frontier)@),
        forall|p: int|
            0 <= p < map.area() && #[trigger] old(cost)@[p] is Some ==> old(cost)@[p]->0
                <= wall_cost * count_some(old(cost)@),
        forall|p: int|
            0 <= p < map.area() && #[trigger] cost_in[p] is Some ==> old(cost)@[p] is Some
                && old(cost)@[p]->0 <= cost_in[p]->0,
        cost_in.len() == map.area(),
        fr_in.is_prefix_of(old(frontier)@),
        forall|p: int|
            0 <= p < map.area() && #[trigger] old(cost)@[p] != cost_in[p] ==> exists|j: int|
                0 <= j < old(frontier)@.len() && (#[trigger] old(frontier)@[j]).pos == p
                    && old(frontier)@[j].cost == old(cost)@[p]->0,
        old(frontier)@.len() + potential(old(cost)@, wall_cost * map.area() + 1) <= fr_in.len()
            + potential(cost_in, wall_cost * map.area() + 1),
        !use_heuristic ==> {
            &&& settled.contains(cur_pos as int)
            &&& bound <= g
            &&& exact_mode(
                map.map_width as int,
                map.map_height as int,
                map.map@,
                wall_cost as int,
                start as int,
                old(cf)@,
                old(cost)@,
                old(frontier)@,
                settled,
                bound,
            )
        },
    ensures
        final(cf)@.len() == map.area(),
        final(cost)@.len() == map.area(),
        final(cost)@[cur_pos as int] == Some(g),
        search_post(
            map.map_width as int,
            map.map_height as int,
            map.map@,
            wall_cost as int,
            start as int,
            final(cf)@,
            final(cost)@,
        ),
        frontier_ok(map.area(), final(cost)@, final(frontier)@),
        forall|p: int|
            0 <= p < map.area() && #[trigger] final(cost)@[p] is Some ==> final(cost)@[p]->0
                <= wall_cost * count_some(final(cost)@),
        forall|p: int|
            0 <= p < map.area() && #[trigger] cost_in[p] is Some ==> final(cost)@[p] is Some
                && final(cost)@[p]->0 <= cost_in[p]->0,
        forall|p: int|
            0 <= p < map.area() && #[trigger] old(cost)@[p] is Some ==> final(cost)@[p] is Some
                && final(cost)@[p]->0 <= old(cost)@[p]->0,
        fr_in.is_prefix_of(final(frontier)@),
        forall|p: int|
            0 <= p < map.area() && #[trigger] final(cost)@[p] != cost_in[p] ==> exists|j: int|
                0 <= j < final(frontier)@.len() && (#[trigger] final(frontier)@[j]).pos == p
                    && final(frontier)@[j].cost == final(cost)@[p]->0,
        final(frontier)@.len() + potential(final(cost)@, wall_cost * map.area() + 1)
            <= fr_in.len() + potential(cost_in, wall_cost * map.area() + 1),
        !use_heuristic ==> exact_mode(
            map.map_width as int,
            map.map_height as int,
            map.map@,
            wall_cost as int,
            start as int,
            final(cf)@,
            final(cost)@,
            final(frontier)@,
            settled,
            bound,
        ),
        // The relaxed neighbor is recorded within one step of `g`.
        final(cost)@[q as int] is Some,
        final(cost)@[q as int]->0 <= g + step_cost(
            map.map@,
            wall_cost as int,
            q as int,
        ),
{
    let w = map.map_width;
    let hgt = map.map_height;
    let n = map.map.len();
    proof {
        assert(w > 0 && hgt > 0) by (nonlinear_arith)
            requires
                n == w * hgt,
                n > 0,
        ;
        assert(wall_cost * n + wall_cost <= (wall_cost + 3) * (n + 1)) by (nonlinear_arith);
        assert(w <= n && hgt <= n) by (nonlinear_arith)
            requires
                n == w * hgt,
                w >= 1,
                hgt >= 1,
        ;
        assert(4 * (n + 1) <= (wall_cost + 3) * (n + 1)) by (nonlinear_arith)
            requires
                wall_cost >= 1,
                n >= 0,
        ;
    }
    let ghost tiles = map.map@;
    let ghost wi = w as int;
    let ghost hi = hgt as int;
    let ghost wc = wall_cost as int;
    let ghost cap: int = wc * n + 1;

    let tile_cost = if map.map[q] == Tile::Wall {
        wall_cost
    } else {
        1
    };
    proof {
        lemma_count_some_le_len(cost@);
        assert(wc * count_some(cost@) <= wc * n) by (nonlinear_arith)
            requires
                wc >= 1,
                count_some(cost@) <= n,
        ;
    }
    let new_cost = g + tile_cost;
    let improves = match cost[q] {
        Some(c) => new_cost < c,
        None => true,
    };
    if improves {
        let ghost cost0 = cost@;
        let ghost cf0 = cf@;
        let ghost cnt0 = count_some(cost@);
        cost.set(q, Some(new_cost));
        cf.set(q, Some(cur_pos));
        proof {
            lemma_count_some_update(cost0, q as int, new_cost);
            lemma_potential_update(cost0, cap, q as int, new_cost);
            if cost0[q as int] is None {
                lemma_count_some_missing(cost0, q as int);
                assert(wc * cnt0 <= wc * (n - 1)) by (nonlinear_arith)
                    requires
                        wc >= 1,
                        cnt0 <= n - 1,
                ;
            }
            assert(wc * cnt0 <= wc * count_some(cost@)) by (nonlinear_arith)
                requires
                    wc >= 1,
                    cnt0 <= count_some(cost@),
            ;
            // The improved or newly recorded cell keeps the global cost
            // bound.
            assert(new_cost <= wc * count_some(cost@)) by {
                if cost0[q as int] is None {
                    assert(count_some(cost@) == cnt0 + 1);
                    assert(new_cost <= wc * cnt0 + wc);
                    assert(wc * cnt0 + wc == wc * (cnt0 + 1)) by (nonlinear_arith);
                }
            }
            // Each push pays for itself: the potential drops by at least 1.
            if cost0[q as int] is None {
                assert(wc * (n - 1) + wc == wc * n) by (nonlinear_arith);
                assert(new_cost <= wc * n);
                assert(potential(cost@, cap) <= potential(cost0, cap) - 1);
            } else {
                assert(potential(cost@, cap) <= potential(cost0, cap) - 1);
            }
            // The search relation survives the update.
            assert(search_post(wi, hi, tiles, wc, start as int, cf@, cost@)) by {
                assert(q != start);
                assert(cost@[q as int]->0 >= cost@[cur_pos as int]->0 + step_cost(
                    tiles,
                    wc,
                    q as int,
                ));
            }
        }
        let pr = if use_heuristic {
            proof {
                lemma_pos_in_grid(wi, hi, end as int);
                lemma_pos_in_grid(wi, hi, q as int);
                lemma_count_some_le_len(cost@);
                assert(wc * count_some(cost@) <= wc * n) by (nonlinear_arith)
                    requires
                        wc >= 1,
                        count_some(cost@) <= n,
                ;
                assert(wall_cost * n + (w + hgt) <= (wall_cost + 3) * (n + 1))
                    by (nonlinear_arith)
                    requires
                        w <= n,
                        hgt <= n,
                        wall_cost >= 1,
                        n >= 1,
                ;
            }
            let hv = heuristic(end, q, w);
            new_cost + (hv as usize)
        } else {
            new_cost
        };
        frontier.push(State { priority: pr, cost: new_cost, pos: q });
        proof {
            let frn = frontier@;
            assert(frn[frn.len() - 1].pos == q && frn[frn.len() - 1].cost == new_cost);
            // Cells re-recorded earlier keep their matching entries.
            assert forall|p: int|
                0 <= p < n && #[trigger] cost@[p] != cost_in[p] implies exists|j: int|
                0 <= j < frn.len() && (#[trigger] frn[j]).pos == p && frn[j].cost
                    == cost@[p]->0 by {
                if p == q {
                    assert(frn[frn.len() - 1].pos == p);
                } else {
                    assert(cost@[p] == cost0[p]);
                    assert(cost0[p] != cost_in[p]);
                    let j = choose|j: int|
                        0 <= j < old(frontier)@.len() && (#[trigger] old(frontier)@[j]).pos == p
                            && old(frontier)@[j].cost == cost0[p]->0;
                    assert(frn[j] == old(frontier)@[j]);
                    assert(frn[j].pos == p && frn[j].cost == cost@[p]->0);
                }
            }
            // In exact mode, the update respects the settling discipline.
            if !use_heuristic {
                assert(!settled.contains(q as int)) by {
                    if settled.contains(q as int) {
                        assert(cost0[q as int] is Some && cost0[q as int]->0 <= bound);
                        assert(new_cost > bound);
                    }
                }
                assert forall|s: int| #[trigger] settled.contains(s) implies 0 <= s < n
                    && cost@[s] is Some && cost@[s]->0 <= bound by {
                    assert(s != q);
                    assert(cost@[s] == cost0[s]);
                }
                assert forall|p: int|
                    0 <= p < n && p != start as int && #[trigger] cost@[p] is Some implies
                    settled.contains(cf@[p]->0 as int) && cost@[p]->0 == cost@[
                    cf@[p]->0 as int]->0 + step_cost(tiles, wc, p) by {
                    if p == q as int {
                        assert(cf@[p]->0 == cur_pos);
                        assert(cost@[cur_pos as int] == Some(g));
                    } else {
                        assert(cost@[p] == cost0[p] && cf@[p] == cf0[p]);
                        assert(settled.contains(cf0[p]->0 as int));
                        assert(cf0[p]->0 != q);
                        assert(cost@[cf0[p]->0 as int] == cost0[cf0[p]->0 as int]);
                    }
                }
                assert forall|j: int| 0 <= j < frn.len() implies (#[trigger] frn[j]).priority
                    == frn[j].cost && frn[j].cost >= bound by {
                    if j < frn.len() - 1 {
                        assert(frn[j] == old(frontier)@[j]);
                    } else {
                        assert(frn[j].priority == pr && frn[j].cost == new_cost);
                        assert(pr == new_cost);
                        assert(new_cost >= bound + 1);
                    }
                }
            }
        }
    }
}

/// A walk across the grid that starts at `start`, ends at `p`, moves
/// between 8-neighbors, and touches only floor tiles after its first
/// cell.
pub open spec fn is_floor_walk(
    w: int,
    h: int,
    tiles: Seq<Tile>,
    s: Seq<int>,
    start: int,
    p: int,
) -> bool {
    &&& s.len() >= 1
    &&& s[0] == start
    &&& s.last() == p
    &&& forall|i: int| 0 <= i < s.len() ==> 0 <= #[trigger] s[i] < w * h
    &&& forall|i: int| 0 <= i < s.len() - 1 ==> adjacent(w, h, #[trigger] s[i], s[i + 1])
    &&& forall|i: int| 1 <= i < s.len() ==> tiles[#[trigger] s[i]] == Tile::Floor
}

/// `p` can be reached from `start` across floor tiles. This is what the
/// breadth-first floods explore: a cell sealed off from the start by
/// walls — a closed ring with no floor gap — is not floor-reachable.
pub open spec fn floor_reachable(w: int, h: int, tiles: Seq<Tile>, start: int, p: int) -> bool {
    exists|s: Seq<int>| is_floor_walk(w, h, tiles, s, start, p)
}

/// Every in-bounds cell is floor-reachable from itself by the empty walk.
pub proof fn lemma_floor_reachable_refl(w: int, h: int, tiles: Seq<Tile>, start: int)
    requires
        0 <= start < w * h,
    ensures
        floor_reachable(w, h, tiles, start, start),
{
    let s = seq![start];
    assert(is_floor_walk(w, h, tiles, s, start, start));
}

/// Floor-reachability extends across one step onto an adjacent floor
/// cell.
pub proof fn lemma_floor_reachable_step(
    w: int,
    h: int,
    tiles: Seq<Tile>,
    start: int,
    p: int,
    q: int,
)
    requires
        floor_reachable(w, h, tiles, start, p),
        adjacent(w, h, p, q),
        0 <= q < w * h,
        tiles[q] == Tile::Floor,
    ensures
        floor_reachable(w, h, tiles, start, q),
{
    let s = choose|s: Seq<int>| is_floor_walk(w, h, tiles, s, start, p);
    let s2 = s.push(q);
    assert(s2.last() == q);
    assert(s2[0] == s[0]);
    assert forall|i: int| 0 <= i < s2.len() - 1 implies adjacent(w, h, #[trigger] s2[i], s2[i + 1]) by {
        if i < s.len() - 1 {
            assert(s2[i] == s[i] && s2[i + 1] == s[i + 1]);
        } else {
            assert(s2[i] == s.last() && s2[i + 1] == q);
        }
    }
    assert(is_floor_walk(w, h, tiles, s2, start, q));
}

/// Pigeonhole bound: a duplicate-free sequence of values drawn from
/// `[0, n)` has at most `n` entries.
pub proof fn lemma_distinct_in_range(s: Seq<int>, n: int)
    requires
        s.no_duplicates(),
        forall|i: int| 0 <= i < s.len() ==> 0 <= #[trigger] s[i] < n,
        n >= 0,
    ensures
        s.len() <= n,
{
    s.unique_seq_to_set();
    let rng = vstd::set_lib::set_int_range(0, n);
    vstd::set_lib::lemma_int_range(0, n);
    assert(s.to_set().subset_of(rng)) by {
        assert forall|x: int| s.to_set().contains(x) implies rng.contains(x) by {
            let i = choose|i: int| 0 <= i < s.len() && s[i] == x;
            assert(0 <= s[i] < n);
        }
    }
    vstd::set_lib::lemma_len_subset(s.to_set(), rng);
}

/// Unit-step law: a walk that only touches floor cells costs exactly one
/// per hop, so its summed step cost is its length minus one. In
/// particular, on an all-floor grid the cost of any returned walk equals
/// its cell count minus one, whatever the wall penalty.
pub proof fn lemma_floor_walk_cost(tiles: Seq<Tile>, wall_cost: int, p: Seq<MapPos>)
    requires
        p.len() >= 1,
        forall|i: int| 0 <= i < p.len() ==> #[trigger] p[i] < tiles.len(),
        forall|i: int| 0 <= i < p.len() ==> tiles[#[trigger] p[i] as int] == Tile::Floor,
    ensures
        path_cost(tiles, wall_cost, p) == p.len() - 1,
    decreases p.len(),
{
    if p.len() > 1 {
        let q = p.drop_first();
        assert(forall|i: int| 0 <= i < q.len() ==> #[trigger] q[i] == p[i + 1]);
        lemma_floor_walk_cost(tiles, wall_cost, q);
        assert(step_cost(tiles, wall_cost, p[0] as int) == 1);
    }
}

/// One hop moves at most one cell per axis, so a connected walk spans at
/// most its hop count in either coordinate.
pub proof fn lemma_path_span(w: int, h: int, p: Seq<MapPos>, start: int, end: int)
    requires
        w > 0,
        h > 0,
        path_connects(w, h, p, start, end),
    ensures
        absi(pos_x(w, end) - pos_x(w, start)) <= p.len() - 1,
        absi(pos_y(w, end) - pos_y(w, start)) <= p.len() - 1,
    decreases p.len(),
{
    if p.len() == 1 {
        assert(start == end);
    } else {
        let q = p.drop_first();
        assert(forall|i: int| 0 <= i < q.len() ==> #[trigger] q[i] == p[i + 1]);
        assert(path_connects(w, h, q, start, p[1] as int));
        lemma_path_span(w, h, q, start, p[1] as int);
        let d = choose|d: int|
            0 <= d < 8 && step_ok(w, h, p[1] as int, d) && p[0] == #[trigger] step_to(
                w,
                p[1] as int,
                d,
            );
        lemma_pos_in_grid(w, h, p[1] as int);
        lemma_grid_index(w, h, pos_x(w, p[1] as int) + dir_dx(d), pos_y(w, p[1] as int) + dir_dy(d));
    }
}

/// Distance law for all-floor walks: with every cell floor, a returned
/// walk costs one per hop, so its cost is no less than the larger
/// coordinate span of its endpoints — the 8-connected distance.
pub proof fn lemma_floor_cost_at_least_span(
    w: int,
    h: int,
    tiles: Seq<Tile>,
    wall_cost: int,
    p: Seq<MapPos>,
    start: int,
    end: int,
)
    requires
        w > 0,
        h > 0,
        tiles.len() == w * h,
        path_connects(w, h, p, start, end),
        forall|i: int| 0 <= i < tiles.len() ==> #[trigger] tiles[i] == Tile::Floor,
    ensures
        path_cost(tiles, wall_cost, p) == p.len() - 1,
        path_cost(tiles, wall_cost, p) >= absi(pos_x(w, end) - pos_x(w, start)),
        path_cost(tiles, wall_cost, p) >= absi(pos_y(w, end) - pos_y(w, start)),
{
    lemma_floor_walk_cost(tiles, wall_cost, p);
    lemma_path_span(w, h, p, start, end);
}

/// Row-major linear index of a 2D coordinate pair.
pub open spec fn coord_lin(c: (isize, isize), w: int) -> int {
    c.0 + c.1 * w
}

/// The coordinate pair addresses a cell of a `w` by `h` grid.
pub open spec fn coord_in(c: (isize, isize), w: int, h: int) -> bool {
    0 <= c.0 < w && 0 <= c.1 < h
}

/// Linear membership test on a list of coordinate pairs.
pub fn coords_contain(v: &Vec<(isize, isize)>, x: isize, y: isize) -> (r: bool)
    ensures
        r == exists|i: int| 0 <= i < v@.len() && #[trigger] v@[i] == (x, y),
{
    let mut idx: usize = 0;
    while idx < v.len()
        invariant
            idx <= v@.len(),
            forall|i: int| 0 <= i < idx ==> #[trigger] v@[i] != (x, y),
        decreases v@.len() - idx,
    {
        let c = v[idx];
        if c.0 == x && c.1 == y {
            proof {
                assert(v@[idx as int] == (x, y));
            }
            return true;
        }
        idx = idx + 1;
    }
    false
}

/// An element-for-element copy of a list of coordinate pairs.
pub fn copy_coords(v: &Vec<(isize, isize)>) -> (r: Vec<(isize, isize)>)
    ensures
        r@ == v@,
{
    let mut r: Vec<(isize, isize)> = Vec::new();
    let mut idx: usize = 0;
    while idx < v.len()
        invariant
            idx <= v@.len(),
            r@ == v@.subrange(0, idx as int),
        decreases v@.len() - idx,
    {
        r.push(v[idx]);
        proof {
            assert(r@ =~= v@.subrange(0, idx + 1));
        }
        idx = idx + 1;
    }
    proof {
        assert(r@ =~= v@);
    }
    r
}

/// `p` is the backward pointer chain of the predecessor map `cf`: it
/// starts at `end`, follows `cf` one hop at a time, and stops the first
/// time it stands on `start`.
pub open spec fn is_chain_of(cf: Seq<Option<MapPos>>, p: Seq<MapPos>, start: int, end: int) -> bool {
    &&& p.len() >= 1
    &&& p[0] == end
    &&& p.last() == start
    &&& forall|i: int|
        0 <= i < p.len() - 1 ==> {
            &&& #[trigger] p[i] < cf.len()
            &&& p[i] != start
            &&& cf[p[i] as int] is Some
            &&& p[i + 1] == cf[p[i] as int]->0
        }
}

/// Determinism of reconstruction: a predecessor map admits at most one
/// backward chain between a given pair of cells, so re-tracing the same
/// map always yields the same walk.
pub proof fn lemma_chain_unique(
    cf: Seq<Option<MapPos>>,
    p1: Seq<MapPos>,
    p2: Seq<MapPos>,
    start: int,
    end: int,
)
    requires
        is_chain_of(cf, p1, start, end),
        is_chain_of(cf, p2, start, end),
    ensures
        p1 == p2,
    decreases p1.len(),
{
    if p1.len() == 1 {
        assert(end == start);
        if p2.len() > 1 {
            assert(p2[0] != start);
        }
        assert(p1 =~= p2);
    } else {
        assert(p1[0] != start);
        assert(p2.len() > 1) by {
            if p2.len() == 1 {
                assert(end == start);
            }
        }
        let q1 = p1.drop_first();
        let q2 = p2.drop_first();
        assert(forall|i: int| 0 <= i < q1.len() ==> #[trigger] q1[i] == p1[i + 1]);
        assert(forall|i: int| 0 <= i < q2.len() ==> #[trigger] q2[i] == p2[i + 1]);
        let next = cf[end as int]->0 as int;
        assert(is_chain_of(cf, q1, start, next));
        assert(is_chain_of(cf, q2, start, next));
        lemma_chain_unique(cf, q1, q2, start, next);
        assert forall|i: int| 0 <= i < p1.len() implies p1[i] == p2[i] by {
            if i > 0 {
                assert(q1[i - 1] == p1[i]);
                assert(q2[i - 1] == p2[i]);
            }
        }
        assert(p1 =~= p2);
    }
}

/// The walk from `p` along the predecessor map reaches `start` within
/// `fuel` hops. The walk is deterministic, so a budget of one hop per map
/// slot decides reachability.
pub open spec fn chain_reaches(cf: Seq<Option<MapPos>>, start: int, p: int, fuel: nat) -> bool
    decreases fuel,
{
    p == start || (fuel > 0 && 0 <= p < cf.len() && cf[p] is Some && chain_reaches(
        cf,
        start,
        cf[p]->0 as int,
        (fuel - 1) as nat,
    ))
}

/// Round-trip law: re-deriving a cumulative cost by summing step costs
/// along a walk reconstructed from a search's predecessor map never
/// exceeds the cost the search recorded for the walk's first cell. (The
/// sum can fall short of the record when a predecessor's own record
/// improved after the link was set; the recorded costs only shrink, so
/// the bound holds in one direction.)
pub proof fn lemma_round_trip_cost_bound(
    w: int,
    h: int,
    tiles: Seq<Tile>,
    wall_cost: int,
    start: int,
    cf: Seq<Option<MapPos>>,
    cost: Seq<Option<usize>>,
    path: Seq<MapPos>,
)
    requires
        wall_cost >= 1,
        search_post(w, h, tiles, wall_cost, start, cf, cost),
        path.len() >= 1,
        path[0] < w * h,
        path.last() == start,
        forall|i: int|
            0 <= i < path.len() - 1 ==> {
                &&& #[trigger] path[i] < cf.len()
                &&& path[i] != start
                &&& cf[path[i] as int] is Some
                &&& path[i + 1] == cf[path[i] as int]->0
            },
    ensures
        cost[path[0] as int] is Some,
        path_cost(tiles, wall_cost, path) <= cost[path[0] as int]->0,
    decreases path.len(),
{
    if path.len() == 1 {
        assert(path[0] == start);
    } else {
        assert(cf[path[0] as int] is Some);
        assert(cost[path[0] as int] is Some);
        let q = path.drop_first();
        assert(forall|i: int| 0 <= i < q.len() ==> #[trigger] q[i] == path[i + 1]);
        assert(q[0] == cf[path[0] as int]->0);
        lemma_round_trip_cost_bound(w, h, tiles, wall_cost, start, cf, cost, q);
        assert(cost[path[0] as int]->0 >= cost[q[0] as int]->0 + step_cost(
            tiles,
            wall_cost,
            path[0] as int,
        ));
    }
}

/// Round-trip law, exact form: for a search whose links are exact — the
/// uninformed search guarantees this — re-deriving the cumulative cost by
/// summing step costs along a reconstructed walk gives back exactly the
/// cost the search recorded for the walk's first cell.
pub proof fn lemma_round_trip_cost_exact(
    w: int,
    h: int,
    tiles: Seq<Tile>,
    wall_cost: int,
    start: int,
    cf: Seq<Option<MapPos>>,
    cost: Seq<Option<usize>>,
    path: Seq<MapPos>,
)
    requires
        wall_cost >= 1,
        search_post(w, h, tiles, wall_cost, start, cf, cost),
        search_exact(w, h, tiles, wall_cost, start, cf, cost),
        path.len() >= 1,
        path[0] < w * h,
        path.last() == start,
        forall|i: int|
            0 <= i < path.len() - 1 ==> {
                &&& #[trigger] path[i] < cf.len()
                &&& path[i] != start
                &&& cf[path[i] as int] is Some
                &&& path[i + 1] == cf[path[i] as int]->0
            },
    ensures
        cost[path[0] as int] is Some,
        path_cost(tiles, wall_cost, path) == cost[path[0] as int]->0,
    decreases path.len(),
{
    if path.len() == 1 {
        assert(path[0] == start);
    } else {
        assert(cf[path[0] as int] is Some);
        assert(cost[path[0] as int] is Some);
        let q = path.drop_first();
        assert(forall|i: int| 0 <= i < q.len() ==> #[trigger] q[i] == path[i + 1]);
        assert(q[0] == cf[path[0] as int]->0);
        lemma_round_trip_cost_exact(w, h, tiles, wall_cost, start, cf, cost, q);
        assert(cost[path[0] as int]->0 == cost[q[0] as int]->0 + step_cost(
            tiles,
            wall_cost,
            path[0] as int,
        ));
    }
}

/// Trace the predecessor chain of a finished search backwards from `end`.
/// The result is in end-to-start order and includes both endpoints; its
/// summed step costs never exceed the cost the search recorded for `end`.
/// The strictly decreasing recorded costs guarantee the walk ends.
#[verifier::loop_isolation(false)]
pub fn reconstruct_path(
    map: &MapData,
    wall_cost: usize,
    cf: &Vec<Option<MapPos>>,
    cost: &Vec<Option<usize>>,
    start: MapPos,
    end: MapPos,
) -> (path: Vec<MapPos>)
    requires
        map.wf(),
        1 <= wall_cost,
        search_post(
            map.map_width as int,
            map.map_height as int,
            map.map@,
            wall_cost as int,
            start as int,
            cf@,
            cost@,
        ),
        end < map.area(),
        cost@[end as int] is Some,
    ensures
        path_connects(map.map_width as int, map.map_height as int, path@, start as int, end as int),
        path_cost(map.map@, wall_cost as int, path@) <= cost@[end as int]->0,
        is_chain_of(cf@, path@, start as int, end as int),
        start == end ==> path@ == seq![start],
{
    let ghost wi = map.map_width as int;
    let ghost hi = map.map_height as int;
    let ghost tiles = map.map@;
    let ghost wc = wall_cost as int;
    let n = cf.len();

    let mut path: Vec<MapPos> = Vec::new();
    path.push(end);
    proof {
        assert(path@ =~= seq![end]);
    }
    let mut current: MapPos = end;
    while current != start
        invariant
            start == end ==> path@ == seq![start],
            current < n,
            cost@[current as int] is Some,
            path@.len() >= 1,
            path@[0] == end,
            path@.last() == current,
            forall|i: int| 0 <= i < path@.len() ==> #[trigger] path@[i] < n,
            forall|i: int|
                0 <= i < path@.len() - 1 ==> adjacent(
                    wi,
                    hi,
                    #[trigger] path@[i + 1] as int,
                    path@[i] as int,
                ),
            forall|i: int|
                0 <= i < path@.len() - 1 ==> {
                    &&& #[trigger] path@[i] < cf@.len()
                    &&& path@[i] != start
                    &&& cf@[path@[i] as int] is Some
                    &&& path@[i + 1] == cf@[path@[i] as int]->0
                },
            path_cost(tiles, wc, path@) + cost@[current as int]->0 <= cost@[end as int]->0,
        decreases cost@[current as int]->0,
    {
        let prev = cf[current].unwrap();
        proof {
            assert(cost@[current as int]->0 >= cost@[prev as int]->0 + step_cost(
                tiles,
                wc,
                current as int,
            ));
            lemma_path_cost_push(tiles, wc, path@, prev);
        }
        path.push(prev);
        current = prev;
    }
    path
}

/// Reconstruct the walk from `end` back to `start` through an arbitrary
/// predecessor map, in end-to-start order with both endpoints included.
/// The walk is capped at one hop per map slot, so a map without a chain
/// from `end` to `start` — a disconnected record or a cycle — yields
/// `Unreachable` instead of a hang or a panic.
#[verifier::loop_isolation(false)]
pub fn make_path(coordinates: &Vec<Option<MapPos>>, start: MapPos, end: MapPos) -> (r: Result<
    Vec<MapPos>,
    GridError,
>)
    ensures
        r is Ok <==> chain_reaches(coordinates@, start as int, end as int, coordinates@.len() as nat),
        r is Err ==> r == Err::<Vec<MapPos>, GridError>(GridError::Unreachable),
        r matches Ok(path) ==> {
            &&& is_chain_of(coordinates@, path@, start as int, end as int)
            &&& path@.len() >= 1
            &&& path@[0] == end
            &&& path@.last() == start
            &&& forall|i: int|
                0 <= i < path@.len() - 1 ==> {
                    &&& #[trigger] path@[i] < coordinates@.len()
                    &&& path@[i] != start
                    &&& coordinates@[path@[i] as int] is Some
                    &&& path@[i + 1] == coordinates@[path@[i] as int]->0
                }
        },
{
    let n = coordinates.len();
    let mut path: Vec<MapPos> = Vec::new();
    path.push(end);
    let mut current: MapPos = end;
    let mut steps: usize = 0;
    while current != start && steps < n
        invariant
            steps <= n,
            steps == path@.len() - 1,
            path@.len() >= 1,
            path@[0] == end,
            path@.last() == current,
            chain_reaches(coordinates@, start as int, end as int, n as nat) == chain_reaches(
                coordinates@,
                start as int,
                current as int,
                (n - steps) as nat,
            ),
            forall|i: int|
                0 <= i < path@.len() - 1 ==> {
                    &&& #[trigger] path@[i] < n
                    &&& path@[i] != start
                    &&& coordinates@[path@[i] as int] is Some
                    &&& path@[i + 1] == coordinates@[path@[i] as int]->0
                },
        decreases n - steps,
    {
        if current >= n {
            return Err(GridError::Unreachable);
        }
        let prev = match coordinates[current] {
            Some(p) => p,
            None => {
                return Err(GridError::Unreachable);
            },
        };
        path.push(prev);
        current = prev;
        steps = steps + 1;
    }
    if current == start {
        Ok(path)
    } else {
        proof {
            assert(!chain_reaches(coordinates@, start as int, current as int, (n - steps) as nat));
        }
        Err(GridError::Unreachable)
    }
}

} // verus!
