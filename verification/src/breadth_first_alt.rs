//! Breadth-first flood from a caller-chosen start cell, recording for
//! every visited cell the neighbor it was first discovered from. The
//! resulting predecessor map drives path reconstruction for pure
//! reachability queries; walls are impassable here.

use vstd::prelude::*;

use crate::grid::{MapData, Tile};
use crate::search::{
    adjacent, coord_in, coord_lin, dir_delta, floor_reachable, lemma_distinct_in_range,
    lemma_floor_reachable_refl, lemma_floor_reachable_step, lemma_grid_index, lemma_pos_in_grid,
    pos_x, pos_y, step_ok, step_to,
};

verus! {

/// A predecessor map as an association list: each entry pairs a visited
/// cell with the cell it was discovered from. The start maps to the
/// sentinel `(-1, -1)`, which is never a valid grid coordinate.
pub type Coordinates = Vec<((isize, isize), (isize, isize))>;

/// Linear search for a key in the predecessor map.
fn keys_contain(v: &Coordinates, x: isize, y: isize) -> (r: bool)
    ensures
        r == exists|i: int| 0 <= i < v@.len() && (#[trigger] v@[i]).0 == (x, y),
{
    let mut idx: usize = 0;
    while idx < v.len()
        invariant
            idx <= v@.len(),
            forall|i: int| 0 <= i < idx ==> (#[trigger] v@[i]).0 != (x, y),
        decreases v@.len() - idx,
    {
        let e = v[idx];
        if e.0.0 == x && e.0.1 == y {
            proof {
                assert((v@[idx as int]).0 == (x, y));
            }
            return true;
        }
        idx = idx + 1;
    }
    false
}

/// An element-for-element copy of a predecessor map.
fn copy_entries(v: &Coordinates) -> (r: Coordinates)
    ensures
        r@ == v@,
{
    let mut r: Coordinates = Vec::new();
    let mut idx: usize = 0;
    while idx < v.len()
        invariant
            idx <= v@.len(),
            r@ == v@.subrange(0, idx as int),
        decreases v@.len() - idx,
    {
        r.push(v[idx]);
        proof {
            assert(r@ =~= v@.subrange(0, idx + 1));
        }
        idx = idx + 1;
    }
    proof {
        assert(r@ =~= v@);
    }
    r
}

/// The flood with predecessor recording. The worklist and the map are
/// kept as fields; every run starts from fresh state.
pub struct BreadthFirst {
    frontier: Vec<(isize, isize)>,
    came_from: Coordinates,
}

impl BreadthFirst {
    /// The predecessor map of the most recent run.
    pub closed spec fn came_from_view(self) -> Seq<((isize, isize), (isize, isize))> {
        self.came_from@
    }

    pub fn new() -> (r: BreadthFirst)
        ensures
            r.came_from_view().len() == 0,
    {
        BreadthFirst { frontier: Vec::new(), came_from: Vec::new() }
    }

    /// Flood the grid from `start` across floor tiles and return the
    /// predecessor map: the start first, mapped to the `(-1, -1)`
    /// sentinel, then every discovered cell mapped to the already-visited
    /// neighbor it was first seen from. Keys are duplicate-free, every
    /// discovered cell is an in-bounds floor cell floor-reachable from
    /// `start`, and every recorded predecessor is an earlier key.
    #[verifier::loop_isolation(false)]
    #[verifier::rlimit(60)]
    pub fn run(&mut self, map: &MapData, start: (isize, isize)) -> (r: Coordinates)
        requires
            map.wf(),
            map.map_width <= usize::MAX / 2,
            map.map_height <= usize::MAX / 2,
            coord_in(start, map.map_width as int, map.map_height as int),
        ensures
            final(self).came_from_view() == r@,
            r@.len() >= 1,
            r@[0] == (start, (-1isize, -1isize)),
            forall|i: int, j: int|
                0 <= i < j < r@.len() ==> (#[trigger] r@[i]).0 != (#[trigger] r@[j]).0,
            forall|k: int|
                1 <= k < r@.len() ==> {
                    &&& coord_in((#[trigger] r@[k]).0, map.map_width as int, map.map_height as int)
                    &&& map.map@[coord_lin(r@[k].0, map.map_width as int)] == Tile::Floor
                    &&& adjacent(
                        map.map_width as int,
                        map.map_height as int,
                        coord_lin(r@[k].1, map.map_width as int),
                        coord_lin(r@[k].0, map.map_width as int),
                    )
                    &&& exists|j: int| 0 <= j < k && (#[trigger] r@[j]).0 == r@[k].1
                    &&& floor_reachable(
                        map.map_width as int,
                        map.map_height as int,
                        map.map@,
                        coord_lin(start, map.map_width as int),
                        coord_lin(r@[k].0, map.map_width as int),
                    )
                },
    {
        self.frontier = Vec::new();
        self.came_from = Vec::new();

        let w = map.map_width;
        let hgt = map.map_height;
        let n = map.map.len();
        let ghost wi = w as int;
        let ghost hi = hgt as int;
        let ghost tiles = map.map@;
        let ghost start_lin = coord_lin(start, wi);

        proof {
            assert(w > 0 && hgt > 0);
            lemma_grid_index(wi, hi, start.0 as int, start.1 as int);
            lemma_floor_reachable_refl(wi, hi, tiles, start_lin);
        }

        self.frontier.push(start);
        self.came_from.push((start, (-1, -1)));
        let ghost mut linr: Seq<int> = seq![start_lin];
        proof {
            assert(self.frontier@[0] == start);
            assert((self.came_from@[0]).0 == start);
            assert forall|j: int| 0 <= j < self.frontier@.len() implies exists|k: int|
                0 <= k < self.came_from@.len() && (#[trigger] self.came_from@[k]).0 == #[trigger] self.frontier@[j] by {
                assert((self.came_from@[0]).0 == self.frontier@[j]);
            }
        }

        while self.frontier.len() != 0
            invariant
                self.came_from@.len() >= 1,
                self.came_from@[0] == (start, (-1isize, -1isize)),
                linr.len() == self.came_from@.len(),
                forall|k: int|
                    0 <= k < linr.len() ==> linr[k] == coord_lin(
                        (#[trigger] self.came_from@[k]).0,
                        wi,
                    ),
                linr.no_duplicates(),
                forall|k: int| 0 <= k < linr.len() ==> 0 <= #[trigger] linr[k] < n,
                forall|k: int|
                    0 <= k < self.came_from@.len() ==> coord_in(
                        (#[trigger] self.came_from@[k]).0,
                        wi,
                        hi,
                    ),
                forall|k: int|
                    1 <= k < self.came_from@.len() ==> {
                        &&& tiles[coord_lin((#[trigger] self.came_from@[k]).0, wi)] == Tile::Floor
                        &&& adjacent(
                            wi,
                            hi,
                            coord_lin(self.came_from@[k].1, wi),
                            coord_lin(self.came_from@[k].0, wi),
                        )
                        &&& exists|j: int|
                            0 <= j < k && (#[trigger] self.came_from@[j]).0
                                == self.came_from@[k].1
                        &&& floor_reachable(
                            wi,
                            hi,
                            tiles,
                            start_lin,
                            coord_lin(self.came_from@[k].0, wi),
                        )
                    },
                forall|j: int|
                    0 <= j < self.frontier@.len() ==> {
                        &&& coord_in(#[trigger] self.frontier@[j], wi, hi)
                        &&& floor_reachable(wi, hi, tiles, start_lin, coord_lin(
                            self.frontier@[j],
                            wi,
                        ))
                        &&& exists|k: int|
                            0 <= k < self.came_from@.len() && (#[trigger] self.came_from@[k]).0
                                == self.frontier@[j]
                    },
                self.came_from@.len() <= n,
            decreases self.frontier@.len() + 9 * (n - self.came_from@.len()),
        {
            let c = match self.frontier.pop() {
                Some(c) => c,
                None => {
                    return Vec::new();  // unreachable: the frontier is non-empty
                },
            };
            let (c_x, c_y) = c;
            let ghost c_lin = coord_lin(c, wi);
            let ghost m_bound = self.frontier@.len() + 9 * (n - self.came_from@.len());

            let mut d: usize = 0;
            while d < 8
                invariant
                    d <= 8,
                    coord_in(c, wi, hi),
                    floor_reachable(wi, hi, tiles, start_lin, c_lin),
                    exists|k: int|
                        0 <= k < self.came_from@.len() && (#[trigger] self.came_from@[k]).0 == c,
                    self.came_from@.len() >= 1,
                    self.came_from@[0] == (start, (-1isize, -1isize)),
                    linr.len() == self.came_from@.len(),
                    forall|k: int|
                        0 <= k < linr.len() ==> linr[k] == coord_lin(
                            (#[trigger] self.came_from@[k]).0,
                            wi,
                        ),
                    linr.no_duplicates(),
                    forall|k: int| 0 <= k < linr.len() ==> 0 <= #[trigger] linr[k] < n,
                    forall|k: int|
                        0 <= k < self.came_from@.len() ==> coord_in(
                            (#[trigger] self.came_from@[k]).0,
                            wi,
                            hi,
                        ),
                    forall|k: int|
                        1 <= k < self.came_from@.len() ==> {
                            &&& tiles[coord_lin((#[trigger] self.came_from@[k]).0, wi)]
                                == Tile::Floor
                            &&& adjacent(
                                wi,
                                hi,
                                coord_lin(self.came_from@[k].1, wi),
                                coord_lin(self.came_from@[k].0, wi),
                            )
                            &&& exists|j: int|
                                0 <= j < k && (#[trigger] self.came_from@[j]).0
                                    == self.came_from@[k].1
                            &&& floor_reachable(
                                wi,
                                hi,
                                tiles,
                                start_lin,
                                coord_lin(self.came_from@[k].0, wi),
                            )
                        },
                    forall|j: int|
                        0 <= j < self.frontier@.len() ==> {
                            &&& coord_in(#[trigger] self.frontier@[j], wi, hi)
                            &&& floor_reachable(wi, hi, tiles, start_lin, coord_lin(
                                self.frontier@[j],
                                wi,
                            ))
                            &&& exists|k: int|
                                0 <= k < self.came_from@.len()
                                    && (#[trigger] self.came_from@[k]).0 == self.frontier@[j]
                        },
                    self.came_from@.len() <= n,
                    self.frontier@.len() + 9 * (n - self.came_from@.len()) <= m_bound,
                decreases 8 - d,
            {
                let (o_x, o_y) = dir_delta(d);
                let n_x = c_x + o_x;
                let n_y = c_y + o_y;
                if n_x >= 0 && n_x < w as isize && n_y >= 0 && n_y < hgt as isize {
                    proof {
                        lemma_grid_index(wi, hi, n_x as int, n_y as int);
                    }
                    let q = (n_x as usize) + (n_y as usize) * w;
                    let ghost q_lin = q as int;
                    if !(map.map[q] == Tile::Wall) {
                        if !keys_contain(&self.came_from, n_x, n_y) {
                            proof {
                                lemma_pos_in_grid(wi, hi, c_lin);
                                assert(pos_x(wi, c_lin) == c.0 && pos_y(wi, c_lin) == c.1) by {
                                    crate::search::lemma_coords(wi, c.0 as int, c.1 as int);
                                }
                                assert(step_ok(wi, hi, c_lin, d as int));
                                assert(q_lin == step_to(wi, c_lin, d as int));
                                assert(adjacent(wi, hi, c_lin, q_lin));
                                lemma_floor_reachable_step(wi, hi, tiles, start_lin, c_lin, q_lin);
                                assert forall|k: int| 0 <= k < linr.len() implies linr[k] != q_lin
                                    by {
                                    if linr[k] == q_lin {
                                        let ck = (self.came_from@[k]).0;
                                        crate::search::lemma_coords(wi, ck.0 as int, ck.1 as int);
                                        crate::search::lemma_coords(wi, n_x as int, n_y as int);
                                        assert(ck == (n_x, n_y));
                                    }
                                }
                                assert(coord_lin((n_x, n_y), wi) == q_lin) by {
                                    crate::search::lemma_coords(wi, n_x as int, n_y as int);
                                }
                            }
                            let ghost cf_before = self.came_from@;
                            let ghost fr_before = self.frontier@;
                            self.frontier.push((n_x, n_y));
                            self.came_from.push(((n_x, n_y), c));
                            proof {
                                linr = linr.push(q_lin);
                                lemma_distinct_in_range(linr, n as int);
                                let cf = self.came_from@;
                                let k0 = choose|k: int|
                                    0 <= k < cf_before.len() && (#[trigger] cf_before[k]).0 == c;
                                assert((cf[k0]).0 == c);
                                let newk = cf.len() - 1;
                                assert((cf[newk]).0 == (n_x, n_y) && (cf[newk]).1 == c);
                                assert(tiles[q_lin] == Tile::Floor);
                                assert forall|k: int| 1 <= k < cf.len() implies {
                                    &&& tiles[coord_lin((#[trigger] cf[k]).0, wi)] == Tile::Floor
                                    &&& adjacent(
                                        wi,
                                        hi,
                                        coord_lin(cf[k].1, wi),
                                        coord_lin(cf[k].0, wi),
                                    )
                                    &&& exists|j: int|
                                        0 <= j < k && (#[trigger] cf[j]).0 == cf[k].1
                                    &&& floor_reachable(
                                        wi,
                                        hi,
                                        tiles,
                                        start_lin,
                                        coord_lin(cf[k].0, wi),
                                    )
                                } by {
                                    if k < cf_before.len() {
                                        assert(cf[k] == cf_before[k]);
                                        let j0 = choose|j: int|
                                            0 <= j < k && (#[trigger] cf_before[j]).0
                                                == cf_before[k].1;
                                        assert((cf[j0]).0 == cf[k].1);
                                    } else {
                                        assert(k == newk);
                                        assert((cf[k0]).0 == cf[k].1);
                                        assert(coord_lin(cf[k].1, wi) == c_lin);
                                        assert(coord_lin(cf[k].0, wi) == q_lin);
                                    }
                                }
                                assert forall|j: int|
                                    0 <= j < self.frontier@.len() implies exists|k: int|
                                    0 <= k < cf.len() && (#[trigger] cf[k]).0
                                        == #[trigger] self.frontier@[j] by {
                                    if j < fr_before.len() {
                                        let kw = choose|k: int|
                                            0 <= k < cf_before.len()
                                                && (#[trigger] cf_before[k]).0 == fr_before[j];
                                        assert((cf[kw]).0 == self.frontier@[j]);
                                    } else {
                                        assert((cf[newk]).0 == self.frontier@[j]);
                                    }
                                }
                            }
                        }
                    }
                }
                d = d + 1;
            }
        }
        let out = copy_entries(&self.came_from);
        proof {
            assert forall|i: int, j: int|
                0 <= i < j < out@.len() implies (#[trigger] out@[i]).0
                != (#[trigger] out@[j]).0 by {
                if (out@[i]).0 == (out@[j]).0 {
                    assert(linr[i] == linr[j]);
                }
            }
        }
        out
    }
}

/// A cell with no floor walk from the start — for instance one sealed
/// behind a closed ring of wall tiles with no floor gap — never appears
/// in the flood's predecessor map: such a query is unreachable.
pub proof fn lemma_unreachable_not_recorded(
    w: int,
    h: int,
    tiles: Seq<Tile>,
    start: (isize, isize),
    r: Seq<((isize, isize), (isize, isize))>,
    p: (isize, isize),
)
    requires
        r.len() >= 1,
        (r[0]).0 == start,
        forall|k: int|
            1 <= k < r.len() ==> floor_reachable(w, h, tiles, coord_lin(start, w), coord_lin(
                (#[trigger] r[k]).0,
                w,
            )),
        !floor_reachable(w, h, tiles, coord_lin(start, w), coord_lin(p, w)),
        p != start,
    ensures
        forall|k: int| 0 <= k < r.len() ==> (#[trigger] r[k]).0 != p,
{
    assert forall|k: int| 0 <= k < r.len() implies (#[trigger] r[k]).0 != p by {
        if k >= 1 && (r[k]).0 == p {
            assert(floor_reachable(w, h, tiles, coord_lin(start, w), coord_lin(p, w)));
        }
    }
}

} // verus!
