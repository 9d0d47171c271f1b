//! Breadth-first reachability flood: starting from the first floor tile
//! of the grid, collect every cell that can be reached across floor
//! tiles. Unlike the weighted searches, the flood treats walls as
//! impassable.

use vstd::prelude::*;

use crate::grid::{MapData, Tile};
use crate::search::{
    adjacent, coord_in, coord_lin, coords_contain, copy_coords, dir_delta, floor_reachable,
    lemma_distinct_in_range, lemma_floor_reachable_refl, lemma_floor_reachable_step,
    lemma_grid_index, lemma_pos_in_grid, pos_x, pos_y, step_ok, step_to,
};

verus! {

/// The reachability flood seeded at the grid's first floor tile. The
/// worklist and the visited list are kept as fields; every run starts
/// from fresh state.
pub struct BreadthFirst {
    frontier: Vec<(isize, isize)>,
    reached: Vec<(isize, isize)>,
}

/// The coordinates of the first floor tile of the grid, if any.
#[verifier::loop_isolation(false)]
fn first_floor(map: &MapData) -> (r: Option<usize>)
    requires
        map.wf(),
    ensures
        r is None <==> (forall|i: int| 0 <= i < map.area() ==> map.map@[i] != Tile::Floor),
        r matches Some(i) ==> {
            &&& i < map.area()
            &&& map.map@[i as int] == Tile::Floor
            &&& forall|j: int| 0 <= j < i ==> map.map@[j] != Tile::Floor
        },
{
    let mut i: usize = 0;
    let n = map.map.len();
    while i < n
        invariant
            i <= n,
            forall|j: int| 0 <= j < i ==> map.map@[j] != Tile::Floor,
        decreases n - i,
    {
        if map.map[i] == Tile::Floor {
            return Some(i);
        }
        i = i + 1;
    }
    None
}

impl BreadthFirst {
    /// The visited list of the most recent run.
    pub closed spec fn reached_view(self) -> Seq<(isize, isize)> {
        self.reached@
    }

    pub fn new() -> (r: BreadthFirst)
        ensures
            r.reached_view().len() == 0,
    {
        BreadthFirst { frontier: Vec::new(), reached: Vec::new() }
    }

    /// Flood the grid from its first floor tile and return every cell
    /// visited, as 2D coordinates in visit order.
    ///
    /// The result is duplicate-free; its first entry is the first floor
    /// tile of the grid in row-major order; every entry is an in-bounds
    /// floor cell that is floor-reachable from that seed. A grid without
    /// a single floor tile yields the empty list.
    #[verifier::loop_isolation(false)]
    #[verifier::rlimit(60)]
    pub fn run(&mut self, map: &MapData) -> (r: Vec<(isize, isize)>)
        requires
            map.wf(),
            map.map_width <= usize::MAX / 2,
            map.map_height <= usize::MAX / 2,
        ensures
            final(self).reached_view() == r@,
            r@.len() == 0 <==> (forall|i: int|
                0 <= i < map.area() ==> map.map@[i] != Tile::Floor),
            r@.len() > 0 ==> {
                &&& coord_in(r@[0], map.map_width as int, map.map_height as int)
                &&& map.map@[coord_lin(r@[0], map.map_width as int)] == Tile::Floor
                &&& forall|j: int|
                    0 <= j < coord_lin(r@[0], map.map_width as int) ==> map.map@[j] != Tile::Floor
            },
            forall|k: int|
                0 <= k < r@.len() ==> {
                    &&& coord_in(#[trigger] r@[k], map.map_width as int, map.map_height as int)
                    &&& map.map@[coord_lin(r@[k], map.map_width as int)] == Tile::Floor
                    &&& floor_reachable(
                        map.map_width as int,
                        map.map_height as int,
                        map.map@,
                        coord_lin(r@[0], map.map_width as int),
                        coord_lin(r@[k], map.map_width as int),
                    )
                },
            r@.no_duplicates(),
    {
        self.frontier = Vec::new();
        self.reached = Vec::new();

        let w = map.map_width;
        let hgt = map.map_height;
        let n = map.map.len();
        let ghost wi = w as int;
        let ghost hi = hgt as int;
        let ghost tiles = map.map@;

        let seed_idx = match first_floor(map) {
            Some(i) => i,
            None => {
                return Vec::new();
            },
        };
        proof {
            assert(w > 0 && hgt > 0) by (nonlinear_arith)
                requires
                    n == w * hgt,
                    n > 0,
            ;
            lemma_pos_in_grid(wi, hi, seed_idx as int);
        }
        let s_x = (seed_idx % w) as isize;
        let s_y = (seed_idx / w) as isize;
        let ghost seed = seed_idx as int;

        self.frontier.push((s_x, s_y));
        self.reached.push((s_x, s_y));
        let ghost mut linr: Seq<int> = seq![seed];
        proof {
            lemma_floor_reachable_refl(wi, hi, tiles, seed);
        }

        while self.frontier.len() != 0
            invariant
                self.reached@.len() >= 1,
                self.reached@[0] == (s_x, s_y),
                coord_lin(self.reached@[0], wi) == seed,
                linr.len() == self.reached@.len(),
                forall|k: int|
                    0 <= k < linr.len() ==> linr[k] == coord_lin(#[trigger] self.reached@[k], wi),
                linr.no_duplicates(),
                forall|k: int| 0 <= k < linr.len() ==> 0 <= #[trigger] linr[k] < n,
                self.reached@.no_duplicates(),
                forall|k: int|
                    0 <= k < self.reached@.len() ==> {
                        &&& coord_in(#[trigger] self.reached@[k], wi, hi)
                        &&& tiles[coord_lin(self.reached@[k], wi)] == Tile::Floor
                        &&& floor_reachable(wi, hi, tiles, seed, coord_lin(self.reached@[k], wi))
                    },
                forall|j: int|
                    0 <= j < self.frontier@.len() ==> {
                        &&& coord_in(#[trigger] self.frontier@[j], wi, hi)
                        &&& tiles[coord_lin(self.frontier@[j], wi)] == Tile::Floor
                        &&& floor_reachable(wi, hi, tiles, seed, coord_lin(self.frontier@[j], wi))
                    },
                self.reached@.len() <= n,
            decreases self.frontier@.len() + 9 * (n - self.reached@.len()),
        {
            let c = match self.frontier.pop() {
                Some(c) => c,
                None => {
                    return Vec::new();  // unreachable: the frontier is non-empty
                },
            };
            let (c_x, c_y) = c;
            let ghost c_lin = coord_lin(c, wi);
            let ghost m_bound = self.frontier@.len() + 9 * (n - self.reached@.len());

            let mut d: usize = 0;
            while d < 8
                invariant
                    d <= 8,
                    coord_in(c, wi, hi),
                    floor_reachable(wi, hi, tiles, seed, c_lin),
                    self.reached@.len() >= 1,
                    self.reached@[0] == (s_x, s_y),
                    linr.len() == self.reached@.len(),
                    forall|k: int|
                        0 <= k < linr.len() ==> linr[k] == coord_lin(
                            #[trigger] self.reached@[k],
                            wi,
                        ),
                    linr.no_duplicates(),
                    forall|k: int| 0 <= k < linr.len() ==> 0 <= #[trigger] linr[k] < n,
                    self.reached@.no_duplicates(),
                    forall|k: int|
                        0 <= k < self.reached@.len() ==> {
                            &&& coord_in(#[trigger] self.reached@[k], wi, hi)
                            &&& tiles[coord_lin(self.reached@[k], wi)] == Tile::Floor
                            &&& floor_reachable(
                                wi,
                                hi,
                                tiles,
                                seed,
                                coord_lin(self.reached@[k], wi),
                            )
                        },
                    forall|j: int|
                        0 <= j < self.frontier@.len() ==> {
                            &&& coord_in(#[trigger] self.frontier@[j], wi, hi)
                            &&& tiles[coord_lin(self.frontier@[j], wi)] == Tile::Floor
                            &&& floor_reachable(
                                wi,
                                hi,
                                tiles,
                                seed,
                                coord_lin(self.frontier@[j], wi),
                            )
                        },
                    self.reached@.len() <= n,
                    self.frontier@.len() + 9 * (n - self.reached@.len()) <= m_bound,
                decreases 8 - d,
            {
                let (o_x, o_y) = dir_delta(d);
                let n_x = c_x + o_x;
                let n_y = c_y + o_y;
                if n_x >= 0 && n_x < w as isize && n_y >= 0 && n_y < hgt as isize {
                    proof {
                        lemma_grid_index(wi, hi, n_x as int, n_y as int);
                    }
                    let q = (n_x as usize) + (n_y as usize) * w;
                    let ghost q_lin = q as int;
                    if !(map.map[q] == Tile::Wall) {
                        if !coords_contain(&self.reached, n_x, n_y) {
                            proof {
                                // The step from `c` lands on `q`.
                                lemma_pos_in_grid(wi, hi, c_lin);
                                assert(pos_x(wi, c_lin) == c.0 && pos_y(wi, c_lin) == c.1) by {
                                    crate::search::lemma_coords(wi, c.0 as int, c.1 as int);
                                }
                                assert(step_ok(wi, hi, c_lin, d as int));
                                assert(q_lin == step_to(wi, c_lin, d as int));
                                assert(adjacent(wi, hi, c_lin, q_lin));
                                lemma_floor_reachable_step(wi, hi, tiles, seed, c_lin, q_lin);
                                // The fresh cell is not yet recorded.
                                assert forall|k: int| 0 <= k < linr.len() implies linr[k] != q_lin
                                    by {
                                    if linr[k] == q_lin {
                                        let ck = self.reached@[k];
                                        crate::search::lemma_coords(wi, ck.0 as int, ck.1 as int);
                                        crate::search::lemma_coords(wi, n_x as int, n_y as int);
                                        assert(ck == (n_x, n_y));
                                    }
                                }
                            }
                            self.frontier.push((n_x, n_y));
                            self.reached.push((n_x, n_y));
                            proof {
                                linr = linr.push(q_lin);
                                lemma_distinct_in_range(linr, n as int);
                            }
                        }
                    }
                }
                d = d + 1;
            }
        }
        let out = copy_coords(&self.reached);
        out
    }
}

} // verus!
