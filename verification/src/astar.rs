//! The informed variant of the weighted search: priorities add the
//! Manhattan distance to the goal on top of the cumulative step cost.

use vstd::prelude::*;

use crate::grid::{GridError, MapData, MapPos};
use crate::search::{
    is_chain_of, path_connects, path_cost, reconstruct_path, run_search, search_post,
};

verus! {

/// Step cost of entering a wall cell: walls are expensive, not
/// impassable, so the search prefers floor but may cross a wall as a
/// last resort.
pub const ASTAR_WALL_COST: usize = 100;

/// The informed weighted search engine. The predecessor and best-cost
/// maps of the most recent run are kept as fields; every run starts from
/// fresh state, so no residue leaks between queries.
#[derive(Default)]
pub struct AStar {
    came_from: Vec<Option<MapPos>>,
    cost_so_far: Vec<Option<usize>>,
}

impl AStar {
    /// The predecessor map of the most recent run.
    pub closed spec fn came_from_view(self) -> Seq<Option<MapPos>> {
        self.came_from@
    }

    /// The best-cost map of the most recent run.
    pub closed spec fn cost_view(self) -> Seq<Option<usize>> {
        self.cost_so_far@
    }

    /// The cost the most recent run recorded for `pos`.
    pub fn recorded_cost(&self, pos: MapPos) -> (r: Option<usize>)
        requires
            pos < self.cost_view().len(),
        ensures
            r == self.cost_view()[pos as int],
    {
        self.cost_so_far[pos]
    }

    /// Search the grid for a least-cost walk from `start` to `end` and
    /// return it in end-to-start order, both endpoints included.
    ///
    /// A query outside the grid fails with `OutOfBounds`; since walls
    /// only penalize and never block, every in-bounds query succeeds.
    /// The returned walk steps between 8-neighbors, and its summed step
    /// costs never exceed the cost recorded for `end`. Querying a cell
    /// from itself yields the single-element walk at cost 0.
    pub fn run(&mut self, map_data: &MapData, start: MapPos, end: MapPos) -> (r: Result<
        Vec<MapPos>,
        GridError,
    >)
        requires
            map_data.wf(),
            103 * (map_data.area() + 1) <= usize::MAX,
        ensures
            r is Err <==> !(start < map_data.area() && end < map_data.area()),
            r is Err ==> r == Err::<Vec<MapPos>, GridError>(GridError::OutOfBounds),
            r matches Ok(path) ==> {
                &&& search_post(
                    map_data.map_width as int,
                    map_data.map_height as int,
                    map_data.map@,
                    ASTAR_WALL_COST as int,
                    start as int,
                    final(self).came_from_view(),
                    final(self).cost_view(),
                )
                &&& final(self).cost_view()[end as int] is Some
                &&& path_connects(
                    map_data.map_width as int,
                    map_data.map_height as int,
                    path@,
                    start as int,
                    end as int,
                )
                &&& is_chain_of(final(self).came_from_view(), path@, start as int, end as int)
                &&& path_cost(map_data.map@, ASTAR_WALL_COST as int, path@)
                    <= final(self).cost_view()[end as int]->0
                &&& start == end ==> path@ == seq![start] && path_cost(
                    map_data.map@,
                    ASTAR_WALL_COST as int,
                    path@,
                ) == 0
            },
    {
        if start >= map_data.map.len() || end >= map_data.map.len() {
            return Err(GridError::OutOfBounds);
        }
        let (cf, cost) = run_search(map_data, start, end, ASTAR_WALL_COST, true);
        let path = reconstruct_path(map_data, ASTAR_WALL_COST, &cf, &cost, start, end);
        self.came_from = cf;
        self.cost_so_far = cost;
        Ok(path)
    }
}

} // verus!
