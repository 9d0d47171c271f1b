//! The uninformed variant of the weighted search: priorities are the
//! plain cumulative step costs, with no distance heuristic.

use vstd::prelude::*;

use crate::grid::{GridError, MapData, MapPos};
use crate::search::{run_search, search_exact, search_post};

verus! {

/// Step cost of entering a wall cell for the uninformed search.
pub const DIJKSTRA_WALL_COST: usize = 10;

/// The uninformed weighted search engine. The best-cost map of the most
/// recent run is kept as a field; every run starts from fresh state.
pub struct Dijkstra {
    cost_so_far: Vec<Option<usize>>,
}

impl Dijkstra {
    /// The best-cost map of the most recent run.
    pub closed spec fn cost_view(self) -> Seq<Option<usize>> {
        self.cost_so_far@
    }

    pub fn new() -> (r: Dijkstra)
        ensures
            r.cost_view().len() == 0,
    {
        Dijkstra { cost_so_far: Vec::new() }
    }

    /// The cost the most recent run recorded for `pos`.
    pub fn recorded_cost(&self, pos: MapPos) -> (r: Option<usize>)
        requires
            pos < self.cost_view().len(),
        ensures
            r == self.cost_view()[pos as int],
    {
        self.cost_so_far[pos]
    }

    /// Search the grid from `start` until `end` is settled and return the
    /// predecessor map; `end` is always recorded in it, since walls only
    /// penalize and never block. A query outside the grid fails with
    /// `OutOfBounds`. Together with the retained cost map, the result
    /// satisfies [`search_post`], so every recorded chain walks back to
    /// `start` with strictly decreasing recorded cost.
    pub fn run(&mut self, map_data: &MapData, start: MapPos, end: MapPos) -> (r: Result<
        Vec<Option<MapPos>>,
        GridError,
    >)
        requires
            map_data.wf(),
            13 * (map_data.area() + 1) <= usize::MAX,
        ensures
            r is Err <==> !(start < map_data.area() && end < map_data.area()),
            r is Err ==> r == Err::<Vec<Option<MapPos>>, GridError>(GridError::OutOfBounds),
            r matches Ok(cf) ==> {
                &&& search_post(
                    map_data.map_width as int,
                    map_data.map_height as int,
                    map_data.map@,
                    DIJKSTRA_WALL_COST as int,
                    start as int,
                    cf@,
                    final(self).cost_view(),
                )
                &&& search_exact(
                    map_data.map_width as int,
                    map_data.map_height as int,
                    map_data.map@,
                    DIJKSTRA_WALL_COST as int,
                    start as int,
                    cf@,
                    final(self).cost_view(),
                )
                &&& final(self).cost_view()[end as int] is Some
            },
    {
        if start >= map_data.map.len() || end >= map_data.map.len() {
            return Err(GridError::OutOfBounds);
        }
        let (cf, cost) = run_search(map_data, start, end, DIJKSTRA_WALL_COST, false);
        self.cost_so_far = cost;
        Ok(cf)
    }
}

} // verus!
