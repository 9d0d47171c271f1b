//! The grid map: tile classification, spatial indexing, and the value
//! objects shared by the map generator and the search engines.

use vstd::prelude::*;

use rand::rngs::StdRng;

use crate::rng::{draw_range, range_draw, rng_from_seed, rng_hist};

verus! {

/// A grid cell is addressed either as a 2D coordinate `(x, y)` or as the
/// row-major linear index `x + y * width`; `MapPos` is the linear form.
pub type MapPos = usize;

/// Classification of a grid cell. A `Wall` is not an absolute obstacle for
/// the weighted searches: they may cross it at a high step cost. The
/// breadth-first floods treat it as impassable.
#[derive(Clone, Copy, PartialEq, Eq, Structural, Debug)]
pub enum Tile {
    Wall,
    Floor,
}

/// The recoverable failures of the crate.
#[derive(Clone, Copy, PartialEq, Eq, Structural, Debug)]
pub enum GridError {
    /// A start or end position lies outside the grid's index range.
    OutOfBounds,
    /// No chain of predecessors connects the two queried positions.
    Unreachable,
    /// The generator was asked to fill a grid too small to hold a room
    /// of the configured size inside a one-tile border.
    InvalidGridDimensions,
}

/// An axis-aligned rectangle with inclusive corner coordinates, used to
/// describe candidate rooms during map generation.
#[derive(Clone, Copy, PartialEq, Eq, Structural, Debug)]
pub struct MapRect {
    pub x1: usize,
    pub y1: usize,
    pub x2: usize,
    pub y2: usize,
}

impl MapRect {
    /// Inclusive-bounds overlap: projections meet on both axes, so two
    /// rectangles that merely touch edge to edge count as overlapping.
    pub open spec fn overlaps(self, other: MapRect) -> bool {
        &&& self.x1 <= other.x2
        &&& self.x2 >= other.x1
        &&& self.y1 <= other.y2
        &&& self.y2 >= other.y1
    }

    pub fn new(x1: usize, y1: usize, width: usize, height: usize) -> (r: MapRect)
        requires
            x1 + width <= usize::MAX,
            y1 + height <= usize::MAX,
        ensures
            r.x1 == x1,
            r.y1 == y1,
            r.x2 == x1 + width,
            r.y2 == y1 + height,
    {
        MapRect { x1, y1, x2: x1 + width, y2: y1 + height }
    }

    /// Whether the two rectangles overlap, touching edges included. The
    /// generator rejects a candidate room that intersects a placed one, so
    /// adjacent rooms are deliberately rejected as well.
    pub fn intersects(&self, other: &MapRect) -> (r: bool)
        ensures
            r == self.overlaps(*other),
    {
        (self.x1 <= other.x2) && (self.x2 >= other.x1) && (self.y1 <= other.y2)
            && (self.y2 >= other.y1)
    }

    pub open spec fn center_x(self) -> int {
        (self.x1 + self.x2) / 2
    }

    pub open spec fn center_y(self) -> int {
        (self.y1 + self.y2) / 2
    }

    pub fn center(&self) -> (c: (usize, usize))
        requires
            self.x1 + self.x2 <= usize::MAX,
            self.y1 + self.y2 <= usize::MAX,
        ensures
            c.0 == self.center_x(),
            c.1 == self.center_y(),
    {
        ((self.x1 + self.x2) / 2, (self.y1 + self.y2) / 2)
    }
}

/// A fixed-size, row-major grid of tiles together with the generation
/// parameters it was (or will be) filled with.
pub struct MapData {
    pub seed: u64,
    pub max_rooms: usize,
    pub max_room_size: usize,
    pub min_room_size: usize,
    pub map_width: usize,
    pub map_height: usize,
    pub map: Vec<Tile>,
}

impl MapData {
    /// Number of cells of the grid.
    pub open spec fn area(self) -> int {
        self.map_width * self.map_height
    }

    /// The basic shape invariant: the dense tile array matches the
    /// declared dimensions.
    pub open spec fn wf(self) -> bool {
        self.map@.len() == self.area()
    }

    /// A fresh all-`Wall` grid with the default generation parameters.
    pub fn new(map_width: usize, map_height: usize, seed: u64) -> (r: MapData)
        requires
            map_width * map_height <= usize::MAX,
        ensures
            r.wf(),
            r.map_width == map_width,
            r.map_height == map_height,
            r.seed == seed,
            r.max_rooms == 30,
            r.max_room_size == 8,
            r.min_room_size == 4,
            forall|i: int| 0 <= i < r.map@.len() ==> r.map@[i] == Tile::Wall,
    {
        let size: usize = map_width * map_height;
        let mut map: Vec<Tile> = Vec::new();
        let mut k: usize = 0;
        while k < size
            invariant
                k <= size,
                map@.len() == k,
                forall|i: int| 0 <= i < k ==> map@[i] == Tile::Wall,
            decreases size - k,
        {
            map.push(Tile::Wall);
            k = k + 1;
        }
        MapData {
            seed,
            max_rooms: 30,
            max_room_size: 8,
            min_room_size: 4,
            map_width,
            map_height,
            map,
        }
    }

    /// Read the tile at an in-bounds linear position.
    pub fn tile_at(&self, pos: MapPos) -> (t: Tile)
        requires
            self.wf(),
            pos < self.area(),
        ensures
            t == self.map@[pos as int],
    {
        self.map[pos]
    }

    /// Whether a linear position addresses a cell of this grid.
    pub fn in_bounds(&self, pos: MapPos) -> (r: bool)
        requires
            self.wf(),
        ensures
            r == (pos < self.area()),
    {
        pos < self.map.len()
    }
}

/// The dimensions admit every candidate room the generator may sample: a
/// room of any size up to `max_room_size` fits with a strictly positive
/// position range inside a one-tile border.
pub open spec fn dims_ok(m: MapData) -> bool {
    &&& m.min_room_size <= m.max_room_size
    &&& m.max_room_size + 2 < m.map_width
    &&& m.max_room_size + 2 < m.map_height
}

/// The cell at linear index `i` lies inside the (inclusive) rectangle.
pub open spec fn covers_room(w: int, room: MapRect, i: int) -> bool {
    &&& room.x1 <= i % w <= room.x2
    &&& room.y1 <= i / w <= room.y2
}

/// Carving a room: every covered cell becomes floor, the rest is kept.
pub open spec fn carve_room_model(tiles: Seq<Tile>, w: int, room: MapRect) -> Seq<Tile> {
    Seq::new(
        tiles.len(),
        |i: int|
            if covers_room(w, room, i) {
                Tile::Floor
            } else {
                tiles[i]
            },
    )
}

/// The cell at linear index `i` lies on the L-shaped corridor through the
/// elbow `(sx, sy)`: on its horizontal run at row `sy` or its vertical
/// run at column `sx`.
pub open spec fn covers_hall(
    w: int,
    sx: int,
    sy: int,
    x_lo: int,
    x_hi: int,
    y_lo: int,
    y_hi: int,
    i: int,
) -> bool {
    ||| (i / w == sy && x_lo <= i % w <= x_hi)
    ||| (i % w == sx && y_lo <= i / w <= y_hi)
}

/// Carving the corridor that links the centers of two rooms. `elbow`
/// picks one of the two L-orientations: 0 turns at the new room's column,
/// anything else at the previous room's column.
pub open spec fn carve_hall_model(
    tiles: Seq<Tile>,
    w: int,
    room: MapRect,
    past: MapRect,
    elbow: int,
) -> Seq<Tile> {
    let cx = room.center_x();
    let cy = room.center_y();
    let px = past.center_x();
    let py = past.center_y();
    let sx = if elbow == 0 {
        cx
    } else {
        px
    };
    let sy = if elbow == 0 {
        py
    } else {
        cy
    };
    let x_lo = if px < cx {
        px
    } else {
        cx
    };
    let x_hi = if px < cx {
        cx
    } else {
        px
    };
    let y_lo = if py < cy {
        py
    } else {
        cy
    };
    let y_hi = if py < cy {
        cy
    } else {
        py
    };
    Seq::new(
        tiles.len(),
        |i: int|
            if covers_hall(w, sx, sy, x_lo, x_hi, y_lo, y_hi, i) {
                Tile::Floor
            } else {
                tiles[i]
            },
    )
}

/// The functional model of room-and-corridor generation: one recursion
/// step per room attempt. Each attempt draws a size and a position; the
/// first successful candidate is carved as is, later non-overlapping
/// candidates are carved together with a corridor to the previous room,
/// and overlapping candidates are discarded. `hist` is the random
/// source's construction history, which makes the whole model a function
/// of the seed.
pub open spec fn gen_rounds(
    tiles: Seq<Tile>,
    rooms: Seq<MapRect>,
    hist: Seq<int>,
    attempts: nat,
    w: int,
    h: int,
    minr: int,
    maxr: int,
) -> Seq<Tile>
    decreases attempts,
{
    if attempts == 0 {
        tiles
    } else {
        let rw = range_draw(hist, minr, maxr + 1) as int;
        let h1 = hist + seq![minr, maxr + 1];
        let rh = range_draw(h1, minr, maxr + 1) as int;
        let h2 = h1 + seq![minr, maxr + 1];
        let x = range_draw(h2, 1, w - rw - 1) as int;
        let h3 = h2 + seq![1, w - rw - 1];
        let y = range_draw(h3, 1, h - rh - 1) as int;
        let h4 = h3 + seq![1, h - rh - 1];
        let room = MapRect {
            x1: x as usize,
            y1: y as usize,
            x2: (x + rw) as usize,
            y2: (y + rh) as usize,
        };
        if rooms.len() == 0 {
            gen_rounds(
                carve_room_model(tiles, w, room),
                seq![room],
                h4,
                (attempts - 1) as nat,
                w,
                h,
                minr,
                maxr,
            )
        } else if exists|i: int| 0 <= i < rooms.len() && (#[trigger] rooms[i]).overlaps(room) {
            gen_rounds(tiles, rooms, h4, (attempts - 1) as nat, w, h, minr, maxr)
        } else {
            let e = range_draw(h4, 0, 2) as int;
            let h5 = h4 + seq![0, 2];
            gen_rounds(
                carve_hall_model(carve_room_model(tiles, w, room), w, room, rooms.last(), e),
                rooms.push(room),
                h5,
                (attempts - 1) as nat,
                w,
                h,
                minr,
                maxr,
            )
        }
    }
}

/// What `gen` computes: the model run from the grid's own tiles and
/// parameters, with one attempt for the unconditional first room and
/// `max_rooms` further attempts.
pub open spec fn gen_model(m: MapData) -> Seq<Tile> {
    gen_rounds(
        m.map@,
        Seq::empty(),
        seq![m.seed as int],
        (m.max_rooms + 1) as nat,
        m.map_width as int,
        m.map_height as int,
        m.min_room_size as int,
        m.max_room_size as int,
    )
}

impl MapData {
    /// Turn every cell of the (inclusive) rectangle to floor.
    #[verifier::loop_isolation(false)]
    fn carve_out_room(&mut self, room: &MapRect)
        requires
            old(self).wf(),
            old(self).map_width > 0,
            old(self).map_height > 0,
            room.x1 <= room.x2 < old(self).map_width,
            room.y1 <= room.y2 < old(self).map_height,
        ensures
            final(self).map@ == carve_room_model(old(self).map@, old(self).map_width as int, *room),
            final(self).map_width == old(self).map_width,
            final(self).map_height == old(self).map_height,
            final(self).seed == old(self).seed,
            final(self).max_rooms == old(self).max_rooms,
            final(self).max_room_size == old(self).max_room_size,
            final(self).min_room_size == old(self).min_room_size,
            final(self).wf(),
    {
        let w = self.map_width;
        let ghost wi = w as int;
        let ghost hi = self.map_height as int;
        let n_len = self.map.len();
        let ghost n = n_len as int;
        let ghost tiles0 = self.map@;
        proof {
            assert(n == wi * hi);
        }

        let mut y = room.y1;
        while y <= room.y2
            invariant
                room.y1 <= y <= room.y2 + 1,
                self.map@.len() == n,
                self.map_width == w,
                self.map_height == old(self).map_height,
                self.seed == old(self).seed,
                self.max_rooms == old(self).max_rooms,
                self.max_room_size == old(self).max_room_size,
                self.min_room_size == old(self).min_room_size,
                forall|i: int|
                    #![trigger self.map@[i]]
                    0 <= i < n ==> self.map@[i] == (if covers_room(wi, *room, i) && i / wi < y {
                        Tile::Floor
                    } else {
                        tiles0[i]
                    }),
            decreases room.y2 + 1 - y,
        {
            let mut x = room.x1;
            while x <= room.x2
                invariant
                    room.x1 <= x <= room.x2 + 1,
                    room.y1 <= y <= room.y2,
                    self.map@.len() == n,
                    self.map_width == w,
                    self.map_height == old(self).map_height,
                    self.seed == old(self).seed,
                    self.max_rooms == old(self).max_rooms,
                    self.max_room_size == old(self).max_room_size,
                    self.min_room_size == old(self).min_room_size,
                    forall|i: int|
                        #![trigger self.map@[i]]
                        0 <= i < n ==> self.map@[i] == (if covers_room(wi, *room, i) && (i / wi
                            < y || (i / wi == y && i % wi < x)) {
                            Tile::Floor
                        } else {
                            tiles0[i]
                        }),
                decreases room.x2 + 1 - x,
            {
                proof {
                    crate::search::lemma_grid_index(wi, hi, x as int, y as int);
                    assert((x as int) + (y as int) * wi < n);
                }
                let index = x + (y * self.map_width);
                self.map.set(index, Tile::Floor);
                proof {
                    crate::search::lemma_coords(wi, x as int, y as int);
                    assert forall|i: int| 0 <= i < n implies self.map@[i] == (if covers_room(
                        wi,
                        *room,
                        i,
                    ) && (i / wi < y || (i / wi == y && i % wi < x + 1)) {
                        Tile::Floor
                    } else {
                        tiles0[i]
                    }) by {
                        crate::search::lemma_pos_in_grid(wi, hi, i);
                        if i != index {
                            assert(!(i % wi == x && i / wi == y));
                        }
                    }
                }
                x = x + 1;
            }
            y = y + 1;
        }
        proof {
            assert forall|i: int| 0 <= i < n implies self.map@[i] == carve_room_model(
                tiles0,
                wi,
                *room,
            )[i] by {
                crate::search::lemma_pos_in_grid(wi, hi, i);
            }
            assert(self.map@ =~= carve_room_model(tiles0, wi, *room));
        }
    }

    /// Carve the L-shaped corridor of floor between the centers of the
    /// newly placed room and the previously placed one, drawing which of
    /// the two elbow orientations to use from the random source.
    #[verifier::loop_isolation(false)]
    fn carve_out_hallway(&mut self, rng: &mut StdRng, room: &MapRect, past_room: &MapRect)
        requires
            old(self).wf(),
            old(self).map_width <= usize::MAX / 2,
            old(self).map_height <= usize::MAX / 2,
            1 <= room.x1 <= room.x2,
            room.x2 + 1 < old(self).map_width,
            1 <= room.y1 <= room.y2,
            room.y2 + 1 < old(self).map_height,
            1 <= past_room.x1 <= past_room.x2,
            past_room.x2 + 1 < old(self).map_width,
            1 <= past_room.y1 <= past_room.y2,
            past_room.y2 + 1 < old(self).map_height,
        ensures
            final(self).map@ == carve_hall_model(
                old(self).map@,
                old(self).map_width as int,
                *room,
                *past_room,
                range_draw(rng_hist(*old(rng)), 0, 2) as int,
            ),
            rng_hist(*final(rng)) == rng_hist(*old(rng)) + seq![0, 2],
            final(self).map_width == old(self).map_width,
            final(self).map_height == old(self).map_height,
            final(self).seed == old(self).seed,
            final(self).max_rooms == old(self).max_rooms,
            final(self).max_room_size == old(self).max_room_size,
            final(self).min_room_size == old(self).min_room_size,
            final(self).wf(),
    {
        let w = self.map_width;
        let ghost wi = w as int;
        let ghost hi = self.map_height as int;
        let n_len = self.map.len();
        let ghost n = n_len as int;
        let ghost tiles0 = self.map@;
        proof {
            assert(n == wi * hi);
        }

        let (c_x, c_y) = room.center();
        let (p_x, p_y) = past_room.center();
        proof {
            assert(room.x1 <= (room.x1 + room.x2) / 2 <= room.x2) by (nonlinear_arith)
                requires
                    room.x1 <= room.x2,
            ;
            assert(room.y1 <= (room.y1 + room.y2) / 2 <= room.y2) by (nonlinear_arith)
                requires
                    room.y1 <= room.y2,
            ;
            assert(past_room.x1 <= (past_room.x1 + past_room.x2) / 2 <= past_room.x2)
                by (nonlinear_arith)
                requires
                    past_room.x1 <= past_room.x2,
            ;
            assert(past_room.y1 <= (past_room.y1 + past_room.y2) / 2 <= past_room.y2)
                by (nonlinear_arith)
                requires
                    past_room.y1 <= past_room.y2,
            ;
        }

        let dir = draw_range(rng, 0, 2);
        let (s_x, s_y) = if dir == 0 {
            (c_x, p_y)
        } else {
            (p_x, c_y)
        };

        let min_x = if p_x < c_x {
            p_x
        } else {
            c_x
        };
        let max_x = if p_x < c_x {
            c_x
        } else {
            p_x
        };

        let ghost sx = s_x as int;
        let ghost sy = s_y as int;
        let ghost x_lo = min_x as int;
        let ghost x_hi = max_x as int;

        let mut x = min_x;
        while x <= max_x
            invariant
                x_lo <= x <= x_hi + 1,
                self.map@.len() == n,
                self.map_width == w,
                self.map_height == old(self).map_height,
                self.seed == old(self).seed,
                self.max_rooms == old(self).max_rooms,
                self.max_room_size == old(self).max_room_size,
                self.min_room_size == old(self).min_room_size,
                forall|i: int|
                    0 <= i < n ==> self.map@[i] == (if i / wi == sy && x_lo <= i % wi < x {
                        Tile::Floor
                    } else {
                        tiles0[i]
                    }),
            decreases x_hi + 1 - x,
        {
            proof {
                crate::search::lemma_grid_index(wi, hi, x as int, sy);
                assert((x as int) + sy * wi < n);
            }
            let index = x + (s_y * self.map_width);
            self.map.set(index, Tile::Floor);
            proof {
                crate::search::lemma_coords(wi, x as int, sy);
                assert forall|i: int| 0 <= i < n implies self.map@[i] == (if i / wi == sy && x_lo
                    <= i % wi < x + 1 {
                    Tile::Floor
                } else {
                    tiles0[i]
                }) by {
                    crate::search::lemma_pos_in_grid(wi, hi, i);
                    if i != index {
                        assert(!(i % wi == x && i / wi == sy));
                    }
                }
            }
            x = x + 1;
        }

        let min_y = if p_y < c_y {
            p_y
        } else {
            c_y
        };
        let max_y = if p_y < c_y {
            c_y
        } else {
            p_y
        };
        let ghost y_lo = min_y as int;
        let ghost y_hi = max_y as int;
        let ghost tiles1 = self.map@;

        let mut yy = min_y;
        while yy <= max_y
            invariant
                y_lo <= yy <= y_hi + 1,
                self.map@.len() == n,
                self.map_width == w,
                self.map_height == old(self).map_height,
                self.seed == old(self).seed,
                self.max_rooms == old(self).max_rooms,
                self.max_room_size == old(self).max_room_size,
                self.min_room_size == old(self).min_room_size,
                forall|i: int|
                    0 <= i < n ==> self.map@[i] == (if i % wi == sx && y_lo <= i / wi < yy {
                        Tile::Floor
                    } else {
                        tiles1[i]
                    }),
            decreases y_hi + 1 - yy,
        {
            proof {
                crate::search::lemma_grid_index(wi, hi, sx, yy as int);
                assert(sx + (yy as int) * wi < n);
            }
            let index = s_x + (yy * self.map_width);
            self.map.set(index, Tile::Floor);
            proof {
                crate::search::lemma_coords(wi, sx, yy as int);
                assert forall|i: int| 0 <= i < n implies self.map@[i] == (if i % wi == sx && y_lo
                    <= i / wi < yy + 1 {
                    Tile::Floor
                } else {
                    tiles1[i]
                }) by {
                    crate::search::lemma_pos_in_grid(wi, hi, i);
                    if i != index {
                        assert(!(i % wi == sx && i / wi == yy));
                    }
                }
            }
            yy = yy + 1;
        }

        proof {
            let e = range_draw(rng_hist(*old(rng)), 0, 2) as int;
            let target = carve_hall_model(tiles0, wi, *room, *past_room, e);
            assert forall|i: int| 0 <= i < n implies self.map@[i] == target[i] by {
                crate::search::lemma_pos_in_grid(wi, hi, i);
            }
            assert(self.map@ =~= target);
        }
    }
}

/// Whether the candidate room overlaps any already-placed room.
fn any_intersect(rooms: &Vec<MapRect>, room: &MapRect) -> (r: bool)
    ensures
        r == exists|i: int| 0 <= i < rooms@.len() && (#[trigger] rooms@[i]).overlaps(*room),
{
    let mut idx: usize = 0;
    while idx < rooms.len()
        invariant
            idx <= rooms@.len(),
            forall|i: int| 0 <= i < idx ==> !(#[trigger] rooms@[i]).overlaps(*room),
        decreases rooms@.len() - idx,
    {
        if rooms[idx].intersects(room) {
            return true;
        }
        idx = idx + 1;
    }
    false
}

impl MapData {
    /// Fill the grid by room-and-corridor generation: starting from the
    /// current tiles, carve up to `max_rooms + 1` sampled rooms (the
    /// first unconditionally, later ones only when they do not intersect
    /// a placed room, not even edge to edge), linking each later room to
    /// its predecessor by an L-shaped corridor. The whole run is a pure
    /// function of the grid's parameters and seed — see [`gen_model`] —
    /// which makes generation reproducible. Dimensions too small for the
    /// configured room sizes are rejected before any carving.
    #[verifier::loop_isolation(false)]
    pub fn gen(&mut self) -> (res: Result<(), GridError>)
        requires
            old(self).wf(),
            old(self).map_width <= usize::MAX / 2,
            old(self).map_height <= usize::MAX / 2,
            old(self).max_rooms < usize::MAX,
        ensures
            final(self).map_width == old(self).map_width,
            final(self).map_height == old(self).map_height,
            final(self).seed == old(self).seed,
            final(self).max_rooms == old(self).max_rooms,
            final(self).max_room_size == old(self).max_room_size,
            final(self).min_room_size == old(self).min_room_size,
            final(self).wf(),
            match res {
                Ok(()) => dims_ok(*old(self)) && final(self).map@ == gen_model(*old(self)),
                Err(e) => {
                    &&& e == GridError::InvalidGridDimensions
                    &&& !dims_ok(*old(self))
                    &&& final(self).map@ == old(self).map@
                },
            },
    {
        let w = self.map_width;
        let hgt = self.map_height;
        let minr = self.min_room_size;
        let maxr = self.max_room_size;
        let max_rooms = self.max_rooms;

        if !(minr <= maxr && w > 2 && maxr <= w - 3 && hgt > 2 && maxr <= hgt - 3) {
            return Err(GridError::InvalidGridDimensions);
        }
        proof {
            assert(dims_ok(*old(self)));
        }

        let n_len = self.map.len();
        let ghost wi = w as int;
        let ghost hi = hgt as int;
        let ghost minri = minr as int;
        let ghost maxri = maxr as int;
        let ghost target = gen_model(*old(self));

        let mut rng = rng_from_seed(self.seed);
        let mut rooms: Vec<MapRect> = Vec::new();

        // The first room: always placed, no intersection test, no corridor.
        let ghost hist0 = rng_hist(rng);
        let room_width = draw_range(&mut rng, minr, maxr + 1);
        let room_height = draw_range(&mut rng, minr, maxr + 1);
        let x = draw_range(&mut rng, 1, w - room_width - 1);
        let y = draw_range(&mut rng, 1, hgt - room_height - 1);
        let room = MapRect::new(x, y, room_width, room_height);
        self.carve_out_room(&room);
        rooms.push(room);
        proof {
            assert(rooms@ =~= seq![room]);
            assert(gen_rounds(
                old(self).map@,
                Seq::<MapRect>::empty(),
                hist0,
                (max_rooms + 1) as nat,
                wi,
                hi,
                minri,
                maxri,
            ) == gen_rounds(
                self.map@,
                rooms@,
                rng_hist(rng),
                max_rooms as nat,
                wi,
                hi,
                minri,
                maxri,
            ));
        }

        let mut k: usize = 0;
        while k < max_rooms
            invariant
                self.map@.len() == n_len,
                self.map_width == w,
                self.map_height == hgt,
                self.seed == old(self).seed,
                self.max_rooms == max_rooms,
                self.max_room_size == maxr,
                self.min_room_size == minr,
                k <= max_rooms,
                rooms@.len() >= 1,
                forall|j: int|
                    0 <= j < rooms@.len() ==> {
                        &&& 1 <= (#[trigger] rooms@[j]).x1 <= rooms@[j].x2
                        &&& rooms@[j].x2 + 2 <= w
                        &&& 1 <= rooms@[j].y1 <= rooms@[j].y2
                        &&& rooms@[j].y2 + 2 <= hgt
                    },
                gen_rounds(
                    self.map@,
                    rooms@,
                    rng_hist(rng),
                    (max_rooms - k) as nat,
                    wi,
                    hi,
                    minri,
                    maxri,
                ) == target,
            decreases max_rooms - k,
        {
            let ghost tiles_pre = self.map@;
            let ghost rooms_pre = rooms@;
            let ghost hist_pre = rng_hist(rng);
            let room_width = draw_range(&mut rng, minr, maxr + 1);
            let room_height = draw_range(&mut rng, minr, maxr + 1);
            let x = draw_range(&mut rng, 1, w - room_width - 1);
            let y = draw_range(&mut rng, 1, hgt - room_height - 1);
            let room = MapRect::new(x, y, room_width, room_height);

            let hit = any_intersect(&rooms, &room);
            if !hit {
                self.carve_out_room(&room);
                let last = rooms[rooms.len() - 1];
                self.carve_out_hallway(&mut rng, &room, &last);
                rooms.push(room);
                proof {
                    assert(rooms_pre.last() == last);
                    assert(rooms@ =~= rooms_pre.push(room));
                }
            }
            k = k + 1;
            proof {
                assert(gen_rounds(
                    tiles_pre,
                    rooms_pre,
                    hist_pre,
                    (max_rooms - k + 1) as nat,
                    wi,
                    hi,
                    minri,
                    maxri,
                ) == gen_rounds(
                    self.map@,
                    rooms@,
                    rng_hist(rng),
                    (max_rooms - k) as nat,
                    wi,
                    hi,
                    minri,
                    maxri,
                ));
            }
        }
        Ok(())
    }
}

/// Build a grid of the given size and fill it by seeded generation.
/// Identical arguments always yield an identical grid.
pub fn get_map(width: usize, height: usize, seed: u64) -> (r: Result<MapData, GridError>)
    requires
        width * height <= usize::MAX,
        width <= usize::MAX / 2,
        height <= usize::MAX / 2,
    ensures
        r is Err <==> !(width > 10 && height > 10),
        r is Err ==> r == Err::<MapData, GridError>(GridError::InvalidGridDimensions),
        r matches Ok(m) ==> {
            &&& m.wf()
            &&& m.map_width == width
            &&& m.map_height == height
            &&& m.seed == seed
            &&& m.max_rooms == 30
            &&& m.max_room_size == 8
            &&& m.min_room_size == 4
            &&& m.map@ == default_gen_result(width, height, seed)
        },
{
    let mut map = MapData::new(width, height, seed);
    proof {
        assert(map.map@ =~= Seq::new((width * height) as nat, |i: int| Tile::Wall));
    }
    match map.gen() {
        Ok(()) => Ok(map),
        Err(e) => Err(e),
    }
}

/// What `get_map` carves: the generation model run on an all-wall grid
/// with the default parameters (up to 30 rooms besides the first, sizes
/// 4 to 8).
pub open spec fn default_gen_result(width: usize, height: usize, seed: u64) -> Seq<Tile> {
    gen_rounds(
        Seq::new((width * height) as nat, |i: int| Tile::Wall),
        Seq::empty(),
        seq![seed as int],
        31nat,
        width as int,
        height as int,
        4,
        8,
    )
}

/// Determinism of generation: the produced tiles are a function of the
/// starting grid and its parameters alone, so two runs from identical
/// inputs carve identical tile arrays.
pub proof fn lemma_generate_deterministic(a: MapData, b: MapData, input: MapData)
    requires
        a.map@ == gen_model(input),
        b.map@ == gen_model(input),
    ensures
        a.map@ == b.map@,
{
}

} // verus!
