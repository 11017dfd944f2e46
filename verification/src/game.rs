//! The single-player grid: tiles keyed by their square on the board,
//! with terminal coordinates carried along for rendering, and moves
//! solved by flipping the board into one canonical orientation.

use vstd::prelude::*;
use itertools::Itertools;

verus! {

/// Horizontal outer margin between squares, in terminal cells.
pub const MARGINX: u16 = 2;

/// Vertical outer margin between squares, in terminal cells.
pub const MARGINY: u16 = 1;

/// The ways the board is flipped to bring a move into the canonical
/// leftward orientation.
pub enum Flip {
    Horizontal,
    Clock,
    CounterClock,
}

/// A requested move on the grid.
#[derive(Clone, Copy, PartialEq, Eq, Structural)]
pub enum Move {
    Up,
    Down,
    Left,
    Right,
}

/// A square on the grid; `{x: 0, y: 0}` is the top left square.
#[derive(Debug, Clone, Copy, PartialEq, Default, Eq, Hash, Structural)]
pub struct Position {
    pub x: u16,
    pub y: u16,
}

impl Position {
    pub fn new(x: u16, y: u16) -> (r: Self)
        ensures
            r.x == x,
            r.y == y,
    {
        Self { x, y }
    }
}

/// Terminal coordinates: where a tile or the grid sits on the screen.
#[derive(Debug, Clone, Copy, PartialEq, Default, Eq, Structural)]
pub struct Coordinates {
    pub x: u16,
    pub y: u16,
}

impl Coordinates {
    pub fn new(x: u16, y: u16) -> (r: Self)
        ensures
            r.x == x,
            r.y == y,
    {
        Self { x, y }
    }
}

/// One tile: its number and the terminal coordinates it is drawn at.
#[derive(Debug, Clone, Copy, PartialEq, Default, Eq, Structural)]
pub struct Tile {
    pub coordinates: Coordinates,
    pub n: u32,
}

impl Tile {
    pub fn new(coordinates: Coordinates, n: u32) -> (r: Self)
        ensures
            r.coordinates == coordinates,
            r.n == n,
    {
        Tile { coordinates, n }
    }

    /// Move the tile to new terminal coordinates.
    pub fn mv(&mut self, coordinates: Coordinates)
        ensures
            final(self).coordinates == coordinates,
            final(self).n == old(self).n,
    {
        self.coordinates = coordinates
    }

    /// Replace the tile's number.
    pub fn update_n(&mut self, n: u32)
        ensures
            final(self).n == n,
            final(self).coordinates == old(self).coordinates,
    {
        self.n = n;
    }
}

/// No two entries claim the same square.
pub open spec fn keys_unique(s: Seq<(Position, Tile)>) -> bool {
    forall|i: int, j: int| 0 <= i < j < s.len() ==> (#[trigger] s[i]).0 != (#[trigger] s[j]).0
}

/// The entries read as a map from square to tile; a later entry for the
/// same square would win, but well-formed grids never hold one.
pub open spec fn map_of(s: Seq<(Position, Tile)>) -> Map<Position, Tile>
    decreases s.len(),
{
    if s.len() == 0 {
        Map::empty()
    } else {
        map_of(s.drop_last()).insert(s.last().0, s.last().1)
    }
}

/// Bounded factors give a bounded product.
proof fn lemma_mul_le(a: int, b: int, am: int, bm: int)
    by (nonlinear_arith)
    requires
        0 <= a <= am,
        0 <= b <= bm,
    ensures
        a * b <= am * bm,
{
}

proof fn lemma_map_of_contains(s: Seq<(Position, Tile)>)
    ensures
        forall|p: Position|
            map_of(s).contains_key(p) <==> exists|k: int| 0 <= k < s.len() && (#[trigger] s[k]).0
                == p,
    decreases s.len(),
{
    if s.len() > 0 {
        let d = s.drop_last();
        lemma_map_of_contains(d);
        assert(forall|k: int| 0 <= k < d.len() ==> #[trigger] d[k] == s[k]);
        assert forall|p: Position| map_of(s).contains_key(p) implies exists|k: int|
            0 <= k < s.len() && (#[trigger] s[k]).0 == p by {
            if p == s.last().0 {
                assert(s[s.len() - 1].0 == p);
                assert(exists|k: int| 0 <= k < s.len() && (#[trigger] s[k]).0 == p);
            } else {
                assert(map_of(d).contains_key(p));
                let k = choose|k: int| 0 <= k < d.len() && (#[trigger] d[k]).0 == p;
                assert(d[k] == s[k]);
                assert(s[k].0 == p);
                assert(exists|m: int| 0 <= m < s.len() && (#[trigger] s[m]).0 == p);
            }
        }
        assert forall|p: Position|
            (exists|k: int| 0 <= k < s.len() && (#[trigger] s[k]).0 == p) implies map_of(
            s,
        ).contains_key(p) by {
            let k = choose|k: int| 0 <= k < s.len() && (#[trigger] s[k]).0 == p;
            if k < s.len() - 1 {
                assert(d[k] == s[k]);
                assert(d[k].0 == p);
                assert(map_of(d).contains_key(p));
            } else {
                assert(p == s.last().0);
            }
        }
    }
}

proof fn lemma_map_of_values(s: Seq<(Position, Tile)>)
    requires
        keys_unique(s),
    ensures
        forall|k: int| 0 <= k < s.len() ==> {
            &&& map_of(s).contains_key((#[trigger] s[k]).0)
            &&& map_of(s)[s[k].0] == s[k].1
        },
    decreases s.len(),
{
    lemma_map_of_contains(s);
    if s.len() > 0 {
        let d = s.drop_last();
        assert(forall|k: int| 0 <= k < d.len() ==> #[trigger] d[k] == s[k]);
        lemma_map_of_values(d);
        assert forall|k: int| 0 <= k < s.len() implies map_of(s)[(#[trigger] s[k]).0]
            == s[k].1 by {
            if k < s.len() - 1 {
                assert(s[k].0 != s.last().0);
                assert(map_of(d)[d[k].0] == d[k].1);
            }
        }
    }
}

proof fn lemma_map_of_push(s: Seq<(Position, Tile)>, e: (Position, Tile))
    ensures
        map_of(s.push(e)) == map_of(s).insert(e.0, e.1),
{
    assert(s.push(e).drop_last() =~= s);
    assert(s.push(e).last() == e);
}

proof fn lemma_map_of_update(s: Seq<(Position, Tile)>, k: int, t: Tile)
    requires
        keys_unique(s),
        0 <= k < s.len(),
    ensures
        map_of(s.update(k, (s[k].0, t))) == map_of(s).insert(s[k].0, t),
    decreases s.len(),
{
    let u = s.update(k, (s[k].0, t));
    let d = s.drop_last();
    assert(forall|m: int| 0 <= m < d.len() ==> #[trigger] d[m] == s[m]);
    if k == s.len() - 1 {
        assert(u.drop_last() =~= d);
        assert(u.last() == (s[k].0, t));
        assert(map_of(u) == map_of(d).insert(s[k].0, t));
        assert(map_of(d).insert(s[k].0, s[k].1).insert(s[k].0, t) =~= map_of(d).insert(
            s[k].0,
            t,
        ));
    } else {
        assert(u.drop_last() =~= d.update(k, (s[k].0, t)));
        assert(u.last() == s.last());
        lemma_map_of_update(d, k, t);
        assert(s[k].0 != s.last().0);
        assert(map_of(d).insert(s[k].0, t).insert(s.last().0, s.last().1) =~= map_of(d).insert(
            s.last().0,
            s.last().1,
        ).insert(s[k].0, t));
    }
}

proof fn lemma_map_of_remove(s: Seq<(Position, Tile)>, k: int)
    requires
        keys_unique(s),
        0 <= k < s.len(),
    ensures
        map_of(s.remove(k)) == map_of(s).remove(s[k].0),
    decreases s.len(),
{
    let d = s.drop_last();
    assert(forall|m: int| 0 <= m < d.len() ==> #[trigger] d[m] == s[m]);
    lemma_map_of_contains(d);
    if k == s.len() - 1 {
        assert(s.remove(k) =~= d);
        assert(!map_of(d).contains_key(s[k].0));
        assert(map_of(d).insert(s[k].0, s[k].1).remove(s[k].0) =~= map_of(d));
    } else {
        assert(s.remove(k).drop_last() =~= d.remove(k));
        assert(s.remove(k).last() == s.last());
        lemma_map_of_remove(d, k);
        assert(s[k].0 != s.last().0);
        assert(map_of(d).remove(s[k].0).insert(s.last().0, s.last().1) =~= map_of(d).insert(
            s.last().0,
            s.last().1,
        ).remove(s[k].0));
    }
}

/// Where square `pos` is drawn, for a grid at `origin` with the given
/// tile size.
pub open spec fn coords_at(
    origin: Coordinates,
    tile_width: u16,
    tile_height: u16,
    pos: Position,
) -> Coordinates {
    Coordinates {
        x: (origin.x + MARGINX + pos.x * MARGINX + pos.x * tile_width) as u16,
        y: (origin.y + MARGINY + pos.y * MARGINY + pos.y * tile_height) as u16,
    }
}

/// The grid: the tiles on their squares, the tiles currently in motion
/// with their destinations, and where and how large the grid is drawn.
#[derive(Debug, PartialEq)]
pub struct Grid {
    pub tiles: Vec<(Position, Tile)>,
    pub moving_tiles: Vec<(Position, Position)>,
    pub size: u16,
    pub tile_width: u16,
    pub tile_height: u16,
    pub coordinates: Coordinates,
}

impl Grid {
    /// The tiles read as a map from square to tile.
    pub open spec fn tile_map(&self) -> Map<Position, Tile> {
        map_of(self.tiles@)
    }

    /// The grid is well formed: every square is keyed once and lies on
    /// the board, and every size, coordinate and number is small enough
    /// that the drawing arithmetic cannot wrap.
    pub open spec fn wf(&self) -> bool {
        &&& keys_unique(self.tiles@)
        &&& 2 <= self.size <= 32
        &&& 1 <= self.tile_width <= 1024
        &&& self.tile_height <= 1024
        &&& self.coordinates.x <= 4096
        &&& self.coordinates.y <= 4096
        &&& forall|k: int| 0 <= k < self.tiles@.len() ==> {
            &&& (#[trigger] self.tiles@[k]).0.x < self.size
            &&& self.tiles@[k].0.y < self.size
            &&& self.tiles@[k].1.coordinates.x <= 36000
            &&& self.tiles@[k].1.coordinates.y <= 36000
            &&& self.tiles@[k].1.n <= 0x4000_0000
        }
        &&& forall|k: int| 0 <= k < self.moving_tiles@.len() ==> {
            &&& (#[trigger] self.moving_tiles@[k]).0.x < self.size
            &&& self.moving_tiles@[k].0.y < self.size
            &&& self.moving_tiles@[k].1.x < self.size
            &&& self.moving_tiles@[k].1.y < self.size
        }
    }

    /// A fresh grid of `size` squares a side, drawn at the origin, with
    /// one starting tile of 2 on square (1, 1).
    pub fn new(tile_size: u16, size: u16) -> (r: Self)
        requires
            1 <= tile_size <= 1024,
            2 <= size <= 32,
        ensures
            r.wf(),
            r.size == size,
            r.tile_width == tile_size,
            r.tile_height == tile_size / 2,
            r.coordinates == (Coordinates { x: 0, y: 0 }),
            r.moving_tiles@.len() == 0,
            r.tile_map() == Map::<Position, Tile>::empty().insert(
                Position { x: 1, y: 1 },
                Tile {
                    coordinates: coords_at(
                        Coordinates { x: 0, y: 0 },
                        tile_size,
                        tile_size / 2,
                        Position { x: 1, y: 1 },
                    ),
                    n: 2,
                },
            ),
    {
        let tile_width = tile_size;
        let tile_height = tile_size / 2;

        let mut new_grid = Self {
            tiles: Vec::new(),
            moving_tiles: Vec::new(),
            size,
            tile_width,
            tile_height,
            coordinates: Coordinates::new(0, 0),
        };
        new_grid.insert_tile(Position::new(1, 1), 2);
        new_grid
    }

    /// Move the whole grid to new terminal coordinates. The tiles keep
    /// their drawn coordinates until the next re-layout.
    pub fn mv(&mut self, new_coordinates: Coordinates)
        requires
            old(self).wf(),
            new_coordinates.x <= 4096,
            new_coordinates.y <= 4096,
        ensures
            final(self).wf(),
            final(self).coordinates == new_coordinates,
            final(self).tiles == old(self).tiles,
            final(self).moving_tiles == old(self).moving_tiles,
            final(self).size == old(self).size,
            final(self).tile_width == old(self).tile_width,
            final(self).tile_height == old(self).tile_height,
    {
        self.coordinates = new_coordinates
    }

    /// Shrink or grow the board; every tile must still fit on it.
    pub fn change_size(&mut self, new_size: u16)
        requires
            old(self).wf(),
            2 <= new_size <= 32,
            forall|k: int| 0 <= k < old(self).tiles@.len() ==> {
                &&& (#[trigger] old(self).tiles@[k]).0.x < new_size
                &&& old(self).tiles@[k].0.y < new_size
            },
            forall|k: int| 0 <= k < old(self).moving_tiles@.len() ==> {
                &&& (#[trigger] old(self).moving_tiles@[k]).0.x < new_size
                &&& old(self).moving_tiles@[k].0.y < new_size
                &&& old(self).moving_tiles@[k].1.x < new_size
                &&& old(self).moving_tiles@[k].1.y < new_size
            },
        ensures
            final(self).wf(),
            final(self).size == (if new_size == old(self).size {
                old(self).size
            } else {
                new_size
            }),
            final(self).tiles == old(self).tiles,
            final(self).moving_tiles == old(self).moving_tiles,
            final(self).tile_width == old(self).tile_width,
            final(self).tile_height == old(self).tile_height,
            final(self).coordinates == old(self).coordinates,
    {
        if new_size == self.size {
            return ;
        }
        self.size = new_size;
    }

    /// The width of the drawn grid, in terminal cells.
    pub fn width(&self) -> (r: u16)
        requires
            self.wf(),
        ensures
            r == 2 + self.tile_width * self.size + MARGINX * self.size,
    {
        proof {
            lemma_mul_le(self.tile_width as int, self.size as int, 1024, 32);
        }
        2 + self.tile_width * self.size + MARGINX * self.size
    }

    /// The height of the drawn grid, in terminal cells.
    pub fn height(&self) -> (r: u16)
        requires
            self.wf(),
        ensures
            r == (2 + self.tile_width * self.size + MARGINX * self.size) / 2,
    {
        self.width() / 2
    }

    /// The bottom-right corner the grid would reach if its tiles were
    /// `tile_size` wide.
    pub fn simulate_size(&self, tile_size: u16) -> (r: (u16, u16))
        requires
            self.wf(),
            tile_size <= 1024,
        ensures
            r.0 == 2 + tile_size * self.size + MARGINX * self.size + self.coordinates.x,
            r.1 == (2 + tile_size * self.size + MARGINX * self.size) / 2 + self.coordinates.y,
    {
        proof {
            lemma_mul_le(tile_size as int, self.size as int, 1024, 32);
        }
        let width = 2 + tile_size * self.size + MARGINX * self.size;
        (width + self.coordinates.x, width / 2 + self.coordinates.y)
    }

    /// Where square `pos` is drawn.
    pub fn get_coordinates_at(&self, pos: Position) -> (r: Coordinates)
        requires
            self.wf(),
            pos.x < self.size,
            pos.y < self.size,
        ensures
            r == coords_at(self.coordinates, self.tile_width, self.tile_height, pos),
            r.x <= 36000,
            r.y <= 36000,
    {
        proof {
            lemma_mul_le(pos.x as int, self.tile_width as int, 31, 1024);
            lemma_mul_le(pos.y as int, self.tile_height as int, 31, 1024);
        }
        Coordinates {
            x: self.coordinates.x + MARGINX + pos.x * MARGINX + pos.x * self.tile_width,
            y: self.coordinates.y + MARGINY + pos.y * MARGINY + pos.y * self.tile_height,
        }
    }

    /// The tile on square `pos`, if any.
    #[verifier::loop_isolation(false)]
    pub fn get_tile(&self, pos: Position) -> (r: Option<Tile>)
        requires
            self.wf(),
        ensures
            self.tile_map().contains_key(pos) ==> r == Some(self.tile_map()[pos]),
            !self.tile_map().contains_key(pos) ==> r is None,
    {
        proof {
            lemma_map_of_contains(self.tiles@);
            lemma_map_of_values(self.tiles@);
        }
        let n = self.tiles.len();
        let mut k: usize = 0;
        while k < n
            invariant
                k <= n,
                n == self.tiles@.len(),
                forall|m: int| 0 <= m < k ==> (#[trigger] self.tiles@[m]).0 != pos,
            decreases n - k,
        {
            let entry = self.tiles[k];
            if entry.0.x == pos.x && entry.0.y == pos.y {
                proof {
                    assert(entry.0 == pos);
                    lemma_map_of_values(self.tiles@);
                }
                return Some(entry.1);
            }
            k = k + 1;
        }
        proof {
            lemma_map_of_contains(self.tiles@);
        }
        None
    }

    /// Put a tile of `n` on square `pos`, drawn where that square sits;
    /// a tile already there is replaced.
    #[verifier::loop_isolation(false)]
    pub fn insert_tile(&mut self, pos: Position, n: u32)
        requires
            old(self).wf(),
            pos.x < old(self).size,
            pos.y < old(self).size,
            n <= 0x4000_0000,
        ensures
            final(self).wf(),
            final(self).tile_map() == old(self).tile_map().insert(
                pos,
                Tile {
                    coordinates: coords_at(
                        old(self).coordinates,
                        old(self).tile_width,
                        old(self).tile_height,
                        pos,
                    ),
                    n,
                },
            ),
            final(self).moving_tiles == old(self).moving_tiles,
            final(self).size == old(self).size,
            final(self).tile_width == old(self).tile_width,
            final(self).tile_height == old(self).tile_height,
            final(self).coordinates == old(self).coordinates,
    {
        let coordinates = self.get_coordinates_at(pos);
        let tile = Tile::new(coordinates, n);
        let n_entries = self.tiles.len();
        let mut k: usize = 0;
        while k < n_entries
            invariant
                k <= n_entries,
                n_entries == self.tiles@.len(),
                *self == *old(self),
                forall|m: int| 0 <= m < k ==> (#[trigger] self.tiles@[m]).0 != pos,
            decreases n_entries - k,
        {
            let entry = self.tiles[k];
            if entry.0.x == pos.x && entry.0.y == pos.y {
                proof {
                    assert(entry.0 == pos);
                    lemma_map_of_update(self.tiles@, k as int, tile);
                }
                self.tiles[k] = (pos, tile);
                return ;
            }
            k = k + 1;
        }
        proof {
            lemma_map_of_push(self.tiles@, (pos, tile));
        }
        self.tiles.push((pos, tile));
    }

    /// Take the tile off square `pos`, if one is there.
    #[verifier::loop_isolation(false)]
    pub fn remove_tile(&mut self, pos: Position)
        requires
            old(self).wf(),
        ensures
            final(self).wf(),
            final(self).tile_map() == old(self).tile_map().remove(pos),
            final(self).moving_tiles == old(self).moving_tiles,
            final(self).size == old(self).size,
            final(self).tile_width == old(self).tile_width,
            final(self).tile_height == old(self).tile_height,
            final(self).coordinates == old(self).coordinates,
    {
        let n_entries = self.tiles.len();
        let mut k: usize = 0;
        while k < n_entries
            invariant
                k <= n_entries,
                n_entries == self.tiles@.len(),
                *self == *old(self),
                forall|m: int| 0 <= m < k ==> (#[trigger] self.tiles@[m]).0 != pos,
            decreases n_entries - k,
        {
            let entry = self.tiles[k];
            if entry.0.x == pos.x && entry.0.y == pos.y {
                proof {
                    assert(entry.0 == pos);
                    lemma_map_of_remove(self.tiles@, k as int);
                }
                self.tiles.remove(k);
                return ;
            }
            k = k + 1;
        }
        proof {
            lemma_map_of_contains(self.tiles@);
            assert(!old(self).tile_map().contains_key(pos));
            assert(old(self).tile_map().remove(pos) =~= old(self).tile_map());
        }
    }

    /// Forget the motion whose tile started at `pos`; one must exist.
    #[verifier::loop_isolation(false)]
    pub fn remove_moving_tile(&mut self, pos: Position)
        requires
            old(self).wf(),
            exists|k: int|
                0 <= k < old(self).moving_tiles@.len() && (#[trigger] old(self).moving_tiles@[k]).0 == pos,
        ensures
            final(self).wf(),
            exists|k: int|
                {
                    &&& 0 <= k < old(self).moving_tiles@.len()
                    &&& (#[trigger] old(self).moving_tiles@[k]).0 == pos
                    &&& final(self).moving_tiles@ == old(self).moving_tiles@.remove(k)
                    &&& forall|m: int| 0 <= m < k ==> old(self).moving_tiles@[m].0 != pos
                },
            final(self).tiles == old(self).tiles,
            final(self).size == old(self).size,
            final(self).tile_width == old(self).tile_width,
            final(self).tile_height == old(self).tile_height,
            final(self).coordinates == old(self).coordinates,
    {
        let n_entries = self.moving_tiles.len();
        let mut k: usize = 0;
        while k < n_entries
            invariant
                k <= n_entries,
                n_entries == self.moving_tiles@.len(),
                *self == *old(self),
                exists|m: int|
                    0 <= m < self.moving_tiles@.len() && (#[trigger] self.moving_tiles@[m]).0
                        == pos,
                forall|m: int| 0 <= m < k ==> (#[trigger] self.moving_tiles@[m]).0 != pos,
            decreases n_entries - k,
        {
            let entry = self.moving_tiles[k];
            if entry.0.x == pos.x && entry.0.y == pos.y {
                proof {
                    assert(entry.0 == pos);
                }
                self.moving_tiles.remove(k);
                return ;
            }
            k = k + 1;
        }
        proof {
            assert(false);
        }
    }

    /// Re-lay every tile for a new tile size; the squares and numbers
    /// stay as they are.
    #[verifier::loop_isolation(false)]
    pub fn change_tile_size(&mut self, new_size: u16)
        requires
            old(self).wf(),
            1 <= new_size <= 1024,
        ensures
            final(self).wf(),
            relaid(*old(self), *final(self), new_size),
    {
        if new_size == self.tile_width {
            return ;
        }
        self.tile_width = new_size;
        self.tile_height = new_size / 2;
        let n_entries = self.tiles.len();
        let mut k: usize = 0;
        while k < n_entries
            invariant
                k <= n_entries,
                self.tiles@.len() == n_entries,
                self.size == old(self).size,
                self.coordinates == old(self).coordinates,
                self.moving_tiles == old(self).moving_tiles,
                self.tile_width == new_size,
                self.tile_height == new_size / 2,
                forall|m: int| k <= m < n_entries ==> #[trigger] self.tiles@[m] == old(self).tiles@[m],
                forall|m: int| 0 <= m < k ==> #[trigger] self.tiles@[m] == (
                    old(self).tiles@[m].0,
                    Tile {
                        coordinates: coords_at(
                            old(self).coordinates,
                            new_size,
                            new_size / 2,
                            old(self).tiles@[m].0,
                        ),
                        n: old(self).tiles@[m].1.n,
                    },
                ),
                forall|m: int| 0 <= m < n_entries ==> (#[trigger] self.tiles@[m]).0 == old(self).tiles@[m].0,
                self.wf(),
            decreases n_entries - k,
        {
            let entry = self.tiles[k];
            let c = self.get_coordinates_at(entry.0);
            self.tiles[k] = (entry.0, Tile::new(c, entry.1.n));
            k = k + 1;
        }
    }

    /// Pick the largest tile size that lets the grid fit the terminal,
    /// and re-lay the tiles for it; report failure when even the small
    /// size does not fit.
    pub fn adjust_size(&mut self, terminal_width: u16, terminal_height: u16) -> (r: Result<
        (),
        String,
    >)
        requires
            old(self).wf(),
        ensures
            final(self).wf(),
            final(self).size == old(self).size,
            final(self).coordinates == old(self).coordinates,
            final(self).moving_tiles == old(self).moving_tiles,
            final(self).tiles@.len() == old(self).tiles@.len(),
            forall|k: int| 0 <= k < old(self).tiles@.len() ==> {
                &&& (#[trigger] final(self).tiles@[k]).0 == old(self).tiles@[k].0
                &&& final(self).tiles@[k].1.n == old(self).tiles@[k].1.n
            },
            grid_fits(*old(self), 10, terminal_width, terminal_height) ==> r is Ok && final(self).tile_width == 10 && relaid(*old(self), *final(self), 10),
            !grid_fits(*old(self), 10, terminal_width, terminal_height) && grid_fits(
                *old(self),
                6,
                terminal_width,
                terminal_height,
            ) ==> r is Ok && final(self).tile_width == 6 && relaid(*old(self), *final(self), 6),
            !grid_fits(*old(self), 10, terminal_width, terminal_height) && !grid_fits(
                *old(self),
                6,
                terminal_width,
                terminal_height,
            ) ==> (r matches Err(m) && m@
                == "The size of your terminal is too small and can't fit the game! Try to make it larger."@
                && *final(self) == *old(self)),
    {
        let fits10 = {
            let (w, h) = self.simulate_size(10);
            w <= terminal_width && h <= terminal_height
        };
        let fits6 = {
            let (w, h) = self.simulate_size(6);
            w <= terminal_width && h <= terminal_height
        };
        let final_size: u16 = if fits10 {
            10
        } else if fits6 {
            6
        } else {
            return Err(String::from_str(
                "The size of your terminal is too small and can't fit the game! Try to make it larger.",
            ));
        };
        if self.tile_width != final_size {
            self.change_tile_size(final_size);
        }
        Ok(())
    }

    /// Put a 2 (nine times out of eleven) or a 4 on one free square
    /// chosen at random; a grid with no free square is left untouched.
    #[verifier::loop_isolation(false)]
    pub fn spawn_random_tile(&mut self)
        requires
            old(self).wf(),
        ensures
            final(self).wf(),
            final(self).size == old(self).size,
            final(self).coordinates == old(self).coordinates,
            final(self).moving_tiles == old(self).moving_tiles,
            final(self).tile_width == old(self).tile_width,
            final(self).tile_height == old(self).tile_height,
            (forall|x: u16, y: u16|
                x < old(self).size && y < old(self).size ==> #[trigger] old(self).tile_map().contains_key(Position { x, y })) ==> *final(self) == *old(self),
            (exists|x: u16, y: u16|
                x < old(self).size && y < old(self).size && !(#[trigger] old(self).tile_map().contains_key(Position { x, y }))) ==> exists|pos: Position, v: u32|
                {
                    &&& pos.x < old(self).size
                    &&& pos.y < old(self).size
                    &&& !old(self).tile_map().contains_key(pos)
                    &&& (v == 2 || v == 4)
                    &&& final(self).tile_map() == old(self).tile_map().insert(
                        pos,
                        Tile {
                            coordinates: coords_at(
                                old(self).coordinates,
                                old(self).tile_width,
                                old(self).tile_height,
                                pos,
                            ),
                            n: v,
                        },
                    )
                },
    {
        let mut available: Vec<(u16, u16)> = Vec::new();
        let mut x: u16 = 0;
        while x < self.size
            invariant
                x <= self.size,
                *self == *old(self),
                forall|k: int| 0 <= k < available@.len() ==> {
                    &&& (#[trigger] available@[k]).0 < self.size
                    &&& available@[k].1 < self.size
                    &&& !self.tile_map().contains_key(
                        Position { x: available@[k].0, y: available@[k].1 },
                    )
                },
                forall|a: u16, b: u16|
                    a < x && b < self.size && !(#[trigger] self.tile_map().contains_key(
                        Position { x: a, y: b },
                    )) ==> exists|k: int|
                        0 <= k < available@.len() && available@[k] == (a, b),
            decreases self.size - x,
        {
            let mut y: u16 = 0;
            while y < self.size
                invariant
                    x < self.size,
                    y <= self.size,
                    *self == *old(self),
                    forall|k: int| 0 <= k < available@.len() ==> {
                        &&& (#[trigger] available@[k]).0 < self.size
                        &&& available@[k].1 < self.size
                        &&& !self.tile_map().contains_key(
                            Position { x: available@[k].0, y: available@[k].1 },
                        )
                    },
                    forall|a: u16, b: u16|
                        a < x && b < self.size && !(#[trigger] self.tile_map().contains_key(
                            Position { x: a, y: b },
                        )) ==> exists|k: int|
                            0 <= k < available@.len() && available@[k] == (a, b),
                    forall|b: u16|
                        b < y && !(#[trigger] self.tile_map().contains_key(Position { x, y: b }))
                            ==> exists|k: int|
                            0 <= k < available@.len() && available@[k] == (x, b),
                decreases self.size - y,
            {
                let occupied = self.get_tile(Position::new(x, y));
                if occupied.is_none() {
                    let ghost before = available@;
                    available.push((x, y));
                    proof {
                        assert(available@[before.len() as int] == (x, y));
                        assert(forall|k: int| 0 <= k < before.len() ==> #[trigger] available@[k]
                            == before[k]);
                        assert forall|a: u16, b: u16|
                            a < x && b < self.size && !(#[trigger] self.tile_map().contains_key(
                                Position { x: a, y: b },
                            )) implies exists|k: int|
                            0 <= k < available@.len() && available@[k] == (a, b) by {
                            let k = choose|k: int| 0 <= k < before.len() && before[k] == (a, b);
                            assert(available@[k] == (a, b));
                        }
                        assert forall|b: u16|
                            b < y + 1 && !(#[trigger] self.tile_map().contains_key(
                                Position { x, y: b },
                            )) implies exists|k: int|
                            0 <= k < available@.len() && available@[k] == (x, b) by {
                            if b < y {
                                let k = choose|k: int|
                                    0 <= k < before.len() && before[k] == (x, b);
                                assert(available@[k] == (x, b));
                            } else {
                                assert(available@[before.len() as int] == (x, b));
                            }
                        }
                    }
                }
                y = y + 1;
            }
            x = x + 1;
        }
        if available.len() < 1 {
            return ;
        }
        let pick = crate::rng::random_below(available.len());
        let square = available[pick];
        let draw = crate::rng::random_below(11);
        let new_n: u32 = if draw < 9 {
            2
        } else {
            4
        };
        let pos = Position::new(square.0, square.1);
        self.insert_tile(pos, new_n);
        proof {
            assert(!old(self).tile_map().contains_key(pos));
        }
    }
}

/// How a re-lay for tile size `s` changes a grid: nothing, when `s` is
/// already the tile width; otherwise the sizes are set and every tile is
/// redrawn where its own square sits, keeping its square and number.
pub open spec fn relaid(pre: Grid, post: Grid, s: u16) -> bool {
    &&& post.size == pre.size
    &&& post.coordinates == pre.coordinates
    &&& post.moving_tiles == pre.moving_tiles
    &&& post.tiles@.len() == pre.tiles@.len()
    &&& (s == pre.tile_width ==> post == pre)
    &&& (s != pre.tile_width ==> {
        &&& post.tile_width == s
        &&& post.tile_height == s / 2
        &&& forall|k: int| 0 <= k < pre.tiles@.len() ==> #[trigger] post.tiles@[k] == (
            pre.tiles@[k].0,
            Tile {
                coordinates: coords_at(pre.coordinates, s, s / 2, pre.tiles@[k].0),
                n: pre.tiles@[k].1.n,
            },
        )
    })
}

/// A grid with tiles of size `ts` fits a terminal of the given size.
pub open spec fn grid_fits(g: Grid, ts: u16, terminal_width: u16, terminal_height: u16) -> bool {
    &&& 2 + ts * g.size + MARGINX * g.size + g.coordinates.x <= terminal_width
    &&& (2 + ts * g.size + MARGINX * g.size) / 2 + g.coordinates.y <= terminal_height
}

/// A square's image under one of the flips, on a board `size` squares a
/// side.
pub open spec fn flip_pos(f: Flip, size: u16, p: Position) -> Position {
    let s = size - 1;
    match f {
        Flip::Horizontal => Position { x: (s - p.x) as u16, y: p.y },
        Flip::CounterClock => Position { x: (s - p.y) as u16, y: p.x },
        Flip::Clock => Position { x: p.y, y: (s - p.x) as u16 },
    }
}

impl Grid {
    /// Rename every square by the flip; the tiles themselves, and where
    /// they are drawn, do not change.
    #[verifier::loop_isolation(false)]
    pub fn flip(&mut self, flip: Flip)
        requires
            old(self).wf(),
        ensures
            final(self).wf(),
            final(self).size == old(self).size,
            final(self).coordinates == old(self).coordinates,
            final(self).tile_width == old(self).tile_width,
            final(self).tile_height == old(self).tile_height,
            final(self).tiles@.len() == old(self).tiles@.len(),
            final(self).moving_tiles@.len() == old(self).moving_tiles@.len(),
            forall|k: int| 0 <= k < old(self).tiles@.len() ==> #[trigger] final(self).tiles@[k]
                == (
                flip_pos(flip, old(self).size, old(self).tiles@[k].0),
                old(self).tiles@[k].1,
            ),
            forall|k: int|
                0 <= k < old(self).moving_tiles@.len() ==> #[trigger] final(self).moving_tiles@[k] == (
                    flip_pos(flip, old(self).size, old(self).moving_tiles@[k].0),
                    flip_pos(flip, old(self).size, old(self).moving_tiles@[k].1),
                ),
    {
        let s = self.size - 1;
        let n_moving = self.moving_tiles.len();
        let mut k: usize = 0;
        while k < n_moving
            invariant
                k <= n_moving,
                self.moving_tiles@.len() == n_moving,
                self.tiles == old(self).tiles,
                self.size == old(self).size,
                self.coordinates == old(self).coordinates,
                self.tile_width == old(self).tile_width,
                self.tile_height == old(self).tile_height,
                s == self.size - 1,
                forall|m: int| k <= m < n_moving ==> #[trigger] self.moving_tiles@[m] == old(self).moving_tiles@[m],
                forall|m: int| 0 <= m < k ==> #[trigger] self.moving_tiles@[m] == (
                    flip_pos(flip, old(self).size, old(self).moving_tiles@[m].0),
                    flip_pos(flip, old(self).size, old(self).moving_tiles@[m].1),
                ),
                forall|m: int| 0 <= m < n_moving ==> {
                    &&& (#[trigger] self.moving_tiles@[m]).0.x < self.size
                    &&& self.moving_tiles@[m].0.y < self.size
                    &&& self.moving_tiles@[m].1.x < self.size
                    &&& self.moving_tiles@[m].1.y < self.size
                },
            decreases n_moving - k,
        {
            let entry = self.moving_tiles[k];
            let np = match flip {
                Flip::Horizontal => (
                    Position::new(s - entry.0.x, entry.0.y),
                    Position::new(s - entry.1.x, entry.1.y),
                ),
                Flip::CounterClock => (
                    Position::new(s - entry.0.y, entry.0.x),
                    Position::new(s - entry.1.y, entry.1.x),
                ),
                Flip::Clock => (
                    Position::new(entry.0.y, s - entry.0.x),
                    Position::new(entry.1.y, s - entry.1.x),
                ),
            };
            self.moving_tiles[k] = np;
            k = k + 1;
        }
        let ghost moving_after = self.moving_tiles@;
        let n_entries = self.tiles.len();
        let mut k: usize = 0;
        while k < n_entries
            invariant
                k <= n_entries,
                self.tiles@.len() == n_entries,
                self.size == old(self).size,
                self.coordinates == old(self).coordinates,
                self.tile_width == old(self).tile_width,
                self.tile_height == old(self).tile_height,
                self.moving_tiles@ == moving_after,
                s == self.size - 1,
                forall|m: int| k <= m < n_entries ==> #[trigger] self.tiles@[m] == old(self).tiles@[m],
                forall|m: int| 0 <= m < k ==> #[trigger] self.tiles@[m] == (
                    flip_pos(flip, old(self).size, old(self).tiles@[m].0),
                    old(self).tiles@[m].1,
                ),
            decreases n_entries - k,
        {
            let entry = self.tiles[k];
            let np = match flip {
                Flip::Horizontal => Position::new(s - entry.0.x, entry.0.y),
                Flip::CounterClock => Position::new(s - entry.0.y, entry.0.x),
                Flip::Clock => Position::new(entry.0.y, s - entry.0.x),
            };
            self.tiles[k] = (np, entry.1);
            k = k + 1;
        }
        proof {
            assert forall|i: int, j: int|
                0 <= i < j < self.tiles@.len() implies (#[trigger] self.tiles@[i]).0 != (
            #[trigger] self.tiles@[j]).0 by {
                assert(old(self).tiles@[i].0 != old(self).tiles@[j].0);
            }
        }
    }
}

/// Relies on `itertools::Itertools::sorted_by_key` with the square's
/// column as the key: the result holds exactly the given entries — it is
/// a stable sort — ordered by that key.
#[verifier::external_body]
fn sort_entries_by_x(entries: Vec<(Position, Tile)>) -> (r: Vec<(Position, Tile)>)
    ensures
        r@.to_multiset() == entries@.to_multiset(),
        r@.len() == entries@.len(),
        forall|a: int, b: int| 0 <= a < b < r@.len() ==> (#[trigger] r@[a]).0.x <= (
        #[trigger] r@[b]).0.x,
{
    entries.into_iter().sorted_by_key(|e: &(Position, Tile)| e.0.x).collect()
}

/// Entries rearranged from uniquely-keyed entries keep the keys unique,
/// and each one occurs among the entries it was rearranged from.
proof fn lemma_rearranged_entries(sorted: Seq<(Position, Tile)>, orig: Seq<(Position, Tile)>)
    requires
        sorted.to_multiset() == orig.to_multiset(),
        keys_unique(orig),
    ensures
        keys_unique(sorted),
        forall|k: int| 0 <= k < sorted.len() ==> orig.contains(#[trigger] sorted[k]),
{
    broadcast use vstd::seq_lib::group_to_multiset_ensures;

    assert forall|k: int| 0 <= k < sorted.len() implies orig.contains(#[trigger] sorted[k]) by {
        assert(sorted.contains(sorted[k]));
        assert(sorted.to_multiset().count(sorted[k]) > 0);
    }
    assert(orig.no_duplicates()) by {
        assert forall|i: int, j: int|
            0 <= i < orig.len() && 0 <= j < orig.len() && i != j implies orig[i] != orig[j] by {
            if i < j {
                assert(orig[i].0 != orig[j].0);
            } else {
                assert(orig[j].0 != orig[i].0);
            }
        }
    }
    orig.lemma_multiset_has_no_duplicates();
    sorted.lemma_multiset_has_no_duplicates_conv();
    assert forall|i: int, j: int|
        0 <= i < j < sorted.len() implies (#[trigger] sorted[i]).0 != (#[trigger] sorted[j]).0 by {
        if sorted[i].0 == sorted[j].0 {
            if sorted[i] == sorted[j] {
                assert(false);
            } else {
                assert(orig.contains(sorted[i]));
                assert(orig.contains(sorted[j]));
                let a = choose|a: int| 0 <= a < orig.len() && orig[a] == sorted[i];
                let b = choose|b: int| 0 <= b < orig.len() && orig[b] == sorted[j];
                assert(a != b);
                if a < b {
                    assert(orig[a].0 != orig[b].0);
                } else {
                    assert(orig[b].0 != orig[a].0);
                }
                assert(false);
            }
        }
    }
}

/// A fresh copy of the tile entries.
fn copy_entries(v: &Vec<(Position, Tile)>) -> (r: Vec<(Position, Tile)>)
    ensures
        r@ == v@,
{
    let n = v.len();
    let mut r: Vec<(Position, Tile)> = Vec::new();
    let mut k: usize = 0;
    while k < n
        invariant
            k <= n,
            n == v@.len(),
            r@ =~= v@.take(k as int),
        decreases n - k,
    {
        let e = v[k];
        r.push(e);
        k = k + 1;
    }
    proof {
        assert(r@ =~= v@);
    }
    r
}

/// A fresh copy of the motion list.
fn copy_moves(v: &Vec<(Position, Position)>) -> (r: Vec<(Position, Position)>)
    ensures
        r@ == v@,
{
    let n = v.len();
    let mut r: Vec<(Position, Position)> = Vec::new();
    let mut k: usize = 0;
    while k < n
        invariant
            k <= n,
            n == v@.len(),
            r@ =~= v@.take(k as int),
        decreases n - k,
    {
        let e = v[k];
        r.push(e);
        k = k + 1;
    }
    proof {
        assert(r@ =~= v@);
    }
    r
}

/// Whether the list mentions this square.
fn pos_vec_contains(v: &Vec<Position>, p: Position) -> (r: bool)
    ensures
        r == v@.contains(p),
{
    let n = v.len();
    let mut k: usize = 0;
    while k < n
        invariant
            k <= n,
            n == v@.len(),
            forall|m: int| 0 <= m < k ==> v@[m] != p,
        decreases n - k,
    {
        let e = v[k];
        if e.x == p.x && e.y == p.y {
            proof {
                assert(v@[k as int] == p);
            }
            return true;
        }
        k = k + 1;
    }
    proof {
        if v@.contains(p) {
            let m = choose|m: int| 0 <= m < v@.len() && v@[m] == p;
            assert(false);
        }
    }
    false
}

/// Whether two motion lists are the same, entry for entry.
fn moves_eq(a: &Vec<(Position, Position)>, b: &Vec<(Position, Position)>) -> (r: bool)
    ensures
        r == (a@ == b@),
{
    if a.len() != b.len() {
        proof {
            assert(a@.len() != b@.len());
        }
        return false;
    }
    let n = a.len();
    let mut k: usize = 0;
    while k < n
        invariant
            k <= n,
            n == a@.len() == b@.len(),
            forall|m: int| 0 <= m < k ==> a@[m] == b@[m],
        decreases n - k,
    {
        let ea = a[k];
        let eb = b[k];
        if ea.0.x != eb.0.x || ea.0.y != eb.0.y || ea.1.x != eb.1.x || ea.1.y != eb.1.y {
            proof {
                assert(a@[k as int] != b@[k as int]);
            }
            return false;
        }
        proof {
            assert(a@[k as int] == b@[k as int]);
        }
        k = k + 1;
    }
    proof {
        assert(a@ =~= b@);
    }
    true
}

impl Grid {
    /// Where a tile of `n` standing on `pos` would come to rest moving
    /// left: it slides over free squares until something stops it, and
    /// merges into an equal tile unless that square was already consumed
    /// by a merge this pass. Tiles too large to double safely do not
    /// merge; no tile reached in play comes anywhere near that size.
    fn get_desired_position(&self, pos: Position, n: u32, unavailable: &Vec<Position>) -> (r: (
        Position,
        u32,
    ))
        requires
            self.wf(),
            pos.x < self.size,
            pos.y < self.size,
        ensures
            r.0.x <= pos.x,
            r.0.y == pos.y,
            r.1 == n || (r.1 == 2 * n && n <= 0x2000_0000),
    {
        if pos.x == 0 {
            return (Position::new(pos.x, pos.y), n);
        }
        let mut new_x = pos.x;
        let mut cx = pos.x;
        while cx > 0
            invariant
                self.wf(),
                pos.x < self.size,
                pos.y < self.size,
                cx <= pos.x,
                new_x <= pos.x,
            ensures
                new_x <= pos.x,
            decreases cx,
        {
            let checking_x = cx - 1;
            let new_pos = Position::new(checking_x, pos.y);
            if pos_vec_contains(unavailable, new_pos) {
                break ;
            }
            match self.get_tile(new_pos) {
                Some(checking_tile) => {
                    if checking_tile.n == n && n <= 0x2000_0000 {
                        return (Position::new(checking_x, pos.y), 2 * n);
                    } else {
                        break ;
                    }
                },
                None => {
                    new_x = checking_x;
                },
            }
            cx = cx - 1;
        }
        (Position::new(new_x, pos.y), n)
    }
}

/// Each flip undoes its inverse on any square of the board.
proof fn lemma_flip_inverse(size: u16, p: Position)
    requires
        2 <= size,
        p.x < size,
        p.y < size,
    ensures
        flip_pos(Flip::Horizontal, size, flip_pos(Flip::Horizontal, size, p)) == p,
        flip_pos(Flip::CounterClock, size, flip_pos(Flip::Clock, size, p)) == p,
        flip_pos(Flip::Clock, size, flip_pos(Flip::CounterClock, size, p)) == p,
{
}

impl Grid {
    /// Solve one move without touching the board: flip into the
    /// canonical leftward orientation, find every tile's resting place
    /// on a scratch grid, flip back, and return which tiles move where.
    /// The grid itself is exactly as it was.
    pub fn check(&mut self, mv: Move) -> (r: Vec<(Position, Position)>)
        requires
            old(self).wf(),
        ensures
            final(self).tiles@ == old(self).tiles@,
            final(self).moving_tiles@ == old(self).moving_tiles@,
            final(self).size == old(self).size,
            final(self).coordinates == old(self).coordinates,
            final(self).tile_width == old(self).tile_width,
            final(self).tile_height == old(self).tile_height,
            final(self).wf(),
            forall|k: int| 0 <= k < r@.len() ==> {
                &&& (#[trigger] r@[k]).0.x < old(self).size
                &&& r@[k].0.y < old(self).size
                &&& r@[k].1.x < old(self).size
                &&& r@[k].1.y < old(self).size
                &&& old(self).tile_map().contains_key(r@[k].0)
            },
            forall|a: int, b: int| 0 <= a < b < r@.len() ==> (#[trigger] r@[a]).0 != (
            #[trigger] r@[b]).0,
            forall|k: int| 0 <= k < r@.len() ==> (#[trigger] r@[k]).0 != r@[k].1,
    {
        match mv {
            Move::Right => self.flip(Flip::Horizontal),
            Move::Up => self.flip(Flip::Clock),
            Move::Down => self.flip(Flip::CounterClock),
            Move::Left => {},
        }
        let ghost mid = *self;
        let mut new_grid = Grid {
            tiles: Vec::new(),
            moving_tiles: Vec::new(),
            size: self.size,
            tile_width: self.tile_width,
            tile_height: self.tile_height,
            coordinates: self.coordinates,
        };
        let entries = copy_entries(&self.tiles);
        let sorted = sort_entries_by_x(entries);
        proof {
            lemma_rearranged_entries(sorted@, mid.tiles@);
            assert forall|k: int| 0 <= k < sorted@.len() implies {
                &&& (#[trigger] sorted@[k]).0.x < mid.size
                &&& sorted@[k].0.y < mid.size
                &&& sorted@[k].1.n <= 0x4000_0000
            } by {
                assert(mid.tiles@.contains(sorted@[k]));
                let m = choose|m: int| 0 <= m < mid.tiles@.len() && mid.tiles@[m] == sorted@[k];
            }
        }
        let n_s = sorted.len();
        let mut unavailable: Vec<Position> = Vec::new();
        let mut k: usize = 0;
        while k < n_s
            invariant
                k <= n_s,
                n_s == sorted@.len(),
                *self == mid,
                mid.wf(),
                keys_unique(sorted@),
                forall|m: int| 0 <= m < sorted@.len() ==> {
                    &&& (#[trigger] sorted@[m]).0.x < mid.size
                    &&& sorted@[m].0.y < mid.size
                    &&& sorted@[m].1.n <= 0x4000_0000
                },
                forall|m: int| 0 <= m < sorted@.len() ==> mid.tiles@.contains(
                    #[trigger] sorted@[m],
                ),
                new_grid.wf(),
                new_grid.size == mid.size,
                new_grid.coordinates == mid.coordinates,
                new_grid.tile_width == mid.tile_width,
                new_grid.tile_height == mid.tile_height,
                forall|a: int|
                    0 <= a < new_grid.moving_tiles@.len() ==> exists|j: int|
                        0 <= j < k && (#[trigger] new_grid.moving_tiles@[a]).0 == sorted@[j].0,
                forall|a: int, b: int|
                    0 <= a < b < new_grid.moving_tiles@.len() ==> (
                    #[trigger] new_grid.moving_tiles@[a]).0 != (
                    #[trigger] new_grid.moving_tiles@[b]).0,
                forall|a: int|
                    0 <= a < new_grid.moving_tiles@.len() ==> (
                    #[trigger] new_grid.moving_tiles@[a]).0 != new_grid.moving_tiles@[a].1,
            decreases n_s - k,
        {
            let e = sorted[k];
            let desired = new_grid.get_desired_position(e.0, e.1.n, &unavailable);
            let new_pos = desired.0;
            let n2 = desired.1;
            if n2 > e.1.n {
                unavailable.push(new_pos);
            }
            new_grid.insert_tile(new_pos, n2);
            if e.0.x != new_pos.x || e.0.y != new_pos.y {
                let ghost before = new_grid.moving_tiles@;
                new_grid.moving_tiles.push((e.0, new_pos));
                proof {
                    assert(new_grid.moving_tiles@ == before.push((e.0, new_pos)));
                    assert forall|a: int|
                        0 <= a < new_grid.moving_tiles@.len() implies exists|j: int|
                        0 <= j < k + 1 && (#[trigger] new_grid.moving_tiles@[a]).0
                            == sorted@[j].0 by {
                        if a < before.len() {
                            assert(new_grid.moving_tiles@[a] == before[a]);
                            let j = choose|j: int| 0 <= j < k && (#[trigger] before[a]).0
                                == sorted@[j].0;
                            assert(new_grid.moving_tiles@[a].0 == sorted@[j].0);
                        } else {
                            assert(new_grid.moving_tiles@[a].0 == sorted@[k as int].0);
                        }
                    }
                    assert forall|a: int, b: int|
                        0 <= a < b < new_grid.moving_tiles@.len() implies (
                    #[trigger] new_grid.moving_tiles@[a]).0 != (
                    #[trigger] new_grid.moving_tiles@[b]).0 by {
                        if b == new_grid.moving_tiles@.len() - 1 {
                            let j = choose|j: int|
                                0 <= j < k && (#[trigger] new_grid.moving_tiles@[a]).0
                                    == sorted@[j].0;
                            assert(sorted@[j].0 != sorted@[k as int].0);
                        }
                    }
                }
            }
            k = k + 1;
        }
        let ghost pre = new_grid.moving_tiles@;
        match mv {
            Move::Right => {
                self.flip(Flip::Horizontal);
                new_grid.flip(Flip::Horizontal);
            },
            Move::Up => {
                self.flip(Flip::CounterClock);
                new_grid.flip(Flip::CounterClock);
            },
            Move::Down => {
                self.flip(Flip::Clock);
                new_grid.flip(Flip::Clock);
            },
            Move::Left => {},
        }
        proof {
            lemma_map_of_contains(old(self).tiles@);
            lemma_map_of_contains(mid.tiles@);
            match mv {
                Move::Left => {
                    assert(self.tiles@ =~= old(self).tiles@);
                    assert(self.moving_tiles@ =~= old(self).moving_tiles@);
                    assert forall|m: int|
                        0 <= m < new_grid.moving_tiles@.len() implies old(self).tile_map().contains_key((#[trigger] new_grid.moving_tiles@[m]).0) by {
                        let j = choose|j: int|
                            0 <= j < k && (#[trigger] new_grid.moving_tiles@[m]).0 == sorted@[j].0;
                        assert(mid.tiles@.contains(sorted@[j]));
                        let i = choose|i: int|
                            0 <= i < mid.tiles@.len() && mid.tiles@[i] == sorted@[j];
                        assert(old(self).tiles@[i].0 == new_grid.moving_tiles@[m].0);
                    }
                },
                _ => {
                    let f_back = match mv {
                        Move::Right => Flip::Horizontal,
                        Move::Up => Flip::CounterClock,
                        Move::Down => Flip::Clock,
                        Move::Left => Flip::Horizontal,
                    };
                    assert forall|m: int|
                        0 <= m < self.tiles@.len() implies #[trigger] self.tiles@[m] == old(self).tiles@[m] by {
                        lemma_flip_inverse(old(self).size, old(self).tiles@[m].0);
                    }
                    assert(self.tiles@ =~= old(self).tiles@);
                    assert forall|m: int|
                        0 <= m < self.moving_tiles@.len() implies #[trigger] self.moving_tiles@[m]
                        == old(self).moving_tiles@[m] by {
                        lemma_flip_inverse(old(self).size, old(self).moving_tiles@[m].0);
                        lemma_flip_inverse(old(self).size, old(self).moving_tiles@[m].1);
                    }
                    assert(self.moving_tiles@ =~= old(self).moving_tiles@);
                    assert forall|m: int|
                        0 <= m < new_grid.moving_tiles@.len() implies old(self).tile_map().contains_key((#[trigger] new_grid.moving_tiles@[m]).0) by {
                        assert(new_grid.moving_tiles@[m].0 == flip_pos(
                            f_back,
                            mid.size,
                            pre[m].0,
                        ));
                        let j = choose|j: int|
                            0 <= j < k && (#[trigger] pre[m]).0 == sorted@[j].0;
                        assert(mid.tiles@.contains(sorted@[j]));
                        let i = choose|i: int|
                            0 <= i < mid.tiles@.len() && mid.tiles@[i] == sorted@[j];
                        assert(mid.tiles@[i].0 == flip_pos(
                            (match mv {
                                Move::Right => Flip::Horizontal,
                                Move::Up => Flip::Clock,
                                Move::Down => Flip::CounterClock,
                                Move::Left => Flip::Horizontal,
                            }),
                            old(self).size,
                            old(self).tiles@[i].0,
                        ));
                        lemma_flip_inverse(old(self).size, old(self).tiles@[i].0);
                        assert(new_grid.moving_tiles@[m].0 == old(self).tiles@[i].0);
                    }
                    assert forall|a: int, b: int|
                        0 <= a < b < new_grid.moving_tiles@.len() implies (
                    #[trigger] new_grid.moving_tiles@[a]).0 != (
                    #[trigger] new_grid.moving_tiles@[b]).0 by {
                        assert(pre[a].0 != pre[b].0);
                        lemma_flip_inverse(mid.size, pre[a].0);
                        lemma_flip_inverse(mid.size, pre[b].0);
                    }
                    assert forall|m: int|
                        0 <= m < new_grid.moving_tiles@.len() implies (
                    #[trigger] new_grid.moving_tiles@[m]).0 != new_grid.moving_tiles@[m].1 by {
                        assert(pre[m].0 != pre[m].1);
                        lemma_flip_inverse(mid.size, pre[m].0);
                        lemma_flip_inverse(mid.size, pre[m].1);
                    }
                },
            }
        }
        new_grid.moving_tiles
    }

    /// Whether the game can go on: lost only when the board is full and
    /// no direction would move a tile; won when a tile holds 2048.
    pub fn check_if_game_can_continue(&mut self) -> (r: Result<(), String>)
        requires
            old(self).wf(),
        ensures
            final(self).tiles@ == old(self).tiles@,
            final(self).moving_tiles@ == old(self).moving_tiles@,
            final(self).size == old(self).size,
            final(self).coordinates == old(self).coordinates,
            final(self).tile_width == old(self).tile_width,
            final(self).tile_height == old(self).tile_height,
            final(self).wf(),
            (exists|k: int|
                0 <= k < old(self).tiles@.len() && (#[trigger] old(self).tiles@[k]).1.n == 2048)
                ==> (r matches Err(m) && m@ == "Game Won"@),
            r is Err ==> ((exists|k: int|
                0 <= k < old(self).tiles@.len() && (#[trigger] old(self).tiles@[k]).1.n == 2048)
                || old(self).tiles@.len() == old(self).size * old(self).size),
            (forall|k: int|
                0 <= k < old(self).tiles@.len() ==> (#[trigger] old(self).tiles@[k]).1.n != 2048)
                ==> (r is Ok || (r matches Err(m) && m@ == "Game Lost"@)),
            ((forall|k: int|
                0 <= k < old(self).tiles@.len() ==> (#[trigger] old(self).tiles@[k]).1.n != 2048)
                && old(self).tiles@.len() != old(self).size * old(self).size) ==> r is Ok,
    {
        let n = self.tiles.len();
        let mut k: usize = 0;
        while k < n
            invariant
                k <= n,
                n == self.tiles@.len(),
                old(self).wf(),
                *self == *old(self),
                forall|m: int| 0 <= m < k ==> (#[trigger] self.tiles@[m]).1.n != 2048,
            decreases n - k,
        {
            let e = self.tiles[k];
            if e.1.n == 2048 {
                return Err(String::from_str("Game Won"));
            }
            k = k + 1;
        }
        proof {
            lemma_mul_le(self.size as int, self.size as int, 32, 32);
        }
        let full = self.tiles.len() == (self.size as usize) * (self.size as usize);
        if full {
            let up_moves = self.check(Move::Up);
            let changed_up = !moves_eq(&up_moves, &self.moving_tiles);
            let down_moves = self.check(Move::Down);
            let changed_down = !moves_eq(&down_moves, &self.moving_tiles);
            let left_moves = self.check(Move::Left);
            let changed_left = !moves_eq(&left_moves, &self.moving_tiles);
            let right_moves = self.check(Move::Right);
            let changed_right = !moves_eq(&right_moves, &self.moving_tiles);
            if !changed_up && !changed_down && !changed_left && !changed_right {
                return Err(String::from_str("Game Lost"));
            }
        }
        Ok(())
    }

    /// Write access to the tile on square `pos`, if any; the caller may
    /// rewrite that tile freely, so nothing more is promised of the grid
    /// afterward. When no tile is there, the grid is untouched.
    pub fn get_tile_mut(&mut self, pos: Position) -> (r: Option<&mut Tile>)
        requires
            old(self).wf(),
        ensures
            r is Some <==> old(self).tile_map().contains_key(pos),
            r is None ==> *final(self) == *old(self),
    {
        proof {
            lemma_map_of_contains(old(self).tiles@);
        }
        let n = self.tiles.len();
        let mut k: usize = 0;
        let mut found: Option<usize> = None;
        while k < n
            invariant_except_break
                k <= n,
                n == self.tiles@.len(),
                *self == *old(self),
                found is None,
                forall|m: int| 0 <= m < k ==> (#[trigger] self.tiles@[m]).0 != pos,
            ensures
                *self == *old(self),
                n == self.tiles@.len(),
                found matches Some(i) ==> i < n && self.tiles@[i as int].0 == pos,
                found is None ==> forall|m: int| 0 <= m < n ==> (#[trigger] self.tiles@[m]).0
                    != pos,
            decreases n - k,
        {
            let e = self.tiles[k];
            if e.0.x == pos.x && e.0.y == pos.y {
                proof {
                    assert(e.0 == pos);
                }
                found = Some(k);
                break ;
            }
            k = k + 1;
        }
        match found {
            Some(i) => {
                proof {
                    assert(old(self).tile_map().contains_key(pos));
                }
                Some(&mut self.tiles[i].1)
            },
            None => {
                proof {
                    assert(!old(self).tile_map().contains_key(pos));
                }
                None
            },
        }
    }

    /// Redraw the tile on square `pos` at the given coordinates; the
    /// square must be occupied, and its number stays as it is.
    #[verifier::loop_isolation(false)]
    fn set_tile_coordinates(&mut self, pos: Position, c: Coordinates)
        requires
            old(self).wf(),
            old(self).tile_map().contains_key(pos),
            c.x <= 36000,
            c.y <= 36000,
        ensures
            final(self).wf(),
            final(self).tile_map() == old(self).tile_map().insert(
                pos,
                Tile { coordinates: c, n: old(self).tile_map()[pos].n },
            ),
            final(self).tiles@.len() == old(self).tiles@.len(),
            final(self).moving_tiles == old(self).moving_tiles,
            final(self).size == old(self).size,
            final(self).coordinates == old(self).coordinates,
            final(self).tile_width == old(self).tile_width,
            final(self).tile_height == old(self).tile_height,
    {
        proof {
            lemma_map_of_contains(old(self).tiles@);
            lemma_map_of_values(old(self).tiles@);
        }
        let n = self.tiles.len();
        let mut k: usize = 0;
        while k < n
            invariant
                k <= n,
                n == self.tiles@.len(),
                *self == *old(self),
                forall|m: int| 0 <= m < k ==> (#[trigger] self.tiles@[m]).0 != pos,
            decreases n - k,
        {
            let e = self.tiles[k];
            if e.0.x == pos.x && e.0.y == pos.y {
                proof {
                    assert(e.0 == pos);
                    lemma_map_of_update(self.tiles@, k as int, Tile { coordinates: c, n: e.1.n });
                    assert(old(self).tile_map()[pos].n == e.1.n);
                }
                self.tiles[k] = (pos, Tile::new(c, e.1.n));
                return ;
            }
            k = k + 1;
        }
        proof {
            assert(false);
        }
    }
}

/// No two pending motions start on the same square, and each starts on
/// an occupied one.
pub open spec fn moving_ok(g: Grid) -> bool {
    &&& forall|a: int, b: int|
        0 <= a < b < g.moving_tiles@.len() ==> (#[trigger] g.moving_tiles@[a]).0 != (
        #[trigger] g.moving_tiles@[b]).0
    &&& forall|k: int|
        0 <= k < g.moving_tiles@.len() ==> g.tile_map().contains_key(
            (#[trigger] g.moving_tiles@[k]).0,
        )
}

impl Grid {
    /// One animation frame. While tiles are in motion, each glides a
    /// step toward its destination; one that arrives settles there,
    /// doubling the tile it merges into. When the last tile arrives, a
    /// new tile is spawned and the game may end. With no motion pending,
    /// a requested move starts one.
    pub fn on_tick(&mut self, mv: Option<Move>) -> (r: Result<(), String>)
        requires
            old(self).wf(),
            moving_ok(*old(self)),
        ensures
            final(self).wf(),
            moving_ok(*final(self)),
            final(self).size == old(self).size,
            final(self).coordinates == old(self).coordinates,
            final(self).tile_width == old(self).tile_width,
            final(self).tile_height == old(self).tile_height,
            old(self).moving_tiles@.len() == 0 ==> {
                &&& final(self).tiles@ == old(self).tiles@
                &&& r is Ok
                &&& (mv is None ==> final(self).moving_tiles@ == old(self).moving_tiles@)
                &&& forall|k: int|
                    0 <= k < final(self).moving_tiles@.len() ==> (#[trigger] final(self).moving_tiles@[k]).0 != final(self).moving_tiles@[k].1
            },
            old(self).moving_tiles@.len() > 0 ==> final(self).moving_tiles@.len() <= old(self).moving_tiles@.len(),
    {
        if self.moving_tiles.len() > 0 {
            let snapshot = copy_moves(&self.moving_tiles);
            let n_m = snapshot.len();
            let mut k: usize = 0;
            while k < n_m
                invariant
                    k <= n_m,
                    n_m == snapshot@.len(),
                    snapshot@.len() == old(self).moving_tiles@.len(),
                    forall|a: int, b: int|
                        0 <= a < b < snapshot@.len() ==> (#[trigger] snapshot@[a]).0 != (
                        #[trigger] snapshot@[b]).0,
                    forall|m: int| 0 <= m < snapshot@.len() ==> {
                        &&& (#[trigger] snapshot@[m]).0.x < self.size
                        &&& snapshot@[m].0.y < self.size
                        &&& snapshot@[m].1.x < self.size
                        &&& snapshot@[m].1.y < self.size
                    },
                    self.wf(),
                    moving_ok(*self),
                    self.size == old(self).size,
                    self.coordinates == old(self).coordinates,
                    self.tile_width == old(self).tile_width,
                    self.tile_height == old(self).tile_height,
                    forall|m: int| k <= m < n_m ==> self.moving_tiles@.contains(
                        #[trigger] snapshot@[m],
                    ),
                    forall|m: int| k <= m < n_m ==> self.tile_map().contains_key(
                        (#[trigger] snapshot@[m]).0,
                    ),
                    self.moving_tiles@.len() <= old(self).moving_tiles@.len(),
                decreases n_m - k,
            {
                let entry = snapshot[k];
                let pos = entry.0;
                let new_pos = entry.1;
                proof {
                    lemma_map_of_contains(self.tiles@);
                    lemma_map_of_values(self.tiles@);
                }
                let desired = self.get_coordinates_at(new_pos);
                let tile = match self.get_tile(pos) {
                    Some(t) => t,
                    None => {
                        proof {
                            assert(false);
                        }
                        Tile::new(Coordinates::new(0, 0), 0)
                    },
                };
                proof {
                    let i = choose|i: int|
                        0 <= i < self.tiles@.len() && (#[trigger] self.tiles@[i]).0 == pos;
                    assert(self.tile_map()[pos] == self.tiles@[i].1);
                    assert(tile.coordinates.x <= 36000 && tile.coordinates.y <= 36000);
                    assert(tile.n <= 0x4000_0000);
                }
                let current = tile.coordinates;
                let mut x = current.x;
                let mut y = current.y;
                if desired.x > current.x {
                    x = if current.x + 4 <= desired.x {
                        current.x + 4
                    } else {
                        desired.x
                    };
                } else if desired.x < current.x {
                    x = if current.x >= desired.x + 4 {
                        current.x - 4
                    } else {
                        desired.x
                    };
                } else if desired.y > current.y {
                    y = if current.y + 2 <= desired.y {
                        current.y + 2
                    } else {
                        desired.y
                    };
                } else if desired.y < current.y {
                    y = if current.y >= desired.y + 2 {
                        current.y - 2
                    } else {
                        desired.y
                    };
                }
                if desired.x == x && desired.y == y {
                    match self.get_tile(new_pos) {
                        Some(target) => {
                            proof {
                                let i = choose|i: int|
                                    0 <= i < self.tiles@.len() && (#[trigger] self.tiles@[i]).0
                                        == new_pos;
                                assert(self.tile_map()[new_pos] == self.tiles@[i].1);
                                assert(target.n <= 0x4000_0000);
                            }
                            let doubled = if target.n <= 0x2000_0000 {
                                target.n * 2
                            } else {
                                target.n
                            };
                            self.insert_tile(new_pos, doubled);
                        },
                        None => {
                            self.insert_tile(new_pos, tile.n);
                        },
                    }
                    self.remove_tile(pos);
                    let ghost moving_before = self.moving_tiles@;
                    self.remove_moving_tile(pos);
                    proof {
                        let idx = choose|idx: int|
                            {
                                &&& 0 <= idx < moving_before.len()
                                &&& (#[trigger] moving_before[idx]).0 == pos
                                &&& self.moving_tiles@ == moving_before.remove(idx)
                                &&& forall|m: int| 0 <= m < idx ==> moving_before[m].0 != pos
                            };
                        assert forall|m: int|
                            k + 1 <= m < n_m implies self.moving_tiles@.contains(
                            #[trigger] snapshot@[m],
                        ) by {
                            let j = choose|j: int|
                                0 <= j < moving_before.len() && moving_before[j] == snapshot@[m];
                            assert(snapshot@[m].0 != pos);
                            assert(j != idx);
                            if j < idx {
                                assert(self.moving_tiles@[j] == moving_before[j]);
                            } else {
                                assert(self.moving_tiles@[j - 1] == moving_before[j]);
                            }
                        }
                    }
                } else {
                    self.set_tile_coordinates(pos, Coordinates::new(x, y));
                    proof {
                        lemma_map_of_contains(self.tiles@);
                    }
                }
                k = k + 1;
            }
            if self.moving_tiles.len() == 0 {
                self.spawn_random_tile();
                match self.check_if_game_can_continue() {
                    Ok(_) => {},
                    Err(message) => {
                        return Err(message);
                    },
                }
            }
            return Ok(());
        }
        match mv {
            Some(m) => {
                let new_moving = self.check(m);
                self.moving_tiles = new_moving;
                proof {
                    lemma_map_of_contains(self.tiles@);
                }
            },
            None => {},
        }
        Ok(())
    }
}

} // verus!
