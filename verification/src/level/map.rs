//! The runtime world model: the tile grid ([`LevelMap`]) and its room tags.
//! This is the vocabulary every gameplay system queries; generation (sibling
//! modules) produces it.

use vstd::prelude::*;

use crate::grid::in_grid;

verus! {

/// Grid width, in tiles.
pub const MAP_WIDTH: usize = 48;

/// Grid height, in tiles.
pub const MAP_HEIGHT: usize = 48;

#[derive(Clone, Copy, PartialEq, Eq, Debug, Structural)]
pub enum Tile {
    Floor,
    Wall,
}

/// Semantic room categories stamped into the grid by the hybrid level source.
#[derive(Clone, Copy, PartialEq, Eq, Hash, Debug, Structural)]
pub enum RoomKind {
    Start,
    Lobby,
    GameTables,
    Vault,
    Security,
    Service,
}

impl RoomKind {
    /// Sealed rooms get a forced wall ring with a deliberate doorway; open rooms
    /// merge their floor with the surrounding cavern.
    pub open spec fn is_sealed(self) -> bool {
        self == RoomKind::Vault || self == RoomKind::Security
    }

    pub fn sealed(self) -> (b: bool)
        ensures
            b == self.is_sealed(),
    {
        match self {
            RoomKind::Vault | RoomKind::Security => true,
            _ => false,
        }
    }
}

/// Index into [`LevelMap::rooms`].
#[derive(Clone, Copy, PartialEq, Eq, Debug, Structural)]
pub struct RoomId(pub usize);

/// Inclusive tile bounds of a room's footprint.
#[derive(Clone, Copy, PartialEq, Eq, Debug, Structural)]
pub struct TileRect {
    pub min_x: usize,
    pub min_y: usize,
    pub max_x: usize,
    pub max_y: usize,
}

impl TileRect {
    /// The rect's corners are ordered.
    pub open spec fn ordered(&self) -> bool {
        self.min_x <= self.max_x && self.min_y <= self.max_y
    }

    /// `t` lies inside the rect (edges included).
    pub open spec fn covers(&self, t: (int, int)) -> bool {
        self.min_x <= t.0 <= self.max_x && self.min_y <= t.1 <= self.max_y
    }

    /// `t` lies on the rect's edge ring.
    pub open spec fn on_perimeter(&self, t: (int, int)) -> bool {
        self.covers(t) && (t.0 == self.min_x || t.0 == self.max_x || t.1 == self.min_y || t.1
            == self.max_y)
    }

    /// `t` lies strictly inside the rect, off its edge ring.
    pub open spec fn interior(&self, t: (int, int)) -> bool {
        self.min_x < t.0 < self.max_x && self.min_y < t.1 < self.max_y
    }

    /// This rect grown by `pad` on every side (clamped at zero) overlaps `other`.
    pub open spec fn spec_intersects_padded(&self, other: &TileRect, pad: int) -> bool {
        let ax0 = if self.min_x >= pad { self.min_x - pad } else { 0 };
        let ay0 = if self.min_y >= pad { self.min_y - pad } else { 0 };
        &&& ax0 <= other.max_x
        &&& other.min_x <= self.max_x + pad
        &&& ay0 <= other.max_y
        &&& other.min_y <= self.max_y + pad
    }

    /// The middle tile, rounding down.
    pub fn center(&self) -> (c: (usize, usize))
        ensures
            c.0 == (self.min_x + self.max_x) / 2,
            c.1 == (self.min_y + self.max_y) / 2,
    {
        (
            ((self.min_x as u128 + self.max_x as u128) / 2) as usize,
            ((self.min_y as u128 + self.max_y as u128) / 2) as usize,
        )
    }

    /// True if this rect, grown by `pad` on every side, overlaps `other`.
    pub fn intersects_padded(&self, other: &TileRect, pad: usize) -> (b: bool)
        requires
            self.max_x + pad <= usize::MAX,
            self.max_y + pad <= usize::MAX,
        ensures
            b == self.spec_intersects_padded(other, pad as int),
    {
        let ax0 = self.min_x.saturating_sub(pad);
        let ay0 = self.min_y.saturating_sub(pad);
        let ax1 = self.max_x + pad;
        let ay1 = self.max_y + pad;
        ax0 <= other.max_x && other.min_x <= ax1 && ay0 <= other.max_y && other.min_y <= ay1
    }

    /// `t` lies inside the rect's columns, in a row above `y`.
    pub open spec fn covers_rows_below(&self, t: (int, int), y: int) -> bool {
        self.min_x <= t.0 <= self.max_x && self.min_y <= t.1 < y
    }

    /// Every tile within the rect (inclusive), row by row, each exactly once.
    pub fn all_tiles(&self) -> (out: Vec<(usize, usize)>)
        requires
            self.ordered(),
            self.max_x < usize::MAX,
            self.max_y < usize::MAX,
        ensures
            forall|k: int| 0 <= k < out@.len() ==> self.covers(crate::grid::cell(#[trigger] out@[k])),
            forall|t: (int, int)| #[trigger] self.covers(t) ==> exists|k: int| 0 <= k < out@.len() && crate::grid::cell(#[trigger] out@[k]) == t,
            forall|a: int, b: int| 0 <= a < b < out@.len() ==> out@[a] != out@[b],
            forall|a: int, b: int|
                0 <= a < b < out@.len() ==> crate::grid::row_major_lt(
                    crate::grid::cell(#[trigger] out@[a]),
                    crate::grid::cell(#[trigger] out@[b]),
                ),
    {
        let mut out: Vec<(usize, usize)> = Vec::new();
        let mut y = self.min_y;
        while y <= self.max_y
            invariant
                self.ordered(),
                self.max_x < usize::MAX,
                self.max_y < usize::MAX,
                self.min_y <= y <= self.max_y + 1,
                forall|k: int| 0 <= k < out@.len() ==> self.covers_rows_below(crate::grid::cell(#[trigger] out@[k]), y as int),
                forall|t: (int, int)| #[trigger] self.covers_rows_below(t, y as int) ==> exists|k: int| 0 <= k < out@.len() && crate::grid::cell(#[trigger] out@[k]) == t,
                forall|a: int, b: int| 0 <= a < b < out@.len() ==> (out@[a].1 < out@[b].1 || (out@[a].1 == out@[b].1 && out@[a].0 < out@[b].0)),
            decreases self.max_y + 1 - y,
        {
            let mut x = self.min_x;
            let ghost before = out@;
            while x <= self.max_x
                invariant
                    self.ordered(),
                    self.max_x < usize::MAX,
                    self.max_y < usize::MAX,
                    self.min_y <= y <= self.max_y,
                    self.min_x <= x <= self.max_x + 1,
                    out@.len() >= before.len(),
                    forall|k: int| 0 <= k < before.len() ==> out@[k] == before[k],
                    forall|k: int| 0 <= k < before.len() ==> self.covers_rows_below(crate::grid::cell(#[trigger] before[k]), y as int),
                    forall|k: int| before.len() <= k < out@.len() ==> {
                        let c = #[trigger] out@[k];
                        self.min_x <= c.0 < x && c.1 == y
                    },
                    forall|t: (int, int)| #[trigger] self.covers_rows_below(t, y as int) ==> exists|k: int| 0 <= k < before.len() && crate::grid::cell(#[trigger] before[k]) == t,
                    out@.len() == before.len() + (x - self.min_x),
                    forall|k: int| before.len() <= k < out@.len() ==> #[trigger] out@[k] == ((self.min_x + (k - before.len())) as usize, y),
                    forall|a: int, b: int| 0 <= a < b < out@.len() ==> (out@[a].1 < out@[b].1 || (out@[a].1 == out@[b].1 && out@[a].0 < out@[b].0)),
                decreases self.max_x + 1 - x,
            {
                let ghost k0 = out@.len();
                out.push((x, y));
                assert(crate::grid::cell(out@[k0 as int]) == (x as int, y as int));
                assert forall|a: int, b: int| 0 <= a < b < out@.len() implies (out@[a].1 < out@[b].1 || (out@[a].1 == out@[b].1 && out@[a].0 < out@[b].0)) by {
                    if b == k0 {
                        if a < before.len() {
                            assert(out@[a] == before[a]);
                            assert(self.covers_rows_below(crate::grid::cell(before[a]), y as int));
                        }
                    }
                }
                x = x + 1;
            }
            assert forall|t: (int, int)| #[trigger] self.covers_rows_below(t, y + 1) implies exists|k: int| 0 <= k < out@.len() && crate::grid::cell(#[trigger] out@[k]) == t by {
                if t.1 < y {
                    assert(self.covers_rows_below(t, y as int));
                    let k = choose|k: int| 0 <= k < before.len() && crate::grid::cell(#[trigger] before[k]) == t;
                    assert(out@[k] == before[k]);
                } else {
                    assert(self.min_x <= t.0 < x);
                    let k = before.len() + (t.0 - self.min_x);
                    assert(crate::grid::cell(out@[k]) == t);
                }
            }
            assert forall|k: int| 0 <= k < out@.len() implies self.covers_rows_below(crate::grid::cell(#[trigger] out@[k]), y + 1) by {
                if k < before.len() {
                    assert(out@[k] == before[k]);
                }
            }
            y = y + 1;
        }
        assert forall|t: (int, int)| #[trigger] self.covers(t) implies exists|k: int| 0 <= k < out@.len() && crate::grid::cell(#[trigger] out@[k]) == t by {
            assert(self.covers_rows_below(t, y as int));
        }
        out
    }

    /// The perimeter ring tiles of the rect, in the same row-by-row order as
    /// [`TileRect::all_tiles`], each exactly once.
    pub fn perimeter(&self) -> (out: Vec<(usize, usize)>)
        requires
            self.ordered(),
            self.max_x < usize::MAX,
            self.max_y < usize::MAX,
        ensures
            forall|k: int| 0 <= k < out@.len() ==> self.on_perimeter(crate::grid::cell(#[trigger] out@[k])),
            forall|t: (int, int)| #[trigger] self.on_perimeter(t) ==> exists|k: int| 0 <= k < out@.len() && crate::grid::cell(#[trigger] out@[k]) == t,
            forall|a: int, b: int| 0 <= a < b < out@.len() ==> out@[a] != out@[b],
            forall|a: int, b: int|
                0 <= a < b < out@.len() ==> crate::grid::row_major_lt(
                    crate::grid::cell(#[trigger] out@[a]),
                    crate::grid::cell(#[trigger] out@[b]),
                ),
    {
        let all = self.all_tiles();
        let mut out: Vec<(usize, usize)> = Vec::new();
        let mut i: usize = 0;
        while i < all.len()
            invariant
                0 <= i <= all@.len(),
                forall|k: int| 0 <= k < all@.len() ==> self.covers(crate::grid::cell(#[trigger] all@[k])),
                forall|a: int, b: int| 0 <= a < b < all@.len() ==> all@[a] != all@[b],
                forall|a: int, b: int|
                    0 <= a < b < all@.len() ==> crate::grid::row_major_lt(
                        crate::grid::cell(#[trigger] all@[a]),
                        crate::grid::cell(#[trigger] all@[b]),
                    ),
                forall|a: int, b: int|
                    0 <= a < b < out@.len() ==> crate::grid::row_major_lt(
                        crate::grid::cell(#[trigger] out@[a]),
                        crate::grid::cell(#[trigger] out@[b]),
                    ),
                forall|k: int| 0 <= k < out@.len() ==> self.on_perimeter(crate::grid::cell(#[trigger] out@[k])),
                forall|k: int| 0 <= k < out@.len() ==> exists|j: int| 0 <= j < i && all@[j] == #[trigger] out@[k],
                forall|j: int| 0 <= j < i && self.on_perimeter(crate::grid::cell(#[trigger] all@[j])) ==> exists|k: int| 0 <= k < out@.len() && out@[k] == all@[j],
                forall|a: int, b: int| 0 <= a < b < out@.len() ==> out@[a] != out@[b],
            decreases all@.len() - i,
        {
            let (x, y) = all[i];
            let ghost old_out = out@;
            if x == self.min_x || x == self.max_x || y == self.min_y || y == self.max_y {
                assert forall|k: int| 0 <= k < out@.len() implies out@[k] != all@[i as int] by {
                    let j = choose|j: int| 0 <= j < i && all@[j] == #[trigger] out@[k];
                }
                let ghost k0 = out@.len();
                out.push((x, y));
                assert(out@[k0 as int] == all@[i as int]);
                assert forall|a: int, b: int|
                    0 <= a < b < out@.len() implies crate::grid::row_major_lt(
                    crate::grid::cell(#[trigger] out@[a]),
                    crate::grid::cell(#[trigger] out@[b]),
                ) by {
                    assert(out@[a] == old_out[a]);
                    if b == k0 {
                        let j = choose|j: int| 0 <= j < i && all@[j] == #[trigger] old_out[a];
                        assert(crate::grid::row_major_lt(crate::grid::cell(all@[j]), crate::grid::cell(all@[i as int])));
                    } else {
                        assert(out@[b] == old_out[b]);
                    }
                }
            }
            assert forall|j: int| 0 <= j < i + 1 && self.on_perimeter(crate::grid::cell(#[trigger] all@[j])) implies exists|k: int| 0 <= k < out@.len() && out@[k] == all@[j] by {
                if j < i {
                    let k = choose|k: int| 0 <= k < old_out.len() && old_out[k] == all@[j];
                    assert(out@[k] == old_out[k]);
                } else {
                    assert(out@[out@.len() - 1] == all@[j]);
                }
            }
            assert forall|k: int| 0 <= k < out@.len() implies exists|j: int| 0 <= j < i + 1 && all@[j] == #[trigger] out@[k] by {
                if k < out@.len() - 1 || !(x == self.min_x || x == self.max_x || y == self.min_y || y == self.max_y) {
                    if exists|j: int| 0 <= j < i && all@[j] == #[trigger] out@[k] {
                        let j = choose|j: int| 0 <= j < i && all@[j] == #[trigger] out@[k];
                    } else {
                        assert(out@[k] == all@[i as int]);
                    }
                } else {
                    assert(out@[k] == all@[i as int]);
                }
            }
            i = i + 1;
        }
        assert forall|t: (int, int)| #[trigger] self.on_perimeter(t) implies exists|k: int| 0 <= k < out@.len() && crate::grid::cell(#[trigger] out@[k]) == t by {
            assert(self.covers(t));
            let j = choose|j: int| 0 <= j < all@.len() && crate::grid::cell(#[trigger] all@[j]) == t;
            assert(self.on_perimeter(crate::grid::cell(all@[j])));
            let k = choose|k: int| 0 <= k < out@.len() && out@[k] == all@[j];
        }
        out
    }
}

/// A semantic region stamped into the grid.
#[derive(Clone, Debug)]
pub struct Room {
    pub kind: RoomKind,
    pub rect: TileRect,
    /// Floor member tiles tagged into `room_of` (the interior; excludes the
    /// sealed wall ring and its doorway).
    pub tiles: Vec<(usize, usize)>,
    /// The single opening in a sealed room's wall ring; `None` for open rooms.
    pub doorway: Option<(usize, usize)>,
}

/// The generated level grid, stored row-major: `tiles[y * width + x]`, with a
/// parallel `room_of` lookup tagging each tile with the room it belongs to.
pub struct LevelMap {
    pub width: usize,
    pub height: usize,
    pub tiles: Vec<Tile>,
    pub room_of: Vec<Option<RoomId>>,
    pub rooms: Vec<Room>,
}

impl LevelMap {
    /// The grid and tag arrays both cover exactly `width * height` tiles.
    pub open spec fn inv(&self) -> bool {
        &&& self.width * self.height <= usize::MAX
        &&& self.cells().len() == self.width * self.height
        &&& self.tags().len() == self.width * self.height
    }

    /// Every tag names a room that is installed.
    pub open spec fn tags_resolve(&self) -> bool {
        forall|i: int|
            0 <= i < self.tags().len() ==> (#[trigger] self.tags()[i] matches Some(id) ==> id.0
                < self.room_list().len())
    }

    /// The row-major tile array.
    pub open spec fn cells(&self) -> Seq<Tile> {
        self.tiles@
    }

    /// The row-major room tags.
    pub open spec fn tags(&self) -> Seq<Option<RoomId>> {
        self.room_of@
    }

    /// The installed rooms.
    pub open spec fn room_list(&self) -> Seq<Room> {
        self.rooms@
    }

    /// The tile at `(x, y)`.
    pub open spec fn tile(&self, x: int, y: int) -> Tile {
        self.cells()[y * self.width + x]
    }

    /// `(x, y)` is inside the grid.
    pub open spec fn in_bounds(&self, t: (int, int)) -> bool {
        in_grid(self.width as int, self.height as int, t)
    }

    /// Walkability mask over the grid, row-major.
    pub open spec fn floor_mask(&self) -> Seq<bool> {
        Seq::new(self.cells().len(), |i: int| self.cells()[i] == Tile::Floor)
    }

    /// A fresh all-wall grid with no rooms — the starting point for generation.
    pub fn filled_with_walls(width: usize, height: usize) -> (m: Self)
        requires
            width * height <= usize::MAX,
        ensures
            m.inv(),
            m.tags_resolve(),
            m.width == width,
            m.height == height,
            forall|i: int| 0 <= i < width * height ==> m.cells()[i] == Tile::Wall,
            forall|i: int| 0 <= i < width * height ==> m.tags()[i] is None,
            m.room_list().len() == 0,
    {
        let n = width * height;
        Self {
            width,
            height,
            tiles: vec_filled(Tile::Wall, n),
            room_of: vec_filled(None, n),
            rooms: Vec::new(),
        }
    }

    /// The tile at `(x, y)`.
    pub fn get(&self, x: usize, y: usize) -> (t: Tile)
        requires
            self.inv(),
            y * self.width + x < self.width * self.height,
        ensures
            t == self.tile(x as int, y as int),
    {
        self.tiles[y * self.width + x]
    }

    /// Overwrite the tile at `(x, y)`.
    pub fn set(&mut self, x: usize, y: usize, tile: Tile)
        requires
            old(self).inv(),
            y * old(self).width + x < old(self).width * old(self).height,
        ensures
            final(self).inv(),
            final(self).width == old(self).width,
            final(self).height == old(self).height,
            final(self).cells() == old(self).cells().update(y * old(self).width + x, tile),
            final(self).tags() == old(self).tags(),
            final(self).room_list() == old(self).room_list(),
    {
        let i = y * self.width + x;
        self.tiles.set(i, tile);
    }

    /// Tag a tile as belonging to a room (used while building `room_of`).
    pub fn assign_room(&mut self, x: usize, y: usize, id: RoomId)
        requires
            old(self).inv(),
            y * old(self).width + x < old(self).width * old(self).height,
        ensures
            final(self).inv(),
            final(self).width == old(self).width,
            final(self).height == old(self).height,
            final(self).cells() == old(self).cells(),
            final(self).tags() == old(self).tags().update(y * old(self).width + x, Some(id)),
            final(self).room_list() == old(self).room_list(),
    {
        let i = y * self.width + x;
        self.room_of.set(i, Some(id));
    }

    /// Install the semantic room list once stamping is complete.
    pub fn set_rooms(&mut self, rooms: Vec<Room>)
        requires
            old(self).inv(),
        ensures
            final(self).inv(),
            final(self).width == old(self).width,
            final(self).height == old(self).height,
            final(self).cells() == old(self).cells(),
            final(self).tags() == old(self).tags(),
            final(self).room_list() == rooms@,
    {
        self.rooms = rooms;
    }

    /// Whether `(x, y)` is walkable floor.
    pub fn is_walkable(&self, x: usize, y: usize) -> (b: bool)
        requires
            self.inv(),
            y * self.width + x < self.width * self.height,
        ensures
            b == (self.tile(x as int, y as int) == Tile::Floor),
    {
        self.get(x, y) == Tile::Floor
    }

    /// Number of walkable floor tiles in the map.
    pub fn floor_count(&self) -> (n: usize)
        ensures
            n == count_floor(self.cells()),
    {
        let mut n: usize = 0;
        let mut i: usize = 0;
        while i < self.tiles.len()
            invariant
                0 <= i <= self.tiles@.len(),
                n == count_floor(self.tiles@.take(i as int)),
                n <= i,
            decreases self.tiles@.len() - i,
        {
            assert(self.tiles@.take(i + 1).drop_last() == self.tiles@.take(i as int));
            if self.tiles[i] == Tile::Floor {
                n = n + 1;
            }
            i = i + 1;
        }
        assert(self.tiles@.take(i as int) == self.tiles@);
        n
    }

    /// Which room (if any) this tile belongs to.
    pub fn room_at(&self, x: usize, y: usize) -> (r: Option<RoomId>)
        requires
            self.inv(),
            y * self.width + x < self.width * self.height,
        ensures
            r == self.tags()[y * self.width + x],
    {
        self.room_of[y * self.width + x]
    }

    /// The kind of room this tile belongs to, if any.
    pub fn room_kind_at(&self, x: usize, y: usize) -> (k: Option<RoomKind>)
        requires
            self.inv(),
            self.tags_resolve(),
            y * self.width + x < self.width * self.height,
        ensures
            k == (match self.tags()[y * self.width + x] {
                Some(id) => Some(self.room_list()[id.0 as int].kind),
                None => None,
            }),
    {
        match self.room_at(x, y) {
            Some(RoomId(i)) => Some(self.rooms[i].kind),
            None => None,
        }
    }

    /// All semantic rooms in the level.
    pub fn rooms(&self) -> (r: &Vec<Room>)
        ensures
            r@ == self.room_list(),
    {
        &self.rooms
    }

    /// The in-bounds tile at signed coordinates, if any. World positions reach
    /// the grid through this: the caller floors the world coordinate and asks
    /// which tile (if any) it names.
    pub fn tile_at(&self, x: i64, y: i64) -> (t: Option<(usize, usize)>)
        ensures
            t == (if 0 <= x < self.width && 0 <= y < self.height {
                Some((x as usize, y as usize))
            } else {
                None
            }),
    {
        if x < 0 || y < 0 {
            return None;
        }
        let (ux, uy) = (x as u64, y as u64);
        if (ux as u128) < (self.width as u128) && (uy as u128) < (self.height as u128) {
            Some((ux as usize, uy as usize))
        } else {
            None
        }
    }
}

/// Number of floor tiles in a tile sequence.
pub open spec fn count_floor(s: Seq<Tile>) -> nat
    decreases s.len(),
{
    if s.len() == 0 {
        0
    } else {
        count_floor(s.drop_last()) + if s.last() == Tile::Floor {
            1nat
        } else {
            0nat
        }
    }
}

/// Number of wall tiles in a tile sequence.
pub open spec fn count_wall(s: Seq<Tile>) -> nat
    decreases s.len(),
{
    if s.len() == 0 {
        0
    } else {
        count_wall(s.drop_last()) + if s.last() == Tile::Wall {
            1nat
        } else {
            0nat
        }
    }
}

/// A vector of `n` copies of `v`.
pub fn vec_filled<T: Copy>(v: T, n: usize) -> (out: Vec<T>)
    ensures
        out@.len() == n,
        forall|i: int| 0 <= i < n ==> out@[i] == v,
{
    let mut out: Vec<T> = Vec::with_capacity(n);
    let mut i: usize = 0;
    while i < n
        invariant
            0 <= i <= n,
            out@.len() == i,
            forall|k: int| 0 <= k < i ==> out@[k] == v,
        decreases n - i,
    {
        out.push(v);
        i = i + 1;
    }
    out
}

/// Where the player should start — the centre of the `Start` room.
#[derive(Clone, Copy, Debug)]
pub struct SpawnPoint {
    pub tile: (usize, usize),
}

} // verus!
